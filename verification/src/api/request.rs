//! What a request body asks for.
use crate::chat_template;
use crate::chat_template::ChatTemplate;
use crate::inference;
use crate::inference::{GenerateRequest, Single, JSON_GBNF};
use crate::json;
use crate::json::{
    array_of, bool_of, counted, field, members, opt_tree, signed_of, single_of, text_of, tree,
    trees, unsigned_of, Json, Tree,
};
use crate::text;
use vstd::prelude::*;
use vstd::slice::slice_subrange;

verus! {

/// The most slots that a request may ask for.
pub const MAX_BATCH_SIZE_OVERRIDE: usize = 64;

/// The smallest context that a request may ask for: room for a prompt and some
/// output.
pub const MIN_CTX_SIZE_OVERRIDE: u32 = 512;

/// The largest context that a request may ask for.
pub const MAX_CTX_SIZE_OVERRIDE: u32 = 1_048_576;

/// The context of an embedding model where a request sets none: enough for a
/// chunk of a document.
pub const DEFAULT_EMBEDDING_CTX: u32 = 2048;

/// An error as it is answered: a status and a JSON body.
#[derive(Debug, PartialEq)]
pub struct ApiError {
    pub status: u16,
    pub body: Json,
}

/// The JSON object of an error.
pub open spec fn error_tree(message: Seq<char>) -> Tree {
    Tree::Object(seq![("error"@, Tree::Text(message))])
}

/// The JSON object of an error.
pub fn error_body(message: &str) -> (r: Json)
    ensures
        tree(r) == error_tree(message@),
{
    let mut m: Vec<(String, Json)> = Vec::new();
    json::add_member(&mut m, "error", Json::text(message));
    assert(members(m@) =~= seq![("error"@, Tree::Text(message@))]);
    Json::object(m)
}

impl ApiError {
    pub open spec fn says(self, status: u16, message: Seq<char>) -> bool {
        self.status == status && tree(self.body) == error_tree(message)
    }

    pub fn new(status: u16, message: &str) -> (r: Self)
        ensures
            r.says(status, message@),
    {
        ApiError { status, body: error_body(message) }
    }
}

/// What is wrong with an override: not a whole number, or out of range.
pub open spec fn override_error(name: Seq<char>, value: Tree, min: nat, max: nat) -> Option<
    Seq<char>,
> {
    match unsigned_of(Some(value)) {
        None => Some("invalid `"@ + name + "`: expected a non-negative integer"@),
        Some(n) => if n < min || n > max {
            Some(
                "invalid `"@ + name + "`: must be between "@ + text::decimal(min) + " and "@
                    + text::decimal(max) + ", got "@ + text::decimal(n),
            )
        } else {
            None
        },
    }
}

/// The value of an override: the launch value holds where the field is absent
/// or null.
pub open spec fn given(value: Option<Tree>) -> Option<Tree> {
    match value {
        None | Some(Tree::Null) => None,
        Some(v) => Some(v),
    }
}

/// Reads one override.
fn parse_override(body: &Json, name: &str, min: u64, max: u64) -> (r: Result<Option<u64>, ApiError>)
    ensures
        match given(field(tree(*body), name@)) {
            None => r == Ok::<Option<u64>, ApiError>(None),
            Some(v) => match override_error(name@, v, min as nat, max as nat) {
                Some(m) => r matches Err(e) && e.says(400, m),
                None => r matches Ok(Some(n)) && unsigned_of(Some(v)) == Some(n as nat) && min <= n
                    <= max,
            },
        },
{
    let v: &Json = match body.get(name) {
        Some(v) => v,
        None => {
            return Ok(None);
        },
    };
    match v {
        Json::Null => {
            return Ok(None);
        },
        _ => {},
    }
    let mut m: String = text::copy_text("invalid `");
    m.append(name);
    match v.as_u64() {
        None => {
            m.append("`: expected a non-negative integer");
            Err(ApiError::new(400, m.as_str()))
        },
        Some(n) => {
            if n < min || n > max {
                m.append("`: must be between ");
                let low: String = text::decimal_text(min);
                m.append(low.as_str());
                m.append(" and ");
                let high: String = text::decimal_text(max);
                m.append(high.as_str());
                m.append(", got ");
                let got: String = text::decimal_text(n);
                m.append(got.as_str());
                Err(ApiError::new(400, m.as_str()))
            } else {
                Ok(Some(n))
            }
        },
    }
}

/// What is wrong with the overrides of a request, the batch size first.
pub open spec fn overrides_error(body: Tree) -> Option<Seq<char>> {
    let batch = match given(field(body, "batch_size"@)) {
        Some(v) => override_error("batch_size"@, v, 1, 64),
        None => None,
    };
    let ctx = match given(field(body, "ctx_size"@)) {
        Some(v) => override_error("ctx_size"@, v, 512, 1_048_576),
        None => None,
    };
    if batch is Some {
        batch
    } else {
        ctx
    }
}

/// A number that a request sets, where it sets one.
pub open spec fn set_number(body: Tree, name: Seq<char>) -> Option<nat> {
    match given(field(body, name)) {
        Some(v) => unsigned_of(Some(v)),
        None => None,
    }
}

pub open spec fn size_view(n: Option<usize>) -> Option<nat> {
    match n {
        Some(x) => Some(x as nat),
        None => None,
    }
}

pub open spec fn count_view(n: Option<u32>) -> Option<nat> {
    match n {
        Some(x) => Some(x as nat),
        None => None,
    }
}

/// Reads the `batch_size` and `ctx_size` of a request. Both lead to a load, so
/// a value out of range fails loudly, and one that is no number is an error and
/// not an absence.
pub fn parse_slot_overrides(body: &Json) -> (r: Result<(Option<usize>, Option<u32>), ApiError>)
    ensures
        match overrides_error(tree(*body)) {
            Some(m) => r matches Err(e) && e.says(400, m),
            None => match r {
                Ok(o) => {
                    &&& size_view(o.0) == set_number(tree(*body), "batch_size"@)
                    &&& count_view(o.1) == set_number(tree(*body), "ctx_size"@)
                    &&& o.0 matches Some(n) ==> 1 <= n <= 64
                    &&& o.1 matches Some(n) ==> 512 <= n <= 1_048_576
                },
                Err(_) => false,
            },
        },
{
    let batch: Option<u64> = match parse_override(
        body,
        "batch_size",
        1,
        MAX_BATCH_SIZE_OVERRIDE as u64,
    ) {
        Ok(b) => b,
        Err(e) => {
            return Err(e);
        },
    };
    let ctx: Option<u64> = match parse_override(
        body,
        "ctx_size",
        MIN_CTX_SIZE_OVERRIDE as u64,
        MAX_CTX_SIZE_OVERRIDE as u64,
    ) {
        Ok(c) => c,
        Err(e) => {
            return Err(e);
        },
    };
    Ok(
        (
            match batch {
                Some(n) => Some(n as usize),
                None => None,
            },
            match ctx {
                Some(n) => Some(n as u32),
                None => None,
            },
        ),
    )
}

/// An accepted override is one that a scheduler can serve: at least one slot,
/// few enough that a queue of eight times as many can be counted.
pub proof fn law_accepted_overrides_can_be_served(body: Tree, n: nat)
    requires
        overrides_error(body) is None,
        set_number(body, "batch_size"@) == Some(n),
    ensures
        1 <= n <= 64,
        n * 8 <= i32::MAX,
{
}

/// The sampling parameters of a request.
#[derive(Debug, Clone, Copy, PartialEq, Eq)]
pub struct SamplingParams {
    pub max_tokens: u32,
    pub temperature: Single,
    pub top_k: i32,
    pub top_p: Single,
    pub min_p: Single,
    pub repeat_penalty: Single,
    pub repeat_last_n: i32,
    pub seed: Option<u32>,
    pub num_ctx: Option<u32>,
}

/// A parameter: in the body itself, or else in its `options`.
pub open spec fn param(body: Tree, key: Seq<char>) -> Option<Tree> {
    match field(body, key) {
        Some(v) => Some(v),
        None => match field(body, "options"@) {
            Some(o) => field(o, key),
            None => None,
        },
    }
}

/// The low 32 bits of a number.
pub open spec fn low_bits(n: nat) -> u32 {
    (n % 0x1_0000_0000) as u32
}

/// The low 32 bits of a signed number, as a signed number.
pub open spec fn signed_low_bits(n: int) -> i32 {
    ((n + 0x8000_0000) % 0x1_0000_0000 - 0x8000_0000) as i32
}

pub open spec fn low_bits_of(t: Option<Tree>) -> Option<u32> {
    match unsigned_of(t) {
        Some(n) => Some(low_bits(n)),
        None => None,
    }
}

pub open spec fn signed_or(t: Option<Tree>, default: i32) -> i32 {
    match signed_of(t) {
        Some(n) => signed_low_bits(n),
        None => default,
    }
}

pub open spec fn single_or(t: Option<Tree>, bits: u32) -> Single {
    match single_of(t) {
        Some(s) => s,
        None => Single { bits },
    }
}

/// The parameters that a request sets, and the usual ones where it sets none:
/// no limit on the output, a temperature of 0.8, the best 40 tokens, 0.9 of the
/// probability, and a penalty of 1.1 on the last 64 tokens.
pub open spec fn sampling(body: Tree) -> SamplingParams {
    let limit = match param(body, "max_tokens"@) {
        Some(v) => Some(v),
        None => param(body, "num_predict"@),
    };
    SamplingParams {
        max_tokens: match low_bits_of(limit) {
            Some(n) => n,
            None => u32::MAX,
        },
        temperature: single_or(param(body, "temperature"@), 0x3F4C_CCCD),
        top_k: signed_or(param(body, "top_k"@), 40),
        top_p: single_or(param(body, "top_p"@), 0x3F66_6666),
        min_p: single_or(param(body, "min_p"@), 0),
        repeat_penalty: single_or(param(body, "repeat_penalty"@), 0x3F8C_CCCD),
        repeat_last_n: signed_or(param(body, "repeat_last_n"@), 64),
        seed: low_bits_of(param(body, "seed"@)),
        num_ctx: low_bits_of(param(body, "num_ctx"@)),
    }
}

fn get_param<'a>(body: &'a Json, key: &str) -> (r: Option<&'a Json>)
    ensures
        opt_tree(r) == param(tree(*body), key@),
{
    match body.get(key) {
        Some(v) => Some(v),
        None => match body.get("options") {
            Some(o) => o.get(key),
            None => None,
        },
    }
}

fn get_low_bits(v: Option<&Json>) -> (r: Option<u32>)
    ensures
        r == low_bits_of(opt_tree(v)),
{
    match v {
        Some(j) => match j.as_u64() {
            Some(n) => Some((n % 0x1_0000_0000) as u32),
            None => None,
        },
        None => None,
    }
}

fn get_signed(v: Option<&Json>, default: i32) -> (r: i32)
    ensures
        r == signed_or(opt_tree(v), default),
{
    match v {
        Some(j) => match j.as_i64() {
            Some(n) => {
                let shifted: u128 = ((n as i128) + 0x8000_0000i128
                    + 0x1_0000_0000_0000_0000i128) as u128;
                let low: u128 = shifted % 0x1_0000_0000;
                assert(shifted == n + 0x8000_0000 + 0x1_0000_0000 * 0x1_0000_0000);
                assert(low == (n + 0x8000_0000) % 0x1_0000_0000) by (nonlinear_arith)
                    requires
                        shifted == n + 0x8000_0000 + 0x1_0000_0000 * 0x1_0000_0000,
                        low == shifted % 0x1_0000_0000,
                ;
                ((low as i64) - 0x8000_0000) as i32
            },
            None => default,
        },
        None => default,
    }
}

fn get_single(v: Option<&Json>, bits: u32) -> (r: Single)
    ensures
        r == single_or(opt_tree(v), bits),
{
    match v {
        Some(j) => match j.as_single() {
            Some(s) => s,
            None => Single { bits },
        },
        None => Single { bits },
    }
}

/// Reads the sampling parameters of a request, from the body or its `options`.
pub fn parse_generate_params(body: &Json) -> (r: SamplingParams)
    ensures
        r == sampling(tree(*body)),
{
    let limit: Option<&Json> = match get_param(body, "max_tokens") {
        Some(v) => Some(v),
        None => get_param(body, "num_predict"),
    };
    SamplingParams {
        max_tokens: match get_low_bits(limit) {
            Some(n) => n,
            None => u32::MAX,
        },
        temperature: get_single(get_param(body, "temperature"), 0x3F4C_CCCD),
        top_k: get_signed(get_param(body, "top_k"), 40),
        top_p: get_single(get_param(body, "top_p"), 0x3F66_6666),
        min_p: get_single(get_param(body, "min_p"), 0),
        repeat_penalty: get_single(get_param(body, "repeat_penalty"), 0x3F8C_CCCD),
        repeat_last_n: get_signed(get_param(body, "repeat_last_n"), 64),
        seed: get_low_bits(get_param(body, "seed")),
        num_ctx: get_low_bits(get_param(body, "num_ctx")),
    }
}

/// A switch of a request.
pub open spec fn switch(body: Tree, key: Seq<char>, default: bool) -> bool {
    match bool_of(field(body, key)) {
        Some(b) => b,
        None => default,
    }
}

fn get_switch(body: &Json, key: &str, default: bool) -> (r: bool)
    ensures
        r == switch(tree(*body), key@, default),
{
    match body.get(key) {
        Some(v) => match v.as_bool() {
            Some(b) => b,
            None => default,
        },
        None => default,
    }
}

/// Whether the answer is to be streamed.
pub fn is_streaming(body: &Json) -> (r: bool)
    ensures
        r == switch(tree(*body), "stream"@, false),
{
    get_switch(body, "stream", false)
}

/// A text of a request.
pub open spec fn text_field(body: Tree, key: Seq<char>, default: Seq<char>) -> Seq<char> {
    match text_of(field(body, key)) {
        Some(s) => s,
        None => default,
    }
}

/// Reads a text of a request.
pub fn get_text<'a>(body: &'a Json, key: &str, default: &'a str) -> (r: &'a str)
    ensures
        r@ == text_field(tree(*body), key@, default@),
{
    match body.get(key) {
        Some(v) => match v.as_text() {
            Some(s) => s,
            None => default,
        },
        None => default,
    }
}

/// The model that a request names, where it names one.
pub fn requested_model(body: &Json) -> (r: Option<&str>)
    ensures
        match r {
            Some(s) => text_of(field(tree(*body), "model"@)) == Some(s@),
            None => text_of(field(tree(*body), "model"@)) is None,
        },
{
    match body.get("model") {
        Some(v) => v.as_text(),
        None => None,
    }
}

/// The request asks for JSON.
pub open spec fn wants_json(body: Tree) -> bool {
    text_of(field(body, "format"@)) == Some("json"@)
}

pub open spec fn opt_text(s: Option<String>) -> Option<Seq<char>> {
    match s {
        Some(t) => Some(t@),
        None => None,
    }
}

/// The grammar that keeps the output to JSON, where the request asks for it.
pub fn parse_format_grammar(body: &Json) -> (r: Option<String>)
    ensures
        opt_text(r) == if wants_json(tree(*body)) {
            Some(JSON_GBNF@)
        } else {
            None
        },
{
    match body.get("format") {
        Some(v) => match v.as_text() {
            Some(f) => if text::same_text(f, "json") {
                Some(text::copy_text(JSON_GBNF))
            } else {
                None
            },
            None => None,
        },
        None => None,
    }
}

/// The role and content of a message; a message without a role is the user's.
pub open spec fn message(t: Tree) -> (Seq<char>, Seq<char>) {
    (text_field(t, "role"@, "user"@), text_field(t, "content"@, ""@))
}

pub open spec fn conversation(messages: Seq<Tree>) -> Seq<(Seq<char>, Seq<char>)> {
    messages.map_values(|t: Tree| message(t))
}

/// Writes a conversation down in the format of the model that answers.
pub fn format_chat_prompt(messages: &[Json], think: bool, model_name: &str) -> (r: String)
    ensures
        r@ == chat_template::prompt(
            chat_template::template_for(text::lowercase(model_name@)),
            conversation(trees(messages@)),
            think,
        ),
{
    let template: ChatTemplate = ChatTemplate::detect(model_name);
    template_prompt(&template, messages, think)
}

/// Writes a conversation down in a given format.
pub fn template_prompt(template: &ChatTemplate, messages: &[Json], think: bool) -> (r: String)
    ensures
        r@ == chat_template::prompt(*template, conversation(trees(messages@)), think),
{
    let mut pairs: Vec<(&str, &str)> = Vec::new();
    let ghost all = conversation(trees(messages@));
    let mut i: usize = 0;
    while i < messages.len()
        invariant
            i <= messages@.len(),
            all == conversation(trees(messages@)),
            chat_template::turns(pairs@) == all.take(i as int),
        decreases messages.len() - i,
    {
        let ghost before = pairs@;
        pairs.push(
            (get_text(&messages[i], "role", "user"), get_text(&messages[i], "content", "")),
        );
        assert(chat_template::turns(pairs@) =~= chat_template::turns(before).push(all[i as int]));
        assert(all.take(i + 1) =~= all.take(i as int).push(all[i as int]));
        i = i + 1;
    }
    assert(all.take(i as int) =~= all);
    template.build_prompt(&pairs, think)
}

/// The index of the last message whose role is the user's; -1 without one.
pub open spec fn last_user(messages: Seq<Tree>) -> int
    decreases messages.len(),
{
    if messages.len() == 0 {
        -1
    } else if text_of(field(messages.last(), "role"@)) == Some("user"@) {
        messages.len() - 1
    } else {
        last_user(messages.drop_last())
    }
}

/// Finds the last message of the user.
pub fn last_user_index(messages: &[Json]) -> (r: Option<usize>)
    ensures
        match r {
            Some(i) => i == last_user(trees(messages@)) && i < messages@.len(),
            None => last_user(trees(messages@)) == -1,
        },
{
    let mut n: usize = messages.len();
    let ghost all = trees(messages@);
    assert(all.take(n as int) =~= all);
    while n > 0
        invariant
            n <= messages@.len(),
            all == trees(messages@),
            last_user(all) == last_user(all.take(n as int)),
        decreases n,
    {
        let ghost here = all.take(n as int);
        assert(here.drop_last() =~= all.take(n - 1));
        assert(here.last() == tree(messages@[n - 1]));
        let of_user: bool = match messages[n - 1].get("role") {
            Some(v) => match v.as_text() {
                Some(s) => text::same_text(s, "user"),
                None => false,
            },
            None => false,
        };
        if of_user {
            return Some(n - 1);
        }
        n = n - 1;
    }
    None
}

/// The messages of a request.
pub open spec fn messages_of(body: Tree) -> Seq<Tree> {
    match array_of(field(body, "messages"@)) {
        Some(v) => v,
        None => Seq::empty(),
    }
}

/// What follows the last comma: a payload without the prefix of a `data:` URL.
pub open spec fn after_comma(s: Seq<char>) -> Seq<char>
    decreases s.len(),
{
    if s.len() == 0 || s.last() == ',' {
        Seq::empty()
    } else {
        after_comma(s.drop_last()).push(s.last())
    }
}

proof fn lemma_after_comma(s: Seq<char>, i: int)
    requires
        0 <= i <= s.len(),
        i == 0 || s[i - 1] == ',',
        forall|j: int| i <= j < s.len() ==> s[j] != ',',
    ensures
        after_comma(s) == s.skip(i),
    decreases s.len(),
{
    if i == s.len() {
        assert(s.skip(i) =~= Seq::empty());
    } else {
        lemma_after_comma(s.drop_last(), i);
        assert(s.drop_last().skip(i).push(s.last()) =~= s.skip(i));
    }
}

fn payload_of(s: &str) -> (r: String)
    ensures
        r@ == after_comma(s@),
{
    let c: Vec<char> = text::to_chars(s);
    let mut from: usize = c.len();
    while from > 0 && c[from - 1] != ','
        invariant
            from <= c@.len(),
            forall|j: int| from <= j < c@.len() ==> c@[j] != ',',
        decreases from,
    {
        from = from - 1;
    }
    proof {
        lemma_after_comma(c@, from as int);
    }
    let rest: &[char] = slice_subrange(&c, from, c.len());
    assert(rest@ =~= c@.skip(from as int));
    text::from_chars(rest)
}

/// The payloads of a list of images, where all of them are texts.
pub open spec fn payloads(images: Seq<Tree>) -> Option<Seq<Seq<char>>>
    decreases images.len(),
{
    if images.len() == 0 {
        Some(Seq::empty())
    } else {
        match (payloads(images.drop_last()), images.last()) {
            (Some(p), Tree::Text(s)) => Some(p.push(after_comma(s))),
            _ => None,
        }
    }
}

/// The images of the last message of the user, where it has any: its text, and
/// the payload of each image in base64.
pub open spec fn attached(messages: Seq<Tree>) -> Option<(Seq<char>, Seq<Seq<char>>)> {
    let i = last_user(messages);
    if i < 0 {
        None
    } else {
        match array_of(field(messages[i], "images"@)) {
            Some(v) => if v.len() == 0 {
                None
            } else {
                match payloads(v) {
                    Some(p) => Some((text_field(messages[i], "content"@, ""@), p)),
                    None => None,
                }
            },
            None => None,
        }
    }
}

/// The last message of the user carries media.
pub open spec fn has_media(messages: Seq<Tree>) -> bool {
    let i = last_user(messages);
    i >= 0 && (array_of(field(messages[i], "images"@)) matches Some(v) && v.len() > 0)
}

proof fn lemma_payloads_none(images: Seq<Tree>, n: int)
    requires
        0 <= n <= images.len(),
        payloads(images.take(n)) is None,
    ensures
        payloads(images) is None,
    decreases images.len(),
{
    if n == images.len() {
        assert(images.take(n) =~= images);
    } else {
        assert(images.drop_last().take(n) =~= images.take(n));
        lemma_payloads_none(images.drop_last(), n);
    }
}

/// Takes the text and the encoded images out of the last message of the user.
pub fn attached_payloads(messages: &[Json]) -> (r: Option<(String, Vec<String>)>)
    ensures
        match r {
            Some((t, p)) => attached(trees(messages@)) == Some((t@, text::views(p@))),
            None => attached(trees(messages@)) is None,
        },
{
    let i: usize = match last_user_index(messages) {
        Some(i) => i,
        None => {
            return None;
        },
    };
    assert(trees(messages@)[i as int] == tree(messages@[i as int]));
    let images: &Vec<Json> = match messages[i].get("images") {
        Some(v) => match v.as_array() {
            Some(a) => a,
            None => {
                return None;
            },
        },
        None => {
            return None;
        },
    };
    assert(trees(images@).len() == images@.len());
    if images.len() == 0 {
        return None;
    }
    let mut found: Vec<String> = Vec::new();
    let ghost all = trees(images@);
    let mut k: usize = 0;
    assert(all.take(0) =~= Seq::empty());
    assert(text::views(found@) =~= Seq::empty());
    while k < images.len()
        invariant
            k <= images@.len(),
            all == trees(images@),
            all.len() > 0,
            i < messages@.len(),
            i == last_user(trees(messages@)),
            array_of(field(trees(messages@)[i as int], "images"@)) == Some(all),
            payloads(all.take(k as int)) == Some(text::views(found@)),
        decreases images.len() - k,
    {
        proof {
            assert(all.take(k + 1).drop_last() =~= all.take(k as int));
            assert(all.take(k + 1).last() == tree(images@[k as int]));
        }
        match images[k].as_text() {
            Some(s) => {
                let ghost before = text::views(found@);
                found.push(payload_of(s));
                assert(text::views(found@) =~= before.push(after_comma(s@)));
            },
            None => {
                proof {
                    assert(payloads(all.take(k + 1)) is None);
                    lemma_payloads_none(all, k + 1);
                }
                return None;
            },
        }
        k = k + 1;
    }
    assert(all.take(k as int) =~= all);
    let t: String = text::copy_text(get_text(&messages[i], "content", ""));
    Some((t, found))
}

/// What the standard base64 alphabet, with padding, makes of a text.
pub uninterp spec fn base64_bytes(s: Seq<char>) -> Option<Seq<u8>>;

/// `decode` of base64's `STANDARD` engine. Claimed of it: what comes back, the
/// bytes or a refusal, depends on the text alone.
#[verifier::external_body]
pub(crate) fn decode_base64(s: &str) -> (r: Option<Vec<u8>>)
    ensures
        match r {
            Some(v) => base64_bytes(s@) == Some(v@),
            None => base64_bytes(s@) is None,
        },
{
    base64::Engine::decode(&base64::engine::general_purpose::STANDARD, s).ok()
}

/// The bytes of each item, where all were decoded.
pub open spec fn all_bytes(decoded: Seq<Option<Seq<u8>>>) -> Option<Seq<Seq<u8>>>
    decreases decoded.len(),
{
    if decoded.len() == 0 {
        Some(Seq::empty())
    } else {
        match (all_bytes(decoded.drop_last()), decoded.last()) {
            (Some(p), Some(b)) => Some(p.push(b)),
            _ => None,
        }
    }
}

pub open spec fn byte_rows(v: Seq<Vec<u8>>) -> Seq<Seq<u8>> {
    v.map_values(|b: Vec<u8>| b@)
}

pub open spec fn decoded_view(v: Seq<Option<Vec<u8>>>) -> Seq<Option<Seq<u8>>> {
    v.map_values(
        |b: Option<Vec<u8>>|
            match b {
                Some(x) => Some(x@),
                None => None,
            },
    )
}

/// The media of a request: one that cannot be decoded spoils them all.
pub fn collect_media(decoded: Vec<Option<Vec<u8>>>) -> (r: Option<Vec<Vec<u8>>>)
    ensures
        match r {
            Some(v) => all_bytes(decoded_view(decoded@)) == Some(byte_rows(v@)),
            None => all_bytes(decoded_view(decoded@)) is None,
        },
{
    let mut rest: Vec<Option<Vec<u8>>> = decoded;
    let mut back: Vec<Vec<u8>> = Vec::new();
    let ghost all = decoded_view(decoded@);
    let mut i: usize = 0;
    let mut whole: bool = true;
    while i < rest.len() && whole
        invariant
            i <= rest@.len(),
            all == decoded_view(rest@),
            whole == (forall|j: int| 0 <= j < i ==> (#[trigger] all[j]) is Some),
        decreases rest.len() - i,
    {
        assert(all[i as int] is Some == rest@[i as int] is Some);
        if rest[i].is_none() {
            assert(!(all[i as int] is Some));
            whole = false;
        }
        i = i + 1;
    }
    if !whole {
        proof {
            let j = choose|j: int| 0 <= j < i && !((#[trigger] all[j]) is Some);
            lemma_all_bytes_none(all, j);
        }
        return None;
    }
    while rest.len() > 0
        invariant
            rest@.len() <= all.len(),
            decoded_view(rest@) == all.take(rest@.len() as int),
            forall|j: int| 0 <= j < all.len() ==> (#[trigger] all[j]) is Some,
            back@.len() == all.len() - rest@.len(),
            forall|j: int| 0 <= j < back@.len() ==> Some((#[trigger] back@[j])@) == all[all.len() - 1
                - j],
        decreases rest@.len(),
    {
        let ghost n = rest@.len();
        assert(decoded_view(rest@)[n - 1] == all[n - 1]);
        let last: Option<Vec<u8>> = rest.pop().unwrap();
        assert(decoded_view(rest@) =~= all.take(rest@.len() as int));
        match last {
            Some(b) => {
                back.push(b);
            },
            None => {},
        }
    }
    let mut r: Vec<Vec<u8>> = Vec::new();
    assert(all.take(0) =~= Seq::empty());
    assert(byte_rows(r@) =~= Seq::empty());
    while back.len() > 0
        invariant
            back@.len() <= all.len(),
            forall|j: int| 0 <= j < all.len() ==> (#[trigger] all[j]) is Some,
            forall|j: int| 0 <= j < back@.len() ==> Some((#[trigger] back@[j])@) == all[all.len() - 1
                - j],
            all_bytes(all.take(all.len() - back@.len())) == Some(byte_rows(r@)),
        decreases back@.len(),
    {
        let ghost n = all.len() - back@.len();
        let ghost before = r@;
        assert(Some(back@[back@.len() - 1]@) == all[n]);
        let b: Vec<u8> = back.pop().unwrap();
        r.push(b);
        proof {
            assert(all.take(n + 1).drop_last() =~= all.take(n));
            assert(byte_rows(r@) =~= byte_rows(before).push(b@));
        }
    }
    assert(all.take(all.len() as int) =~= all);
    Some(r)
}

proof fn lemma_all_bytes_none(decoded: Seq<Option<Seq<u8>>>, i: int)
    requires
        0 <= i < decoded.len(),
        decoded[i] is None,
    ensures
        all_bytes(decoded) is None,
    decreases decoded.len(),
{
    if i < decoded.len() - 1 {
        lemma_all_bytes_none(decoded.drop_last(), i);
    }
}

/// What decoding each payload gives.
pub open spec fn each_decoded(p: Seq<Seq<char>>) -> Seq<Option<Seq<u8>>> {
    p.map_values(|s: Seq<char>| base64_bytes(s))
}

/// The text and the media of the last message of the user; `None` where it
/// carries no media, or none that can be read.
pub fn extract_multimodal_payload(messages: &[Json]) -> (r: Option<(String, Vec<Vec<u8>>)>)
    ensures
        match attached(trees(messages@)) {
            Some((t, p)) => match all_bytes(each_decoded(p)) {
                Some(b) => r matches Some((x, v)) && x@ == t && byte_rows(v@) == b,
                None => r is None,
            },
            None => r is None,
        },
{
    let (t, p): (String, Vec<String>) = match attached_payloads(messages) {
        Some(x) => x,
        None => {
            return None;
        },
    };
    let mut decoded: Vec<Option<Vec<u8>>> = Vec::new();
    let ghost all = each_decoded(text::views(p@));
    let mut i: usize = 0;
    while i < p.len()
        invariant
            i <= p@.len(),
            all == each_decoded(text::views(p@)),
            decoded_view(decoded@) == all.take(i as int),
        decreases p.len() - i,
    {
        let ghost before = decoded@;
        decoded.push(decode_base64(p[i].as_str()));
        assert(decoded_view(decoded@) =~= decoded_view(before).push(all[i as int]));
        assert(all.take(i + 1) =~= all.take(i as int).push(all[i as int]));
        i = i + 1;
    }
    assert(all.take(i as int) =~= all);
    match collect_media(decoded) {
        Some(v) => Some((t, v)),
        None => None,
    }
}

/// Whether the last message of the user carries media.
pub fn carries_media(messages: &[Json]) -> (r: bool)
    ensures
        r == has_media(trees(messages@)),
{
    match last_user_index(messages) {
        Some(i) => {
            assert(trees(messages@)[i as int] == tree(messages@[i as int]));
            match messages[i].get("images") {
                Some(v) => match v.as_array() {
                    Some(a) => {
                        assert(trees(a@).len() == a@.len());
                        a.len() > 0
                    },
                    None => false,
                },
                None => false,
            }
        },
        None => false,
    }
}

/// A user's text in Gemma's format, with the marker that stands for the media
/// inside the turn.
pub open spec fn media_prompt(marker: Seq<char>, user_text: Seq<char>) -> Seq<char> {
    "<start_of_turn>user\n"@ + marker + "\n"@ + user_text
        + "<end_of_turn>\n<start_of_turn>model\n"@
}

pub fn gemma_multimodal_prompt(marker: &str, user_text: &str) -> (r: String)
    ensures
        r@ == media_prompt(marker@, user_text@),
{
    let mut r: String = text::copy_text("<start_of_turn>user\n");
    r.append(marker);
    r.append("\n");
    r.append(user_text);
    r.append("<end_of_turn>\n<start_of_turn>model\n");
    r
}

/// A request made of the given parts, sampled as `p` says.
pub open spec fn is_request(
    r: GenerateRequest,
    prompt: Seq<char>,
    p: SamplingParams,
    stops: Seq<Seq<char>>,
    filters: Seq<Seq<char>>,
    grammar: Option<Seq<char>>,
    raw: bool,
) -> bool {
    &&& r.prompt@ == prompt
    &&& r.max_tokens == p.max_tokens
    &&& r.temperature == p.temperature
    &&& r.top_k == p.top_k
    &&& r.top_p == p.top_p
    &&& r.min_p == p.min_p
    &&& r.repeat_penalty == p.repeat_penalty
    &&& r.repeat_last_n == p.repeat_last_n
    &&& r.seed == p.seed
    &&& r.num_ctx == p.num_ctx
    &&& text::views(r.stop_sequences@) == stops
    &&& text::views(r.filter_sequences@) == filters
    &&& opt_text(r.grammar) == grammar
    &&& r.raw == raw
}

fn request(
    prompt: String,
    p: SamplingParams,
    stop_sequences: Vec<String>,
    filter_sequences: Vec<String>,
    grammar: Option<String>,
    raw: bool,
) -> (r: GenerateRequest)
    ensures
        is_request(
            r,
            prompt@,
            p,
            text::views(stop_sequences@),
            text::views(filter_sequences@),
            opt_text(grammar),
            raw,
        ),
{
    GenerateRequest {
        prompt,
        max_tokens: p.max_tokens,
        temperature: p.temperature,
        top_k: p.top_k,
        top_p: p.top_p,
        min_p: p.min_p,
        repeat_penalty: p.repeat_penalty,
        repeat_last_n: p.repeat_last_n,
        seed: p.seed,
        stop_sequences,
        filter_sequences,
        num_ctx: p.num_ctx,
        grammar,
        raw,
    }
}

/// The grammar of a request: JSON's, where it asks for JSON.
pub open spec fn grammar_of(body: Tree) -> Option<Seq<char>> {
    if wants_json(body) {
        Some(JSON_GBNF@)
    } else {
        None
    }
}

/// The generation that a `/api/generate` request asks for. In raw mode the
/// caller formats the prompt, and no grammar is applied: it cannot follow the
/// special tokens in such a prompt.
pub open spec fn is_generate(r: GenerateRequest, b: Tree) -> bool {
    let raw = switch(b, "raw"@, false);
    is_request(
        r,
        text_field(b, "prompt"@, ""@),
        sampling(b),
        Seq::empty(),
        inference::harmony_filters(),
        if raw {
            None
        } else {
            grammar_of(b)
        },
        raw,
    )
}

/// Builds the generation that a `/api/generate` request asks for.
pub fn generate_request(body: &Json) -> (r: GenerateRequest)
    ensures
        is_generate(r, tree(*body)),
{
    let prompt: String = text::copy_text(get_text(body, "prompt", ""));
    let p: SamplingParams = parse_generate_params(body);
    let raw: bool = get_switch(body, "raw", false);
    let grammar: Option<String> = if raw {
        None
    } else {
        parse_format_grammar(body)
    };
    let usual: GenerateRequest = GenerateRequest::default();
    assert(text::views(usual.stop_sequences@) =~= Seq::empty());
    request(prompt, p, usual.stop_sequences, usual.filter_sequences, grammar, raw)
}

/// What is dropped from the output: the usual artefacts, and the think tags
/// where no thinking was asked for.
pub open spec fn filters(think: bool) -> Seq<Seq<char>> {
    inference::harmony_filters() + if think {
        seq![]
    } else {
        seq!["</think>"@, "<think>"@]
    }
}

/// The generation that a chat asks of a model in a given format.
pub open spec fn is_chat(
    r: GenerateRequest,
    template: ChatTemplate,
    b: Tree,
    messages: Seq<Tree>,
) -> bool {
    let think = switch(b, "think"@, true);
    is_request(
        r,
        chat_template::prompt(template, conversation(messages), think),
        sampling(b),
        chat_template::stops(template).push("<|end|>"@),
        filters(think),
        grammar_of(b),
        false,
    )
}

/// Builds the generation that a chat asks of a model in a given format.
pub fn chat_request_for(template: &ChatTemplate, body: &Json, messages: &[Json]) -> (r:
    GenerateRequest)
    ensures
        is_chat(r, *template, tree(*body), trees(messages@)),
{
    let think: bool = get_switch(body, "think", true);
    let prompt: String = template_prompt(template, messages, think);
    let p: SamplingParams = parse_generate_params(body);
    let mut stop: Vec<String> = template.stop_sequences();
    let ghost before = text::views(stop@);
    stop.push(text::copy_text("<|end|>"));
    assert(text::views(stop@) =~= before.push("<|end|>"@));
    request(prompt, p, stop, inference::default_filters(think), parse_format_grammar(body), false)
}

/// Builds the generation that a chat asks of the model that answers it.
pub fn chat_request(body: &Json, messages: &[Json], model_name: &str) -> (r: GenerateRequest)
    ensures
        is_chat(
            r,
            chat_template::template_for(text::lowercase(model_name@)),
            tree(*body),
            trees(messages@),
        ),
{
    let template: ChatTemplate = ChatTemplate::detect(model_name);
    chat_request_for(&template, body, messages)
}

/// The generation that a chat with media asks for: Gemma's format, written out,
/// so nothing is put in front of it.
pub open spec fn is_media_chat(
    r: GenerateRequest,
    b: Tree,
    marker: Seq<char>,
    user_text: Seq<char>,
) -> bool {
    is_request(
        r,
        media_prompt(marker, user_text),
        sampling(b),
        chat_template::stops(ChatTemplate::Gemma),
        inference::harmony_filters(),
        None,
        true,
    )
}

/// Builds the generation that a chat with media asks for.
pub fn multimodal_request(body: &Json, marker: &str, user_text: &str) -> (r: GenerateRequest)
    ensures
        is_media_chat(r, tree(*body), marker@, user_text@),
{
    let prompt: String = gemma_multimodal_prompt(marker, user_text);
    let p: SamplingParams = parse_generate_params(body);
    let gemma: ChatTemplate = ChatTemplate::Gemma;
    let none = inference::default_filters(true);
    assert(inference::harmony_filters() + Seq::<Seq<char>>::empty()
        =~= inference::harmony_filters());
    request(prompt, p, gemma.stop_sequences(), none, None, true)
}

pub open spec fn no_multimodal_text() -> Seq<char> {
    "This build has no multimodal support, so the attached media cannot be                           read. The published binaries include it; a build from source needs                           `--features multimodal` (combine it with a backend, e.g.                           `--features \"vulkan,multimodal\"`)."@
}

pub open spec fn text_only_text() -> Seq<char> {
    "Multimodal request but engine is in batched (text-only) mode — the loaded model has no mmproj projector."@
}

/// How a chat is answered.
#[derive(Debug, PartialEq)]
pub enum ChatRoute {
    /// As text.
    Text,
    /// With the media of its last message, and that message's text.
    Media(String, Vec<Vec<u8>>),
    Refused(ApiError),
}

/// Decides how a chat is answered. Media in a build that cannot read them are
/// refused: dropped in silence, they would leave the model to say that it sees
/// none. So are media sent to a model without a projector, which runs batched
/// and not `sequential`.
pub fn route_chat(multimodal_build: bool, sequential: bool, messages: &[Json]) -> (r: ChatRoute)
    ensures
        if !multimodal_build {
            if has_media(trees(messages@)) {
                r matches ChatRoute::Refused(e) && e.says(501, no_multimodal_text())
            } else {
                r is Text
            }
        } else {
            match attached(trees(messages@)) {
                Some((t, p)) => match all_bytes(each_decoded(p)) {
                    Some(b) => if sequential {
                        r matches ChatRoute::Media(x, v) && x@ == t && byte_rows(v@) == b
                    } else {
                        r matches ChatRoute::Refused(e) && e.says(503, text_only_text())
                    },
                    None => r is Text,
                },
                None => r is Text,
            }
        },
{
    if !multimodal_build {
        if carries_media(messages) {
            return ChatRoute::Refused(
                ApiError::new(
                    501,
                    "This build has no multimodal support, so the attached media cannot be                           read. The published binaries include it; a build from source needs                           `--features multimodal` (combine it with a backend, e.g.                           `--features \"vulkan,multimodal\"`).",
                ),
            );
        }
        return ChatRoute::Text;
    }
    match extract_multimodal_payload(messages) {
        Some((t, media)) => if sequential {
            ChatRoute::Media(t, media)
        } else {
            ChatRoute::Refused(
                ApiError::new(
                    503,
                    "Multimodal request but engine is in batched (text-only) mode — the loaded model has no mmproj projector.",
                ),
            )
        },
        None => ChatRoute::Text,
    }
}

/// The texts of a list of values, where all of them are texts.
pub open spec fn all_texts(v: Seq<Tree>) -> Option<Seq<Seq<char>>>
    decreases v.len(),
{
    if v.len() == 0 {
        Some(Seq::empty())
    } else {
        match (all_texts(v.drop_last()), v.last()) {
            (Some(t), Tree::Text(s)) => Some(t.push(s)),
            _ => None,
        }
    }
}

/// The texts that an embedding request is about: one, or a list.
pub open spec fn inputs(body: Tree) -> Option<Seq<Seq<char>>> {
    match field(body, "input"@) {
        Some(Tree::Text(s)) => Some(seq![s]),
        Some(Tree::Array(v)) => all_texts(v),
        _ => None,
    }
}

proof fn lemma_all_texts_none(v: Seq<Tree>, n: int)
    requires
        0 <= n <= v.len(),
        all_texts(v.take(n)) is None,
    ensures
        all_texts(v) is None,
    decreases v.len(),
{
    if n == v.len() {
        assert(v.take(n) =~= v);
    } else {
        assert(v.drop_last().take(n) =~= v.take(n));
        lemma_all_texts_none(v.drop_last(), n);
    }
}

fn texts_of(v: &[Json]) -> (r: Option<Vec<String>>)
    ensures
        match r {
            Some(t) => all_texts(trees(v@)) == Some(text::views(t@)),
            None => all_texts(trees(v@)) is None,
        },
{
    let ghost all = trees(v@);
    let mut r: Vec<String> = Vec::new();
    let mut i: usize = 0;
    assert(all.take(0) =~= Seq::empty());
    assert(text::views(r@) =~= Seq::empty());
    while i < v.len()
        invariant
            i <= v@.len(),
            all == trees(v@),
            all_texts(all.take(i as int)) == Some(text::views(r@)),
        decreases v.len() - i,
    {
        proof {
            assert(all.take(i + 1).drop_last() =~= all.take(i as int));
            assert(all.take(i + 1).last() == tree(v@[i as int]));
        }
        match v[i].as_text() {
            Some(s) => {
                let ghost before = text::views(r@);
                r.push(text::copy_text(s));
                assert(text::views(r@) =~= before.push(s@));
            },
            None => {
                proof {
                    assert(all_texts(all.take(i + 1)) is None);
                    lemma_all_texts_none(all, i + 1);
                }
                return None;
            },
        }
        i = i + 1;
    }
    assert(all.take(i as int) =~= all);
    Some(r)
}

/// Reads the texts of an embedding request. A request without them is refused
/// before any model is looked for.
pub fn embed_inputs(body: &Json) -> (r: Result<Vec<String>, ApiError>)
    ensures
        match inputs(tree(*body)) {
            Some(t) => r matches Ok(v) && text::views(v@) == t,
            None => r matches Err(e) && e.says(
                400,
                "`input` must be a string or an array of strings"@,
            ),
        },
{
    let found: Option<Vec<String>> = match body.get("input") {
        Some(v) => match v {
            Json::Text(s) => {
                let mut one: Vec<String> = Vec::new();
                one.push(text::copy_text(s.as_str()));
                assert(text::views(one@) =~= seq![s@]);
                Some(one)
            },
            _ => match v.as_array() {
                Some(a) => texts_of(a),
                None => None,
            },
        },
        None => None,
    };
    match found {
        Some(v) => Ok(v),
        None => Err(ApiError::new(400, "`input` must be a string or an array of strings")),
    }
}

/// The context that an embedding request asks for: `num_ctx`, or the usual one.
pub fn embed_context(body: &Json) -> (r: u32)
    ensures
        r == (match low_bits_of(param(tree(*body), "num_ctx"@)) {
            Some(n) => n,
            None => DEFAULT_EMBEDDING_CTX,
        }),
{
    match get_low_bits(get_param(body, "num_ctx")) {
        Some(n) => n,
        None => DEFAULT_EMBEDDING_CTX,
    }
}

/// The names of the sampling parameters are not that of the options.
proof fn lemma_names_apart()
    ensures
        "temperature"@ != "options"@,
        "top_k"@ != "options"@,
        "top_p"@ != "options"@,
        "min_p"@ != "options"@,
        "repeat_penalty"@ != "options"@,
        "repeat_last_n"@ != "options"@,
        "seed"@ != "options"@,
        "num_ctx"@ != "options"@,
        "max_tokens"@ != "options"@,
        "num_predict"@ != "options"@,
{
    reveal_strlit("options");
    reveal_strlit("temperature");
    reveal_strlit("top_k");
    reveal_strlit("top_p");
    reveal_strlit("min_p");
    reveal_strlit("repeat_penalty");
    reveal_strlit("repeat_last_n");
    reveal_strlit("seed");
    reveal_strlit("num_ctx");
    reveal_strlit("max_tokens");
    reveal_strlit("num_predict");
    assert("options"@.len() == 7 && "options"@[0] == 'o');
    assert("num_ctx"@[0] == 'n');
    assert("temperature"@.len() == 11 && "top_k"@.len() == 5 && "top_p"@.len() == 5
        && "min_p"@.len() == 5 && "repeat_penalty"@.len() == 14 && "repeat_last_n"@.len() == 13
        && "seed"@.len() == 4 && "max_tokens"@.len() == 10 && "num_predict"@.len() == 11);
}

/// A parameter counts as much in the `options` as in the body itself: moving one
/// there changes nothing of how a request is sampled.
pub proof fn law_options_count_like_the_body(
    rest: Seq<(Seq<char>, Tree)>,
    key: Seq<char>,
    v: Tree,
)
    requires
        forall|i: int|
            0 <= i < rest.len() ==> (#[trigger] rest[i]).0 != key && rest[i].0 != "options"@,
        key != "options"@,
    ensures
        sampling(Tree::Object(rest.push((key, v)))) == sampling(
            Tree::Object(rest.push(("options"@, Tree::Object(seq![(key, v)])))),
        ),
{
    lemma_names_apart();
    lemma_moved(rest, key, v, "temperature"@);
    lemma_moved(rest, key, v, "top_k"@);
    lemma_moved(rest, key, v, "top_p"@);
    lemma_moved(rest, key, v, "min_p"@);
    lemma_moved(rest, key, v, "repeat_penalty"@);
    lemma_moved(rest, key, v, "repeat_last_n"@);
    lemma_moved(rest, key, v, "seed"@);
    lemma_moved(rest, key, v, "num_ctx"@);
    lemma_moved(rest, key, v, "max_tokens"@);
    lemma_moved(rest, key, v, "num_predict"@);
}

proof fn lemma_moved(rest: Seq<(Seq<char>, Tree)>, key: Seq<char>, v: Tree, asked: Seq<char>)
    requires
        forall|i: int|
            0 <= i < rest.len() ==> (#[trigger] rest[i]).0 != key && rest[i].0 != "options"@,
        key != "options"@,
        asked != "options"@,
    ensures
        param(Tree::Object(rest.push((key, v))), asked) == param(
            Tree::Object(rest.push(("options"@, Tree::Object(seq![(key, v)])))),
            asked,
        ),
{
    let o = Tree::Object(seq![(key, v)]);
    json::law_an_added_member_is_found(rest, key, v, asked);
    json::law_an_added_member_is_found(rest, key, v, "options"@);
    json::law_an_added_member_is_found(rest, "options"@, o, asked);
    json::law_an_added_member_is_found(rest, "options"@, o, "options"@);
    json::law_a_field_is_the_first_of_its_name(rest, key, v, seq![]);
    json::law_a_field_is_the_first_of_its_name(rest, "options"@, v, seq![]);
    json::law_an_added_member_is_found(seq![], key, v, asked);
    assert(Seq::<(Seq<char>, Tree)>::empty().push((key, v)) =~= seq![(key, v)]);
}

/// A request is sampled as it asks. Each parameter is looked for under its own
/// name, in the body and then in its `options`: a number there is taken, and
/// anything else leaves the usual value (a temperature of 0.8, the best 40
/// tokens, 0.9 of the probability, no minimum, a penalty of 1.1 on the last 64
/// tokens, no seed, no context of its own, and no limit on the output).
pub proof fn law_a_request_is_sampled_as_it_asks(b: Tree)
    ensures
        ({
            let set = |key: Seq<char>|
                if field(b, key) is Some {
                    field(b, key)
                } else {
                    match field(b, "options"@) {
                        Some(o) => field(o, key),
                        None => None,
                    }
                };
            let single = |key: Seq<char>, usual: u32|
                match set(key) {
                    Some(Tree::Number(_, Some(x))) => x,
                    _ => Single { bits: usual },
                };
            let p = sampling(b);
            &&& p.temperature == single("temperature"@, 0x3F4C_CCCD)
            &&& p.top_p == single("top_p"@, 0x3F66_6666)
            &&& p.min_p == single("min_p"@, 0)
            &&& p.repeat_penalty == single("repeat_penalty"@, 0x3F8C_CCCD)
            &&& p.top_k == match signed_of(set("top_k"@)) {
                Some(n) => signed_low_bits(n),
                None => 40i32,
            }
            &&& p.repeat_last_n == match signed_of(set("repeat_last_n"@)) {
                Some(n) => signed_low_bits(n),
                None => 64i32,
            }
            &&& p.seed == match unsigned_of(set("seed"@)) {
                Some(n) => Some((n % 0x1_0000_0000) as u32),
                None => None,
            }
            &&& p.num_ctx == match unsigned_of(set("num_ctx"@)) {
                Some(n) => Some((n % 0x1_0000_0000) as u32),
                None => None,
            }
            &&& p.max_tokens == match unsigned_of(
                if set("max_tokens"@) is Some {
                    set("max_tokens"@)
                } else {
                    set("num_predict"@)
                },
            ) {
                Some(n) => (n % 0x1_0000_0000) as u32,
                None => 0xFFFF_FFFFu32,
            }
        }),
{
}

/// A number that fits is taken as it is; one that does not keeps its low bits.
pub proof fn law_numbers_that_fit_are_kept(n: int)
    ensures
        -0x8000_0000 <= n <= 0x7FFF_FFFF ==> signed_low_bits(n) == n,
        0 <= n <= 0xFFFF_FFFF ==> low_bits(n as nat) == n,
        (signed_low_bits(n) - n) % 0x1_0000_0000 == 0,
{
    let m = n + 0x8000_0000;
    vstd::arithmetic::div_mod::lemma_fundamental_div_mod(m, 0x1_0000_0000);
    let q = m / 0x1_0000_0000;
    assert(signed_low_bits(n) - n == (-q) * 0x1_0000_0000);
    vstd::arithmetic::div_mod::lemma_mod_multiples_basic(-q, 0x1_0000_0000);
}

/// What a request is sampled with is what was parsed of it, parameter by
/// parameter, whichever endpoint it came to.
pub proof fn law_a_generation_is_sampled_as_parsed(
    r: GenerateRequest,
    b: Tree,
    t: ChatTemplate,
    messages: Seq<Tree>,
    marker: Seq<char>,
    said: Seq<char>,
)
    requires
        is_generate(r, b) || is_chat(r, t, b, messages) || is_media_chat(r, b, marker, said),
    ensures
        r.max_tokens == sampling(b).max_tokens,
        r.temperature == sampling(b).temperature,
        r.top_k == sampling(b).top_k,
        r.top_p == sampling(b).top_p,
        r.min_p == sampling(b).min_p,
        r.repeat_penalty == sampling(b).repeat_penalty,
        r.repeat_last_n == sampling(b).repeat_last_n,
        r.seed == sampling(b).seed,
        r.num_ctx == sampling(b).num_ctx,
{
}

/// A generation has the prompt of its request, as it is. It is raw where the
/// request says so, and keeps to JSON where the request asks for that and is not
/// raw.
pub proof fn law_a_generation_has_the_prompt_of_its_request(r: GenerateRequest, b: Tree)
    requires
        is_generate(r, b),
    ensures
        field(b, "prompt"@) matches Some(Tree::Text(s)) ==> r.prompt@ == s,
        !(field(b, "prompt"@) matches Some(Tree::Text(_))) ==> r.prompt@.len() == 0,
        r.raw <==> field(b, "raw"@) == Some(Tree::Bool(true)),
        r.grammar is Some <==> !r.raw && field(b, "format"@) == Some(Tree::Text("json"@)),
        r.grammar matches Some(g) ==> g@ == JSON_GBNF@,
        r.stop_sequences@.len() == 0,
{
    reveal_strlit("");
    assert(text::views(r.stop_sequences@).len() == 0);
}

/// A chat has its conversation as its prompt, in the format of the model, with
/// the model's stop sequences and one more, and keeps to JSON where the request
/// asks for that. Think tags are filtered where thinking is off.
pub proof fn law_a_chat_has_its_conversation_as_its_prompt(
    r: GenerateRequest,
    t: ChatTemplate,
    b: Tree,
    messages: Seq<Tree>,
)
    requires
        is_chat(r, t, b, messages),
    ensures
        ({
            let think = field(b, "think"@) != Some(Tree::Bool(false));
            &&& r.prompt@ == chat_template::prompt(t, conversation(messages), think)
            &&& text::views(r.stop_sequences@) == chat_template::stops(t).push("<|end|>"@)
            &&& !r.raw
            &&& r.grammar is Some <==> field(b, "format"@) == Some(Tree::Text("json"@))
            &&& r.grammar matches Some(g) ==> g@ == JSON_GBNF@
            &&& (exists|i: int|
                0 <= i < r.filter_sequences@.len() && (#[trigger] r.filter_sequences@[i])@
                    == "<think>"@) || think
            &&& (exists|i: int|
                0 <= i < r.filter_sequences@.len() && (#[trigger] r.filter_sequences@[i])@
                    == "</think>"@) || think
        }),
{
    let f = text::views(r.filter_sequences@);
    if field(b, "think"@) == Some(Tree::Bool(false)) {
        assert(f.len() == 13);
        assert(f[11] == "</think>"@ && f[12] == "<think>"@);
        assert(r.filter_sequences@[11]@ == "</think>"@);
        assert(r.filter_sequences@[12]@ == "<think>"@);
    }
}

/// Each message counts in the conversation with its role and its content, in
/// order; one without a role is the user's.
pub proof fn law_messages_keep_their_role_and_content(messages: Seq<Tree>, i: int)
    requires
        0 <= i < messages.len(),
    ensures
        conversation(messages).len() == messages.len(),
        field(messages[i], "role"@) matches Some(Tree::Text(s)) ==> conversation(messages)[i].0 == s,
        !(field(messages[i], "role"@) matches Some(Tree::Text(_))) ==> conversation(messages)[i].0
            == "user"@,
        field(messages[i], "content"@) matches Some(Tree::Text(s)) ==> conversation(messages)[i].1
            == s,
        !(field(messages[i], "content"@) matches Some(Tree::Text(_))) ==> conversation(
            messages,
        )[i].1 == ""@,
{
}

/// The messages of a request are its `messages`, and nothing where that is no
/// list.
pub proof fn law_the_messages_are_those_of_the_request(b: Tree)
    ensures
        field(b, "messages"@) matches Some(Tree::Array(v)) ==> messages_of(b) == v,
        !(field(b, "messages"@) matches Some(Tree::Array(_))) ==> messages_of(b).len() == 0,
{
}

/// The last message of the user is the last with that role.
pub proof fn law_nothing_of_the_user_follows_their_last_message(messages: Seq<Tree>)
    ensures
        ({
            let i = last_user(messages);
            &&& -1 <= i < messages.len()
            &&& i >= 0 ==> field(messages[i], "role"@) == Some(Tree::Text("user"@))
            &&& forall|j: int|
                i < j < messages.len() ==> field(#[trigger] messages[j], "role"@) != Some(
                    Tree::Text("user"@),
                )
        }),
    decreases messages.len(),
{
    if messages.len() > 0 && text_of(field(messages.last(), "role"@)) != Some("user"@) {
        let less = messages.drop_last();
        law_nothing_of_the_user_follows_their_last_message(less);
        let i = last_user(messages);
        if i >= 0 {
            assert(less[i] == messages[i]);
        }
        assert forall|j: int| i < j < messages.len() implies field(
            #[trigger] messages[j],
            "role"@,
        ) != Some(Tree::Text("user"@)) by {
            if j < messages.len() - 1 {
                assert(less[j] == messages[j]);
            }
        }
    }
}

/// The payload of an image is what follows the last comma of its text, or all of
/// it.
pub proof fn law_a_payload_follows_the_last_comma(front: Seq<char>, payload: Seq<char>)
    requires
        forall|i: int| 0 <= i < payload.len() ==> payload[i] != ',',
    ensures
        after_comma(front + seq![','] + payload) == payload,
        after_comma(payload) == payload,
{
    let s = front + seq![','] + payload;
    lemma_after_comma(s, front.len() as int + 1);
    assert(s.skip(front.len() as int + 1) =~= payload);
    lemma_after_comma(payload, 0);
    assert(payload.skip(0) =~= payload);
}

proof fn lemma_payloads_are(images: Seq<Tree>)
    ensures
        match payloads(images) {
            Some(p) => p.len() == images.len() && forall|i: int|
                0 <= i < images.len() ==> (#[trigger] images[i] matches Tree::Text(s) && p[i]
                    == after_comma(s)),
            None => exists|i: int| 0 <= i < images.len() && !(#[trigger] images[i] is Text),
        },
    decreases images.len(),
{
    if images.len() > 0 {
        let less = images.drop_last();
        lemma_payloads_are(less);
        match payloads(less) {
            None => {
                let i = choose|i: int| 0 <= i < less.len() && !(#[trigger] less[i] is Text);
                assert(!(images[i] is Text));
            },
            Some(p) => {
                if let Tree::Text(s) = images.last() {
                    let w = p.push(after_comma(s));
                    assert forall|i: int| 0 <= i < images.len() implies (
                    #[trigger] images[i] matches Tree::Text(s) && w[i] == after_comma(s)) by {
                        if i < less.len() {
                            assert(less[i] == images[i]);
                        }
                    }
                } else {
                    assert(!(images[images.len() - 1] is Text));
                }
            },
        }
    }
}

/// The media of a chat are the images of the user's last message, all of them
/// and in order, with the text that goes with them; one that is no text spoils
/// them all.
pub proof fn law_media_are_those_of_the_last_message(messages: Seq<Tree>, i: int, v: Seq<Tree>)
    requires
        i == last_user(messages),
        0 <= i,
        field(messages[i], "images"@) == Some(Tree::Array(v)),
        v.len() > 0,
    ensures
        has_media(messages),
        attached(messages) is Some <==> forall|k: int| 0 <= k < v.len() ==> #[trigger] v[k] is Text,
        attached(messages) matches Some((said, p)) ==> {
            &&& said == (match field(messages[i], "content"@) {
                Some(Tree::Text(s)) => s,
                _ => ""@,
            })
            &&& p.len() == v.len()
            &&& forall|k: int|
                0 <= k < v.len() ==> (#[trigger] v[k] matches Tree::Text(s) && p[k] == after_comma(
                    s,
                ))
        },
{
    lemma_payloads_are(v);
}

/// A request without images in the user's last message has no media.
pub proof fn law_without_images_there_are_no_media(messages: Seq<Tree>)
    requires
        last_user(messages) < 0 || !(field(messages[last_user(messages)], "images"@) matches Some(
            Tree::Array(v),
        ) && v.len() > 0),
    ensures
        attached(messages) is None,
        !has_media(messages),
{
}

proof fn lemma_all_bytes_are(d: Seq<Option<Seq<u8>>>)
    ensures
        match all_bytes(d) {
            Some(p) => p.len() == d.len() && forall|i: int|
                0 <= i < d.len() ==> #[trigger] d[i] == Some(p[i]),
            None => exists|i: int| 0 <= i < d.len() && #[trigger] d[i] is None,
        },
    decreases d.len(),
{
    if d.len() > 0 {
        let less = d.drop_last();
        lemma_all_bytes_are(less);
        match all_bytes(less) {
            None => {
                let i = choose|i: int| 0 <= i < less.len() && #[trigger] less[i] is None;
                assert(d[i] is None);
            },
            Some(p) => {
                if let Some(b) = d.last() {
                    let w = p.push(b);
                    assert forall|i: int| 0 <= i < d.len() implies #[trigger] d[i] == Some(w[i]) by {
                        if i < less.len() {
                            assert(less[i] == d[i]);
                        }
                    }
                } else {
                    assert(d[d.len() - 1] is None);
                }
            },
        }
    }
}

/// Media are handed over whole and in order, or not at all: each as its payload
/// decodes.
pub proof fn law_media_are_decoded_one_by_one(p: Seq<Seq<char>>)
    ensures
        all_bytes(each_decoded(p)) is Some <==> forall|i: int|
            0 <= i < p.len() ==> base64_bytes(#[trigger] p[i]) is Some,
        all_bytes(each_decoded(p)) matches Some(v) ==> v.len() == p.len() && forall|i: int|
            0 <= i < p.len() ==> base64_bytes(#[trigger] p[i]) == Some(v[i]),
{
    let d = each_decoded(p);
    lemma_all_bytes_are(d);
    assert forall|i: int| 0 <= i < p.len() implies d[i] == base64_bytes(#[trigger] p[i]) by {}
    match all_bytes(d) {
        Some(v) => {
            assert forall|i: int| 0 <= i < p.len() implies base64_bytes(#[trigger] p[i]) == Some(
                v[i],
            ) by {
                assert(d[i] == Some(v[i]));
            }
        },
        None => {
            let i = choose|i: int| 0 <= i < d.len() && #[trigger] d[i] is None;
            assert(base64_bytes(p[i]) is None);
        },
    }
}

proof fn lemma_all_texts_are(v: Seq<Tree>)
    ensures
        match all_texts(v) {
            Some(t) => t.len() == v.len() && forall|i: int|
                0 <= i < v.len() ==> #[trigger] v[i] == Tree::Text(t[i]),
            None => exists|i: int| 0 <= i < v.len() && !(#[trigger] v[i] is Text),
        },
    decreases v.len(),
{
    if v.len() > 0 {
        let less = v.drop_last();
        lemma_all_texts_are(less);
        match all_texts(less) {
            None => {
                let i = choose|i: int| 0 <= i < less.len() && !(#[trigger] less[i] is Text);
                assert(!(v[i] is Text));
            },
            Some(t) => {
                if let Tree::Text(s) = v.last() {
                    let w = t.push(s);
                    assert forall|i: int| 0 <= i < v.len() implies #[trigger] v[i] == Tree::Text(
                        w[i],
                    ) by {
                        if i < less.len() {
                            assert(less[i] == v[i]);
                        }
                    }
                } else {
                    assert(!(v[v.len() - 1] is Text));
                }
            },
        }
    }
}

/// An embedding request is about its `input`: a text, or texts in order.
pub proof fn law_inputs_are_taken_in_order(b: Tree)
    ensures
        field(b, "input"@) matches Some(Tree::Text(s)) ==> inputs(b) == Some(seq![s]),
        field(b, "input"@) matches Some(Tree::Array(v)) ==> {
            &&& inputs(b) is Some <==> forall|i: int|
                0 <= i < v.len() ==> #[trigger] v[i] is Text
            &&& inputs(b) matches Some(t) ==> t.len() == v.len() && forall|i: int|
                0 <= i < v.len() ==> #[trigger] v[i] == Tree::Text(t[i])
        },
        !(field(b, "input"@) matches Some(Tree::Text(_))) && !(field(b, "input"@) matches Some(
            Tree::Array(_),
        )) ==> inputs(b) is None,
{
    if let Some(Tree::Array(v)) = field(b, "input"@) {
        lemma_all_texts_are(v);
    }
}

/// A request's own slots and context are taken only within what can be served:
/// 1 to 64 slots, 512 to 1048576 tokens. Anything else that is set is refused.
pub proof fn law_overrides_are_held_to_their_range(b: Tree)
    ensures
        ({
            let free = |key: Seq<char>| field(b, key) is None || field(b, key) == Some(Tree::Null);
            let fits = |key: Seq<char>, low: nat, high: nat|
                free(key) || (unsigned_of(field(b, key)) matches Some(n) && low <= n <= high);
            &&& overrides_error(b) is None <==> fits("batch_size"@, 1, 64) && fits(
                "ctx_size"@,
                512,
                1_048_576,
            )
            &&& free("batch_size"@) ==> set_number(b, "batch_size"@) is None
            &&& !free("batch_size"@) ==> set_number(b, "batch_size"@) == unsigned_of(
                field(b, "batch_size"@),
            )
            &&& free("ctx_size"@) ==> set_number(b, "ctx_size"@) is None
            &&& !free("ctx_size"@) ==> set_number(b, "ctx_size"@) == unsigned_of(
                field(b, "ctx_size"@),
            )
        }),
{
}

/// A prompt with media has the marker in the user's turn, in front of the text.
pub proof fn law_media_stand_in_front_of_the_question(marker: Seq<char>, said: Seq<char>)
    ensures
        media_prompt(marker, said) == chat_template::prompt(
            ChatTemplate::Gemma,
            seq![("user"@, marker + "\n"@ + said)],
            true,
        ),
{
    let content = marker + "\n"@ + said;
    let m = seq![("user"@, content)];
    reveal_strlit("user");
    reveal_strlit("assistant");
    reveal_strlit("\n");
    reveal_strlit("<start_of_turn>");
    reveal_strlit("<start_of_turn>user\n");
    reveal_strlit("<end_of_turn>\n");
    reveal_strlit("<start_of_turn>model\n");
    reveal_strlit("<end_of_turn>\n<start_of_turn>model\n");
    assert("user"@.len() != "assistant"@.len());
    assert("<start_of_turn>"@ + "user"@ + "\n"@ =~= "<start_of_turn>user\n"@);
    assert("<end_of_turn>\n"@ + "<start_of_turn>model\n"@
        =~= "<end_of_turn>\n<start_of_turn>model\n"@);
    let none = Seq::<(Seq<char>, Seq<char>)>::empty();
    assert(m =~= none.push(("user"@, content)));
    chat_template::law_a_prompt_opens_the_assistants_turn();
    chat_template::law_a_message_adds_its_turn_in_gemma(none, "user"@, content);
    let open = "<start_of_turn>model\n"@;
    assert(open.take(0) =~= Seq::empty());
    assert(media_prompt(marker, said) =~= ("<start_of_turn>"@ + "user"@ + "\n"@) + content + (
    "<end_of_turn>\n"@ + open));
    assert(chat_template::prompt(ChatTemplate::Gemma, m, true) =~= Seq::<char>::empty()
        + "<start_of_turn>"@ + "user"@ + "\n"@ + content + "<end_of_turn>\n"@ + open);
}

proof fn lemma_no_filter_is_a_think_tag(i: int)
    requires
        0 <= i < inference::harmony_filters().len(),
    ensures
        inference::harmony_filters()[i] != "<think>"@,
        inference::harmony_filters()[i] != "</think>"@,
{
    reveal_strlit("<think>");
    reveal_strlit("</think>");
    reveal_strlit("<|channel>thought<channel|>");
    reveal_strlit("<|channel>analysis<channel|>");
    reveal_strlit("<|channel>final<channel|>");
    reveal_strlit("<|channel>thought\n<channel|>");
    reveal_strlit("<|channel>analysis\n<channel|>");
    reveal_strlit("<|channel>final\n<channel|>");
    reveal_strlit("<|message|>");
    reveal_strlit("<|image>");
    reveal_strlit("<image|>");
    reveal_strlit("<|audio>");
    reveal_strlit("<audio|>");
    assert("<think>"@[1] == 't' && "</think>"@[1] == '/');
    let c = inference::harmony_filters()[i][1];
    assert(c == '|' || c == 'i' || c == 'a');
}

/// Thoughts that were asked for are kept: their tags are filtered out of a chat
/// only where thinking is off, and never out of a generation.
pub proof fn law_thoughts_are_kept_where_they_were_asked_for(
    r: GenerateRequest,
    t: ChatTemplate,
    b: Tree,
    messages: Seq<Tree>,
    i: int,
)
    requires
        is_generate(r, b) || (is_chat(r, t, b, messages) && field(b, "think"@) != Some(
            Tree::Bool(false),
        )),
        0 <= i < r.filter_sequences@.len(),
    ensures
        r.filter_sequences@[i]@ != "<think>"@,
        r.filter_sequences@[i]@ != "</think>"@,
{
    let f = text::views(r.filter_sequences@);
    assert(f[i] == r.filter_sequences@[i]@);
    assert(f =~= inference::harmony_filters());
    lemma_no_filter_is_a_think_tag(i);
}

} // verus!
