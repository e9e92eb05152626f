//! Prompt formats of the model families.
use crate::text;
use vstd::prelude::*;
use vstd::slice::slice_subrange;

verus! {

/// How a conversation is written down for a model.
#[derive(Debug, Clone, Copy, PartialEq, Eq, Structural)]
pub enum ChatTemplate {
    /// `<|im_start|>role\ncontent<|im_end|>`: Qwen3, Mistral-Nemo, Llama 3.1 and
    /// later, and whatever is not recognised.
    ChatML,
    /// `<start_of_turn>role\ncontent<end_of_turn>`, with `model` for the
    /// assistant: Gemma 2, 3 and 4.
    Gemma,
    /// The legacy `[INST]` format of Llama 2.
    Llama2,
    /// `<｜User｜>content<｜Assistant｜>content<｜end▁of▁sentence｜>`, the system
    /// prompt bare in front. The bars are fullwidth and the underscores low
    /// lines: they are tokens of these models, and an ASCII spelling is only
    /// text to them.
    DeepSeekR1,
}

/// The messages of a conversation: role and content of each.
pub open spec fn turns(m: Seq<(&str, &str)>) -> Seq<(Seq<char>, Seq<char>)> {
    m.map_values(|t: (&str, &str)| (t.0@, t.1@))
}

/// The format of a model whose name, in lower case, is `lower`.
pub open spec fn template_for(lower: Seq<char>) -> ChatTemplate {
    if text::occurs(lower, "gemma"@) {
        ChatTemplate::Gemma
    } else if (text::occurs(lower, "llama-2"@) || text::occurs(lower, "llama2"@)) && !text::occurs(
        lower,
        "llama-3"@,
    ) && !text::occurs(lower, "llama3"@) {
        ChatTemplate::Llama2
    } else if text::occurs(lower, "deepseek-r1"@) || text::occurs(lower, "deepseek_r1"@)
        || text::occurs(lower, "r1-distill"@) {
        ChatTemplate::DeepSeekR1
    } else {
        ChatTemplate::ChatML
    }
}

pub open spec fn stops(t: ChatTemplate) -> Seq<Seq<char>> {
    match t {
        ChatTemplate::ChatML => seq!["<|im_end|>"@],
        ChatTemplate::Gemma => seq!["<end_of_turn>"@, "</end_of_turn>"@, "</start_of_turn>"@],
        ChatTemplate::Llama2 => seq!["[/INST]"@, "</s>"@],
        ChatTemplate::DeepSeekR1 => seq!["<｜end▁of▁sentence｜>"@],
    }
}

/// What stands right after the opening of the assistant's turn where thinking
/// is switched off.
pub open spec fn suppression(t: ChatTemplate) -> Seq<char> {
    match t {
        ChatTemplate::ChatML => "<think>\n\n</think>\n\n"@,
        ChatTemplate::Gemma | ChatTemplate::Llama2 | ChatTemplate::DeepSeekR1 => ""@,
    }
}

pub open spec fn chatml_turn(role: Seq<char>, content: Seq<char>) -> Seq<char> {
    "<|im_start|>"@ + role + "\n"@ + content + "<|im_end|>\n"@
}

pub open spec fn gemma_role(role: Seq<char>) -> Seq<char> {
    if role == "assistant"@ {
        "model"@
    } else {
        role
    }
}

pub open spec fn gemma_turn(role: Seq<char>, content: Seq<char>) -> Seq<char> {
    "<start_of_turn>"@ + gemma_role(role) + "\n"@ + content + "<end_of_turn>\n"@
}

/// What follows the last `</think>`, or all of it.
pub open spec fn answer(content: Seq<char>) -> Seq<char>
    decreases content.len(),
{
    if text::occurs(content, "</think>"@) && content.len() > 0 {
        if text::is_prefix("</think>"@, content) && !text::occurs(content.skip(1), "</think>"@) {
            content.skip("</think>"@.len() as int)
        } else {
            answer(content.skip(1))
        }
    } else {
        content
    }
}

pub open spec fn deepseek_turn(role: Seq<char>, content: Seq<char>) -> Seq<char> {
    if role == "system"@ {
        content
    } else if role == "assistant"@ {
        "<｜Assistant｜>"@ + text::trimmed_start(answer(content)) + "<｜end▁of▁sentence｜>"@
    } else {
        "<｜User｜>"@ + content
    }
}

/// A user turn stands before the message at `i`.
pub open spec fn user_before(m: Seq<(Seq<char>, Seq<char>)>, i: int) -> bool {
    exists|j: int| 0 <= j < i && (#[trigger] m[j]).0 == "user"@
}

/// The content of the last system message before the message at `i`.
pub open spec fn system_before(m: Seq<(Seq<char>, Seq<char>)>, i: int) -> Option<Seq<char>>
    decreases i,
{
    if i <= 0 {
        None
    } else if m[i - 1].0 == "system"@ {
        Some(m[i - 1].1)
    } else {
        system_before(m, i - 1)
    }
}

/// The message at `i` in the `[INST]` format: the system prompt goes into the
/// first user turn.
pub open spec fn llama2_turn(m: Seq<(Seq<char>, Seq<char>)>, i: int) -> Seq<char> {
    let (role, content) = m[i];
    if role == "user"@ {
        "<s>[INST] "@ + (if user_before(m, i) {
            Seq::empty()
        } else {
            match system_before(m, i) {
                Some(s) => "<<SYS>>\n"@ + s + "\n<</SYS>>\n\n"@,
                None => Seq::empty(),
            }
        }) + content + " [/INST]"@
    } else if role == "assistant"@ {
        " "@ + content + " </s>"@
    } else {
        Seq::empty()
    }
}

/// The message at `i` as the template writes it.
pub open spec fn turn(t: ChatTemplate, m: Seq<(Seq<char>, Seq<char>)>, i: int) -> Seq<char> {
    match t {
        ChatTemplate::ChatML => chatml_turn(m[i].0, m[i].1),
        ChatTemplate::Gemma => gemma_turn(m[i].0, m[i].1),
        ChatTemplate::Llama2 => llama2_turn(m, i),
        ChatTemplate::DeepSeekR1 => deepseek_turn(m[i].0, m[i].1),
    }
}

/// The first `n` messages, one after the other.
pub open spec fn history(t: ChatTemplate, m: Seq<(Seq<char>, Seq<char>)>, n: int) -> Seq<char>
    decreases n,
{
    if n <= 0 {
        Seq::empty()
    } else {
        history(t, m, n - 1) + turn(t, m, n - 1)
    }
}

/// What opens the assistant's turn.
pub open spec fn opening(t: ChatTemplate) -> Seq<char> {
    match t {
        ChatTemplate::ChatML => "<|im_start|>assistant\n"@,
        ChatTemplate::Gemma => "<start_of_turn>model\n"@,
        ChatTemplate::Llama2 => ""@,
        ChatTemplate::DeepSeekR1 => "<｜Assistant｜>"@,
    }
}

/// The prompt for a conversation: its messages, and the opening of the
/// assistant's turn.
pub open spec fn prompt(t: ChatTemplate, m: Seq<(Seq<char>, Seq<char>)>, think: bool) -> Seq<char> {
    history(t, m, m.len() as int) + opening(t) + (if think {
        Seq::empty()
    } else {
        suppression(t)
    })
}

fn mentions(hay: &[char], needle: &str) -> (r: bool)
    ensures
        r == text::occurs(hay@, needle@),
{
    let n: Vec<char> = text::to_chars(needle);
    text::contains(hay, &n)
}

impl ChatTemplate {
    /// The format of a model, by its name in lower case.
    pub fn detect_lower(lower: &str) -> (r: Self)
        ensures
            r == template_for(lower@),
    {
        let c: Vec<char> = text::to_chars(lower);
        if mentions(&c, "gemma") {
            return ChatTemplate::Gemma;
        }
        if (mentions(&c, "llama-2") || mentions(&c, "llama2")) && !mentions(&c, "llama-3")
            && !mentions(&c, "llama3") {
            return ChatTemplate::Llama2;
        }
        if mentions(&c, "deepseek-r1") || mentions(&c, "deepseek_r1") || mentions(&c, "r1-distill") {
            return ChatTemplate::DeepSeekR1;
        }
        ChatTemplate::ChatML
    }

    /// Recognises the format from a model name or file path, whatever its case.
    pub fn detect(model_name: &str) -> (r: Self)
        ensures
            r == template_for(text::lowercase(model_name@)),
    {
        let lower: String = text::to_lowercase(model_name);
        ChatTemplate::detect_lower(lower.as_str())
    }

    /// The texts that end the assistant's turn.
    pub fn stop_sequences(&self) -> (r: Vec<String>)
        ensures
            text::views(r@) == stops(*self),
    {
        let mut r: Vec<String> = Vec::new();
        match self {
            ChatTemplate::ChatML => {
                r.push(text::copy_text("<|im_end|>"));
            },
            ChatTemplate::Gemma => {
                r.push(text::copy_text("<end_of_turn>"));
                r.push(text::copy_text("</end_of_turn>"));
                r.push(text::copy_text("</start_of_turn>"));
            },
            ChatTemplate::Llama2 => {
                r.push(text::copy_text("[/INST]"));
                r.push(text::copy_text("</s>"));
            },
            ChatTemplate::DeepSeekR1 => {
                r.push(text::copy_text("<｜end▁of▁sentence｜>"));
            },
        }
        assert(text::views(r@) =~= stops(*self));
        r
    }

    /// The text that `build_prompt` puts after the opening of the assistant's
    /// turn where thinking is off. A turn made that way is stored with this in
    /// front of it, or the next prompt no longer starts as the last one did.
    pub fn think_suppression_prefix(&self) -> (r: &'static str)
        ensures
            r@ == suppression(*self),
    {
        match self {
            ChatTemplate::ChatML => "<think>\n\n</think>\n\n",
            ChatTemplate::Gemma | ChatTemplate::Llama2 | ChatTemplate::DeepSeekR1 => "",
        }
    }

    /// Builds the prompt for a conversation of `(role, content)` messages.
    pub fn build_prompt(&self, messages: &[(&str, &str)], think: bool) -> (r: String)
        ensures
            r@ == prompt(*self, turns(messages@), think),
    {
        let mut out: String = String::new();
        let mut first_user: bool = true;
        let mut system: Option<&str> = None;
        let ghost m = turns(messages@);
        let mut i: usize = 0;
        while i < messages.len()
            invariant
                i <= messages@.len(),
                m == turns(messages@),
                out@ == history(*self, m, i as int),
                first_user == !user_before(m, i as int),
                match system {
                    Some(s) => system_before(m, i as int) == Some(s@),
                    None => system_before(m, i as int) is None,
                },
            decreases messages.len() - i,
        {
            let (role, content): (&str, &str) = messages[i];
            assert(m[i as int] == (role@, content@));
            let is_user: bool = text::same_text(role, "user");
            match self {
                ChatTemplate::ChatML => push_chatml(&mut out, role, content),
                ChatTemplate::Gemma => push_gemma(&mut out, role, content),
                ChatTemplate::Llama2 => {
                    let sys: Option<&str> = if first_user {
                        system
                    } else {
                        None
                    };
                    push_llama2(&mut out, role, content, sys, Ghost(m), Ghost(i as int));
                },
                ChatTemplate::DeepSeekR1 => push_deepseek(&mut out, role, content),
            }
            proof {
                if is_user {
                    assert(m[i as int].0 == "user"@);
                }
            }
            if is_user {
                first_user = false;
            }
            if text::same_text(role, "system") {
                system = Some(content);
            }
            i = i + 1;
        }
        match self {
            ChatTemplate::ChatML => out.append("<|im_start|>assistant\n"),
            ChatTemplate::Gemma => out.append("<start_of_turn>model\n"),
            ChatTemplate::Llama2 => out.append(""),
            ChatTemplate::DeepSeekR1 => out.append("<｜Assistant｜>"),
        }
        if !think {
            out.append(self.think_suppression_prefix());
        }
        assert(out@ =~= prompt(*self, m, think));
        out
    }
}

fn push_chatml(out: &mut String, role: &str, content: &str)
    ensures
        final(out)@ == old(out)@ + chatml_turn(role@, content@),
{
    out.append("<|im_start|>");
    out.append(role);
    out.append("\n");
    out.append(content);
    out.append("<|im_end|>\n");
    assert(out@ =~= old(out)@ + chatml_turn(role@, content@));
}

fn push_gemma(out: &mut String, role: &str, content: &str)
    ensures
        final(out)@ == old(out)@ + gemma_turn(role@, content@),
{
    out.append("<start_of_turn>");
    if text::same_text(role, "assistant") {
        out.append("model");
    } else {
        out.append(role);
    }
    out.append("\n");
    out.append(content);
    out.append("<end_of_turn>\n");
    assert(out@ =~= old(out)@ + gemma_turn(role@, content@));
}

fn push_llama2(
    out: &mut String,
    role: &str,
    content: &str,
    sys: Option<&str>,
    Ghost(m): Ghost<Seq<(Seq<char>, Seq<char>)>>,
    Ghost(i): Ghost<int>,
)
    requires
        0 <= i < m.len(),
        m[i] == (role@, content@),
        match sys {
            Some(s) => !user_before(m, i) && system_before(m, i) == Some(s@),
            None => user_before(m, i) || system_before(m, i) is None,
        },
    ensures
        final(out)@ == old(out)@ + llama2_turn(m, i),
{
    if text::same_text(role, "user") {
        out.append("<s>[INST] ");
        match sys {
            Some(s) => {
                out.append("<<SYS>>\n");
                out.append(s);
                out.append("\n<</SYS>>\n\n");
            },
            None => {},
        }
        out.append(content);
        out.append(" [/INST]");
    } else if text::same_text(role, "assistant") {
        out.append(" ");
        out.append(content);
        out.append(" </s>");
    }
    assert(out@ =~= old(out)@ + llama2_turn(m, i));
}

proof fn lemma_answer_skips(c: Seq<char>, i: int)
    requires
        0 <= i <= c.len(),
        text::occurs(c, "</think>"@),
        text::occurs(c.skip(i), "</think>"@),
    ensures
        answer(c) == answer(c.skip(i)),
    decreases i,
{
    reveal_strlit("</think>");
    if i == 0 {
        assert(c.skip(0) =~= c);
    } else {
        let mark = "</think>"@;
        let j = choose|j: int| text::occurs_at(c.skip(i), mark, j);
        assert(c.skip(1).skip(i - 1) =~= c.skip(i));
        assert(c.skip(1).subrange(i - 1 + j, i - 1 + j + mark.len()) =~= c.skip(i).subrange(
            j,
            j + mark.len(),
        ));
        assert(text::occurs_at(c.skip(1), mark, i - 1 + j));
        lemma_answer_skips(c.skip(1), i - 1);
    }
}

/// What follows the last `</think>`, or all of it.
fn visible(content: &[char]) -> (r: &[char])
    ensures
        r@ == answer(content@),
{
    let mark: Vec<char> = text::to_chars("</think>");
    let total: usize = content.len();
    let mut at: usize = total;
    proof {
        reveal_strlit("</think>");
        assert(content@.skip(content@.len() as int).len() == 0);
    }
    while at > 0
        invariant
            at <= total,
            total == content@.len(),
            mark@ == "</think>"@,
            mark@.len() == 8,
            !text::occurs(content@.skip(at as int), "</think>"@),
        decreases at,
    {
        at = at - 1;
        let ghost here = content@.skip(at as int);
        if text::occurs_here(content, &mark, at) {
            assert(text::occurs_at(content@, mark@, at as int));
            let r: &[char] = slice_subrange(content, at + mark.len(), total);
            proof {
                let m = mark@;
                assert(here.subrange(0, m.len() as int) =~= content@.subrange(
                    at as int,
                    at + m.len(),
                ));
                assert(here.take(m.len() as int) =~= here.subrange(0, m.len() as int));
                assert(text::occurs_at(here, m, 0));
                assert(text::occurs_at(content@, m, at as int));
                assert(here.skip(1) =~= content@.skip(at + 1));
                lemma_answer_skips(content@, at as int);
                assert(text::is_prefix(m, here));
                assert(answer(here) == here.skip(8));
                assert(r@ =~= here.skip(8));
            }
            return r;
        }
        proof {
            let m = mark@;
            if text::occurs(here, m) {
                let j = choose|j: int| text::occurs_at(here, m, j);
                if j == 0 {
                    assert(here.subrange(0, m.len() as int) =~= content@.subrange(
                        at as int,
                        at + m.len(),
                    ));
                    assert(text::occurs_at(content@, m, at as int));
                } else {
                    assert(content@.skip(at + 1).subrange(j - 1, j - 1 + m.len())
                        =~= here.subrange(j, j + m.len()));
                    assert(text::occurs_at(content@.skip(at + 1), m, j - 1));
                }
                assert(false);
            }
        }
    }
    assert(content@.skip(0) =~= content@);
    content
}

fn push_deepseek(out: &mut String, role: &str, content: &str)
    ensures
        final(out)@ == old(out)@ + deepseek_turn(role@, content@),
{
    if text::same_text(role, "system") {
        out.append(content);
    } else if text::same_text(role, "assistant") {
        let c: Vec<char> = text::to_chars(content);
        let shown: String = text::from_chars(text::trim_start(visible(&c)));
        out.append("<｜Assistant｜>");
        out.append(shown.as_str());
        out.append("<｜end▁of▁sentence｜>");
    } else {
        out.append("<｜User｜>");
        out.append(content);
    }
    assert(out@ =~= old(out)@ + deepseek_turn(role@, content@));
}

/// The first position at which `needle` stands in `hay`.
pub open spec fn first(hay: Seq<char>, needle: Seq<char>) -> int {
    choose|i: int| text::first_at(hay, needle, i)
}

proof fn lemma_first(hay: Seq<char>, needle: Seq<char>, i: int)
    requires
        text::first_at(hay, needle, i),
    ensures
        first(hay, needle) == i,
{
    let f = first(hay, needle);
    assert(text::first_at(hay, needle, f));
    if f < i {
        assert(!text::occurs_at(hay, needle, f));
    } else if i < f {
        assert(!text::occurs_at(hay, needle, i));
    }
}

proof fn lemma_first_exists(hay: Seq<char>, needle: Seq<char>, i: int)
    requires
        text::occurs_at(hay, needle, i),
    ensures
        exists|j: int| text::first_at(hay, needle, j),
    decreases i,
{
    if exists|j: int| 0 <= j < i && text::occurs_at(hay, needle, j) {
        let j = choose|j: int| 0 <= j < i && text::occurs_at(hay, needle, j);
        lemma_first_exists(hay, needle, j);
    } else {
        assert(text::first_at(hay, needle, i));
    }
}

proof fn lemma_occurs_first(hay: Seq<char>, needle: Seq<char>)
    requires
        text::occurs(hay, needle),
    ensures
        text::first_at(hay, needle, first(hay, needle)),
{
    let i = choose|i: int| text::occurs_at(hay, needle, i);
    lemma_first_exists(hay, needle, i);
}

proof fn lemma_trimmed_start_len(s: Seq<char>)
    ensures
        text::trimmed_start(s).len() <= s.len(),
    decreases s.len(),
{
    if s.len() > 0 {
        lemma_trimmed_start_len(s.skip(1));
    }
}

/// `s` without the spans from an `open` to the next `close`, and without the
/// blanks that follow each; an `open` that is never closed takes all the rest
/// with it.
pub open spec fn cut(s: Seq<char>, open: Seq<char>, close: Seq<char>) -> Seq<char>
    decreases s.len(),
    when open.len() > 0
    via cut_decreases
{
    if text::occurs(s, open) {
        let i = first(s, open);
        let after = s.skip(i + open.len());
        if text::occurs(after, close) {
            s.take(i) + cut(
                text::trimmed_start(after.skip(first(after, close) + close.len())),
                open,
                close,
            )
        } else {
            s.take(i)
        }
    } else {
        s
    }
}

#[via_fn]
proof fn cut_decreases(s: Seq<char>, open: Seq<char>, close: Seq<char>) {
    if text::occurs(s, open) {
        lemma_occurs_first(s, open);
        let after = s.skip(first(s, open) + open.len());
        if text::occurs(after, close) {
            lemma_occurs_first(after, close);
            lemma_trimmed_start_len(after.skip(first(after, close) + close.len()));
        }
    }
}

/// Drops every span from `open` to `close`, and the blanks after a closed one.
fn strip_delimited(s: &[char], open: &str, close: &str) -> (r: Vec<char>)
    requires
        open@.len() > 0,
    ensures
        r@ == cut(s@, open@, close@),
{
    let o: Vec<char> = text::to_chars(open);
    let c: Vec<char> = text::to_chars(close);
    let mut out: Vec<char> = Vec::new();
    let mut rest: &[char] = s;
    assert(out@ + cut(rest@, open@, close@) =~= cut(s@, open@, close@));
    loop
        invariant
            o@ == open@,
            c@ == close@,
            open@.len() > 0,
            out@ + cut(rest@, open@, close@) == cut(s@, open@, close@),
        decreases rest@.len(),
    {
        let i: usize = match text::find(rest, &o) {
            Some(i) => i,
            None => {
                let mut tail: Vec<char> = text::copy_chars(rest);
                out.append(&mut tail);
                return out;
            },
        };
        proof {
            assert(text::occurs_at(rest@, o@, i as int));
            lemma_first(rest@, o@, i as int);
        }
        let ghost before = out@;
        let mut head: Vec<char> = text::copy_chars(slice_subrange(rest, 0, i));
        assert(head@ =~= rest@.take(i as int));
        out.append(&mut head);
        let total: usize = rest.len();
        let after: &[char] = slice_subrange(rest, i + o.len(), total);
        assert(after@ =~= rest@.skip(i + o@.len()));
        let left: usize = after.len();
        let j: usize = match text::find(after, &c) {
            Some(j) => j,
            None => {
                return out;
            },
        };
        proof {
            assert(text::occurs_at(after@, c@, j as int));
            lemma_first(after@, c@, j as int);
        }
        let beyond: &[char] = slice_subrange(after, j + c.len(), left);
        assert(beyond@ =~= after@.skip(j + c@.len()));
        let ghost was = rest@;
        rest = text::trim_start(beyond);
        proof {
            lemma_trimmed_start_len(beyond@);
            assert(cut(was, open@, close@) == was.take(i as int) + cut(rest@, open@, close@));
            assert(out@ + cut(rest@, open@, close@) =~= before + cut(was, open@, close@));
        }
    }
}

/// A finished assistant turn without its reasoning; one that was nothing else
/// stays as it is.
pub open spec fn unreasoned(s: Seq<char>) -> Seq<char> {
    let t = text::trimmed(cut(cut(s, "<|channel>thought"@, "<channel|>"@), "<think>"@, "</think>"@));
    if t.len() == 0 {
        s
    } else {
        t
    }
}

/// Removes a finished assistant turn's reasoning, leaving the answer. A turn
/// that was only reasoning still has its place in the history, so it is kept.
pub fn strip_reasoning_blocks(s: &str) -> (r: String)
    ensures
        r@ == unreasoned(s@),
{
    proof {
        reveal_strlit("<|channel>thought");
        reveal_strlit("<think>");
    }
    let c: Vec<char> = text::to_chars(s);
    let a: Vec<char> = strip_delimited(&c, "<|channel>thought", "<channel|>");
    let b: Vec<char> = strip_delimited(&a, "<think>", "</think>");
    let t: &[char] = text::trim(&b);
    if t.len() == 0 {
        text::copy_text(s)
    } else {
        text::from_chars(t)
    }
}

/// Stripping never empties a turn.
pub proof fn law_a_stripped_turn_is_not_empty(s: Seq<char>)
    ensures
        s.len() > 0 ==> unreasoned(s).len() > 0,
{
}

/// A turn without reasoning keeps its text; at most the blanks around it go.
pub proof fn law_a_turn_without_reasoning_keeps_its_text(s: Seq<char>)
    requires
        !text::occurs(s, "<|channel>thought"@),
        !text::occurs(s, "<think>"@),
    ensures
        unreasoned(s) == if text::trimmed(s).len() == 0 {
            s
        } else {
            text::trimmed(s)
        },
{
    reveal_strlit("<|channel>thought");
    reveal_strlit("<think>");
}

/// With thinking off, the prompt is the one with thinking on and the
/// suppression text after it.
pub proof fn law_suppression_is_all_that_thinking_changes(
    t: ChatTemplate,
    m: Seq<(Seq<char>, Seq<char>)>,
)
    ensures
        prompt(t, m, false) == prompt(t, m, true) + suppression(t),
{
    assert(prompt(t, m, false) =~= prompt(t, m, true) + suppression(t));
}

proof fn lemma_history_extends(
    t: ChatTemplate,
    m: Seq<(Seq<char>, Seq<char>)>,
    more: Seq<(Seq<char>, Seq<char>)>,
    n: int,
)
    requires
        t is ChatML || t is Gemma,
        0 <= n <= m.len(),
    ensures
        history(t, m + more, n) == history(t, m, n),
    decreases n,
{
    if n > 0 {
        lemma_history_extends(t, m, more, n - 1);
        assert((m + more)[n - 1] == m[n - 1]);
    }
}

proof fn lemma_history_grows(t: ChatTemplate, m: Seq<(Seq<char>, Seq<char>)>, k: int, n: int)
    requires
        0 <= k <= n,
    ensures
        text::is_prefix(history(t, m, k), history(t, m, n)),
    decreases n - k,
{
    if k < n {
        lemma_history_grows(t, m, k, n - 1);
        let a = history(t, m, k);
        let b = history(t, m, n - 1);
        assert(history(t, m, n).take(a.len() as int) =~= b.take(a.len() as int));
    } else {
        assert(history(t, m, n).take(history(t, m, k).len() as int) =~= history(t, m, k));
    }
}

/// A stored turn keeps the cache usable: the prompt that follows starts with
/// the last prompt and the reply to it, where the reply was stored with the
/// suppression text in front if thinking was off.
pub proof fn law_the_next_prompt_starts_with_the_last(
    t: ChatTemplate,
    m: Seq<(Seq<char>, Seq<char>)>,
    think: bool,
    reply: Seq<char>,
    more: Seq<(Seq<char>, Seq<char>)>,
    think_next: bool,
)
    requires
        t is ChatML || t is Gemma,
    ensures
        text::is_prefix(
            prompt(t, m, think) + reply,
            prompt(
                t,
                m.push(
                    (
                        "assistant"@,
                        (if think {
                            Seq::<char>::empty()
                        } else {
                            suppression(t)
                        }) + reply,
                    ),
                ) + more,
                think_next,
            ),
        ),
{
    let stored = (if think {
        Seq::<char>::empty()
    } else {
        suppression(t)
    }) + reply;
    let said = m.push(("assistant"@, stored));
    let all = said + more;
    let n = m.len() as int;
    lemma_history_extends(t, said, more, n + 1);
    assert(said =~= m + seq![("assistant"@, stored)]);
    lemma_history_extends(t, m, seq![("assistant"@, stored)], n);
    lemma_history_grows(t, all, n + 1, all.len() as int);
    let start = prompt(t, m, think) + reply;
    let upto = history(t, all, n + 1);
    let whole = history(t, all, all.len() as int);
    let next = prompt(t, all, think_next);
    reveal_strlit("<|im_start|>assistant\n");
    reveal_strlit("<|im_start|>");
    reveal_strlit("assistant");
    reveal_strlit("\n");
    reveal_strlit("<start_of_turn>model\n");
    reveal_strlit("<start_of_turn>");
    reveal_strlit("model");
    assert("<|im_start|>"@ + "assistant"@ + "\n"@ =~= "<|im_start|>assistant\n"@);
    assert("<start_of_turn>"@ + "model"@ + "\n"@ =~= "<start_of_turn>model\n"@);
    assert(upto == history(t, m, n) + turn(t, said, n));
    assert(said[n] == ("assistant"@, stored));
    if t is ChatML {
        assert(upto =~= start + "<|im_end|>\n"@);
    } else {
        assert(suppression(t).len() == 0) by {
            reveal_strlit("");
        }
        assert(upto =~= start + "<end_of_turn>\n"@);
    }
    assert(upto.take(start.len() as int) =~= start);
    assert(whole.take(upto.len() as int) == upto);
    assert(whole.take(start.len() as int) =~= whole.take(upto.len() as int).take(
        start.len() as int,
    ));
    assert(next.take(start.len() as int) =~= whole.take(start.len() as int));
}

/// Messages that follow do not change how the earlier ones are written.
proof fn lemma_history_stands(
    t: ChatTemplate,
    m: Seq<(Seq<char>, Seq<char>)>,
    x: (Seq<char>, Seq<char>),
    n: int,
)
    requires
        0 <= n <= m.len(),
    ensures
        history(t, m.push(x), n) == history(t, m, n),
    decreases n,
{
    if n > 0 {
        lemma_history_stands(t, m, x, n - 1);
        assert(m.push(x)[n - 1] == m[n - 1]);
        lemma_before_stands(m, x, n - 1);
    }
}

proof fn lemma_before_stands(
    m: Seq<(Seq<char>, Seq<char>)>,
    x: (Seq<char>, Seq<char>),
    n: int,
)
    requires
        0 <= n <= m.len(),
    ensures
        user_before(m.push(x), n) == user_before(m, n),
        system_before(m.push(x), n) == system_before(m, n),
    decreases n,
{
    let w = m.push(x);
    if user_before(m, n) {
        let j = choose|j: int| 0 <= j < n && (#[trigger] m[j]).0 == "user"@;
        assert(w[j].0 == "user"@);
    }
    if user_before(w, n) {
        let j = choose|j: int| 0 <= j < n && (#[trigger] w[j]).0 == "user"@;
        assert(m[j].0 == "user"@);
    }
    if n > 0 {
        lemma_before_stands(m, x, n - 1);
        assert(w[n - 1] == m[n - 1]);
    }
}

/// A prompt opens the assistant's turn: that is all there is of one without
/// messages.
pub proof fn law_a_prompt_opens_the_assistants_turn()
    ensures
        prompt(ChatTemplate::ChatML, seq![], true) == "<|im_start|>assistant\n"@,
        prompt(ChatTemplate::Gemma, seq![], true) == "<start_of_turn>model\n"@,
        prompt(ChatTemplate::Llama2, seq![], true) == ""@,
        prompt(ChatTemplate::DeepSeekR1, seq![], true) == "<｜Assistant｜>"@,
{
    assert(prompt(ChatTemplate::ChatML, seq![], true) =~= "<|im_start|>assistant\n"@);
    assert(prompt(ChatTemplate::Gemma, seq![], true) =~= "<start_of_turn>model\n"@);
    assert(prompt(ChatTemplate::Llama2, seq![], true) =~= ""@);
    assert(prompt(ChatTemplate::DeepSeekR1, seq![], true) =~= "<｜Assistant｜>"@);
}

/// Each message adds its turn to a ChatML prompt, right in front of the opening:
/// role and content, whole.
pub proof fn law_a_message_adds_its_turn_in_chatml(
    m: Seq<(Seq<char>, Seq<char>)>,
    role: Seq<char>,
    content: Seq<char>,
)
    ensures
        ({
            let open = "<|im_start|>assistant\n"@;
            let p = prompt(ChatTemplate::ChatML, m, true);
            let h = p.take(p.len() - open.len());
            &&& p == h + open
            &&& prompt(ChatTemplate::ChatML, m.push((role, content)), true) == h + "<|im_start|>"@
                + role + "\n"@ + content + "<|im_end|>\n"@ + open
        }),
{
    let t = ChatTemplate::ChatML;
    let n = m.len() as int;
    let w = m.push((role, content));
    lemma_history_stands(t, m, (role, content), n);
    let open = "<|im_start|>assistant\n"@;
    let p = prompt(t, m, true);
    let h = history(t, m, n);
    assert(p.take(p.len() - open.len()) =~= h);
    assert(p =~= h + open);
    assert(w[n] == (role, content));
    assert(prompt(t, w, true) =~= h + "<|im_start|>"@ + role + "\n"@ + content + "<|im_end|>\n"@
        + open);
}

/// The same in Gemma's format, where the assistant is called the model.
pub proof fn law_a_message_adds_its_turn_in_gemma(
    m: Seq<(Seq<char>, Seq<char>)>,
    role: Seq<char>,
    content: Seq<char>,
)
    ensures
        ({
            let open = "<start_of_turn>model\n"@;
            let p = prompt(ChatTemplate::Gemma, m, true);
            let h = p.take(p.len() - open.len());
            &&& p == h + open
            &&& prompt(ChatTemplate::Gemma, m.push((role, content)), true) == h
                + "<start_of_turn>"@ + (if role == "assistant"@ {
                "model"@
            } else {
                role
            }) + "\n"@ + content + "<end_of_turn>\n"@ + open
        }),
{
    let t = ChatTemplate::Gemma;
    let n = m.len() as int;
    let w = m.push((role, content));
    lemma_history_stands(t, m, (role, content), n);
    let open = "<start_of_turn>model\n"@;
    let p = prompt(t, m, true);
    let h = history(t, m, n);
    assert(p.take(p.len() - open.len()) =~= h);
    assert(p =~= h + open);
    assert(w[n] == (role, content));
    assert(prompt(t, w, true) =~= h + "<start_of_turn>"@ + (if role == "assistant"@ {
        "model"@
    } else {
        role
    }) + "\n"@ + content + "<end_of_turn>\n"@ + open);
}

/// The same in DeepSeek's format: the system's words stand bare, the user's are
/// marked, and of the assistant's only the answer behind the reasoning is kept.
pub proof fn law_a_message_adds_its_turn_in_deepseek(
    m: Seq<(Seq<char>, Seq<char>)>,
    role: Seq<char>,
    content: Seq<char>,
)
    ensures
        ({
            let open = "<｜Assistant｜>"@;
            let p = prompt(ChatTemplate::DeepSeekR1, m, true);
            let h = p.take(p.len() - open.len());
            &&& p == h + open
            &&& prompt(ChatTemplate::DeepSeekR1, m.push((role, content)), true) == h + (if role
                == "system"@ {
                content
            } else if role == "assistant"@ {
                "<｜Assistant｜>"@ + text::trimmed_start(answer(content)) + "<｜end▁of▁sentence｜>"@
            } else {
                "<｜User｜>"@ + content
            }) + open
        }),
{
    let t = ChatTemplate::DeepSeekR1;
    let n = m.len() as int;
    let w = m.push((role, content));
    lemma_history_stands(t, m, (role, content), n);
    let open = "<｜Assistant｜>"@;
    let p = prompt(t, m, true);
    let h = history(t, m, n);
    assert(p.take(p.len() - open.len()) =~= h);
    assert(p =~= h + open);
    assert(w[n] == (role, content));
    assert(prompt(t, w, true) =~= h + deepseek_turn(role, content) + open);
}

/// The same in Llama 2's format: a user's words go between the instruction
/// marks, an assistant's behind them.
pub proof fn law_a_message_adds_its_turn_in_llama2(
    m: Seq<(Seq<char>, Seq<char>)>,
    content: Seq<char>,
)
    requires
        exists|j: int| 0 <= j < m.len() && (#[trigger] m[j]).0 == "user"@,
    ensures
        ({
            let p = prompt(ChatTemplate::Llama2, m, true);
            &&& prompt(ChatTemplate::Llama2, m.push(("user"@, content)), true) == p + "<s>[INST] "@
                + content + " [/INST]"@
            &&& prompt(ChatTemplate::Llama2, m.push(("assistant"@, content)), true) == p + " "@
                + content + " </s>"@
        }),
{
    let t = ChatTemplate::Llama2;
    let n = m.len() as int;
    reveal_strlit("user");
    reveal_strlit("assistant");
    reveal_strlit("");
    assert("user"@.len() != "assistant"@.len());
    let p = prompt(t, m, true);
    let h = history(t, m, n);
    assert(p =~= h);
    lemma_history_stands(t, m, ("user"@, content), n);
    lemma_before_stands(m, ("user"@, content), n);
    let w = m.push(("user"@, content));
    assert(w[n] == ("user"@, content));
    assert(prompt(t, w, true) =~= p + "<s>[INST] "@ + content + " [/INST]"@);
    lemma_history_stands(t, m, ("assistant"@, content), n);
    let v = m.push(("assistant"@, content));
    assert(v[n] == ("assistant"@, content));
    assert(prompt(t, v, true) =~= p + " "@ + content + " </s>"@);
}

proof fn lemma_system_is_last(m: Seq<(Seq<char>, Seq<char>)>, k: int, n: int)
    requires
        0 <= k < n <= m.len(),
        m[k].0 == "system"@,
        forall|j: int| k < j < n ==> (#[trigger] m[j]).0 != "system"@,
    ensures
        system_before(m, n) == Some(m[k].1),
    decreases n,
{
    if n - 1 > k {
        lemma_system_is_last(m, k, n - 1);
    }
}

/// The first words of a user in Llama 2's format carry the system prompt: that of
/// the last system message in front of them.
pub proof fn law_the_first_instruction_carries_the_system_prompt(
    m: Seq<(Seq<char>, Seq<char>)>,
    k: int,
    content: Seq<char>,
)
    requires
        0 <= k < m.len(),
        m[k].0 == "system"@,
        forall|j: int| k < j < m.len() ==> (#[trigger] m[j]).0 != "system"@,
        forall|j: int| 0 <= j < m.len() ==> (#[trigger] m[j]).0 != "user"@,
    ensures
        prompt(ChatTemplate::Llama2, m.push(("user"@, content)), true) == prompt(
            ChatTemplate::Llama2,
            m,
            true,
        ) + "<s>[INST] <<SYS>>\n"@ + m[k].1 + "\n<</SYS>>\n\n"@ + content + " [/INST]"@,
{
    let t = ChatTemplate::Llama2;
    let n = m.len() as int;
    reveal_strlit("");
    reveal_strlit("<s>[INST] ");
    reveal_strlit("<<SYS>>\n");
    reveal_strlit("<s>[INST] <<SYS>>\n");
    assert("<s>[INST] "@ + "<<SYS>>\n"@ =~= "<s>[INST] <<SYS>>\n"@);
    let x = ("user"@, content);
    lemma_history_stands(t, m, x, n);
    lemma_before_stands(m, x, n);
    lemma_system_is_last(m, k, n);
    let w = m.push(x);
    assert(w[n] == x);
    let p = prompt(t, m, true);
    assert(p =~= history(t, m, n));
    assert(prompt(t, w, true) =~= p + "<s>[INST] "@ + ("<<SYS>>\n"@ + m[k].1 + "\n<</SYS>>\n\n"@)
        + content + " [/INST]"@);
    assert(prompt(t, w, true) =~= p + ("<s>[INST] "@ + "<<SYS>>\n"@) + m[k].1
        + "\n<</SYS>>\n\n"@ + content + " [/INST]"@);
}

/// The contents of a message, as they stand in its turn.
proof fn lemma_turn_shows_content(t: ChatTemplate, m: Seq<(Seq<char>, Seq<char>)>, i: int) -> (a: int)
    requires
        0 <= i < m.len(),
        t is ChatML || t is Gemma || m[i].0 == "user"@ || (t is DeepSeekR1 && m[i].0
            != "assistant"@),
    ensures
        0 <= a <= turn(t, m, i).len() - m[i].1.len(),
        turn(t, m, i).subrange(a, a + m[i].1.len()) == m[i].1,
{
    let (role, content) = m[i];
    reveal_strlit("user");
    reveal_strlit("assistant");
    reveal_strlit("system");
    assert("user"@.len() != "assistant"@.len());
    assert("user"@.len() != "system"@.len());
    let front = match t {
        ChatTemplate::ChatML => "<|im_start|>"@ + role + "\n"@,
        ChatTemplate::Gemma => "<start_of_turn>"@ + gemma_role(role) + "\n"@,
        ChatTemplate::Llama2 => "<s>[INST] "@ + (if user_before(m, i) {
            Seq::empty()
        } else {
            match system_before(m, i) {
                Some(s) => "<<SYS>>\n"@ + s + "\n<</SYS>>\n\n"@,
                None => Seq::empty(),
            }
        }),
        ChatTemplate::DeepSeekR1 => if role == "system"@ {
            Seq::empty()
        } else {
            "<｜User｜>"@
        },
    };
    let back = match t {
        ChatTemplate::ChatML => "<|im_end|>\n"@,
        ChatTemplate::Gemma => "<end_of_turn>\n"@,
        ChatTemplate::Llama2 => " [/INST]"@,
        ChatTemplate::DeepSeekR1 => Seq::empty(),
    };
    let w = turn(t, m, i);
    assert(w =~= front + content + back);
    let a = front.len() as int;
    assert(w.subrange(a, a + content.len()) =~= content);
    a
}

/// A stretch of a beginning is a stretch of the whole.
proof fn lemma_stretch_of_beginning(part: Seq<char>, whole: Seq<char>, a: int, b: int)
    requires
        text::is_prefix(part, whole),
        0 <= a <= b <= part.len(),
    ensures
        whole.subrange(a, b) == part.subrange(a, b),
{
    assert(whole.take(part.len() as int) == part);
    assert(whole.subrange(a, b) =~= whole.take(part.len() as int).subrange(a, b));
}

/// Where the contents of a message stand in a prompt: within its own turn.
proof fn lemma_content_at(
    t: ChatTemplate,
    m: Seq<(Seq<char>, Seq<char>)>,
    think: bool,
    i: int,
) -> (a: int)
    requires
        0 <= i < m.len(),
        t is ChatML || t is Gemma || m[i].0 == "user"@ || (t is DeepSeekR1 && m[i].0
            != "assistant"@),
    ensures
        history(t, m, i).len() <= a,
        a + m[i].1.len() <= history(t, m, i + 1).len() <= prompt(t, m, think).len(),
        prompt(t, m, think).subrange(a, a + m[i].1.len()) == m[i].1,
{
    let n = m.len() as int;
    let x = lemma_turn_shows_content(t, m, i);
    let h = history(t, m, i);
    let w = turn(t, m, i);
    let g = history(t, m, i + 1);
    assert(g == h + w);
    let a = h.len() + x;
    let len = m[i].1.len();
    assert(g.subrange(a, a + len) =~= w.subrange(x, x + len));
    lemma_history_grows(t, m, i + 1, n);
    let all = history(t, m, n);
    lemma_stretch_of_beginning(g, all, a, a + len);
    let whole = prompt(t, m, think);
    assert(whole.take(all.len() as int) =~= all);
    lemma_stretch_of_beginning(all, whole, a, a + len);
    a
}

/// What is said reaches the model, in the order in which it was said: the
/// contents of two messages of a user or the system (in ChatML and Gemma, of
/// anyone) stand in the prompt whole, the earlier in front of the later. In
/// Llama 2's format only the user's do so on their own.
pub proof fn law_contents_stand_in_the_prompt_in_order(
    t: ChatTemplate,
    m: Seq<(Seq<char>, Seq<char>)>,
    think: bool,
    i: int,
    j: int,
)
    requires
        0 <= i <= j < m.len(),
        t is ChatML || t is Gemma || m[i].0 == "user"@ || (t is DeepSeekR1 && m[i].0
            != "assistant"@),
        t is ChatML || t is Gemma || m[j].0 == "user"@ || (t is DeepSeekR1 && m[j].0
            != "assistant"@),
    ensures
        exists|a: int, b: int|
            {
                &&& 0 <= a <= prompt(t, m, think).len() - m[i].1.len()
                &&& 0 <= b <= prompt(t, m, think).len() - m[j].1.len()
                &&& #[trigger] prompt(t, m, think).subrange(a, a + m[i].1.len()) == m[i].1
                &&& #[trigger] prompt(t, m, think).subrange(b, b + m[j].1.len()) == m[j].1
                &&& i < j ==> a + m[i].1.len() <= b
            },
{
    let a = lemma_content_at(t, m, think, i);
    let b = lemma_content_at(t, m, think, j);
    if i < j {
        lemma_history_grows(t, m, i + 1, j);
        assert(history(t, m, i + 1).len() <= history(t, m, j).len());
    }
    let p = prompt(t, m, think);
    assert(p.subrange(a, a + m[i].1.len()) == m[i].1);
    assert(p.subrange(b, b + m[j].1.len()) == m[j].1);
}

/// In Llama 2's format the last system prompt in front of the first question
/// stands in the prompt whole, in front of that question.
pub proof fn law_the_system_prompt_stands_in_front_of_the_question(
    m: Seq<(Seq<char>, Seq<char>)>,
    think: bool,
    k: int,
    u: int,
)
    requires
        0 <= k < u < m.len(),
        m[k].0 == "system"@,
        m[u].0 == "user"@,
        forall|j: int| k < j < u ==> (#[trigger] m[j]).0 != "system"@,
        forall|j: int| 0 <= j < u ==> (#[trigger] m[j]).0 != "user"@,
    ensures
        ({
            let p = prompt(ChatTemplate::Llama2, m, think);
            exists|a: int, b: int|
                {
                    &&& 0 <= a && a + m[k].1.len() <= b && b + m[u].1.len() <= p.len()
                    &&& #[trigger] p.subrange(a, a + m[k].1.len()) == m[k].1
                    &&& #[trigger] p.subrange(b, b + m[u].1.len()) == m[u].1
                }
        }),
{
    let t = ChatTemplate::Llama2;
    let n = m.len() as int;
    lemma_system_is_last(m, k, u);
    let (s, c) = (m[k].1, m[u].1);
    let w = turn(t, m, u);
    let front = "<s>[INST] "@ + "<<SYS>>\n"@;
    let mid = "\n<</SYS>>\n\n"@;
    assert(w =~= front + s + mid + c + " [/INST]"@);
    let x = front.len() as int;
    let y = x + s.len() + mid.len();
    assert(w.subrange(x, x + s.len()) =~= s);
    assert(w.subrange(y, y + c.len()) =~= c);
    let h = history(t, m, u);
    let g = history(t, m, u + 1);
    assert(g == h + w);
    let a = h.len() + x;
    let b = h.len() + y;
    assert(g.subrange(a, a + s.len()) =~= w.subrange(x, x + s.len()));
    assert(g.subrange(b, b + c.len()) =~= w.subrange(y, y + c.len()));
    lemma_history_grows(t, m, u + 1, n);
    let all = history(t, m, n);
    let whole = prompt(t, m, think);
    assert(whole.take(all.len() as int) =~= all);
    lemma_stretch_of_beginning(g, all, a, a + s.len());
    lemma_stretch_of_beginning(g, all, b, b + c.len());
    lemma_stretch_of_beginning(all, whole, a, a + s.len());
    lemma_stretch_of_beginning(all, whole, b, b + c.len());
    assert(whole.subrange(a, a + s.len()) == s);
    assert(whole.subrange(b, b + c.len()) == c);
}

/// In Llama 2's format an answer always adds its turn, a question without a
/// system prompt its own text alone, and a system prompt nothing until it is
/// asked something.
pub proof fn law_llama2_writes_questions_and_answers(
    m: Seq<(Seq<char>, Seq<char>)>,
    role: Seq<char>,
    content: Seq<char>,
)
    ensures
        ({
            let p = prompt(ChatTemplate::Llama2, m, true);
            let q = prompt(ChatTemplate::Llama2, m.push((role, content)), true);
            &&& role == "assistant"@ ==> q == p + " "@ + content + " </s>"@
            &&& role == "user"@ && (forall|j: int|
                0 <= j < m.len() ==> (#[trigger] m[j]).0 != "system"@) ==> q == p + "<s>[INST] "@
                + content + " [/INST]"@
            &&& role != "assistant"@ && role != "user"@ ==> q == p
        }),
{
    let t = ChatTemplate::Llama2;
    let n = m.len() as int;
    reveal_strlit("user");
    reveal_strlit("assistant");
    reveal_strlit("");
    assert("user"@.len() != "assistant"@.len());
    let p = prompt(t, m, true);
    let w = m.push((role, content));
    let q = prompt(t, w, true);
    assert(p =~= history(t, m, n));
    lemma_history_stands(t, m, (role, content), n);
    lemma_before_stands(m, (role, content), n);
    assert(w[n] == (role, content));
    if role == "assistant"@ {
        assert(q =~= p + " "@ + content + " </s>"@);
    } else if role == "user"@ {
        if forall|j: int| 0 <= j < m.len() ==> (#[trigger] m[j]).0 != "system"@ {
            lemma_no_system(m, n);
            assert(q =~= p + "<s>[INST] "@ + content + " [/INST]"@);
        }
    } else {
        assert(q =~= p);
    }
}

proof fn lemma_no_system(m: Seq<(Seq<char>, Seq<char>)>, n: int)
    requires
        0 <= n <= m.len(),
        forall|j: int| 0 <= j < m.len() ==> (#[trigger] m[j]).0 != "system"@,
    ensures
        system_before(m, n) is None,
    decreases n,
{
    if n > 0 {
        assert(m[n - 1].0 != "system"@);
        lemma_no_system(m, n - 1);
    }
}

/// A message whose content is changed, and what it leaves alone: the roles, and
/// the system prompts in front of it.
proof fn lemma_before_kept(
    m: Seq<(Seq<char>, Seq<char>)>,
    w: Seq<(Seq<char>, Seq<char>)>,
    i: int,
    c: Seq<char>,
    n: int,
)
    requires
        0 <= i < m.len(),
        w == m.update(i, (m[i].0, c)),
        0 <= n <= m.len(),
    ensures
        user_before(w, n) == user_before(m, n),
        m[i].0 != "system"@ || n <= i ==> system_before(w, n) == system_before(m, n),
    decreases n,
{
    if user_before(m, n) {
        let j = choose|j: int| 0 <= j < n && (#[trigger] m[j]).0 == "user"@;
        assert(w[j].0 == "user"@);
    }
    if user_before(w, n) {
        let j = choose|j: int| 0 <= j < n && (#[trigger] w[j]).0 == "user"@;
        assert(m[j].0 == "user"@);
    }
    if n > 0 {
        lemma_before_kept(m, w, i, c, n - 1);
        assert(w[n - 1].0 == m[n - 1].0);
    }
}

/// The turns of other messages stay as they are.
proof fn lemma_other_turn_kept(
    t: ChatTemplate,
    m: Seq<(Seq<char>, Seq<char>)>,
    w: Seq<(Seq<char>, Seq<char>)>,
    i: int,
    c: Seq<char>,
    j: int,
)
    requires
        0 <= i < m.len(),
        w == m.update(i, (m[i].0, c)),
        0 <= j < m.len(),
        j != i,
        t is Llama2 ==> m[i].0 == "user"@,
    ensures
        turn(t, w, j) == turn(t, m, j),
{
    reveal_strlit("user");
    reveal_strlit("system");
    assert("user"@.len() != "system"@.len());
    assert(w[j] == m[j]);
    lemma_before_kept(m, w, i, c, j);
}

/// What is written in front of a message, and what behind it, does not depend on
/// its content.
proof fn lemma_around_kept(
    t: ChatTemplate,
    m: Seq<(Seq<char>, Seq<char>)>,
    w: Seq<(Seq<char>, Seq<char>)>,
    i: int,
    c: Seq<char>,
    n: int,
) -> (rest: Seq<char>)
    requires
        0 <= i < m.len(),
        w == m.update(i, (m[i].0, c)),
        0 <= n <= m.len(),
        t is Llama2 ==> m[i].0 == "user"@,
    ensures
        n <= i ==> history(t, w, n) == history(t, m, n),
        n > i ==> history(t, m, n) == history(t, m, i + 1) + rest && history(t, w, n) == history(
            t,
            w,
            i + 1,
        ) + rest,
    decreases n,
{
    let none = Seq::<char>::empty();
    if n <= 0 {
        none
    } else if n == i + 1 {
        assert(history(t, m, n) =~= history(t, m, i + 1) + none);
        assert(history(t, w, n) =~= history(t, w, i + 1) + none);
        none
    } else {
        let before = lemma_around_kept(t, m, w, i, c, n - 1);
        lemma_other_turn_kept(t, m, w, i, c, n - 1);
        if n > i {
            let rest = before + turn(t, m, n - 1);
            assert(history(t, m, n) =~= history(t, m, i + 1) + rest);
            assert(history(t, w, n) =~= history(t, w, i + 1) + rest);
            rest
        } else {
            none
        }
    }
}

/// A turn is its content between what does not depend on it.
proof fn lemma_turn_frames_content(
    t: ChatTemplate,
    m: Seq<(Seq<char>, Seq<char>)>,
    w: Seq<(Seq<char>, Seq<char>)>,
    i: int,
    c: Seq<char>,
) -> (r: (Seq<char>, Seq<char>))
    requires
        0 <= i < m.len(),
        w == m.update(i, (m[i].0, c)),
        t is ChatML || t is Gemma || m[i].0 == "user"@ || (t is DeepSeekR1 && m[i].0
            != "assistant"@),
    ensures
        turn(t, m, i) == r.0 + m[i].1 + r.1,
        turn(t, w, i) == r.0 + c + r.1,
{
    let (role, content) = m[i];
    reveal_strlit("user");
    reveal_strlit("assistant");
    reveal_strlit("system");
    assert("user"@.len() != "assistant"@.len());
    assert("user"@.len() != "system"@.len());
    assert(w[i] == (role, c));
    lemma_before_kept(m, w, i, c, i);
    let front = match t {
        ChatTemplate::ChatML => "<|im_start|>"@ + role + "\n"@,
        ChatTemplate::Gemma => "<start_of_turn>"@ + gemma_role(role) + "\n"@,
        ChatTemplate::Llama2 => "<s>[INST] "@ + (if user_before(m, i) {
            Seq::empty()
        } else {
            match system_before(m, i) {
                Some(s) => "<<SYS>>\n"@ + s + "\n<</SYS>>\n\n"@,
                None => Seq::empty(),
            }
        }),
        ChatTemplate::DeepSeekR1 => if role == "system"@ {
            Seq::empty()
        } else {
            "<｜User｜>"@
        },
    };
    let back = match t {
        ChatTemplate::ChatML => "<|im_end|>\n"@,
        ChatTemplate::Gemma => "<end_of_turn>\n"@,
        ChatTemplate::Llama2 => " [/INST]"@,
        ChatTemplate::DeepSeekR1 => Seq::empty(),
    };
    assert(turn(t, m, i) =~= front + content + back);
    assert(turn(t, w, i) =~= front + c + back);
    (front, back)
}

/// Two conversations that differ in what one message of a user or the system (in
/// ChatML and Gemma, of anyone) says do not come to one prompt. In Llama 2's
/// format this is said of the user's.
pub proof fn law_another_content_is_another_prompt(
    t: ChatTemplate,
    m: Seq<(Seq<char>, Seq<char>)>,
    think: bool,
    i: int,
    c: Seq<char>,
)
    requires
        0 <= i < m.len(),
        t is ChatML || t is Gemma || m[i].0 == "user"@ || (t is DeepSeekR1 && m[i].0
            != "assistant"@),
        c != m[i].1,
    ensures
        prompt(t, m.update(i, (m[i].0, c)), think) != prompt(t, m, think),
{
    let w = m.update(i, (m[i].0, c));
    let n = m.len() as int;
    let rest = lemma_around_kept(t, m, w, i, c, n);
    let same = lemma_around_kept(t, m, w, i, c, i);
    let (front, back) = lemma_turn_frames_content(t, m, w, i, c);
    let h = history(t, m, i);
    let o = opening(t);
    let s = if think {
        Seq::empty()
    } else {
        suppression(t)
    };
    lemma_regrouped(h, front, m[i].1, back, rest, o, s);
    lemma_regrouped(h, front, c, back, rest, o, s);
    lemma_between(h + front, m[i].1, c, back + rest + o + s);
    assert(history(t, m, i + 1) == h + turn(t, m, i));
    assert(history(t, w, i + 1) == h + turn(t, w, i));
}

proof fn lemma_regrouped(
    h: Seq<char>,
    front: Seq<char>,
    c: Seq<char>,
    back: Seq<char>,
    rest: Seq<char>,
    o: Seq<char>,
    s: Seq<char>,
)
    ensures
        h + (front + c + back) + rest + o + s == (h + front) + c + (back + rest + o + s),
{
    assert(h + (front + c + back) + rest + o + s =~= (h + front) + c + (back + rest + o + s));
}

/// What stands between two equal parts tells the whole apart.
proof fn lemma_between(x: Seq<char>, a: Seq<char>, b: Seq<char>, y: Seq<char>)
    requires
        a != b,
    ensures
        x + a + y != x + b + y,
{
    let (p, q) = (x + a + y, x + b + y);
    if p == q {
        assert(p.len() == q.len());
        let k = x.len() as int;
        assert(p.subrange(k, k + a.len()) =~= a);
        assert(q.subrange(k, k + b.len()) =~= b);
    }
}

/// Thinking is switched off in ChatML, by an empty block behind the opening, and
/// nowhere else.
pub proof fn law_thinking_is_switched_off_by_an_empty_block(m: Seq<(Seq<char>, Seq<char>)>)
    ensures
        prompt(ChatTemplate::ChatML, m, false) == prompt(ChatTemplate::ChatML, m, true)
            + "<think>\n\n</think>\n\n"@,
        prompt(ChatTemplate::Gemma, m, false) == prompt(ChatTemplate::Gemma, m, true),
        prompt(ChatTemplate::Llama2, m, false) == prompt(ChatTemplate::Llama2, m, true),
        prompt(ChatTemplate::DeepSeekR1, m, false) == prompt(ChatTemplate::DeepSeekR1, m, true),
{
    reveal_strlit("");
    assert(prompt(ChatTemplate::ChatML, m, false) =~= prompt(ChatTemplate::ChatML, m, true)
        + "<think>\n\n</think>\n\n"@);
    assert(prompt(ChatTemplate::Gemma, m, false) =~= prompt(ChatTemplate::Gemma, m, true));
    assert(prompt(ChatTemplate::Llama2, m, false) =~= prompt(ChatTemplate::Llama2, m, true));
    assert(prompt(ChatTemplate::DeepSeekR1, m, false) =~= prompt(
        ChatTemplate::DeepSeekR1,
        m,
        true,
    ));
}

/// A model is recognised by its family's name, wherever it stands in the model's
/// name. Gemma comes first; a Llama 3 is no Llama 2; what is not recognised is
/// written as ChatML.
pub proof fn law_families_are_recognised(lower: Seq<char>)
    ensures
        ({
            let named = |s: Seq<char>|
                exists|i: int|
                    0 <= i <= lower.len() - s.len() && #[trigger] lower.subrange(i, i + s.len())
                        == s;
            let gemma = named("gemma"@);
            let llama2 = (named("llama-2"@) || named("llama2"@)) && !named("llama-3"@) && !named("llama3"@);
            let deepseek = named("deepseek-r1"@) || named("deepseek_r1"@) || named("r1-distill"@);
            &&& template_for(lower) is Gemma <==> gemma
            &&& template_for(lower) is Llama2 <==> llama2 && !gemma
            &&& template_for(lower) is DeepSeekR1 <==> deepseek && !llama2 && !gemma
            &&& template_for(lower) is ChatML <==> !gemma && !llama2 && !deepseek
        }),
{
    text::law_a_text_occurs_where_it_stands(lower, "gemma"@);
    text::law_a_text_occurs_where_it_stands(lower, "llama-2"@);
    text::law_a_text_occurs_where_it_stands(lower, "llama2"@);
    text::law_a_text_occurs_where_it_stands(lower, "llama-3"@);
    text::law_a_text_occurs_where_it_stands(lower, "llama3"@);
    text::law_a_text_occurs_where_it_stands(lower, "deepseek-r1"@);
    text::law_a_text_occurs_where_it_stands(lower, "deepseek_r1"@);
    text::law_a_text_occurs_where_it_stands(lower, "r1-distill"@);
}

/// A model stops where its format ends a turn: what closes an assistant's message
/// in the prompt is among the stop sequences.
pub proof fn law_what_closes_a_turn_stops_the_model(content: Seq<char>)
    ensures
        prompt(ChatTemplate::ChatML, seq![("assistant"@, content)], true) == "<|im_start|>assistant\n"@
            + content + stops(ChatTemplate::ChatML)[0] + "\n<|im_start|>assistant\n"@,
        prompt(ChatTemplate::Gemma, seq![("assistant"@, content)], true) == "<start_of_turn>model\n"@
            + content + stops(ChatTemplate::Gemma)[0] + "\n<start_of_turn>model\n"@,
        prompt(ChatTemplate::Llama2, seq![("assistant"@, content)], true) == " "@ + content + " "@
            + stops(ChatTemplate::Llama2)[1],
        prompt(ChatTemplate::Llama2, seq![("user"@, content)], true) == "<s>[INST] "@ + content
            + " "@ + stops(ChatTemplate::Llama2)[0],
        prompt(ChatTemplate::DeepSeekR1, seq![("assistant"@, content)], true) == "<｜Assistant｜>"@
            + text::trimmed_start(answer(content)) + stops(ChatTemplate::DeepSeekR1)[0]
            + "<｜Assistant｜>"@,
        stops(ChatTemplate::ChatML).len() == 1,
        stops(ChatTemplate::Gemma) == seq![
            "<end_of_turn>"@,
            "</end_of_turn>"@,
            "</start_of_turn>"@,
        ],
        stops(ChatTemplate::Llama2).len() == 2,
        stops(ChatTemplate::DeepSeekR1).len() == 1,
{
    reveal_strlit("");
    reveal_strlit("user");
    reveal_strlit("assistant");
    reveal_strlit("system");
    reveal_strlit("model");
    reveal_strlit("\n");
    reveal_strlit(" ");
    reveal_strlit("<|im_start|>");
    reveal_strlit("<|im_start|>assistant\n");
    reveal_strlit("\n<|im_start|>assistant\n");
    reveal_strlit("<|im_end|>\n");
    reveal_strlit("<|im_end|>");
    reveal_strlit("<start_of_turn>");
    reveal_strlit("<start_of_turn>model\n");
    reveal_strlit("\n<start_of_turn>model\n");
    reveal_strlit("<end_of_turn>\n");
    reveal_strlit("<end_of_turn>");
    reveal_strlit(" [/INST]");
    reveal_strlit("[/INST]");
    reveal_strlit(" </s>");
    reveal_strlit("</s>");
    assert("user"@.len() != "assistant"@.len());
    assert("user"@.len() != "system"@.len());
    assert("system"@.len() != "assistant"@.len());
    assert("<|im_start|>"@ + "assistant"@ + "\n"@ =~= "<|im_start|>assistant\n"@);
    assert("<|im_end|>\n"@ =~= "<|im_end|>"@ + "\n"@);
    assert("\n"@ + "<|im_start|>assistant\n"@ =~= "\n<|im_start|>assistant\n"@);
    assert("<start_of_turn>"@ + "model"@ + "\n"@ =~= "<start_of_turn>model\n"@);
    assert("<end_of_turn>\n"@ =~= "<end_of_turn>"@ + "\n"@);
    assert("\n"@ + "<start_of_turn>model\n"@ =~= "\n<start_of_turn>model\n"@);
    assert(" [/INST]"@ =~= " "@ + "[/INST]"@);
    assert(" </s>"@ =~= " "@ + "</s>"@);
    let a = seq![("assistant"@, content)];
    let u = seq![("user"@, content)];
    assert forall|t: ChatTemplate| #[trigger] history(t, a, 1) =~= turn(t, a, 0) by {
        reveal_with_fuel(history, 2);
    }
    assert(history(ChatTemplate::Llama2, u, 1) =~= turn(ChatTemplate::Llama2, u, 0)) by {
        reveal_with_fuel(history, 2);
    }
    assert(prompt(ChatTemplate::ChatML, a, true) =~= ("<|im_start|>"@ + "assistant"@ + "\n"@)
        + content + "<|im_end|>"@ + ("\n"@ + "<|im_start|>assistant\n"@));
    assert(prompt(ChatTemplate::Gemma, a, true) =~= ("<start_of_turn>"@ + "model"@ + "\n"@)
        + content + "<end_of_turn>"@ + ("\n"@ + "<start_of_turn>model\n"@));
    assert(prompt(ChatTemplate::Llama2, a, true) =~= " "@ + content + " "@ + "</s>"@);
    assert(!user_before(u, 0));
    assert(prompt(ChatTemplate::Llama2, u, true) =~= "<s>[INST] "@ + content + " "@ + "[/INST]"@);
    assert(prompt(ChatTemplate::DeepSeekR1, a, true) =~= "<｜Assistant｜>"@ + text::trimmed_start(
        answer(content),
    ) + "<｜end▁of▁sentence｜>"@ + "<｜Assistant｜>"@);
}

/// The mark does not begin anew within itself.
proof fn lemma_mark_stands_alone(said: Seq<char>)
    requires
        !text::occurs(said, "</think>"@),
    ensures
        !text::occurs(("</think>"@ + said).skip(1), "</think>"@),
{
    let mark = "</think>"@;
    let rest = (mark + said).skip(1);
    assert(mark.len() == 8 && mark[0] == '<' && forall|i: int| 0 < i < 8 ==> mark[i] != '<') by {
        reveal_strlit("</think>");
    }
    if text::occurs(rest, mark) {
        let j = choose|j: int| text::occurs_at(rest, mark, j);
        assert(rest.subrange(j, j + 8)[0] == rest[j]);
        if j < 7 {
            assert(rest[j] == mark[j + 1]);
        } else {
            assert(said.subrange(j - 7, j - 7 + 8) =~= rest.subrange(j, j + 8));
            assert(text::occurs_at(said, mark, j - 7));
        }
    }
}

/// An answer is what follows the reasoning: all that stands behind the last
/// `</think>`.
pub proof fn law_an_answer_follows_its_reasoning(reasoning: Seq<char>, said: Seq<char>)
    requires
        !text::occurs(said, "</think>"@),
    ensures
        answer(reasoning + "</think>"@ + said) == said,
        answer(said) == said,
{
    let mark = "</think>"@;
    assert(mark.len() == 8) by {
        reveal_strlit("</think>");
    }
    let c = reasoning + mark + said;
    let r = reasoning.len() as int;
    let here = mark + said;
    assert(c.skip(r) =~= here);
    assert(c.subrange(r, r + 8) =~= mark);
    assert(text::occurs_at(c, mark, r));
    assert(here.subrange(0, 8) =~= mark);
    assert(text::occurs_at(here, mark, 0));
    lemma_answer_skips(c, r);
    lemma_mark_stands_alone(said);
    assert(here.take(8) =~= mark);
    assert(here.skip(8) =~= said);
}

/// A finished turn loses its reasoning and keeps its answer: a block from
/// `<think>` to `</think>` goes, with the blanks behind it.
pub proof fn law_a_finished_turn_loses_its_reasoning(
    before: Seq<char>,
    inner: Seq<char>,
    after: Seq<char>,
)
    requires
        ({
            let s = before + "<think>"@ + inner + "</think>"@ + after;
            &&& !text::occurs(s, "<|channel>thought"@)
            &&& text::first_at(s, "<think>"@, before.len() as int)
            &&& text::first_at(inner + "</think>"@ + after, "</think>"@, inner.len() as int)
            &&& !text::occurs(text::trimmed_start(after), "<think>"@)
            &&& text::trimmed(before + text::trimmed_start(after)).len() > 0
        }),
    ensures
        unreasoned(before + "<think>"@ + inner + "</think>"@ + after) == text::trimmed(
            before + text::trimmed_start(after),
        ),
{
    reveal_strlit("<|channel>thought");
    reveal_strlit("<think>");
    reveal_strlit("</think>");
    let s = before + "<think>"@ + inner + "</think>"@ + after;
    lemma_cut_one(before, inner, after, "<think>"@, "</think>"@);
    assert(cut(s, "<|channel>thought"@, "<channel|>"@) == s);
}

/// The same for the channel that Gemma thinks in.
pub proof fn law_a_finished_turn_loses_its_channel(
    before: Seq<char>,
    inner: Seq<char>,
    after: Seq<char>,
)
    requires
        ({
            let s = before + "<|channel>thought"@ + inner + "<channel|>"@ + after;
            &&& text::first_at(s, "<|channel>thought"@, before.len() as int)
            &&& text::first_at(inner + "<channel|>"@ + after, "<channel|>"@, inner.len() as int)
            &&& !text::occurs(text::trimmed_start(after), "<|channel>thought"@)
            &&& !text::occurs(before + text::trimmed_start(after), "<think>"@)
            &&& text::trimmed(before + text::trimmed_start(after)).len() > 0
        }),
    ensures
        unreasoned(before + "<|channel>thought"@ + inner + "<channel|>"@ + after) == text::trimmed(
            before + text::trimmed_start(after),
        ),
{
    reveal_strlit("<|channel>thought");
    reveal_strlit("<think>");
    reveal_strlit("<channel|>");
    lemma_cut_one(before, inner, after, "<|channel>thought"@, "<channel|>"@);
}

proof fn lemma_cut_one(
    before: Seq<char>,
    inner: Seq<char>,
    after: Seq<char>,
    open: Seq<char>,
    close: Seq<char>,
)
    requires
        0 < open.len(),
        text::first_at(before + open + inner + close + after, open, before.len() as int),
        text::first_at(inner + close + after, close, inner.len() as int),
        !text::occurs(text::trimmed_start(after), open),
    ensures
        cut(before + open + inner + close + after, open, close) == before + text::trimmed_start(
            after,
        ),
{
    let s = before + open + inner + close + after;
    let i = before.len() as int;
    lemma_first(s, open, i);
    assert(text::occurs_at(s, open, i));
    let rest = s.skip(i + open.len());
    assert(rest =~= inner + close + after);
    lemma_first(rest, close, inner.len() as int);
    assert(text::occurs_at(rest, close, inner.len() as int));
    assert(rest.skip(inner.len() as int + close.len()) =~= after);
    assert(s.take(i) =~= before);
    let last = text::trimmed_start(after);
    assert(cut(last, open, close) == last);
}

/// Reasoning that was never finished goes to the end.
pub proof fn law_unfinished_reasoning_goes_to_the_end(before: Seq<char>, inner: Seq<char>)
    requires
        ({
            let s = before + "<think>"@ + inner;
            &&& !text::occurs(s, "<|channel>thought"@)
            &&& text::first_at(s, "<think>"@, before.len() as int)
            &&& !text::occurs(inner, "</think>"@)
            &&& text::trimmed(before).len() > 0
        }),
    ensures
        unreasoned(before + "<think>"@ + inner) == text::trimmed(before),
{
    reveal_strlit("<|channel>thought");
    reveal_strlit("<think>");
    let s = before + "<think>"@ + inner;
    let i = before.len() as int;
    lemma_first(s, "<think>"@, i);
    assert(text::occurs_at(s, "<think>"@, i));
    assert(s.skip(i + "<think>"@.len()) =~= inner);
    assert(s.take(i) =~= before);
}

} // verus!
