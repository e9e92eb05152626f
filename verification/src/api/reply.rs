//! What requests are answered with.
use crate::api::auth::opt_view;
use crate::api::models::ModelError;
use crate::api::request::{error_body, error_tree, ApiError};
use crate::audit;
use crate::audit::{random_id, AuditEntry};
use crate::inference::stream;
use crate::inference::{GenerateResult, StopReason, StreamEvent};
use crate::json;
use crate::json::{counted, members, tree, trees, Json, Tree};
use crate::text;
use vstd::prelude::*;

verus! {

/// The shape that an answer has.
#[derive(Debug, Clone, Copy, PartialEq, Eq, Structural)]
pub enum StreamFormat {
    OllamaGenerate,
    OllamaChat,
    OpenAI,
}

/// What an answer is stamped with: its id, and when it was made, as text and in
/// seconds since 1970.
#[derive(Debug, Clone, PartialEq, Eq)]
pub struct Stamp {
    pub id: String,
    pub created_at: String,
    pub created: i64,
}

/// The id of a completion.
pub open spec fn completion_id(s: Seq<char>) -> bool {
    text::is_prefix("chatcmpl-"@, s) && random_id(s.skip("chatcmpl-"@.len() as int))
}

/// A fresh id for a completion.
pub fn fresh_completion_id() -> (r: String)
    ensures
        completion_id(r@),
{
    let mut r: String = text::copy_text("chatcmpl-");
    let id: String = audit::fresh_id();
    r.append(id.as_str());
    proof {
        let p = "chatcmpl-"@;
        assert(r@.take(p.len() as int) =~= p);
        assert(r@.skip(p.len() as int) =~= id@);
    }
    r
}

/// `chrono::Utc::now`, as `timestamp` counts it. Nothing is claimed of it: which
/// second it is, is the clock's matter.
#[verifier::external_body]
pub(crate) fn now_seconds() -> (r: i64)
{
    chrono::Utc::now().timestamp()
}

impl Stamp {
    /// A stamp of this moment under a given id.
    pub fn now(id: &str) -> (r: Self)
        ensures
            r.id@ == id@,
            text::is_suffix("+00:00"@, r.created_at@),
    {
        Stamp { id: text::copy_text(id), created_at: audit::now_text(), created: now_seconds() }
    }
}

pub open spec fn created_tree(n: i64) -> Tree {
    Tree::Number(text::signed_decimal(n as int), None)
}

/// What an assistant says.
pub open spec fn said(content: Seq<char>) -> Tree {
    Tree::Object(seq![("role"@, Tree::Text("assistant"@)), ("content"@, Tree::Text(content))])
}

fn say(content: &str) -> (r: Json)
    ensures
        tree(r) == said(content@),
{
    let mut m: Vec<(String, Json)> = Vec::new();
    json::add_member(&mut m, "role", Json::text("assistant"));
    json::add_member(&mut m, "content", Json::text(content));
    assert(members(m@) =~= seq![
        ("role"@, Tree::Text("assistant"@)),
        ("content"@, Tree::Text(content@)),
    ]);
    Json::object(m)
}

pub open spec fn reason_text(r: StopReason) -> Seq<char> {
    match r {
        StopReason::Stop => "stop"@,
        StopReason::Length => "length"@,
    }
}

/// What carries the text of an answer: `response` or `message`.
pub open spec fn content_member(chat: bool, content: Seq<char>) -> (Seq<char>, Tree) {
    if chat {
        ("message"@, said(content))
    } else {
        ("response"@, Tree::Text(content))
    }
}

/// A piece of an answer as it is streamed.
pub open spec fn token_tree(
    piece: Seq<char>,
    model: Seq<char>,
    stamp: Stamp,
    format: StreamFormat,
) -> Tree {
    match format {
        StreamFormat::OpenAI => Tree::Object(
            seq![
                ("id"@, Tree::Text(stamp.id@)),
                ("object"@, Tree::Text("chat.completion.chunk"@)),
                ("created"@, created_tree(stamp.created)),
                ("model"@, Tree::Text(model)),
                (
                    "choices"@,
                    Tree::Array(
                        seq![
                            Tree::Object(
                                seq![
                                    ("index"@, counted(0)),
                                    (
                                        "delta"@,
                                        Tree::Object(seq![("content"@, Tree::Text(piece))]),
                                    ),
                                    ("finish_reason"@, Tree::Null),
                                ],
                            ),
                        ],
                    ),
                ),
            ],
        ),
        _ => Tree::Object(
            seq![
                ("model"@, Tree::Text(model)),
                ("created_at"@, Tree::Text(stamp.created_at@)),
                content_member(format is OllamaChat, piece),
                ("done"@, Tree::Bool(false)),
            ],
        ),
    }
}

/// What a finished answer counts up: durations in nanoseconds.
pub open spec fn tally(prompt: u32, generated: u32, duration_ms: u64) -> Seq<(Seq<char>, Tree)> {
    seq![
        ("total_duration"@, counted((duration_ms * 1_000_000) as nat)),
        ("load_duration"@, counted(0)),
        ("prompt_eval_count"@, counted(prompt as nat)),
        ("prompt_eval_duration"@, counted(0)),
        ("eval_count"@, counted(generated as nat)),
        ("eval_duration"@, counted((duration_ms * 1_000_000) as nat)),
    ]
}

/// The tokens that an answer took.
pub open spec fn usage(prompt: u32, generated: u32) -> Tree {
    Tree::Object(
        seq![
            ("prompt_tokens"@, counted(prompt as nat)),
            ("completion_tokens"@, counted(generated as nat)),
            ("total_tokens"@, counted((prompt + generated) as nat)),
        ],
    )
}

/// The end of an answer in the native format, whole or as the last of a stream.
pub open spec fn native_done(
    model: Seq<char>,
    stamp: Stamp,
    chat: bool,
    content: Seq<char>,
    prompt: u32,
    generated: u32,
    duration_ms: u64,
    reason: StopReason,
) -> Tree {
    Tree::Object(
        seq![
            ("model"@, Tree::Text(model)),
            ("created_at"@, Tree::Text(stamp.created_at@)),
            content_member(chat, content),
            ("done"@, Tree::Bool(true)),
            ("done_reason"@, Tree::Text(reason_text(reason))),
        ] + tally(prompt, generated, duration_ms),
    )
}

/// The one choice of a completion.
pub open spec fn choices(what: Seq<char>, content: Tree, reason: StopReason) -> Tree {
    Tree::Array(
        seq![
            Tree::Object(
                seq![
                    ("index"@, counted(0)),
                    (what, content),
                    ("finish_reason"@, Tree::Text(reason_text(reason))),
                ],
            ),
        ],
    )
}

/// A completion in OpenAI's format.
pub open spec fn openai_done(
    model: Seq<char>,
    stamp: Stamp,
    object: Seq<char>,
    choices: Tree,
    prompt: u32,
    generated: u32,
) -> Tree {
    Tree::Object(
        seq![
            ("id"@, Tree::Text(stamp.id@)),
            ("object"@, Tree::Text(object)),
            ("created"@, created_tree(stamp.created)),
            ("model"@, Tree::Text(model)),
            ("choices"@, choices),
            ("usage"@, usage(prompt, generated)),
        ],
    )
}

/// The last event of a stream.
pub open spec fn done_tree(
    model: Seq<char>,
    stamp: Stamp,
    format: StreamFormat,
    generated: u32,
    prompt: u32,
    duration_ms: u64,
    reason: StopReason,
) -> Tree {
    match format {
        StreamFormat::OpenAI => openai_done(
            model,
            stamp,
            "chat.completion.chunk"@,
            choices("delta"@, Tree::Object(Seq::empty()), reason),
            prompt,
            generated,
        ),
        _ => native_done(
            model,
            stamp,
            format is OllamaChat,
            ""@,
            prompt,
            generated,
            duration_ms,
            reason,
        ),
    }
}

/// A whole answer, not streamed.
pub open spec fn answer_tree(
    model: Seq<char>,
    stamp: Stamp,
    format: StreamFormat,
    r: GenerateResult,
) -> Tree {
    match format {
        StreamFormat::OpenAI => openai_done(
            model,
            stamp,
            "chat.completion"@,
            choices("message"@, said(r.text@), r.stop_reason),
            r.tokens_prompt,
            r.tokens_generated,
        ),
        _ => native_done(
            model,
            stamp,
            format is OllamaChat,
            r.text@,
            r.tokens_prompt,
            r.tokens_generated,
            r.duration_ms,
            r.stop_reason,
        ),
    }
}

fn add_content(m: &mut Vec<(String, Json)>, chat: bool, content: &str)
    ensures
        members(final(m)@) == members(old(m)@).push(content_member(chat, content@)),
{
    if chat {
        json::add_member(m, "message", say(content));
    } else {
        json::add_member(m, "response", Json::text(content));
    }
}

fn one(j: Json) -> (r: Json)
    ensures
        tree(r) == Tree::Array(seq![tree(j)]),
{
    let mut v: Vec<Json> = Vec::new();
    v.push(j);
    assert(trees(v@) =~= seq![tree(j)]);
    Json::array(v)
}

fn choice(what: &str, content: Json, reason: Json) -> (r: Json)
    ensures
        tree(r) == Tree::Array(
            seq![
                Tree::Object(
                    seq![
                        ("index"@, counted(0)),
                        (what@, tree(content)),
                        ("finish_reason"@, tree(reason)),
                    ],
                ),
            ],
        ),
{
    let mut m: Vec<(String, Json)> = Vec::new();
    json::add_member(&mut m, "index", Json::count(0));
    json::add_member(&mut m, what, content);
    json::add_member(&mut m, "finish_reason", reason);
    assert(members(m@) =~= seq![
        ("index"@, counted(0)),
        (what@, tree(content)),
        ("finish_reason"@, tree(reason)),
    ]);
    one(Json::object(m))
}

/// A piece of an answer, stamped.
pub fn token_event(piece: &str, model: &str, stamp: &Stamp, format: StreamFormat) -> (r: Json)
    ensures
        tree(r) == token_tree(piece@, model@, *stamp, format),
{
    let mut m: Vec<(String, Json)> = Vec::new();
    match format {
        StreamFormat::OpenAI => {
            let mut d: Vec<(String, Json)> = Vec::new();
            json::add_member(&mut d, "content", Json::text(piece));
            assert(members(d@) =~= seq![("content"@, Tree::Text(piece@))]);
            json::add_member(&mut m, "id", Json::text(stamp.id.as_str()));
            json::add_member(&mut m, "object", Json::text("chat.completion.chunk"));
            json::add_member(&mut m, "created", Json::signed(stamp.created));
            json::add_member(&mut m, "model", Json::text(model));
            json::add_member(&mut m, "choices", choice("delta", Json::object(d), Json::Null));
            let r: Json = Json::object(m);
            assert(tree(r)->Object_0 =~= token_tree(piece@, model@, *stamp, format)->Object_0);
            r
        },
        _ => {
            json::add_member(&mut m, "model", Json::text(model));
            json::add_member(&mut m, "created_at", Json::text(stamp.created_at.as_str()));
            add_content(&mut m, format == StreamFormat::OllamaChat, piece);
            json::add_member(&mut m, "done", Json::Bool(false));
            let r: Json = Json::object(m);
            assert(tree(r)->Object_0 =~= token_tree(piece@, model@, *stamp, format)->Object_0);
            r
        },
    }
}

/// A piece of an answer, stamped with this moment.
pub fn format_token_event(piece: &str, model: &str, completion_id: &str, format: StreamFormat) -> (r:
    Json)
    ensures
        exists|stamp: Stamp|
            stamp.id@ == completion_id@ && text::is_suffix("+00:00"@, stamp.created_at@) && tree(r)
                == #[trigger] token_tree(piece@, model@, stamp, format),
{
    let stamp: Stamp = Stamp::now(completion_id);
    token_event(piece, model, &stamp, format)
}

fn native(
    model: &str,
    stamp: &Stamp,
    chat: bool,
    content: &str,
    prompt: u32,
    generated: u32,
    duration_ms: u64,
    reason: StopReason,
) -> (r: Json)
    requires
        duration_ms * 1_000_000 <= u64::MAX,
    ensures
        tree(r) == native_done(
            model@,
            *stamp,
            chat,
            content@,
            prompt,
            generated,
            duration_ms,
            reason,
        ),
{
    let mut m: Vec<(String, Json)> = Vec::new();
    json::add_member(&mut m, "model", Json::text(model));
    json::add_member(&mut m, "created_at", Json::text(stamp.created_at.as_str()));
    add_content(&mut m, chat, content);
    json::add_member(&mut m, "done", Json::Bool(true));
    json::add_member(&mut m, "done_reason", Json::text(reason.as_api_str()));
    json::add_member(&mut m, "total_duration", Json::count(duration_ms * 1_000_000));
    json::add_member(&mut m, "load_duration", Json::count(0));
    json::add_member(&mut m, "prompt_eval_count", Json::count(prompt as u64));
    json::add_member(&mut m, "prompt_eval_duration", Json::count(0));
    json::add_member(&mut m, "eval_count", Json::count(generated as u64));
    json::add_member(&mut m, "eval_duration", Json::count(duration_ms * 1_000_000));
    let r: Json = Json::object(m);
    assert(tree(r)->Object_0 =~= native_done(
        model@,
        *stamp,
        chat,
        content@,
        prompt,
        generated,
        duration_ms,
        reason,
    )->Object_0);
    r
}

fn openai(model: &str, stamp: &Stamp, object: &str, choices: Json, prompt: u32, generated: u32) -> (r:
    Json)
    ensures
        tree(r) == openai_done(model@, *stamp, object@, tree(choices), prompt, generated),
{
    let mut u: Vec<(String, Json)> = Vec::new();
    json::add_member(&mut u, "prompt_tokens", Json::count(prompt as u64));
    json::add_member(&mut u, "completion_tokens", Json::count(generated as u64));
    json::add_member(&mut u, "total_tokens", Json::count((prompt as u64) + (generated as u64)));
    let used: Json = Json::object(u);
    assert(tree(used)->Object_0 =~= usage(prompt, generated)->Object_0);
    let mut m: Vec<(String, Json)> = Vec::new();
    json::add_member(&mut m, "id", Json::text(stamp.id.as_str()));
    json::add_member(&mut m, "object", Json::text(object));
    json::add_member(&mut m, "created", Json::signed(stamp.created));
    json::add_member(&mut m, "model", Json::text(model));
    json::add_member(&mut m, "choices", choices);
    json::add_member(&mut m, "usage", used);
    let r: Json = Json::object(m);
    assert(tree(r)->Object_0 =~= openai_done(
        model@,
        *stamp,
        object@,
        tree(choices),
        prompt,
        generated,
    )->Object_0);
    r
}

/// The last event of a stream, stamped.
pub fn done_event(
    model: &str,
    stamp: &Stamp,
    format: StreamFormat,
    tokens_generated: u32,
    tokens_prompt: u32,
    duration_ms: u64,
    stop_reason: StopReason,
) -> (r: Json)
    requires
        format is OpenAI || duration_ms * 1_000_000 <= u64::MAX,
    ensures
        tree(r) == done_tree(
            model@,
            *stamp,
            format,
            tokens_generated,
            tokens_prompt,
            duration_ms,
            stop_reason,
        ),
{
    match format {
        StreamFormat::OpenAI => {
            let none: Vec<(String, Json)> = Vec::new();
            assert(members(none@) =~= Seq::empty());
            let c: Json = choice(
                "delta",
                Json::object(none),
                Json::text(stop_reason.as_api_str()),
            );
            openai(model, stamp, "chat.completion.chunk", c, tokens_prompt, tokens_generated)
        },
        _ => native(
            model,
            stamp,
            format == StreamFormat::OllamaChat,
            "",
            tokens_prompt,
            tokens_generated,
            duration_ms,
            stop_reason,
        ),
    }
}

/// The last event of a stream, stamped with this moment.
pub fn format_done_event(
    model: &str,
    completion_id: &str,
    format: StreamFormat,
    tokens_generated: u32,
    tokens_prompt: u32,
    duration_ms: u64,
    stop_reason: StopReason,
) -> (r: Json)
    requires
        format is OpenAI || duration_ms * 1_000_000 <= u64::MAX,
    ensures
        exists|stamp: Stamp|
            stamp.id@ == completion_id@ && text::is_suffix("+00:00"@, stamp.created_at@) && tree(r)
                == #[trigger] done_tree(
                model@,
                stamp,
                format,
                tokens_generated,
                tokens_prompt,
                duration_ms,
                stop_reason,
            ),
{
    let stamp: Stamp = Stamp::now(completion_id);
    done_event(
        model,
        &stamp,
        format,
        tokens_generated,
        tokens_prompt,
        duration_ms,
        stop_reason,
    )
}

/// A whole answer, not streamed.
pub fn answer(model: &str, stamp: &Stamp, format: StreamFormat, result: &GenerateResult) -> (r: Json)
    requires
        format is OpenAI || result.duration_ms * 1_000_000 <= u64::MAX,
    ensures
        tree(r) == answer_tree(model@, *stamp, format, *result),
{
    match format {
        StreamFormat::OpenAI => {
            let c: Json = choice(
                "message",
                say(result.text.as_str()),
                Json::text(result.stop_reason.as_api_str()),
            );
            openai(
                model,
                stamp,
                "chat.completion",
                c,
                result.tokens_prompt,
                result.tokens_generated,
            )
        },
        _ => native(
            model,
            stamp,
            format == StreamFormat::OllamaChat,
            result.text.as_str(),
            result.tokens_prompt,
            result.tokens_generated,
            result.duration_ms,
            result.stop_reason,
        ),
    }
}

/// The type of request that the audit trail records for a format.
pub open spec fn audited_as(format: StreamFormat) -> Seq<char> {
    match format {
        StreamFormat::OllamaGenerate => "generate"@,
        StreamFormat::OllamaChat => "chat"@,
        StreamFormat::OpenAI => "chat.completions"@,
    }
}

pub fn request_type(format: StreamFormat) -> (r: &'static str)
    ensures
        r@ == audited_as(format),
{
    match format {
        StreamFormat::OllamaGenerate => "generate",
        StreamFormat::OllamaChat => "chat",
        StreamFormat::OpenAI => "chat.completions",
    }
}

pub open spec fn user_view(u: Option<String>) -> Option<Seq<char>> {
    match u {
        Some(s) => Some(s@),
        None => None,
    }
}

/// The record of an answered request.
pub open spec fn records(
    e: AuditEntry,
    model: Seq<char>,
    format: StreamFormat,
    prompt: u32,
    generated: u32,
    duration_ms: u64,
    user: Option<Seq<char>>,
) -> bool {
    &&& random_id(e.id@)
    &&& text::is_suffix("+00:00"@, e.timestamp@)
    &&& e.model@ == model
    &&& e.request_type@ == audited_as(format)
    &&& e.input_tokens == prompt
    &&& e.output_tokens == generated
    &&& e.duration_ms == duration_ms
    &&& user_view(e.user_id) == user
}

/// The record that an answered request leaves.
pub fn audit_record(
    model: &str,
    format: StreamFormat,
    tokens_prompt: u32,
    tokens_generated: u32,
    duration_ms: u64,
    user_id: Option<&str>,
) -> (r: AuditEntry)
    ensures
        records(
            r,
            model@,
            format,
            tokens_prompt,
            tokens_generated,
            duration_ms,
            opt_view(user_id),
        ),
{
    let e: AuditEntry = AuditEntry::new(
        text::copy_text(model),
        text::copy_text(request_type(format)),
    );
    let user: Option<String> = match user_id {
        Some(u) => Some(text::copy_text(u)),
        None => None,
    };
    e.completed(tokens_prompt, tokens_generated, duration_ms, user)
}

/// What one event of a generation adds to a streamed answer. A native stream
/// sends the data as a line each.
#[derive(Debug, PartialEq)]
pub struct StreamStep {
    pub data: Json,
    /// The record to log before the data are sent.
    pub audit: Option<AuditEntry>,
    /// Nothing follows.
    pub last: bool,
    /// The closing `[DONE]` of OpenAI's format follows the data.
    pub close: bool,
}

/// An event of a generation, over characters.
pub open spec fn step_for(
    event: StreamEvent,
    model: Seq<char>,
    stamp: Stamp,
    format: StreamFormat,
    user: Option<Seq<char>>,
    r: StreamStep,
) -> bool {
    match event {
        StreamEvent::Token(piece) => {
            &&& tree(r.data) == token_tree(piece@, model, stamp, format)
            &&& r.audit is None
            &&& !r.last
            &&& !r.close
        },
        StreamEvent::Done { tokens_generated, tokens_prompt, duration_ms, stop_reason } => {
            &&& tree(r.data) == done_tree(
                model,
                stamp,
                format,
                tokens_generated,
                tokens_prompt,
                duration_ms,
                stop_reason,
            )
            &&& r.audit matches Some(e) && records(
                e,
                model,
                format,
                tokens_prompt,
                tokens_generated,
                duration_ms,
                user,
            )
            &&& r.last
            &&& r.close == (format is OpenAI)
        },
        StreamEvent::Error(msg) => {
            &&& tree(r.data) == error_tree(msg@)
            &&& r.audit is None
            &&& r.last
            &&& !r.close
        },
    }
}

/// Turns an event of a generation into what is streamed. The end of an answer
/// is recorded; an error ends the stream.
pub fn stream_step(
    event: &StreamEvent,
    model: &str,
    stamp: &Stamp,
    format: StreamFormat,
    user_id: Option<&str>,
) -> (r: StreamStep)
    requires
        match event {
            StreamEvent::Done { duration_ms, .. } => format is OpenAI || duration_ms * 1_000_000
                <= u64::MAX,
            _ => true,
        },
    ensures
        step_for(*event, model@, *stamp, format, opt_view(user_id), r),
{
    match event {
        StreamEvent::Token(piece) => StreamStep {
            data: token_event(piece.as_str(), model, stamp, format),
            audit: None,
            last: false,
            close: false,
        },
        StreamEvent::Done { tokens_generated, tokens_prompt, duration_ms, stop_reason } => {
            let entry: AuditEntry = audit_record(
                model,
                format,
                *tokens_prompt,
                *tokens_generated,
                *duration_ms,
                user_id,
            );
            StreamStep {
                data: done_event(
                    model,
                    stamp,
                    format,
                    *tokens_generated,
                    *tokens_prompt,
                    *duration_ms,
                    *stop_reason,
                ),
                audit: Some(entry),
                last: true,
                close: format == StreamFormat::OpenAI,
            }
        },
        StreamEvent::Error(msg) => StreamStep {
            data: error_body(msg.as_str()),
            audit: None,
            last: true,
            close: false,
        },
    }
}

/// What a generation came to, over characters.
pub struct Gathered {
    pub text: Seq<char>,
    pub tokens_generated: u32,
    pub tokens_prompt: u32,
    pub duration_ms: u64,
    pub stop_reason: StopReason,
}

/// What the events from the `i`th on add to `text`. The first end or error
/// settles it; a stream that just stops was cut off, and says so.
pub open spec fn gathered(events: Seq<StreamEvent>, i: int, text: Seq<char>) -> Result<
    Gathered,
    Seq<char>,
>
    decreases events.len() - i,
{
    if i < 0 || i >= events.len() {
        Ok(
            Gathered {
                text,
                tokens_generated: 0,
                tokens_prompt: 0,
                duration_ms: 0,
                stop_reason: StopReason::Length,
            },
        )
    } else {
        match events[i] {
            StreamEvent::Token(piece) => gathered(events, i + 1, text + piece@),
            StreamEvent::Done { tokens_generated, tokens_prompt, duration_ms, stop_reason } => Ok(
                Gathered { text, tokens_generated, tokens_prompt, duration_ms, stop_reason },
            ),
            StreamEvent::Error(e) => Err(e@),
        }
    }
}

pub open spec fn result_view(r: GenerateResult) -> Gathered {
    Gathered {
        text: r.text@,
        tokens_generated: r.tokens_generated,
        tokens_prompt: r.tokens_prompt,
        duration_ms: r.duration_ms,
        stop_reason: r.stop_reason,
    }
}

/// Collects the events of a generation into one answer.
pub fn collect_stream(events: &[StreamEvent]) -> (r: Result<GenerateResult, String>)
    ensures
        match gathered(events@, 0, Seq::empty()) {
            Ok(g) => r matches Ok(x) && result_view(x) == g,
            Err(e) => r matches Err(m) && m@ == e,
        },
{
    let mut all: String = String::new();
    let mut i: usize = 0;
    assert(all@ =~= Seq::empty());
    while i < events.len()
        invariant
            i <= events@.len(),
            gathered(events@, 0, Seq::empty()) == gathered(events@, i as int, all@),
        decreases events.len() - i,
    {
        match &events[i] {
            StreamEvent::Token(piece) => {
                all.append(piece.as_str());
            },
            StreamEvent::Done { tokens_generated, tokens_prompt, duration_ms, stop_reason } => {
                return Ok(
                    GenerateResult {
                        text: all,
                        tokens_generated: *tokens_generated,
                        tokens_prompt: *tokens_prompt,
                        duration_ms: *duration_ms,
                        stop_reason: *stop_reason,
                    },
                );
            },
            StreamEvent::Error(e) => {
                return Err(text::copy_text(e.as_str()));
            },
        }
        i = i + 1;
    }
    Ok(
        GenerateResult {
            text: all,
            tokens_generated: 0,
            tokens_prompt: 0,
            duration_ms: 0,
            stop_reason: StopReason::Length,
        },
    )
}

/// An answer that ends without word of its end counts as cut off.
pub proof fn law_a_stream_without_an_end_is_truncated(events: Seq<StreamEvent>, i: int, text: Seq<char>)
    requires
        0 <= i,
        forall|k: int| i <= k < events.len() ==> (#[trigger] events[k]) is Token,
    ensures
        gathered(events, i, text) matches Ok(g) && g.stop_reason is Length,
    decreases events.len() - i,
{
    if i < events.len() {
        assert(events[i] is Token);
        law_a_stream_without_an_end_is_truncated(events, i + 1, text + events[i]->Token_0@);
    }
}

/// Why a model that was asked for is not there. One that does not exist is the
/// client's mistake, and a client that retries must not retry it; one that does
/// not load is the server's.
pub fn load_refused(e: &ModelError, name: &str) -> (r: ApiError)
    ensures
        match e {
            ModelError::NotFound(m) => r.says(404, m@),
            ModelError::LoadFailed(m) => r.says(
                500,
                "Failed to load model '"@ + name@ + "': "@ + m@,
            ),
        },
{
    match e {
        ModelError::NotFound(m) => ApiError::new(404, m.as_str()),
        ModelError::LoadFailed(m) => {
            let mut t: String = text::copy_text("Failed to load model '");
            t.append(name);
            t.append("': ");
            t.append(m.as_str());
            ApiError::new(500, t.as_str())
        },
    }
}

pub open spec fn empty_slot_text() -> Seq<char> {
    "No model loaded. Send a request with a \"model\" field, or use `eullm run <model>`."@
}

/// The name of the model that answers, or the refusal of a server whose slot is
/// empty.
pub fn answering_model(name: Option<&str>, engine: bool, scheduler: bool) -> (r: Result<
    String,
    ApiError,
>)
    ensures
        if !engine && !scheduler {
            r matches Err(e) && e.says(503, empty_slot_text())
        } else {
            r matches Ok(s) && s@ == (match name {
                Some(n) => n@,
                None => "unknown"@,
            })
        },
{
    if !engine && !scheduler {
        return Err(
            ApiError::new(
                503,
                "No model loaded. Send a request with a \"model\" field, or use `eullm run <model>`.",
            ),
        );
    }
    match name {
        Some(n) => Ok(text::copy_text(n)),
        None => Ok(text::copy_text("unknown")),
    }
}

/// What `/api/version` answers: the version, the port of the API, and how often
/// a model was unloaded to make room for the other slot.
pub fn version_reply(version: &str, api_port: u16, model_swaps: u64) -> (r: Json)
    ensures
        tree(r) == Tree::Object(
            seq![
                ("version"@, Tree::Text(version@)),
                ("api_port"@, counted(api_port as nat)),
                ("model_swaps"@, counted(model_swaps as nat)),
            ],
        ),
{
    let mut m: Vec<(String, Json)> = Vec::new();
    json::add_member(&mut m, "version", Json::text(version));
    json::add_member(&mut m, "api_port", Json::count(api_port as u64));
    json::add_member(&mut m, "model_swaps", Json::count(model_swaps));
    assert(members(m@) =~= seq![
        ("version"@, Tree::Text(version@)),
        ("api_port"@, counted(api_port as nat)),
        ("model_swaps"@, counted(model_swaps as nat)),
    ]);
    Json::object(m)
}

/// What `/api/unload` answers: the name of the model that was unloaded, or that
/// there was none.
pub open spec fn unload_tree(name: Option<Seq<char>>) -> Tree {
    match name {
        Some(n) => Tree::Object(seq![("unloaded"@, Tree::Text(n))]),
        None => Tree::Object(
            seq![
                ("unloaded"@, Tree::Null),
                ("message"@, Tree::Text("no model was loaded"@)),
            ],
        ),
    }
}

pub fn unload_reply(outcome: Result<Option<String>, String>) -> (r: Result<Json, ApiError>)
    ensures
        match outcome {
            Ok(name) => r matches Ok(j) && tree(j) == unload_tree(user_view(name)),
            Err(e) => r matches Err(a) && a.says(500, "Failed to unload model: "@ + e@),
        },
{
    match outcome {
        Ok(Some(name)) => {
            let mut m: Vec<(String, Json)> = Vec::new();
            json::add_member(&mut m, "unloaded", Json::text(name.as_str()));
            assert(members(m@) =~= seq![("unloaded"@, Tree::Text(name@))]);
            Ok(Json::object(m))
        },
        Ok(None) => {
            let mut m: Vec<(String, Json)> = Vec::new();
            json::add_member(&mut m, "unloaded", Json::Null);
            json::add_member(&mut m, "message", Json::text("no model was loaded"));
            assert(members(m@) =~= seq![
                ("unloaded"@, Tree::Null),
                ("message"@, Tree::Text("no model was loaded"@)),
            ]);
            Ok(Json::object(m))
        },
        Err(e) => {
            let mut t: String = text::copy_text("Failed to unload model: ");
            t.append(e.as_str());
            Err(ApiError::new(500, t.as_str()))
        },
    }
}

/// The members of an object.
pub open spec fn members_of(t: Tree) -> Seq<(Seq<char>, Tree)> {
    match t {
        Tree::Object(m) => m,
        _ => Seq::empty(),
    }
}

/// What the assistant says: an object with its role and the text.
proof fn lemma_said(content: Seq<char>)
    ensures
        members_of(said(content)).contains(("role"@, Tree::Text("assistant"@))),
        members_of(said(content)).contains(("content"@, Tree::Text(content))),
{
    let m = members_of(said(content));
    assert(m[0] == ("role"@, Tree::Text("assistant"@)));
    assert(m[1] == ("content"@, Tree::Text(content)));
}

/// An answer in the native format says what was generated: the whole text, by
/// which model, that and why it is done, how many tokens the prompt and the
/// output took, and how long it took in nanoseconds.
pub proof fn law_a_native_answer_says_what_was_generated(
    model: Seq<char>,
    stamp: Stamp,
    r: GenerateResult,
)
    ensures
        ({
            let g = members_of(answer_tree(model, stamp, StreamFormat::OllamaGenerate, r));
            let c = members_of(answer_tree(model, stamp, StreamFormat::OllamaChat, r));
            &&& g.contains(("response"@, Tree::Text(r.text@)))
            &&& exists|m: Seq<(Seq<char>, Tree)>|
                #![trigger c.contains(("message"@, Tree::Object(m)))]
                c.contains(("message"@, Tree::Object(m))) && m.contains(
                    ("role"@, Tree::Text("assistant"@)),
                ) && m.contains(("content"@, Tree::Text(r.text@)))
            &&& tells_the_end(g, model, stamp, r.tokens_prompt, r.tokens_generated, r.duration_ms, r.stop_reason)
            &&& tells_the_end(c, model, stamp, r.tokens_prompt, r.tokens_generated, r.duration_ms, r.stop_reason)
        }),
{
    let g = members_of(answer_tree(model, stamp, StreamFormat::OllamaGenerate, r));
    let c = members_of(answer_tree(model, stamp, StreamFormat::OllamaChat, r));
    assert(g[2] == ("response"@, Tree::Text(r.text@)));
    lemma_said(r.text@);
    assert(c[2] == ("message"@, Tree::Object(members_of(said(r.text@)))));
    assert(c.contains(("message"@, Tree::Object(members_of(said(r.text@))))));
    lemma_tells_the_end(
        model,
        stamp,
        false,
        r.text@,
        r.tokens_prompt,
        r.tokens_generated,
        r.duration_ms,
        r.stop_reason,
    );
    lemma_tells_the_end(
        model,
        stamp,
        true,
        r.text@,
        r.tokens_prompt,
        r.tokens_generated,
        r.duration_ms,
        r.stop_reason,
    );
}

/// The members tell that and why an answer is done, and what it took.
pub open spec fn tells_the_end(
    m: Seq<(Seq<char>, Tree)>,
    model: Seq<char>,
    stamp: Stamp,
    prompt: u32,
    generated: u32,
    duration_ms: u64,
    reason: StopReason,
) -> bool {
    &&& m.contains(("model"@, Tree::Text(model)))
    &&& m.contains(("created_at"@, Tree::Text(stamp.created_at@)))
    &&& m.contains(("done"@, Tree::Bool(true)))
    &&& m.contains(
        (
            "done_reason"@,
            Tree::Text(
                if reason is Stop {
                    "stop"@
                } else {
                    "length"@
                },
            ),
        ),
    )
    &&& m.contains(("prompt_eval_count"@, Tree::Number(text::decimal(prompt as nat), None)))
    &&& m.contains(("eval_count"@, Tree::Number(text::decimal(generated as nat), None)))
    &&& m.contains(
        ("total_duration"@, Tree::Number(text::decimal((duration_ms * 1_000_000) as nat), None)),
    )
    &&& m.contains(
        ("eval_duration"@, Tree::Number(text::decimal((duration_ms * 1_000_000) as nat), None)),
    )
    &&& m.contains(("load_duration"@, Tree::Number(text::decimal(0), None)))
    &&& m.contains(("prompt_eval_duration"@, Tree::Number(text::decimal(0), None)))
}

proof fn lemma_tells_the_end(
    model: Seq<char>,
    stamp: Stamp,
    chat: bool,
    content: Seq<char>,
    prompt: u32,
    generated: u32,
    duration_ms: u64,
    reason: StopReason,
)
    ensures
        tells_the_end(
            members_of(
                native_done(model, stamp, chat, content, prompt, generated, duration_ms, reason),
            ),
            model,
            stamp,
            prompt,
            generated,
            duration_ms,
            reason,
        ),
{
    let m = members_of(
        native_done(model, stamp, chat, content, prompt, generated, duration_ms, reason),
    );
    let t = tally(prompt, generated, duration_ms);
    assert(m[0] == ("model"@, Tree::Text(model)));
    assert(m[1] == ("created_at"@, Tree::Text(stamp.created_at@)));
    assert(m[3] == ("done"@, Tree::Bool(true)));
    assert(m[4] == ("done_reason"@, Tree::Text(reason_text(reason))));
    assert(m[5] == t[0] && m[6] == t[1] && m[7] == t[2] && m[8] == t[3] && m[9] == t[4] && m[10]
        == t[5]);
}

/// A completion in OpenAI's format says what was generated: one choice with the
/// whole text and why it ended, and what was used.
pub proof fn law_a_completion_says_what_was_generated(
    model: Seq<char>,
    stamp: Stamp,
    r: GenerateResult,
)
    ensures
        ({
            let m = members_of(answer_tree(model, stamp, StreamFormat::OpenAI, r));
            &&& m.contains(("id"@, Tree::Text(stamp.id@)))
            &&& m.contains(("object"@, Tree::Text("chat.completion"@)))
            &&& m.contains(("model"@, Tree::Text(model)))
            &&& m.contains(("created"@, Tree::Number(text::signed_decimal(stamp.created as int), None)))
            &&& exists|c: Seq<(Seq<char>, Tree)>, s: Seq<(Seq<char>, Tree)>|
                #![trigger c.contains(("message"@, Tree::Object(s)))]
                {
                    &&& m.contains(("choices"@, Tree::Array(seq![Tree::Object(c)])))
                    &&& c.contains(("message"@, Tree::Object(s)))
                    &&& s.contains(("role"@, Tree::Text("assistant"@)))
                    &&& s.contains(("content"@, Tree::Text(r.text@)))
                    &&& c.contains(
                        (
                            "finish_reason"@,
                            Tree::Text(
                                if r.stop_reason is Stop {
                                    "stop"@
                                } else {
                                    "length"@
                                },
                            ),
                        ),
                    )
                }
            &&& tells_usage(m, r.tokens_prompt, r.tokens_generated)
        }),
{
    let m = members_of(answer_tree(model, stamp, StreamFormat::OpenAI, r));
    assert(m[0] == ("id"@, Tree::Text(stamp.id@)));
    assert(m[1] == ("object"@, Tree::Text("chat.completion"@)));
    assert(m[2] == ("created"@, created_tree(stamp.created)));
    assert(m[3] == ("model"@, Tree::Text(model)));
    let c = seq![
        ("index"@, counted(0)),
        ("message"@, said(r.text@)),
        ("finish_reason"@, Tree::Text(reason_text(r.stop_reason))),
    ];
    let s = members_of(said(r.text@));
    lemma_said(r.text@);
    assert(c[1] == ("message"@, Tree::Object(s)));
    assert(c[2] == ("finish_reason"@, Tree::Text(reason_text(r.stop_reason))));
    assert(m[4] == ("choices"@, Tree::Array(seq![Tree::Object(c)])));
    assert(c.contains(("message"@, Tree::Object(s))));
    assert(m.contains(("choices"@, Tree::Array(seq![Tree::Object(c)]))));
    lemma_tells_usage(m, r.tokens_prompt, r.tokens_generated);
}

/// The members tell how many tokens were used: for the prompt, for the output,
/// and both together.
pub open spec fn tells_usage(m: Seq<(Seq<char>, Tree)>, prompt: u32, generated: u32) -> bool {
    exists|u: Seq<(Seq<char>, Tree)>|
        #![trigger m.contains(("usage"@, Tree::Object(u)))]
        {
            &&& m.contains(("usage"@, Tree::Object(u)))
            &&& u.contains(("prompt_tokens"@, Tree::Number(text::decimal(prompt as nat), None)))
            &&& u.contains(
                ("completion_tokens"@, Tree::Number(text::decimal(generated as nat), None)),
            )
            &&& u.contains(
                (
                    "total_tokens"@,
                    Tree::Number(text::decimal((prompt + generated) as nat), None),
                ),
            )
        }
}

proof fn lemma_tells_usage(m: Seq<(Seq<char>, Tree)>, prompt: u32, generated: u32)
    requires
        m.len() == 6,
        m[5] == ("usage"@, usage(prompt, generated)),
    ensures
        tells_usage(m, prompt, generated),
{
    let u = members_of(usage(prompt, generated));
    assert(u[0] == ("prompt_tokens"@, counted(prompt as nat)));
    assert(u[1] == ("completion_tokens"@, counted(generated as nat)));
    assert(u[2] == ("total_tokens"@, counted((prompt + generated) as nat)));
    assert(m[5] == ("usage"@, Tree::Object(u)));
    assert(m.contains(("usage"@, Tree::Object(u))));
}

/// A streamed piece carries its text and says that more follows.
pub proof fn law_a_streamed_piece_carries_its_text(
    piece: Seq<char>,
    model: Seq<char>,
    stamp: Stamp,
)
    ensures
        ({
            let g = members_of(token_tree(piece, model, stamp, StreamFormat::OllamaGenerate));
            let c = members_of(token_tree(piece, model, stamp, StreamFormat::OllamaChat));
            let o = members_of(token_tree(piece, model, stamp, StreamFormat::OpenAI));
            &&& g.contains(("response"@, Tree::Text(piece)))
            &&& g.contains(("done"@, Tree::Bool(false)))
            &&& g.contains(("model"@, Tree::Text(model)))
            &&& g.contains(("created_at"@, Tree::Text(stamp.created_at@)))
            &&& c.contains(("done"@, Tree::Bool(false)))
            &&& c.contains(("model"@, Tree::Text(model)))
            &&& c.contains(("created_at"@, Tree::Text(stamp.created_at@)))
            &&& exists|m: Seq<(Seq<char>, Tree)>|
                #![trigger c.contains(("message"@, Tree::Object(m)))]
                c.contains(("message"@, Tree::Object(m))) && m.contains(
                    ("content"@, Tree::Text(piece)),
                ) && m.contains(("role"@, Tree::Text("assistant"@)))
            &&& o.contains(("id"@, Tree::Text(stamp.id@)))
            &&& o.contains(("object"@, Tree::Text("chat.completion.chunk"@)))
            &&& o.contains(("model"@, Tree::Text(model)))
            &&& exists|m: Seq<(Seq<char>, Tree)>|
                #![trigger o.contains(("choices"@, Tree::Array(seq![Tree::Object(m)])))]
                o.contains(("choices"@, Tree::Array(seq![Tree::Object(m)]))) && m.contains(
                    ("delta"@, Tree::Object(seq![("content"@, Tree::Text(piece))])),
                ) && m.contains(("finish_reason"@, Tree::Null))
        }),
{
    let g = members_of(token_tree(piece, model, stamp, StreamFormat::OllamaGenerate));
    let c = members_of(token_tree(piece, model, stamp, StreamFormat::OllamaChat));
    let o = members_of(token_tree(piece, model, stamp, StreamFormat::OpenAI));
    assert(g[0] == ("model"@, Tree::Text(model)) && c[0] == g[0]);
    assert(g[1] == ("created_at"@, Tree::Text(stamp.created_at@)) && c[1] == g[1]);
    assert(g[2] == ("response"@, Tree::Text(piece)));
    assert(g[3] == ("done"@, Tree::Bool(false)) && c[3] == g[3]);
    lemma_said(piece);
    assert(c[2] == ("message"@, Tree::Object(members_of(said(piece)))));
    assert(c.contains(("message"@, Tree::Object(members_of(said(piece))))));
    assert(o[0] == ("id"@, Tree::Text(stamp.id@)));
    assert(o[1] == ("object"@, Tree::Text("chat.completion.chunk"@)));
    assert(o[3] == ("model"@, Tree::Text(model)));
    let m = seq![
        ("index"@, counted(0)),
        ("delta"@, Tree::Object(seq![("content"@, Tree::Text(piece))])),
        ("finish_reason"@, Tree::Null),
    ];
    assert(m[1] == ("delta"@, Tree::Object(seq![("content"@, Tree::Text(piece))])));
    assert(m[2] == ("finish_reason"@, Tree::Null));
    assert(o[4] == ("choices"@, Tree::Array(seq![Tree::Object(m)])));
    assert(o.contains(("choices"@, Tree::Array(seq![Tree::Object(m)]))));
}

/// The end of a stream says why it ended and what it took, as a whole answer
/// does, and carries no text.
pub proof fn law_the_end_of_a_stream_says_what_it_took(
    model: Seq<char>,
    stamp: Stamp,
    generated: u32,
    prompt: u32,
    duration_ms: u64,
    reason: StopReason,
)
    ensures
        ({
            let (n, p, d) = (generated, prompt, duration_ms);
            let g = members_of(
                done_tree(model, stamp, StreamFormat::OllamaGenerate, n, p, d, reason),
            );
            let c = members_of(done_tree(model, stamp, StreamFormat::OllamaChat, n, p, d, reason));
            let o = members_of(done_tree(model, stamp, StreamFormat::OpenAI, n, p, d, reason));
            &&& tells_the_end(g, model, stamp, prompt, generated, duration_ms, reason)
            &&& tells_the_end(c, model, stamp, prompt, generated, duration_ms, reason)
            &&& g.contains(("response"@, Tree::Text(""@)))
            &&& tells_usage(o, prompt, generated)
            &&& o.contains(("id"@, Tree::Text(stamp.id@)))
            &&& exists|m: Seq<(Seq<char>, Tree)>|
                #![trigger o.contains(("choices"@, Tree::Array(seq![Tree::Object(m)])))]
                o.contains(("choices"@, Tree::Array(seq![Tree::Object(m)]))) && m.contains(
                    (
                        "finish_reason"@,
                        Tree::Text(
                            if reason is Stop {
                                "stop"@
                            } else {
                                "length"@
                            },
                        ),
                    ),
                )
        }),
{
    lemma_tells_the_end(model, stamp, false, ""@, prompt, generated, duration_ms, reason);
    lemma_tells_the_end(model, stamp, true, ""@, prompt, generated, duration_ms, reason);
    let (n, p, d) = (generated, prompt, duration_ms);
    let g = members_of(done_tree(model, stamp, StreamFormat::OllamaGenerate, n, p, d, reason));
    assert(g[2] == ("response"@, Tree::Text(""@)));
    let o = members_of(done_tree(model, stamp, StreamFormat::OpenAI, n, p, d, reason));
    lemma_tells_usage(o, prompt, generated);
    let m = seq![
        ("index"@, counted(0)),
        ("delta"@, Tree::Object(Seq::empty())),
        ("finish_reason"@, Tree::Text(reason_text(reason))),
    ];
    assert(m[2] == ("finish_reason"@, Tree::Text(reason_text(reason))));
    assert(o[0] == ("id"@, Tree::Text(stamp.id@)));
    assert(choices("delta"@, Tree::Object(Seq::empty()), reason)->Array_0 =~= seq![
        Tree::Object(m),
    ]);
    assert(o[4] == ("choices"@, Tree::Array(seq![Tree::Object(m)])));
    assert(o.contains(("choices"@, Tree::Array(seq![Tree::Object(m)]))));
}

/// A record names the model and the key, tells the kind of request from its
/// format, and counts what the answer took.
pub proof fn law_a_record_tells_who_asked_for_what(
    e: AuditEntry,
    model: Seq<char>,
    format: StreamFormat,
    prompt: u32,
    generated: u32,
    duration_ms: u64,
    user: Option<Seq<char>>,
)
    requires
        records(e, model, format, prompt, generated, duration_ms, user),
    ensures
        e.model@ == model,
        e.request_type@ == (match format {
            StreamFormat::OllamaGenerate => "generate"@,
            StreamFormat::OllamaChat => "chat"@,
            StreamFormat::OpenAI => "chat.completions"@,
        }),
        e.input_tokens == prompt,
        e.output_tokens == generated,
        e.duration_ms == duration_ms,
        user is Some <==> e.user_id is Some,
        e.user_id matches Some(u) ==> user == Some(u@),
{
}

/// Each event of a generation is streamed as what it is: text as a piece, the end
/// with a record, an error as an error. Only the end and an error end the
/// stream, and only OpenAI's format closes it.
pub proof fn law_events_are_streamed_as_what_they_are(
    event: StreamEvent,
    model: Seq<char>,
    stamp: Stamp,
    format: StreamFormat,
    user: Option<Seq<char>>,
    r: StreamStep,
)
    requires
        step_for(event, model, stamp, format, user, r),
    ensures
        r.last <==> !(event is Token),
        r.audit is Some <==> event is Done,
        r.close <==> event is Done && format is OpenAI,
        event matches StreamEvent::Token(p) ==> tree(r.data) == token_tree(
            p@,
            model,
            stamp,
            format,
        ),
        event matches StreamEvent::Error(m) ==> members_of(tree(r.data)).contains(
            ("error"@, Tree::Text(m@)),
        ),
        event matches StreamEvent::Done {
            tokens_generated,
            tokens_prompt,
            duration_ms,
            stop_reason,
        } ==> (r.audit matches Some(e) && e.input_tokens == tokens_prompt && e.output_tokens
            == tokens_generated && e.duration_ms == duration_ms && e.model@ == model && tree(r.data)
            == done_tree(
            model,
            stamp,
            format,
            tokens_generated,
            tokens_prompt,
            duration_ms,
            stop_reason,
        )),
{
    if let StreamEvent::Error(m) = event {
        assert(members_of(tree(r.data))[0] == ("error"@, Tree::Text(m@)));
    }
}

/// A collected answer is what was streamed: the texts of all pieces one after the
/// other, up to the first event that is none. What the end says is kept, and an
/// error is the answer.
pub proof fn law_a_collected_answer_is_what_was_streamed(events: Seq<StreamEvent>, n: int)
    requires
        0 <= n < events.len(),
        forall|k: int| 0 <= k < n ==> (#[trigger] events[k]) is Token,
        !(events[n] is Token),
    ensures
        events[n] matches StreamEvent::Error(e) ==> gathered(events, 0, Seq::empty()) == Err::<
            Gathered,
            Seq<char>,
        >(e@),
        events[n] matches StreamEvent::Done {
            tokens_generated,
            tokens_prompt,
            duration_ms,
            stop_reason,
        } ==> gathered(events, 0, Seq::empty()) == Ok::<Gathered, Seq<char>>(
            Gathered {
                text: stream::spoken(events.take(n)),
                tokens_generated,
                tokens_prompt,
                duration_ms,
                stop_reason,
            },
        ),
{
    lemma_gathered_upto(events, n, n);
}

proof fn lemma_gathered_upto(events: Seq<StreamEvent>, n: int, k: int)
    requires
        0 <= k <= n < events.len(),
        forall|j: int| 0 <= j < n ==> (#[trigger] events[j]) is Token,
    ensures
        gathered(events, 0, Seq::empty()) == gathered(events, k, stream::spoken(events.take(k))),
    decreases k,
{
    if k > 0 {
        lemma_gathered_upto(events, n, k - 1);
        assert(events.take(k).drop_last() =~= events.take(k - 1));
        assert(events.take(k).last() == events[k - 1]);
        assert(events[k - 1] is Token);
    } else {
        assert(events.take(0) =~= Seq::empty());
    }
}

/// A piece adds its text to what has been said, and nothing else does.
pub proof fn law_pieces_add_up(events: Seq<StreamEvent>, e: StreamEvent)
    ensures
        stream::spoken(events.push(e)) == stream::spoken(events) + match e {
            StreamEvent::Token(t) => t@,
            _ => Seq::empty(),
        },
        stream::spoken(Seq::<StreamEvent>::empty()).len() == 0,
{
    assert(events.push(e).drop_last() =~= events);
}

} // verus!
