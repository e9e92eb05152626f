//! The course of one request: from its body to a generation, and from what the
//! generation came to, to the answer.
use crate::api::auth::opt_view;
use crate::api::models;
use crate::api::reply;
use crate::api::reply::{answer_tree, records, Stamp, StreamFormat};
use crate::api::request;
use crate::api::request::{
    all_bytes, attached, byte_rows, count_view, each_decoded, has_media, is_chat, is_generate,
    is_media_chat, messages_of, no_multimodal_text, overrides_error, requested_model, set_number,
    size_view, switch, text_only_text, ApiError, ChatRoute,
};
use crate::audit::AuditEntry;
use crate::chat_template::template_for;
use crate::inference::{GenerateRequest, GenerateResult};
use crate::json;
use crate::json::{field, text_of, tree, trees, Json, Tree};
use crate::text;
use vstd::prelude::*;

verus! {

/// The endpoints that generate.
#[derive(Debug, Clone, Copy, PartialEq, Eq, Structural)]
pub enum Endpoint {
    /// `/api/generate`
    Generate,
    /// `/api/chat`
    Chat,
    /// `/v1/chat/completions`
    Completions,
}

/// The format that an endpoint answers in.
pub open spec fn format_of(e: Endpoint) -> StreamFormat {
    match e {
        Endpoint::Generate => StreamFormat::OllamaGenerate,
        Endpoint::Chat => StreamFormat::OllamaChat,
        Endpoint::Completions => StreamFormat::OpenAI,
    }
}

/// What a request starts with.
#[derive(Debug, PartialEq)]
pub enum Start {
    Refuse(ApiError),
    /// Load the model that the request names.
    Load { name: String, batch_size: Option<usize>, ctx_size: Option<u32> },
    /// The model in the slot answers.
    Ready,
}

/// The beginning of a request, given the name of the loaded model. Overrides
/// are checked first: a request that sets one out of range loads nothing.
pub fn start(body: &Json, loaded: Option<&str>) -> (r: Start)
    ensures
        ({
            let b = tree(*body);
            let wanted = text_of(field(b, "model"@));
            match overrides_error(b) {
                Some(m) => r matches Start::Refuse(e) && e.says(400, m),
                None => if models::swap_needed(opt_view(loaded), wanted) {
                    &&& r matches Start::Load { name, batch_size, ctx_size }
                    &&& Some(name@) == wanted
                    &&& size_view(batch_size) == set_number(b, "batch_size"@)
                    &&& count_view(ctx_size) == set_number(b, "ctx_size"@)
                } else {
                    r is Ready
                },
            }
        }),
{
    let (batch_size, ctx_size): (Option<usize>, Option<u32>) =
        match request::parse_slot_overrides(body) {
        Ok(o) => o,
        Err(e) => {
            return Start::Refuse(e);
        },
    };
    let wanted: Option<&str> = requested_model(body);
    if models::needs_swap(loaded, wanted) {
        match wanted {
            Some(n) => Start::Load { name: text::copy_text(n), batch_size, ctx_size },
            None => Start::Ready,
        }
    } else {
        Start::Ready
    }
}

/// The messages of a request, as a list of its own.
pub fn take_messages(body: &Json) -> (r: Vec<Json>)
    ensures
        trees(r@) == messages_of(tree(*body)),
{
    let mut r: Vec<Json> = Vec::new();
    let found: Option<&Json> = body.get("messages");
    let v: &Vec<Json> = match found {
        Some(m) => match m.as_array() {
            Some(v) => v,
            None => {
                assert(trees(r@) =~= Seq::empty());
                return r;
            },
        },
        None => {
            assert(trees(r@) =~= Seq::empty());
            return r;
        },
    };
    let mut i: usize = 0;
    assert(trees(r@) =~= trees(v@).take(0));
    while i < v.len()
        invariant
            i <= v@.len(),
            trees(r@) == trees(v@).take(i as int),
        decreases v.len() - i,
    {
        let ghost before = trees(r@);
        r.push(json::copy_json(&v[i]));
        assert(trees(r@) =~= before.push(trees(v@)[i as int]));
        assert(trees(v@).take(i + 1) =~= trees(v@).take(i as int).push(trees(v@)[i as int]));
        i = i + 1;
    }
    assert(trees(v@).take(i as int) =~= trees(v@));
    r
}

/// What is handed to the engine.
#[derive(Debug)]
pub struct Job {
    pub request: GenerateRequest,
    /// The media that go with the prompt: none for text.
    pub media: Vec<Vec<u8>>,
    pub format: StreamFormat,
    pub streaming: bool,
}

/// What the server can do with media: whether this build reads them, whether
/// the loaded model takes them, and the marker that stands for them in a
/// prompt.
#[derive(Debug, Clone, Copy)]
pub struct MediaSupport<'a> {
    pub build: bool,
    pub sequential: bool,
    pub marker: &'a str,
}

/// A job of text alone.
pub open spec fn text_job(j: Job, endpoint: Endpoint, b: Tree) -> bool {
    &&& j.media@.len() == 0
    &&& j.format == format_of(endpoint)
    &&& j.streaming == switch(b, "stream"@, false)
}

/// What a request comes to, once its model is ready and its messages are
/// complete: a generation, or a refusal of the media it carries. Only the
/// native chat takes media.
pub open spec fn prepared(
    endpoint: Endpoint,
    b: Tree,
    messages: Seq<Tree>,
    model: Seq<char>,
    media: MediaSupport,
    r: Result<Job, ApiError>,
) -> bool {
    let t = template_for(text::lowercase(model));
    match endpoint {
        Endpoint::Generate => r matches Ok(j) && text_job(j, endpoint, b) && is_generate(
            j.request,
            b,
        ),
        Endpoint::Completions => r matches Ok(j) && text_job(j, endpoint, b) && is_chat(
            j.request,
            t,
            b,
            messages,
        ),
        Endpoint::Chat => {
            let decoded = match attached(messages) {
                Some((_, p)) => all_bytes(each_decoded(p)),
                None => None,
            };
            if !media.build && has_media(messages) {
                r matches Err(e) && e.says(501, no_multimodal_text())
            } else if media.build && decoded is Some {
                if media.sequential {
                    &&& r matches Ok(j)
                    &&& Some(byte_rows(j.media@)) == decoded
                    &&& j.format == format_of(endpoint)
                    &&& j.streaming == switch(b, "stream"@, false)
                    &&& is_media_chat(j.request, b, media.marker@, attached(messages)->Some_0.0)
                } else {
                    r matches Err(e) && e.says(503, text_only_text())
                }
            } else {
                r matches Ok(j) && text_job(j, endpoint, b) && is_chat(j.request, t, b, messages)
            }
        },
    }
}

/// Prepares the generation that a request asks for.
pub fn prepare(
    endpoint: Endpoint,
    body: &Json,
    messages: &[Json],
    model_name: &str,
    media: MediaSupport,
) -> (r: Result<Job, ApiError>)
    ensures
        prepared(endpoint, tree(*body), trees(messages@), model_name@, media, r),
{
    let streaming: bool = request::is_streaming(body);
    match endpoint {
        Endpoint::Generate => Ok(
            Job {
                request: request::generate_request(body),
                media: Vec::new(),
                format: StreamFormat::OllamaGenerate,
                streaming,
            },
        ),
        Endpoint::Completions => Ok(
            Job {
                request: request::chat_request(body, messages, model_name),
                media: Vec::new(),
                format: StreamFormat::OpenAI,
                streaming,
            },
        ),
        Endpoint::Chat => match request::route_chat(media.build, media.sequential, messages) {
            ChatRoute::Refused(e) => Err(e),
            ChatRoute::Text => Ok(
                Job {
                    request: request::chat_request(body, messages, model_name),
                    media: Vec::new(),
                    format: StreamFormat::OllamaChat,
                    streaming,
                },
            ),
            ChatRoute::Media(t, bytes) => Ok(
                Job {
                    request: request::multimodal_request(body, media.marker, t.as_str()),
                    media: bytes,
                    format: StreamFormat::OllamaChat,
                    streaming,
                },
            ),
        },
    }
}

/// Why there is no result.
#[derive(Debug, PartialEq, Eq)]
pub enum Failure {
    /// The stream of a generation reported it.
    Reported(String),
    /// The sequential engine did.
    Inference(String),
    /// The task that ran the engine did not come back.
    Task(String),
}

pub open spec fn failure_text(f: Failure) -> Seq<char> {
    match f {
        Failure::Reported(e) => e@,
        Failure::Inference(e) => "Inference error: "@ + e@,
        Failure::Task(e) => "Task error: "@ + e@,
    }
}

/// Ends a request that is not streamed: its answer and the record it leaves,
/// or the error that a failed generation is answered with.
pub fn conclude(
    model: &str,
    stamp: &Stamp,
    format: StreamFormat,
    outcome: Result<GenerateResult, Failure>,
    user_id: Option<&str>,
) -> (r: Result<(Json, AuditEntry), ApiError>)
    requires
        outcome matches Ok(g) ==> format is OpenAI || g.duration_ms * 1_000_000 <= u64::MAX,
    ensures
        match outcome {
            Ok(g) => r matches Ok((j, e)) && tree(j) == answer_tree(model@, *stamp, format, g)
                && records(
                e,
                model@,
                format,
                g.tokens_prompt,
                g.tokens_generated,
                g.duration_ms,
                opt_view(user_id),
            ),
            Err(f) => r matches Err(a) && a.says(500, failure_text(f)),
        },
{
    match outcome {
        Ok(g) => {
            let entry: AuditEntry = reply::audit_record(
                model,
                format,
                g.tokens_prompt,
                g.tokens_generated,
                g.duration_ms,
                user_id,
            );
            Ok((reply::answer(model, stamp, format, &g), entry))
        },
        Err(Failure::Reported(e)) => Err(ApiError::new(500, e.as_str())),
        Err(Failure::Inference(e)) => {
            let mut m: String = text::copy_text("Inference error: ");
            m.append(e.as_str());
            Err(ApiError::new(500, m.as_str()))
        },
        Err(Failure::Task(e)) => {
            let mut m: String = text::copy_text("Task error: ");
            m.append(e.as_str());
            Err(ApiError::new(500, m.as_str()))
        },
    }
}

/// A request that names no model, or the one that is loaded, loads nothing.
pub proof fn law_the_loaded_model_answers(body: Tree, name: Seq<char>)
    requires
        text_of(field(body, "model"@)) == Some(name) || text_of(field(body, "model"@)) is None,
    ensures
        !models::swap_needed(Some(models::normalized(name)), text_of(field(body, "model"@))),
{
}

/// Each endpoint answers in its own format, streams where the request asks for
/// it, and hands on no media but those of a native chat.
pub proof fn law_an_endpoint_answers_in_its_own_format(
    endpoint: Endpoint,
    b: Tree,
    messages: Seq<Tree>,
    model: Seq<char>,
    media: MediaSupport,
    r: Result<Job, ApiError>,
)
    requires
        prepared(endpoint, b, messages, model, media, r),
    ensures
        r matches Ok(j) ==> {
            &&& endpoint is Generate ==> j.format == StreamFormat::OllamaGenerate
            &&& endpoint is Chat ==> j.format == StreamFormat::OllamaChat
            &&& endpoint is Completions ==> j.format == StreamFormat::OpenAI
            &&& j.streaming <==> field(b, "stream"@) == Some(Tree::Bool(true))
            &&& !(endpoint is Chat) || !media.build || attached(messages) is None ==> j.media@.len()
                == 0
        },
        !(endpoint is Chat) ==> r is Ok,
        endpoint is Chat && !has_media(messages) && !media.build ==> r is Ok,
{
}

/// A native chat with media is refused by a build that cannot read them, and by
/// a model that takes text alone; elsewhere its media go along, decoded.
pub proof fn law_media_are_refused_or_go_along(
    b: Tree,
    messages: Seq<Tree>,
    model: Seq<char>,
    media: MediaSupport,
    r: Result<Job, ApiError>,
    bytes: Seq<Seq<u8>>,
)
    requires
        prepared(Endpoint::Chat, b, messages, model, media, r),
        has_media(messages),
        attached(messages) is Some,
        all_bytes(each_decoded(attached(messages)->Some_0.1)) == Some(bytes),
    ensures
        !media.build ==> (r matches Err(e) && e.says(501, no_multimodal_text())),
        media.build && !media.sequential ==> (r matches Err(e) && e.says(503, text_only_text())),
        media.build && media.sequential ==> (r matches Ok(j) && byte_rows(j.media@) == bytes),
{
}

/// A failure is passed on in full: as the stream reported it, or behind what
/// failed.
pub proof fn law_a_failure_is_passed_on(f: Failure)
    ensures
        match f {
            Failure::Reported(e) => failure_text(f) == e@,
            Failure::Inference(e) => failure_text(f) == "Inference error: "@ + e@,
            Failure::Task(e) => failure_text(f) == "Task error: "@ + e@,
        },
{
}

} // verus!
