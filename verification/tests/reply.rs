use eullm::api::listing::{
    list_models, list_models_openai, local_model_ids, pull_model, show_model, CatalogEntry,
    StoredModel,
};
use eullm::api::reply::{
    answer, collect_stream, done_event, format_done_event, format_token_event,
    fresh_completion_id, stream_step, token_event, unload_reply, version_reply, Stamp,
    StreamFormat,
};
use eullm::api::web::{inject_web_content, plan_web, Fetched};
use eullm::inference::{GenerateResult, StopReason, StreamEvent};
use eullm::json::Json;
use serde_json::Value;

fn to_value(j: &Json) -> Value {
    match j {
        Json::Null => Value::Null,
        Json::Bool(b) => Value::from(*b),
        Json::Number(n) => serde_json::from_str(&n.text).unwrap(),
        Json::Text(s) => Value::from(s.clone()),
        Json::Array(v) => Value::Array(v.iter().map(to_value).collect()),
        Json::Object(m) => {
            Value::Object(m.iter().map(|(k, v)| (k.clone(), to_value(v))).collect())
        }
    }
}

fn parsed(s: &str) -> Value {
    serde_json::from_str(s).unwrap()
}

fn stamp() -> Stamp {
    Stamp { id: "chatcmpl-7".to_string(), created_at: "T".to_string(), created: 99 }
}

#[test]
fn pieces_are_streamed_in_each_format() {
    let of = |f| to_value(&token_event("hi", "m", &stamp(), f));
    assert_eq!(
        of(StreamFormat::OllamaGenerate),
        parsed(r#"{"model":"m","created_at":"T","response":"hi","done":false}"#)
    );
    assert_eq!(
        of(StreamFormat::OllamaChat),
        parsed(
            r#"{"model":"m","created_at":"T","message":{"role":"assistant","content":"hi"},"done":false}"#
        )
    );
    assert_eq!(
        of(StreamFormat::OpenAI),
        parsed(
            r#"{"id":"chatcmpl-7","object":"chat.completion.chunk","created":99,"model":"m",
                "choices":[{"index":0,"delta":{"content":"hi"},"finish_reason":null}]}"#
        )
    );
}

#[test]
fn the_end_of_a_stream_says_why() {
    let of = |f| to_value(&done_event("m", &stamp(), f, 3, 5, 2, StopReason::Length));
    assert_eq!(
        of(StreamFormat::OllamaGenerate),
        parsed(
            r#"{"model":"m","created_at":"T","response":"","done":true,"done_reason":"length",
                "total_duration":2000000,"load_duration":0,"prompt_eval_count":5,
                "prompt_eval_duration":0,"eval_count":3,"eval_duration":2000000}"#
        )
    );
    assert_eq!(of(StreamFormat::OllamaChat)["message"]["content"], "");
    assert_eq!(
        of(StreamFormat::OpenAI),
        parsed(
            r#"{"id":"chatcmpl-7","object":"chat.completion.chunk","created":99,"model":"m",
                "choices":[{"index":0,"delta":{},"finish_reason":"length"}],
                "usage":{"prompt_tokens":5,"completion_tokens":3,"total_tokens":8}}"#
        )
    );
}

#[test]
fn a_whole_answer_carries_its_text() {
    let result = GenerateResult {
        text: "hello".to_string(),
        tokens_generated: 3,
        tokens_prompt: 5,
        duration_ms: 2,
        stop_reason: StopReason::Stop,
    };
    let of = |f| to_value(&answer("m", &stamp(), f, &result));
    assert_eq!(of(StreamFormat::OllamaGenerate)["response"], "hello");
    assert_eq!(of(StreamFormat::OllamaChat)["message"]["content"], "hello");
    assert_eq!(of(StreamFormat::OllamaChat)["done_reason"], "stop");
    let o = of(StreamFormat::OpenAI);
    assert_eq!(o["object"], "chat.completion");
    assert_eq!(o["choices"][0]["message"]["content"], "hello");
    assert_eq!(o["choices"][0]["finish_reason"], "stop");
    assert_eq!(o["usage"]["total_tokens"], 8);
}

#[test]
fn answers_are_stamped_with_this_moment() {
    let id = fresh_completion_id();
    assert!(id.starts_with("chatcmpl-"));
    assert!(id["chatcmpl-".len()..].parse::<uuid::Uuid>().is_ok());
    assert_ne!(id, fresh_completion_id());
    let t = to_value(&format_token_event("x", "m", &id, StreamFormat::OpenAI));
    assert_eq!(t["id"], id);
    assert!(t["created"].as_i64().unwrap() > 1_700_000_000);
    let d = to_value(&format_done_event(
        "m",
        &id,
        StreamFormat::OllamaChat,
        1,
        1,
        1,
        StopReason::Stop,
    ));
    let at = d["created_at"].as_str().unwrap();
    assert!(at.ends_with("+00:00"));
    assert!(chrono::DateTime::parse_from_rfc3339(at).is_ok());
}

#[test]
fn a_stream_is_recorded_at_its_end() {
    let done = StreamEvent::Done {
        tokens_generated: 3,
        tokens_prompt: 5,
        duration_ms: 2,
        stop_reason: StopReason::Stop,
    };
    let s = stream_step(&done, "m", &stamp(), StreamFormat::OpenAI, Some("ci"));
    assert!(s.last && s.close);
    let a = s.audit.unwrap();
    assert_eq!((a.model.as_str(), a.request_type.as_str()), ("m", "chat.completions"));
    assert_eq!((a.input_tokens, a.output_tokens, a.duration_ms), (5, 3, 2));
    assert_eq!(a.user_id.as_deref(), Some("ci"));
    let s = stream_step(&done, "m", &stamp(), StreamFormat::OllamaGenerate, None);
    assert!(s.last && !s.close);
    assert_eq!(s.audit.unwrap().request_type, "generate");
    let s = stream_step(
        &StreamEvent::Token("a".to_string()),
        "m",
        &stamp(),
        StreamFormat::OllamaChat,
        None,
    );
    assert!(!s.last && s.audit.is_none());
    let s = stream_step(
        &StreamEvent::Error("boom".to_string()),
        "m",
        &stamp(),
        StreamFormat::OpenAI,
        None,
    );
    assert!(s.last && !s.close && s.audit.is_none());
    assert_eq!(to_value(&s.data), parsed(r#"{"error":"boom"}"#));
}

#[test]
fn a_stream_is_collected_until_its_end() {
    let token = |s: &str| StreamEvent::Token(s.to_string());
    let done = StreamEvent::Done {
        tokens_generated: 2,
        tokens_prompt: 4,
        duration_ms: 6,
        stop_reason: StopReason::Stop,
    };
    let r = collect_stream(&[token("a"), token("b"), done, token("c")]).unwrap();
    assert_eq!(r.text, "ab");
    assert_eq!((r.tokens_generated, r.tokens_prompt, r.duration_ms), (2, 4, 6));
    assert_eq!(r.stop_reason, StopReason::Stop);
    let cut = collect_stream(&[token("a")]).unwrap();
    assert_eq!(cut.stop_reason, StopReason::Length);
    let e = collect_stream(&[token("a"), StreamEvent::Error("x".to_string())]);
    assert_eq!(e.err(), Some("x".to_string()));
}

#[test]
fn the_version_endpoint_answers_without_a_model() {
    let v = to_value(&version_reply("0.6.39", 11434, 0));
    assert_eq!(v["version"].as_str(), Some("0.6.39"));
    assert_eq!(v["api_port"].as_u64(), Some(11434));
    assert_eq!(v["model_swaps"].as_u64(), Some(0), "a fresh server has evicted nothing yet");
}

#[test]
fn unloading_says_what_was_unloaded() {
    assert_eq!(
        to_value(&unload_reply(Ok(Some("m".to_string()))).unwrap()),
        parsed(r#"{"unloaded":"m"}"#)
    );
    assert_eq!(
        to_value(&unload_reply(Ok(None)).unwrap()),
        parsed(r#"{"unloaded":null,"message":"no model was loaded"}"#)
    );
    let e = unload_reply(Err("stuck".to_string())).unwrap_err();
    assert_eq!(e.status, 500);
    assert_eq!(to_value(&e.body)["error"], "Failed to unload model: stuck");
}

fn entry(id: &str, name: &str) -> CatalogEntry {
    CatalogEntry {
        id: id.to_string(),
        name: name.to_string(),
        size_bytes: 7,
        digest: "sha256:1".to_string(),
        base: "qwen".to_string(),
        parameter_size: "7.0B".to_string(),
        quantization: "Q4".to_string(),
        domain: "legal".to_string(),
        source_model: "src".to_string(),
        license: "MIT".to_string(),
        present: false,
    }
}

fn stored(id: &str) -> StoredModel {
    StoredModel {
        id: id.to_string(),
        name: id.to_string(),
        size_bytes: 15,
        digest: "sha256:0".to_string(),
        base: "test".to_string(),
        present: true,
    }
}

#[test]
fn api_tags_lists_a_model_that_is_on_disk_but_not_loaded() {
    let v = to_value(&list_models(None, &[entry("c", "C")], &[stored("a-pulled-model")]));
    let names: Vec<&str> =
        v["models"].as_array().unwrap().iter().map(|m| m["name"].as_str().unwrap()).collect();
    assert!(
        names.iter().any(|n| n.contains("a-pulled-model")),
        "a model in the store must appear in /api/tags, got {names:?}"
    );
    assert_eq!(names, vec!["c", "a-pulled-model"]);
}

#[test]
fn openai_models_lists_a_model_that_is_on_disk_but_not_loaded() {
    let local = local_model_ids(&[stored("a-pulled-model"), stored(""), stored("a-pulled-model")]);
    assert_eq!(local.len(), 2);
    let v = to_value(&list_models_openai(
        &local,
        Some("/x.gguf"),
        &[entry("a-pulled-model", "A"), entry("c", "C")],
    ));
    let ids: Vec<&str> =
        v["data"].as_array().unwrap().iter().map(|m| m["id"].as_str().unwrap()).collect();
    assert!(
        ids.iter().any(|i| i.contains("a-pulled-model")),
        "a model in the store must appear in /v1/models, got {ids:?}"
    );
    assert_eq!(ids, vec!["a-pulled-model", "/x.gguf", "c"]);
    assert_eq!(v["data"][0]["created"], 1_700_000_000);
    assert_eq!(v["object"], "list");
}

#[test]
fn the_loaded_model_stands_first_and_says_so() {
    let catalog = [entry("a", "A"), entry("b", "B")];
    let store = [stored("a"), stored("z"), stored("b")];
    let v = to_value(&list_models(Some("B"), &catalog, &store));
    let m = v["models"].as_array().unwrap();
    assert_eq!(m.len(), 3);
    assert_eq!(m[0]["name"], "b");
    assert_eq!(m[0]["loaded"], true);
    assert_eq!(m[0]["details"]["display_name"], "B");
    assert_eq!(m[1]["name"], "a");
    assert_eq!(m[1]["downloaded"], false);
    assert_eq!(m[2]["name"], "z");
    let v = to_value(&list_models(Some("/m.gguf"), &catalog, &[]));
    assert_eq!(v["models"][0]["name"], "/m.gguf");
    assert_eq!(v["models"][0]["details"]["quantization_level"], "Q4_K_M");
    assert_eq!(v["models"].as_array().unwrap().len(), 3);
}

#[test]
fn a_model_is_shown_from_the_catalog() {
    let v = to_value(&show_model("A", Some(&entry("a", "A"))));
    assert_eq!(
        v["modelfile"],
        "# EULLM model: A\n# Domain: legal\n# Base: qwen\n# Source: src\n# License: MIT"
    );
    assert_eq!(v["details"]["parameter_size"], "7.0B");
    let v = to_value(&show_model("nope", None));
    assert_eq!(v["error"], "model 'nope' not found");
    let v = to_value(&pull_model("x"));
    assert_eq!(v["status"], "pulling x from EU registry (not yet implemented)");
}

fn message(role: &str, content: &str) -> Json {
    Json::Object(vec![
        ("role".to_string(), Json::text(role)),
        ("content".to_string(), Json::text(content)),
    ])
}

#[test]
fn pages_go_in_front_of_the_question() {
    let mut messages = vec![message("system", "s"), message("user", "see http://è"), message("assistant", "x")];
    let plan = plan_web(&messages, true, 4096, 4).unwrap();
    assert_eq!(plan.index, 1);
    assert_eq!(plan.user_text, "see http://è");
    assert_eq!(plan.effective_ctx, 1024);
    assert_eq!(plan.existing_bytes, 1 + 13 + 1);
    assert_eq!(plan_web(&messages, true, 4096, 1).unwrap().effective_ctx, 4096);
    assert!(plan_web(&messages, false, 4096, 4).is_none());
    assert!(plan_web(&[], true, 4096, 4).is_none());
    inject_web_content(&mut messages, plan.index, &[]);
    assert_eq!(messages.len(), 3);
    let pages = [
        Fetched { url: "http://a".to_string(), page: Ok(("body".to_string(), true)) },
        Fetched { url: "http://b".to_string(), page: Err("404".to_string()) },
    ];
    inject_web_content(&mut messages, plan.index, &pages);
    assert_eq!(messages.len(), 4);
    assert_eq!(messages[2], message("user", "see http://è"));
    let web = to_value(&messages[1]);
    assert_eq!(web["role"], "system");
    let content = web["content"].as_str().unwrap();
    assert!(content.starts_with("You have a web browsing capability"));
    assert!(content.ends_with(
        "---\n\n[Web content from http://a [content truncated to fit context]]\n\nbody\n\n---\n\n[Failed to fetch http://b: 404]"
    ));
}
