use eullm::api::handler::{
    conclude, prepare, start, take_messages, Endpoint, Failure, MediaSupport, Start,
};
use eullm::api::models::normalize_model_name;
use eullm::api::reply::{Stamp, StreamFormat};
use eullm::inference::engine::{context_shrunk, projector_params, Backends};
use eullm::inference::kv_cache::{report_flash_attn_kv_correction, KvCacheType};
use eullm::inference::{GenerateResult, Single, StopReason};
use eullm::json::{copy_json, Json, Number};
use eullm::text::parse_i32;
use serde_json::Value;

fn from_value(v: &Value) -> Json {
    match v {
        Value::Null => Json::Null,
        Value::Bool(b) => Json::Bool(*b),
        Value::Number(n) => Json::Number(Number {
            text: n.to_string(),
            single: n.as_f64().map(|x| Single { bits: (x as f32).to_bits() }),
        }),
        Value::String(s) => Json::Text(s.clone()),
        Value::Array(a) => Json::Array(a.iter().map(from_value).collect()),
        Value::Object(m) => {
            Json::Object(m.iter().map(|(k, v)| (k.clone(), from_value(v))).collect())
        }
    }
}

fn json(s: &str) -> Json {
    from_value(&serde_json::from_str(s).expect("valid json"))
}

const MEDIA: MediaSupport<'static> =
    MediaSupport { build: true, sequential: true, marker: "<m>" };

#[test]
fn a_request_loads_the_model_it_names() {
    let body = json(r#"{ "model": "qwen3:8b", "batch_size": 2, "ctx_size": 8192 }"#);
    let load = Start::Load {
        name: "qwen3:8b".to_string(),
        batch_size: Some(2),
        ctx_size: Some(8192),
    };
    assert_eq!(start(&body, None), load);
    assert_eq!(start(&body, Some("gemma-3-4b")), load);
    assert_eq!(start(&body, Some(&normalize_model_name("qwen3:8b"))), Start::Ready);
}

#[test]
fn a_request_without_a_model_is_answered_by_the_loaded_one() {
    assert_eq!(start(&json("{}"), Some("gemma-3-4b")), Start::Ready);
    assert_eq!(start(&json(r#"{ "model": 7 }"#), Some("gemma-3-4b")), Start::Ready);
}

#[test]
fn an_override_out_of_range_loads_nothing() {
    let body = json(r#"{ "model": "qwen3:8b", "batch_size": 1000000 }"#);
    assert!(matches!(start(&body, None), Start::Refuse(e) if e.status == 400));
}

#[test]
fn messages_are_copied_whole() {
    let body = json(r#"{ "messages": [ { "role": "user", "content": "hi" }, [null, true, 1.5] ] }"#);
    let m = take_messages(&body);
    assert_eq!(m.len(), 2);
    assert_eq!(m[0], json(r#"{ "role": "user", "content": "hi" }"#));
    assert_eq!(m[1], json("[null, true, 1.5]"));
    assert!(take_messages(&json(r#"{ "messages": "hi" }"#)).is_empty());
    assert!(take_messages(&json("{}")).is_empty());
    assert_eq!(copy_json(&body), body);
}

#[test]
fn each_endpoint_prepares_its_own_generation() {
    let body = json(r#"{ "prompt": "once", "stream": true }"#);
    let j = prepare(Endpoint::Generate, &body, &[], "qwen3", MEDIA).unwrap();
    assert_eq!(j.request.prompt, "once");
    assert_eq!(j.format, StreamFormat::OllamaGenerate);
    assert!(j.streaming);
    assert!(j.media.is_empty());

    let m = [json(r#"{ "role": "user", "content": "hi" }"#)];
    let j = prepare(Endpoint::Completions, &json("{}"), &m, "qwen3", MEDIA).unwrap();
    assert!(j.request.prompt.starts_with("<|im_start|>user\nhi<|im_end|>\n"));
    assert_eq!(j.format, StreamFormat::OpenAI);
    assert!(!j.streaming);

    let j = prepare(Endpoint::Chat, &json("{}"), &m, "qwen3", MEDIA).unwrap();
    assert!(j.request.prompt.starts_with("<|im_start|>user\nhi<|im_end|>\n"));
    assert_eq!(j.format, StreamFormat::OllamaChat);
}

#[test]
fn media_go_to_a_model_that_reads_them() {
    let m = [json(r#"{ "role": "user", "content": "look", "images": ["aGVsbG8="] }"#)];
    let j = prepare(Endpoint::Chat, &json("{}"), &m, "gemma", MEDIA).unwrap();
    assert_eq!(j.media, vec![b"hello".to_vec()]);
    assert_eq!(
        j.request.prompt,
        "<start_of_turn>user\n<m>\nlook<end_of_turn>\n<start_of_turn>model\n"
    );
    let batched = MediaSupport { sequential: false, ..MEDIA };
    assert_eq!(prepare(Endpoint::Chat, &json("{}"), &m, "gemma", batched).unwrap_err().status, 503);
    let plain = MediaSupport { build: false, ..MEDIA };
    assert_eq!(prepare(Endpoint::Chat, &json("{}"), &m, "gemma", plain).unwrap_err().status, 501);
}

fn stamp() -> Stamp {
    Stamp { id: "chatcmpl-7".to_string(), created_at: "T".to_string(), created: 99 }
}

#[test]
fn an_answer_leaves_a_record() {
    let result = GenerateResult {
        text: "hello".to_string(),
        tokens_generated: 5,
        tokens_prompt: 3,
        duration_ms: 2,
        stop_reason: StopReason::Stop,
    };
    let (j, e) =
        conclude("m", &stamp(), StreamFormat::OllamaGenerate, Ok(result), Some("alice")).unwrap();
    assert_eq!(j.get("response"), Some(&json("\"hello\"")));
    assert_eq!(j.get("done"), Some(&Json::Bool(true)));
    assert_eq!((e.model.as_str(), e.request_type.as_str()), ("m", "generate"));
    assert_eq!((e.input_tokens, e.output_tokens, e.duration_ms), (3, 5, 2));
    assert_eq!(e.user_id.as_deref(), Some("alice"));
}

#[test]
fn a_failed_generation_says_where_it_failed() {
    let said = |f| {
        let e = conclude("m", &stamp(), StreamFormat::OpenAI, Err(f), None).unwrap_err();
        assert_eq!(e.status, 500);
        e.body
    };
    let reason = || "no memory".to_string();
    assert_eq!(said(Failure::Reported(reason())), json(r#"{ "error": "no memory" }"#));
    assert_eq!(
        said(Failure::Inference(reason())),
        json(r#"{ "error": "Inference error: no memory" }"#)
    );
    assert_eq!(said(Failure::Task(reason())), json(r#"{ "error": "Task error: no memory" }"#));
}

#[test]
fn a_projector_follows_the_text_model_to_the_gpu() {
    let cuda = Backends { cuda: true, rocm: false, vulkan: false, metal: false };
    let none = Backends { cuda: false, ..cuda };
    let p = projector_params(-1, 6, &cuda, Some("512"), Some("many"));
    assert!(p.use_gpu);
    assert_eq!((p.n_threads, p.image_max_tokens, p.image_min_tokens), (6, Some(512), None));
    assert!(!projector_params(0, 6, &cuda, None, None).use_gpu);
    assert!(!projector_params(-1, 6, &none, None, None).use_gpu);
}

#[test]
fn signed_numbers_are_read_within_their_range() {
    let read = |s: &str| parse_i32(&s.chars().collect::<Vec<char>>());
    assert_eq!(read("-1"), Some(-1));
    assert_eq!(read("+7"), Some(7));
    assert_eq!(read("2147483647"), Some(i32::MAX));
    assert_eq!(read("-2147483648"), Some(i32::MIN));
    assert_eq!(read("2147483648"), None);
    assert_eq!(read("-2147483649"), None);
    for s in ["", "-", "+", " 1", "1x", "--1"] {
        assert_eq!(read(s), None, "{s}");
    }
}

#[test]
fn corrections_are_explained() {
    let said = report_flash_attn_kv_correction(KvCacheType::Q4_0);
    assert_eq!(said.len(), 3);
    assert_eq!(said[0], "[EULLM] --cache-type-k q4_0 requested with flash attention enabled.");
    assert_eq!(
        context_shrunk(8192, 2048, "512"),
        "--ctx-size 8192 does not fit here (its KV cache alone needs about 512 MiB); reduced \
         automatically to 2048, which does. Pass --ctx-size 2048 yourself to silence this, or \
         free up VRAM to keep 8192."
    );
}
