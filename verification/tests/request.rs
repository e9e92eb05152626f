use eullm::api::request::{
    chat_request, embed_context, embed_inputs, extract_multimodal_payload, format_chat_prompt,
    gemma_multimodal_prompt, generate_request, is_streaming, last_user_index, multimodal_request,
    parse_format_grammar, parse_generate_params, parse_slot_overrides, requested_model, route_chat,
    ChatRoute, MAX_BATCH_SIZE_OVERRIDE, MIN_CTX_SIZE_OVERRIDE,
};
use eullm::inference::{Single, JSON_GBNF};
use eullm::json::{Json, Number};
use serde_json::Value;

/// A value as the API hands it to the library.
fn from_value(v: &Value) -> Json {
    match v {
        Value::Null => Json::Null,
        Value::Bool(b) => Json::Bool(*b),
        Value::Number(n) => Json::Number(Number {
            text: n.to_string(),
            single: n.as_f64().map(|x| Single { bits: (x as f32).to_bits() }),
        }),
        Value::String(s) => Json::Text(s.clone()),
        Value::Array(a) => Json::Array(a.iter().map(from_value).collect()),
        Value::Object(m) => {
            Json::Object(m.iter().map(|(k, v)| (k.clone(), from_value(v))).collect())
        }
    }
}

fn json(s: &str) -> Json {
    from_value(&serde_json::from_str(s).expect("valid json"))
}

// A reasoning model doing free-text tool-calling can burn through
// hundreds of tokens of <think> before producing anything else — a
// small fixed cap here truncates mid-block and leaves a text-based
// tool-calling client holding an unclosed tag.
#[test]
fn max_tokens_defaults_to_unbounded_not_a_small_fixed_cap() {
    let sp = parse_generate_params(&json("{}"));
    assert_eq!(sp.max_tokens, u32::MAX);
}

#[test]
fn max_tokens_still_honors_an_explicit_client_value() {
    let sp = parse_generate_params(&json(r#"{ "max_tokens": 128 }"#));
    assert_eq!(sp.max_tokens, 128);

    let sp = parse_generate_params(&json(r#"{ "options": { "num_predict": 256 } }"#));
    assert_eq!(sp.max_tokens, 256);
}

fn overrides(body: &str) -> Result<(Option<usize>, Option<u32>), u16> {
    parse_slot_overrides(&json(body)).map_err(|e| e.status)
}

#[test]
fn absent_overrides_keep_the_launch_time_values() {
    assert_eq!(overrides("{}"), Ok((None, None)));
    assert_eq!(overrides(r#"{ "batch_size": null, "ctx_size": null }"#), Ok((None, None)));
}

#[test]
fn in_range_overrides_are_accepted() {
    assert_eq!(
        overrides(r#"{ "batch_size": 8, "ctx_size": 32768 }"#),
        Ok((Some(8), Some(32768)))
    );
    // Exact bounds are inclusive.
    assert_eq!(
        overrides(&format!("{{ \"batch_size\": {MAX_BATCH_SIZE_OVERRIDE} }}")),
        Ok((Some(MAX_BATCH_SIZE_OVERRIDE), None))
    );
    assert_eq!(
        overrides(&format!("{{ \"ctx_size\": {MIN_CTX_SIZE_OVERRIDE} }}")),
        Ok((None, Some(MIN_CTX_SIZE_OVERRIDE)))
    );
}

#[test]
fn batch_size_beyond_i32_no_longer_wedges_the_scheduler() {
    // The historical case: 2^32 truncated to 0 slots via `as i32`.
    assert_eq!(overrides(r#"{ "batch_size": 4294967296 }"#), Err(400));
}

#[test]
fn out_of_range_overrides_are_rejected() {
    assert_eq!(overrides(r#"{ "batch_size": 0 }"#), Err(400));
    assert_eq!(
        overrides(&format!("{{ \"batch_size\": {} }}", MAX_BATCH_SIZE_OVERRIDE + 1)),
        Err(400)
    );
    assert_eq!(
        overrides(&format!("{{ \"ctx_size\": {} }}", MIN_CTX_SIZE_OVERRIDE - 1)),
        Err(400)
    );
    assert_eq!(overrides(&format!("{{ \"ctx_size\": {} }}", u32::MAX)), Err(400));
}

#[test]
fn a_present_but_unparseable_override_is_an_error_not_an_absence() {
    // Silently treating these as "not supplied" would hide a client bug
    // behind unchanged server behaviour.
    for body in [
        r#"{ "batch_size": -1 }"#,
        r#"{ "batch_size": "8" }"#,
        r#"{ "batch_size": 1.5 }"#,
        r#"{ "ctx_size": -4096 }"#,
        r#"{ "ctx_size": "32768" }"#,
    ] {
        assert_eq!(overrides(body), Err(400), "expected 400 for {body}");
    }
}

#[test]
fn a_refused_override_says_what_is_wrong() {
    let e = parse_slot_overrides(&json(r#"{ "batch_size": 65 }"#)).unwrap_err();
    assert_eq!(
        e.body.get("error").unwrap().as_text(),
        Some("invalid `batch_size`: must be between 1 and 64, got 65")
    );
    let e = parse_slot_overrides(&json(r#"{ "ctx_size": "x" }"#)).unwrap_err();
    assert_eq!(
        e.body.get("error").unwrap().as_text(),
        Some("invalid `ctx_size`: expected a non-negative integer")
    );
}

#[test]
fn sampling_parameters_come_from_the_body_or_its_options() {
    let sp = parse_generate_params(&json(
        r#"{ "temperature": 0, "top_k": -5, "seed": 4294967297,
             "options": { "temperature": 0.5, "top_p": 0.25, "min_p": 0.05, "num_ctx": 512 } }"#,
    ));
    assert_eq!(sp.temperature.bits, 0.0f32.to_bits());
    assert_eq!(sp.top_k, -5);
    assert_eq!(sp.top_p.bits, 0.25f32.to_bits());
    assert_eq!(sp.min_p.bits, 0.05f32.to_bits());
    assert_eq!(sp.repeat_penalty.bits, 1.1f32.to_bits());
    assert_eq!(sp.repeat_last_n, 64);
    assert_eq!(sp.seed, Some(1));
    assert_eq!(sp.num_ctx, Some(512));
    let wide = parse_generate_params(&json(r#"{ "top_k": 4294967297, "repeat_last_n": -4294967298 }"#));
    assert_eq!(wide.top_k, 1);
    assert_eq!(wide.repeat_last_n, -2);
    let low = parse_generate_params(&json(r#"{ "top_k": 2147483648 }"#));
    assert_eq!(low.top_k, i32::MIN);
}

#[test]
fn a_field_that_is_null_is_not_looked_up_in_the_options() {
    let sp = parse_generate_params(&json(
        r#"{ "max_tokens": null, "options": { "max_tokens": 7 } }"#,
    ));
    assert_eq!(sp.max_tokens, u32::MAX);
}

#[test]
fn the_switches_of_a_request_are_read() {
    assert!(is_streaming(&json(r#"{ "stream": true }"#)));
    assert!(!is_streaming(&json(r#"{ "stream": "yes" }"#)));
    assert_eq!(requested_model(&json(r#"{ "model": "qwen3:8b" }"#)), Some("qwen3:8b"));
    assert_eq!(requested_model(&json("{}")), None);
    assert_eq!(
        parse_format_grammar(&json(r#"{ "format": "json" }"#)).as_deref(),
        Some(JSON_GBNF)
    );
    assert_eq!(parse_format_grammar(&json(r#"{ "format": "xml" }"#)), None);
}

#[test]
fn a_raw_request_has_no_grammar() {
    let r = generate_request(&json(r#"{ "prompt": "hi", "format": "json" }"#));
    assert_eq!(r.prompt, "hi");
    assert!(r.grammar.is_some());
    assert!(!r.raw);
    let r = generate_request(&json(r#"{ "prompt": "hi", "format": "json", "raw": true }"#));
    assert!(r.grammar.is_none());
    assert!(r.raw);
    assert_eq!(r.filter_sequences.len(), 11);
}

#[test]
fn a_chat_is_written_in_the_format_of_its_model() {
    let body = json(
        r#"{ "think": false, "messages": [ { "content": "hi" }, { "role": "assistant", "content": 5 } ] }"#,
    );
    let messages = body.get("messages").unwrap().as_array().unwrap();
    let r = chat_request(&body, messages, "qwen3-8b");
    assert_eq!(
        r.prompt,
        "<|im_start|>user\nhi<|im_end|>\n<|im_start|>assistant\n<|im_end|>\n<|im_start|>assistant\n<think>\n\n</think>\n\n"
    );
    assert_eq!(r.stop_sequences, vec!["<|im_end|>", "<|end|>"]);
    assert_eq!(r.filter_sequences.len(), 13);
    assert_eq!(
        format_chat_prompt(messages, true, "Gemma-3"),
        "<start_of_turn>user\nhi<end_of_turn>\n<start_of_turn>model\n<end_of_turn>\n<start_of_turn>model\n"
    );
}

#[test]
fn media_are_taken_from_the_last_message_of_the_user() {
    let m = json(
        r#"[ { "role": "user", "content": "look", "images": ["data:image/png;base64,aGVsbG8=", "d29ybGQ="] },
             { "role": "assistant", "content": "ok" } ]"#,
    );
    let m = m.as_array().unwrap();
    assert_eq!(last_user_index(m), Some(0));
    let (text, media) = extract_multimodal_payload(m).unwrap();
    assert_eq!(text, "look");
    assert_eq!(media, vec![b"hello".to_vec(), b"world".to_vec()]);
    assert_eq!(
        route_chat(true, true, m),
        ChatRoute::Media("look".to_string(), vec![b"hello".to_vec(), b"world".to_vec()])
    );
    assert!(matches!(route_chat(true, false, m), ChatRoute::Refused(e) if e.status == 503));
    assert!(matches!(route_chat(false, true, m), ChatRoute::Refused(e) if e.status == 501));
}

#[test]
fn media_that_cannot_be_decoded_are_dropped_together() {
    for images in [r#"["aGVsbG8=", "!!"]"#, r#"["aGVsbG8=", 5]"#, "[]", r#""aGVsbG8=""#] {
        let m = json(&format!(r#"[ {{ "role": "user", "images": {images} }} ]"#));
        assert_eq!(extract_multimodal_payload(m.as_array().unwrap()), None, "{images}");
        assert_eq!(route_chat(true, true, m.as_array().unwrap()), ChatRoute::Text);
    }
    assert_eq!(extract_multimodal_payload(&[]), None);
}

#[test]
fn a_chat_with_media_is_written_for_gemma() {
    assert_eq!(
        gemma_multimodal_prompt("<__media__>", "what is it?"),
        "<start_of_turn>user\n<__media__>\nwhat is it?<end_of_turn>\n<start_of_turn>model\n"
    );
    let r = multimodal_request(&json(r#"{ "max_tokens": 9 }"#), "<m>", "x");
    assert!(r.raw);
    assert_eq!(r.max_tokens, 9);
    assert_eq!(r.stop_sequences, vec!["<end_of_turn>", "</end_of_turn>", "</start_of_turn>"]);
}

#[test]
fn embedding_endpoints_require_input() {
    let e = embed_inputs(&json(r#"{ "model": "a-pulled-model" }"#)).unwrap_err();
    assert_eq!(e.status, 400);
    assert!(embed_inputs(&json(r#"{ "input": [1] }"#)).is_err());
    assert_eq!(embed_inputs(&json(r#"{ "input": "hi" }"#)).unwrap(), vec!["hi"]);
    assert_eq!(embed_inputs(&json(r#"{ "input": ["a", "b"] }"#)).unwrap(), vec!["a", "b"]);
    assert_eq!(embed_context(&json("{}")), 2048);
    assert_eq!(embed_context(&json(r#"{ "options": { "num_ctx": 64 } }"#)), 64);
}
