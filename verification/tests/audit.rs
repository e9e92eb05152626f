use eullm::audit::{count_records, read_records, sanitize_for_log, AuditEntry, AuditLogger};
use eullm::text::terminated;
use serde_json::Value;

#[test]
fn sanitize_for_log_strips_newlines_and_control_chars() {
    assert_eq!(
        sanitize_for_log("qwen3\n2026-07-19T00:00:00Z INFO forged log line"),
        "qwen32026-07-19T00:00:00Z INFO forged log line"
    );
    assert_eq!(sanitize_for_log("qwen3-14b"), "qwen3-14b");
    assert_eq!(sanitize_for_log("a\rb\tc"), "abc");
}

/// `EULLM_AUDIT_DIR` is what makes the trail land on a mounted volume
/// instead of a container's ephemeral layer.
#[test]
fn audit_dir_env_var_takes_precedence_over_home() {
    assert_eq!(
        AuditLogger::resolve_path(Some("/data/audit"), "/home/eullm"),
        "/data/audit/audit.jsonl"
    );
}

#[test]
fn audit_path_falls_back_to_home_when_unset_or_blank() {
    let expected = "/home/eullm/.eullm/audit/audit.jsonl";
    assert_eq!(AuditLogger::resolve_path(None, "/home/eullm"), expected);
    // An exported-but-empty variable means "unset", not "write to /".
    assert_eq!(AuditLogger::resolve_path(Some(""), "/home/eullm"), expected);
    assert_eq!(AuditLogger::resolve_path(Some("   "), "/home/eullm"), expected);
}

#[test]
fn the_logger_keeps_its_path() {
    assert_eq!(AuditLogger::new(Some(" /a/ "), "/h").log_path(), "/a/audit.jsonl");
    assert_eq!(AuditLogger::new(None, "").log_path(), ".eullm/audit/audit.jsonl");
    assert_eq!(AuditLogger::with_path("/x.jsonl".to_string()).log_path(), "/x.jsonl");
    assert!(AuditLogger::is_explicitly_configured(Some("/a")));
    assert!(!AuditLogger::is_explicitly_configured(Some(" ")));
    assert!(!AuditLogger::is_explicitly_configured(None));
}

fn to_value(e: &AuditEntry) -> Value {
    let mut m = serde_json::Map::new();
    m.insert("id".to_string(), Value::from(e.id.clone()));
    m.insert("timestamp".to_string(), Value::from(e.timestamp.clone()));
    m.insert("model".to_string(), Value::from(e.model.clone()));
    m.insert("request_type".to_string(), Value::from(e.request_type.clone()));
    m.insert("output_tokens".to_string(), Value::from(e.output_tokens));
    m.insert("duration_ms".to_string(), Value::from(e.duration_ms));
    Value::Object(m)
}

#[test]
fn test_audit_entry_serialization() {
    let entry = AuditEntry::new("eullm/legal-it-7b".into(), "chat".into());
    let json = serde_json::to_string(&to_value(&entry)).unwrap();
    let parsed: Value = serde_json::from_str(&json).unwrap();
    assert_eq!(parsed["model"], "eullm/legal-it-7b");
    assert_eq!(parsed["request_type"], "chat");
}

#[test]
fn a_record_has_an_id_and_a_moment_of_its_own() {
    let a = AuditEntry::new("m".into(), "chat".into());
    let b = AuditEntry::new("m".into(), "chat".into());
    assert_ne!(a.id, b.id);
    let id: uuid::Uuid = a.id.parse().unwrap();
    assert_eq!(id.get_version_num(), 4);
    assert_eq!(id.to_string(), a.id);
    assert!(a.timestamp.ends_with("+00:00"));
    assert!(chrono::DateTime::parse_from_rfc3339(&a.timestamp).is_ok());
    assert_eq!(a.input_tokens, 0);
    let done = a.clone().completed(3, 5, 7, Some("ci".to_string()));
    assert_eq!(done.id, a.id);
    assert_eq!((done.input_tokens, done.output_tokens, done.duration_ms), (3, 5, 7));
    assert_eq!(done.user_id.as_deref(), Some("ci"));
}

#[test]
fn test_audit_logger_persist_and_read() {
    let mut trail = String::new();

    let entry1 = AuditEntry::new("model-a".into(), "generate".into()).completed(10, 50, 200, None);
    trail.push_str(&terminated(&to_value(&entry1).to_string()));
    let entry2 = AuditEntry::new("model-b".into(), "chat".into()).completed(25, 100, 500, None);
    trail.push_str(&terminated(&to_value(&entry2).to_string()));

    let entries: Vec<Value> = read_records(&trail)
        .iter()
        .map(|l| serde_json::from_str(l).unwrap())
        .collect();
    assert_eq!(entries.len(), 2);
    assert_eq!(entries[0]["model"], "model-a");
    assert_eq!(entries[0]["output_tokens"], 50);
    assert_eq!(entries[1]["model"], "model-b");
    assert_eq!(entries[1]["duration_ms"], 500);
    assert_eq!(count_records(&trail), 2);
}

#[test]
fn blank_lines_are_no_records() {
    assert_eq!(read_records("\n  \r\n{\"a\":1}\r\n\n{}"), vec!["{\"a\":1}", "{}"]);
    assert_eq!(count_records(""), 0);
}
