use eullm::api::auth::{constant_time_eq, parse_entries, parse_fields, ApiKeys, AuthError};
use sha2::{Digest, Sha256};

const NOW: u64 = 1_000_000_000;
const S1: &str = "0123456789abcdef01";
const S2: &str = "fedcba9876543210ff";

fn keys(spec: &str) -> ApiKeys {
    ApiKeys::resolve(Some(spec), None, None, ".env").expect("spec should parse")
}

#[test]
fn nothing_configured_disables_auth_and_admits_anonymously() {
    let mut a = ApiKeys::resolve(None, None, None, ".env").unwrap();
    assert!(!a.is_enabled());
    let id = a.authenticate(None, NOW).unwrap();
    assert!(!id.is_authenticated());
    assert_eq!(id.key_id(), None);
}

#[test]
fn a_valid_token_yields_its_key_id() {
    let mut a = keys(&format!("ci:{S1}"));
    assert!(a.is_enabled());
    let id = a.authenticate(Some(S1), NOW).unwrap();
    assert_eq!(id.key_id(), Some("ci"));
    assert!(id.is_authenticated());
}

#[test]
fn missing_and_wrong_tokens_are_reported_separately() {
    let mut a = keys(&format!("ci:{S1}"));
    assert_eq!(a.authenticate(None, NOW), Err(AuthError::Missing));
    assert_eq!(a.authenticate(Some(""), NOW), Err(AuthError::Missing));
    assert_eq!(a.authenticate(Some("   "), NOW), Err(AuthError::Missing));
    assert_eq!(
        a.authenticate(Some("wrong-but-long-enough"), NOW),
        Err(AuthError::Invalid)
    );
}

#[test]
fn the_key_id_is_not_accepted_as_the_token() {
    // Guards against ever comparing the wrong field: the id is public (it
    // goes into every audit record) so accepting it would be a total
    // bypass.
    let mut a = keys(&format!("ci:{S1}"));
    assert_eq!(a.authenticate(Some("ci"), NOW), Err(AuthError::Invalid));
}

#[test]
fn each_key_maps_to_its_own_id() {
    let mut a = keys(&format!("ci:{S1},rag:{S2}"));
    assert_eq!(a.authenticate(Some(S1), NOW).unwrap().key_id(), Some("ci"));
    assert_eq!(a.authenticate(Some(S2), NOW).unwrap().key_id(), Some("rag"));
}

#[test]
fn short_secrets_are_refused_at_load_not_at_request_time() {
    let e = ApiKeys::resolve(Some("ci:hunter2"), None, None, ".env").err().unwrap();
    assert!(e.contains("shorter than"), "{e}");
    // And the message must not leak the secret into logs, where it would
    // outlive the mistake that produced it.
    assert!(
        !e.contains("hunter2"),
        "the error must not echo the secret: {e}"
    );
}

#[test]
fn malformed_configuration_is_an_error_not_a_silently_open_api() {
    // The whole point: an operator who sets EULLM_API_KEYS and gets a typo
    // must not end up with an unauthenticated service.
    for spec in ["ci", "ci:", ":secret-long-enough-x", "="] {
        assert!(
            ApiKeys::resolve(Some(spec), None, None, ".env").is_err(),
            "spec {spec:?} should be rejected"
        );
    }
}

#[test]
fn duplicate_ids_are_refused() {
    let e =
        ApiKeys::resolve(Some(&format!("ci:{S1},ci:{S2}")), None, None, ".env").err().unwrap();
    assert!(e.contains("duplicate"), "{e}");
}

#[test]
fn ids_are_constrained_to_a_safe_character_set() {
    // The id is written into audit records and log lines.
    assert!(ApiKeys::resolve(Some(&format!("a b:{S1}")), None, None, ".env").is_err());
    assert!(ApiKeys::resolve(Some(&format!("a\nb:{S1}")), None, None, ".env").is_err());
    assert!(ApiKeys::resolve(Some(&format!("ok-id_1.2:{S1}")), None, None, ".env").is_ok());
}

#[test]
fn an_unrecognised_suffix_is_refused_rather_than_ignored() {
    // A secret containing ':' would otherwise silently become a truncated
    // secret plus an ignored tail — i.e. a weaker token than configured.
    let e = ApiKeys::resolve(Some(&format!("ci:{S1}:rpx=5")), None, None, ".env").err().unwrap();
    assert!(e.contains("unrecognised option"), "{e}");
}

#[test]
fn precedence_environment_then_key_file_then_env_file() {
    let mut a = ApiKeys::resolve(
        Some(&format!("from-env:{S1}")),
        Some(("/k", &format!("from-file:{S2}"))),
        Some(&format!("EULLM_API_KEYS=from-dotenv:{S2}\n")),
        ".env",
    )
    .unwrap();
    assert_eq!(a.authenticate(Some(S1), NOW).unwrap().key_id(), Some("from-env"));
    assert_eq!(a.authenticate(Some(S2), NOW), Err(AuthError::Invalid));
    assert!(a.source().contains("environment"));

    let mut a = ApiKeys::resolve(
        None,
        Some(("/k", &format!("from-file:{S2}"))),
        Some(&format!("EULLM_API_KEYS=from-dotenv:{S1}\n")),
        ".env",
    )
    .unwrap();
    assert_eq!(
        a.authenticate(Some(S2), NOW).unwrap().key_id(),
        Some("from-file")
    );
    assert!(a.source().contains("/k"));

    let mut a = ApiKeys::resolve(
        None,
        None,
        Some(&format!("EULLM_API_KEYS=from-dotenv:{S1}\n")),
        ".env",
    )
    .unwrap();
    assert_eq!(
        a.authenticate(Some(S1), NOW).unwrap().key_id(),
        Some("from-dotenv")
    );
    assert!(a.source().contains(".env"));
}

#[test]
fn a_key_file_ignores_comments_and_blank_lines() {
    let mut a = ApiKeys::resolve(
        None,
        Some((
            "/k",
            &format!("# a comment\n\nci:{S1}\n\n# another\nrag:{S2}\n"),
        )),
        None,
        ".env",
    )
    .unwrap();
    assert_eq!(a.authenticate(Some(S1), NOW).unwrap().key_id(), Some("ci"));
    assert_eq!(a.authenticate(Some(S2), NOW).unwrap().key_id(), Some("rag"));
}

#[test]
fn rpm_zero_or_absent_means_unlimited() {
    let mut a = keys(&format!("ci:{S1}"));
    for _ in 0..1000 {
        assert!(a.authenticate(Some(S1), NOW).is_ok());
    }
    let mut a = keys(&format!("ci:{S1}:rpm=0"));
    for _ in 0..1000 {
        assert!(a.authenticate(Some(S1), NOW).is_ok());
    }
}

#[test]
fn the_quota_refuses_the_request_after_the_limit() {
    let mut a = keys(&format!("ci:{S1}:rpm=3"));
    for i in 0..3 {
        assert!(a.authenticate(Some(S1), NOW).is_ok(), "request {i} should pass");
    }
    match a.authenticate(Some(S1), NOW) {
        Err(AuthError::RateLimited {
            key_id,
            retry_after_s,
        }) => {
            assert_eq!(key_id, "ci");
            assert!(
                (1..=60).contains(&retry_after_s),
                "retry_after_s = {retry_after_s}"
            );
        }
        other => panic!("expected a rate limit, got {other:?}"),
    }
}

#[test]
fn the_window_rolls_over_after_a_minute() {
    let mut a = keys(&format!("ci:{S1}:rpm=2"));
    let t0: u64 = 5_000_000_000;
    assert!(a.charge_at("ci", 2, t0).is_none());
    assert!(a.charge_at("ci", 2, t0).is_none());
    assert!(
        a.charge_at("ci", 2, t0).is_some(),
        "third in-window request"
    );
    // Just under a minute: still limited.
    assert!(a.charge_at("ci", 2, t0 + 59_000_000_000).is_some());
    // A full minute later the window resets.
    assert!(a.charge_at("ci", 2, t0 + 60_000_000_000).is_none());
}

#[test]
fn quotas_are_per_key_not_global() {
    let mut a = keys(&format!("ci:{S1}:rpm=1,rag:{S2}:rpm=1"));
    assert!(a.authenticate(Some(S1), NOW).is_ok());
    // ci is now exhausted, but rag must be unaffected.
    assert!(matches!(
        a.authenticate(Some(S1), NOW),
        Err(AuthError::RateLimited { .. })
    ));
    assert!(a.authenticate(Some(S2), NOW).is_ok());
}

#[test]
fn describe_lists_ids_and_quotas_but_never_secrets() {
    let a = keys(&format!("ci:{S1}:rpm=60,rag:{S2}"));
    let d = a.describe();
    assert!(d.contains("ci (60/min)"), "{d}");
    assert!(d.contains("rag"), "{d}");
    assert!(!d.contains(S1) && !d.contains(S2), "secret leaked into {d}");
}

#[test]
fn constant_time_eq_still_compares_correctly() {
    let a: [u8; 32] = Sha256::digest(b"x").into();
    let b: [u8; 32] = Sha256::digest(b"x").into();
    let c: [u8; 32] = Sha256::digest(b"y").into();
    assert!(constant_time_eq(&a, &b));
    assert!(!constant_time_eq(&a, &c));
    // Differences in the last byte must be caught as reliably as in the
    // first — the failure mode of a hand-rolled comparison.
    let mut d = a;
    d[31] ^= 1;
    assert!(!constant_time_eq(&a, &d));
    let mut e = a;
    e[0] ^= 1;
    assert!(!constant_time_eq(&a, &e));
}

#[test]
fn a_secret_is_kept_as_its_digest() {
    let entries = parse_entries(&format!("ci:{S1}:rpm=7"), ',').unwrap();
    assert_eq!(entries.len(), 1);
    assert_eq!(entries[0].id, "ci");
    assert_eq!(entries[0].rpm, 7);
    let want: [u8; 32] = Sha256::digest(S1.as_bytes()).into();
    assert_eq!(entries[0].secret_sha256, want);
}

#[test]
fn the_fields_of_an_entry_are_read_without_hashing() {
    let f = parse_fields(&format!(" ci : {S1} : rpm=9 ")).unwrap();
    assert_eq!(f.id, "ci");
    assert_eq!(f.secret, S1);
    assert_eq!(f.rpm, 9);
    assert!(parse_fields(&format!("ci:{S1}:rpm=many")).err().unwrap().contains("not a number"));
}

#[test]
fn a_refused_request_is_told_how_long_to_wait() {
    let mut a = keys(&format!("ci:{S1}:rpm=1"));
    assert_eq!(a.charge("ci", 1, 0), None);
    assert_eq!(a.charge("ci", 1, 0), Some(60));
    assert_eq!(a.charge("ci", 1, 58_500_000_000), Some(1));
    assert_eq!(a.charge("ci", 1, 60_000_000_000), None);
    assert_eq!(a.charge("ci", 0, 60_000_000_000), None);
}

#[test]
fn an_empty_list_of_keys_is_an_error() {
    assert!(ApiKeys::resolve(Some(" , ,"), None, None, ".env").is_err());
}

#[test]
fn without_keys_no_token_is_looked_at() {
    let mut a = ApiKeys::disabled();
    assert_eq!(a.describe(), "none");
    assert!(a.authenticate(Some("anything"), NOW).is_ok());
}

#[test]
fn an_error_is_the_same_whatever_the_secret() {
    let error = |entry: &str| parse_fields(entry).err().unwrap();
    for (a, b) in [
        ("k:short", "k:tiny"),
        ("k:aaaaaaaaaaaaaaaaaaaa:rpm=x", "k:bbbbbbbbbbbbbbbbbb:rpm=x"),
        ("k y:aaaaaaaaaaaaaaaaaaaa", "k y:bbbbbbbbbbbbbbbbbb"),
        ("k:aaaaaaaaaaaaaaaaaaaa:burst", "k:bbbbbbbbbbbbbbbbbb:burst"),
    ] {
        assert_eq!(error(a), error(b));
        assert!(!error(a).contains("aaaa"));
    }
    let twice = |s: &str| format!("k:{s},k:{s}");
    assert_eq!(
        parse_entries(&twice("aaaaaaaaaaaaaaaaaaaa"), ',').err(),
        parse_entries(&twice("bbbbbbbbbbbbbbbbbb"), ',').err()
    );
}
