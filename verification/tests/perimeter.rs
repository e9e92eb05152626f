use eullm::api::auth::ApiKeys;
use eullm::api::ip_allowlist::{IpAddress, IpAllowlist};
use eullm::api::origin::AllowedOrigins;
use eullm::api::perimeter::{
    allow_model_paths, audit_unwritable, auth_failure, extract_token, rule_on, ui_listener,
    Incoming, CHALLENGE, MAX_BODY_BYTES,
};

const SECRET: &str = "0123456789abcdef01";

fn request(method: &str) -> Incoming {
    Incoming {
        method: method.to_string(),
        source: IpAddress::V4(0x7F00_0001),
        authorization: None,
        api_key: None,
        query: None,
        origin: None,
    }
}

fn far() -> IpAddress {
    IpAddress::V4(0xCB00_7105)
}

fn text(s: &str) -> Option<String> {
    Some(s.to_string())
}

fn keys() -> ApiKeys {
    ApiKeys::resolve(Some(&format!("ci:{SECRET}:rpm=1")), None, None, ".env").unwrap()
}

#[test]
fn a_token_is_found_where_it_may_stand() {
    let mut r = request("GET");
    assert_eq!(extract_token(&r, true), None);
    r.query = text("a=1&api_key=q&api_key=z");
    assert_eq!(extract_token(&r, true), text("q"));
    assert_eq!(extract_token(&r, false), None);
    r.api_key = text(" k ");
    assert_eq!(extract_token(&r, true), text("k"));
    r.authorization = text("Basic abc");
    assert_eq!(extract_token(&r, true), text("k"));
    r.authorization = text("  BEARER   tok  ");
    assert_eq!(extract_token(&r, true), text("tok"));
    r.authorization = text("Bearer");
    assert_eq!(extract_token(&r, true), text("k"));
}

#[test]
fn without_keys_the_address_decides() {
    let mut keys = ApiKeys::disabled();
    let ips = IpAllowlist::loopback_only();
    let origins = AllowedOrigins::loopback_only();
    let r = request("POST");
    assert_eq!(rule_on(&mut keys, &ips, &origins, &r, false, 0).unwrap().key_id(), None);
    let r = Incoming { source: far(), ..request("POST") };
    let f = rule_on(&mut keys, &ips, &origins, &r, false, 0).unwrap_err();
    assert_eq!(f.status, 403);
    assert!(f.plain);
    assert_eq!(f.message, "source IP not in the configured allowlist");
}

#[test]
fn a_key_admits_from_anywhere_within_its_quota() {
    let mut keys = keys();
    let ips = IpAllowlist::loopback_only();
    let origins = AllowedOrigins::loopback_only();
    let bare = request("GET");
    let f = rule_on(&mut keys, &ips, &origins, &bare, false, 0).unwrap_err();
    assert_eq!(f.status, 401);
    assert!(f.challenge);
    assert!(f.message.starts_with("missing API key"));
    let wrong = Incoming { api_key: text("nonsense-and-more"), ..request("GET") };
    let f = rule_on(&mut keys, &ips, &origins, &wrong, false, 0).unwrap_err();
    assert_eq!((f.status, f.message.as_str()), (401, "invalid API key"));
    let good = Incoming { api_key: text(SECRET), source: far(), ..request("GET") };
    assert_eq!(
        rule_on(&mut keys, &ips, &origins, &good, false, 0).unwrap().key_id(),
        Some("ci")
    );
    let f = rule_on(&mut keys, &ips, &origins, &good, false, 0).unwrap_err();
    assert_eq!(f.status, 429);
    assert_eq!(f.retry_after_s, Some(60));
    assert_eq!(f.message, "rate limit exceeded for key 'ci' — retry in 60s");
    assert!(rule_on(&mut keys, &ips, &origins, &good, false, 60_000_000_000).is_ok());
}

#[test]
fn a_foreign_page_may_look_but_not_act() {
    let mut keys = ApiKeys::disabled();
    let ips = IpAllowlist::loopback_only();
    let origins = AllowedOrigins::loopback_only();
    let evil = |m: &str| Incoming { origin: text("https://evil.example"), ..request(m) };
    assert!(rule_on(&mut keys, &ips, &origins, &evil("GET"), false, 0).is_ok());
    assert!(rule_on(&mut keys, &ips, &origins, &evil("OPTIONS"), false, 0).is_ok());
    let f = rule_on(&mut keys, &ips, &origins, &evil("POST"), false, 0).unwrap_err();
    assert_eq!(f.status, 403);
    assert!(!f.plain);
    assert!(f.message.contains("EULLM_ALLOWED_ORIGINS"));
    let own = Incoming { origin: text("http://localhost:3000"), ..request("POST") };
    assert!(rule_on(&mut keys, &ips, &origins, &own, false, 0).is_ok());
}

#[test]
fn paths_are_allowed_only_when_switched_on() {
    for on in ["1", " TRUE ", "yes", "On"] {
        assert!(allow_model_paths(Some(on)), "{on}");
    }
    for off in ["0", "", "no", "enabled"] {
        assert!(!allow_model_paths(Some(off)), "{off}");
    }
    assert!(!allow_model_paths(None));
}

#[test]
fn startup_decisions() {
    assert_eq!(ui_listener(Some(11435), 11434), Some(11435));
    assert_eq!(ui_listener(Some(11434), 11434), None);
    assert_eq!(ui_listener(None, 11434), None);
    assert!(auth_failure("bad").starts_with("bad\n  Expected id:secret"));
    assert!(audit_unwritable(true, "/p", "e").unwrap_err().contains("not writable: e"));
    assert!(audit_unwritable(false, "/p", "e").unwrap().contains("/p is not writable (e)"));
    assert_eq!(MAX_BODY_BYTES, 64 * 1024 * 1024);
    assert_eq!(CHALLENGE, "Bearer realm=\"eullm\"");
}
