use eullm::api::origin::{is_loopback_origin, is_port_suffix, AllowedOrigins};

#[test]
fn the_default_allows_loopback_on_any_port_and_nothing_else() {
    let o = AllowedOrigins::loopback_only();
    assert!(o.is_allowed("http://localhost:11435"));
    assert!(o.is_allowed("http://127.0.0.1:3000"));
    assert!(o.is_allowed("http://[::1]:8080"));
    assert!(o.is_allowed("https://localhost"));
    assert!(!o.is_allowed("https://evil.example"));
    assert!(!o.is_allowed("http://192.168.1.10:8080"));
}

#[test]
fn a_hostname_merely_containing_localhost_is_not_loopback() {
    // The failure mode of a suffix or `contains` check.
    let o = AllowedOrigins::loopback_only();
    assert!(!o.is_allowed("http://localhost.evil.example"));
    assert!(!o.is_allowed("http://notlocalhost"));
    assert!(!o.is_allowed("http://127.0.0.1.evil.example"));
    assert!(!o.is_allowed("http://evil.example#http://localhost"));
}

#[test]
fn a_null_or_empty_origin_is_never_allowed() {
    // Sandboxed iframes and file:// pages send "null"; it identifies
    // nothing, so it must not satisfy any policy.
    let o = AllowedOrigins::loopback_only();
    assert!(!o.is_allowed("null"));
    assert!(!o.is_allowed(""));
    assert!(!o.is_allowed("   "));
    let o = AllowedOrigins::parse("http://localhost:1", "t".into());
    assert!(!o.is_allowed("null"));
}

#[test]
fn non_http_schemes_are_not_loopback() {
    let o = AllowedOrigins::loopback_only();
    assert!(!o.is_allowed("file://"));
    assert!(!o.is_allowed("chrome-extension://abcdef"));
    assert!(!o.is_allowed("ws://localhost:11434"));
}

#[test]
fn configured_origins_are_matched_exactly_and_case_insensitively() {
    let o = AllowedOrigins::parse("https://chat.example.eu", "test".into());
    assert!(o.is_allowed("https://chat.example.eu"));
    assert!(o.is_allowed("https://CHAT.Example.EU"));
    assert!(o.is_allowed("https://chat.example.eu/"));
    // Different scheme, port or subdomain are different origins.
    assert!(!o.is_allowed("http://chat.example.eu"));
    assert!(!o.is_allowed("https://chat.example.eu:8443"));
    assert!(!o.is_allowed("https://other.example.eu"));
    assert!(!o.is_allowed("https://evil-chat.example.eu"));
}

#[test]
fn loopback_survives_a_configured_list() {
    // Configuring a remote frontend must not lock the operator out of the
    // chat UI on their own machine.
    let o = AllowedOrigins::parse("https://chat.example.eu", "test".into());
    assert!(o.is_allowed("http://localhost:11435"));
}

#[test]
fn a_star_restores_the_permissive_behaviour_explicitly() {
    let o = AllowedOrigins::parse("*", "test".into());
    assert!(o.is_allowed("https://evil.example"));
    assert!(o.describe().contains("any origin"));
}

#[test]
fn precedence_is_environment_then_env_file() {
    let o = AllowedOrigins::resolve(
        Some("https://from-env.example"),
        Some("EULLM_ALLOWED_ORIGINS=https://from-file.example\n"),
        ".env",
    );
    assert!(o.is_allowed("https://from-env.example"));
    assert!(!o.is_allowed("https://from-file.example"));
    assert!(o.source().contains("environment"));

    let o = AllowedOrigins::resolve(
        None,
        Some("EULLM_ALLOWED_ORIGINS=https://from-file.example\n"),
        ".env",
    );
    assert!(o.is_allowed("https://from-file.example"));
    assert!(o.source().contains(".env"));

    let o = AllowedOrigins::resolve(None, None, ".env");
    assert!(o.source().contains("nothing configured"));
}

#[test]
fn describe_never_claims_more_than_is_allowed() {
    let o = AllowedOrigins::resolve(Some("https://a.example"), None, ".env");
    let d = o.describe();
    assert!(d.contains("any loopback origin"), "{d}");
    assert!(d.contains("https://a.example"), "{d}");
}

#[test]
fn a_port_is_a_colon_and_digits() {
    assert!(is_port_suffix(":80"));
    assert!(!is_port_suffix(":"));
    assert!(!is_port_suffix("80"));
    assert!(!is_port_suffix(":8a"));
    assert!(is_loopback_origin("https://[::1]:9"));
    assert!(!is_loopback_origin("https://localhost/x"));
}

#[test]
fn blank_settings_count_as_unset() {
    let o = AllowedOrigins::resolve(
        Some("  "),
        Some("EULLM_ALLOWED_ORIGINS=https://a.example, https://b.example/\n"),
        ".env",
    );
    assert!(o.is_allowed("https://a.example"));
    assert!(o.is_allowed("https://b.example"));
    assert_eq!(o.describe(), "any loopback origin, https://a.example, https://b.example");
}
