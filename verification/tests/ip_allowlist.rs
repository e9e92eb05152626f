use eullm::api::env_file::{env_file_var, parse_env_file};
use eullm::api::ip_allowlist::{parse_allowlist, IpAddress, IpAllowlist, IpNetwork};

fn v4(a: u32, b: u32, c: u32, d: u32) -> IpAddress {
    IpAddress::V4((a << 24) | (b << 16) | (c << 8) | d)
}

#[test]
fn default_allows_only_loopback() {
    let allowlist = IpAllowlist::loopback_only();
    assert!(allowlist.is_allowed(v4(127, 0, 0, 1)));
    assert!(allowlist.is_allowed(IpAddress::V6(1)));
    assert!(!allowlist.is_allowed(v4(203, 0, 113, 5)));
    assert!(!allowlist.is_allowed(v4(192, 168, 1, 1)));
}

#[test]
fn missing_env_file_falls_back_to_loopback() {
    let allowlist = IpAllowlist::resolve(None, None, "/nonexistent/.env");
    assert!(allowlist.is_allowed(v4(127, 0, 0, 1)));
    assert!(!allowlist.is_allowed(v4(203, 0, 113, 5)));
}

#[test]
fn empty_or_missing_key_falls_back_to_loopback() {
    let contents = "SOME_OTHER_VAR=hello\n";
    assert!(!IpAllowlist::resolve(None, Some(contents), ".env").is_allowed(v4(203, 0, 113, 5)));

    let contents = "EULLM_ALLOWED_IPS=\n";
    assert!(!IpAllowlist::resolve(None, Some(contents), ".env").is_allowed(v4(203, 0, 113, 5)));
}

#[test]
fn parses_single_ip_and_subnet_from_env_file() {
    let contents = "# comment, should be ignored\n\nEULLM_ALLOWED_IPS=203.0.113.5,192.168.0.0/24\n";

    let allowlist = IpAllowlist::resolve(None, Some(contents), ".env");
    assert!(allowlist.is_allowed(v4(203, 0, 113, 5)));
    assert!(allowlist.is_allowed(v4(192, 168, 0, 1)));
    assert!(allowlist.is_allowed(v4(192, 168, 0, 254)));
    assert!(!allowlist.is_allowed(v4(192, 168, 1, 1)));
    assert!(!allowlist.is_allowed(v4(203, 0, 113, 6)));
    // Loopback stays allowed on top of whatever the file adds — local
    // access shouldn't break just because a remote host was configured.
    assert!(allowlist.is_allowed(v4(127, 0, 0, 1)));
}

#[test]
fn quoted_values_are_unquoted() {
    let contents = "EULLM_ALLOWED_IPS=\"203.0.113.5\"\n";

    let allowlist = IpAllowlist::resolve(None, Some(contents), ".env");
    assert!(allowlist.is_allowed(v4(203, 0, 113, 5)));
}

#[test]
fn malformed_entry_falls_back_to_loopback() {
    let contents = "EULLM_ALLOWED_IPS=not-an-ip\n";

    let allowlist = IpAllowlist::resolve(None, Some(contents), ".env");
    assert!(allowlist.is_allowed(v4(127, 0, 0, 1)));
    assert!(!allowlist.is_allowed(v4(203, 0, 113, 5)));
}

#[test]
fn parse_allowlist_rejects_garbage() {
    assert!(parse_allowlist("not-an-ip").is_err());
    assert!(parse_allowlist("203.0.113.5,also-not-an-ip").is_err());
}

#[test]
fn parse_allowlist_accepts_ipv6() {
    let nets = parse_allowlist("::1,2001:db8::/32").unwrap();
    assert_eq!(nets.len(), 2);
}

// Only the `.env` file used to be read. Every non-interactive deployment
// configures this through the environment instead (`docker run -e`, compose
// `environment:`, systemd `Environment=`), so those all silently had no
// effect — and no image here ships a `.env`, which pinned containers to
// loopback-only with no way to widen it.

#[test]
fn environment_alone_is_honoured() {
    let a = IpAllowlist::resolve(Some("203.0.113.5,192.168.0.0/24"), None, ".env");
    assert!(a.is_allowed(v4(203, 0, 113, 5)));
    assert!(a.is_allowed(v4(192, 168, 0, 7)));
    assert!(!a.is_allowed(v4(198, 51, 100, 1)));
    // Loopback survives whatever is configured.
    assert!(a.is_allowed(v4(127, 0, 0, 1)));
    assert!(a.source().contains("environment"));
}

#[test]
fn environment_wins_over_the_file() {
    let a = IpAllowlist::resolve(
        Some("203.0.113.5"),
        Some("EULLM_ALLOWED_IPS=198.51.100.9\n"),
        ".env",
    );
    assert!(a.is_allowed(v4(203, 0, 113, 5)));
    assert!(
        !a.is_allowed(v4(198, 51, 100, 9)),
        "an explicit environment value must not be merged with a baked-in file"
    );
    assert!(a.source().contains("environment"));
}

#[test]
fn file_is_used_when_the_environment_is_unset_or_blank() {
    for env in [None, Some(""), Some("   ")] {
        let a = IpAllowlist::resolve(env, Some("EULLM_ALLOWED_IPS=198.51.100.9\n"), ".env");
        assert!(a.is_allowed(v4(198, 51, 100, 9)), "env={env:?}");
        assert!(a.source().contains(".env"), "env={env:?}");
    }
}

#[test]
fn a_malformed_environment_value_falls_back_to_the_file() {
    let a = IpAllowlist::resolve(
        Some("not-an-ip"),
        Some("EULLM_ALLOWED_IPS=198.51.100.9\n"),
        ".env",
    );
    assert!(a.is_allowed(v4(198, 51, 100, 9)));
}

#[test]
fn nothing_configured_anywhere_stays_loopback_only() {
    let a = IpAllowlist::resolve(None, None, ".env");
    assert!(a.is_allowed(v4(127, 0, 0, 1)));
    assert!(a.is_allowed(IpAddress::V6(1)));
    assert!(!a.is_allowed(v4(203, 0, 113, 5)));
    assert!(a.source().contains("loopback only"));
}

#[test]
fn the_networks_that_a_list_names_are_read() {
    let nets = parse_allowlist("10.0.0.0/8, 203.0.113.5,,2001:db8::/32").unwrap();
    assert_eq!(nets.len(), 3);
    assert_eq!(nets[0].addr, v4(10, 0, 0, 0));
    assert_eq!(nets[0].prefix, 8);
    assert_eq!(nets[1].addr, v4(203, 0, 113, 5));
    assert_eq!(nets[1].prefix, 32);
    assert_eq!(nets[2].addr, IpAddress::V6(0x2001_0db8 << 96));
    assert_eq!(nets[2].prefix, 32);
}

#[test]
fn a_network_covers_its_own_addresses_only() {
    let net = IpNetwork { addr: v4(10, 1, 2, 3), prefix: 8 };
    assert!(net.contains(v4(10, 255, 0, 1)));
    assert!(!net.contains(v4(11, 1, 2, 3)));
    assert!(!net.contains(IpAddress::V6(1)));
    let all = IpNetwork { addr: IpAddress::V6(0), prefix: 0 };
    assert!(all.contains(IpAddress::V6(u128::MAX)));
    assert!(!all.contains(v4(0, 0, 0, 0)));
}

#[test]
fn the_summary_names_every_network() {
    let a = IpAllowlist::resolve(Some("192.168.0.0/24,2001:db8::/32"), None, ".env");
    assert_eq!(a.describe(), "127.0.0.1/32, ::1/128, 192.168.0.0/24, 2001:db8::/32");
}

#[test]
fn a_malformed_entry_is_named() {
    let e = parse_allowlist("203.0.113.5,nonsense").unwrap_err();
    assert_eq!(e, "'nonsense' is not a valid IP address or CIDR subnet");
}

#[test]
fn the_last_assignment_of_an_env_file_wins() {
    let contents = "# note\nA=1\nB = 'two'\nA=\"three\"\nbroken\n";
    assert_eq!(env_file_var(contents, "A"), Some("three".to_string()));
    assert_eq!(env_file_var(contents, "B"), Some("two".to_string()));
    assert_eq!(env_file_var(contents, "C"), None);
    assert!(parse_env_file("").is_empty());
}

#[test]
fn what_is_ignored_is_warned_about() {
    let bad = Some("EULLM_ALLOWED_IPS=nowhere\n");
    assert_eq!(
        IpAllowlist::warnings(Some("10.0.0.1,never"), bad, ".env"),
        vec![
            "EULLM_ALLOWED_IPS in the environment is malformed ('never' is not a valid IP address \
             or CIDR subnet) — ignoring it; falling back to .env",
            "EULLM_ALLOWED_IPS in .env is malformed ('nowhere' is not a valid IP address or CIDR \
             subnet) — ignoring, loopback-only stays in effect",
        ]
    );
    assert_eq!(IpAllowlist::warnings(None, bad, ".env").len(), 1);
    assert!(IpAllowlist::warnings(Some("10.0.0.1"), bad, ".env").is_empty());
    assert!(IpAllowlist::warnings(Some("  "), None, ".env").is_empty());
}
