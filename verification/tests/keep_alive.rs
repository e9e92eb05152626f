use eullm::api::duration::{parse_duration_string, parse_seconds, Span, MAX_NANOS};
use eullm::api::keep_alive::{
    expire, parse_keep_alive, parse_keep_alive_flag, touch_deadline, KeepAlive,
};
use eullm::json::{Json, Number};

const SECOND: u128 = 1_000_000_000;

/// A JSON literal: a text in quotes, a number, or a word.
fn v(s: &str) -> Json {
    match s {
        "null" => Json::Null,
        "true" => Json::Bool(true),
        _ => match s.strip_prefix('"') {
            Some(t) => Json::Text(t.trim_end_matches('"').to_string()),
            None => Json::Number(Number { text: s.to_string(), single: None }),
        },
    }
}

#[test]
fn an_absent_field_is_the_server_default() {
    assert_eq!(parse_keep_alive(None), KeepAlive::Default);
}

#[test]
fn a_bare_number_is_seconds() {
    assert_eq!(parse_keep_alive(Some(&v("300"))), KeepAlive::For(300 * SECOND));
}

#[test]
fn duration_strings_match_ollamas_grammar() {
    assert_eq!(parse_keep_alive(Some(&v("\"30s\""))), KeepAlive::For(30 * SECOND));
    assert_eq!(parse_keep_alive(Some(&v("\"5m\""))), KeepAlive::For(300 * SECOND));
    assert_eq!(parse_keep_alive(Some(&v("\"2h\""))), KeepAlive::For(7200 * SECOND));
    // A numeric string with no unit is still seconds.
    assert_eq!(parse_keep_alive(Some(&v("\"300\""))), KeepAlive::For(300 * SECOND));
}

/// `0` means "unload right after this request" — distinct from an
/// absent field, which means "use the server default" and may well
/// keep the model resident.
#[test]
fn zero_means_immediate() {
    assert_eq!(parse_keep_alive(Some(&v("0"))), KeepAlive::Immediate);
    assert_eq!(parse_keep_alive(Some(&v("\"0\""))), KeepAlive::Immediate);
}

/// Negative, in either form, means "never idle-unload this load" —
/// Ollama's `-1`.
#[test]
fn negative_means_forever() {
    assert_eq!(parse_keep_alive(Some(&v("-1"))), KeepAlive::Forever);
    assert_eq!(parse_keep_alive(Some(&v("\"-1\""))), KeepAlive::Forever);
}

/// A malformed value must not fail the request it rides along with —
/// it falls back to the server default rather than erroring.
#[test]
fn garbage_falls_back_to_default_rather_than_erroring() {
    assert_eq!(parse_keep_alive(Some(&v("\"banana\""))), KeepAlive::Default);
    assert_eq!(parse_keep_alive(Some(&v("null"))), KeepAlive::Default);
    assert_eq!(parse_keep_alive(Some(&v("true"))), KeepAlive::Default);
}

#[test]
fn the_cli_flag_parser_accepts_only_a_positive_duration() {
    assert_eq!(parse_keep_alive_flag("5m").unwrap(), 300 * SECOND);
    assert!(
        parse_keep_alive_flag("0").is_err(),
        "0 as a *default* keep-alive is nonsensical — every load would evict itself"
    );
    assert!(parse_keep_alive_flag("-1").is_err());
    assert!(parse_keep_alive_flag("banana").is_err());
}

#[test]
fn touch_deadline_resolves_default_against_the_servers_own_default() {
    let mut deadline = None;
    // No server default configured (`None`) → Default resolves to
    // Forever, i.e. no timer at all.
    touch_deadline(&mut deadline, KeepAlive::Default, None, 7);
    assert!(
        deadline.is_none(),
        "no --keep-alive configured means Default must not start a timer"
    );

    // A server default of 5 minutes turns Default into an actual deadline.
    touch_deadline(&mut deadline, KeepAlive::Default, Some(300 * SECOND), 7);
    assert!(deadline.is_some());
    assert_eq!(deadline, Some(300 * SECOND + 7));
}

#[test]
fn touch_deadline_forever_and_immediate_both_clear_any_running_timer() {
    let mut deadline = Some(5);
    let unload = touch_deadline(&mut deadline, KeepAlive::Forever, Some(300 * SECOND), 1);
    assert!(deadline.is_none());
    assert!(!unload);

    let mut deadline = Some(5);
    let unload = touch_deadline(&mut deadline, KeepAlive::Immediate, Some(300 * SECOND), 1);
    assert!(deadline.is_none());
    assert!(unload);
}

#[test]
fn a_deadline_passes_once() {
    let mut deadline = None;
    touch_deadline(&mut deadline, KeepAlive::For(10), None, 90);
    assert!(!expire(&mut deadline, 99));
    assert!(expire(&mut deadline, 100));
    assert!(!expire(&mut deadline, 101));
}

#[test]
fn decimals_are_exact() {
    assert_eq!(parse_duration_string("1.5h"), Some(Span::Nanos(5400 * SECOND)));
    assert_eq!(parse_duration_string(" 0.1s "), Some(Span::Nanos(100_000_000)));
    assert_eq!(parse_duration_string("1e3"), Some(Span::Nanos(1000 * SECOND)));
    assert_eq!(parse_duration_string("+2.50e-1m"), Some(Span::Nanos(15 * SECOND)));
    assert_eq!(parse_duration_string(".5"), Some(Span::Nanos(SECOND / 2)));
    assert_eq!(parse_duration_string("5."), Some(Span::Nanos(5 * SECOND)));
    assert_eq!(parse_duration_string("0.0000000015"), Some(Span::Nanos(2)));
    assert_eq!(parse_duration_string("0.0000000025"), Some(Span::Nanos(2)));
    assert_eq!(parse_duration_string("0.00000000250000000000000000000000000000001"), Some(Span::Nanos(3)));
    assert_eq!(parse_duration_string("1e-400"), Some(Span::Nanos(0)));
    assert_eq!(parse_duration_string("-0.0"), Some(Span::Zero));
    assert_eq!(parse_duration_string("18446744073709551615"), Some(Span::Nanos(MAX_NANOS - 999_999_999)));
    assert_eq!(parse_duration_string("18446744073709551616"), Some(Span::TooLong));
    assert_eq!(parse_duration_string("1e99999999999999999999999999999999999999"), Some(Span::TooLong));
    assert_eq!(parse_duration_string("-5m"), Some(Span::Negative));
}

#[test]
fn what_is_no_number_is_no_duration() {
    for s in ["", " ", ".", "e5", "1e", "1e+", "--1", "5 m", "5d", "m", "1.2.3", "٣s", "5м", "-", "infin", "in", "nanm5", "- inf"] {
        assert_eq!(parse_duration_string(s), None, "{s:?}");
    }
    assert_eq!(parse_seconds(&['5', 'm']), None);
}

#[test]
fn infinity_can_be_spelled_out() {
    for s in ["-inf", "-infinity", "-INF", "-Infinity", " -inf ", "-infs", "-infm", "-infinityh"] {
        assert_eq!(parse_duration_string(s), Some(Span::Negative), "{s:?}");
        assert_eq!(parse_keep_alive(Some(&v(&format!("\"{s}\"")))), KeepAlive::Forever, "{s:?}");
        let refused = format!("must be a positive duration, got '{s}'");
        assert!(parse_keep_alive_flag(s).unwrap_err().contains(&refused), "{s:?}");
    }
    for s in ["inf", "+inf", "infinity", "infh"] {
        assert_eq!(parse_duration_string(s), Some(Span::TooLong), "{s:?}");
        assert_eq!(parse_keep_alive(Some(&v(&format!("\"{s}\"")))), KeepAlive::Default, "{s:?}");
        assert!(parse_keep_alive_flag(s).is_err(), "{s:?}");
    }
    for s in ["nan", "-NaN", "nans"] {
        assert_eq!(parse_duration_string(s), Some(Span::Undefined), "{s:?}");
        assert_eq!(parse_keep_alive(Some(&v(&format!("\"{s}\"")))), KeepAlive::Default, "{s:?}");
        assert!(parse_keep_alive_flag(s).unwrap_err().contains("must be a positive"), "{s:?}");
    }
}

#[test]
fn a_time_too_long_for_a_duration_is_not_taken() {
    assert_eq!(parse_keep_alive(Some(&v("\"1e30h\""))), KeepAlive::Default);
    assert!(parse_keep_alive_flag("1e30h").unwrap_err().contains("cannot parse '1e30h'"));
    assert!(parse_keep_alive_flag("-3s").unwrap_err().contains("positive duration, got '-3s'"));
}
