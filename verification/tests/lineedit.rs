use eullm::lineedit::strip_terminal_escapes;

// Reported from a real session: pressing the left arrow to fix a typo
// filled the line with escape sequences.
#[test]
fn arrow_keys_do_not_become_input() {
    assert_eq!(strip_terminal_escapes("\u{1b}[D\u{1b}[D\u{1b}[D\n"), "");
    assert_eq!(strip_terminal_escapes("1\u{1b}[D\u{1b}[C\n"), "1");
}

// A chat message is content: nothing about it may be folded or trimmed
// here, because the REPL decides that for itself.
#[test]
fn ordinary_text_is_untouched() {
    assert_eq!(
        strip_terminal_escapes("  Ciao, Come Stai? \n"),
        "  Ciao, Come Stai? "
    );
}

// A path is typed at one of these prompts, so stripping must not eat
// anything a filename can legitimately contain.
#[test]
fn a_path_survives() {
    assert_eq!(
        strip_terminal_escapes("/home/u/models/My Model-Q4_K_M.gguf\n"),
        "/home/u/models/My Model-Q4_K_M.gguf"
    );
}

// An escape that is not a CSI sequence still costs exactly its two bytes.
#[test]
fn a_bare_escape_does_not_eat_the_line() {
    assert_eq!(strip_terminal_escapes("a\u{1b}Xbc"), "abc");
}

#[test]
fn stripping_twice_is_stripping_once() {
    let raw = "a\u{1b}[1;31mred\u{1b}[0m\tb\u{7f}\u{9f}c\u{1b}";
    let once = strip_terminal_escapes(raw);
    assert_eq!(once, "aredbc");
    assert_eq!(strip_terminal_escapes(&once), once);
}

#[test]
fn a_sequence_that_never_ends_takes_the_rest() {
    assert_eq!(strip_terminal_escapes("ab\u{1b}[12;3"), "ab");
}
