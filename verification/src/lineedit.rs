//! Lines that a human typed at a terminal.
use crate::text;
use vstd::prelude::*;

verus! {

/// One line as it came back from the terminal.
#[derive(Debug, PartialEq, Eq)]
pub enum Line {
    Text(String),
    /// Ctrl+D, or the input ran out.
    Eof,
    /// Ctrl+C: abandon whatever is half-typed, keep the session.
    Interrupted,
}

/// Where the parameters of an escape sequence end: after the first byte
/// between `@` and `~`, or where the line does.
pub open spec fn after_final(s: Seq<char>) -> Seq<char>
    decreases s.len(),
{
    if s.len() == 0 {
        s
    } else if '\u{40}' <= s[0] <= '\u{7e}' {
        s.skip(1)
    } else {
        after_final(s.skip(1))
    }
}

/// What follows an escape character and its sequence: a bracket and its
/// parameters, or one character alone.
pub open spec fn after_escape(s: Seq<char>) -> Seq<char> {
    if s.len() > 0 && s[0] == '[' {
        after_final(s.skip(1))
    } else if s.len() > 0 {
        s.skip(1)
    } else {
        s
    }
}

proof fn lemma_after_final_len(s: Seq<char>)
    ensures
        after_final(s).len() <= s.len(),
    decreases s.len(),
{
    if s.len() > 0 {
        lemma_after_final_len(s.skip(1));
    }
}

/// `s` as typed: without escape sequences and control characters.
pub open spec fn typed(s: Seq<char>) -> Seq<char>
    decreases s.len(),
    via typed_decreases
{
    if s.len() == 0 {
        s
    } else if s[0] == '\u{1b}' {
        typed(after_escape(s.skip(1)))
    } else if text::control(s[0]) {
        typed(s.skip(1))
    } else {
        seq![s[0]] + typed(s.skip(1))
    }
}

#[via_fn]
proof fn typed_decreases(s: Seq<char>) {
    if s.len() > 0 {
        if s.skip(1).len() > 0 {
            lemma_after_final_len(s.skip(1).skip(1));
        }
    }
}

/// How far `s` is behind `from`, once the parameters of an escape sequence
/// that start there are passed.
fn pass_final(s: &[char], from: usize) -> (r: usize)
    requires
        from <= s@.len(),
    ensures
        from <= r <= s@.len(),
        s@.skip(r as int) == after_final(s@.skip(from as int)),
{
    let mut i: usize = from;
    while i < s.len()
        invariant
            from <= i <= s@.len(),
            after_final(s@.skip(from as int)) == after_final(s@.skip(i as int)),
        decreases s.len() - i,
    {
        assert(s@.skip(i as int).skip(1) =~= s@.skip(i + 1));
        if '\u{40}' <= s[i] && s[i] <= '\u{7e}' {
            return i + 1;
        }
        i = i + 1;
    }
    i
}

/// Drops escape sequences and control characters from a line. Case and blanks
/// are left alone: a message is content.
pub fn strip_terminal_escapes(raw: &str) -> (r: String)
    ensures
        r@ == typed(raw@),
{
    let c: Vec<char> = text::to_chars(raw);
    let mut out: Vec<char> = Vec::new();
    let mut i: usize = 0;
    proof {
        assert(c@.skip(0) =~= c@);
        assert(out@ + typed(c@) =~= typed(c@));
    }
    while i < c.len()
        invariant
            i <= c@.len(),
            out@ + typed(c@.skip(i as int)) == typed(c@),
        decreases c.len() - i,
    {
        let ghost here = c@.skip(i as int);
        assert(here.skip(1) =~= c@.skip(i + 1));
        if c[i] == '\u{1b}' {
            let mut next: usize = i + 1;
            if next < c.len() {
                assert(here.skip(1).skip(1) =~= c@.skip(i + 2));
                if c[next] == '[' {
                    next = pass_final(&c, next + 1);
                } else {
                    next = next + 1;
                }
            }
            assert(c@.skip(next as int) =~= after_escape(here.skip(1)));
            i = next;
        } else {
            if !text::is_control(c[i]) {
                let ghost before = out@;
                out.push(c[i]);
                assert(out@ + typed(c@.skip(i + 1)) =~= before + (seq![here[0]] + typed(
                    here.skip(1),
                )));
            }
            i = i + 1;
        }
    }
    proof {
        assert(c@.skip(i as int).len() == 0);
        assert(out@ + typed(c@.skip(i as int)) =~= out@);
    }
    text::from_chars(&out)
}

/// Without control characters.
pub open spec fn clean(s: Seq<char>) -> bool {
    forall|i: int| 0 <= i < s.len() ==> !text::control(#[trigger] s[i])
}

proof fn lemma_typed_is_clean(s: Seq<char>)
    ensures
        clean(typed(s)),
    decreases s.len(),
{
    if s.len() > 0 {
        if s[0] == '\u{1b}' {
            if s.skip(1).len() > 0 {
                lemma_after_final_len(s.skip(1).skip(1));
            }
            lemma_typed_is_clean(after_escape(s.skip(1)));
        } else {
            let rest = typed(s.skip(1));
            lemma_typed_is_clean(s.skip(1));
            if !text::control(s[0]) {
                let all = seq![s[0]] + rest;
                assert forall|i: int| 0 <= i < all.len() implies !text::control(
                    #[trigger] all[i],
                ) by {
                    if i > 0 {
                        assert(all[i] == rest[i - 1]);
                    }
                }
            }
        }
    }
}

/// No control character survives, whatever was typed.
pub proof fn law_no_control_character_survives(s: Seq<char>, i: int)
    requires
        0 <= i < typed(s).len(),
    ensures
        !text::control(typed(s)[i]),
{
    lemma_typed_is_clean(s);
}

/// Ordinary text is untouched.
pub proof fn law_ordinary_text_is_untouched(s: Seq<char>)
    requires
        clean(s),
    ensures
        typed(s) == s,
    decreases s.len(),
{
    if s.len() > 0 {
        assert(!text::control(s[0]));
        let t = s.skip(1);
        assert forall|i: int| 0 <= i < t.len() implies !text::control(#[trigger] t[i]) by {
            assert(!text::control(s[i + 1]));
        }
        law_ordinary_text_is_untouched(t);
        assert(seq![s[0]] + t =~= s);
    }
}

/// Stripping what was stripped changes nothing more.
pub proof fn law_stripping_is_idempotent(s: Seq<char>)
    ensures
        typed(typed(s)) == typed(s),
{
    lemma_typed_is_clean(s);
    law_ordinary_text_is_untouched(typed(s));
}

/// An escape sequence is dropped whole: the bracket, its parameters and the letter
/// that ends it. What was typed around it stays.
pub proof fn law_an_escape_sequence_is_dropped_whole(
    params: Seq<char>,
    last: char,
    rest: Seq<char>,
)
    requires
        forall|i: int|
            0 <= i < params.len() ==> !('\u{40}' <= #[trigger] params[i] <= '\u{7e}'),
        '\u{40}' <= last <= '\u{7e}',
    ensures
        typed(seq!['\u{1b}', '['] + params + seq![last] + rest) == typed(rest),
{
    let s = seq!['\u{1b}', '['] + params + seq![last] + rest;
    let t = params + seq![last] + rest;
    assert(s.skip(1).skip(1) =~= t);
    lemma_after_params(params, last, rest);
}

proof fn lemma_after_params(params: Seq<char>, last: char, rest: Seq<char>)
    requires
        forall|i: int|
            0 <= i < params.len() ==> !('\u{40}' <= #[trigger] params[i] <= '\u{7e}'),
        '\u{40}' <= last <= '\u{7e}',
    ensures
        after_final(params + seq![last] + rest) == rest,
    decreases params.len(),
{
    let t = params + seq![last] + rest;
    if params.len() > 0 {
        let less = params.skip(1);
        assert forall|i: int| 0 <= i < less.len() implies !('\u{40}' <= #[trigger] less[i]
            <= '\u{7e}') by {
            assert(less[i] == params[i + 1]);
        }
        lemma_after_params(less, last, rest);
        assert(t[0] == params[0]);
        assert(t.skip(1) =~= less + seq![last] + rest);
    } else {
        assert(t[0] == last);
        assert(t.skip(1) =~= rest);
    }
}

/// An ordinary character is kept, and a control character goes alone.
pub proof fn law_what_is_typed_is_kept(c: char, rest: Seq<char>)
    ensures
        !text::control(c) ==> typed(seq![c] + rest) == seq![c] + typed(rest),
        text::control(c) && c != '\u{1b}' ==> typed(seq![c] + rest) == typed(rest),
{
    let s = seq![c] + rest;
    assert(s[0] == c);
    assert(s.skip(1) =~= rest);
}

} // verus!
