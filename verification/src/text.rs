//! Text as sequences of characters.
//!
//! Contracts over text speak of `Seq<char>`. The executable side of each
//! notion works on character slices.
use vstd::prelude::*;
use vstd::slice::slice_subrange;

verus! {

/// `String::push` of the standard library: appends one character at the end.
#[verifier::external_body]
pub(crate) fn push_char(s: &mut String, c: char)
    ensures
        final(s)@ == old(s)@.push(c),
{
    s.push(c);
}

/// The characters of `s`, in order.
pub fn to_chars(s: &str) -> (r: Vec<char>)
    ensures
        r@ == s@,
{
    let mut r: Vec<char> = Vec::new();
    for c in it: s.chars()
        invariant
            r@ == it.seq().take(it.index()),
            it.seq() == s@,
    {
        r.push(c);
        assert(r@ =~= it.seq().take(it.index() + 1));
    }
    assert(r@ =~= s@);
    r
}

/// The text whose characters are `c`.
pub fn from_chars(c: &[char]) -> (r: String)
    ensures
        r@ == c@,
{
    let mut r: String = String::new();
    let mut i: usize = 0;
    while i < c.len()
        invariant
            i <= c@.len(),
            r@ == c@.take(i as int),
        decreases c.len() - i,
    {
        push_char(&mut r, c[i]);
        assert(r@ =~= c@.take(i + 1));
        i = i + 1;
    }
    assert(r@ =~= c@);
    r
}

/// Whether two runs of characters are equal.
pub fn same_chars(a: &[char], b: &[char]) -> (r: bool)
    ensures
        r == (a@ == b@),
{
    if a.len() != b.len() {
        return false;
    }
    let mut i: usize = 0;
    while i < a.len()
        invariant
            a@.len() == b@.len(),
            i <= a@.len(),
            forall|j: int| 0 <= j < i ==> a@[j] == b@[j],
        decreases a.len() - i,
    {
        if a[i] != b[i] {
            return false;
        }
        i = i + 1;
    }
    assert(a@ =~= b@);
    true
}

/// Whether two texts are equal.
pub fn same_text(a: &str, b: &str) -> (r: bool)
    ensures
        r == (a@ == b@),
{
    let x: Vec<char> = to_chars(a);
    let y: Vec<char> = to_chars(b);
    same_chars(&x, &y)
}

/// `needle` stands in `hay` at position `i`.
pub open spec fn occurs_at(hay: Seq<char>, needle: Seq<char>, i: int) -> bool {
    0 <= i <= hay.len() - needle.len() && hay.subrange(i, i + needle.len()) == needle
}

/// `i` is the first position at which `needle` stands in `hay`.
pub open spec fn first_at(hay: Seq<char>, needle: Seq<char>, i: int) -> bool {
    occurs_at(hay, needle, i) && forall|j: int| 0 <= j < i ==> !occurs_at(hay, needle, j)
}

/// `needle` stands somewhere in `hay`.
pub open spec fn occurs(hay: Seq<char>, needle: Seq<char>) -> bool {
    exists|i: int| occurs_at(hay, needle, i)
}

pub fn occurs_here(hay: &[char], needle: &[char], i: usize) -> (r: bool)
    ensures
        r == occurs_at(hay@, needle@, i as int),
{
    if needle.len() > hay.len() || i > hay.len() - needle.len() {
        return false;
    }
    let mut k: usize = 0;
    while k < needle.len()
        invariant
            k <= needle@.len(),
            i + needle.len() <= hay.len(),
            forall|j: int| 0 <= j < k ==> hay@[i + j] == needle@[j],
        decreases needle.len() - k,
    {
        if hay[i + k] != needle[k] {
            assert(hay@.subrange(i as int, i + needle@.len())[k as int] != needle@[k as int]);
            return false;
        }
        k = k + 1;
    }
    assert(hay@.subrange(i as int, i + needle@.len()) =~= needle@);
    true
}

/// The first position at which `needle` stands in `hay`.
pub fn find(hay: &[char], needle: &[char]) -> (r: Option<usize>)
    ensures
        match r {
            Some(i) => first_at(hay@, needle@, i as int),
            None => !occurs(hay@, needle@),
        },
{
    if needle.len() > hay.len() {
        return None;
    }
    let last: usize = hay.len() - needle.len();
    let mut i: usize = 0;
    loop
        invariant
            i <= last,
            last == hay@.len() - needle@.len(),
            forall|j: int| 0 <= j < i ==> !occurs_at(hay@, needle@, j),
        decreases last - i,
    {
        if occurs_here(hay, needle, i) {
            return Some(i);
        }
        if i == last {
            return None;
        }
        i = i + 1;
    }
}

/// Whether `needle` stands somewhere in `hay`.
pub fn contains(hay: &[char], needle: &[char]) -> (r: bool)
    ensures
        r == occurs(hay@, needle@),
{
    match find(hay, needle) {
        Some(i) => {
            assert(occurs_at(hay@, needle@, i as int));
            true
        },
        None => false,
    }
}

/// `p` is a prefix of `s`.
pub open spec fn is_prefix(p: Seq<char>, s: Seq<char>) -> bool {
    p.len() <= s.len() && s.take(p.len() as int) == p
}

/// `p` is a suffix of `s`.
pub open spec fn is_suffix(p: Seq<char>, s: Seq<char>) -> bool {
    p.len() <= s.len() && s.skip(s.len() - p.len()) == p
}

pub fn starts_with(s: &[char], p: &[char]) -> (r: bool)
    ensures
        r == is_prefix(p@, s@),
{
    let r: bool = occurs_here(s, p, 0);
    proof {
        if p@.len() <= s@.len() {
            assert(s@.subrange(0, p@.len() as int) =~= s@.take(p@.len() as int));
        }
    }
    r
}

pub fn ends_with(s: &[char], p: &[char]) -> (r: bool)
    ensures
        r == is_suffix(p@, s@),
{
    if p.len() > s.len() {
        return false;
    }
    let at: usize = s.len() - p.len();
    proof {
        assert(s@.subrange(at as int, at + p@.len()) =~= s@.skip(at as int));
    }
    occurs_here(s, p, at)
}

/// The characters with the Unicode property White_Space.
pub open spec fn white(c: char) -> bool {
    ||| '\u{9}' <= c <= '\u{d}'
    ||| c == ' '
    ||| c == '\u{85}'
    ||| c == '\u{a0}'
    ||| c == '\u{1680}'
    ||| '\u{2000}' <= c <= '\u{200a}'
    ||| c == '\u{2028}'
    ||| c == '\u{2029}'
    ||| c == '\u{202f}'
    ||| c == '\u{205f}'
    ||| c == '\u{3000}'
}

pub fn is_white(c: char) -> (r: bool)
    ensures
        r == white(c),
{
    ('\u{9}' <= c && c <= '\u{d}') || c == ' ' || c == '\u{85}' || c == '\u{a0}' || c == '\u{1680}' || (
    '\u{2000}' <= c && c <= '\u{200a}') || c == '\u{2028}' || c == '\u{2029}' || c == '\u{202f}' || c
        == '\u{205f}' || c == '\u{3000}'
}

/// `s` without its leading white space.
pub open spec fn trimmed_start(s: Seq<char>) -> Seq<char>
    decreases s.len(),
{
    if s.len() > 0 && white(s[0]) {
        trimmed_start(s.skip(1))
    } else {
        s
    }
}

/// `s` without its trailing white space.
pub open spec fn trimmed_end(s: Seq<char>) -> Seq<char>
    decreases s.len(),
{
    if s.len() > 0 && white(s.last()) {
        trimmed_end(s.drop_last())
    } else {
        s
    }
}

/// `s` without leading and trailing white space.
pub open spec fn trimmed(s: Seq<char>) -> Seq<char> {
    trimmed_end(trimmed_start(s))
}

pub fn trim_start(s: &[char]) -> (r: &[char])
    ensures
        r@ == trimmed_start(s@),
{
    let mut i: usize = 0;
    proof {
        assert(s@.skip(0) =~= s@);
    }
    while i < s.len() && is_white(s[i])
        invariant
            i <= s@.len(),
            trimmed_start(s@) == trimmed_start(s@.skip(i as int)),
        decreases s.len() - i,
    {
        assert(s@.skip(i as int).skip(1) =~= s@.skip(i + 1));
        i = i + 1;
    }
    let r: &[char] = slice_subrange(s, i, s.len());
    assert(r@ =~= s@.skip(i as int));
    r
}

pub fn trim_end(s: &[char]) -> (r: &[char])
    ensures
        r@ == trimmed_end(s@),
{
    let mut n: usize = s.len();
    proof {
        assert(s@.take(n as int) =~= s@);
    }
    while n > 0 && is_white(s[n - 1])
        invariant
            n <= s@.len(),
            trimmed_end(s@) == trimmed_end(s@.take(n as int)),
        decreases n,
    {
        assert(s@.take(n as int).drop_last() =~= s@.take(n - 1));
        n = n - 1;
    }
    let r: &[char] = slice_subrange(s, 0, n);
    assert(r@ =~= s@.take(n as int));
    r
}

pub fn trim(s: &[char]) -> (r: &[char])
    ensures
        r@ == trimmed(s@),
{
    trim_end(trim_start(s))
}

/// The first position of `c` in `s`, or the length of `s`.
pub open spec fn index_of(s: Seq<char>, c: char) -> int
    decreases s.len(),
{
    if s.len() == 0 {
        0
    } else if s[0] == c {
        0
    } else {
        1 + index_of(s.skip(1), c)
    }
}

pub proof fn lemma_index_of(s: Seq<char>, c: char)
    ensures
        0 <= index_of(s, c) <= s.len(),
        index_of(s, c) < s.len() ==> s[index_of(s, c)] == c,
        forall|j: int| 0 <= j < index_of(s, c) ==> s[j] != c,
    decreases s.len(),
{
    if s.len() > 0 && s[0] != c {
        lemma_index_of(s.skip(1), c);
        assert forall|j: int| 0 <= j < index_of(s, c) implies s[j] != c by {
            if j > 0 {
                assert(s.skip(1)[j - 1] != c);
            }
        }
    }
}

pub proof fn lemma_index_of_is(s: Seq<char>, c: char, i: int)
    requires
        0 <= i <= s.len(),
        i < s.len() ==> s[i] == c,
        forall|j: int| 0 <= j < i ==> s[j] != c,
    ensures
        index_of(s, c) == i,
{
    lemma_index_of(s, c);
}

pub fn position(s: &[char], c: char) -> (r: usize)
    ensures
        r == index_of(s@, c),
        r <= s@.len(),
        r < s@.len() ==> s@[r as int] == c,
{
    let mut i: usize = 0;
    while i < s.len() && s[i] != c
        invariant
            i <= s@.len(),
            forall|j: int| 0 <= j < i ==> s@[j] != c,
        decreases s.len() - i,
    {
        i = i + 1;
    }
    proof {
        lemma_index_of_is(s@, c, i as int);
    }
    i
}

/// The pieces of `s` between the occurrences of `sep`.
pub open spec fn pieces(s: Seq<char>, sep: char) -> Seq<Seq<char>>
    decreases s.len(),
{
    let i = index_of(s, sep);
    if 0 <= i < s.len() {
        seq![s.take(i)] + pieces(s.skip(i + 1), sep)
    } else {
        seq![s]
    }
}

/// The views of a list of texts.
pub open spec fn views(v: Seq<String>) -> Seq<Seq<char>> {
    v.map_values(|s: String| s@)
}

/// The contents of a list of runs of characters.
pub open spec fn rows(v: Seq<Vec<char>>) -> Seq<Seq<char>> {
    v.map_values(|s: Vec<char>| s@)
}

/// A copy of a run of characters.
pub fn copy_chars(s: &[char]) -> (r: Vec<char>)
    ensures
        r@ == s@,
{
    let mut r: Vec<char> = Vec::new();
    let mut i: usize = 0;
    while i < s.len()
        invariant
            i <= s@.len(),
            r@ == s@.take(i as int),
        decreases s.len() - i,
    {
        r.push(s[i]);
        assert(r@ =~= s@.take(i + 1));
        i = i + 1;
    }
    assert(r@ =~= s@);
    r
}

pub fn split(s: &[char], sep: char) -> (r: Vec<Vec<char>>)
    ensures
        rows(r@) == pieces(s@, sep),
        r@.len() > 0,
{
    let mut r: Vec<Vec<char>> = Vec::new();
    let mut from: usize = 0;
    proof {
        assert(s@.skip(0) =~= s@);
        assert(rows(r@) + pieces(s@, sep) =~= pieces(s@, sep));
    }
    loop
        invariant
            from <= s@.len(),
            rows(r@) + pieces(s@.skip(from as int), sep) == pieces(s@, sep),
        decreases s.len() - from,
    {
        let rest: &[char] = slice_subrange(s, from, s.len());
        assert(rest@ =~= s@.skip(from as int));
        let i: usize = position(rest, sep);
        let ghost before = rows(r@);
        if i < rest.len() {
            let piece: Vec<char> = copy_chars(slice_subrange(rest, 0, i));
            assert(piece@ =~= rest@.take(i as int));
            r.push(piece);
            proof {
                assert(rows(r@) =~= before + seq![rest@.take(i as int)]);
                assert(rest@.skip(i + 1) =~= s@.skip(from + i + 1));
                assert(before + (seq![rest@.take(i as int)] + pieces(rest@.skip(i + 1), sep)) =~= (
                before + seq![rest@.take(i as int)]) + pieces(rest@.skip(i + 1), sep));
            }
            from = from + i + 1;
        } else {
            r.push(copy_chars(rest));
            assert(rows(r@) =~= before + seq![rest@]);
            return r;
        }
    }
}

/// `s` without one trailing `c`.
pub open spec fn without_last(s: Seq<char>, c: char) -> Seq<char> {
    if s.len() > 0 && s.last() == c {
        s.drop_last()
    } else {
        s
    }
}

/// The lines of a text. A line ends with a line feed or with a carriage return
/// and a line feed; the last line may go without.
pub open spec fn lines_of(s: Seq<char>) -> Seq<Seq<char>> {
    let p = pieces(s, '\n');
    let ended = p.drop_last().map_values(|l: Seq<char>| without_last(l, '\r'));
    if p.last().len() == 0 {
        ended
    } else {
        ended.push(p.last())
    }
}

pub fn lines(s: &[char]) -> (r: Vec<Vec<char>>)
    ensures
        rows(r@) == lines_of(s@),
{
    let mut p: Vec<Vec<char>> = split(s, '\n');
    let mut r: Vec<Vec<char>> = Vec::new();
    let mut i: usize = 0;
    while i < p.len() - 1
        invariant
            p@.len() > 0,
            i <= p@.len() - 1,
            r@.len() == i,
            forall|j: int| 0 <= j < i ==> r@[j]@ == without_last(#[trigger] p@[j]@, '\r'),
        decreases p.len() - i,
    {
        let mut line: Vec<char> = copy_chars(&p[i]);
        let n: usize = line.len();
        if n > 0 && line[n - 1] == '\r' {
            let _ = line.pop();
            assert(line@ =~= p@[i as int]@.drop_last());
        }
        r.push(line);
        i = i + 1;
    }
    let last: Vec<char> = p.pop().unwrap();
    let ghost all = pieces(s@, '\n');
    let ghost ended = all.drop_last().map_values(|l: Seq<char>| without_last(l, '\r'));
    assert(rows(r@) =~= ended);
    if last.len() > 0 {
        r.push(last);
        assert(rows(r@) =~= ended.push(all.last()));
    }
    r
}

/// The lower-case form of an ASCII capital; every other character is left.
pub open spec fn lower(c: char) -> char {
    if 'A' <= c <= 'Z' {
        ((c as u32) + 32) as char
    } else {
        c
    }
}

/// A control character of Unicode: the category `Cc`.
pub open spec fn control(c: char) -> bool {
    c <= '\u{1f}' || ('\u{7f}' <= c <= '\u{9f}')
}

pub fn is_control(c: char) -> (r: bool)
    ensures
        r == control(c),
{
    c <= '\u{1f}' || ('\u{7f}' <= c && c <= '\u{9f}')
}

/// `s` with its ASCII capitals in lower case.
pub open spec fn lowered(s: Seq<char>) -> Seq<char> {
    s.map_values(|c: char| lower(c))
}

pub fn lower_char(c: char) -> (r: char)
    ensures
        r == lower(c),
{
    if 'A' <= c && c <= 'Z' {
        ((c as u8) + 32) as char
    } else {
        c
    }
}

pub fn lower_chars(s: &[char]) -> (r: Vec<char>)
    ensures
        r@ == lowered(s@),
{
    let mut r: Vec<char> = Vec::new();
    let mut i: usize = 0;
    while i < s.len()
        invariant
            i <= s@.len(),
            r@ == lowered(s@).take(i as int),
        decreases s.len() - i,
    {
        r.push(lower_char(s[i]));
        assert(r@ =~= lowered(s@).take(i + 1));
        i = i + 1;
    }
    assert(r@ =~= lowered(s@));
    r
}

/// What `str::to_lowercase` of the standard library makes of a text.
pub uninterp spec fn lowercase(s: Seq<char>) -> Seq<char>;

/// `str::to_lowercase` of the standard library: the lower-case form of a text by
/// the Unicode tables. On text that is ASCII throughout it maps the letters `A`
/// to `Z` to `a` to `z` and leaves the rest.
#[verifier::external_body]
pub(crate) fn to_lowercase(s: &str) -> (r: String)
    ensures
        r@ == lowercase(s@),
        s.is_ascii() ==> r@ == lowered(s@),
{
    s.to_lowercase()
}

/// The ASCII digit with value `d`.
pub open spec fn digit(d: int) -> char {
    (('0' as u32) + d) as char
}

/// The decimal digits of `n`, without leading zeros.
pub open spec fn decimal(n: nat) -> Seq<char>
    decreases n,
{
    if n < 10 {
        seq![digit(n as int)]
    } else {
        decimal(n / 10).push(digit((n % 10) as int))
    }
}

pub fn digit_char(d: u8) -> (r: char)
    requires
        d < 10,
    ensures
        r == digit(d as int),
{
    (48 + d) as char
}

pub fn decimal_chars(n: u64) -> (r: Vec<char>)
    ensures
        r@ == decimal(n as nat),
    decreases n,
{
    if n < 10 {
        let mut r: Vec<char> = Vec::new();
        r.push(digit_char(n as u8));
        assert(r@ =~= decimal(n as nat));
        r
    } else {
        let mut r: Vec<char> = decimal_chars(n / 10);
        r.push(digit_char((n % 10) as u8));
        r
    }
}

/// The decimal rendering of an unsigned number.
pub fn decimal_text(n: u64) -> (r: String)
    ensures
        r@ == decimal(n as nat),
{
    from_chars(&decimal_chars(n))
}

/// The decimal rendering of a signed number.
pub open spec fn signed_decimal(n: int) -> Seq<char> {
    if n < 0 {
        seq!['-'] + decimal((-n) as nat)
    } else {
        decimal(n as nat)
    }
}

pub fn signed_text(n: i64) -> (r: String)
    ensures
        r@ == signed_decimal(n as int),
{
    if n < 0 {
        let mut r: String = String::new();
        push_char(&mut r, '-');
        let m: u64 = (-(n + 1)) as u64 + 1;
        r.append(decimal_text(m).as_str());
        assert(r@ =~= signed_decimal(n as int));
        r
    } else {
        decimal_text(n as u64)
    }
}

pub open spec fn is_digit(c: char) -> bool {
    '0' <= c <= '9'
}

/// The number that a run of digits stands for.
pub open spec fn digits_value(s: Seq<char>) -> nat
    decreases s.len(),
{
    if s.len() == 0 {
        0
    } else {
        digits_value(s.drop_last()) * 10 + ((s.last() as u32) - ('0' as u32)) as nat
    }
}

pub open spec fn all_digits(s: Seq<char>) -> bool {
    forall|i: int| 0 <= i < s.len() ==> is_digit(#[trigger] s[i])
}

/// The digits of an unsigned number, after an optional plus sign.
pub open spec fn unsigned_digits(s: Seq<char>) -> Seq<char> {
    if s.len() > 0 && s[0] == '+' {
        s.skip(1)
    } else {
        s
    }
}

/// The unsigned number, at most `max`, that `s` spells.
pub open spec fn unsigned_value(s: Seq<char>, max: nat) -> Option<nat> {
    let d = unsigned_digits(s);
    if d.len() > 0 && all_digits(d) && digits_value(d) <= max {
        Some(digits_value(d))
    } else {
        None
    }
}

pub proof fn lemma_digits_value_monotone(s: Seq<char>, k: int)
    requires
        0 <= k <= s.len(),
        all_digits(s),
    ensures
        digits_value(s.take(k)) <= digits_value(s),
    decreases s.len(),
{
    if k < s.len() {
        assert(s.drop_last().take(k) =~= s.take(k));
        lemma_digits_value_monotone(s.drop_last(), k);
    } else {
        assert(s.take(k) =~= s);
    }
}

pub fn parse_unsigned(s: &[char], max: u64) -> (r: Option<u64>)
    ensures
        match r {
            Some(n) => unsigned_value(s@, max as nat) == Some(n as nat),
            None => unsigned_value(s@, max as nat) is None,
        },
{
    let from: usize = if s.len() > 0 && s[0] == '+' {
        1
    } else {
        0
    };
    let d: &[char] = slice_subrange(s, from, s.len());
    assert(d@ =~= unsigned_digits(s@));
    if d.len() == 0 {
        return None;
    }
    let mut n: u64 = 0;
    let mut i: usize = 0;
    assert(d@.take(0) =~= Seq::empty());
    while i < d.len()
        invariant
            d@ == unsigned_digits(s@),
            i <= d@.len(),
            n <= max,
            n as nat == digits_value(d@.take(i as int)),
            forall|j: int| 0 <= j < i ==> is_digit(#[trigger] d@[j]),
        decreases d.len() - i,
    {
        let c: char = d[i];
        if c < '0' || c > '9' {
            assert(!is_digit(d@[i as int]));
            return None;
        }
        let v: u64 = (c as u8 - 48) as u64;
        assert(d@.take(i + 1).drop_last() =~= d@.take(i as int));
        assert(digits_value(d@.take(i + 1)) == n * 10 + v);
        if n > (u64::MAX - v) / 10 || n * 10 + v > max {
            proof {
                if all_digits(d@) {
                    lemma_digits_value_monotone(d@, i + 1);
                }
            }
            return None;
        }
        n = n * 10 + v;
        i = i + 1;
    }
    assert(d@.take(i as int) =~= d@);
    Some(n)
}

/// The signed number, of a magnitude at most `max` below zero and less than
/// `max` above it, that `s` spells.
pub open spec fn signed_value(s: Seq<char>, max: nat) -> Option<int> {
    if s.len() > 0 && s[0] == '-' {
        match unsigned_value(s.skip(1), max) {
            Some(n) => if s.len() > 1 && s[1] == '+' {
                None
            } else {
                Some(-(n as int))
            },
            None => None,
        }
    } else {
        match unsigned_value(s, (max - 1) as nat) {
            Some(n) => Some(n as int),
            None => None,
        }
    }
}

/// The 32-bit integer that `s` spells.
pub fn parse_i32(s: &[char]) -> (r: Option<i32>)
    ensures
        match r {
            Some(n) => signed_value(s@, 0x8000_0000) == Some(n as int),
            None => signed_value(s@, 0x8000_0000) is None,
        },
{
    if s.len() > 0 && s[0] == '-' {
        let tail: &[char] = slice_subrange(s, 1, s.len());
        assert(tail@ =~= s@.skip(1));
        match parse_unsigned(tail, 0x8000_0000) {
            Some(n) => if s.len() > 1 && s[1] == '+' {
                None
            } else {
                Some((-(n as i64)) as i32)
            },
            None => None,
        }
    } else {
        match parse_unsigned(s, 0x7FFF_FFFF) {
            Some(n) => Some(n as i32),
            None => None,
        }
    }
}

/// The texts of `v` one after the other, `sep` between them.
pub open spec fn joined(v: Seq<Seq<char>>, sep: Seq<char>) -> Seq<char>
    decreases v.len(),
{
    if v.len() == 0 {
        Seq::empty()
    } else if v.len() == 1 {
        v[0]
    } else {
        joined(v.drop_last(), sep) + sep + v.last()
    }
}

pub fn join(v: &[String], sep: &str) -> (r: String)
    ensures
        r@ == joined(views(v@), sep@),
{
    let mut r: String = String::new();
    let mut i: usize = 0;
    assert(views(v@).take(0) =~= Seq::empty());
    while i < v.len()
        invariant
            i <= v@.len(),
            r@ == joined(views(v@).take(i as int), sep@),
        decreases v.len() - i,
    {
        if i > 0 {
            r.append(sep);
        }
        r.append(v[i].as_str());
        proof {
            let p = views(v@).take(i + 1);
            assert(p.drop_last() =~= views(v@).take(i as int));
            assert(r@ =~= joined(p, sep@));
        }
        i = i + 1;
    }
    assert(views(v@).take(i as int) =~= views(v@));
    r
}

/// A copy of a text.
pub fn copy_text(s: &str) -> (r: String)
    ensures
        r@ == s@,
{
    s.to_owned()
}

/// A text as a line: followed by a line feed.
pub fn terminated(s: &str) -> (r: String)
    ensures
        r@ == s@.push('\n'),
{
    let mut r: String = copy_text(s);
    push_char(&mut r, '\n');
    r
}

/// A copy of a list of texts.
pub fn copy_texts(v: &[String]) -> (r: Vec<String>)
    ensures
        views(r@) == views(v@),
        r@.len() == v@.len(),
{
    let mut r: Vec<String> = Vec::new();
    let mut i: usize = 0;
    while i < v.len()
        invariant
            i <= v@.len(),
            views(r@) == views(v@).take(i as int),
            r@.len() == i,
        decreases v.len() - i,
    {
        r.push(v[i].clone());
        assert(views(r@) =~= views(v@).take(i + 1));
        i = i + 1;
    }
    assert(views(r@) =~= views(v@));
    r
}

/// Whether a text equals one of a list.
pub fn listed(v: &[String], s: &str) -> (r: bool)
    ensures
        r == views(v@).contains(s@),
{
    let mut i: usize = 0;
    while i < v.len()
        invariant
            i <= v@.len(),
            forall|j: int| 0 <= j < i ==> #[trigger] v@[j]@ != s@,
        decreases v.len() - i,
    {
        if same_text(v[i].as_str(), s) {
            assert(views(v@)[i as int] == s@);
            return true;
        }
        i = i + 1;
    }
    assert forall|j: int| 0 <= j < views(v@).len() implies views(v@)[j] != s@ by {
        assert(v@[j]@ != s@);
    }
    false
}

/// A text occurs in another exactly where it stands in it.
pub proof fn law_a_text_occurs_where_it_stands(hay: Seq<char>, needle: Seq<char>)
    ensures
        occurs(hay, needle) <==> exists|i: int|
            0 <= i <= hay.len() - needle.len() && #[trigger] hay.subrange(i, i + needle.len())
                == needle,
        is_prefix(needle, hay) <==> needle.len() <= hay.len() && hay.subrange(
            0,
            needle.len() as int,
        ) == needle,
        is_suffix(needle, hay) <==> needle.len() <= hay.len() && hay.subrange(
            hay.len() - needle.len(),
            hay.len() as int,
        ) == needle,
{
    if occurs(hay, needle) {
        let i = choose|i: int| occurs_at(hay, needle, i);
        assert(hay.subrange(i, i + needle.len()) == needle);
    }
    if exists|i: int|
        0 <= i <= hay.len() - needle.len() && #[trigger] hay.subrange(i, i + needle.len())
            == needle {
        let i = choose|i: int|
            0 <= i <= hay.len() - needle.len() && #[trigger] hay.subrange(i, i + needle.len())
                == needle;
        assert(occurs_at(hay, needle, i));
    }
    if needle.len() <= hay.len() {
        let n = needle.len() as int;
        assert(hay.take(n) =~= hay.subrange(0, n));
        assert(hay.skip(hay.len() - n) =~= hay.subrange(hay.len() - n, hay.len() as int));
    }
}

proof fn lemma_trimmed_start_is(s: Seq<char>) -> (i: int)
    ensures
        0 <= i <= s.len(),
        trimmed_start(s) == s.skip(i),
        forall|j: int| 0 <= j < i ==> white(#[trigger] s[j]),
        i < s.len() ==> !white(s[i]),
    decreases s.len(),
{
    if s.len() > 0 && white(s[0]) {
        let k = lemma_trimmed_start_is(s.skip(1));
        assert(s.skip(1).skip(k) =~= s.skip(k + 1));
        assert forall|j: int| 0 <= j < k + 1 implies white(#[trigger] s[j]) by {
            if j > 0 {
                assert(s.skip(1)[j - 1] == s[j]);
            }
        }
        k + 1
    } else {
        assert(s.skip(0) =~= s);
        0
    }
}

proof fn lemma_trimmed_end_is(s: Seq<char>) -> (i: int)
    ensures
        0 <= i <= s.len(),
        trimmed_end(s) == s.take(i),
        forall|j: int| i <= j < s.len() ==> white(#[trigger] s[j]),
        0 < i ==> !white(s[i - 1]),
    decreases s.len(),
{
    if s.len() > 0 && white(s.last()) {
        let k = lemma_trimmed_end_is(s.drop_last());
        assert(s.drop_last().take(k) =~= s.take(k));
        assert forall|j: int| k <= j < s.len() implies white(#[trigger] s[j]) by {
            if j < s.len() - 1 {
                assert(s.drop_last()[j] == s[j]);
            }
        }
        k
    } else {
        assert(s.take(s.len() as int) =~= s);
        s.len() as int
    }
}

/// Trimming takes the blanks around a text and nothing else: what is left stands
/// in the text, begins and ends with no blank, and all around it is blank.
pub proof fn law_trimming_takes_the_blanks_around(s: Seq<char>)
    ensures
        exists|i: int, j: int|
            {
                &&& 0 <= i <= j <= s.len()
                &&& trimmed(s) == #[trigger] s.subrange(i, j)
                &&& forall|k: int| 0 <= k < i || j <= k < s.len() ==> white(#[trigger] s[k])
                &&& i < j ==> !white(s[i]) && !white(s[j - 1])
            },
{
    let i = lemma_trimmed_start_is(s);
    let t = trimmed_start(s);
    let n = lemma_trimmed_end_is(t);
    assert(trimmed(s) == t.take(n));
    assert(t.take(n) =~= s.subrange(i, i + n));
    assert forall|k: int| 0 <= k < i || i + n <= k < s.len() implies white(#[trigger] s[k]) by {
        if k >= i {
            assert(t[k - i] == s[k]);
        }
    }
    if n > 0 {
        assert(t[n - 1] == s[i + n - 1]);
        if i < s.len() {
            assert(!white(s[i]));
        }
    }
}

/// Splitting loses nothing: the pieces, joined by the separator again, are the
/// text, and the separator stands in none of them.
pub proof fn law_pieces_make_up_the_text(s: Seq<char>, sep: char)
    ensures
        joined(pieces(s, sep), seq![sep]) == s,
        forall|i: int, j: int|
            0 <= i < pieces(s, sep).len() && 0 <= j < pieces(s, sep)[i].len() ==> #[trigger] pieces(
                s,
                sep,
            )[i][j] != sep,
        pieces(s, sep).len() > 0,
    decreases s.len(),
{
    lemma_index_of(s, sep);
    let i = index_of(s, sep);
    if 0 <= i < s.len() {
        let rest = s.skip(i + 1);
        law_pieces_make_up_the_text(rest, sep);
        let p = pieces(rest, sep);
        let all = pieces(s, sep);
        assert(all =~= seq![s.take(i)] + p);
        lemma_joined_front(s.take(i), p, seq![sep]);
        assert(s.take(i) + seq![sep] + rest =~= s);
        assert forall|a: int, b: int| 0 <= a < all.len() && 0 <= b < all[a].len() implies #[trigger]
            all[a][b] != sep by {
            if a > 0 {
                assert(all[a] == p[a - 1]);
                assert(p[a - 1][b] != sep);
            } else {
                assert(s.take(i)[b] == s[b]);
            }
        }
    } else {
        assert(pieces(s, sep) =~= seq![s]);
        reveal_with_fuel(joined, 2);
        assert(joined(seq![s], seq![sep]) =~= s);
        assert forall|a: int, b: int|
            0 <= a < pieces(s, sep).len() && 0 <= b < pieces(s, sep)[a].len() implies #[trigger] pieces(
            s,
            sep,
        )[a][b] != sep by {
            assert(pieces(s, sep)[a] == s);
        }
    }
}

proof fn lemma_joined_front(x: Seq<char>, v: Seq<Seq<char>>, sep: Seq<char>)
    requires
        v.len() > 0,
    ensures
        joined(seq![x] + v, sep) == x + sep + joined(v, sep),
    decreases v.len(),
{
    let w = seq![x] + v;
    assert(w.drop_last() =~= seq![x] + v.drop_last());
    assert(w.last() == v.last());
    if v.len() > 1 {
        lemma_joined_front(x, v.drop_last(), sep);
        assert(joined(w, sep) =~= x + sep + joined(v, sep));
    } else {
        assert(v.drop_last() =~= Seq::empty());
        assert(w.drop_last() =~= seq![x]);
        reveal_with_fuel(joined, 3);
        assert(joined(v, sep) =~= v.last());
        assert(joined(seq![x], sep) =~= x);
        assert(joined(w, sep) =~= x + sep + v.last());
    }
}

/// A number is written in digits that read as the number, and zero alone begins
/// with a zero.
pub proof fn law_numbers_read_as_they_are_written(n: nat)
    ensures
        all_digits(decimal(n)),
        digits_value(decimal(n)) == n,
        decimal(n).len() > 0,
        n > 0 ==> decimal(n)[0] != '0',
        unsigned_value(decimal(n), n) == Some(n),
    decreases n,
{
    let s = decimal(n);
    if n >= 10 {
        law_numbers_read_as_they_are_written(n / 10);
        let front = decimal(n / 10);
        assert(s.drop_last() =~= front);
        assert forall|i: int| 0 <= i < s.len() implies is_digit(#[trigger] s[i]) by {
            if i < front.len() {
                assert(is_digit(front[i]));
            }
        }
        assert(s[0] == front[0]);
    } else {
        assert(s.drop_last() =~= Seq::empty());
        assert(digits_value(s.drop_last()) == 0);
    }
    assert(is_digit(s[0]));
}

/// A piece ends where the separator stands.
pub proof fn law_a_piece_ends_at_its_separator(a: Seq<char>, sep: char, rest: Seq<char>)
    requires
        forall|i: int| 0 <= i < a.len() ==> #[trigger] a[i] != sep,
    ensures
        pieces(a, sep) == seq![a],
        pieces(a + seq![sep] + rest, sep) == seq![a] + pieces(rest, sep),
{
    lemma_index_of_is(a, sep, a.len() as int);
    let s = a + seq![sep] + rest;
    assert forall|i: int| 0 <= i < a.len() implies s[i] != sep by {
        assert(s[i] == a[i]);
    }
    lemma_index_of_is(s, sep, a.len() as int);
    assert(s.take(a.len() as int) =~= a);
    assert(s.skip(a.len() as int + 1) =~= rest);
}

/// A number with a minus in front is read as negative; one of digits alone, or
/// with a plus, as it stands; and both only as far as the type holds them.
pub proof fn law_signed_numbers_are_read(n: nat, max: nat)
    requires
        max > 0,
    ensures
        signed_value(seq!['-'] + decimal(n), max) == if n <= max {
            Some(-(n as int))
        } else {
            None
        },
        signed_value(decimal(n), max) == if n < max {
            Some(n as int)
        } else {
            None
        },
        signed_value(seq!['+'] + decimal(n), max) == if n < max {
            Some(n as int)
        } else {
            None
        },
{
    law_numbers_read_as_they_are_written(n);
    let d = decimal(n);
    assert(is_digit(d[0]));
    let m = seq!['-'] + d;
    let p = seq!['+'] + d;
    assert(m.skip(1) =~= d);
    assert(p.skip(1) =~= d);
    assert(m[1] == d[0]);
}

/// An unsigned number is digits with at most a plus in front, and no larger than
/// the type holds.
pub proof fn law_only_digits_are_numbers(s: Seq<char>, max: nat)
    ensures
        s.len() == 0 ==> unsigned_value(s, max) is None,
        (exists|i: int|
            0 <= i < s.len() && !('0' <= #[trigger] s[i] <= '9') && !(i == 0 && s[i] == '+'))
            ==> unsigned_value(s, max) is None,
        unsigned_value(s, max) matches Some(n) ==> n <= max,
        s.len() > 0 && all_digits(s) && digits_value(s) <= max ==> unsigned_value(s, max) == Some(
            digits_value(s),
        ),
{
    if exists|i: int|
        0 <= i < s.len() && !('0' <= #[trigger] s[i] <= '9') && !(i == 0 && s[i] == '+') {
        let i = choose|i: int|
            0 <= i < s.len() && !('0' <= #[trigger] s[i] <= '9') && !(i == 0 && s[i] == '+');
        let d = unsigned_digits(s);
        if s[0] == '+' {
            assert(d[i - 1] == s[i]);
            assert(!is_digit(d[i - 1]));
        } else {
            assert(!is_digit(d[i]));
        }
    }
    if s.len() > 0 && all_digits(s) {
        assert(is_digit(s[0]));
    }
}

/// Each digit counts ten times what follows it does.
pub proof fn law_a_digit_counts_by_its_place(s: Seq<char>, c: char)
    requires
        '0' <= c <= '9',
    ensures
        digits_value(s.push(c)) == 10 * digits_value(s) + (c as int - '0' as int),
        digits_value(Seq::empty()) == 0,
{
    assert(s.push(c).drop_last() =~= s);
}

/// A line ends at its line feed, a carriage return in front of which is left
/// out; what stands behind the last one is a line of its own, unless it is
/// empty.
pub proof fn law_a_line_ends_at_its_line_feed(line: Seq<char>, rest: Seq<char>)
    requires
        forall|i: int| 0 <= i < line.len() ==> #[trigger] line[i] != '\n',
    ensures
        line.len() == 0 || line.last() != '\r' ==> lines_of(line + seq!['\n'] + rest) == seq![line]
            + lines_of(rest),
        lines_of(line.push('\r') + seq!['\n'] + rest) == seq![line] + lines_of(rest),
        line.len() > 0 ==> lines_of(line) == seq![line],
        lines_of(Seq::empty()) == Seq::<Seq<char>>::empty(),
{
    lemma_line_and_rest(line, rest);
    let ended = line.push('\r');
    assert forall|i: int| 0 <= i < ended.len() implies #[trigger] ended[i] != '\n' by {
        if i < line.len() {
            assert(ended[i] == line[i]);
        }
    }
    lemma_line_and_rest(ended, rest);
    assert(ended.drop_last() =~= line);
    law_a_piece_ends_at_its_separator(line, '\n', rest);
    assert(pieces(line, '\n').drop_last() =~= Seq::<Seq<char>>::empty());
    if line.len() > 0 {
        assert(lines_of(line) =~= seq![line]);
    }
    let none = Seq::<char>::empty();
    law_a_piece_ends_at_its_separator(none, '\n', rest);
    assert(pieces(none, '\n').drop_last() =~= Seq::<Seq<char>>::empty());
    assert(lines_of(none) =~= Seq::<Seq<char>>::empty());
}

proof fn lemma_line_and_rest(line: Seq<char>, rest: Seq<char>)
    requires
        forall|i: int| 0 <= i < line.len() ==> #[trigger] line[i] != '\n',
    ensures
        lines_of(line + seq!['\n'] + rest) == seq![without_last(line, '\r')] + lines_of(rest),
{
    law_a_piece_ends_at_its_separator(line, '\n', rest);
    law_pieces_make_up_the_text(rest, '\n');
    let q = pieces(rest, '\n');
    let p = seq![line] + q;
    assert(pieces(line + seq!['\n'] + rest, '\n') == p);
    assert(p.last() == q.last());
    assert(p.drop_last() =~= seq![line] + q.drop_last());
    let f = |l: Seq<char>| without_last(l, '\r');
    assert(p.drop_last().map_values(f) =~= seq![without_last(line, '\r')]
        + q.drop_last().map_values(f));
    assert(lines_of(line + seq!['\n'] + rest) =~= seq![without_last(line, '\r')] + lines_of(rest));
}

/// Only the letters from A to Z have another lower case here, 32 places on.
pub proof fn law_only_capitals_are_lowered(s: Seq<char>, i: int)
    requires
        0 <= i < s.len(),
    ensures
        lowered(s).len() == s.len(),
        65 <= s[i] as int <= 90 ==> lowered(s)[i] as int == s[i] as int + 32,
        !(65 <= s[i] as int <= 90) ==> lowered(s)[i] == s[i],
        lowered(lowered(s)) == lowered(s),
{
    assert(lowered(lowered(s)) =~= lowered(s));
}

/// The blanks and the control characters are those of Unicode, by their numbers.
pub proof fn law_blanks_and_controls_are_known_by_their_numbers(c: char)
    ensures
        ({
            let n = c as int;
            &&& white(c) <==> 9 <= n <= 13 || n == 32 || n == 0x85 || n == 0xA0 || n == 0x1680
                || 0x2000 <= n <= 0x200A || n == 0x2028 || n == 0x2029 || n == 0x202F || n == 0x205F
                || n == 0x3000
            &&& control(c) <==> n < 32 || 127 <= n < 160
            &&& is_digit(c) <==> 48 <= n <= 57
        }),
{
}

/// Texts are joined in order, the separator between any two of them and nowhere
/// else.
pub proof fn law_the_separator_stands_between(v: Seq<Seq<char>>, x: Seq<char>, sep: Seq<char>)
    ensures
        joined(Seq::empty(), sep) == Seq::<char>::empty(),
        joined(seq![x], sep) == x,
        v.len() > 0 ==> joined(v.push(x), sep) == joined(v, sep) + sep + x,
{
    assert(v.push(x).drop_last() =~= v);
}

/// A signed number reads as it is written.
pub proof fn law_signed_numbers_read_as_they_are_written(n: int, max: nat)
    requires
        -(max as int) <= n < max,
    ensures
        signed_value(signed_decimal(n), max) == Some(n),
{
    if n < 0 {
        law_signed_numbers_are_read((-n) as nat, max);
    } else {
        law_signed_numbers_are_read(n as nat, max);
    }
}

} // verus!
