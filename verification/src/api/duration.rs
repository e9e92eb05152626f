//! Durations written as decimal numbers, kept exact to the nanosecond.
use crate::text;
use vstd::arithmetic::power::{lemma_pow0, lemma_pow1, lemma_pow_adds, lemma_pow_increases, lemma_pow_positive, pow};
use vstd::prelude::*;
use vstd::slice::slice_subrange;

verus! {

/// The longest duration there is: the largest 64-bit count of seconds, and one
/// nanosecond less than another second.
pub const MAX_NANOS: u128 = 18_446_744_073_709_551_615_999_999_999;

/// A decimal number: the digits, times a power of ten, with a sign.
pub struct Decimal {
    pub negative: bool,
    pub digits: Seq<char>,
    pub exponent: int,
}

pub open spec fn signed(s: Seq<char>) -> bool {
    s.len() > 0 && (s[0] == '-' || s[0] == '+')
}

/// `s` without a sign in front.
pub open spec fn unsigned(s: Seq<char>) -> Seq<char> {
    if signed(s) {
        s.skip(1)
    } else {
        s
    }
}

pub open spec fn negative(s: Seq<char>) -> bool {
    s.len() > 0 && s[0] == '-'
}

/// Where the exponent of `s` starts: at the first `e` of either case.
pub open spec fn exponent_at(s: Seq<char>) -> int {
    text::index_of(text::lowered(s), 'e')
}

/// The power of ten that an exponent names.
pub open spec fn exponent_value(s: Seq<char>) -> Option<int> {
    let d = unsigned(s);
    if d.len() > 0 && text::all_digits(d) {
        Some(
            if negative(s) {
                -(text::digits_value(d) as int)
            } else {
                text::digits_value(d) as int
            },
        )
    } else {
        None
    }
}

/// The digits of a number without its point.
pub open spec fn unpointed(s: Seq<char>) -> Seq<char> {
    let p = text::index_of(s, '.');
    if p < s.len() {
        s.take(p) + s.skip(p + 1)
    } else {
        s
    }
}

/// How many digits follow the point.
pub open spec fn fraction_len(s: Seq<char>) -> int {
    let p = text::index_of(s, '.');
    if p < s.len() {
        s.len() - p - 1
    } else {
        0
    }
}

/// The number that `s` spells: an optional sign, digits with at most one point
/// among them, and an optional exponent.
pub open spec fn decimal_number(s: Seq<char>) -> Option<Decimal> {
    let b = unsigned(s);
    let e = exponent_at(b);
    let power = if e < b.len() {
        exponent_value(b.skip(e + 1))
    } else {
        Some(0int)
    };
    let mantissa = b.take(e);
    let digits = unpointed(mantissa);
    match power {
        Some(x) => if digits.len() > 0 && text::all_digits(digits) {
            Some(
                Decimal {
                    negative: negative(s),
                    digits,
                    exponent: x - fraction_len(mantissa),
                },
            )
        } else {
            None
        },
        None => None,
    }
}

/// `n / m` rounded to the nearest whole number, a tie to the even one.
pub open spec fn rounded(n: int, m: int) -> int {
    let q = n / m;
    let r = n % m;
    if 2 * r > m || (2 * r == m && q % 2 == 1) {
        q + 1
    } else {
        q
    }
}

/// The nanoseconds in `value` times ten to the power `exponent`, in units of
/// `unit` seconds.
pub open spec fn nanos(value: nat, exponent: int, unit: nat) -> int {
    if exponent + 9 >= 0 {
        value * unit * pow(10, (exponent + 9) as nat)
    } else {
        rounded((value * unit) as int, pow(10, (-(exponent + 9)) as nat))
    }
}

/// What a text that stands for a number spells: a decimal number, or in letters
/// of either case and with an optional sign, infinity or the absence of a
/// number.
pub enum Numeral {
    Finite(Decimal),
    Infinite { negative: bool },
    Undefined,
}

pub open spec fn names_infinity(s: Seq<char>) -> bool {
    text::lowered(s) == "inf"@ || text::lowered(s) == "infinity"@
}

pub open spec fn numeral(s: Seq<char>) -> Option<Numeral> {
    if names_infinity(unsigned(s)) {
        Some(Numeral::Infinite { negative: negative(s) })
    } else if text::lowered(unsigned(s)) == "nan"@ {
        Some(Numeral::Undefined)
    } else {
        match decimal_number(s) {
            Some(d) => Some(Numeral::Finite(d)),
            None => None,
        }
    }
}

/// `s` without the blanks around it, read as a number of seconds, or as a
/// number followed by `s`, `m` or `h`: the number, and the seconds in its unit.
pub open spec fn duration(s: Seq<char>) -> Option<(Numeral, nat)> {
    let t = text::trimmed(s);
    match numeral(t) {
        Some(n) => Some((n, 1nat)),
        None => if t.len() == 0 {
            None
        } else {
            match (numeral(t.drop_last()), unit_of(t.last())) {
                (Some(n), Some(u)) => Some((n, u)),
                _ => None,
            }
        },
    }
}

/// The seconds in the unit that a letter names.
pub open spec fn unit_of(c: char) -> Option<nat> {
    if c == 's' {
        Some(1)
    } else if c == 'm' {
        Some(60)
    } else if c == 'h' {
        Some(3600)
    } else {
        None
    }
}

/// The exponent as it is held: exact, unless both are far beyond what a
/// duration can hold.
pub open spec fn stands_for(held: int, exact: int) -> bool {
    ||| held == exact
    ||| (held > 0x1_0000_0000_0000_0000_0000 && exact > 0x1_0000_0000_0000_0000_0000)
    ||| (held < -0x1_0000_0000_0000_0000_0000 && exact < -0x1_0000_0000_0000_0000_0000)
}

/// A number that was read.
pub struct Amount {
    pub negative: bool,
    pub digits: Vec<char>,
    pub exponent: i128,
}

impl Amount {
    pub open spec fn is_for(self, d: Decimal) -> bool {
        &&& self.negative == d.negative
        &&& self.digits@ == d.digits
        &&& stands_for(self.exponent as int, d.exponent)
        &&& -0x1000_0000_0000_0000_0000_0000 < self.exponent < 0x1000_0000_0000_0000_0000_0000
        &&& d.digits.len() > 0
        &&& text::all_digits(d.digits)
    }
}

fn is_signed(s: &[char]) -> (r: bool)
    ensures
        r == signed(s@),
{
    s.len() > 0 && (s[0] == '-' || s[0] == '+')
}

fn after_sign(s: &[char]) -> (r: &[char])
    ensures
        r@ == unsigned(s@),
{
    let from: usize = if is_signed(s) {
        1
    } else {
        0
    };
    let r: &[char] = slice_subrange(s, from, s.len());
    assert(r@ =~= unsigned(s@));
    r
}

fn are_digits(s: &[char]) -> (r: bool)
    ensures
        r == text::all_digits(s@),
{
    let mut i: usize = 0;
    while i < s.len()
        invariant
            i <= s@.len(),
            forall|j: int| 0 <= j < i ==> text::is_digit(#[trigger] s@[j]),
        decreases s.len() - i,
    {
        if s[i] < '0' || s[i] > '9' {
            assert(!text::is_digit(s@[i as int]));
            return false;
        }
        i = i + 1;
    }
    true
}

proof fn lemma_value_step(s: Seq<char>, i: int)
    requires
        0 <= i < s.len(),
    ensures
        text::digits_value(s.take(i + 1)) == text::digits_value(s.take(i)) * 10 + ((s[i] as u32) - (
        '0' as u32)) as nat,
{
    assert(s.take(i + 1).drop_last() =~= s.take(i));
}

/// The number that `s` spells, or the largest found on the way that exceeds
/// `cap`.
fn capped_value(s: &[char], cap: u128) -> (r: u128)
    requires
        text::all_digits(s@),
        cap <= 0x1_0000_0000_0000_0000_0000_0000_0000,
    ensures
        r <= cap ==> r == text::digits_value(s@),
        r > cap ==> text::digits_value(s@) > cap,
        r <= cap * 10 + 9,
{
    let mut n: u128 = 0;
    let mut i: usize = 0;
    assert(s@.take(0) =~= Seq::empty());
    while i < s.len()
        invariant
            i <= s@.len(),
            text::all_digits(s@),
            cap <= 0x1_0000_0000_0000_0000_0000_0000_0000,
            n <= cap ==> n == text::digits_value(s@.take(i as int)),
            n > cap ==> text::digits_value(s@.take(i as int)) > cap,
            n <= cap * 10 + 9,
        decreases s.len() - i,
    {
        proof {
            lemma_value_step(s@, i as int);
            assert(text::is_digit(s@[i as int]));
        }
        if n <= cap {
            n = n * 10 + ((s[i] as u32) - ('0' as u32)) as u128;
        }
        i = i + 1;
    }
    assert(s@.take(s@.len() as int) =~= s@);
    n
}

/// Reads an exponent.
fn parse_exponent(s: &[char]) -> (r: Option<i128>)
    ensures
        match r {
            Some(e) => exponent_value(s@) matches Some(x) && (e == x || (e
                > 0x2_0000_0000_0000_0000_0000 && x > 0x2_0000_0000_0000_0000_0000) || (e
                < -0x2_0000_0000_0000_0000_0000 && x < -0x2_0000_0000_0000_0000_0000)),
            None => exponent_value(s@) is None,
        },
        r matches Some(e) ==> -0x100_0000_0000_0000_0000_0000 < e < 0x100_0000_0000_0000_0000_0000,
{
    let d: &[char] = after_sign(s);
    if d.len() == 0 || !are_digits(d) {
        return None;
    }
    let n: u128 = capped_value(d, 0x2_0000_0000_0000_0000_0000);
    if s.len() > 0 && s[0] == '-' {
        Some(-(n as i128))
    } else {
        Some(n as i128)
    }
}

/// Reads a decimal number.
pub fn parse_decimal(s: &[char]) -> (r: Option<Amount>)
    ensures
        match r {
            Some(a) => decimal_number(s@) matches Some(d) && a.is_for(d),
            None => decimal_number(s@) is None,
        },
{
    let b: &[char] = after_sign(s);
    let low: Vec<char> = text::lower_chars(b);
    let e: usize = text::position(&low, 'e');
    let mantissa: &[char] = slice_subrange(b, 0, e);
    assert(mantissa@ =~= b@.take(e as int));
    let power: i128 = if e < b.len() {
        let tail: &[char] = slice_subrange(b, e + 1, b.len());
        assert(tail@ =~= b@.skip(e + 1));
        match parse_exponent(tail) {
            Some(x) => x,
            None => {
                return None;
            },
        }
    } else {
        0
    };
    let p: usize = text::position(mantissa, '.');
    let mut digits: Vec<char> = text::copy_chars(slice_subrange(mantissa, 0, p));
    let mut fraction: usize = 0;
    if p < mantissa.len() {
        let tail: &[char] = slice_subrange(mantissa, p + 1, mantissa.len());
        fraction = tail.len();
        let mut more: Vec<char> = text::copy_chars(tail);
        digits.append(&mut more);
    }
    proof {
        assert(digits@ =~= unpointed(mantissa@));
        assert(fraction == fraction_len(mantissa@));
    }
    if digits.len() == 0 || !are_digits(&digits) {
        return None;
    }
    Some(
        Amount {
            negative: s.len() > 0 && s[0] == '-',
            digits,
            exponent: power - (fraction as i128),
        },
    )
}

/// A run of digits splits into the value of its first part, scaled, and that
/// of the rest.
proof fn lemma_value_split(s: Seq<char>, k: int)
    requires
        0 <= k <= s.len(),
    ensures
        text::digits_value(s) == text::digits_value(s.take(k)) * pow(10, (s.len() - k) as nat)
            + text::digits_value(s.skip(k)),
    decreases s.len() - k,
{
    lemma_pow0(10);
    if k == s.len() {
        assert(s.take(k) =~= s);
        assert(s.skip(k).len() == 0);
    } else {
        let d = s.drop_last();
        lemma_value_split(d, k);
        assert(d.take(k) =~= s.take(k));
        assert(s.skip(k).drop_last() =~= d.skip(k));
        assert(s.skip(k).last() == s.last());
        let e = (d.len() - k) as nat;
        lemma_pow1(10);
        lemma_pow_adds(10, e, 1);
        assert(pow(10, e + 1) == pow(10, e) * 10);
        let a = text::digits_value(s.take(k)) as int;
        let p = pow(10, e);
        assert((a * p) * 10 == a * (p * 10)) by (nonlinear_arith);
    }
}

proof fn lemma_value_bound(s: Seq<char>)
    requires
        text::all_digits(s),
    ensures
        text::digits_value(s) < pow(10, s.len()),
    decreases s.len(),
{
    lemma_pow0(10);
    if s.len() > 0 {
        let d = s.drop_last();
        assert(text::all_digits(d)) by {
            assert forall|i: int| 0 <= i < d.len() implies text::is_digit(#[trigger] d[i]) by {
                assert(text::is_digit(s[i]));
            }
        }
        lemma_value_bound(d);
        assert(text::is_digit(s[s.len() - 1]));
        lemma_pow1(10);
        lemma_pow_adds(10, d.len(), 1);
        assert(pow(10, s.len()) == pow(10, d.len()) * 10);
    }
}

proof fn lemma_zeros(s: Seq<char>)
    requires
        forall|i: int| 0 <= i < s.len() ==> #[trigger] s[i] == '0',
    ensures
        text::digits_value(s) == 0,
    decreases s.len(),
{
    if s.len() > 0 {
        assert(s.drop_last().len() < s.len());
        assert(s[s.len() - 1] == '0');
        assert forall|i: int| 0 <= i < s.drop_last().len() implies #[trigger] s.drop_last()[i]
            == '0' by {
            assert(s[i] == '0');
        }
        lemma_zeros(s.drop_last());
    }
}

proof fn lemma_not_zero(s: Seq<char>, i: int)
    requires
        text::all_digits(s),
        0 <= i < s.len(),
        s[i] != '0',
    ensures
        text::digits_value(s) > 0,
    decreases s.len(),
{
    assert(text::is_digit(s[i]));
    if i < s.len() - 1 {
        let d = s.drop_last();
        assert forall|j: int| 0 <= j < d.len() implies text::is_digit(#[trigger] d[j]) by {
            assert(text::is_digit(s[j]));
        }
        lemma_not_zero(d, i);
    }
}

proof fn lemma_one_digit(s: Seq<char>)
    requires
        s.len() == 1,
    ensures
        text::digits_value(s) == ((s[0] as u32) - ('0' as u32)) as nat,
{
    reveal_with_fuel(text::digits_value, 2);
}

proof fn lemma_nothing(p: int)
    ensures
        0 * p == 0,
{
}

proof fn lemma_in_units(w: u128, unit: u32)
    requires
        w <= MAX_NANOS,
        unit <= 3600,
    ensures
        0 <= w * unit <= 3600 * MAX_NANOS,
{
    assert(0 <= w * unit <= 3600 * MAX_NANOS) by (nonlinear_arith)
        requires
            0 <= w <= MAX_NANOS,
            0 <= unit <= 3600,
    ;
}

/// Whether every digit is zero.
pub fn is_zero(s: &[char]) -> (r: bool)
    requires
        text::all_digits(s@),
    ensures
        r == (text::digits_value(s@) == 0),
{
    let mut i: usize = 0;
    while i < s.len()
        invariant
            i <= s@.len(),
            text::all_digits(s@),
            forall|j: int| 0 <= j < i ==> #[trigger] s@[j] == '0',
        decreases s.len() - i,
    {
        if s[i] != '0' {
            proof {
                lemma_not_zero(s@, i as int);
            }
            return false;
        }
        i = i + 1;
    }
    proof {
        lemma_zeros(s@);
    }
    true
}

/// Multiplies the digits by `unit`: what is carried out at the top, and the
/// digits that stay.
fn scale(s: &[char], unit: u32) -> (r: (u32, Vec<char>))
    requires
        text::all_digits(s@),
        1 <= unit <= 3600,
    ensures
        r.1@.len() == s@.len(),
        text::all_digits(r.1@),
        text::digits_value(s@) * unit == r.0 * pow(10, s@.len()) + text::digits_value(r.1@),
        r.0 < unit,
{
    let n: usize = s.len();
    let mut out: Vec<char> = vec!['0'; n];
    let mut carry: u32 = 0;
    let mut i: usize = n;
    proof {
        lemma_pow0(10);
        assert(text::digits_value(s@.skip(n as int)) == 0);
        assert(text::digits_value(out@.skip(n as int)) == 0);
        lemma_nothing(unit as int);
        lemma_nothing(pow(10, 0));
    }
    while i > 0
        invariant
            i <= n,
            n == s@.len(),
            n == out@.len(),
            1 <= unit <= 3600,
            carry < unit,
            text::all_digits(s@),
            text::all_digits(out@),
            text::digits_value(s@.skip(i as int)) * unit == carry * pow(10, (n - i) as nat)
                + text::digits_value(out@.skip(i as int)),
        decreases i,
    {
        let at: usize = i - 1;
        assert(text::is_digit(s@[at as int]));
        let d: u32 = (s[at] as u32) - ('0' as u32);
        assert(0 <= d * unit <= 9 * unit) by (nonlinear_arith)
            requires
                0 <= d <= 9,
                0 <= unit,
        ;
        let t: u32 = d * unit + carry;
        assert(t < 10 * unit) by (nonlinear_arith)
            requires
                t == d * unit + carry,
                d <= 9,
                carry < unit,
        ;
        let ghost before = out@;
        let low: char = text::digit_char((t % 10) as u8);
        out.set(at, low);
        proof {
            let x = s@.skip(at as int);
            let y = out@.skip(at as int);
            lemma_value_split(x, 1);
            lemma_value_split(y, 1);
            assert(x.skip(1) =~= s@.skip(i as int));
            assert(y.skip(1) =~= out@.skip(i as int));
            assert(out@.skip(i as int) =~= before.skip(i as int));
            lemma_one_digit(x.take(1));
            lemma_one_digit(y.take(1));
            assert(text::digits_value(x.take(1)) == d);
            assert(y.take(1).last() == low);
            assert(text::digits_value(y.take(1)) == t % 10);
            let p = pow(10, (n - i) as nat);
            lemma_pow1(10);
            lemma_pow_adds(10, (n - i) as nat, 1);
            assert(pow(10, (n - at) as nat) == p * 10);
            let vs = text::digits_value(s@.skip(i as int)) as int;
            let vo = text::digits_value(out@.skip(i as int)) as int;
            assert(vs * unit == carry * p + vo);
            assert((d * p + vs) * unit == (t / 10) * (p * 10) + ((t % 10) * p + vo))
                by (nonlinear_arith)
                requires
                    vs * unit == carry * p + vo,
                    t == d * unit + carry,
            ;
            assert forall|j: int| 0 <= j < out@.len() implies text::is_digit(#[trigger] out@[j]) by {
                if j != at {
                    assert(text::is_digit(before[j]));
                }
            }
        }
        carry = t / 10;
        i = at;
    }
    proof {
        assert(s@.skip(0) =~= s@);
        assert(out@.skip(0) =~= out@);
    }
    (carry, out)
}

/// Whether a fraction of the given digits, with an even or odd number in front
/// of it, rounds up.
fn rounds_up(s: &[char], odd: bool) -> (r: bool)
    requires
        text::all_digits(s@),
        s@.len() > 0,
    ensures
        r == (2 * text::digits_value(s@) > pow(10, s@.len()) || (2 * text::digits_value(s@) == pow(
            10,
            s@.len(),
        ) && odd)),
{
    let rest: &[char] = slice_subrange(s, 1, s.len());
    let exact: bool;
    proof {
        assert(rest@ =~= s@.skip(1));
        assert forall|j: int| 0 <= j < rest@.len() implies text::is_digit(#[trigger] rest@[j]) by {
            assert(text::is_digit(s@[j + 1]));
        }
        assert(text::is_digit(s@[0]));
        lemma_value_bound(rest@);
        lemma_value_split(s@, 1);
        lemma_one_digit(s@.take(1));
        let p = pow(10, rest@.len());
        lemma_pow1(10);
        lemma_pow_adds(10, rest@.len(), 1);
        assert(pow(10, s@.len()) == p * 10);
        let d = (s@[0] as u32) - ('0' as u32);
        assert(text::digits_value(s@.take(1)) == d);
        lemma_pow_positive(10, rest@.len());
        assert(d >= 6 ==> d * p >= 6 * p) by (nonlinear_arith)
            requires
                p > 0,
        ;
        assert(d <= 4 ==> d * p <= 4 * p) by (nonlinear_arith)
            requires
                p > 0,
        ;
        assert(d == 5 ==> d * p == 5 * p);
    }
    exact = is_zero(rest);
    s[0] > '5' || (s[0] == '5' && (!exact || odd))
}

proof fn lemma_thirty()
    ensures
        pow(10, 30) == 1_000_000_000_000_000_000_000_000_000_000,
{
    reveal(pow);
    reveal_with_fuel(pow, 31);
}

proof fn lemma_power_at_least(e: nat)
    requires
        e >= 30,
    ensures
        pow(10, e) > MAX_NANOS,
{
    lemma_thirty();
    lemma_pow_increases(10, 30, e);
}

proof fn lemma_scaled_up(n: int, e: nat, f: nat)
    requires
        n >= 0,
        e <= f,
    ensures
        n * pow(10, e) <= n * pow(10, f),
{
    lemma_pow_increases(10, e, f);
    let p = pow(10, e);
    let q = pow(10, f);
    assert(n * p <= n * q) by (nonlinear_arith)
        requires
            n >= 0,
            p <= q,
    ;
}

/// An amount whose last digit counts nanoseconds or more.
fn large_nanos(a: &Amount, unit: u32, shift: i128, Ghost(d): Ghost<Decimal>) -> (r: Option<u128>)
    requires
        a.is_for(d),
        1 <= unit <= 3600,
        text::digits_value(d.digits) > 0,
        shift >= 0,
        shift == a.exponent + 9,
    ensures
        match r {
            Some(n) => n == nanos(text::digits_value(d.digits), d.exponent, unit as nat) && n
                <= MAX_NANOS,
            None => nanos(text::digits_value(d.digits), d.exponent, unit as nat) > MAX_NANOS,
        },
{
    let ghost v = text::digits_value(d.digits) as int;
    let ghost e = (d.exponent + 9) as nat;
    let ghost u = unit as int;
    proof {
        assert(d.exponent + 9 >= 0);
        assert(v * u >= v && v * u >= 1) by (nonlinear_arith)
            requires
                v >= 1,
                u >= 1,
        ;
        lemma_pow0(10);
        lemma_scaled_up(v * u, 0, e);
    }
    if shift > 40 {
        proof {
            lemma_power_at_least(e);
            let p = pow(10, e);
            let x = v * u;
            assert(x * p >= p) by (nonlinear_arith)
                requires
                    x >= 1,
                    p >= 0,
            ;
        }
        return None;
    }
    let whole: u128 = capped_value(&a.digits, MAX_NANOS);
    if whole > MAX_NANOS {
        return None;
    }
    proof {
        lemma_in_units(whole, unit);
    }
    let mut n: u128 = whole * (unit as u128);
    let mut k: i128 = 0;
    proof {
        assert(n == v * u);
        assert(pow(10, 0) == 1);
        assert(n == (v * u) * pow(10, 0)) by {
            let x = v * u;
            assert(x * 1 == x);
        }
    }
    while k < shift
        invariant
            0 <= k <= shift <= 40,
            e == shift,
            e == d.exponent + 9,
            v == text::digits_value(d.digits),
            u == unit,
            n == (v * u) * pow(10, k as nat),
            n <= 3600 * MAX_NANOS,
            v * u >= 1,
        decreases shift - k,
    {
        proof {
            lemma_pow1(10);
            lemma_pow_adds(10, k as nat, 1);
            assert(pow(10, (k + 1) as nat) == pow(10, k as nat) * 10);
            let x = v * u;
            let p = pow(10, k as nat);
            assert(x * (p * 10) == (x * p) * 10) by (nonlinear_arith);
            lemma_scaled_up(v * u, k as nat, e);
        }
        if n > MAX_NANOS {
            assert(nanos(v as nat, d.exponent, unit as nat) > MAX_NANOS);
            return None;
        }
        n = n * 10;
        k = k + 1;
    }
    if n > MAX_NANOS {
        None
    } else {
        Some(n)
    }
}

proof fn lemma_quotient(n: int, m: int, q: int, r: int)
    requires
        m > 0,
        0 <= r < m,
        n == q * m + r,
    ensures
        n / m == q,
        n % m == r,
{
    vstd::arithmetic::div_mod::lemma_fundamental_div_mod_converse(n, m, q, r);
}

/// An amount whose last digit counts less than a nanosecond.
fn small_nanos(a: &Amount, unit: u32, shift: i128, Ghost(d): Ghost<Decimal>) -> (r: Option<u128>)
    requires
        a.is_for(d),
        1 <= unit <= 3600,
        text::digits_value(d.digits) > 0,
        shift < 0,
        shift == a.exponent + 9,
    ensures
        match r {
            Some(n) => n == nanos(text::digits_value(d.digits), d.exponent, unit as nat) && n
                <= MAX_NANOS,
            None => nanos(text::digits_value(d.digits), d.exponent, unit as nat) > MAX_NANOS,
        },
{
    let ghost v = text::digits_value(d.digits) as int;
    let ghost u = unit as int;
    let ghost e = (-(d.exponent + 9)) as nat;
    let ghost m = pow(10, e);
    let len: usize = a.digits.len();
    proof {
        lemma_value_bound(d.digits);
        lemma_pow_positive(10, e);
        assert(d.exponent + 9 < 0);
    }
    if shift < -(len as i128) - 5 {
        proof {
            let l = len as nat;
            lemma_pow_increases(10, l + 5, e);
            lemma_pow_adds(10, l, 5);
            assert(pow(10, 5) == 100_000) by {
                reveal(pow);
                reveal_with_fuel(pow, 6);
            }
            let p = pow(10, l);
            assert(2 * (v * u) < p * 100_000) by (nonlinear_arith)
                requires
                    0 <= v < p,
                    1 <= u <= 3600,
            ;
            assert(v * u >= 0) by (nonlinear_arith)
                requires
                    v >= 0,
                    u >= 0,
            ;
            lemma_quotient(v * u, m, 0, v * u);
        }
        return Some(0);
    }
    let mut front: Vec<char> = Vec::new();
    let mut back: Vec<char> = Vec::new();
    if -shift <= len as i128 {
        let at: usize = len - ((-shift) as usize);
        front = text::copy_chars(slice_subrange(&a.digits, 0, at));
        back = text::copy_chars(slice_subrange(&a.digits, at, len));
        proof {
            assert(front@ =~= d.digits.take(at as int));
            assert(back@ =~= d.digits.skip(at as int));
            lemma_value_split(d.digits, at as int);
        }
    } else {
        let pad: usize = (-shift - (len as i128)) as usize;
        let mut i: usize = 0;
        while i < pad
            invariant
                i <= pad <= 5,
                back@.len() == i,
                forall|j: int| 0 <= j < i ==> #[trigger] back@[j] == '0',
            decreases pad - i,
        {
            back.push('0');
            i = i + 1;
        }
        let mut tail: Vec<char> = text::copy_chars(&a.digits);
        back.append(&mut tail);
        proof {
            lemma_value_split(back@, pad as int);
            lemma_zeros(back@.take(pad as int));
            assert(back@.skip(pad as int) =~= d.digits);
            let p = pow(10, (back@.len() - pad) as nat);
            lemma_nothing(p);
            lemma_nothing(m);
        }
    }
    proof {
        assert(back@.len() == e);
        assert(v == text::digits_value(front@) * m + text::digits_value(back@));
        assert forall|j: int| 0 <= j < front@.len() implies text::is_digit(#[trigger] front@[j]) by {
            assert(text::is_digit(d.digits[j]));
        }
        assert forall|j: int| 0 <= j < back@.len() implies text::is_digit(#[trigger] back@[j]) by {
            if front@.len() > 0 {
                assert(text::is_digit(d.digits[j + front@.len()]));
            } else if j >= back@.len() - d.digits.len() {
                assert(text::is_digit(d.digits[j - (back@.len() - d.digits.len())]));
            }
        }
    }
    let whole: u128 = capped_value(&front, MAX_NANOS);
    let (carry, rest): (u32, Vec<char>) = scale(&back, unit);
    let ghost w = text::digits_value(front@) as int;
    let ghost left = text::digits_value(rest@) as int;
    proof {
        lemma_value_bound(rest@);
        let b = text::digits_value(back@) as int;
        let c = carry as int;
        assert((w * m + b) * u == (w * u + c) * m + left) by (nonlinear_arith)
            requires
                b * u == c * m + left,
        ;
        lemma_quotient(v * u, m, w * u + c, left);
        assert(w * u >= w) by (nonlinear_arith)
            requires
                w >= 0,
                u >= 1,
        ;
    }
    if whole > MAX_NANOS {
        return None;
    }
    proof {
        lemma_in_units(whole, unit);
    }
    let q: u128 = whole * (unit as u128) + (carry as u128);
    assert(q == w * u + carry);
    let n: u128 = if rounds_up(&rest, q % 2 == 1) {
        q + 1
    } else {
        q
    };
    if n > MAX_NANOS {
        None
    } else {
        Some(n)
    }
}

/// The nanoseconds in an amount of units, unless they are more than a duration
/// holds.
fn whole_nanos(a: &Amount, unit: u32, Ghost(d): Ghost<Decimal>) -> (r: Option<u128>)
    requires
        a.is_for(d),
        1 <= unit <= 3600,
    ensures
        match r {
            Some(n) => n == nanos(text::digits_value(d.digits), d.exponent, unit as nat) && n
                <= MAX_NANOS,
            None => nanos(text::digits_value(d.digits), d.exponent, unit as nat) > MAX_NANOS,
        },
{
    let ghost v = text::digits_value(d.digits);
    if is_zero(&a.digits) {
        proof {
            assert(v * (unit as nat) == 0) by (nonlinear_arith)
                requires
                    v == 0,
            ;
            if d.exponent + 9 >= 0 {
                assert(0 * pow(10, (d.exponent + 9) as nat) == 0);
            } else {
                let m = pow(10, (-(d.exponent + 9)) as nat);
                lemma_pow_positive(10, (-(d.exponent + 9)) as nat);
                assert(0int / m == 0 && 0int % m == 0) by (nonlinear_arith)
                    requires
                        m > 0,
                ;
            }
        }
        return Some(0);
    }
    let shift: i128 = a.exponent + 9;
    if shift >= 0 {
        large_nanos(a, unit, shift, Ghost(d))
    } else {
        small_nanos(a, unit, shift, Ghost(d))
    }
}

/// A length of time as it was written.
#[derive(Debug, Clone, Copy, PartialEq, Eq, Structural)]
pub enum Span {
    Negative,
    Zero,
    /// This many nanoseconds, more than no time at all: what rounds to zero
    /// nanoseconds is still a positive time.
    Nanos(u128),
    /// More than a duration holds.
    TooLong,
    /// No length at all: not a number.
    Undefined,
}

/// The length of time that a number of units is.
pub open spec fn span_of(d: Decimal, unit: nat) -> Span {
    let v = text::digits_value(d.digits);
    if v == 0 {
        Span::Zero
    } else if d.negative {
        Span::Negative
    } else if nanos(v, d.exponent, unit) > MAX_NANOS {
        Span::TooLong
    } else {
        Span::Nanos(nanos(v, d.exponent, unit) as u128)
    }
}

fn span(a: &Amount, unit: u32, Ghost(d): Ghost<Decimal>) -> (r: Span)
    requires
        a.is_for(d),
        1 <= unit <= 3600,
    ensures
        r == span_of(d, unit as nat),
        r matches Span::Nanos(n) ==> n <= MAX_NANOS,
{
    if is_zero(&a.digits) {
        Span::Zero
    } else if a.negative {
        Span::Negative
    } else {
        match whole_nanos(a, unit, Ghost(d)) {
            Some(n) => Span::Nanos(n),
            None => Span::TooLong,
        }
    }
}

/// The length of time that a number of units is, where it may be infinite.
pub open spec fn numeral_span(n: Numeral, unit: nat) -> Span {
    match n {
        Numeral::Finite(d) => span_of(d, unit),
        Numeral::Infinite { negative } => if negative {
            Span::Negative
        } else {
            Span::TooLong
        },
        Numeral::Undefined => Span::Undefined,
    }
}

/// The length of time that a number of seconds is.
pub open spec fn seconds_span(s: Seq<char>) -> Option<Span> {
    match decimal_number(s) {
        Some(d) => Some(span_of(d, 1)),
        None => None,
    }
}

/// The length of time that a text spells: a bare number of seconds, or a
/// number followed by `s`, `m` or `h`.
pub open spec fn duration_span(s: Seq<char>) -> Option<Span> {
    match duration(s) {
        Some((n, unit)) => Some(numeral_span(n, unit)),
        None => None,
    }
}

/// Reads a number of seconds.
pub fn parse_seconds(s: &[char]) -> (r: Option<Span>)
    ensures
        r == seconds_span(s@),
        r matches Some(Span::Nanos(n)) ==> n <= MAX_NANOS,
{
    match parse_decimal(s) {
        Some(a) => Some(span(&a, 1, Ghost(decimal_number(s@)->Some_0))),
        None => None,
    }
}

fn reads(s: &[char], word: &str) -> (r: bool)
    ensures
        r == (text::lowered(s@) == word@),
{
    let low: Vec<char> = text::lower_chars(s);
    let w: Vec<char> = text::to_chars(word);
    text::same_chars(&low, &w)
}

/// Reads a number of units of `unit` seconds, which may be infinite.
fn parse_units(s: &[char], unit: u32) -> (r: Option<Span>)
    requires
        1 <= unit <= 3600,
    ensures
        r == (match numeral(s@) {
            Some(n) => Some(numeral_span(n, unit as nat)),
            None => None,
        }),
        r matches Some(Span::Nanos(n)) ==> n <= MAX_NANOS,
{
    let b: &[char] = after_sign(s);
    if reads(b, "inf") || reads(b, "infinity") {
        return Some(
            if s.len() > 0 && s[0] == '-' {
                Span::Negative
            } else {
                Span::TooLong
            },
        );
    }
    if reads(b, "nan") {
        return Some(Span::Undefined);
    }
    match parse_decimal(s) {
        Some(a) => Some(span(&a, unit, Ghost(decimal_number(s@)->Some_0))),
        None => None,
    }
}

/// `"300"` is 300 seconds, `"5m"` as much, `"1.5h"` 5400 seconds. `None` for
/// anything that is not a bare number optionally followed by one of `s`, `m`
/// and `h`. Infinity and "not a number" can be spelled out.
pub fn parse_duration_string(s: &str) -> (r: Option<Span>)
    ensures
        r == duration_span(s@),
        r matches Some(Span::Nanos(n)) ==> n <= MAX_NANOS,
{
    let c: Vec<char> = text::to_chars(s);
    let t: &[char] = text::trim(&c);
    match parse_units(t, 1) {
        Some(x) => {
            return Some(x);
        },
        None => {},
    }
    if t.len() == 0 {
        return None;
    }
    let number: &[char] = slice_subrange(t, 0, t.len() - 1);
    assert(number@ =~= t@.drop_last());
    let last: char = t[t.len() - 1];
    let unit: u32 = if last == 's' {
        1
    } else if last == 'm' {
        60
    } else if last == 'h' {
        3600
    } else {
        return None;
    };
    parse_units(number, unit)
}

/// A number of digits is read as it stands: no sign, no point, no exponent.
proof fn lemma_digits_are_a_number(s: Seq<char>)
    requires
        0 < s.len(),
        text::all_digits(s),
    ensures
        decimal_number(s) == Some(Decimal { negative: false, digits: s, exponent: 0 }),
        numeral(s) == Some(Numeral::Finite(Decimal { negative: false, digits: s, exponent: 0 })),
{
    assert(text::is_digit(s[0]));
    let low = text::lowered(s);
    assert forall|i: int| 0 <= i < low.len() implies low[i] != 'e' by {
        assert(text::is_digit(s[i]));
        assert(low[i] == text::lower(s[i]));
    }
    text::lemma_index_of_is(low, 'e', low.len() as int);
    assert(s.take(s.len() as int) =~= s);
    assert forall|i: int| 0 <= i < s.len() implies s[i] != '.' by {
        assert(text::is_digit(s[i]));
    }
    text::lemma_index_of_is(s, '.', s.len() as int);
    reveal_strlit("inf");
    reveal_strlit("infinity");
    reveal_strlit("nan");
    assert(low[0] == text::lower(s[0]));
    assert("inf"@[0] == 'i' && "infinity"@[0] == 'i' && "nan"@[0] == 'n');
}

/// A number with a letter behind it is no number.
proof fn lemma_lettered_is_no_number(s: Seq<char>, c: char)
    requires
        0 < s.len(),
        text::all_digits(s),
        c == 's' || c == 'm' || c == 'h',
    ensures
        numeral(s.push(c)) is None,
{
    let t = s.push(c);
    assert(text::is_digit(s[0]));
    assert(t[0] == s[0]);
    let low = text::lowered(t);
    assert forall|i: int| 0 <= i < low.len() implies low[i] != 'e' by {
        if i < s.len() {
            assert(text::is_digit(s[i]));
        }
        assert(low[i] == text::lower(t[i]));
    }
    text::lemma_index_of_is(low, 'e', low.len() as int);
    assert(t.take(t.len() as int) =~= t);
    assert forall|i: int| 0 <= i < t.len() implies t[i] != '.' by {
        if i < s.len() {
            assert(text::is_digit(s[i]));
        }
    }
    text::lemma_index_of_is(t, '.', t.len() as int);
    assert(!text::is_digit(t[s.len() as int]));
    reveal_strlit("inf");
    reveal_strlit("infinity");
    reveal_strlit("nan");
    assert(low[0] == text::lower(t[0]));
    assert("inf"@[0] == 'i' && "infinity"@[0] == 'i' && "nan"@[0] == 'n');
}

/// A bare number is seconds; `s`, `m` and `h` behind it make it seconds, minutes
/// and hours. Zero is no time, and a time that a duration cannot hold is too
/// long.
pub proof fn law_a_letter_names_the_unit(s: Seq<char>)
    requires
        0 < s.len(),
        text::all_digits(s),
    ensures
        ({
            let v = text::digits_value(s) as int;
            let span = |unit: int|
                if v == 0 {
                    Span::Zero
                } else if v * unit * 1_000_000_000 > MAX_NANOS {
                    Span::TooLong
                } else {
                    Span::Nanos((v * unit * 1_000_000_000) as u128)
                };
            &&& duration_span(s) == Some(span(1))
            &&& seconds_span(s) == Some(span(1))
            &&& duration_span(s.push('s')) == Some(span(1))
            &&& duration_span(s.push('m')) == Some(span(60))
            &&& duration_span(s.push('h')) == Some(span(3600))
        }),
{
    lemma_digits_are_a_number(s);
    assert(text::is_digit(s[0]));
    assert(text::is_digit(s[s.len() - 1]));
    assert(text::trimmed_start(s) == s);
    assert(text::trimmed_end(s) == s);
    let v = text::digits_value(s);
    assert(pow(10, 9) == 1_000_000_000) by {
        reveal(pow);
        reveal_with_fuel(pow, 10);
    }
    assert forall|c: char| c == 's' || c == 'm' || c == 'h' implies text::trimmed(
        #[trigger] s.push(c),
    ) == s.push(c) by {
        let t = s.push(c);
        assert(t[0] == s[0]);
        assert(text::trimmed_start(t) == t);
        assert(text::trimmed_end(t) == t);
    }
    lemma_lettered_is_no_number(s, 's');
    lemma_lettered_is_no_number(s, 'm');
    lemma_lettered_is_no_number(s, 'h');
    assert(s.push('s').drop_last() =~= s);
    assert(s.push('m').drop_last() =~= s);
    assert(s.push('h').drop_last() =~= s);
}

/// A minus makes a time negative, whatever its unit; no time has no sign.
pub proof fn law_a_minus_makes_a_time_negative(d: Decimal, unit: nat)
    ensures
        d.negative && text::digits_value(d.digits) > 0 ==> span_of(d, unit) is Negative,
        text::digits_value(d.digits) == 0 ==> span_of(d, unit) is Zero,
        !d.negative ==> !(span_of(d, unit) is Negative),
{
}

/// The digits behind a point are tenths, hundredths and so on; a sign in front
/// makes a number negative or changes nothing.
pub proof fn law_a_point_parts_the_fraction(whole: Seq<char>, fraction: Seq<char>)
    requires
        text::all_digits(whole),
        text::all_digits(fraction),
        whole.len() + fraction.len() > 0,
    ensures
        ({
            let s = whole + seq!['.'] + fraction;
            let d = whole + fraction;
            let e = -(fraction.len() as int);
            &&& decimal_number(s) == Some(Decimal { negative: false, digits: d, exponent: e })
            &&& decimal_number(seq!['-'] + s) == Some(
                Decimal { negative: true, digits: d, exponent: e },
            )
            &&& decimal_number(seq!['+'] + s) == Some(
                Decimal { negative: false, digits: d, exponent: e },
            )
        }),
{
    let s = whole + seq!['.'] + fraction;
    let n = whole.len() as int;
    let low = text::lowered(s);
    assert forall|i: int| 0 <= i < s.len() implies s[i] == '.' || text::is_digit(s[i]) by {
        if i < n {
            assert(text::is_digit(whole[i]));
        } else if i > n {
            assert(text::is_digit(fraction[i - n - 1]));
            assert(s[i] == fraction[i - n - 1]);
        }
    }
    assert forall|i: int| 0 <= i < low.len() implies low[i] != 'e' by {
        assert(low[i] == text::lower(s[i]));
        assert(s[i] == '.' || text::is_digit(s[i]));
    }
    text::lemma_index_of_is(low, 'e', low.len() as int);
    assert forall|i: int| 0 <= i < n implies s[i] != '.' by {
        assert(text::is_digit(whole[i]));
        assert(s[i] == whole[i]);
    }
    text::lemma_index_of_is(s, '.', n);
    assert(s.take(s.len() as int) =~= s);
    assert(s.take(n) + s.skip(n + 1) =~= whole + fraction);
    let d = whole + fraction;
    assert forall|i: int| 0 <= i < d.len() implies text::is_digit(#[trigger] d[i]) by {
        if i < n {
            assert(text::is_digit(whole[i]));
        } else {
            assert(text::is_digit(fraction[i - n]));
        }
    }
    assert(s[0] == '.' || text::is_digit(s[0]));
    assert((seq!['-'] + s).skip(1) =~= s);
    assert((seq!['+'] + s).skip(1) =~= s);
}

/// A time is exact to the nanosecond, and where its number has more decimals it
/// is the nearest one.
pub proof fn law_a_time_is_exact_to_the_nanosecond(value: nat, exponent: int, unit: nat)
    ensures
        exponent >= -9 ==> nanos(value, exponent, unit) == value * unit * pow(
            10,
            (exponent + 9) as nat,
        ),
        exponent < -9 ==> {
            let m = pow(10, (-(exponent + 9)) as nat);
            let n = nanos(value, exponent, unit);
            &&& 2 * (n * m - value * unit) <= m
            &&& 2 * (value * unit - n * m) <= m
        },
{
    if exponent < -9 {
        let m = pow(10, (-(exponent + 9)) as nat);
        vstd::arithmetic::power::lemma_pow_positive(10, (-(exponent + 9)) as nat);
        let v = (value * unit) as int;
        vstd::arithmetic::div_mod::lemma_fundamental_div_mod(v, m);
        vstd::arithmetic::div_mod::lemma_mod_bound(v, m);
        let q = v / m;
        assert((q + 1) * m == m * q + m) by (nonlinear_arith);
        assert(q * m == m * q) by (nonlinear_arith);
    }
}

/// A number of units is that many times its unit; what is more than a duration
/// holds is too long.
pub proof fn law_a_time_is_its_number_of_units(d: Decimal, unit: nat)
    requires
        !d.negative,
        text::digits_value(d.digits) > 0,
    ensures
        ({
            let n = nanos(text::digits_value(d.digits), d.exponent, unit);
            if n > 18_446_744_073_709_551_615_999_999_999 {
                span_of(d, unit) is TooLong
            } else {
                span_of(d, unit) matches Span::Nanos(k) && k == n
            }
        }),
{
    let v = text::digits_value(d.digits);
    let w = (v * unit) as int;
    assert(w >= 0) by (nonlinear_arith)
        requires
            w == v * unit,
    ;
    if d.exponent + 9 >= 0 {
        let m = pow(10, (d.exponent + 9) as nat);
        vstd::arithmetic::power::lemma_pow_positive(10, (d.exponent + 9) as nat);
        assert(w * m >= 0) by (nonlinear_arith)
            requires
                w >= 0,
                m > 0,
        ;
    } else {
        let m = pow(10, (-(d.exponent + 9)) as nat);
        vstd::arithmetic::power::lemma_pow_positive(10, (-(d.exponent + 9)) as nat);
        vstd::arithmetic::div_mod::lemma_div_pos_is_pos(w, m);
    }
}

} // verus!
