//! Lloyd-Max codebooks: the levels that a value is replaced by.
//!
//! Values are in millionths. The levels are optimal for the standard normal
//! distribution, which the coordinates follow once a vector is rotated.
use vstd::prelude::*;

verus! {

/// The levels of 3-bit quantization. The last holds the upper tail.
pub const CODEBOOK_3BIT: [i64; 8] = [
    -1_748_021,
    -1_050_046,
    -500_151,
    0,
    500_151,
    1_050_046,
    1_748_021,
    2_400_000,
];

/// The levels of 4-bit quantization. The last holds the upper tail.
pub const CODEBOOK_4BIT: [i64; 16] = [
    -2_401_832,
    -1_844_036,
    -1_437_080,
    -1_099_270,
    -795_520,
    -509_748,
    -232_709,
    0,
    232_709,
    509_748,
    795_520,
    1_099_270,
    1_437_080,
    1_844_036,
    2_401_832,
    3_000_000,
];

/// The levels rise.
pub open spec fn rising(c: Seq<i64>) -> bool {
    forall|i: int, j: int| 0 <= i < j < c.len() ==> c[i] < c[j]
}

/// The thresholds between neighbouring levels, doubled: the sums of the two.
pub open spec fn thresholds(c: Seq<i64>) -> Seq<int> {
    Seq::new((c.len() - 1) as nat, |i: int| c[i] + c[i + 1])
}

pub open spec fn distance(x: int, y: int) -> int {
    if x < y {
        y - x
    } else {
        x - y
    }
}

/// `r` is the level next to `x`; between two that are as near, the lower.
pub open spec fn nearest(c: Seq<i64>, x: int, r: i64) -> bool {
    &&& c.contains(r)
    &&& forall|i: int|
        0 <= i < c.len() ==> distance(x, r as int) <= distance(x, #[trigger] c[i] as int)
    &&& forall|i: int|
        0 <= i < c.len() && distance(x, r as int) == distance(x, #[trigger] c[i] as int) ==> r
            <= c[i]
}

/// Levels small enough that two of them add up.
pub open spec fn small(c: Seq<i64>) -> bool {
    forall|i: int| 0 <= i < c.len() ==> -100_000_000 < #[trigger] c[i] < 100_000_000
}

fn quantize(c: &[i64], x: i64) -> (r: i64)
    requires
        c@.len() > 0,
        rising(c@),
        small(c@),
    ensures
        nearest(c@, x as int, r),
{
    let mut i: usize = 0;
    while i < c.len() - 1 && 2 * (x as i128) > (c[i] as i128) + (c[i + 1] as i128)
        invariant
            i < c@.len(),
            small(c@),
            forall|j: int| 0 <= j < i ==> 2 * x > #[trigger] c@[j] + c@[j + 1],
        decreases c.len() - i,
    {
        i = i + 1;
    }
    let r: i64 = c[i];
    assert(c@[i as int] == r);
    assert forall|k: int| 0 <= k < c@.len() && k != i implies {
        &&& distance(x as int, r as int) <= distance(x as int, #[trigger] c@[k] as int)
        &&& (distance(x as int, r as int) == distance(x as int, c@[k] as int) ==> r <= c@[k])
    } by {
        if k < i {
            assert(2 * x > c@[i - 1] + c@[i - 1 + 1]);
            assert(k < i - 1 ==> c@[k] < c@[i - 1]);
            assert(c@[k] < c@[i as int]);
        } else {
            assert(k > i + 1 ==> c@[i + 1] < c@[k]);
            assert(c@[i as int] < c@[k]);
        }
    }
    r
}

/// The 3-bit levels rise.
pub proof fn law_3bit_levels_rise()
    ensures
        rising(CODEBOOK_3BIT@),
        small(CODEBOOK_3BIT@),
{
}

/// The 4-bit levels rise.
pub proof fn law_4bit_levels_rise()
    ensures
        rising(CODEBOOK_4BIT@),
        small(CODEBOOK_4BIT@),
{
}

/// The 3-bit level next to a value in millionths.
pub fn quantize_scalar_3bit(x: i64) -> (r: i64)
    ensures
        nearest(CODEBOOK_3BIT@, x as int, r),
{
    proof {
        law_3bit_levels_rise();
    }
    let c: [i64; 8] = CODEBOOK_3BIT;
    quantize(&c, x)
}

/// The 4-bit level next to a value in millionths.
pub fn quantize_scalar_4bit(x: i64) -> (r: i64)
    ensures
        nearest(CODEBOOK_4BIT@, x as int, r),
{
    proof {
        law_4bit_levels_rise();
    }
    let c: [i64; 16] = CODEBOOK_4BIT;
    quantize(&c, x)
}

fn between(c: &[i64]) -> (r: Vec<i64>)
    requires
        c@.len() > 0,
        small(c@),
    ensures
        r@.len() == c@.len() - 1,
        forall|i: int| 0 <= i < r@.len() ==> #[trigger] r@[i] == thresholds(c@)[i],
{
    let mut r: Vec<i64> = Vec::new();
    let mut i: usize = 0;
    while i < c.len() - 1
        invariant
            i < c@.len(),
            small(c@),
            r@.len() == i,
            forall|j: int| 0 <= j < i ==> #[trigger] r@[j] == thresholds(c@)[j],
        decreases c.len() - i,
    {
        assert(-100_000_000 < c@[i as int] < 100_000_000);
        assert(-100_000_000 < c@[i + 1] < 100_000_000);
        r.push(c[i] + c[i + 1]);
        i = i + 1;
    }
    r
}

/// The thresholds of the 3-bit quantizer, doubled: a value belongs to the level
/// above where twice the value exceeds the threshold.
pub fn boundaries_3bit() -> (r: Vec<i64>)
    ensures
        r@.len() == 7,
        forall|i: int| 0 <= i < 7 ==> #[trigger] r@[i] == thresholds(CODEBOOK_3BIT@)[i],
{
    proof {
        law_3bit_levels_rise();
    }
    let c: [i64; 8] = CODEBOOK_3BIT;
    between(&c)
}

/// The thresholds of the 4-bit quantizer, doubled.
pub fn boundaries_4bit() -> (r: Vec<i64>)
    ensures
        r@.len() == 15,
        forall|i: int| 0 <= i < 15 ==> #[trigger] r@[i] == thresholds(CODEBOOK_4BIT@)[i],
{
    proof {
        law_4bit_levels_rise();
    }
    let c: [i64; 16] = CODEBOOK_4BIT;
    between(&c)
}

/// Each threshold lies between its two levels.
pub proof fn law_thresholds_lie_between_levels(c: Seq<i64>, i: int)
    requires
        rising(c),
        0 <= i < c.len() - 1,
    ensures
        2 * c[i] < thresholds(c)[i] < 2 * c[i + 1],
{
}

/// Quantizing a level gives it back, and so quantizing twice is quantizing once.
pub proof fn law_levels_are_kept(c: Seq<i64>, level: i64, r: i64)
    requires
        c.contains(level),
        nearest(c, level as int, r),
    ensures
        r == level,
{
    let i = choose|i: int| 0 <= i < c.len() && c[i] == level;
    assert(distance(level as int, r as int) <= distance(level as int, c[i] as int));
}

/// No level is idle: each is next to some value.
pub proof fn law_every_level_is_reached(c: Seq<i64>, i: int)
    requires
        rising(c),
        0 <= i < c.len(),
    ensures
        nearest(c, c[i] as int, c[i]),
{
    assert(c.contains(c[i]));
    assert forall|k: int| 0 <= k < c.len() implies distance(c[i] as int, c[i] as int) <= distance(
        c[i] as int,
        #[trigger] c[k] as int,
    ) by {}
}

/// There is one nearest level.
pub proof fn law_the_nearest_level_is_one(c: Seq<i64>, x: int, a: i64, b: i64)
    requires
        nearest(c, x, a),
        nearest(c, x, b),
    ensures
        a == b,
{
    let i = choose|i: int| 0 <= i < c.len() && c[i] == a;
    let j = choose|j: int| 0 <= j < c.len() && c[j] == b;
    assert(distance(x, a as int) <= distance(x, c[j] as int));
    assert(distance(x, b as int) <= distance(x, c[i] as int));
}

/// The nearest level is one of the levels, no other is nearer, and of two that
/// are as near it is the lower.
pub proof fn law_no_level_is_nearer(c: Seq<i64>, x: int, r: i64, i: int)
    requires
        nearest(c, x, r),
        0 <= i < c.len(),
    ensures
        c.contains(r),
        (x - r) * (x - r) <= (x - c[i]) * (x - c[i]),
        x - r == c[i] - x ==> r <= c[i],
{
    let (a, b) = (distance(x, r as int), distance(x, c[i] as int));
    assert(a <= b);
    assert(a * a <= b * b) by (nonlinear_arith)
        requires
            0 <= a <= b,
    ;
    assert((x - r) * (x - r) == a * a) by (nonlinear_arith)
        requires
            a == x - r || a == r - x,
    ;
    assert((x - c[i]) * (x - c[i]) == b * b) by (nonlinear_arith)
        requires
            b == x - c[i] || b == c[i] - x,
    ;
}

} // verus!
