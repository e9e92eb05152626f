//! Which samplers a request asks for, and in which order.
use crate::inference::{GenerateRequest, Single};
use vstd::prelude::*;

verus! {

/// One stage of a sampling chain.
#[derive(Debug, Clone, Copy, PartialEq, Eq, Structural)]
pub enum Stage {
    Grammar,
    Penalties { last_n: i32, repeat: Single },
    TopK { k: i32 },
    TopP { p: Single },
    MinP { p: Single },
    Temperature { t: Single },
    /// Draws the token.
    Dist { seed: u32 },
}

/// The stages that a request's filters call for.
pub open spec fn filter_stages(r: GenerateRequest) -> Seq<Stage> {
    (if r.repeat_penalty.one() {
        seq![]
    } else {
        seq![Stage::Penalties { last_n: r.repeat_last_n, repeat: r.repeat_penalty }]
    }) + (if r.top_k > 0 {
        seq![Stage::TopK { k: r.top_k }]
    } else {
        seq![]
    }) + (if r.top_p.below_one() {
        seq![Stage::TopP { p: r.top_p }]
    } else {
        seq![]
    }) + (if r.min_p.above_zero() {
        seq![Stage::MinP { p: r.min_p }]
    } else {
        seq![]
    })
}

/// The chain of a request: grammar, penalties, top-k, top-p, min-p, temperature,
/// and the draw at the end.
pub open spec fn chain(r: GenerateRequest, grammar_usable: bool, seed: u32) -> Seq<Stage> {
    (if r.grammar is Some && grammar_usable {
        seq![Stage::Grammar]
    } else {
        seq![]
    }) + filter_stages(r) + seq![Stage::Temperature { t: r.temperature }, Stage::Dist { seed }]
}

/// Build the sampler chain for one request. A grammar that could not be compiled
/// is left out.
pub fn build_sampler(request: &GenerateRequest, grammar_usable: bool, seed: u32) -> (r: Vec<Stage>)
    ensures
        r@ == chain(*request, grammar_usable, seed),
{
    let mut r: Vec<Stage> = Vec::new();
    if request.grammar.is_some() && grammar_usable {
        r.push(Stage::Grammar);
    }
    if !request.repeat_penalty.is_one() {
        r.push(
            Stage::Penalties { last_n: request.repeat_last_n, repeat: request.repeat_penalty },
        );
    }
    if request.top_k > 0 {
        r.push(Stage::TopK { k: request.top_k });
    }
    if request.top_p.is_below_one() {
        r.push(Stage::TopP { p: request.top_p });
    }
    if request.min_p.is_above_zero() {
        r.push(Stage::MinP { p: request.min_p });
    }
    r.push(Stage::Temperature { t: request.temperature });
    r.push(Stage::Dist { seed });
    assert(r@ =~= chain(*request, grammar_usable, seed));
    r
}

/// The grammar, where there is one, leads the chain, and the draw of the token
/// closes it.
pub proof fn law_grammar_leads_and_the_draw_closes(r: GenerateRequest, usable: bool, seed: u32)
    ensures
        chain(r, usable, seed).last() == (Stage::Dist { seed }),
        r.grammar is Some && usable ==> chain(r, usable, seed)[0] == Stage::Grammar,
        forall|i: int|
            0 < i < chain(r, usable, seed).len() ==> #[trigger] chain(r, usable, seed)[i]
                != Stage::Grammar,
{
}

/// A reading of the system clock.
#[verifier::external_type_specification]
#[verifier::external_body]
pub struct ExSystemTime(std::time::SystemTime);

/// `SystemTime::now` of the standard library. Nothing is claimed of it: the
/// reading is the clock's matter.
#[verifier::external_body]
fn system_now() -> (r: std::time::SystemTime)
{
    std::time::SystemTime::now()
}

/// `SystemTime::duration_since` of the standard library, counted from the Unix
/// epoch; none where the clock is before it. Nothing is claimed of the length.
#[verifier::external_body]
fn since_epoch(t: std::time::SystemTime) -> (r: Option<std::time::Duration>)
{
    t.duration_since(std::time::UNIX_EPOCH).ok()
}

/// `Duration::subsec_nanos` of the standard library. Claimed of it: the
/// nanoseconds within a second are below one billion.
#[verifier::external_body]
fn subsec_nanos(d: std::time::Duration) -> (r: u32)
    ensures
        r < 1_000_000_000,
{
    d.subsec_nanos()
}

/// The nanoseconds of the system clock's current second, where the clock is not
/// before the Unix epoch.
fn clock_nanos() -> (r: Option<u32>)
    ensures
        r matches Some(n) ==> n < 1_000_000_000,
{
    match since_epoch(system_now()) {
        Some(d) => Some(subsec_nanos(d)),
        None => None,
    }
}

/// The seed that a clock reading gives.
pub fn seed_from_clock(clock: Option<u32>, fallback: u32) -> (r: u32)
    ensures
        r == (match clock {
            Some(n) => n,
            None => fallback,
        }),
{
    match clock {
        Some(n) => n,
        None => fallback,
    }
}

/// Sampling seed to use when the client doesn't specify one: fresh for each
/// request. `fallback` is only used in the practically-impossible case the
/// system clock predates the Unix epoch.
pub fn random_seed_fallback(fallback: u32) -> (r: u32)
    ensures
        r < 1_000_000_000 || r == fallback,
{
    seed_from_clock(clock_nanos(), fallback)
}

/// The seed of a request: its own, or else a fresh one.
pub fn request_seed(request: &GenerateRequest, fallback: u32) -> (r: u32)
    ensures
        request.seed matches Some(s) ==> r == s,
        request.seed is None ==> r < 1_000_000_000 || r == fallback,
{
    match request.seed {
        Some(s) => s,
        None => random_seed_fallback(fallback),
    }
}

/// The place of a stage in every chain.
pub open spec fn place(s: Stage) -> int {
    match s {
        Stage::Grammar => 0,
        Stage::Penalties { .. } => 1,
        Stage::TopK { .. } => 2,
        Stage::TopP { .. } => 3,
        Stage::MinP { .. } => 4,
        Stage::Temperature { .. } => 5,
        Stage::Dist { .. } => 6,
    }
}

/// A chain holds the stages that its request calls for, each with the request's
/// own values, and no others: a penalty other than one, a positive top-k, a top-p
/// below one, a positive min-p, and always the temperature and the draw.
pub proof fn law_a_chain_holds_what_its_request_calls_for(
    r: GenerateRequest,
    usable: bool,
    seed: u32,
    s: Stage,
)
    ensures
        chain(r, usable, seed).contains(s) <==> match s {
            Stage::Grammar => r.grammar is Some && usable,
            Stage::Penalties { last_n, repeat } => r.repeat_penalty.bits != 0x3F80_0000 && last_n
                == r.repeat_last_n && repeat == r.repeat_penalty,
            Stage::TopK { k } => r.top_k > 0 && k == r.top_k,
            Stage::TopP { p } => (r.top_p.bits < 0x3F80_0000 || 0x8000_0000 <= r.top_p.bits
                <= 0xFF80_0000) && p == r.top_p,
            Stage::MinP { p } => 0 < r.min_p.bits <= 0x7F80_0000 && p == r.min_p,
            Stage::Temperature { t } => t == r.temperature,
            Stage::Dist { seed: d } => d == seed,
        },
{
    let g = if r.grammar is Some && usable {
        seq![Stage::Grammar]
    } else {
        seq![]
    };
    let a = if r.repeat_penalty.one() {
        seq![]
    } else {
        seq![Stage::Penalties { last_n: r.repeat_last_n, repeat: r.repeat_penalty }]
    };
    let b = if r.top_k > 0 {
        seq![Stage::TopK { k: r.top_k }]
    } else {
        seq![]
    };
    let c = if r.top_p.below_one() {
        seq![Stage::TopP { p: r.top_p }]
    } else {
        seq![]
    };
    let d = if r.min_p.above_zero() {
        seq![Stage::MinP { p: r.min_p }]
    } else {
        seq![]
    };
    let e = seq![Stage::Temperature { t: r.temperature }, Stage::Dist { seed }];
    let all = chain(r, usable, seed);
    assert(all =~= g + (a + b + c + d) + e);
    let (n1, n2, n3, n4, n5) = (
        g.len() as int,
        (g + a).len() as int,
        (g + a + b).len() as int,
        (g + a + b + c).len() as int,
        (g + a + b + c + d).len() as int,
    );
    assert(g.len() > 0 ==> all[0] == g[0]);
    assert(a.len() > 0 ==> all[n1] == a[0]);
    assert(b.len() > 0 ==> all[n2] == b[0]);
    assert(c.len() > 0 ==> all[n3] == c[0]);
    assert(d.len() > 0 ==> all[n4] == d[0]);
    assert(all[n5] == e[0]);
    assert(all[n5 + 1] == e[1]);
    if all.contains(s) {
        let i = choose|i: int| 0 <= i < all.len() && all[i] == s;
        assert(i < n1 ==> all[i] == g[i]);
        assert(n1 <= i < n2 ==> all[i] == a[i - n1]);
        assert(n2 <= i < n3 ==> all[i] == b[i - n2]);
        assert(n3 <= i < n4 ==> all[i] == c[i - n3]);
        assert(n4 <= i < n5 ==> all[i] == d[i - n4]);
        assert(n5 <= i ==> all[i] == e[i - n5]);
    }
}

/// The stages of a chain come in their order, none of them twice.
pub proof fn law_stages_come_in_their_order(r: GenerateRequest, usable: bool, seed: u32, i: int, j: int)
    requires
        0 <= i < j < chain(r, usable, seed).len(),
    ensures
        place(chain(r, usable, seed)[i]) < place(chain(r, usable, seed)[j]),
{
}

} // verus!
