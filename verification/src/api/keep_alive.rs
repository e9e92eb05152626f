//! How long a loaded model stays resident after a request.
use crate::api::duration;
use crate::api::duration::{duration_span, seconds_span, Span, MAX_NANOS};
use crate::json::{opt_tree, Json, Tree};
use crate::text;
use vstd::prelude::*;

verus! {

/// How long a loaded model should be kept resident after a request.
#[derive(Debug, Clone, Copy, PartialEq, Eq, Structural)]
pub enum KeepAlive {
    /// Nothing asked for: the server's own default holds.
    Default,
    /// A negative time: never unload this load for idleness.
    Forever,
    /// Zero: unload right after this request.
    Immediate,
    /// Stay this many nanoseconds after the request.
    For(u128),
}

impl KeepAlive {
    /// The time asked for is one that a duration holds.
    pub open spec fn wf(self) -> bool {
        self matches KeepAlive::For(d) ==> d <= MAX_NANOS
    }
}

/// What a length of time asks for; one that cannot be read asks for nothing.
pub open spec fn kept(span: Option<Span>) -> KeepAlive {
    match span {
        Some(Span::Negative) => KeepAlive::Forever,
        Some(Span::Zero) => KeepAlive::Immediate,
        Some(Span::Nanos(n)) => KeepAlive::For(n),
        Some(Span::TooLong) | Some(Span::Undefined) | None => KeepAlive::Default,
    }
}

/// What the `keep_alive` field of a request asks for.
pub open spec fn asked(value: Option<Tree>) -> KeepAlive {
    match value {
        Some(Tree::Number(s, _)) => kept(seconds_span(s)),
        Some(Tree::Text(s)) => kept(duration_span(s)),
        _ => KeepAlive::Default,
    }
}

fn keep(span: Option<Span>) -> (r: KeepAlive)
    requires
        span matches Some(Span::Nanos(n)) ==> n <= MAX_NANOS,
    ensures
        r == kept(span),
        r.wf(),
{
    match span {
        Some(Span::Negative) => KeepAlive::Forever,
        Some(Span::Zero) => KeepAlive::Immediate,
        Some(Span::Nanos(n)) => KeepAlive::For(n),
        Some(Span::TooLong) | Some(Span::Undefined) | None => KeepAlive::Default,
    }
}

/// Reads a request's `keep_alive` field: a bare number of seconds (`300`), a
/// duration with a unit (`"5m"`, `"30s"`, `"2h"`), or a number in quotes
/// (`"300"`). Anything else falls back to `Default`: a malformed field does
/// not fail the request it rides along with.
pub fn parse_keep_alive(value: Option<&Json>) -> (r: KeepAlive)
    ensures
        r == asked(opt_tree(value)),
        r.wf(),
{
    match value {
        Some(Json::Number(n)) => {
            let c: Vec<char> = text::to_chars(n.text.as_str());
            keep(duration::parse_seconds(&c))
        },
        Some(Json::Text(s)) => keep(duration::parse_duration_string(s.as_str())),
        _ => KeepAlive::Default,
    }
}

/// Why a `--keep-alive` that is not a positive time is refused.
pub open spec fn not_positive(s: Seq<char>) -> Seq<char> {
    "--keep-alive must be a positive duration, got '"@ + s
        + "' (0 or negative only make sense as a per-request keep_alive override)"@
}

/// Why a `--keep-alive` that cannot be read is refused.
pub open spec fn not_a_duration(s: Seq<char>) -> Seq<char> {
    "--keep-alive: cannot parse '"@ + s
        + "' as a duration — expected e.g. '5m', '30s', '2h', or a bare number of seconds"@
}

/// Reads the value of `--keep-alive` as nanoseconds. Zero and negative times
/// make no sense as a default and are refused.
pub fn parse_keep_alive_flag(s: &str) -> (r: Result<u128, String>)
    ensures
        match duration_span(s@) {
            Some(Span::Nanos(n)) => r == Ok::<u128, String>(n) && n <= MAX_NANOS,
            Some(Span::Negative) | Some(Span::Zero) | Some(Span::Undefined) => r matches Err(e)
                && e@ == not_positive(s@),
            Some(Span::TooLong) | None => r matches Err(e) && e@ == not_a_duration(s@),
        },
{
    match duration::parse_duration_string(s) {
        Some(Span::Nanos(n)) => Ok(n),
        Some(Span::Negative) | Some(Span::Zero) | Some(Span::Undefined) => {
            let mut m: String = text::copy_text("--keep-alive must be a positive duration, got '");
            m.append(s);
            m.append("' (0 or negative only make sense as a per-request keep_alive override)");
            Err(m)
        },
        Some(Span::TooLong) | None => {
            let mut m: String = text::copy_text("--keep-alive: cannot parse '");
            m.append(s);
            m.append(
                "' as a duration — expected e.g. '5m', '30s', '2h', or a bare number of seconds",
            );
            Err(m)
        },
    }
}

/// When a model that was just used may be unloaded: after the time asked for,
/// or the server's own, counted from `now`; never, where neither sets one.
pub open spec fn deadline_after(asked: KeepAlive, default: Option<u128>, now: u64) -> Option<int> {
    match asked {
        KeepAlive::For(d) => Some(now + d),
        KeepAlive::Default => match default {
            Some(d) => Some(now + d),
            None => None,
        },
        KeepAlive::Forever | KeepAlive::Immediate => None,
    }
}

/// A deadline as a number.
pub open spec fn at(deadline: Option<u128>) -> Option<int> {
    match deadline {
        Some(d) => Some(d as int),
        None => None,
    }
}

/// Resets a slot's idle deadline after a request. Clocks count nanoseconds.
/// The result says whether the model is to be unloaded right away.
pub fn touch_deadline(
    deadline: &mut Option<u128>,
    keep_alive: KeepAlive,
    default: Option<u128>,
    now: u64,
) -> (unload: bool)
    requires
        keep_alive.wf(),
        default matches Some(d) ==> d <= MAX_NANOS,
    ensures
        at(*final(deadline)) == deadline_after(keep_alive, default, now),
        unload == (keep_alive is Immediate),
{
    let time: Option<u128> = match keep_alive {
        KeepAlive::For(d) => Some(d),
        KeepAlive::Default => default,
        KeepAlive::Forever | KeepAlive::Immediate => None,
    };
    *deadline = match time {
        Some(d) => Some((now as u128) + d),
        None => None,
    };
    match keep_alive {
        KeepAlive::Immediate => true,
        _ => false,
    }
}

/// Whether a slot's idle deadline has passed at `now`. One that has is cleared.
pub fn expire(deadline: &mut Option<u128>, now: u64) -> (expired: bool)
    ensures
        expired == (*old(deadline) matches Some(d) && now >= d),
        *final(deadline) == if expired {
            None
        } else {
            *old(deadline)
        },
{
    match *deadline {
        Some(d) => {
            if (now as u128) >= d {
                *deadline = None;
                true
            } else {
                false
            }
        },
        None => false,
    }
}

/// A model in use is not unloaded: after a request, its deadline passes only
/// once the whole time asked for has gone by.
pub proof fn law_a_used_model_stays_its_time(d: u128, default: Option<u128>, now: u64, later: u64)
    requires
        now <= later,
    ensures
        deadline_after(KeepAlive::For(d), default, now) matches Some(t) && (later >= t <==> later
            - now >= d),
{
}

/// Without a server default, a request that asks for nothing starts no timer.
pub proof fn law_no_default_no_timer(now: u64)
    ensures
        deadline_after(KeepAlive::Default, None, now) is None,
{
}

/// A time on the command line and the same time in a request mean the same.
pub proof fn law_flag_and_field_read_alike(s: Seq<char>)
    ensures
        duration_span(s) matches Some(Span::Nanos(n)) ==> asked(Some(Tree::Text(s)))
            == KeepAlive::For(n),
{
}

/// What a time asks for: a negative one to stay, none to go, any other to stay that
/// long; what cannot be read asks for nothing.
pub proof fn law_a_time_asks_for_what_it_says(span: Option<Span>)
    ensures
        kept(span) is Forever <==> span == Some(Span::Negative),
        kept(span) is Immediate <==> span == Some(Span::Zero),
        span matches Some(Span::Nanos(n)) ==> kept(span) == KeepAlive::For(n),
        kept(span) is Default <==> span is None || span == Some(Span::TooLong) || span == Some(
            Span::Undefined,
        ),
{
}

/// A model stays as long as the request asks, or else as long as the server does;
/// one that is to stay, or to go at once, has no deadline.
pub proof fn law_a_request_wins_over_the_server(asked: KeepAlive, default: Option<u128>, now: u64)
    ensures
        asked matches KeepAlive::For(d) ==> deadline_after(asked, default, now) == Some(now + d),
        asked is Default ==> deadline_after(asked, default, now) == match default {
            Some(d) => Some(now + d),
            None => None,
        },
        asked is Forever || asked is Immediate ==> deadline_after(asked, default, now) is None,
{
}

} // verus!
