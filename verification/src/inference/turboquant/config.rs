//! TurboQuant types against what the backend supports.
use super::types::{parse_turboquant_type, shown, type_named, TurboquantType};
use crate::text;
use vstd::prelude::*;

verus! {

/// What a TurboQuant cache type comes to on the current backend.
#[derive(Debug, PartialEq, Eq)]
pub enum ResolvedCacheType {
    /// The backend supports the type natively.
    Native(TurboquantType),
    /// The backend does not, and this standard type takes its place.
    Fallback { requested: TurboquantType, fallback: &'static str },
    /// The backend does not, and no other type may take its place.
    Unsupported { requested: TurboquantType, reason: String },
}

/// Whether the text names a TurboQuant cache type.
pub fn is_turboquant_type(s: &str) -> (r: bool)
    ensures
        r == type_named(text::lowercase(s@)) is Some,
{
    parse_turboquant_type(s).is_some()
}

pub open spec fn unsupported_text(t: TurboquantType) -> Seq<char> {
    "TurboQuant "@ + shown(t)
        + " is not supported by the current llama.cpp backend. Run scripts/setup-turboquant.sh, uncomment [patch.crates-io] in Cargo.toml, and rebuild with --features turboquant_native."@
}

impl ResolvedCacheType {
    /// What `t` comes to. With `strict` nothing takes its place: a benchmark on
    /// another type would mislead.
    pub open spec fn is_for(self, t: TurboquantType, strict: bool, native: bool) -> bool {
        if native {
            self == ResolvedCacheType::Native(t)
        } else if strict {
            self matches ResolvedCacheType::Unsupported { requested, reason } && requested == t
                && reason@ == unsupported_text(t)
        } else {
            self matches ResolvedCacheType::Fallback { requested, fallback } && requested == t
                && fallback@ == "f16"@
        }
    }
}

/// What a TurboQuant type comes to on a backend that supports these types or
/// does not.
pub fn resolve_type(t: TurboquantType, strict: bool, native: bool) -> (r: ResolvedCacheType)
    ensures
        r.is_for(t, strict, native),
{
    if native {
        ResolvedCacheType::Native(t)
    } else if strict {
        let mut reason: String = text::copy_text("TurboQuant ");
        reason.append(t.name());
        reason.append(
            " is not supported by the current llama.cpp backend. Run scripts/setup-turboquant.sh, uncomment [patch.crates-io] in Cargo.toml, and rebuild with --features turboquant_native.",
        );
        ResolvedCacheType::Unsupported { requested: t, reason }
    } else {
        ResolvedCacheType::Fallback { requested: t, fallback: "f16" }
    }
}

/// Resolves a cache type by its name. `None` for a name of no TurboQuant type,
/// such as a standard type. `native` says whether the backend that was linked
/// supports these types.
pub fn resolve_turboquant_cache_type(s: &str, strict: bool, native: bool) -> (r: Option<
    ResolvedCacheType,
>)
    ensures
        match type_named(text::lowercase(s@)) {
            Some(t) => r matches Some(c) && c.is_for(t, strict, native),
            None => r is None,
        },
{
    match parse_turboquant_type(s) {
        Some(t) => Some(resolve_type(t, strict, native)),
        None => None,
    }
}

/// What is logged about TurboQuant at startup.
pub fn log_turboquant_status(native: bool) -> (r: &'static str)
    ensures
        r@ == if native {
            "TurboQuant: ACTIVE (AmesianX v1.4.1+, tbq3_0/tbq4_0/tbqp3_0/tbqp4_0 available)"@
        } else {
            "TurboQuant: STANDBY (module loaded, backend lacks native support — tbq3_0/tbq4_0 will fall back to F16)"@
        },
{
    if native {
        "TurboQuant: ACTIVE (AmesianX v1.4.1+, tbq3_0/tbq4_0/tbqp3_0/tbqp4_0 available)"
    } else {
        "TurboQuant: STANDBY (module loaded, backend lacks native support — tbq3_0/tbq4_0 will fall back to F16)"
    }
}

/// A type is used as it is where the backend supports it; elsewhere f16 takes
/// its place, unless nothing may.
pub proof fn law_f16_takes_the_place_of_what_is_not_supported(
    c: ResolvedCacheType,
    t: TurboquantType,
    strict: bool,
    native: bool,
)
    requires
        c.is_for(t, strict, native),
    ensures
        native <==> c is Native,
        !native && strict <==> c is Unsupported,
        !native && !strict <==> c is Fallback,
        c matches ResolvedCacheType::Native(n) ==> n == t,
        c matches ResolvedCacheType::Fallback { requested, fallback } ==> requested == t
            && fallback@ == "f16"@,
        c matches ResolvedCacheType::Unsupported { requested, .. } ==> requested == t,
{
}

} // verus!
