//! TurboQuant KV cache types.
//!
//! The suffix stands for the head dimension: `_0` is 256, `_1` is 128, `_2` is
//! 64 with a single transform, `_3` is 64 with a double transform per head, and
//! `_4` is 576.
use crate::text;
use vstd::prelude::*;

verus! {

/// A TurboQuant cache type.
#[allow(non_camel_case_types)]
#[derive(Debug, Clone, Copy, PartialEq, Eq, Structural)]
pub enum TurboquantType {
    /// 3-bit MSE-only, head_dim=256.
    TQ3_0,
    /// 4-bit MSE-only, head_dim=256.
    TQ4_0,
    /// 3-bit with correction, head_dim=256.
    TQP3_0,
    /// 4-bit with correction, head_dim=256.
    TQP4_0,
    /// 3-bit MSE-only, head_dim=128.
    TQ3_1,
    /// 4-bit MSE-only, head_dim=128.
    TQ4_1,
    /// 3-bit with correction, head_dim=128.
    TQP3_1,
    /// 4-bit with correction, head_dim=128.
    TQP4_1,
    /// 3-bit MSE-only, head_dim=64, single WHT.
    TQ3_2,
    /// 4-bit MSE-only, head_dim=64, single WHT.
    TQ4_2,
    /// 3-bit with correction, head_dim=64, single WHT.
    TQP3_2,
    /// 4-bit with correction, head_dim=64, single WHT.
    TQP4_2,
    /// 3-bit MSE-only, head_dim=64, double WHT per head.
    TQ3_3,
    /// 4-bit MSE-only, head_dim=64, double WHT per head.
    TQ4_3,
    /// 3-bit with correction, head_dim=64, double WHT per head.
    TQP3_3,
    /// 4-bit with correction, head_dim=64, double WHT per head.
    TQP4_3,
    /// 3-bit MSE-only, head_dim=576.
    TQ3_4,
    /// 4-bit MSE-only, head_dim=576.
    TQ4_4,
    /// 3-bit with correction, head_dim=576.
    TQP3_4,
    /// 4-bit with correction, head_dim=576.
    TQP4_4,
}

/// The name that a type is shown under.
pub open spec fn shown(t: TurboquantType) -> Seq<char> {
    match t {
        TurboquantType::TQ3_0 => "tbq3_0"@,
        TurboquantType::TQ4_0 => "tbq4_0"@,
        TurboquantType::TQP3_0 => "tbqp3_0"@,
        TurboquantType::TQP4_0 => "tbqp4_0"@,
        TurboquantType::TQ3_1 => "tbq3_1"@,
        TurboquantType::TQ4_1 => "tbq4_1"@,
        TurboquantType::TQP3_1 => "tbqp3_1"@,
        TurboquantType::TQP4_1 => "tbqp4_1"@,
        TurboquantType::TQ3_2 => "tbq3_2"@,
        TurboquantType::TQ4_2 => "tbq4_2"@,
        TurboquantType::TQP3_2 => "tbqp3_2"@,
        TurboquantType::TQP4_2 => "tbqp4_2"@,
        TurboquantType::TQ3_3 => "tbq3_3"@,
        TurboquantType::TQ4_3 => "tbq4_3"@,
        TurboquantType::TQP3_3 => "tbqp3_3"@,
        TurboquantType::TQP4_3 => "tbqp4_3"@,
        TurboquantType::TQ3_4 => "tbq3_4"@,
        TurboquantType::TQ4_4 => "tbq4_4"@,
        TurboquantType::TQP3_4 => "tbqp3_4"@,
        TurboquantType::TQP4_4 => "tbqp4_4"@,
    }
}

/// The type that a name in lower case stands for. A name without a suffix stands
/// for a head dimension of 128, the common one; the short `tq` and `turbo` names
/// keep their old meaning.
pub open spec fn type_named(lower: Seq<char>) -> Option<TurboquantType> {
    if lower == "tbq3_0"@ || lower == "tq3_0"@ || lower == "tq3"@ || lower == "turbo3"@ {
        Some(TurboquantType::TQ3_0)
    } else if lower == "tbq4_0"@ || lower == "tq4_0"@ || lower == "tq4"@ || lower == "turbo4"@ {
        Some(TurboquantType::TQ4_0)
    } else if lower == "tbqp3_0"@ || lower == "tqp3_0"@ {
        Some(TurboquantType::TQP3_0)
    } else if lower == "tbqp4_0"@ || lower == "tqp4_0"@ {
        Some(TurboquantType::TQP4_0)
    } else if lower == "tbq3_1"@ || lower == "tq3_1"@ || lower == "tbq3"@ {
        Some(TurboquantType::TQ3_1)
    } else if lower == "tbq4_1"@ || lower == "tq4_1"@ || lower == "tbq4"@ {
        Some(TurboquantType::TQ4_1)
    } else if lower == "tbqp3_1"@ || lower == "tqp3_1"@ || lower == "tbqp3"@ {
        Some(TurboquantType::TQP3_1)
    } else if lower == "tbqp4_1"@ || lower == "tqp4_1"@ || lower == "tbqp4"@ {
        Some(TurboquantType::TQP4_1)
    } else if lower == "tbq3_2"@ || lower == "tq3_2"@ {
        Some(TurboquantType::TQ3_2)
    } else if lower == "tbq4_2"@ || lower == "tq4_2"@ {
        Some(TurboquantType::TQ4_2)
    } else if lower == "tbqp3_2"@ || lower == "tqp3_2"@ {
        Some(TurboquantType::TQP3_2)
    } else if lower == "tbqp4_2"@ || lower == "tqp4_2"@ {
        Some(TurboquantType::TQP4_2)
    } else if lower == "tbq3_3"@ || lower == "tq3_3"@ {
        Some(TurboquantType::TQ3_3)
    } else if lower == "tbq4_3"@ || lower == "tq4_3"@ {
        Some(TurboquantType::TQ4_3)
    } else if lower == "tbqp3_3"@ || lower == "tqp3_3"@ {
        Some(TurboquantType::TQP3_3)
    } else if lower == "tbqp4_3"@ || lower == "tqp4_3"@ {
        Some(TurboquantType::TQP4_3)
    } else if lower == "tbq3_4"@ || lower == "tq3_4"@ {
        Some(TurboquantType::TQ3_4)
    } else if lower == "tbq4_4"@ || lower == "tq4_4"@ {
        Some(TurboquantType::TQ4_4)
    } else if lower == "tbqp3_4"@ || lower == "tqp3_4"@ {
        Some(TurboquantType::TQP3_4)
    } else if lower == "tbqp4_4"@ || lower == "tqp4_4"@ {
        Some(TurboquantType::TQP4_4)
    } else {
        None
    }
}

pub open spec fn bit_count(t: TurboquantType) -> u8 {
    match t {
        TurboquantType::TQ3_0
        | TurboquantType::TQP3_0
        | TurboquantType::TQ3_1
        | TurboquantType::TQP3_1
        | TurboquantType::TQ3_2
        | TurboquantType::TQP3_2
        | TurboquantType::TQ3_3
        | TurboquantType::TQP3_3
        | TurboquantType::TQ3_4
        | TurboquantType::TQP3_4 => 3,
        TurboquantType::TQ4_0
        | TurboquantType::TQP4_0
        | TurboquantType::TQ4_1
        | TurboquantType::TQP4_1
        | TurboquantType::TQ4_2
        | TurboquantType::TQP4_2
        | TurboquantType::TQ4_3
        | TurboquantType::TQP4_3
        | TurboquantType::TQ4_4
        | TurboquantType::TQP4_4 => 4,
    }
}

impl TurboquantType {
    /// Bits per value, overhead left out.
    pub fn bits(&self) -> (r: u8)
        ensures
            r == bit_count(*self),
    {
        match self {
            TurboquantType::TQ3_0
            | TurboquantType::TQP3_0
            | TurboquantType::TQ3_1
            | TurboquantType::TQP3_1
            | TurboquantType::TQ3_2
            | TurboquantType::TQP3_2
            | TurboquantType::TQ3_3
            | TurboquantType::TQP3_3
            | TurboquantType::TQ3_4
            | TurboquantType::TQP3_4 => 3,
            TurboquantType::TQ4_0
            | TurboquantType::TQP4_0
            | TurboquantType::TQ4_1
            | TurboquantType::TQP4_1
            | TurboquantType::TQ4_2
            | TurboquantType::TQP4_2
            | TurboquantType::TQ4_3
            | TurboquantType::TQP4_3
            | TurboquantType::TQ4_4
            | TurboquantType::TQP4_4 => 4,
        }
    }

    /// The compression against 16-bit values, as a fraction.
    pub fn compression_ratio(&self) -> (r: (u32, u32))
        ensures
            r.0 == 16,
            r.1 == bit_count(*self),
    {
        (16, self.bits() as u32)
    }

    /// The name that the type is shown under.
    pub fn name(&self) -> (r: &'static str)
        ensures
            r@ == shown(*self),
    {
        match self {
            TurboquantType::TQ3_0 => "tbq3_0",
            TurboquantType::TQ4_0 => "tbq4_0",
            TurboquantType::TQP3_0 => "tbqp3_0",
            TurboquantType::TQP4_0 => "tbqp4_0",
            TurboquantType::TQ3_1 => "tbq3_1",
            TurboquantType::TQ4_1 => "tbq4_1",
            TurboquantType::TQP3_1 => "tbqp3_1",
            TurboquantType::TQP4_1 => "tbqp4_1",
            TurboquantType::TQ3_2 => "tbq3_2",
            TurboquantType::TQ4_2 => "tbq4_2",
            TurboquantType::TQP3_2 => "tbqp3_2",
            TurboquantType::TQP4_2 => "tbqp4_2",
            TurboquantType::TQ3_3 => "tbq3_3",
            TurboquantType::TQ4_3 => "tbq4_3",
            TurboquantType::TQP3_3 => "tbqp3_3",
            TurboquantType::TQP4_3 => "tbqp4_3",
            TurboquantType::TQ3_4 => "tbq3_4",
            TurboquantType::TQ4_4 => "tbq4_4",
            TurboquantType::TQP3_4 => "tbqp3_4",
            TurboquantType::TQP4_4 => "tbqp4_4",
        }
    }
}

fn is_any(s: &str, a: &str, b: &str) -> (r: bool)
    ensures
        r == (s@ == a@ || s@ == b@),
{
    text::same_text(s, a) || text::same_text(s, b)
}

/// The type that a name in lower case stands for.
pub fn turboquant_named(lower: &str) -> (r: Option<TurboquantType>)
    ensures
        r == type_named(lower@),
{
    if is_any(lower, "tbq3_0", "tq3_0") || is_any(lower, "tq3", "turbo3") {
        Some(TurboquantType::TQ3_0)
    } else if is_any(lower, "tbq4_0", "tq4_0") || is_any(lower, "tq4", "turbo4") {
        Some(TurboquantType::TQ4_0)
    } else if is_any(lower, "tbqp3_0", "tqp3_0") {
        Some(TurboquantType::TQP3_0)
    } else if is_any(lower, "tbqp4_0", "tqp4_0") {
        Some(TurboquantType::TQP4_0)
    } else if is_any(lower, "tbq3_1", "tq3_1") || text::same_text(lower, "tbq3") {
        Some(TurboquantType::TQ3_1)
    } else if is_any(lower, "tbq4_1", "tq4_1") || text::same_text(lower, "tbq4") {
        Some(TurboquantType::TQ4_1)
    } else if is_any(lower, "tbqp3_1", "tqp3_1") || text::same_text(lower, "tbqp3") {
        Some(TurboquantType::TQP3_1)
    } else if is_any(lower, "tbqp4_1", "tqp4_1") || text::same_text(lower, "tbqp4") {
        Some(TurboquantType::TQP4_1)
    } else if is_any(lower, "tbq3_2", "tq3_2") {
        Some(TurboquantType::TQ3_2)
    } else if is_any(lower, "tbq4_2", "tq4_2") {
        Some(TurboquantType::TQ4_2)
    } else if is_any(lower, "tbqp3_2", "tqp3_2") {
        Some(TurboquantType::TQP3_2)
    } else if is_any(lower, "tbqp4_2", "tqp4_2") {
        Some(TurboquantType::TQP4_2)
    } else if is_any(lower, "tbq3_3", "tq3_3") {
        Some(TurboquantType::TQ3_3)
    } else if is_any(lower, "tbq4_3", "tq4_3") {
        Some(TurboquantType::TQ4_3)
    } else if is_any(lower, "tbqp3_3", "tqp3_3") {
        Some(TurboquantType::TQP3_3)
    } else if is_any(lower, "tbqp4_3", "tqp4_3") {
        Some(TurboquantType::TQP4_3)
    } else if is_any(lower, "tbq3_4", "tq3_4") {
        Some(TurboquantType::TQ3_4)
    } else if is_any(lower, "tbq4_4", "tq4_4") {
        Some(TurboquantType::TQ4_4)
    } else if is_any(lower, "tbqp3_4", "tqp3_4") {
        Some(TurboquantType::TQP3_4)
    } else if is_any(lower, "tbqp4_4", "tqp4_4") {
        Some(TurboquantType::TQP4_4)
    } else {
        None
    }
}

/// Reads a TurboQuant type from the command line or a request, in whatever case.
pub fn parse_turboquant_type(s: &str) -> (r: Option<TurboquantType>)
    ensures
        r == type_named(text::lowercase(s@)),
{
    let lower: String = text::to_lowercase(s);
    turboquant_named(lower.as_str())
}

/// Every type is found again under the name that it is shown under.
pub proof fn law_names_lead_back_to_their_types(t: TurboquantType)
    ensures
        type_named(shown(t)) == Some(t),
{
    reveal_strlit("tq3");
    assert("tq3"@.len() == 3);
    reveal_strlit("tq4");
    assert("tq4"@.len() == 3);
    reveal_strlit("tbq3");
    assert("tbq3"@.len() == 4);
    reveal_strlit("tbq4");
    assert("tbq4"@.len() == 4);
    reveal_strlit("tbqp3");
    assert("tbqp3"@.len() == 5);
    reveal_strlit("tbqp4");
    assert("tbqp4"@.len() == 5);
    reveal_strlit("tq3_0");
    assert("tq3_0"@.len() == 5);
    reveal_strlit("tq3_1");
    assert("tq3_1"@.len() == 5);
    reveal_strlit("tq3_2");
    assert("tq3_2"@.len() == 5);
    reveal_strlit("tq3_3");
    assert("tq3_3"@.len() == 5);
    reveal_strlit("tq3_4");
    assert("tq3_4"@.len() == 5);
    reveal_strlit("tq4_0");
    assert("tq4_0"@.len() == 5);
    reveal_strlit("tq4_1");
    assert("tq4_1"@.len() == 5);
    reveal_strlit("tq4_2");
    assert("tq4_2"@.len() == 5);
    reveal_strlit("tq4_3");
    assert("tq4_3"@.len() == 5);
    reveal_strlit("tq4_4");
    assert("tq4_4"@.len() == 5);
    reveal_strlit("tbq3_0");
    assert("tbq3_0"@.len() == 6);
    reveal_strlit("tbq3_1");
    assert("tbq3_1"@.len() == 6);
    reveal_strlit("tbq3_2");
    assert("tbq3_2"@.len() == 6);
    reveal_strlit("tbq3_3");
    assert("tbq3_3"@.len() == 6);
    reveal_strlit("tbq3_4");
    assert("tbq3_4"@.len() == 6);
    reveal_strlit("tbq4_0");
    assert("tbq4_0"@.len() == 6);
    reveal_strlit("tbq4_1");
    assert("tbq4_1"@.len() == 6);
    reveal_strlit("tbq4_2");
    assert("tbq4_2"@.len() == 6);
    reveal_strlit("tbq4_3");
    assert("tbq4_3"@.len() == 6);
    reveal_strlit("tbq4_4");
    assert("tbq4_4"@.len() == 6);
    reveal_strlit("tqp3_0");
    assert("tqp3_0"@.len() == 6);
    reveal_strlit("tqp3_1");
    assert("tqp3_1"@.len() == 6);
    reveal_strlit("tqp3_2");
    assert("tqp3_2"@.len() == 6);
    reveal_strlit("tqp3_3");
    assert("tqp3_3"@.len() == 6);
    reveal_strlit("tqp3_4");
    assert("tqp3_4"@.len() == 6);
    reveal_strlit("tqp4_0");
    assert("tqp4_0"@.len() == 6);
    reveal_strlit("tqp4_1");
    assert("tqp4_1"@.len() == 6);
    reveal_strlit("tqp4_2");
    assert("tqp4_2"@.len() == 6);
    reveal_strlit("tqp4_3");
    assert("tqp4_3"@.len() == 6);
    reveal_strlit("tqp4_4");
    assert("tqp4_4"@.len() == 6);
    reveal_strlit("turbo3");
    assert("turbo3"@.len() == 6);
    reveal_strlit("turbo4");
    assert("turbo4"@.len() == 6);
    reveal_strlit("tbqp3_0");
    assert("tbqp3_0"@.len() == 7);
    reveal_strlit("tbqp3_1");
    assert("tbqp3_1"@.len() == 7);
    reveal_strlit("tbqp3_2");
    assert("tbqp3_2"@.len() == 7);
    reveal_strlit("tbqp3_3");
    assert("tbqp3_3"@.len() == 7);
    reveal_strlit("tbqp3_4");
    assert("tbqp3_4"@.len() == 7);
    reveal_strlit("tbqp4_0");
    assert("tbqp4_0"@.len() == 7);
    reveal_strlit("tbqp4_1");
    assert("tbqp4_1"@.len() == 7);
    reveal_strlit("tbqp4_2");
    assert("tbqp4_2"@.len() == 7);
    reveal_strlit("tbqp4_3");
    assert("tbqp4_3"@.len() == 7);
    reveal_strlit("tbqp4_4");
    assert("tbqp4_4"@.len() == 7);
    assert("tbq3_0"@[1] == 'b' && "tbq3_0"@[3] == '3' && "tbq3_0"@[5] == '0');
    assert("tbq3_1"@[1] == 'b' && "tbq3_1"@[3] == '3' && "tbq3_1"@[5] == '1');
    assert("tbq3_2"@[1] == 'b' && "tbq3_2"@[3] == '3' && "tbq3_2"@[5] == '2');
    assert("tbq3_3"@[1] == 'b' && "tbq3_3"@[3] == '3' && "tbq3_3"@[5] == '3');
    assert("tbq3_4"@[1] == 'b' && "tbq3_4"@[3] == '3' && "tbq3_4"@[5] == '4');
    assert("tbq4_0"@[1] == 'b' && "tbq4_0"@[3] == '4' && "tbq4_0"@[5] == '0');
    assert("tbq4_1"@[1] == 'b' && "tbq4_1"@[3] == '4' && "tbq4_1"@[5] == '1');
    assert("tbq4_2"@[1] == 'b' && "tbq4_2"@[3] == '4' && "tbq4_2"@[5] == '2');
    assert("tbq4_3"@[1] == 'b' && "tbq4_3"@[3] == '4' && "tbq4_3"@[5] == '3');
    assert("tbq4_4"@[1] == 'b' && "tbq4_4"@[3] == '4' && "tbq4_4"@[5] == '4');
    assert("tqp3_0"@[1] == 'q');
    assert("tqp3_1"@[1] == 'q');
    assert("tqp3_2"@[1] == 'q');
    assert("tqp3_3"@[1] == 'q');
    assert("tqp3_4"@[1] == 'q');
    assert("tqp4_0"@[1] == 'q');
    assert("tqp4_1"@[1] == 'q');
    assert("tqp4_2"@[1] == 'q');
    assert("tqp4_3"@[1] == 'q');
    assert("tqp4_4"@[1] == 'q');
    assert("turbo3"@[1] == 'u');
    assert("turbo4"@[1] == 'u');
    assert("tbqp3_0"@[4] == '3' && "tbqp3_0"@[6] == '0');
    assert("tbqp3_1"@[4] == '3' && "tbqp3_1"@[6] == '1');
    assert("tbqp3_2"@[4] == '3' && "tbqp3_2"@[6] == '2');
    assert("tbqp3_3"@[4] == '3' && "tbqp3_3"@[6] == '3');
    assert("tbqp3_4"@[4] == '3' && "tbqp3_4"@[6] == '4');
    assert("tbqp4_0"@[4] == '4' && "tbqp4_0"@[6] == '0');
    assert("tbqp4_1"@[4] == '4' && "tbqp4_1"@[6] == '1');
    assert("tbqp4_2"@[4] == '4' && "tbqp4_2"@[6] == '2');
    assert("tbqp4_3"@[4] == '4' && "tbqp4_3"@[6] == '3');
    assert("tbqp4_4"@[4] == '4' && "tbqp4_4"@[6] == '4');
}

} // verus!
