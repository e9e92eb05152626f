//! The type numbers of the TurboQuant types in ggml.
use vstd::prelude::*;

verus! {

pub const TBQ3_0: u32 = 42;
pub const TBQ4_0: u32 = 43;
pub const TBQP3_0: u32 = 44;
pub const TBQP4_0: u32 = 45;
pub const TBQ3_1: u32 = 46;
pub const TBQ4_1: u32 = 47;
pub const TBQP3_1: u32 = 48;
pub const TBQP4_1: u32 = 49;
pub const TBQ3_2: u32 = 50;
pub const TBQ4_2: u32 = 51;
pub const TBQP3_2: u32 = 52;
pub const TBQP4_2: u32 = 53;
pub const TBQ3_3: u32 = 54;
pub const TBQ4_3: u32 = 55;
pub const TBQP3_3: u32 = 56;
pub const TBQP4_3: u32 = 57;
pub const TBQ3_4: u32 = 58;
pub const TBQ4_4: u32 = 59;
pub const TBQP3_4: u32 = 60;
pub const TBQP4_4: u32 = 61;

} // verus!
