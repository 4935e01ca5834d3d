//! The `disk_type` wire values.
use vstd::prelude::*;

verus! {

pub const FIXED: u32 = 2;
pub const DYNAMIC: u32 = 3;
pub const DIFFERENCING: u32 = 4;

} // verus!
