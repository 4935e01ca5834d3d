//! The constants of the CHS geometry ladder.
use vstd::prelude::*;

verus! {

/// Ceiling on each field, from the footer's `u16`/`u8`/`u8` widths.
pub const MAX_CYLINDERS: u64 = 65535;
pub const MAX_HEADS: u32 = 16;
pub const MAX_SECTORS_PER_TRACK: u32 = 255;

/// Above this sector count the ladder cannot represent the disk and the
/// geometry saturates: maximum cylinders, heads and sectors per track.
pub const MAX_ADDRESSABLE_SECTORS: u64 = 267_382_800;

/// From this sector count on only the widest track can describe the
/// disk: 63 sectors per track is the last rung of the ladder, at maximum
/// cylinders and heads.
pub const LADDER_CEILING_SECTORS: u64 = 66_059_280;

/// The three sectors-per-track rungs, tried in order.
pub const SPT_FIRST: u32 = 17;
pub const SPT_SECOND: u32 = 31;
pub const SPT_THIRD: u32 = 63;

/// The head count the ladder starts from, and never goes below.
pub const MIN_HEADS: u32 = 4;

/// The cylinders-per-head budget each rung is held against.
pub const CYLINDERS_PER_HEAD_LIMIT: u64 = 1024;

/// The two ceilings are products of the constants beside them, the last
/// rung lies below saturation, the rungs ascend, and the ladder only ever
/// widens the head count.
pub proof fn law_ladder_constants_are_coherent()
    ensures
        MAX_ADDRESSABLE_SECTORS == MAX_CYLINDERS * MAX_HEADS * MAX_SECTORS_PER_TRACK,
        LADDER_CEILING_SECTORS == MAX_CYLINDERS * MAX_HEADS * SPT_THIRD,
        LADDER_CEILING_SECTORS < MAX_ADDRESSABLE_SECTORS,
        SPT_FIRST < SPT_SECOND < SPT_THIRD,
        MIN_HEADS <= MAX_HEADS,
{
}

} // verus!
