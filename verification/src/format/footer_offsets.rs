//! Byte offsets of the footer's fields, per the layout at the top of
//! [`crate::footer`].
use std::ops::Range;
use vstd::prelude::*;

verus! {

pub const COOKIE: Range<usize> = 0..8;
pub const FEATURES: usize = 8;
pub const FILE_FORMAT_VERSION: usize = 12;
pub const DATA_OFFSET: usize = 16;
pub const TIMESTAMP: usize = 24;
pub const CREATOR_APPLICATION: usize = 28;
pub const CREATOR_VERSION: usize = 32;
pub const CREATOR_HOST_OS: usize = 36;
pub const ORIGINAL_SIZE: usize = 40;
pub const CURRENT_SIZE: usize = 48;
/// CHS, packed: `u16` cylinders, `u8` heads, `u8` sectors-per-track.
pub const DISK_GEOMETRY: usize = 56;
pub const DISK_TYPE: usize = 60;
/// Left out of the sum while the checksum over the footer is computed.
pub const CHECKSUM: Range<usize> = 64..68;
pub const UNIQUE_ID: Range<usize> = 68..84;
pub const SAVED_STATE: usize = 84;

} // verus!
