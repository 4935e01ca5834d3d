//! Byte offsets of the dynamic header's fields, per the layout at the
//! top of [`crate::dynamic`].
use std::ops::Range;
use vstd::prelude::*;

verus! {

pub const COOKIE: Range<usize> = 0..8;
pub const DATA_OFFSET: usize = 8;
pub const TABLE_OFFSET: usize = 16;
pub const HEADER_VERSION: usize = 24;
pub const MAX_TABLE_ENTRIES: usize = 28;
pub const BLOCK_SIZE: usize = 32;
/// Left out of the sum while the checksum over the header is computed.
pub const CHECKSUM: Range<usize> = 36..40;
pub const PARENT_UNIQUE_ID: Range<usize> = 40..56;
pub const PARENT_TIMESTAMP: usize = 56;
/// UTF-16 big-endian, zero-padded to its full width.
pub const PARENT_UNICODE_NAME: Range<usize> = 64..576;
/// Eight 24-byte structs.
pub const PARENT_LOCATORS: usize = 576;
pub const PARENT_LOCATOR_STRIDE: usize = 24;
pub const PARENT_LOCATOR_COUNT: usize = 8;

} // verus!
