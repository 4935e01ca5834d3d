//! VHD dynamic header (1024 bytes; located at footer.data_offset, which
//! is typically 512). Present only for dynamic / differencing VHDs.
//!
//! Layout (offsets within the 1024-byte header):
//!
//! ```text
//!    0   8   cookie ("cxsparse")
//!    8   8   data_offset           (next header in chain; 0xFFFF... if none)
//!   16   8   table_offset          (host offset of the BAT)
//!   24   4   header_version        (0x00010000 = 1.0)
//!   28   4   max_table_entries     (BAT length, in u32 entries)
//!   32   4   block_size            (typically 0x200000 = 2 MiB)
//!   36   4   checksum
//!   40  16   parent_unique_id      (only for differencing)
//!   56   4   parent_timestamp
//!   60   4   reserved
//!   64 512   parent_unicode_name   (UTF-16 BE, zero-padded)
//!  576 192   parent_locator_entries  (eight 24-byte structs)
//!  768 256   reserved (zero)
//! ```
//!
//! All multi-byte integers are big-endian.
use crate::error::{Error, Result};
use crate::format as wire;
use crate::format_laws;
use crate::format::dynamic_offsets as at;
use crate::format::{
    copy16, copy_bytes, has_cookie, ones_complement_checksum, read_u32, read_u64, SECTOR_SIZE,
};
use vstd::prelude::*;

verus! {

pub const DYN_HEADER_SIZE: usize = 1024;

/// "cxsparse".
pub const DYN_HEADER_COOKIE: [u8; 8] = [99, 120, 115, 112, 97, 114, 115, 101];

/// The BAT entry that means "no block here".
pub const BAT_UNALLOCATED: u32 = 0xFFFF_FFFF;

#[derive(Debug, Clone)]
pub struct DynamicHeader {
    pub data_offset: u64,
    pub table_offset: u64,
    pub header_version: u32,
    pub max_table_entries: u32,
    pub block_size: u32,
    pub parent_unique_id: [u8; 16],
    pub parent_timestamp: u32,
    /// Decoded parent name from the UTF-16 BE field; trailing zeros
    /// stripped. Empty for non-differencing VHDs.
    pub parent_name: String,
    /// Eight raw locator entries.
    pub parent_locators: [ParentLocator; 8],
}

#[derive(Debug, Clone, Copy, Default)]
pub struct ParentLocator {
    pub platform_code: [u8; 4],
    pub platform_data_space: u32,
    pub platform_data_length: u32,
    pub reserved: u32,
    pub platform_data_offset: u64,
}

/// `v` is a power of two.
pub open spec fn power_of_two(v: int) -> bool {
    exists|k: nat| v == #[trigger] vstd::arithmetic::power2::pow2(k)
}

/// Whether `v` is a power of two.
pub fn is_power_of_two(v: u32) -> (r: bool)
    ensures
        r == power_of_two(v as int),
{
    let mut p: u64 = 1;
    let ghost mut k: nat = 0;
    proof {
        vstd::arithmetic::power2::lemma2_to64();
    }
    while p < v as u64
        invariant
            p == vstd::arithmetic::power2::pow2(k),
            1 <= p < 2 * 0x1_0000_0000,
            forall|j: nat| j < k ==> #[trigger] vstd::arithmetic::power2::pow2(j) < v,
        decreases 2 * 0x1_0000_0000 - p,
    {
        proof {
            vstd::arithmetic::power2::lemma_pow2_unfold((k + 1) as nat);
            k = (k + 1) as nat;
        }
        p = p * 2;
    }
    proof {
        if power_of_two(v as int) {
            let j = choose|j: nat| v == #[trigger] vstd::arithmetic::power2::pow2(j);
            if j > k {
                vstd::arithmetic::power2::lemma_pow2_strictly_increases(k, j);
            }
        }
    }
    p == v as u64
}

/// A power of two of at least a sector is a whole number of sectors.
pub proof fn lemma_block_is_whole_sectors(v: int)
    requires
        power_of_two(v),
        v >= 512,
    ensures
        v % 512 == 0,
{
    let k = choose|k: nat| v == #[trigger] vstd::arithmetic::power2::pow2(k);
    vstd::arithmetic::power2::lemma2_to64();
    if k < 9 {
        vstd::arithmetic::power2::lemma_pow2_strictly_increases(k, 9);
    } else {
        vstd::arithmetic::power2::lemma_pow2_adds(9, (k - 9) as nat);
        vstd::arithmetic::div_mod::lemma_mod_multiples_basic(
            vstd::arithmetic::power2::pow2((k - 9) as nat) as int,
            512,
        );
        assert(v == vstd::arithmetic::power2::pow2((k - 9) as nat) as int * 512)
            by (nonlinear_arith)
            requires
                v == 512 * vstd::arithmetic::power2::pow2((k - 9) as nat),
        ;
    }
}

/// The sixteen-bit units of `s` from unit `i` on, up to the first zero
/// unit or the end.
pub open spec fn text_units(s: Seq<u8>, i: int) -> Seq<u16>
    decreases s.len() - i,
{
    if i < 0 || 2 * i + 1 >= s.len() || wire::be16(s, 2 * i) == 0 {
        seq![]
    } else {
        seq![wire::be16(s, 2 * i) as u16] + text_units(s, i + 1)
    }
}

/// The text that `units` encode in UTF-16; `None` where a surrogate stands
/// without its partner.
pub open spec fn utf16_text(units: Seq<u16>) -> Option<Seq<char>>
    decreases units.len(),
{
    if units.len() == 0 {
        Some(seq![])
    } else if units[0] < 0xD800 || units[0] >= 0xE000 {
        match utf16_text(units.skip(1)) {
            Some(rest) => Some(seq![units[0] as char] + rest),
            None => None,
        }
    } else if units[0] < 0xDC00 && units.len() >= 2 && 0xDC00 <= units[1] < 0xE000 {
        match utf16_text(units.skip(2)) {
            Some(rest) => Some(
                seq![(0x1_0000 + (units[0] - 0xD800) * 0x400 + (units[1] - 0xDC00)) as char] + rest,
            ),
            None => None,
        }
    } else {
        None
    }
}

/// The name held in a zero-padded UTF-16 BE field; empty where the field
/// holds no valid UTF-16.
pub open spec fn decoded_name(s: Seq<u8>) -> Seq<char> {
    match utf16_text(text_units(s, 0)) {
        Some(text) => text,
        None => seq![],
    }
}

/// The checksum that a dynamic header with these bytes has to carry.
pub open spec fn header_checksum(s: Seq<u8>) -> int {
    wire::checksum(s, DYN_HEADER_SIZE as int, at::CHECKSUM.start as int, at::CHECKSUM.end as int)
}

/// Why the bytes `s` are not a dynamic header, or `None` where they are
/// one. What stands first wins.
pub open spec fn header_refusal(s: Seq<u8>) -> Option<Error> {
    if s.len() < DYN_HEADER_SIZE {
        Some(Error::Corrupt("dynamic header shorter than 1024 bytes"))
    } else if wire::field(s, 0, 8) != DYN_HEADER_COOKIE@ {
        Some(Error::Corrupt("dynamic header bad cookie"))
    } else if wire::be32(s, at::CHECKSUM.start as int) != header_checksum(s) {
        Some(
            Error::BadChecksum {
                expected: wire::be32(s, at::CHECKSUM.start as int) as u32,
                found: header_checksum(s) as u32,
                what: "dynamic-header",
            },
        )
    } else if !power_of_two(wire::be32(s, at::BLOCK_SIZE as int)) {
        Some(Error::Corrupt("block_size is not a power of two"))
    } else if wire::be32(s, at::BLOCK_SIZE as int) < SECTOR_SIZE {
        Some(Error::Corrupt("block_size < 512"))
    } else {
        None
    }
}

/// Bytes in the sector bitmap of a block: one bit per sector, in whole
/// bytes, padded to whole sectors.
pub open spec fn bitmap_bytes(block_size: int) -> int {
    ((block_size / 512 + 7) / 8 + 511) / 512 * 512
}

impl ParentLocator {
    /// Every field of this value is that field of the locator entry that
    /// starts at `off` in `s`.
    pub open spec fn describes(self, s: Seq<u8>, off: int) -> bool {
        &&& self.platform_code@ == wire::field(s, off, 4)
        &&& self.platform_data_space == wire::be32(s, off + 4)
        &&& self.platform_data_length == wire::be32(s, off + 8)
        &&& self.reserved == wire::be32(s, off + 12)
        &&& self.platform_data_offset == wire::be64(s, off + 16)
    }

    fn parse(bytes: &[u8], off: usize) -> (r: Self)
        requires
            off + 24 <= bytes.len(),
        ensures
            r.describes(bytes@, off as int),
    {
        let r = ParentLocator {
            platform_code: [bytes[off], bytes[off + 1], bytes[off + 2], bytes[off + 3]],
            platform_data_space: read_u32(bytes, off + 4),
            platform_data_length: read_u32(bytes, off + 8),
            reserved: read_u32(bytes, off + 12),
            platform_data_offset: read_u64(bytes, off + 16),
        };
        proof {
            assert(r.platform_code@ =~= wire::field(bytes@, off as int, 4));
        }
        r
    }
}

impl DynamicHeader {
    /// Every field of this value is the field of that name in the dynamic
    /// header bytes `s`.
    pub open spec fn describes(self, s: Seq<u8>) -> bool {
        &&& self.data_offset == wire::be64(s, at::DATA_OFFSET as int)
        &&& self.table_offset == wire::be64(s, at::TABLE_OFFSET as int)
        &&& self.header_version == wire::be32(s, at::HEADER_VERSION as int)
        &&& self.max_table_entries == wire::be32(s, at::MAX_TABLE_ENTRIES as int)
        &&& self.block_size == wire::be32(s, at::BLOCK_SIZE as int)
        &&& self.parent_unique_id@ == wire::field(s, at::PARENT_UNIQUE_ID.start as int, 16)
        &&& self.parent_timestamp == wire::be32(s, at::PARENT_TIMESTAMP as int)
        &&& self.parent_name@ == decoded_name(
            s.subrange(
                at::PARENT_UNICODE_NAME.start as int,
                at::PARENT_UNICODE_NAME.end as int,
            ),
        )
        &&& forall|i: int|
            0 <= i < at::PARENT_LOCATOR_COUNT ==> (#[trigger] self.parent_locators@[i]).describes(
                s,
                at::PARENT_LOCATORS + i * at::PARENT_LOCATOR_STRIDE,
            )
    }

    pub fn parse(bytes: &[u8]) -> (r: Result<Self>)
        ensures
            r is Ok <==> header_refusal(bytes@) is None,
            r is Ok <==> format_laws::is_header(bytes@),
            r matches Ok(h) ==> h.describes(bytes@),
            r matches Err(e) ==> header_refusal(bytes@) == Some(e),
    {
        proof {
            format_laws::law_header_is_taken_exactly_where(bytes@);
        }
        if bytes.len() < DYN_HEADER_SIZE {
            return Err(Error::Corrupt("dynamic header shorter than 1024 bytes"));
        }
        if !has_cookie(bytes, &DYN_HEADER_COOKIE) {
            return Err(Error::Corrupt("dynamic header bad cookie"));
        }
        let stored_checksum: u32 = read_u32(bytes, at::CHECKSUM.start);
        let computed_checksum: u32 = compute_checksum(bytes);
        if stored_checksum != computed_checksum {
            return Err(
                Error::BadChecksum {
                    expected: stored_checksum,
                    found: computed_checksum,
                    what: "dynamic-header",
                },
            );
        }
        let block_size: u32 = read_u32(bytes, at::BLOCK_SIZE);
        if !is_power_of_two(block_size) {
            return Err(Error::Corrupt("block_size is not a power of two"));
        }
        if (block_size as u64) < SECTOR_SIZE {
            return Err(Error::Corrupt("block_size < 512"));
        }
        let name_field = copy_bytes(bytes, at::PARENT_UNICODE_NAME);
        Ok(
            DynamicHeader {
                data_offset: read_u64(bytes, at::DATA_OFFSET),
                table_offset: read_u64(bytes, at::TABLE_OFFSET),
                header_version: read_u32(bytes, at::HEADER_VERSION),
                max_table_entries: read_u32(bytes, at::MAX_TABLE_ENTRIES),
                block_size,
                parent_unique_id: copy16(bytes, at::PARENT_UNIQUE_ID.start),
                parent_timestamp: read_u32(bytes, at::PARENT_TIMESTAMP),
                parent_name: decode_utf16_be(&name_field),
                parent_locators: [
                    ParentLocator::parse(bytes, 576),
                    ParentLocator::parse(bytes, 600),
                    ParentLocator::parse(bytes, 624),
                    ParentLocator::parse(bytes, 648),
                    ParentLocator::parse(bytes, 672),
                    ParentLocator::parse(bytes, 696),
                    ParentLocator::parse(bytes, 720),
                    ParentLocator::parse(bytes, 744),
                ],
            },
        )
    }

    /// Bytes per block bitmap, padded up to a sector multiple. With
    /// 512-byte sectors and the typical 2-MiB block size: 4096
    /// sectors / block, 4096 / 8 = 512 bytes = 1 sector.
    pub fn bitmap_size_bytes(&self) -> (r: u64)
        ensures
            r == bitmap_bytes(self.block_size as int),
    {
        let bits: u64 = self.block_size as u64 / SECTOR_SIZE;
        let bytes: u64 = (bits + 7) / 8;
        // Round up to a 512-byte sector.
        (bytes + (SECTOR_SIZE - 1)) / SECTOR_SIZE * SECTOR_SIZE
    }
}

/// A bitmap always covers every sector of its block: whatever the block
/// size, the byte that holds the bit of any sector lies inside the bitmap.
pub proof fn law_bitmap_covers_every_sector(block_size: int, sector: int)
    requires
        0 <= sector < block_size / 512,
    ensures
        0 <= sector / 8 < bitmap_bytes(block_size),
        bitmap_bytes(block_size) % 512 == 0,
{
}

/// One's complement of the `u32` sum, with the checksum field (36..40)
/// left out. Same algorithm as the footer.
pub fn compute_checksum(header_bytes: &[u8]) -> (r: u32)
    ensures
        r == header_checksum(header_bytes@),
        header_bytes@.len() >= 1024 ==> (r + format_laws::total(header_bytes@.take(36))
            + format_laws::total(header_bytes@.subrange(40, 1024))) % 0x1_0000_0000 == 0xFFFF_FFFF,
{
    proof {
        if header_bytes@.len() >= 1024 {
            format_laws::law_header_checksum_complements_the_sum(header_bytes@);
        }
    }
    ones_complement_checksum(header_bytes, DYN_HEADER_SIZE, at::CHECKSUM)
}

/// `String::from_utf16`: the text that the units encode, and a failure
/// exactly where a surrogate stands without its partner.
#[verifier::external_body]
fn string_from_utf16(units: &Vec<u16>) -> (r: Option<String>)
    ensures
        match r {
            Some(text) => utf16_text(units@) == Some(text@),
            None => utf16_text(units@) is None,
        },
{
    String::from_utf16(units).ok()
}

pub fn decode_utf16_be(bytes: &[u8]) -> (r: String)
    ensures
        r@ == decoded_name(bytes@),
{
    let mut units: Vec<u16> = Vec::new();
    let mut i: usize = 0;
    let n: usize = bytes.len() / 2;
    while i < n
        invariant_except_break
            i <= n,
            n == bytes@.len() / 2,
            n <= usize::MAX / 2,
            text_units(bytes@, 0) == units@ + text_units(bytes@, i as int),
        ensures
            text_units(bytes@, 0) == units@,
        decreases n - i,
    {
        let u: u16 = bytes[2 * i] as u16 * 0x100 + bytes[2 * i + 1] as u16;
        if u == 0 {
            break;
        }
        units.push(u);
        i += 1;
    }
    match string_from_utf16(&units) {
        Some(text) => text,
        None => {
            let text = String::new();
            proof {
                assert(text@ =~= seq![]);
            }
            text
        },
    }
}

} // verus!
