//! An opened VHD: the metadata of the image and of every parent below it,
//! and what the guest sees through them.
use crate::disk_laws;
use crate::dynamic as dynamic_header;
use crate::dynamic::{DynamicHeader, BAT_UNALLOCATED};
use crate::error::{Error, Result};
use crate::footer::{DiskType, Footer};
use crate::format::SECTOR_SIZE;
use vstd::prelude::*;

verus! {

/// Maximum differencing-chain depth. A pathological chain (or cycle) is
/// rejected rather than followed for ever.
pub const MAX_PARENT_DEPTH: usize = 16;

/// The sparse part of a dynamic or differencing image.
pub struct Sparse {
    pub header: DynamicHeader,
    /// The block allocation table: per virtual block, the sector at which
    /// its bitmap starts, or [`BAT_UNALLOCATED`].
    pub bat: Vec<u32>,
    /// Size of one block bitmap in bytes (sector-padded).
    pub bitmap_size: u64,
    /// Host offset where the next block's bitmap will be placed: where the
    /// trailing footer sits, unless there is none or an allocation failed
    /// half-way.
    pub next_alloc: u64,
}

/// One image of a chain.
pub struct Image {
    pub footer: Footer,
    /// The footer's own bytes, rewritten at the tail after a new block.
    pub footer_bytes: Vec<u8>,
    /// The trailing footer was damaged, and the copy at offset 0 used.
    pub recovered: bool,
    /// `None` for fixed disks.
    pub sparse: Option<Sparse>,
}

/// A VHD opened for reading, or for reading and writing.
pub struct VhdReader {
    /// The image itself, then its parent, that one's parent, and so on.
    pub images: Vec<Image>,
    /// Whether the device of the first image takes writes.
    pub writable: bool,
}

/// Host offset of the block that a BAT entry names.
pub open spec fn block_host(entry: u32) -> int {
    entry * 512
}

/// The bit of `byte` that stands for sector `k` of the eight it covers:
/// sector 0 is the top bit.
pub open spec fn sector_bit(byte: u8, k: int) -> bool {
    byte & (0x80u8 >> (k as u8)) != 0
}

/// Whether the bitmap marks `sector` present.
pub open spec fn sector_set(bitmap: Seq<u8>, sector: int) -> bool {
    sector_bit(bitmap[sector / 8], sector % 8)
}

/// Whether the block whose bitmap starts at `host` on `dev` holds the byte
/// at `i` within the block.
pub open spec fn byte_present(dev: Seq<u8>, host: int, i: int) -> bool {
    sector_bit(dev[host + i / 512 / 8], i / 512 % 8)
}

/// Two blocks of `total` bytes, at the sectors `a` and `b`, share a byte.
pub open spec fn blocks_overlap(a: u32, b: u32, total: int) -> bool {
    block_host(a) < block_host(b) + total && block_host(b) < block_host(a) + total
}

impl Sparse {
    pub open spec fn block_size(self) -> int {
        self.header.block_size as int
    }

    pub open spec fn bitmap(self) -> int {
        dynamic_header::bitmap_bytes(self.block_size())
    }

    /// Bytes that one block takes on the device: bitmap, then data.
    pub open spec fn block_total(self) -> int {
        self.bitmap() + self.block_size()
    }

    /// Host offset just past the block allocation table.
    pub open spec fn table_end(self) -> int {
        self.header.table_offset + 4 * self.bat@.len()
    }

    /// Every block that the table names ends at or before the tail.
    pub open spec fn below_tail(self) -> bool {
        forall|b: int|
            0 <= b < self.bat@.len() && #[trigger] self.bat@[b] != BAT_UNALLOCATED
                ==> block_host(self.bat@[b]) + self.block_total() <= self.next_alloc
    }

    /// No two virtual blocks share a byte of the device.
    pub open spec fn disjoint(self) -> bool {
        forall|b: int, c: int|
            0 <= b < self.bat@.len() && 0 <= c < self.bat@.len() && b != c && #[trigger] self.bat@[b]
                != BAT_UNALLOCATED && #[trigger] self.bat@[c] != BAT_UNALLOCATED
                ==> !blocks_overlap(self.bat@[b], self.bat@[c], self.block_total())
    }

    pub open spec fn wf(self, virtual_size: int) -> bool {
        &&& dynamic_header::power_of_two(self.block_size())
        &&& self.block_size() >= 512
        &&& self.bitmap_size == self.bitmap()
        &&& self.bat@.len() == self.header.max_table_entries
        &&& virtual_size <= self.bat@.len() * self.block_size()
        &&& self.table_end() <= u64::MAX
        &&& self.next_alloc % 512 == 0
        &&& self.below_tail()
        &&& self.disjoint()
    }
}

impl Image {
    pub open spec fn size(self) -> int {
        self.footer.current_size as int
    }

    pub open spec fn wf(self) -> bool {
        &&& self.footer_bytes@.len() == 512
        &&& self.footer.describes(self.footer_bytes@)
        &&& self.sparse is Some <==> self.footer.disk_type != DiskType::Fixed
        &&& self.sparse matches Some(s) ==> s.wf(self.size())
    }
}

/// The byte that the guest sees at `v` of image `k` of the chain, where
/// `devs` holds the bytes of each image's device: the image's own byte
/// where it has one, else the parent's, else zero. Beyond the end of a
/// parent there are zeros.
pub open spec fn guest_byte(images: Seq<Image>, devs: Seq<Seq<u8>>, k: int, v: int) -> u8
    decreases images.len() - k,
{
    if k < 0 || k >= images.len() || v >= images[k].size() {
        0
    } else {
        match images[k].sparse {
            None => devs[k][v],
            Some(s) => {
                let entry = s.bat@[v / s.block_size()];
                let i = v % s.block_size();
                if entry != BAT_UNALLOCATED && byte_present(devs[k], block_host(entry), i) {
                    devs[k][block_host(entry) + s.bitmap() + i]
                } else {
                    guest_byte(images, devs, k + 1, v)
                }
            },
        }
    }
}

impl VhdReader {
    pub open spec fn wf(self) -> bool {
        &&& 0 < self.images@.len() <= MAX_PARENT_DEPTH
        &&& forall|k: int| 0 <= k < self.images@.len() ==> (#[trigger] self.images@[k]).wf()
        &&& forall|k: int|
            0 <= k < self.images@.len() ==> ((#[trigger] self.images@[k]).footer.disk_type
                == DiskType::Differencing <==> k + 1 < self.images@.len())
    }

    /// The disk that the guest sees, where `devs` holds the bytes of each
    /// image's device.
    pub open spec fn guest(self, devs: Seq<Seq<u8>>) -> Seq<u8> {
        Seq::new(
            self.images@[0].size() as nat,
            |v: int| guest_byte(self.images@, devs, 0, v),
        )
    }

    pub fn virtual_size(&self) -> (r: u64)
        requires
            self.wf(),
        ensures
            r == self.images@[0].size(),
    {
        self.images[0].footer.current_size
    }

    pub fn disk_type(&self) -> (r: DiskType)
        requires
            self.wf(),
        ensures
            r == self.images@[0].footer.disk_type,
    {
        self.images[0].footer.disk_type
    }

    /// Block size for dynamic/differencing disks; 0 for fixed.
    pub fn block_size(&self) -> (r: u32)
        requires
            self.wf(),
        ensures
            r == match self.images@[0].sparse {
                Some(s) => s.header.block_size,
                None => 0,
            },
    {
        match &self.images[0].sparse {
            Some(s) => s.header.block_size,
            None => 0,
        }
    }

    pub fn has_parent(&self) -> (r: bool)
        requires
            self.wf(),
        ensures
            r == (self.images@.len() > 1),
            r == (self.images@[0].footer.disk_type == DiskType::Differencing),
    {
        self.images.len() > 1
    }

    pub fn footer(&self) -> (r: &Footer)
        requires
            self.wf(),
        ensures
            *r == self.images@[0].footer,
    {
        &self.images[0].footer
    }

    /// Whether the trailing footer was damaged and the image was opened
    /// from the copy at offset 0.
    pub fn footer_recovered_from_mirror(&self) -> (r: bool)
        requires
            self.wf(),
        ensures
            r == self.images@[0].recovered,
    {
        self.images[0].recovered
    }

    /// True only when the underlying device was opened RW *and* the
    /// subtype has a write path: fixed and dynamic.
    pub fn writable(&self) -> (r: bool)
        requires
            self.wf(),
        ensures
            r == self.takes_writes(),
    {
        self.writable && match self.images[0].footer.disk_type {
            DiskType::Fixed | DiskType::Dynamic => true,
            DiskType::Differencing => false,
        }
    }

    pub open spec fn takes_writes(self) -> bool {
        self.writable && self.images@[0].footer.disk_type != DiskType::Differencing
    }

    /// Whether flushing has to reach the underlying device. A read-only
    /// reader has nothing to flush, so callers can flush opportunistically
    /// without checking the mode first.
    pub fn flush_writes(&self) -> (r: bool)
        ensures
            r == self.writable,
    {
        self.writable
    }

    /// Is the sector at `sector_in_block` present in this image?
    ///
    /// A block's bitmap is MSB-first: sector 0 is bit 7 of byte 0, sector 7
    /// is bit 0 of byte 0, sector 8 is bit 7 of byte 1. That is the single
    /// fact the read and write paths have to agree on.
    pub fn bitmap_get(bitmap: &[u8], sector_in_block: u64) -> (r: bool)
        requires
            sector_in_block / 8 < bitmap.len(),
        ensures
            r == sector_set(bitmap@, sector_in_block as int),
            r <==> bitmap@[sector_in_block as int / 8] as int / disk_laws::weight(
                sector_in_block as int % 8,
            ) % 2 == 1,
    {
        proof {
            disk_laws::law_bitmap_sector(bitmap@, sector_in_block as int);
        }
        let bit: u8 = (sector_in_block % 8) as u8;
        bitmap[(sector_in_block / 8) as usize] & (0x80u8 >> bit) != 0
    }

    /// Mark the sector at `sector_in_block` present. Same MSB-first
    /// ordering as [`Self::bitmap_get`].
    pub fn bitmap_set(bitmap: &mut Vec<u8>, sector_in_block: u64)
        requires
            sector_in_block / 8 < old(bitmap).len(),
        ensures
            final(bitmap)@.len() == old(bitmap)@.len(),
            forall|s: int|
                0 <= s < 8 * final(bitmap)@.len() ==> (#[trigger] sector_set(final(bitmap)@, s) <==> s
                    == sector_in_block || sector_set(old(bitmap)@, s)),
            forall|i: int|
                0 <= i < final(bitmap)@.len() && i != sector_in_block / 8 ==> final(bitmap)@[i]
                    == old(bitmap)@[i],
    {
        let bit: u8 = (sector_in_block % 8) as u8;
        let at: usize = (sector_in_block / 8) as usize;
        let byte: u8 = bitmap[at];
        let marked: u8 = byte | (0x80u8 >> bit);
        bitmap[at] = marked;
        proof {
            assert forall|k: u8| k < 8 implies (marked & (0x80u8 >> k) != 0 <==> k == bit || byte & (
            0x80u8 >> k) != 0) by {
                assert(k < 8 && bit < 8 ==> ((byte | (0x80u8 >> bit)) & (0x80u8 >> k) != 0 <==> k
                    == bit || byte & (0x80u8 >> k) != 0)) by (bit_vector);
            }
            assert forall|s: int| 0 <= s < 8 * bitmap@.len() implies (#[trigger] sector_set(
                bitmap@,
                s,
            ) <==> s == sector_in_block || sector_set(old(bitmap)@, s)) by {
                let k = (s % 8) as u8;
                assert(k < 8);
            }
        }
    }
}

/// No sector is present in a bitmap byte of zero.
pub proof fn lemma_zero_byte_marks_nothing(k: int)
    requires
        0 <= k < 8,
    ensures
        !sector_bit(0, k),
{
    let b = k as u8;
    assert(0u8 & (0x80u8 >> b) == 0) by (bit_vector);
}

/// Why no BAT entry can name the block at `host_off`, or `None` where one
/// can.
pub open spec fn entry_refusal_for(host_off: int) -> Option<Error> {
    if host_off % 512 != 0 {
        Some(Error::Corrupt("a block was placed at an offset that is not a sector boundary"))
    } else if host_off / 512 > u32::MAX {
        Some(
            Error::Corrupt("a block was placed past the highest sector a BAT entry can name"),
        )
    } else if host_off / 512 == BAT_UNALLOCATED {
        Some(
            Error::Corrupt(
                "a block was placed at the one sector the BAT reserves to mean \"absent\"",
            ),
        )
    } else {
        None
    }
}

/// The BAT entry that names the block at `host_off`.
///
/// A BAT entry is a sector index, so it can only name an offset that is
/// sector-aligned, whose index fits a `u32`, and whose index is not the
/// one that means "absent".
pub fn bat_entry_for(host_off: u64) -> (r: Result<u32>)
    ensures
        r is Ok <==> entry_refusal_for(host_off as int) is None,
        r is Ok <==> host_off % 512 == 0 && host_off / 512 < 0xFFFF_FFFF,
        r matches Ok(entry) ==> entry == host_off / 512,
        r matches Ok(entry) ==> block_host(entry) == host_off && entry != BAT_UNALLOCATED,
        r matches Err(e) ==> entry_refusal_for(host_off as int) == Some(e),
{
    if host_off % SECTOR_SIZE != 0 {
        return Err(Error::Corrupt("a block was placed at an offset that is not a sector boundary"));
    }
    let sector: u64 = host_off / SECTOR_SIZE;
    if sector > u32::MAX as u64 {
        return Err(
            Error::Corrupt("a block was placed past the highest sector a BAT entry can name"),
        );
    }
    let entry: u32 = sector as u32;
    if entry == BAT_UNALLOCATED {
        return Err(
            Error::Corrupt(
                "a block was placed at the one sector the BAT reserves to mean \"absent\"",
            ),
        );
    }
    Ok(entry)
}

} // verus!
