//! Creating: the bytes of a fresh image.
use crate::build_laws;
use crate::device;
use crate::dynamic as dynamic_header;
use crate::dynamic::{is_power_of_two, BAT_UNALLOCATED, DYN_HEADER_COOKIE, DYN_HEADER_SIZE};
use crate::error::{Error, Result};
use crate::footer as footer_block;
use crate::footer::{DiskType, FOOTER_SIZE};
use crate::footer_build;
use crate::footer_build::{
    build_fixed_footer, compose_footer, generate_uuid_v4, vhd_timestamp_now, Entropy,
};
use crate::format as wire;
use crate::format::dynamic_offsets as at;
use crate::format::footer_offsets;
use crate::format::{copy_bytes, write_bytes, write_u32, write_u64, SECTOR_SIZE};
use crate::opening;
use crate::reader::VhdReader;
use crate::reopening_laws;
use vstd::prelude::*;

verus! {

/// Host offset of the dynamic header in a fresh dynamic image: behind the
/// footer's copy.
pub const NEW_HEADER_OFFSET: u64 = 512;

/// Host offset of the block allocation table in a fresh dynamic image:
/// behind the header.
pub const NEW_TABLE_OFFSET: u64 = 1536;

/// A fresh fixed image: zeros, then the footer.
#[derive(Debug)]
pub struct NewFixed {
    /// How long the file is.
    pub total_len: u64,
    /// Where the footer goes: behind the virtual disk.
    pub footer_offset: u64,
    pub footer: [u8; FOOTER_SIZE],
}

/// A fresh dynamic image: the footer's copy and the dynamic header, the
/// block allocation table without an entry, then the footer.
#[derive(Debug)]
pub struct NewDynamic {
    pub total_len: u64,
    /// The footer's copy and the dynamic header, from offset 0 on.
    pub head: Vec<u8>,
    /// How many bytes of 0xFF follow.
    pub table_len: u64,
    pub footer: [u8; FOOTER_SIZE],
}

impl NewFixed {
    /// The bytes of the image.
    pub open spec fn image(self) -> Seq<u8> {
        device::zeros(self.footer_offset as int) + self.footer@
    }
}

impl NewDynamic {
    /// The bytes of the image.
    pub open spec fn image(self) -> Seq<u8> {
        self.head@ + Seq::new(self.table_len as nat, |i: int| 0xFFu8) + self.footer@
    }

    /// The identity in the image's footer.
    pub open spec fn identity(self) -> Seq<u8> {
        wire::field(self.footer@, footer_offsets::UNIQUE_ID.start as int, 16)
    }
}

/// Why no fixed image of this size is created, or `None` where one is.
pub open spec fn fixed_refusal(size: int) -> Option<Error> {
    if size == 0 || size % 512 != 0 {
        Some(
            Error::Corrupt("create_fixed: virtual_size must be a positive multiple of 512"),
        )
    } else if size + 512 > u64::MAX {
        Some(Error::Corrupt("create_fixed: size overflow"))
    } else {
        None
    }
}

/// The number of blocks that a disk of `size` bytes is made of.
pub open spec fn blocks_needed(size: int, block_size: int) -> int {
    (size + block_size - 1) / block_size
}

/// Why no dynamic image of this size and block size is created, or `None`
/// where one is.
pub open spec fn dynamic_refusal(size: int, block_size: int) -> Option<Error> {
    if size == 0 || size % 512 != 0 {
        Some(
            Error::Corrupt("create_dynamic: virtual_size must be a positive multiple of 512"),
        )
    } else if !dynamic_header::power_of_two(block_size) || block_size < 512 {
        Some(
            Error::Corrupt("create_dynamic: block_size must be a power of two of at least 512"),
        )
    } else if blocks_needed(size, block_size) > u32::MAX {
        Some(
            Error::Corrupt("create_dynamic: virtual_size needs more blocks than a BAT can name"),
        )
    } else {
        None
    }
}

/// `h` is the complete header of a new dynamic image.
#[verifier::opaque]
pub open spec fn is_new_header(h: Seq<u8>, entries: u32, block_size: u32) -> bool {
    &&& h.len() == 1024
    &&& wire::field(h, 0, 8) == DYN_HEADER_COOKIE@
    &&& wire::be64(h, at::DATA_OFFSET as int) == u64::MAX
    &&& wire::be64(h, at::TABLE_OFFSET as int) == NEW_TABLE_OFFSET
    &&& wire::be32(h, at::HEADER_VERSION as int) == 0x0001_0000
    &&& wire::be32(h, at::MAX_TABLE_ENTRIES as int) == entries
    &&& wire::be32(h, at::BLOCK_SIZE as int) == block_size
    &&& wire::be32(h, at::CHECKSUM.start as int) == dynamic_header::header_checksum(h)
    &&& forall|i: int| at::CHECKSUM.end <= i < 1024 ==> #[trigger] h[i] == 0
}

/// Compose the header of a new dynamic image.
pub fn compose_header(entries: u32, block_size: u32) -> (h: [u8; DYN_HEADER_SIZE])
    ensures
        is_new_header(h@, entries, block_size),
{
    let mut h = [0u8; DYN_HEADER_SIZE];
    write_bytes(&mut h, at::COOKIE.start, &DYN_HEADER_COOKIE);
    // No next header.
    write_u64(&mut h, at::DATA_OFFSET, u64::MAX);
    write_u64(&mut h, at::TABLE_OFFSET, NEW_TABLE_OFFSET);
    write_u32(&mut h, at::HEADER_VERSION, 0x0001_0000);
    write_u32(&mut h, at::MAX_TABLE_ENTRIES, entries);
    write_u32(&mut h, at::BLOCK_SIZE, block_size);
    let ghost before = h@;
    let sum: u32 = crate::dynamic::compute_checksum(&h);
    write_u32(&mut h, at::CHECKSUM.start, sum);
    proof {
        reveal(is_new_header);
        wire::lemma_byte_sum_agrees(before, h@, 1024, 36, 40);
        assert(wire::field(h@, 0, 8) =~= DYN_HEADER_COOKIE@);
    }
    h
}

/// A new header is one that the parser takes, and it reads back as what it
/// was built from.
pub proof fn law_new_header_parses_back(
    h: Seq<u8>,
    entries: u32,
    block_size: u32,
    parsed: dynamic_header::DynamicHeader,
)
    requires
        is_new_header(h, entries, block_size),
        dynamic_header::power_of_two(block_size as int),
        block_size >= 512,
        parsed.describes(h),
    ensures
        dynamic_header::header_refusal(h) is None,
        parsed.max_table_entries == entries,
        parsed.block_size == block_size,
        parsed.table_offset == NEW_TABLE_OFFSET,
{
    reveal(is_new_header);
}

impl VhdReader {
    /// Lay out a fresh fixed VHD of the given virtual size:
    /// `[virtual_size_bytes of zeros][512-byte fixed footer]`.
    ///
    /// `virtual_size_bytes` must be sector-aligned (a multiple of 512);
    /// otherwise [`Error::Corrupt`] is returned.
    pub fn create_fixed(virtual_size_bytes: u64, entropy: &Entropy) -> (r: Result<NewFixed>)
        ensures
            r is Ok <==> fixed_refusal(virtual_size_bytes as int) is None,
            r is Ok <==> 0 < virtual_size_bytes <= u64::MAX - 512 && virtual_size_bytes % 512 == 0,
            r matches Ok(new) ==> {
                &&& new.footer_offset == virtual_size_bytes
                &&& new.total_len == new.image().len()
                &&& exists|timestamp: u32, id: Seq<u8>|
                    {
                        &&& #[trigger] footer_build::is_new_footer(
                            new.footer@,
                            virtual_size_bytes,
                            DiskType::Fixed,
                            u64::MAX,
                            timestamp,
                            id,
                        )
                        &&& footer_build::is_uuid_v4(id)
                        &&& footer_build::is_fresh_identity(id, *entropy)
                    }
            },
            r matches Err(e) ==> fixed_refusal(virtual_size_bytes as int) == Some(e),
    {
        if virtual_size_bytes == 0 || virtual_size_bytes % SECTOR_SIZE != 0 {
            return Err(
                Error::Corrupt("create_fixed: virtual_size must be a positive multiple of 512"),
            );
        }
        let total_len: u64 = match virtual_size_bytes.checked_add(FOOTER_SIZE as u64) {
            Some(len) => len,
            None => {
                return Err(Error::Corrupt("create_fixed: size overflow"));
            },
        };
        let footer = build_fixed_footer(virtual_size_bytes, entropy);
        Ok(NewFixed { total_len, footer_offset: virtual_size_bytes, footer })
    }

    /// Lay out a fresh dynamic VHD of the given virtual size, without a
    /// block.
    ///
    /// `virtual_size_bytes` must be a positive multiple of 512 and
    /// `block_size` a power of two of at least 512; otherwise
    /// [`Error::Corrupt`] is returned.
    pub fn create_dynamic(virtual_size_bytes: u64, block_size: u32, entropy: &Entropy) -> (r: Result<
        NewDynamic,
    >)
        ensures
            r is Ok <==> dynamic_refusal(virtual_size_bytes as int, block_size as int) is None,
            r is Ok <==> {
                &&& 0 < virtual_size_bytes <= u32::MAX * block_size
                &&& virtual_size_bytes % 512 == 0
                &&& block_size >= 512
                &&& exists|k: nat| block_size == #[trigger] vstd::arithmetic::power2::pow2(k)
            },
            r matches Ok(new) ==> is_new_dynamic(new, virtual_size_bytes, block_size)
                && footer_build::is_fresh_identity(new.identity(), *entropy),
            r matches Err(e) ==> dynamic_refusal(virtual_size_bytes as int, block_size as int)
                == Some(e),
    {
        proof {
            build_laws::law_dynamic_image_is_created_exactly_where(virtual_size_bytes, block_size);
        }
        if virtual_size_bytes == 0 || virtual_size_bytes % SECTOR_SIZE != 0 {
            return Err(
                Error::Corrupt("create_dynamic: virtual_size must be a positive multiple of 512"),
            );
        }
        if !is_power_of_two(block_size) || (block_size as u64) < SECTOR_SIZE {
            return Err(
                Error::Corrupt("create_dynamic: block_size must be a power of two of at least 512"),
            );
        }
        let whole: u64 = virtual_size_bytes / block_size as u64;
        let entries: u64 = if virtual_size_bytes % block_size as u64 == 0 {
            whole
        } else {
            proof {
                assert(whole <= u64::MAX / 512) by (nonlinear_arith)
                    requires
                        whole == virtual_size_bytes / block_size as u64,
                        block_size >= 512,
                ;
            }
            whole + 1
        };
        proof {
            lemma_blocks_needed(virtual_size_bytes as int, block_size as int);
        }
        if entries > u32::MAX as u64 {
            return Err(
                Error::Corrupt(
                    "create_dynamic: virtual_size needs more blocks than a BAT can name",
                ),
            );
        }
        Ok(assemble_dynamic(virtual_size_bytes, block_size, entries as u32, entropy))
    }
}

/// The footer's copy, then the header.
fn lay_head(footer: &[u8; FOOTER_SIZE], header: &[u8; DYN_HEADER_SIZE]) -> (head: Vec<u8>)
    ensures
        head@.len() == 1536,
        head@.subrange(0, 512) == footer@,
        head@.subrange(512, 1536) == header@,
{
    let mut head = copy_bytes(footer, 0..FOOTER_SIZE);
    let mut rest = copy_bytes(header, 0..DYN_HEADER_SIZE);
    head.append(&mut rest);
    proof {
        assert(head@.subrange(0, 512) =~= footer@);
        assert(head@.subrange(512, 1536) =~= header@);
    }
    head
}

fn assemble_dynamic(size: u64, block_size: u32, entries: u32, entropy: &Entropy) -> (new: NewDynamic)
    requires
        entries == blocks_needed(size as int, block_size as int),
    ensures
        is_new_dynamic(new, size, block_size),
        footer_build::is_fresh_identity(new.identity(), *entropy),
{
    let timestamp: u32 = vhd_timestamp_now();
    let id = generate_uuid_v4(entropy);
    let footer = compose_footer(size, DiskType::Dynamic, NEW_HEADER_OFFSET, timestamp, &id);
    let header = compose_header(entries, block_size);
    let head = lay_head(&footer, &header);
    let table_len: u64 = (4 * entries as u64 + (SECTOR_SIZE - 1)) / SECTOR_SIZE * SECTOR_SIZE;
    let total_len: u64 = NEW_TABLE_OFFSET + table_len + FOOTER_SIZE as u64;
    let new = NewDynamic { total_len, head, table_len, footer };
    proof {
        reveal(footer_build::is_new_footer);
        assert(footer_build::is_new_footer(
                new.footer@,
                size,
                DiskType::Dynamic,
                NEW_HEADER_OFFSET,
                timestamp,
                id@,
            ));
        assert(new.total_len == new.image().len());
    }
    new
}

proof fn lemma_blocks_needed(size: int, block_size: int)
    requires
        size >= 0,
        block_size > 0,
    ensures
        blocks_needed(size, block_size) == if size % block_size == 0 {
            size / block_size
        } else {
            size / block_size + 1
        },
        blocks_needed(size, block_size) * block_size >= size,
{
    let q = size / block_size;
    let m = size % block_size;
    vstd::arithmetic::div_mod::lemma_fundamental_div_mod(size, block_size);
    vstd::arithmetic::div_mod::lemma_mod_bound(size, block_size);
    assert(block_size * q == q * block_size) by (nonlinear_arith);
    assert((q + 1) * block_size == q * block_size + block_size) by (nonlinear_arith);
    if m == 0 {
        vstd::arithmetic::div_mod::lemma_fundamental_div_mod_converse(
            size + block_size - 1,
            block_size,
            q,
            block_size - 1,
        );
    } else {
        vstd::arithmetic::div_mod::lemma_fundamental_div_mod_converse(
            size + block_size - 1,
            block_size,
            q + 1,
            m - 1,
        );
    }
}

/// `new` is a complete dynamic image of this size and block size.
pub open spec fn is_new_dynamic(new: NewDynamic, size: u64, block_size: u32) -> bool {
    let entries = blocks_needed(size as int, block_size as int);
    &&& new.head@.len() == 1536
    &&& new.head@.subrange(0, 512) == new.footer@
    &&& is_new_header(new.head@.subrange(512, 1536), entries as u32, block_size)
    &&& new.table_len == opening::round_up(4 * entries)
    &&& new.total_len == new.image().len()
    &&& exists|timestamp: u32, id: Seq<u8>|
        {
            &&& #[trigger] footer_build::is_new_footer(
                new.footer@,
                size,
                DiskType::Dynamic,
                NEW_HEADER_OFFSET,
                timestamp,
                id,
            )
            &&& footer_build::is_uuid_v4(id)
        }
}

/// A fresh fixed image opens, as a fixed disk of the size asked for, all
/// zeros.
pub proof fn law_new_fixed_image_opens(
    new: NewFixed,
    size: u64,
    timestamp: u32,
    id: Seq<u8>,
    v: int,
)
    requires
        new.footer_offset == size,
        footer_build::is_new_footer(
            new.footer@,
            size,
            DiskType::Fixed,
            u64::MAX,
            timestamp,
            id,
        ),
        0 <= v < size,
    ensures
        opening::image_refusal(new.image()) is None,
        opening::is_fixed(new.image()),
        opening::virtual_size_of(new.image()) == size,
        opening::identity(new.image()) == id,
        new.image()[v] == 0,
{
    reveal(opening::image_refusal);
    reveal(footer_build::is_new_footer);
    let d = new.image();
    assert(opening::trailing_footer(d) =~= new.footer@);
}

/// A fresh dynamic image opens, as a dynamic disk of the size and the
/// block size asked for.
#[verifier::rlimit(50)]
pub proof fn law_new_dynamic_image_opens(new: NewDynamic, size: u64, block_size: u32)
    requires
        dynamic_refusal(size as int, block_size as int) is None,
        is_new_dynamic(new, size, block_size),
    ensures
        opening::image_refusal(new.image()) is None,
        !opening::is_fixed(new.image()),
        !opening::is_differencing(new.image()),
        opening::virtual_size_of(new.image()) == size,
        opening::block_size_of(new.image()) == block_size,
        forall|b: int|
            0 <= b < opening::table_of(new.image()).len() ==> #[trigger] opening::table_of(
                new.image(),
            )[b] == BAT_UNALLOCATED,
        !opening::recovered(new.image()),
        reopening_laws::well_laid(new.image()),
        reopening_laws::mirrored(new.image()),
{
    lemma_new_dynamic_metadata(new, size, block_size);
    lemma_new_dynamic_table(new, size, block_size);
    lemma_blocks_needed(size as int, block_size as int);
    lemma_empty_table_is_believed(new.image());
    assert(opening::mirror_footer(new.image()) =~= new.head@.subrange(0, 512));
    assert(opening::trailing_footer(new.image()) =~= new.footer@);
}

proof fn lemma_new_dynamic_table(new: NewDynamic, size: u64, block_size: u32)
    requires
        dynamic_refusal(size as int, block_size as int) is None,
        is_new_dynamic(new, size, block_size),
    ensures
        forall|b: int|
            0 <= b < opening::table_of(new.image()).len() ==> #[trigger] opening::table_of(
                new.image(),
            )[b] == BAT_UNALLOCATED,
{
    lemma_new_dynamic_metadata(new, size, block_size);
    let d = new.image();
    let bat = opening::table_of(d);
    assert forall|b: int| 0 <= b < bat.len() implies #[trigger] bat[b] == BAT_UNALLOCATED by {
        let at = 1536 + 4 * b;
        assert(d[at] == 0xFF && d[at + 1] == 0xFF && d[at + 2] == 0xFF && d[at + 3] == 0xFF);
    }
}

/// A sparse image whose table names no block, and is big enough, is one
/// that no check refuses.
proof fn lemma_empty_table_is_believed(d: Seq<u8>)
    requires
        d.len() >= 512,
        d.len() % 512 == 0,
        footer_block::footer_refusal(opening::footer_of(d)) is None,
        opening::header_offset_of(d) != u64::MAX,
        dynamic_header::header_refusal(opening::header_of(d)) is None,
        opening::table_entries_of(d) * opening::block_size_of(d) >= opening::virtual_size_of(d),
        opening::table_end_of(d) <= u64::MAX,
        opening::table_end_of(d) <= d.len(),
        forall|b: int|
            0 <= b < opening::table_of(d).len() ==> #[trigger] opening::table_of(d)[b]
                == BAT_UNALLOCATED,
    ensures
        opening::image_refusal(d) is None,
{
    let bat = opening::table_of(d);
    crate::table::lemma_no_entry_is_refused(
        bat,
        bat.len() as int,
        opening::data_start_of(d),
        opening::data_end_of(d),
        opening::block_total_of(d),
    );
    assert(!crate::table::has_alias(bat));
    assert(!crate::table::has_overlap(bat, opening::block_total_of(d)));
    reveal(opening::image_refusal);
}

#[verifier::rlimit(50)]
proof fn lemma_new_dynamic_metadata(new: NewDynamic, size: u64, block_size: u32)
    requires
        dynamic_refusal(size as int, block_size as int) is None,
        is_new_dynamic(new, size, block_size),
    ensures
        ({
            let d = new.image();
            let entries = blocks_needed(size as int, block_size as int);
            &&& 0 <= entries <= u32::MAX
            &&& d.len() == 2048 + opening::round_up(4 * entries)
            &&& !opening::recovered(d)
            &&& footer_block::footer_refusal(opening::footer_of(d)) is None
            &&& opening::wire_type(opening::footer_of(d)) == 3
            &&& opening::header_offset_of(d) == 512
            &&& opening::virtual_size_of(d) == size
            &&& dynamic_header::header_refusal(opening::header_of(d)) is None
            &&& opening::table_offset_of(d) == 1536
            &&& opening::table_entries_of(d) == entries
            &&& opening::block_size_of(d) == block_size
        }),
{
    reveal(footer_build::is_new_footer);
    reveal(is_new_header);
    let d = new.image();
    let entries = blocks_needed(size as int, block_size as int);
    lemma_blocks_needed(size as int, block_size as int);
    assert(entries >= 0) by (nonlinear_arith)
        requires
            entries * block_size >= size,
            size >= 0,
            block_size >= 512,
    ;
    assert(opening::trailing_footer(d) =~= new.footer@);
    assert(opening::header_of(d) =~= new.head@.subrange(512, 1536));
}

/// Every byte of a fresh dynamic disk reads as zero.
pub proof fn law_new_dynamic_image_reads_as_zeros(
    new: NewDynamic,
    size: u64,
    block_size: u32,
    r: VhdReader,
    v: int,
)
    requires
        dynamic_refusal(size as int, block_size as int) is None,
        is_new_dynamic(new, size, block_size),
        r.wf(),
        r.opened_from(seq![new.image()]),
        0 <= v < size,
    ensures
        r.guest(seq![new.image()])[v] == 0,
{
    let d = new.image();
    law_new_dynamic_image_opens(new, size, block_size);
    assert(r.images@[0].describes(seq![d][0]));
    assert(r.images@[0].wf());
    let s = r.images@[0].sparse->0;
    crate::writing_laws::lemma_position(s, size as int, v);
    assert(s.bat@[v / s.block_size()] == BAT_UNALLOCATED);
    crate::reading::law_holes_read_as_zero(r.images@, seq![d], 0, v);
}

} // verus!
