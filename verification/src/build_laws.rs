//! Which images are created, and what a fresh image holds, in plain numbers
//! and bytes.
use crate::creating;
use crate::creating::{NewDynamic, NewFixed};
use crate::error::Error;
use crate::footer::DiskType;
use crate::footer_build;
use crate::format as wire;
use crate::format_laws;
use vstd::prelude::*;

verus! {

/// A fixed image is created exactly where its size is a positive number of
/// whole sectors that leaves room for the footer below 2^64.
pub proof fn law_fixed_image_is_created_exactly_where(size: u64)
    ensures
        creating::fixed_refusal(size as int) is None <==> 0 < size && size % 512 == 0 && size
            <= 0xFFFF_FFFF_FFFF_FFFF - 512,
        size == 0 || size % 512 != 0 ==> creating::fixed_refusal(size as int) == Some(
            Error::Corrupt("create_fixed: virtual_size must be a positive multiple of 512"),
        ),
        size % 512 == 0 && size > 0xFFFF_FFFF_FFFF_FFFF - 512 ==> creating::fixed_refusal(
            size as int,
        ) == Some(Error::Corrupt("create_fixed: size overflow")),
{
}

/// The blocks of a disk cover it, and with one less they would not.
pub proof fn law_blocks_cover_the_disk_and_no_more(size: int, block_size: int)
    requires
        size > 0,
        block_size > 0,
    ensures
        creating::blocks_needed(size, block_size) * block_size >= size,
        (creating::blocks_needed(size, block_size) - 1) * block_size < size,
{
    let q = (size + block_size - 1) / block_size;
    let m = (size + block_size - 1) % block_size;
    vstd::arithmetic::div_mod::lemma_fundamental_div_mod(size + block_size - 1, block_size);
    vstd::arithmetic::div_mod::lemma_mod_bound(size + block_size - 1, block_size);
    assert(q * block_size == block_size * q) by (nonlinear_arith);
    assert((q - 1) * block_size == q * block_size - block_size) by (nonlinear_arith);
}

/// A dynamic image is created exactly where its size is a positive number
/// of whole sectors, its block size a power of two of at least 512, and
/// 0xFFFF_FFFF blocks are enough for it.
pub proof fn law_dynamic_image_is_created_exactly_where(size: u64, block_size: u32)
    ensures
        creating::dynamic_refusal(size as int, block_size as int) is None <==> {
            &&& 0 < size
            &&& size % 512 == 0
            &&& block_size >= 512
            &&& exists|k: nat| block_size == #[trigger] vstd::arithmetic::power2::pow2(k)
            &&& size <= 0xFFFF_FFFF * block_size
        },
        size == 0 || size % 512 != 0 ==> creating::dynamic_refusal(size as int, block_size as int)
            == Some(
            Error::Corrupt("create_dynamic: virtual_size must be a positive multiple of 512"),
        ),
        0 < size && size % 512 == 0 && (block_size < 512 || forall|k: nat|
            block_size != #[trigger] vstd::arithmetic::power2::pow2(k))
            ==> creating::dynamic_refusal(size as int, block_size as int) == Some(
            Error::Corrupt("create_dynamic: block_size must be a power of two of at least 512"),
        ),
        0 < size && size % 512 == 0 && block_size >= 512 && (exists|k: nat|
            block_size == #[trigger] vstd::arithmetic::power2::pow2(k)) && size > 0xFFFF_FFFF
            * block_size ==> creating::dynamic_refusal(size as int, block_size as int) == Some(
            Error::Corrupt("create_dynamic: virtual_size needs more blocks than a BAT can name"),
        ),
{
    if size > 0 && block_size > 0 {
        let n = creating::blocks_needed(size as int, block_size as int);
        let bs = block_size as int;
        law_blocks_cover_the_disk_and_no_more(size as int, bs);
        if size <= 0xFFFF_FFFF * bs {
            assert(n <= 0xFFFF_FFFF) by (nonlinear_arith)
                requires
                    (n - 1) * bs < size,
                    size <= 0xFFFF_FFFF * bs,
                    bs > 0,
            ;
        } else {
            assert(n > 0xFFFF_FFFF) by (nonlinear_arith)
                requires
                    n * bs >= size,
                    size > 0xFFFF_FFFF * bs,
                    bs > 0,
            ;
        }
    }
}

/// The bytes of a fresh fixed image: zeros up to the footer, then the
/// footer.
pub proof fn law_fresh_fixed_image_bytes(new: NewFixed, i: int)
    ensures
        new.image().len() == new.footer_offset + 512,
        0 <= i < new.footer_offset ==> new.image()[i] == 0,
        0 <= i < 512 ==> new.image()[new.footer_offset + i] == new.footer@[i],
{
}

/// The bytes of a fresh dynamic image: the footer; the header; a table of
/// 0xFF, in whole sectors and no more of them than four bytes for each block
/// take; the footer again.
pub proof fn law_fresh_dynamic_image_bytes(new: NewDynamic, size: u64, block_size: u32, i: int)
    requires
        creating::is_new_dynamic(new, size, block_size),
    ensures
        new.total_len == new.image().len(),
        new.image().len() == 2048 + new.table_len,
        new.table_len % 512 == 0,
        new.table_len >= 4 * creating::blocks_needed(size as int, block_size as int),
        new.table_len - 512 < 4 * creating::blocks_needed(size as int, block_size as int),
        0 <= i < 512 ==> new.image()[i] == new.footer@[i],
        0 <= i < 512 ==> new.image()[1536 + new.table_len + i] == new.footer@[i],
        1536 <= i < 1536 + new.table_len ==> new.image()[i] == 0xFF,
        creating::is_new_header(
            new.image().subrange(512, 1536),
            creating::blocks_needed(size as int, block_size as int) as u32,
            block_size,
        ),
        format_laws::is_footer(new.footer@),
        format_laws::eight(new.footer@, 16) == 512,
        format_laws::eight(new.footer@, 40) == size,
        format_laws::eight(new.footer@, 48) == size,
        format_laws::four(new.footer@, 60) == 3,
        new.identity() == new.footer@.subrange(68, 84),
        footer_build::is_uuid_v4(new.identity()),
{
    let (timestamp, id) = choose|timestamp: u32, id: Seq<u8>|
        {
            &&& #[trigger] footer_build::is_new_footer(
                new.footer@,
                size,
                DiskType::Dynamic,
                creating::NEW_HEADER_OFFSET,
                timestamp,
                id,
            )
            &&& footer_build::is_uuid_v4(id)
        };
    law_fresh_footer_fields(
        new.footer@,
        size,
        DiskType::Dynamic,
        creating::NEW_HEADER_OFFSET,
        timestamp,
        id,
        i,
    );
    assert(new.image().subrange(512, 1536) =~= new.head@.subrange(512, 1536));
    if 0 <= i < 512 {
        assert(new.head@.subrange(0, 512)[i] == new.head@[i]);
    }
}

/// The default block size, two mebibytes, is one that an image of any size
/// its table can cover is created with. At most twice as much is dumped at
/// once.
pub proof fn law_default_block_size_is_one(size: u64)
    requires
        0 < size <= 2097152 * 0xFFFF_FFFF,
        size % 512 == 0,
    ensures
        crate::tool::DEFAULT_BLOCK_SIZE == 2097152,
        crate::tool::MAX_DUMP_LEN == 2 * crate::tool::DEFAULT_BLOCK_SIZE,
        creating::dynamic_refusal(size as int, crate::tool::DEFAULT_BLOCK_SIZE as int) is None,
{
    vstd::arithmetic::power2::lemma2_to64();
    assert(2097152 == vstd::arithmetic::power2::pow2(21));
    law_dynamic_image_is_created_exactly_where(size, 2097152);
}

/// The fields of a fresh header, each in its place; every byte behind the
/// checksum is zero; and it is a header.
pub proof fn law_fresh_header_fields(h: Seq<u8>, entries: u32, block_size: u32, i: int)
    requires
        creating::is_new_header(h, entries, block_size),
    ensures
        h.len() == 1024,
        format_laws::spells_cxsparse(h),
        format_laws::eight(h, 8) == 0xFFFF_FFFF_FFFF_FFFF,
        format_laws::eight(h, 16) == 1536,
        format_laws::four(h, 24) == 0x0001_0000,
        format_laws::four(h, 28) == entries,
        format_laws::four(h, 32) == block_size,
        (format_laws::four(h, 36) + format_laws::total(h.take(36)) + format_laws::total(
            h.subrange(40, 1024),
        )) % 0x1_0000_0000 == 0xFFFF_FFFF,
        40 <= i < 1024 ==> h[i] == 0,
{
    reveal(creating::is_new_header);
    format_laws::law_header_checksum_complements_the_sum(h);
    format_laws::lemma_header_cookie(h);
}

/// The fields of a fresh footer, each in its place; every byte behind the
/// identity is zero; and it is a footer.
pub proof fn law_fresh_footer_fields(
    f: Seq<u8>,
    size: u64,
    disk_type: DiskType,
    data_offset: u64,
    timestamp: u32,
    id: Seq<u8>,
    i: int,
)
    requires
        footer_build::is_new_footer(f, size, disk_type, data_offset, timestamp, id),
    ensures
        f.len() == 512,
        format_laws::is_footer(f),
        format_laws::four(f, 8) == 2,
        format_laws::four(f, 12) == 0x0001_0000,
        format_laws::eight(f, 16) == data_offset,
        format_laws::four(f, 24) == timestamp,
        f[28] == 0x61 && f[29] == 0x6d && f[30] == 0x20 && f[31] == 0x20,
        format_laws::four(f, 32) == 1,
        format_laws::four(f, 36) == 0x4D61_6320,
        format_laws::eight(f, 40) == size,
        format_laws::eight(f, 48) == size,
        256 * f[56] + f[57] == footer_build::geometry_of(size as int).cylinders,
        f[58] == footer_build::geometry_of(size as int).heads,
        f[59] == footer_build::geometry_of(size as int).sectors_per_track,
        format_laws::four(f, 60) == match disk_type {
            DiskType::Fixed => 2int,
            DiskType::Dynamic => 3,
            DiskType::Differencing => 4,
        },
        f.subrange(68, 84) == id,
        84 <= i < 512 ==> f[i] == 0,
{
    reveal(footer_build::is_new_footer);
    format_laws::law_footer_checksum_complements_the_sum(f);
    format_laws::lemma_footer_cookie(f);
    let app = wire::field(f, 28, 4);
    assert(app[0] == f[28] && app[1] == f[29] && app[2] == f[30] && app[3] == f[31]);
}

/// The sectors that a geometry describes: all of the disk's, or 65535
/// cylinders of 16 heads and 255 sectors where it has more.
pub open spec fn sectors_described(size: int) -> int {
    let most = 65535int * 16 * 255;
    if size / 512 < most {
        size / 512
    } else {
        most
    }
}

/// The geometry describes the disk as far as whole cylinders go: with one
/// cylinder more it would describe more sectors than there are.
pub proof fn law_geometry_falls_short_by_less_than_a_cylinder(size: int)
    requires
        0 <= size,
    ensures
        ({
            let g = footer_build::geometry_of(size);
            let cylinder = g.heads * g.sectors_per_track;
            g.cylinders * cylinder <= sectors_described(size) < (g.cylinders + 1) * cylinder
        }),
{
    let n = sectors_described(size);
    let g = footer_build::geometry_of(size);
    let h = g.heads;
    let t = g.sectors_per_track;
    let c = g.cylinders;
    let tracks = n / t;
    assert(footer_build::addressable_sectors(size) == n);
    assert(4 <= h);
    assert(c == tracks / h);
    vstd::arithmetic::div_mod::lemma_fundamental_div_mod(tracks, h);
    vstd::arithmetic::div_mod::lemma_mod_bound(tracks, h);
    vstd::arithmetic::div_mod::lemma_fundamental_div_mod(n, t);
    vstd::arithmetic::div_mod::lemma_mod_bound(n, t);
    assert(c * (h * t) <= n) by (nonlinear_arith)
        requires
            n == t * tracks + n % t,
            0 <= n % t,
            tracks == h * c + tracks % h,
            0 <= tracks % h,
            t > 0,
    ;
    assert(n < (c + 1) * (h * t)) by (nonlinear_arith)
        requires
            n == t * tracks + n % t,
            n % t < t,
            tracks == h * c + tracks % h,
            tracks % h < h,
            t > 0,
    ;
}

/// How wide a geometry's tracks are, and how many heads it has. 17 sectors
/// where 16 heads of at most 1024 cylinders are enough, unless the tracks
/// fill 4 heads or more to the last; and then the fewest heads, but no less
/// than 4, that are enough. Else 31 where 16 heads of 1024 cylinders are
/// enough, else 63, and 255 from 65535 cylinders of 16 heads and 63 sectors
/// on; each with 16 heads.
pub proof fn law_geometry_takes_the_narrowest_track(size: int)
    requires
        0 <= size,
    ensures
        ({
            let g = footer_build::geometry_of(size);
            let n = sectors_described(size);
            let full = n / 17 >= 4096 && n / 17 % 1024 == 0;
            &&& g.sectors_per_track == 255 <==> n >= 65535 * 16 * 63
            &&& g.sectors_per_track == 17 <==> n / 17 < 16384 && !full
            &&& g.sectors_per_track == 31 <==> (n / 17 >= 16384 || full) && n / 31 < 16384
            &&& g.sectors_per_track == 63 <==> n / 31 >= 16384 && n < 65535 * 16 * 63
            &&& g.sectors_per_track == 17 ==> 4 <= g.heads <= 16 && n / 17 < 1024 * g.heads && (
            g.heads == 4 || n / 17 > 1024 * (g.heads - 1))
            &&& g.sectors_per_track != 17 ==> g.heads == 16
        }),
{
}

/// Sixteen bytes as an identity: the upper half of byte 6 is 4, the two
/// upper bits of byte 8 are 10, and every other bit is as it was.
pub proof fn law_identity_keeps_every_other_bit(bytes: Seq<u8>, i: int)
    requires
        bytes.len() == 16,
        0 <= i < 16,
    ensures
        ({
            let id = footer_build::as_uuid_v4(bytes);
            &&& id.len() == 16
            &&& i != 6 && i != 8 ==> id[i] == bytes[i]
            &&& id[6] as int / 16 == 4 && id[6] as int % 16 == bytes[6] as int % 16
            &&& id[8] as int / 64 == 2 && id[8] as int % 64 == bytes[8] as int % 64
        }),
{
    let a = bytes[6];
    let b = bytes[8];
    assert(((a & 0x0F) | 0x40) / 16 == 4 && ((a & 0x0F) | 0x40) % 16 == a % 16) by (bit_vector);
    assert(((b & 0x3F) | 0x80) / 64 == 2 && ((b & 0x3F) | 0x80) % 64 == b % 64) by (bit_vector);
}

/// A fresh identity is made of the random bytes where there are any, and
/// else of what the generator gives for some moment and the running number.
pub proof fn law_fresh_identity_is_made_of_the_entropy(id: Seq<u8>, entropy: footer_build::Entropy)
    ensures
        footer_build::is_fresh_identity(id, entropy) <==> match entropy.urandom {
            Some(bytes) => id == footer_build::as_uuid_v4(bytes@),
            None => exists|bytes: Seq<u8>, nanos: u64|
                #[trigger] footer_build::is_clock_random(bytes, nanos, entropy.sequence) && id
                    == footer_build::as_uuid_v4(bytes),
        },
{
}

/// What an identity has to be: version 4, variant 10.
pub proof fn law_identity_is_told_by_two_bytes(id: Seq<u8>)
    ensures
        footer_build::is_uuid_v4(id) <==> id.len() == 16 && id[6] as int / 16 == 4 && id[8] as int
            / 64 == 2,
{
    let a = id[6];
    let b = id[8];
    assert(a & 0xF0 == 0x40 <==> a / 16 == 4) by (bit_vector);
    assert(b & 0xC0 == 0x80 <==> b / 64 == 2) by (bit_vector);
}

/// The seconds of a time stamp: those since 946684800, none before, and as
/// many as 32 bits hold after.
pub proof fn law_time_stamps_count_from_the_epoch(unix_secs: u64, later: u64)
    ensures
        unix_secs <= 946684800 ==> footer_build::vhd_time(unix_secs as int) == 0,
        946684800 <= unix_secs <= 946684800 + 0xFFFF_FFFF ==> footer_build::vhd_time(
            unix_secs as int,
        ) + 946684800 == unix_secs,
        unix_secs >= 946684800 + 0xFFFF_FFFF ==> footer_build::vhd_time(unix_secs as int)
            == 0xFFFF_FFFF,
        unix_secs <= later ==> footer_build::vhd_time(unix_secs as int) <= footer_build::vhd_time(
            later as int,
        ),
{
}

/// The generator: its states are a fixed step apart, modulo 2^64, and its
/// output is SplitMix64's.
pub proof fn law_generator_is_split_mix(nanos: u64, sequence: u64, z: u64)
    ensures
        footer_build::mix_state(nanos, sequence, 0) == (nanos + sequence * 0x9E37_79B9_7F4A_7C15)
            % 0x1_0000_0000_0000_0000,
        footer_build::mix_state(nanos, sequence, 1) == (footer_build::mix_state(nanos, sequence, 0)
            + 0x9E37_79B9_7F4A_7C15) % 0x1_0000_0000_0000_0000,
        footer_build::mix_state(nanos, sequence, 2) == (footer_build::mix_state(nanos, sequence, 1)
            + 0x9E37_79B9_7F4A_7C15) % 0x1_0000_0000_0000_0000,
        ({
            let a = ((z ^ (z >> 30)) * 0xBF58_476D_1CE4_E5B9) % 0x1_0000_0000_0000_0000;
            let b = ((a as u64 ^ (a as u64 >> 27)) * 0x94D0_49BB_1331_11EB)
                % 0x1_0000_0000_0000_0000;
            footer_build::split_mix(z) == b as u64 ^ (b as u64 >> 31)
        }),
{
    reveal_with_fuel(footer_build::mix_state, 3);
    let p = sequence.wrapping_mul(0x9E37_79B9_7F4A_7C15);
    assert(p == (sequence * 0x9E37_79B9_7F4A_7C15) % 0x1_0000_0000_0000_0000);
    vstd::arithmetic::div_mod::lemma_add_mod_noop(
        nanos as int,
        sequence * 0x9E37_79B9_7F4A_7C15,
        0x1_0000_0000_0000_0000,
    );
}

/// An identity without random bytes is that of two outputs of the generator,
/// eight bytes each, most significant first.
pub proof fn law_clock_bytes_are_two_outputs(bytes: Seq<u8>, nanos: u64, sequence: u64)
    requires
        footer_build::is_clock_random(bytes, nanos, sequence),
    ensures
        bytes.len() == 16,
        format_laws::eight(bytes, 0) == footer_build::split_mix(
            footer_build::mix_state(nanos, sequence, 1),
        ),
        format_laws::eight(bytes, 8) == footer_build::split_mix(
            footer_build::mix_state(nanos, sequence, 2),
        ),
{
}

} // verus!
