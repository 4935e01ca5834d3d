//! Composition of the footer of newly-created VHD images, and of the
//! geometry, identity and time stamp that go into it.
use crate::footer as footer_block;
use crate::footer::{compute_checksum, DiskType, FOOTER_COOKIE, FOOTER_SIZE};
use crate::format as wire;
use crate::format::chs;
use crate::format::footer_offsets as at;
use crate::format::{write_bytes, write_u32, write_u64, SECTOR_SIZE};
use vstd::prelude::*;

verus! {

/// VHD epoch is 2000-01-01 00:00:00 UTC. Unix epoch + 30 years.
pub const VHD_EPOCH_UNIX_SECS: u64 = 946_684_800;

/// Creator-application tag: "am  ".
pub const CREATOR_APP: [u8; 4] = [97, 109, 32, 32];

/// Creator version (major.minor in high/low halves of a u32).
pub const CREATOR_VERSION: u32 = 0x0000_0001;

/// Creator host OS: "Mac ". Informational only.
pub const CREATOR_HOST_OS: u32 = 0x4D61_6320;

/// Cylinders, heads and sectors per track.
pub struct Geometry {
    pub cylinders: int,
    pub heads: int,
    pub sectors_per_track: int,
}

/// The head count that the first rung of the ladder asks for.
pub open spec fn first_rung_heads(sectors: int) -> int {
    let wanted = (sectors / 17 + 1023) / 1024;
    if wanted < 4 { 4 } else { wanted }
}

/// The geometry of a disk of `sectors` sectors: the narrowest track of the
/// ladder that keeps within the cylinder budget, and past the ladder the
/// widest track there is.
pub open spec fn geometry(sectors: int) -> Geometry {
    let heads = first_rung_heads(sectors);
    if sectors >= chs::LADDER_CEILING_SECTORS {
        Geometry { cylinders: sectors / 255 / 16, heads: 16, sectors_per_track: 255 }
    } else if sectors / 17 < heads * 1024 && heads <= 16 {
        Geometry { cylinders: sectors / 17 / heads, heads, sectors_per_track: 17 }
    } else if sectors / 31 < 16 * 1024 {
        Geometry { cylinders: sectors / 31 / 16, heads: 16, sectors_per_track: 31 }
    } else {
        Geometry { cylinders: sectors / 63 / 16, heads: 16, sectors_per_track: 63 }
    }
}

/// The sectors of a disk of `size` bytes that a geometry can address.
pub open spec fn addressable_sectors(size: int) -> int {
    if size / 512 < chs::MAX_ADDRESSABLE_SECTORS {
        size / 512
    } else {
        chs::MAX_ADDRESSABLE_SECTORS as int
    }
}

/// The geometry of a disk of `size` bytes.
pub open spec fn geometry_of(size: int) -> Geometry {
    geometry(addressable_sectors(size))
}

/// The geometry never describes more than the disk, nor more than can be
/// addressed, and it fits the fields that the footer has for it.
pub proof fn law_geometry_never_describes_more_than_the_disk(size: int)
    requires
        0 <= size,
    ensures
        ({
            let g = geometry_of(size);
            let described = g.cylinders * g.heads * g.sectors_per_track * 512;
            &&& 0 <= described <= size
            &&& described <= chs::MAX_ADDRESSABLE_SECTORS * 512
            &&& 0 <= g.cylinders <= chs::MAX_CYLINDERS
            &&& chs::MIN_HEADS <= g.heads <= chs::MAX_HEADS
            &&& chs::SPT_FIRST <= g.sectors_per_track <= chs::MAX_SECTORS_PER_TRACK
        }),
{
    let sectors = addressable_sectors(size);
    let heads = first_rung_heads(sectors);
    let g = geometry(sectors);
    let tracks = sectors / g.sectors_per_track;
    assert(g.cylinders == tracks / g.heads);
    vstd::arithmetic::div_mod::lemma_fundamental_div_mod(tracks, g.heads);
    vstd::arithmetic::div_mod::lemma_mod_bound(tracks, g.heads);
    assert(0 <= g.cylinders * g.heads <= tracks) by (nonlinear_arith)
        requires
            tracks == g.heads * (tracks / g.heads) + tracks % g.heads,
            0 <= tracks % g.heads,
            g.cylinders == tracks / g.heads,
            tracks >= 0,
            g.heads > 0,
    ;
    let used = g.cylinders * g.heads;
    assert(0 <= used * g.sectors_per_track <= sectors) by (nonlinear_arith)
        requires
            0 <= used <= tracks,
            tracks == sectors / g.sectors_per_track,
            g.sectors_per_track == 17 || g.sectors_per_track == 31 || g.sectors_per_track == 63
                || g.sectors_per_track == 255,
            sectors >= 0,
    ;
    assert(g.cylinders <= 65535) by {
        if g.sectors_per_track == 17 {
            assert(g.cylinders < 1024) by (nonlinear_arith)
                requires
                    g.cylinders * g.heads <= tracks,
                    tracks < g.heads * 1024,
                    g.heads > 0,
            ;
        }
    }
}

/// Legacy CHS geometry for a disk of `size_bytes`: `(cylinders, heads,
/// sectors_per_track)`, the three fields of the footer's `disk_geometry`
/// word.
///
/// The geometry does not have to describe the disk exactly, and in general
/// it does not: every division in the ladder truncates. At 4 MiB (8192
/// sectors) the answer is `C=120, H=4, S=17`: 8160 sectors, 16 KiB short.
/// That is why the footer carries `current_size` separately.
pub fn chs_for_size(size_bytes: u64) -> (r: (u16, u8, u8))
    ensures
        r.0 == geometry_of(size_bytes as int).cylinders,
        r.1 == geometry_of(size_bytes as int).heads,
        r.2 == geometry_of(size_bytes as int).sectors_per_track,
{
    proof {
        law_geometry_never_describes_more_than_the_disk(size_bytes as int);
    }
    let whole: u64 = size_bytes / SECTOR_SIZE;
    let sectors: u64 = if whole < chs::MAX_ADDRESSABLE_SECTORS {
        whole
    } else {
        chs::MAX_ADDRESSABLE_SECTORS
    };
    if sectors >= chs::LADDER_CEILING_SECTORS {
        // Past the last rung: nothing smaller can describe the disk.
        let spt: u64 = chs::MAX_SECTORS_PER_TRACK as u64;
        return ((sectors / spt / chs::MAX_HEADS as u64) as u16, chs::MAX_HEADS as u8, spt as u8);
    }
    let tracks: u64 = sectors / chs::SPT_FIRST as u64;
    let wanted: u64 = (tracks + (chs::CYLINDERS_PER_HEAD_LIMIT - 1))
        / chs::CYLINDERS_PER_HEAD_LIMIT;
    let heads: u64 = if wanted < chs::MIN_HEADS as u64 {
        chs::MIN_HEADS as u64
    } else {
        wanted
    };
    if tracks < heads * chs::CYLINDERS_PER_HEAD_LIMIT && heads <= chs::MAX_HEADS as u64 {
        return ((tracks / heads) as u16, heads as u8, chs::SPT_FIRST as u8);
    }
    let heads: u64 = chs::MAX_HEADS as u64;
    let tracks: u64 = sectors / chs::SPT_SECOND as u64;
    if tracks < heads * chs::CYLINDERS_PER_HEAD_LIMIT {
        return ((tracks / heads) as u16, heads as u8, chs::SPT_SECOND as u8);
    }
    let tracks: u64 = sectors / chs::SPT_THIRD as u64;
    ((tracks / heads) as u16, heads as u8, chs::SPT_THIRD as u8)
}

/// What the host supplies towards a fresh identity.
#[derive(Debug, Clone, Copy)]
pub struct Entropy {
    /// Sixteen random bytes from the operating system, where it has any.
    pub urandom: Option<[u8; 16]>,
    /// How many identities were asked for before this one, without them.
    pub sequence: u64,
}

/// Sixteen bytes as a version 4 UUID: the version nibble of byte 6 and the
/// variant bits of byte 8 are set, every other bit stays.
pub open spec fn as_uuid_v4(bytes: Seq<u8>) -> Seq<u8> {
    bytes.update(6, (bytes[6] & 0x0F) | 0x40).update(8, (bytes[8] & 0x3F) | 0x80)
}

/// A version 4 UUID.
pub open spec fn is_uuid_v4(id: Seq<u8>) -> bool {
    id.len() == 16 && id[6] & 0xF0 == 0x40 && id[8] & 0xC0 == 0x80
}

/// Whatever bytes it is made from, the result is a version 4 UUID.
pub proof fn law_uuid_has_version_and_variant(bytes: Seq<u8>)
    requires
        bytes.len() == 16,
    ensures
        is_uuid_v4(as_uuid_v4(bytes)),
{
    let (a, b) = (bytes[6], bytes[8]);
    assert(((a & 0x0F) | 0x40) & 0xF0 == 0x40) by (bit_vector);
    assert(((b & 0x3F) | 0x80) & 0xC0 == 0x80) by (bit_vector);
}

/// The step between two states of the generator.
pub const GOLDEN_GAMMA: u64 = 0x9E37_79B9_7F4A_7C15;

/// The output of the SplitMix64 generator in state `z`.
pub open spec fn split_mix(z: u64) -> u64 {
    let a = (z ^ (z >> 30)).wrapping_mul(0xBF58_476D_1CE4_E5B9);
    let b = (a ^ (a >> 27)).wrapping_mul(0x94D0_49BB_1331_11EB);
    b ^ (b >> 31)
}

/// The state of the generator before output `k`, seeded with the time and
/// a running number.
pub open spec fn mix_state(nanos: u64, sequence: u64, k: int) -> u64
    decreases k,
{
    if k <= 0 {
        nanos.wrapping_add(sequence.wrapping_mul(GOLDEN_GAMMA))
    } else {
        mix_state(nanos, sequence, k - 1).wrapping_add(GOLDEN_GAMMA)
    }
}

fn mix(z: u64) -> (r: u64)
    ensures
        r == split_mix(z),
{
    let a: u64 = (z ^ (z >> 30)).wrapping_mul(0xBF58_476D_1CE4_E5B9);
    let b: u64 = (a ^ (a >> 27)).wrapping_mul(0x94D0_49BB_1331_11EB);
    b ^ (b >> 31)
}

/// Sixteen bytes of the generator, seeded with the time and a running
/// number.
pub open spec fn is_clock_random(bytes: Seq<u8>, nanos: u64, sequence: u64) -> bool {
    &&& bytes.len() == 16
    &&& wire::be64(bytes, 0) == split_mix(mix_state(nanos, sequence, 1))
    &&& wire::be64(bytes, 8) == split_mix(mix_state(nanos, sequence, 2))
}

/// SplitMix64 seeded from the wall clock and a running number. Not
/// cryptographically strong; only used where the operating system has no
/// random bytes to give.
pub fn fill_from_clock_prng(nanos: u64, sequence: u64) -> (r: [u8; 16])
    ensures
        is_clock_random(r@, nanos, sequence),
{
    let mut buf = [0u8; 16];
    let seed: u64 = nanos.wrapping_add(sequence.wrapping_mul(GOLDEN_GAMMA));
    let first: u64 = seed.wrapping_add(GOLDEN_GAMMA);
    let second: u64 = first.wrapping_add(GOLDEN_GAMMA);
    proof {
        reveal_with_fuel(mix_state, 3);
    }
    write_u64(&mut buf, 0, mix(first));
    write_u64(&mut buf, 8, mix(second));
    buf
}

/// `SystemTime::elapsed` on the Unix epoch: the time since then, unless
/// the clock stands before it. Nothing is promised of it.
#[verifier::external_body]
fn since_unix_epoch() -> (r: Option<std::time::Duration>) {
    std::time::UNIX_EPOCH.elapsed().ok()
}

/// `Duration::as_secs`: the whole seconds of a time span. Nothing is
/// promised of them, as nothing is known of the span.
#[verifier::external_body]
fn whole_seconds(span: &std::time::Duration) -> (r: u64) {
    span.as_secs()
}

/// `Duration::as_nanos`: the nanoseconds of a time span. Nothing is
/// promised of them, as nothing is known of the span.
#[verifier::external_body]
fn nanoseconds(span: &std::time::Duration) -> (r: u128) {
    span.as_nanos()
}

/// Seconds since the VHD epoch of a moment given in Unix time, clamped to
/// a `u32`.
pub open spec fn vhd_time(unix_secs: int) -> int {
    let v = unix_secs - VHD_EPOCH_UNIX_SECS;
    if v < 0 {
        0
    } else if v > u32::MAX {
        u32::MAX as int
    } else {
        v
    }
}

/// Seconds since the VHD epoch (2000-01-01 00:00:00 UTC), clamped to a
/// non-negative u32.
pub fn vhd_timestamp(unix_secs: u64) -> (r: u32)
    ensures
        r == vhd_time(unix_secs as int),
{
    if unix_secs <= VHD_EPOCH_UNIX_SECS {
        return 0;
    }
    let v: u64 = unix_secs - VHD_EPOCH_UNIX_SECS;
    if v > u32::MAX as u64 {
        u32::MAX
    } else {
        v as u32
    }
}

/// The present moment in a footer's terms. Where the system clock stands
/// before the Unix epoch, 0.
pub fn vhd_timestamp_now() -> (r: u32)
    ensures
        exists|unix_secs: u64| r == #[trigger] vhd_time(unix_secs as int),
{
    let unix_secs: u64 = match since_unix_epoch() {
        Some(span) => whole_seconds(&span),
        None => 0,
    };
    let r: u32 = vhd_timestamp(unix_secs);
    proof {
        assert(r == vhd_time(unix_secs as int));
    }
    r
}

/// An identity made from what the host supplied: from the operating
/// system's random bytes where there are any, else from the clock and the
/// running number.
pub open spec fn is_fresh_identity(id: Seq<u8>, entropy: Entropy) -> bool {
    match entropy.urandom {
        Some(bytes) => id == as_uuid_v4(bytes@),
        None => exists|bytes: Seq<u8>, nanos: u64| #[trigger]
            is_clock_random(bytes, nanos, entropy.sequence) && id == as_uuid_v4(bytes),
    }
}

/// Generate a v4 (random) UUID: from the operating system's random bytes
/// where there are any, else from the clock.
pub fn generate_uuid_v4(entropy: &Entropy) -> (r: [u8; 16])
    ensures
        is_uuid_v4(r@),
        is_fresh_identity(r@, *entropy),
{
    let mut buf: [u8; 16] = match entropy.urandom {
        Some(bytes) => bytes,
        None => {
            let nanos: u128 = match since_unix_epoch() {
                Some(span) => nanoseconds(&span),
                None => 0,
            };
            fill_from_clock_prng((nanos % 0x1_0000_0000_0000_0000) as u64, entropy.sequence)
        },
    };
    proof {
        law_uuid_has_version_and_variant(buf@);
    }
    let ghost bytes = buf@;
    // Set version 4.
    buf[6] = (buf[6] & 0x0F) | 0x40;
    // Set variant 10xxxxxx.
    buf[8] = (buf[8] & 0x3F) | 0x80;
    proof {
        assert(buf@ =~= as_uuid_v4(bytes));
    }
    buf
}

/// `f` is the complete footer of a new image of this size and type, with
/// this time stamp and identity.
#[verifier::opaque]
pub open spec fn is_new_footer(
    f: Seq<u8>,
    size: u64,
    disk_type: DiskType,
    data_offset: u64,
    timestamp: u32,
    id: Seq<u8>,
) -> bool {
    let g = geometry_of(size as int);
    &&& f.len() == 512
    &&& wire::field(f, at::COOKIE.start as int, 8) == FOOTER_COOKIE@
    &&& wire::be32(f, at::FEATURES as int) == 2
    &&& wire::be32(f, at::FILE_FORMAT_VERSION as int) == 0x0001_0000
    &&& wire::be64(f, at::DATA_OFFSET as int) == data_offset
    &&& wire::be32(f, at::TIMESTAMP as int) == timestamp
    &&& wire::field(f, at::CREATOR_APPLICATION as int, 4) == CREATOR_APP@
    &&& wire::be32(f, at::CREATOR_VERSION as int) == CREATOR_VERSION
    &&& wire::be32(f, at::CREATOR_HOST_OS as int) == CREATOR_HOST_OS
    &&& wire::be64(f, at::ORIGINAL_SIZE as int) == size
    &&& wire::be64(f, at::CURRENT_SIZE as int) == size
    &&& wire::be16(f, at::DISK_GEOMETRY as int) == g.cylinders
    &&& f[at::DISK_GEOMETRY + 2] == g.heads
    &&& f[at::DISK_GEOMETRY + 3] == g.sectors_per_track
    &&& wire::be32(f, at::DISK_TYPE as int) == disk_type.wire()
    &&& wire::be32(f, at::CHECKSUM.start as int) == footer_block::footer_checksum(f)
    &&& wire::field(f, at::UNIQUE_ID.start as int, 16) == id
    &&& forall|i: int| at::SAVED_STATE <= i < 512 ==> #[trigger] f[i] == 0
}

/// A new footer is one that the parser takes, and it reads back as what it
/// was built from.
pub proof fn law_new_footer_parses_back(
    f: Seq<u8>,
    size: u64,
    disk_type: DiskType,
    data_offset: u64,
    timestamp: u32,
    id: Seq<u8>,
    parsed: footer_block::Footer,
)
    requires
        is_new_footer(f, size, disk_type, data_offset, timestamp, id),
        parsed.describes(f),
    ensures
        footer_block::footer_refusal(f) is None,
        parsed.current_size == size,
        parsed.original_size == size,
        parsed.disk_type == disk_type,
        parsed.data_offset == data_offset,
        parsed.unique_id@ == id,
        parsed.features == 2,
        parsed.file_format_version == 0x0001_0000,
{
    reveal(is_new_footer);
}

/// Compose a complete 512-byte footer.
pub fn compose_footer(
    size: u64,
    disk_type: DiskType,
    data_offset: u64,
    timestamp: u32,
    id: &[u8; 16],
) -> (f: [u8; FOOTER_SIZE])
    ensures
        is_new_footer(f@, size, disk_type, data_offset, timestamp, id@),
{
    let mut f = [0u8; FOOTER_SIZE];
    write_bytes(&mut f, at::COOKIE.start, &FOOTER_COOKIE);
    // Features: bit 1 is reserved and must be set.
    write_u32(&mut f, at::FEATURES, 0x0000_0002);
    write_u32(&mut f, at::FILE_FORMAT_VERSION, 0x0001_0000);
    write_u64(&mut f, at::DATA_OFFSET, data_offset);
    write_u32(&mut f, at::TIMESTAMP, timestamp);
    write_bytes(&mut f, at::CREATOR_APPLICATION, &CREATOR_APP);
    write_u32(&mut f, at::CREATOR_VERSION, CREATOR_VERSION);
    write_u32(&mut f, at::CREATOR_HOST_OS, CREATOR_HOST_OS);
    write_u64(&mut f, at::ORIGINAL_SIZE, size);
    write_u64(&mut f, at::CURRENT_SIZE, size);
    let (cylinders, heads, spt) = chs_for_size(size);
    f[at::DISK_GEOMETRY] = (cylinders / 0x100) as u8;
    f[at::DISK_GEOMETRY + 1] = (cylinders % 0x100) as u8;
    f[at::DISK_GEOMETRY + 2] = heads;
    f[at::DISK_GEOMETRY + 3] = spt;
    write_u32(&mut f, at::DISK_TYPE, disk_type.to_u32());
    write_bytes(&mut f, at::UNIQUE_ID.start, id);
    // Saved state and the reserved rest are zero already. The checksum is
    // computed last; its own field does not count.
    let ghost before = f@;
    let sum: u32 = compute_checksum(&f);
    write_u32(&mut f, at::CHECKSUM.start, sum);
    proof {
        reveal(is_new_footer);
        wire::lemma_byte_sum_agrees(before, f@, 512, 64, 68);
        assert(wire::field(f@, 0, 8) =~= FOOTER_COOKIE@);
        assert(wire::field(f@, 28, 4) =~= CREATOR_APP@);
        assert(wire::field(f@, 68, 16) =~= id@);
    }
    f
}

/// Compose a complete 512-byte fixed-VHD footer.
///
/// `virtual_size_bytes` is written into both `original_size` and
/// `current_size`; the time stamp is the present moment, and a v4 UUID is
/// generated for `unique_id`.
pub fn build_fixed_footer(virtual_size_bytes: u64, entropy: &Entropy) -> (f: [u8; FOOTER_SIZE])
    ensures
        exists|timestamp: u32, id: Seq<u8>|
            {
                &&& #[trigger] is_new_footer(
                    f@,
                    virtual_size_bytes,
                    DiskType::Fixed,
                    u64::MAX,
                    timestamp,
                    id,
                )
                &&& is_uuid_v4(id)
                &&& is_fresh_identity(id, *entropy)
            },
{
    let timestamp: u32 = vhd_timestamp_now();
    let id = generate_uuid_v4(entropy);
    compose_footer(virtual_size_bytes, DiskType::Fixed, u64::MAX, timestamp, &id)
}

} // verus!
