//! The VHD on-disk layout, named once: field offsets, wire values, the
//! big-endian integers every field is made of, and the checksum.
use std::ops::Range;
use vstd::prelude::*;

pub mod chs;
pub mod disk_type_wire;
pub mod dynamic_offsets;
pub mod footer_offsets;

verus! {

/// The VHD format is defined in terms of 512-byte sectors throughout: BAT
/// entries count them, block bitmaps have one bit per one, and the footer
/// occupies exactly one. It is a number of the file format, not a property
/// of the medium the file is stored on.
pub const SECTOR_SIZE: u64 = 512;

/// The unsigned value of the two bytes at `at`, most significant first.
pub open spec fn be16(s: Seq<u8>, at: int) -> int {
    s[at] * 0x100 + s[at + 1]
}

/// The unsigned value of the four bytes at `at`, most significant first.
pub open spec fn be32(s: Seq<u8>, at: int) -> int {
    be16(s, at) * 0x1_0000 + be16(s, at + 2)
}

/// The unsigned value of the eight bytes at `at`, most significant first.
pub open spec fn be64(s: Seq<u8>, at: int) -> int {
    be32(s, at) * 0x1_0000_0000 + be32(s, at + 4)
}

/// The four bytes that hold `v`, most significant first.
pub open spec fn be32_bytes(v: int) -> Seq<u8> {
    seq![
        (v / 0x100_0000 % 0x100) as u8,
        (v / 0x1_0000 % 0x100) as u8,
        (v / 0x100 % 0x100) as u8,
        (v % 0x100) as u8,
    ]
}

/// `s` with `patch` laid over the bytes from `at` on.
pub open spec fn overwrite(s: Seq<u8>, at: int, patch: Seq<u8>) -> Seq<u8> {
    Seq::new(
        s.len(),
        |i: int| if at <= i < at + patch.len() { patch[i - at] } else { s[i] },
    )
}

/// The `n` bytes of `s` that start at `at`.
pub open spec fn field(s: Seq<u8>, at: int, n: int) -> Seq<u8> {
    s.subrange(at, at + n)
}

/// The sum of the first `n` bytes, those at `lo..hi` left out.
pub open spec fn byte_sum(s: Seq<u8>, n: int, lo: int, hi: int) -> int
    decreases n,
{
    if n <= 0 {
        0
    } else {
        byte_sum(s, n - 1, lo, hi) + if lo <= n - 1 < hi { 0 } else { s[n - 1] as int }
    }
}

/// The VHD checksum of the first `size` bytes (of all, where there are
/// fewer) with the bytes at `lo..hi` left out: the one's complement of
/// their sum, in 32 bits.
pub open spec fn checksum(s: Seq<u8>, size: int, lo: int, hi: int) -> int {
    let n = if s.len() < size { s.len() as int } else { size };
    0xFFFF_FFFF - byte_sum(s, n, lo, hi) % 0x1_0000_0000
}

pub proof fn lemma_byte_sum_bounds(s: Seq<u8>, n: int, lo: int, hi: int)
    ensures
        0 <= byte_sum(s, n, lo, hi),
        n >= 0 ==> byte_sum(s, n, lo, hi) <= 255 * n,
    decreases n,
{
    if n > 0 {
        lemma_byte_sum_bounds(s, n - 1, lo, hi);
    }
}

/// The sum reads nothing but the bytes that count.
pub proof fn lemma_byte_sum_agrees(s: Seq<u8>, t: Seq<u8>, n: int, lo: int, hi: int)
    requires
        forall|i: int| 0 <= i < n && !(lo <= i < hi) ==> s[i] == t[i],
    ensures
        byte_sum(s, n, lo, hi) == byte_sum(t, n, lo, hi),
    decreases n,
{
    if n > 0 {
        lemma_byte_sum_agrees(s, t, n - 1, lo, hi);
    }
}

/// A checksum never depends on the bytes of its own field: whatever is
/// stored there, the checksum of the structure is the same.
pub proof fn law_checksum_ignores_its_own_field(
    s: Seq<u8>,
    size: int,
    lo: int,
    hi: int,
    stored: Seq<u8>,
)
    requires
        0 <= lo <= hi,
        stored.len() == hi - lo,
    ensures
        checksum(overwrite(s, lo, stored), size, lo, hi) == checksum(s, size, lo, hi),
{
    let n = if s.len() < size { s.len() as int } else { size };
    lemma_byte_sum_agrees(overwrite(s, lo, stored), s, n, lo, hi);
}

/// Read a big-endian `u32` at `off`.
pub fn read_u32(b: &[u8], off: usize) -> (r: u32)
    requires
        off + 4 <= b.len(),
    ensures
        r == be32(b@, off as int),
{
    b[off] as u32 * 0x100_0000 + b[off + 1] as u32 * 0x1_0000 + b[off + 2] as u32 * 0x100 + b[off
        + 3] as u32
}

/// Read a big-endian `u64` at `off`.
pub fn read_u64(b: &[u8], off: usize) -> (r: u64)
    requires
        off + 8 <= b.len(),
    ensures
        r == be64(b@, off as int),
{
    read_u32(b, off) as u64 * 0x1_0000_0000 + read_u32(b, off + 4) as u64
}

/// The four big-endian bytes of `v`.
pub fn be_bytes_u32(v: u32) -> (r: [u8; 4])
    ensures
        r@ == be32_bytes(v as int),
        be32(r@, 0) == v,
{
    let r = [
        (v / 0x100_0000) as u8,
        (v / 0x1_0000 % 0x100) as u8,
        (v / 0x100 % 0x100) as u8,
        (v % 0x100) as u8,
    ];
    proof {
        assert(r@ =~= be32_bytes(v as int));
    }
    r
}

/// Write a big-endian `u32` at `off`. The mirror of [`read_u32`]: the
/// builder and the parser index the same constants, so a field can only
/// move in both at once.
pub fn write_u32<const N: usize>(f: &mut [u8; N], off: usize, v: u32)
    requires
        off + 4 <= N,
    ensures
        be32(final(f)@, off as int) == v,
        forall|i: int|
            0 <= i < N && !(off <= i < off + 4) ==> final(f)@[i] == old(f)@[i],
{
    f[off] = (v / 0x100_0000) as u8;
    f[off + 1] = (v / 0x1_0000 % 0x100) as u8;
    f[off + 2] = (v / 0x100 % 0x100) as u8;
    f[off + 3] = (v % 0x100) as u8;
}

/// Write a big-endian `u64` at `off`. See [`write_u32`].
pub fn write_u64<const N: usize>(f: &mut [u8; N], off: usize, v: u64)
    requires
        off + 8 <= N,
    ensures
        be64(final(f)@, off as int) == v,
        forall|i: int|
            0 <= i < N && !(off <= i < off + 8) ==> final(f)@[i] == old(f)@[i],
{
    write_u32(f, off, (v / 0x1_0000_0000) as u32);
    write_u32(f, off + 4, (v % 0x1_0000_0000) as u32);
}

/// Lay `src` over the bytes of `f` from `off` on.
pub fn write_bytes<const N: usize>(f: &mut [u8; N], off: usize, src: &[u8])
    requires
        off + src@.len() <= N,
    ensures
        final(f)@ == overwrite(old(f)@, off as int, src@),
{
    let mut i: usize = 0;
    while i < src.len()
        invariant
            i <= src@.len(),
            off + src@.len() <= N,
            f@ == overwrite(old(f)@, off as int, src@.take(i as int)),
        decreases src@.len() - i,
    {
        f[off + i] = src[i];
        i += 1;
    }
    proof {
        assert(src@.take(i as int) =~= src@);
    }
}

/// The bytes of `b` at `range`, as a fresh vector.
pub fn copy_bytes(b: &[u8], range: Range<usize>) -> (r: Vec<u8>)
    requires
        range.start <= range.end <= b@.len(),
    ensures
        r@ == b@.subrange(range.start as int, range.end as int),
{
    let mut r: Vec<u8> = Vec::with_capacity(range.end - range.start);
    let mut i: usize = range.start;
    while i < range.end
        invariant
            range.start <= i <= range.end <= b@.len(),
            r@ == b@.subrange(range.start as int, i as int),
        decreases range.end - i,
    {
        r.push(b[i]);
        i += 1;
    }
    r
}

/// The sixteen bytes of `b` from `off` on, as an array.
pub fn copy16(b: &[u8], off: usize) -> (r: [u8; 16])
    requires
        off + 16 <= b.len(),
    ensures
        r@ == field(b@, off as int, 16),
{
    let mut r = [0u8; 16];
    let mut i: usize = 0;
    while i < 16
        invariant
            i <= 16,
            off + 16 <= b.len(),
            forall|j: int| 0 <= j < i ==> r@[j] == b@[off + j],
        decreases 16 - i,
    {
        r[i] = b[off + i];
        i += 1;
    }
    r
}

/// Whether the eight bytes of `b` from its start are `cookie`.
pub fn has_cookie(b: &[u8], cookie: &[u8; 8]) -> (r: bool)
    requires
        b@.len() >= 8,
    ensures
        r == (field(b@, 0, 8) == cookie@),
{
    let mut i: usize = 0;
    while i < 8
        invariant
            i <= 8,
            b@.len() >= 8,
            forall|j: int| 0 <= j < i ==> b@[j] == cookie@[j],
        decreases 8 - i,
    {
        if b[i] != cookie[i] {
            proof {
                assert(field(b@, 0, 8)[i as int] != cookie@[i as int]);
            }
            return false;
        }
        i += 1;
    }
    proof {
        assert(field(b@, 0, 8) =~= cookie@);
    }
    true
}

/// The VHD checksum: the one's complement of the byte-wise `u32` sum over
/// the first `size` bytes, with `skip` treated as zero.
///
/// The footer and the dynamic header use the same algorithm over
/// different lengths and with the checksum field at different offsets.
/// Those two differences are the arguments.
pub fn ones_complement_checksum(bytes: &[u8], size: usize, skip: Range<usize>) -> (r: u32)
    ensures
        r == checksum(bytes@, size as int, skip.start as int, skip.end as int),
{
    let n: usize = if bytes.len() < size {
        bytes.len()
    } else {
        size
    };
    let mut sum: u32 = 0;
    let mut i: usize = 0;
    while i < n
        invariant
            i <= n <= bytes@.len(),
            sum == byte_sum(bytes@, i as int, skip.start as int, skip.end as int) % 0x1_0000_0000,
        decreases n - i,
    {
        if i < skip.start || i >= skip.end {
            sum = sum.wrapping_add(bytes[i] as u32);
        }
        i += 1;
    }
    u32::MAX - sum
}

} // verus!
