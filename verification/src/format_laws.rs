//! What the structures on disk mean, in plain bytes and numbers.
use crate::dynamic as dynamic_header;
use crate::dynamic::{DynamicHeader, ParentLocator};
use crate::error::Error;
use crate::footer as footer_block;
use crate::footer::{DiskType, Footer};
use crate::format as wire;
use vstd::prelude::*;

verus! {

/// The sum of the bytes.
pub open spec fn total(s: Seq<u8>) -> int {
    s.fold_left(0int, |sum: int, b: u8| sum + b)
}

/// Two, four and eight bytes are read most significant first.
pub proof fn law_integers_are_big_endian(s: Seq<u8>, at: int)
    ensures
        wire::be16(s, at) == 256 * s[at] + s[at + 1],
        wire::be32(s, at) == 16777216 * s[at] + 65536 * s[at + 1] + 256 * s[at + 2] + s[at + 3],
        wire::be64(s, at) == 4294967296 * (16777216 * s[at] + 65536 * s[at + 1] + 256 * s[at + 2]
            + s[at + 3]) + (16777216 * s[at + 4] + 65536 * s[at + 5] + 256 * s[at + 6] + s[at + 7]),
{
}

/// Four bytes that were made of a number read as that number.
pub proof fn law_integers_read_back(v: int)
    requires
        0 <= v <= 0xFFFF_FFFF,
    ensures
        wire::be32_bytes(v).len() == 4,
        16777216 * wire::be32_bytes(v)[0] + 65536 * wire::be32_bytes(v)[1] + 256
            * wire::be32_bytes(v)[2] + wire::be32_bytes(v)[3] == v,
{
}

/// Laying bytes over others changes those that they cover, to what they
/// are, and no other.
pub proof fn law_overwriting_replaces_what_it_covers(s: Seq<u8>, at: int, patch: Seq<u8>, i: int)
    requires
        0 <= at,
        at + patch.len() <= s.len(),
        0 <= i < s.len(),
    ensures
        wire::overwrite(s, at, patch).len() == s.len(),
        wire::overwrite(s, at, patch).subrange(at, at + patch.len()) == patch,
        i < at || at + patch.len() <= i ==> wire::overwrite(s, at, patch)[i] == s[i],
{
    assert(wire::overwrite(s, at, patch).subrange(at, at + patch.len()) =~= patch);
}

/// A field is the bytes from its place on.
pub proof fn law_a_field_is_its_bytes(s: Seq<u8>, at: int, n: int, i: int)
    requires
        0 <= at,
        0 <= i < n,
        at + n <= s.len(),
    ensures
        wire::field(s, at, n).len() == n,
        wire::field(s, at, n)[i] == s[at + i],
{
}

proof fn lemma_total_step(s: Seq<u8>, n: int)
    requires
        0 < n <= s.len(),
    ensures
        total(s.take(n)) == total(s.take(n - 1)) + s[n - 1],
        total(s.take(0)) == 0,
{
    reveal_with_fuel(Seq::fold_left, 2);
    assert(s.take(n).drop_last() =~= s.take(n - 1));
}

proof fn lemma_sum_is_total(s: Seq<u8>, n: int, lo: int, hi: int)
    requires
        0 <= lo <= hi,
        0 <= n <= s.len(),
    ensures
        wire::byte_sum(s, n, lo, hi) == if n <= lo {
            total(s.take(n))
        } else if n <= hi {
            total(s.take(lo))
        } else {
            total(s.take(lo)) + total(s.subrange(hi, n))
        },
    decreases n,
{
    reveal_with_fuel(Seq::fold_left, 2);
    if n > 0 {
        lemma_sum_is_total(s, n - 1, lo, hi);
        if n <= lo {
            lemma_total_step(s, n);
        } else if n > hi {
            assert(s.subrange(hi, n).drop_last() =~= s.subrange(hi, n - 1));
            assert(s.subrange(hi, n).last() == s[n - 1]);
            if n == hi + 1 {
                assert(s.subrange(hi, hi).len() == 0);
                assert(total(s.subrange(hi, hi)) == 0);
            }
        }
    } else {
        assert(s.take(0).len() == 0);
    }
}

/// The checksum that a footer has to carry and the sum of its other bytes
/// add up to all ones, in 32 bits.
pub proof fn law_footer_checksum_complements_the_sum(s: Seq<u8>)
    requires
        s.len() >= 512,
    ensures
        0 <= footer_block::footer_checksum(s) <= 0xFFFF_FFFF,
        (footer_block::footer_checksum(s) + s.take(64).fold_left(
            0int,
            |sum: int, b: u8| sum + b,
        ) + s.subrange(68, 512).fold_left(0int, |sum: int, b: u8| sum + b)) % 0x1_0000_0000
            == 0xFFFF_FFFF,
        (footer_block::footer_checksum(s) + total(s.take(64)) + total(s.subrange(68, 512)))
            % 0x1_0000_0000 == 0xFFFF_FFFF,
{
    lemma_sum_is_total(s, 512, 64, 68);
    wire::lemma_byte_sum_bounds(s, 512, 64, 68);
}

/// The checksum that a dynamic header has to carry and the sum of its other
/// bytes add up to all ones, in 32 bits.
pub proof fn law_header_checksum_complements_the_sum(s: Seq<u8>)
    requires
        s.len() >= 1024,
    ensures
        0 <= dynamic_header::header_checksum(s) <= 0xFFFF_FFFF,
        (dynamic_header::header_checksum(s) + s.take(36).fold_left(
            0int,
            |sum: int, b: u8| sum + b,
        ) + s.subrange(40, 1024).fold_left(0int, |sum: int, b: u8| sum + b)) % 0x1_0000_0000
            == 0xFFFF_FFFF,
        (dynamic_header::header_checksum(s) + total(s.take(36)) + total(s.subrange(40, 1024)))
            % 0x1_0000_0000 == 0xFFFF_FFFF,
{
    lemma_sum_is_total(s, 1024, 36, 40);
    wire::lemma_byte_sum_bounds(s, 1024, 36, 40);
}

proof fn lemma_nothing_left_out(s: Seq<u8>, n: int, lo: int, hi: int)
    requires
        hi <= lo,
        0 <= n <= s.len(),
    ensures
        wire::byte_sum(s, n, lo, hi) == total(s.take(n)),
    decreases n,
{
    if n > 0 {
        lemma_nothing_left_out(s, n - 1, lo, hi);
        lemma_total_step(s, n);
    } else {
        reveal_with_fuel(Seq::fold_left, 2);
        assert(s.take(0).len() == 0);
    }
}

/// The checksum of any run of bytes, whatever part is left out of it, and
/// the sum of what is not left out add up to all ones, in 32 bits. Bytes
/// that are not there do not count.
pub proof fn law_checksum_complements_the_sum(s: Seq<u8>, size: nat, lo: nat, hi: nat)
    ensures
        ({
            let n = if s.len() < size {
                s.len()
            } else {
                size
            };
            let sum = if hi <= lo || n <= lo {
                s.take(n as int).fold_left(0int, |sum: int, b: u8| sum + b)
            } else if n <= hi {
                s.take(lo as int).fold_left(0int, |sum: int, b: u8| sum + b)
            } else {
                s.take(lo as int).fold_left(0int, |sum: int, b: u8| sum + b) + s.subrange(
                    hi as int,
                    n as int,
                ).fold_left(0int, |sum: int, b: u8| sum + b)
            };
            let checksum = wire::checksum(s, size as int, lo as int, hi as int);
            &&& 0 <= checksum <= 0xFFFF_FFFF
            &&& (checksum + sum) % 0x1_0000_0000 == 0xFFFF_FFFF
        }),
{
    let n = if s.len() < size {
        s.len() as int
    } else {
        size as int
    };
    if hi <= lo {
        lemma_nothing_left_out(s, n, lo as int, hi as int);
    } else {
        lemma_sum_is_total(s, n, lo as int, hi as int);
    }
    wire::lemma_byte_sum_bounds(s, n, lo as int, hi as int);
}

/// Bytes that fall short of the structure are summed as far as they go.
pub proof fn law_checksum_of_a_fragment(s: Seq<u8>)
    ensures
        s.len() <= 64 ==> (footer_block::footer_checksum(s) + total(s)) % 0x1_0000_0000
            == 0xFFFF_FFFF,
        s.len() <= 36 ==> (dynamic_header::header_checksum(s) + total(s)) % 0x1_0000_0000
            == 0xFFFF_FFFF,
{
    let n = s.len() as int;
    assert(s.take(n) =~= s);
    lemma_sum_is_total(s, n, 64, 68);
    lemma_sum_is_total(s, n, 36, 40);
    wire::lemma_byte_sum_bounds(s, n, 64, 68);
    wire::lemma_byte_sum_bounds(s, n, 36, 40);
}

/// The eight bytes at the start of `s` spell "conectix".
pub open spec fn spells_conectix(s: Seq<u8>) -> bool {
    &&& s[0] == 0x63 && s[1] == 0x6f && s[2] == 0x6e && s[3] == 0x65
    &&& s[4] == 0x63 && s[5] == 0x74 && s[6] == 0x69 && s[7] == 0x78
}

/// The eight bytes at the start of `s` spell "cxsparse".
pub open spec fn spells_cxsparse(s: Seq<u8>) -> bool {
    &&& s[0] == 0x63 && s[1] == 0x78 && s[2] == 0x73 && s[3] == 0x70
    &&& s[4] == 0x61 && s[5] == 0x72 && s[6] == 0x73 && s[7] == 0x65
}

/// The four bytes at `at`, as a number.
pub open spec fn four(s: Seq<u8>, at: int) -> int {
    16777216 * s[at] + 65536 * s[at + 1] + 256 * s[at + 2] + s[at + 3]
}

/// The eight bytes at `at`, as a number.
pub open spec fn eight(s: Seq<u8>, at: int) -> int {
    4294967296 * four(s, at) + four(s, at + 4)
}

/// 512 bytes that start with "conectix", whose checksum field and the sum
/// of the other bytes add up to all ones, and whose disk type is 2, 3 or 4.
pub open spec fn is_footer(s: Seq<u8>) -> bool {
    &&& s.len() >= 512
    &&& spells_conectix(s)
    &&& (four(s, 64) + total(s.take(64)) + total(s.subrange(68, 512))) % 0x1_0000_0000
        == 0xFFFF_FFFF
    &&& 2 <= four(s, 60) <= 4
}

/// 1024 bytes that start with "cxsparse", whose checksum field and the sum
/// of the other bytes add up to all ones, and whose block size is a power
/// of two of at least 512.
pub open spec fn is_header(s: Seq<u8>) -> bool {
    &&& s.len() >= 1024
    &&& spells_cxsparse(s)
    &&& (four(s, 36) + total(s.take(36)) + total(s.subrange(40, 1024))) % 0x1_0000_0000
        == 0xFFFF_FFFF
    &&& 512 <= four(s, 32)
    &&& exists|k: nat| four(s, 32) == #[trigger] vstd::arithmetic::power2::pow2(k)
}

/// Bytes are taken for a footer exactly where they are one: there are 512 of
/// them, they start with "conectix", their checksum and the sum of the
/// others add up to all ones, and their disk type is 2, 3 or 4.
pub proof fn law_footer_is_taken_exactly_where(s: Seq<u8>)
    ensures
        footer_block::footer_refusal(s) is None <==> is_footer(s),
        footer_block::footer_refusal(s) is None <==> {
            &&& s.len() >= 512
            &&& s[0] == 0x63 && s[1] == 0x6f && s[2] == 0x6e && s[3] == 0x65
            &&& s[4] == 0x63 && s[5] == 0x74 && s[6] == 0x69 && s[7] == 0x78
            &&& (16777216 * s[64] + 65536 * s[65] + 256 * s[66] + s[67] + s.take(64).fold_left(
                0int,
                |sum: int, b: u8| sum + b,
            ) + s.subrange(68, 512).fold_left(0int, |sum: int, b: u8| sum + b)) % 0x1_0000_0000
                == 0xFFFF_FFFF
            &&& s[60] == 0 && s[61] == 0 && s[62] == 0 && 2 <= s[63] <= 4
        },
{
    if s.len() >= 512 {
        law_footer_checksum_complements_the_sum(s);
        lemma_complement_is_unique(
            footer_block::footer_checksum(s),
            four(s, 64),
            total(s.take(64)) + total(s.subrange(68, 512)),
        );
        lemma_footer_cookie(s);
    }
}

proof fn lemma_complement_is_unique(a: int, b: int, sum: int)
    requires
        0 <= a <= 0xFFFF_FFFF,
        0 <= b <= 0xFFFF_FFFF,
        (a + sum) % 0x1_0000_0000 == 0xFFFF_FFFF,
    ensures
        (b + sum) % 0x1_0000_0000 == 0xFFFF_FFFF <==> a == b,
{
}

pub proof fn lemma_footer_cookie(s: Seq<u8>)
    requires
        s.len() >= 8,
    ensures
        wire::field(s, 0, 8) == footer_block::FOOTER_COOKIE@ <==> spells_conectix(s),
{
    let f = wire::field(s, 0, 8);
    let c = footer_block::FOOTER_COOKIE@;
    if spells_conectix(s) {
        assert(f =~= c);
    }
    if f == c {
        assert(f[0] == c[0] && f[1] == c[1] && f[2] == c[2] && f[3] == c[3]);
        assert(f[4] == c[4] && f[5] == c[5] && f[6] == c[6] && f[7] == c[7]);
    }
}

pub proof fn lemma_header_cookie(s: Seq<u8>)
    requires
        s.len() >= 8,
    ensures
        wire::field(s, 0, 8) == dynamic_header::DYN_HEADER_COOKIE@ <==> spells_cxsparse(s),
{
    let f = wire::field(s, 0, 8);
    let c = dynamic_header::DYN_HEADER_COOKIE@;
    if spells_cxsparse(s) {
        assert(f =~= c);
    }
    if f == c {
        assert(f[0] == c[0] && f[1] == c[1] && f[2] == c[2] && f[3] == c[3]);
        assert(f[4] == c[4] && f[5] == c[5] && f[6] == c[6] && f[7] == c[7]);
    }
}

/// What is said of bytes that are no footer: the first thing wrong with
/// them.
pub proof fn law_footer_is_refused_for_the_first_fault(s: Seq<u8>)
    ensures
        s.len() < 512 ==> footer_block::footer_refusal(s) == Some(
            Error::Corrupt("footer shorter than 512 bytes"),
        ),
        s.len() >= 512 && !spells_conectix(s) ==> footer_block::footer_refusal(s) == Some(
            Error::NotVhd,
        ),
        s.len() >= 512 && spells_conectix(s) ==> match footer_block::footer_refusal(s) {
            Some(Error::BadChecksum { expected, found, what }) => {
                &&& what == "footer"
                &&& expected == four(s, 64)
                &&& found != expected
                &&& (found + total(s.take(64)) + total(s.subrange(68, 512))) % 0x1_0000_0000
                    == 0xFFFF_FFFF
            },
            Some(Error::UnsupportedDiskType(t)) => t == four(s, 60) && !(2 <= t <= 4),
            Some(_) => false,
            None => true,
        },
{
    if s.len() >= 512 {
        law_footer_checksum_complements_the_sum(s);
        lemma_footer_cookie(s);
    }
}

/// A footer's fields, each in its place.
pub proof fn law_footer_fields(f: Footer, s: Seq<u8>)
    requires
        f.describes(s),
        s.len() >= 512,
    ensures
        f.features == four(s, 8),
        f.file_format_version == four(s, 12),
        f.data_offset == eight(s, 16),
        f.original_size == eight(s, 40),
        f.current_size == eight(s, 48),
        f.disk_type == DiskType::Fixed <==> four(s, 60) == 2,
        f.disk_type == DiskType::Dynamic <==> four(s, 60) == 3,
        f.disk_type == DiskType::Differencing <==> four(s, 60) == 4,
        f.unique_id@ == s.subrange(68, 84),
{
}

/// The wire values of the disk types.
pub proof fn law_disk_types_are_two_to_four(v: u32)
    ensures
        DiskType::Fixed.wire() == 2,
        DiskType::Dynamic.wire() == 3,
        DiskType::Differencing.wire() == 4,
        DiskType::known(v) <==> v == 2 || v == 3 || v == 4,
{
}

/// Bytes are taken for a dynamic header exactly where they are one: there
/// are 1024 of them, they start with "cxsparse", their checksum and the sum
/// of the others add up to all ones, and their block size is a power of two
/// of at least 512.
pub proof fn law_header_is_taken_exactly_where(s: Seq<u8>)
    ensures
        dynamic_header::header_refusal(s) is None <==> is_header(s),
        dynamic_header::header_refusal(s) is None <==> {
            &&& s.len() >= 1024
            &&& s[0] == 0x63 && s[1] == 0x78 && s[2] == 0x73 && s[3] == 0x70
            &&& s[4] == 0x61 && s[5] == 0x72 && s[6] == 0x73 && s[7] == 0x65
            &&& (16777216 * s[36] + 65536 * s[37] + 256 * s[38] + s[39] + s.take(36).fold_left(
                0int,
                |sum: int, b: u8| sum + b,
            ) + s.subrange(40, 1024).fold_left(0int, |sum: int, b: u8| sum + b)) % 0x1_0000_0000
                == 0xFFFF_FFFF
            &&& 16777216 * s[32] + 65536 * s[33] + 256 * s[34] + s[35] >= 512
            &&& exists|k: nat|
                16777216 * s[32] + 65536 * s[33] + 256 * s[34] + s[35]
                    == #[trigger] vstd::arithmetic::power2::pow2(k)
        },
{
    if s.len() >= 1024 {
        law_header_checksum_complements_the_sum(s);
        lemma_complement_is_unique(
            dynamic_header::header_checksum(s),
            four(s, 36),
            total(s.take(36)) + total(s.subrange(40, 1024)),
        );
        lemma_header_cookie(s);
    }
}

/// What is said of bytes that are no dynamic header: the first thing wrong
/// with them.
pub proof fn law_header_is_refused_for_the_first_fault(s: Seq<u8>)
    ensures
        s.len() < 1024 ==> dynamic_header::header_refusal(s) == Some(
            Error::Corrupt("dynamic header shorter than 1024 bytes"),
        ),
        s.len() >= 1024 && !spells_cxsparse(s) ==> dynamic_header::header_refusal(s) == Some(
            Error::Corrupt("dynamic header bad cookie"),
        ),
        s.len() >= 1024 && spells_cxsparse(s) ==> match dynamic_header::header_refusal(s) {
            Some(Error::BadChecksum { expected, found, what }) => {
                &&& what == "dynamic-header"
                &&& expected == four(s, 36)
                &&& found != expected
                &&& (found + total(s.take(36)) + total(s.subrange(40, 1024))) % 0x1_0000_0000
                    == 0xFFFF_FFFF
            },
            Some(Error::Corrupt(what)) => {
                ||| what == "block_size is not a power of two" && forall|k: nat|
                    four(s, 32) != #[trigger] vstd::arithmetic::power2::pow2(k)
                ||| what == "block_size < 512" && four(s, 32) < 512
            },
            Some(_) => false,
            None => true,
        },
{
    if s.len() >= 1024 {
        law_header_checksum_complements_the_sum(s);
        lemma_header_cookie(s);
    }
}

/// A dynamic header's fields, each in its place.
pub proof fn law_header_fields(h: DynamicHeader, s: Seq<u8>, i: int)
    requires
        h.describes(s),
        s.len() >= 1024,
        0 <= i < 8,
    ensures
        h.data_offset == eight(s, 8),
        h.table_offset == eight(s, 16),
        h.header_version == four(s, 24),
        h.max_table_entries == four(s, 28),
        h.block_size == four(s, 32),
        h.parent_unique_id@ == s.subrange(40, 56),
        h.parent_timestamp == four(s, 56),
        h.parent_name@ == dynamic_header::decoded_name(s.subrange(64, 576)),
        h.parent_locators@[i].platform_code@ == s.subrange(576 + 24 * i, 580 + 24 * i),
        h.parent_locators@[i].platform_data_space == four(s, 580 + 24 * i),
        h.parent_locators@[i].platform_data_length == four(s, 584 + 24 * i),
        h.parent_locators@[i].reserved == four(s, 588 + 24 * i),
        h.parent_locators@[i].platform_data_offset == eight(s, 592 + 24 * i),
{
    let locator: ParentLocator = h.parent_locators@[i];
    assert(locator.describes(s, 576 + i * 24));
}

/// A parent locator's fields, each in its place.
pub proof fn law_locator_fields(locator: ParentLocator, s: Seq<u8>, at: int)
    requires
        0 <= at,
        at + 24 <= s.len(),
        locator.describes(s, at),
    ensures
        locator.platform_code@ == s.subrange(at, at + 4),
        locator.platform_data_space == four(s, at + 4),
        locator.platform_data_length == four(s, at + 8),
        locator.reserved == four(s, at + 12),
        locator.platform_data_offset == eight(s, at + 16),
{
}

/// One is a power of two; any other number is one exactly where it is even
/// and its half is one.
pub proof fn law_powers_of_two_double(v: int)
    requires
        v > 0,
    ensures
        dynamic_header::power_of_two(1),
        !dynamic_header::power_of_two(0),
        v > 1 ==> (dynamic_header::power_of_two(v) <==> v % 2 == 0 && dynamic_header::power_of_two(
            v / 2,
        )),
{
    vstd::arithmetic::power2::lemma2_to64();
    assert(vstd::arithmetic::power2::pow2(0) == 1);
    assert forall|k: nat| #[trigger] vstd::arithmetic::power2::pow2(k) > 0 by {
        vstd::arithmetic::power2::lemma_pow2_pos(k);
    }
    if v > 1 && dynamic_header::power_of_two(v) {
        let k = choose|k: nat| v == #[trigger] vstd::arithmetic::power2::pow2(k);
        vstd::arithmetic::power2::lemma_pow2_unfold(k);
        assert(v == 2 * vstd::arithmetic::power2::pow2((k - 1) as nat));
    }
    if v > 1 && v % 2 == 0 && dynamic_header::power_of_two(v / 2) {
        let k = choose|k: nat| v / 2 == #[trigger] vstd::arithmetic::power2::pow2(k);
        vstd::arithmetic::power2::lemma_pow2_unfold(k + 1);
        assert(v == vstd::arithmetic::power2::pow2(k + 1));
    }
}

/// A block's bitmap is the least whole number of sectors that has a bit for
/// every sector of the block.
pub proof fn law_bitmap_is_as_small_as_it_can_be(block_size: int)
    requires
        block_size >= 0,
    ensures
        dynamic_header::bitmap_bytes(block_size) % 512 == 0,
        8 * dynamic_header::bitmap_bytes(block_size) >= block_size / 512,
        8 * (dynamic_header::bitmap_bytes(block_size) - 512) < block_size / 512,
{
}

proof fn lemma_units_from(s: Seq<u8>, i: int, n: int)
    requires
        0 <= i <= n,
        2 * n <= s.len(),
        forall|j: int| i <= j < n ==> 256 * #[trigger] s[2 * j] + s[2 * j + 1] != 0,
        2 * n + 1 < s.len() ==> 256 * s[2 * n] + s[2 * n + 1] == 0,
    ensures
        dynamic_header::text_units(s, i).len() == n - i,
        forall|j: int|
            i <= j < n ==> #[trigger] dynamic_header::text_units(s, i)[j - i] == 256 * s[2 * j] + s[2 * j
                + 1],
    decreases n - i,
{
    if i < n {
        assert(256 * s[2 * i] + s[2 * i + 1] != 0);
        lemma_units_from(s, i + 1, n);
        let rest = dynamic_header::text_units(s, i + 1);
        assert(dynamic_header::text_units(s, i) =~= seq![wire::be16(s, 2 * i) as u16] + rest);
        assert forall|j: int| i <= j < n implies #[trigger] dynamic_header::text_units(s, i)[j - i]
            == 256 * s[2 * j] + s[2 * j + 1] by {
            if j > i {
                assert(rest[j - (i + 1)] == 256 * s[2 * j] + s[2 * j + 1]);
            }
        }
    }
}

/// A field that holds `n` units, none of them zero, and behind them a zero
/// unit or its end, holds exactly those units, in order.
pub proof fn law_every_unit_of_a_name_is_read(s: Seq<u8>, n: int, j: int)
    requires
        0 <= n,
        2 * n <= s.len(),
        forall|i: int| 0 <= i < n ==> 256 * #[trigger] s[2 * i] + s[2 * i + 1] != 0,
        2 * n + 1 < s.len() ==> 256 * s[2 * n] + s[2 * n + 1] == 0,
    ensures
        dynamic_header::text_units(s, 0).len() == n,
        0 <= j < n ==> dynamic_header::text_units(s, 0)[j] == 256 * s[2 * j] + s[2 * j + 1],
{
    lemma_units_from(s, 0, n);
    if 0 <= j < n {
        assert(dynamic_header::text_units(s, 0)[j - 0] == 256 * s[2 * j] + s[2 * j + 1]);
    }
}

/// The units of text in UTF-16.
pub open spec fn utf16_units(text: Seq<char>) -> Seq<u16>
    decreases text.len(),
{
    if text.len() == 0 {
        seq![]
    } else {
        let c = text[0] as int;
        (if c < 0x1_0000 {
            seq![c as u16]
        } else {
            seq![
                (0xD800 + (c - 0x1_0000) / 1024) as u16,
                (0xDC00 + (c - 0x1_0000) % 1024) as u16,
            ]
        }) + utf16_units(text.skip(1))
    }
}

/// A character is a number below 0x11_0000 that is no surrogate.
proof fn lemma_char_range(c: char)
    ensures
        0 <= c as int <= 0x10_FFFF,
        !(0xD800 <= c as int <= 0xDFFF),
        (c as int) as char == c,
{
}

/// Whatever text a name is, its units decode to it.
pub proof fn law_text_survives_utf16(text: Seq<char>)
    ensures
        dynamic_header::utf16_text(utf16_units(text)) == Some(text),
    decreases text.len(),
{
    if text.len() > 0 {
        let rest = text.skip(1);
        law_text_survives_utf16(rest);
        let units = utf16_units(text);
        let tail = utf16_units(rest);
        let c = text[0];
        lemma_char_range(c);
        if (c as int) < 0x1_0000 {
            assert(units.skip(1) =~= tail);
            assert(units[0] == c as int);
            assert(units[0] as char == c);
        } else {
            assert(units.skip(2) =~= tail);
            assert(c as int <= 0x10_FFFF);
            assert((0x1_0000 + (units[0] - 0xD800) * 0x400 + (units[1] - 0xDC00)) == c as int);
        }
        assert(seq![c] + rest =~= text);
    }
}

/// Units that decode at all are the units of the text they decode to.
pub proof fn law_units_that_decode_are_the_texts(units: Seq<u16>)
    requires
        dynamic_header::utf16_text(units) is Some,
    ensures
        utf16_units(dynamic_header::utf16_text(units)->0) == units,
    decreases units.len(),
{
    let text = dynamic_header::utf16_text(units)->0;
    if units.len() > 0 {
        if units[0] < 0xD800 || units[0] >= 0xE000 {
            law_units_that_decode_are_the_texts(units.skip(1));
            let rest = dynamic_header::utf16_text(units.skip(1))->0;
            assert(text == seq![units[0] as char] + rest);
            assert(text.skip(1) =~= rest);
            assert(utf16_units(text) =~= units);
        } else {
            law_units_that_decode_are_the_texts(units.skip(2));
            let rest = dynamic_header::utf16_text(units.skip(2))->0;
            let v = 0x1_0000 + (units[0] - 0xD800) * 0x400 + (units[1] - 0xDC00);
            assert(text == seq![v as char] + rest);
            assert(text.skip(1) =~= rest);
            assert(0x1_0000 <= v <= 0x10_FFFF);
            assert(text[0] as int == v);
            assert(utf16_units(text) =~= units);
        }
    }
}

/// A name that the field holds in UTF-16, zero-padded, is the name that is
/// decoded; where the units decode to nothing the name is empty.
pub proof fn law_name_is_what_the_units_say(s: Seq<u8>, text: Seq<char>)
    ensures
        dynamic_header::text_units(s, 0) == utf16_units(text) ==> dynamic_header::decoded_name(s)
            == text,
        (forall|t: Seq<char>| dynamic_header::text_units(s, 0) != #[trigger] utf16_units(t))
            ==> dynamic_header::decoded_name(s).len() == 0,
{
    law_text_survives_utf16(text);
    let units = dynamic_header::text_units(s, 0);
    if dynamic_header::utf16_text(units) is Some {
        law_units_that_decode_are_the_texts(units);
        assert(units == utf16_units(dynamic_header::utf16_text(units)->0));
    }
}

} // verus!
