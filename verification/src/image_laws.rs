//! Which devices hold an image, what an opened image is, and which chains
//! open, in terms of the bytes on the devices.
use crate::disk_laws;
use crate::dynamic as dynamic_header;
use crate::error::{Error, Result};
use crate::footer as footer_block;
use crate::footer::DiskType;
use crate::format_laws;
use crate::opening;
use crate::opening::{OpenOp, OpenStage};
use crate::reader::Image;
use crate::table;
use vstd::prelude::*;

verus! {

/// The blocks that the table names all stand in `lo..hi`.
pub open spec fn stand_between(bat: Seq<u32>, lo: int, hi: int, total: int) -> bool {
    forall|b: int|
        0 <= b < bat.len() && #[trigger] bat[b] != 0xFFFF_FFFF ==> lo <= 512 * bat[b] && 512 * bat[b]
            + total <= hi
}

/// No two blocks that the table names share a byte.
pub open spec fn stand_apart(bat: Seq<u32>, total: int) -> bool {
    forall|b: int, c: int|
        0 <= b < c < bat.len() && #[trigger] bat[b] != 0xFFFF_FFFF && #[trigger] bat[c] != 0xFFFF_FFFF
            ==> 512 * bat[b] + total <= 512 * bat[c] || 512 * bat[c] + total <= 512 * bat[b]
}

/// A table is believed exactly where its blocks stand in `lo..hi` and no
/// two of them share a byte.
pub proof fn law_table_is_believed_exactly_where(bat: Seq<u32>, lo: int, hi: int, total: int)
    requires
        total > 0,
    ensures
        table::table_refusal(bat, lo, hi, total) is None <==> stand_between(bat, lo, hi, total)
            && stand_apart(bat, total),
{
    let n = bat.len() as int;
    if table::table_refusal(bat, lo, hi, total) is None {
        assert forall|b: int| 0 <= b < bat.len() && #[trigger] bat[b] != 0xFFFF_FFFF implies lo <= 512
            * bat[b] && 512 * bat[b] + total <= hi by {
            table::lemma_every_entry_is_believed(bat, n, lo, hi, total, b);
        }
    }
    if stand_between(bat, lo, hi, total) && stand_apart(bat, total) {
        assert forall|b: int| 0 <= b < n implies table::entry_refusal(
            #[trigger] bat[b],
            lo,
            hi,
            total,
        ) is None by {}
        table::lemma_no_entry_is_refused(bat, n, lo, hi, total);
    }
}

proof fn lemma_first_bad_entry(bat: Seq<u32>, n: int, lo: int, hi: int, total: int, b: int)
    requires
        0 <= b < n <= bat.len(),
        stand_between(bat.take(b), lo, hi, total),
        table::entry_refusal(bat[b], lo, hi, total) is Some,
    ensures
        table::entries_refusal(bat, n, lo, hi, total) == table::entry_refusal(
            bat[b],
            lo,
            hi,
            total,
        ),
    decreases n,
{
    if n > b + 1 {
        lemma_first_bad_entry(bat, n - 1, lo, hi, total, b);
    } else {
        assert forall|c: int| 0 <= c < b implies table::entry_refusal(
            #[trigger] bat[c],
            lo,
            hi,
            total,
        ) is None by {
            assert(bat.take(b)[c] == bat[c]);
        }
        table::lemma_no_entry_is_refused(bat, b, lo, hi, total);
    }
}

/// What is said of a table that is not believed: what is wrong with the
/// first block that stands outside `lo..hi`; where all stand inside, that
/// two are the same, or else that two overlap.
pub proof fn law_table_is_refused_for_its_first_fault(
    bat: Seq<u32>,
    lo: int,
    hi: int,
    total: int,
    b: int,
)
    requires
        total > 0,
    ensures
        0 <= b < bat.len() && stand_between(bat.take(b), lo, hi, total) && bat[b] != 0xFFFF_FFFF
            && 512 * bat[b] < lo ==> table::table_refusal(bat, lo, hi, total) == Some(
            Error::Corrupt("BAT entry names a block inside the image's own metadata"),
        ),
        0 <= b < bat.len() && stand_between(bat.take(b), lo, hi, total) && bat[b] != 0xFFFF_FFFF
            && lo <= 512 * bat[b] && 512 * bat[b] + total > hi ==> table::table_refusal(
            bat,
            lo,
            hi,
            total,
        ) == Some(
            Error::Corrupt("BAT entry names a block running into the trailing footer or past it"),
        ),
        stand_between(bat, lo, hi, total) && (exists|c: int, d: int|
            0 <= c < d < bat.len() && #[trigger] bat[c] != 0xFFFF_FFFF && bat[c] == #[trigger] bat[d])
            ==> table::table_refusal(bat, lo, hi, total) == Some(
            Error::Corrupt("two BAT entries name the same block"),
        ),
        stand_between(bat, lo, hi, total) && !stand_apart(bat, total) && (forall|c: int, d: int|
            0 <= c < d < bat.len() && #[trigger] bat[c] != 0xFFFF_FFFF ==> bat[c] != #[trigger] bat[d])
            ==> table::table_refusal(bat, lo, hi, total) == Some(
            Error::Corrupt("two BAT entries name overlapping blocks"),
        ),
{
    let n = bat.len() as int;
    if 0 <= b < n && stand_between(bat.take(b), lo, hi, total) && table::entry_refusal(
        bat[b],
        lo,
        hi,
        total,
    ) is Some {
        lemma_first_bad_entry(bat, n, lo, hi, total, b);
    }
    if stand_between(bat, lo, hi, total) {
        assert forall|c: int| 0 <= c < n implies table::entry_refusal(
            #[trigger] bat[c],
            lo,
            hi,
            total,
        ) is None by {}
        table::lemma_no_entry_is_refused(bat, n, lo, hi, total);
    }
}

/// The first 512 bytes of a device, and the last.
pub open spec fn head(d: Seq<u8>) -> Seq<u8> {
    d.subrange(0, 512)
}

pub open spec fn tail(d: Seq<u8>) -> Seq<u8> {
    d.subrange(d.len() - 512, d.len() as int)
}

/// The tail is no footer, but the head is one of a sparse image.
pub open spec fn from_head(d: Seq<u8>) -> bool {
    &&& !format_laws::is_footer(tail(d))
    &&& format_laws::is_footer(head(d))
    &&& format_laws::four(head(d), 60) != 2
}

/// The footer that counts: the tail, or, where the tail is no footer and
/// the head is one of a sparse image, the head.
pub open spec fn counts(d: Seq<u8>) -> Seq<u8> {
    if from_head(d) {
        head(d)
    } else {
        tail(d)
    }
}

/// Where the dynamic header stands, and its bytes.
pub open spec fn header_at(d: Seq<u8>) -> int {
    format_laws::eight(counts(d), 16)
}

pub open spec fn header(d: Seq<u8>) -> Seq<u8> {
    d.subrange(header_at(d), header_at(d) + 1024)
}

/// Where the table stands, and how many entries it has.
pub open spec fn table_at(d: Seq<u8>) -> int {
    format_laws::eight(header(d), 16)
}

pub open spec fn table_len(d: Seq<u8>) -> int {
    format_laws::four(header(d), 28)
}

/// The table's entries: four bytes each.
pub open spec fn entries(d: Seq<u8>) -> Seq<u32> {
    Seq::new(table_len(d) as nat, |b: int| format_laws::four(d, table_at(d) + 4 * b) as u32)
}

pub open spec fn block_size(d: Seq<u8>) -> int {
    format_laws::four(header(d), 32)
}

/// Where the blocks end: at the trailing footer, or, where the tail is not
/// the footer that counts, at the end of the device.
pub open spec fn blocks_end(d: Seq<u8>) -> int {
    if from_head(d) {
        d.len() as int
    } else {
        d.len() - 512
    }
}

/// The functions that tell what a device holds, each in plain bytes.
#[verifier::rlimit(40)]
pub proof fn law_what_a_device_holds(d: Seq<u8>)
    requires
        d.len() >= 512,
    ensures
        opening::recovered(d) <==> from_head(d),
        opening::footer_of(d) == counts(d),
        opening::virtual_size_of(d) == format_laws::eight(counts(d), 48),
        opening::is_fixed(d) <==> format_laws::four(counts(d), 60) == 2,
        opening::is_differencing(d) <==> format_laws::four(counts(d), 60) == 4,
        opening::identity(d) == counts(d).subrange(68, 84),
        opening::header_offset_of(d) == header_at(d),
        opening::header_of(d) == header(d),
        opening::table_offset_of(d) == table_at(d),
        opening::table_entries_of(d) == table_len(d),
        opening::block_size_of(d) == block_size(d),
        opening::named_parent(d) == header(d).subrange(40, 56),
        opening::parent_name_of(d) == dynamic_header::decoded_name(header(d).subrange(64, 576)),
        opening::table_of(d) == entries(d),
        opening::data_end_of(d) == blocks_end(d),
        opening::table_end_of(d) == table_at(d) + 4 * table_len(d),
{
    format_laws::law_footer_is_taken_exactly_where(tail(d));
    format_laws::law_footer_is_taken_exactly_where(head(d));
    assert(opening::footer_of(d) == counts(d));
    assert(opening::header_of(d) == header(d));
    assert forall|c: int| 0 <= c < table_len(d) implies opening::table_of(d)[c] == entries(d)[c] by {}
    assert(opening::table_of(d) =~= entries(d));
}

proof fn lemma_nothing_is_wrong(d: Seq<u8>)
    requires
        d.len() >= 512,
    ensures
        opening::image_refusal(d) is None <==> {
            &&& footer_block::footer_refusal(opening::footer_of(d)) is None
            &&& !opening::is_fixed(d) ==> {
                &&& opening::header_offset_of(d) != u64::MAX
                &&& d.len() % 512 == 0
                &&& dynamic_header::header_refusal(opening::header_of(d)) is None
                &&& opening::table_entries_of(d) * opening::block_size_of(d)
                    >= opening::virtual_size_of(d)
                &&& opening::table_end_of(d) <= u64::MAX
                &&& opening::table_end_of(d) <= d.len()
                &&& table::table_refusal(
                    opening::table_of(d),
                    opening::data_start_of(d),
                    opening::data_end_of(d),
                    opening::block_total_of(d),
                ) is None
            }
        },
{
    reveal(opening::image_refusal);
}

proof fn lemma_first_boundary(header_offset: int, table_end: int, start: int)
    requires
        0 <= header_offset,
        start % 512 == 0,
        start >= header_offset + 1024,
        start >= table_end,
        start - 512 < header_offset + 1024 || start - 512 < table_end,
    ensures
        opening::round_up(opening::metadata_end(header_offset, table_end)) == start,
{
}

/// A device holds an image exactly where its footer is one and, unless it
/// is that of a fixed disk: it says where the header is; the device is
/// whole sectors long; the header is one; its table has a block for every
/// byte of the disk and ends inside the device; every block that the table
/// names stands behind the header and the table and ends before the footer;
/// and no two of them share a byte.
#[verifier::rlimit(40)]
pub proof fn law_device_holds_an_image_exactly_where(d: Seq<u8>, start: int)
    requires
        d.len() >= 512,
        // The header can be read.
        format_laws::is_footer(counts(d)) && format_laws::four(counts(d), 60) != 2 ==> header_at(d)
            + 1024 <= d.len() || header_at(d) == 0xFFFF_FFFF_FFFF_FFFF,
        // The first sector boundary behind the header and the table.
        start % 512 == 0,
        start >= header_at(d) + 1024,
        start >= table_at(d) + 4 * table_len(d),
        start - 512 < header_at(d) + 1024 || start - 512 < table_at(d) + 4 * table_len(d),
    ensures
        opening::image_refusal(d) is None <==> {
            &&& format_laws::is_footer(counts(d))
            &&& format_laws::four(counts(d), 60) != 2 ==> {
                let bitmap = dynamic_header::bitmap_bytes(block_size(d));
                &&& header_at(d) != 0xFFFF_FFFF_FFFF_FFFF
                &&& d.len() % 512 == 0
                &&& format_laws::is_header(header(d))
                &&& table_len(d) * block_size(d) >= format_laws::eight(counts(d), 48)
                &&& table_at(d) + 4 * table_len(d) <= d.len()
                &&& table_at(d) + 4 * table_len(d) <= 0xFFFF_FFFF_FFFF_FFFF
                &&& stand_between(entries(d), start, blocks_end(d), bitmap + block_size(d))
                &&& stand_apart(entries(d), bitmap + block_size(d))
            }
        },
{
    lemma_nothing_is_wrong(d);
    law_what_a_device_holds(d);
    lemma_first_boundary(header_at(d), table_at(d) + 4 * table_len(d), start);
    let total = dynamic_header::bitmap_bytes(block_size(d)) + block_size(d);
    assert(opening::block_total_of(d) == total);
    assert(footer_block::footer_refusal(counts(d)) is None <==> format_laws::is_footer(counts(d)))
        by {
        format_laws::law_footer_is_taken_exactly_where(counts(d));
    }
    assert(dynamic_header::header_refusal(header(d)) is None <==> format_laws::is_header(header(d)))
        by {
        format_laws::law_header_is_taken_exactly_where(header(d));
    }
    if block_size(d) >= 512 {
        law_table_is_believed_exactly_where(entries(d), start, blocks_end(d), total);
    }
}

/// What is said of a device that holds no image: the first thing wrong with
/// it.
#[verifier::rlimit(40)]
pub proof fn law_device_is_refused_for_the_first_fault(d: Seq<u8>)
    ensures
        d.len() < 512 ==> opening::image_refusal(d) == Some(
            Error::Corrupt("device shorter than 512 bytes"),
        ),
        d.len() >= 512 && !format_laws::is_footer(counts(d)) ==> opening::image_refusal(d)
            == footer_block::footer_refusal(tail(d)) && opening::image_refusal(d) is Some,
        d.len() >= 512 && format_laws::is_footer(counts(d)) && format_laws::four(counts(d), 60) != 2
            ==> {
            let refusal = opening::image_refusal(d);
            let small = table_len(d) * block_size(d) < format_laws::eight(counts(d), 48);
            let end = table_at(d) + 4 * table_len(d);
            if header_at(d) == 0xFFFF_FFFF_FFFF_FFFF {
                refusal == Some(
                    Error::Corrupt("dynamic/differencing footer has data_offset = 0xFFFF..."),
                )
            } else if d.len() % 512 != 0 {
                refusal == Some(
                    Error::Corrupt(
                        "sparse image length is not a multiple of 512, so its blocks cannot sit on sector boundaries",
                    ),
                )
            } else if !format_laws::is_header(header(d)) {
                refusal == dynamic_header::header_refusal(header(d)) && refusal is Some
            } else if small {
                refusal == Some(
                    Error::Corrupt("BAT is too small to describe the declared virtual size"),
                )
            } else if end > 0xFFFF_FFFF_FFFF_FFFF {
                refusal == Some(Error::Corrupt("BAT extent overflows"))
            } else if end > d.len() {
                refusal == Some(Error::Corrupt("BAT extends past the end of the image"))
            } else {
                true
            }
        },
{
    reveal(opening::image_refusal);
    if d.len() >= 512 {
        law_what_a_device_holds(d);
        format_laws::law_footer_is_taken_exactly_where(counts(d));
        format_laws::law_header_is_taken_exactly_where(header(d));
    }
}

/// What an opened image is: its footer, its header and its table are those
/// on the device, and its tail is where the blocks end.
pub proof fn law_opened_image_is_what_the_device_holds(image: Image, d: Seq<u8>, b: int)
    requires
        d.len() >= 512,
        image.describes(d),
    ensures
        image.footer_bytes@ == counts(d),
        image.recovered <==> from_head(d),
        image.footer.current_size == format_laws::eight(counts(d), 48),
        image.footer.original_size == format_laws::eight(counts(d), 40),
        image.footer.data_offset == header_at(d),
        image.footer.unique_id@ == counts(d).subrange(68, 84),
        image.footer.disk_type == DiskType::Fixed <==> format_laws::four(counts(d), 60) == 2,
        image.footer.disk_type == DiskType::Dynamic <==> format_laws::four(counts(d), 60) == 3,
        image.footer.disk_type == DiskType::Differencing <==> format_laws::four(counts(d), 60) == 4,
        image.sparse is None <==> format_laws::four(counts(d), 60) == 2,
        image.sparse matches Some(s) ==> {
            &&& s.header.block_size == block_size(d)
            &&& s.header.table_offset == table_at(d)
            &&& s.header.max_table_entries == table_len(d)
            &&& s.header.parent_unique_id@ == header(d).subrange(40, 56)
            &&& s.header.parent_name@ == dynamic_header::decoded_name(header(d).subrange(64, 576))
            &&& s.bat@.len() == table_len(d)
            &&& s.next_alloc == blocks_end(d)
            &&& s.bitmap_size == dynamic_header::bitmap_bytes(block_size(d))
            &&& 0 <= b < table_len(d) ==> s.bat@[b] == format_laws::four(d, table_at(d) + 4 * b)
        },
{
    law_what_a_device_holds(d);
}

/// Image `k` of a chain names another parent than the image below it.
pub open spec fn names_another(devs: Seq<Seq<u8>>, k: int) -> bool {
    counts(devs[k + 1]).subrange(68, 84) != header(devs[k]).subrange(40, 56)
}

/// What a chain is refused for, once its last device was read: the device
/// holds no image; or it holds one with a parent, and there is no path to
/// look from, or no name to look for; or it ends the chain, and a parent is
/// not the one its child names, the last such parent. For nothing else.
#[verifier::rlimit(40)]
pub proof fn law_chain_is_refused_only_for(e: Error, devs: Seq<Seq<u8>>, has_path: bool)
    requires
        devs.len() > 0,
        forall|k: int| 0 <= k < devs.len() ==> (#[trigger] devs[k]).len() >= 512,
        opening::chain_refused(e, devs, has_path),
    ensures
        ({
            let d = devs.last();
            let name = dynamic_header::decoded_name(header(d).subrange(64, 576));
            if opening::image_refusal(d) is Some {
                opening::image_refusal(d) == Some(e)
            } else if format_laws::four(counts(d), 60) == 4 {
                if has_path {
                    name.len() == 0 && (e matches Error::ParentNotFound(t) && t@
                        == "differencing VHD has empty parent name"@)
                } else {
                    e == Error::Unsupported(
                        "differencing VHD opened on a raw device; parent resolution needs a path",
                    )
                }
            } else {
                exists|k: int|
                    0 <= k < devs.len() - 1 && #[trigger] names_another(devs, k) && (forall|j: int|
                        k < j < devs.len() - 1 ==> !#[trigger] names_another(devs, j)) && (
                    e matches Error::ParentNotFound(t) && t@ == opening::stranger_text(
                        counts(devs[k + 1]).subrange(68, 84),
                        header(devs[k]).subrange(40, 56),
                    ))
            }
        }),
{
    let d = devs.last();
    law_what_a_device_holds(d);
    assert forall|k: int| 0 <= k < devs.len() - 1 implies #[trigger] opening::stranger_at(devs, k)
        == names_another(devs, k) by {
        law_what_a_device_holds(devs[k]);
        law_what_a_device_holds(devs[k + 1]);
    }
    if opening::image_refusal(d) is None && !opening::is_differencing(d) {
        let k = choose|k: int|
            {
                &&& 0 <= k < devs.len() - 1
                &&& #[trigger] opening::stranger_at(devs, k)
                &&& forall|j: int|
                    k < j < devs.len() - 1 ==> !#[trigger] opening::stranger_at(devs, j)
                &&& opening::parent_not_found(
                    e,
                    opening::stranger_text(
                        opening::identity(devs[k + 1]),
                        opening::named_parent(devs[k]),
                    ),
                )
            };
        law_what_a_device_holds(devs[k]);
        law_what_a_device_holds(devs[k + 1]);
        assert(names_another(devs, k));
        assert forall|j: int| k < j < devs.len() - 1 implies !#[trigger] names_another(devs, j) by {
            assert(!opening::stranger_at(devs, j));
        }
    }
}

/// A chain that opened is one: every device holds an image, all but the
/// last hold one with a parent, and each parent is the one its child names.
pub proof fn law_opened_chain_is_one(r: crate::reader::VhdReader, devs: Seq<Seq<u8>>, k: int)
    requires
        r.wf(),
        r.opened_from(devs),
        0 <= k < devs.len(),
        forall|j: int| 0 <= j < devs.len() ==> (#[trigger] devs[j]).len() >= 512,
    ensures
        r.images@.len() == devs.len() <= 16,
        opening::image_refusal(devs[k]) is None,
        format_laws::four(counts(devs[k]), 60) == 4 <==> k + 1 < devs.len(),
        k + 1 < devs.len() ==> !names_another(devs, k),
{
    law_what_a_device_holds(devs[k]);
    assert(r.images@[k].describes(devs[k]));
    if k + 1 < devs.len() {
        law_what_a_device_holds(devs[k + 1]);
        assert(!opening::stranger_at(devs, k));
    }
    law_opened_image_is_what_the_device_holds(r.images@[k], devs[k], 0);
}

/// The device of an image has the byte at `v`: `v` lies inside the disk and,
/// unless that is fixed, the table names a block for it whose bitmap marks
/// its sector.
pub open spec fn has_byte(d: Seq<u8>, v: int) -> bool {
    let entry = format_laws::four(d, table_at(d) + 4 * (v / block_size(d)));
    let i = v % block_size(d);
    &&& v < format_laws::eight(counts(d), 48)
    &&& format_laws::four(counts(d), 60) == 2 || (entry != 0xFFFF_FFFF && d[512 * entry + i / 4096]
        as int / disk_laws::weight(i / 512 % 8) % 2 == 1)
}

/// What an opened chain shows at `v` is on the devices: the byte of the
/// nearest device that has one, where those above it reach as far; behind
/// the bitmap of its block, at its place in it, or, on a fixed disk, at `v`.
pub proof fn law_opened_chain_shows_what_the_devices_hold(
    r: crate::reader::VhdReader,
    devs: Seq<Seq<u8>>,
    k: int,
    v: int,
)
    requires
        r.wf(),
        r.opened_from(devs),
        forall|j: int| 0 <= j < devs.len() ==> (#[trigger] devs[j]).len() >= 512,
        0 <= v,
        0 <= k < devs.len(),
        forall|j: int|
            0 <= j < k ==> v < format_laws::eight(counts(#[trigger] devs[j]), 48) && !has_byte(
                devs[j],
                v,
            ),
        has_byte(devs[k], v),
    ensures
        ({
            let d = devs[k];
            let bs = block_size(d);
            let entry = format_laws::four(d, table_at(d) + 4 * (v / bs));
            &&& format_laws::four(counts(d), 60) == 2 ==> r.guest(devs)[v] == d[v]
            &&& format_laws::four(counts(d), 60) != 2 ==> r.guest(devs)[v] == d[512 * entry
                + dynamic_header::bitmap_bytes(bs) + v % bs]
        }),
{
    assert forall|j: int| 0 <= j < k implies v < (
    #[trigger] r.images@[j]).footer.current_size && !disk_laws::holds(
        r.images@[j],
        devs[j],
        v,
    ) by {
        lemma_holds_is_has_byte(r.images@[j], devs[j], v);
        assert(v < format_laws::eight(counts(devs[j]), 48));
    }
    lemma_holds_is_has_byte(r.images@[k], devs[k], v);
    disk_laws::law_nearest_image_that_has_a_byte_gives_it(r, devs, k, v);
}

proof fn lemma_holds_is_has_byte(image: Image, d: Seq<u8>, v: int)
    requires
        d.len() >= 512,
        image.wf(),
        image.describes(d),
        0 <= v,
    ensures
        image.footer.current_size == format_laws::eight(counts(d), 48),
        disk_laws::holds(image, d, v) <==> has_byte(d, v),
        has_byte(d, v) && image.sparse is Some ==> {
            let s = image.sparse->0;
            &&& s.header.block_size == block_size(d)
            &&& s.bitmap_size == dynamic_header::bitmap_bytes(block_size(d))
            &&& s.bat@[v / block_size(d)] == format_laws::four(
                d,
                table_at(d) + 4 * (v / block_size(d)),
            )
        },
        image.sparse is None <==> format_laws::four(counts(d), 60) == 2,
{
    law_opened_image_is_what_the_device_holds(image, d, v / block_size(d));
    if image.sparse is Some && v < image.size() {
        crate::writing_laws::lemma_position(image.sparse->0, image.size(), v);
    }
}

/// Opening begins exactly where the device has room for a footer, with the
/// last 512 bytes.
pub proof fn law_opening_begins_exactly_where(
    r: Result<OpenOp>,
    size: u64,
    writable: bool,
    has_path: bool,
)
    requires
        opening::begins_open(r, size, writable, has_path),
    ensures
        r is Ok <==> size >= 512,
        r matches Err(e) ==> e == Error::Corrupt("device shorter than 512 bytes"),
        r matches Ok(op) ==> {
            &&& op.writable == writable
            &&& op.has_path == has_path
            &&& op.images@.len() == 0
            &&& op.wanted() matches Some(extent) && extent.offset == size - 512 && extent.len == 512
        },
{
}

/// A step of opening leaves alone whether the image is written to and
/// whether it has a path.
pub proof fn law_opening_keeps_its_mode(op: OpenOp, op2: OpenOp)
    requires
        opening::goes_on(op, op2),
    ensures
        op2.wf(),
        op2.writable == op.writable,
        op2.has_path == op.has_path,
        0 <= op2.work_left() < op.work_left(),
{
}

/// A step of opening on any devices that it was right of, and that answered
/// with what they hold: it is right of them still, or it says why they are
/// refused.
pub proof fn law_step_of_opening(
    op: OpenOp,
    res: Result<OpenOp>,
    devs: Seq<Seq<u8>>,
    bytes: Seq<u8>,
)
    requires
        op.wanted() is Some,
        op.knows(devs),
        0 <= op.wanted()->0.offset,
        0 <= op.wanted()->0.len,
        op.wanted()->0.offset + op.wanted()->0.len <= devs.last().len(),
        bytes == devs.last().subrange(
            op.wanted()->0.offset,
            op.wanted()->0.offset + op.wanted()->0.len,
        ),
        opening::open_step(op, bytes, res),
    ensures
        match res {
            Ok(op2) => op2.knows(devs),
            Err(e) => opening::chain_refused(e, devs, op.has_path),
        },
{
    assert(opening::answered(op, bytes, devs));
}

/// What is known of the devices while they are opened: the images found on
/// those that were read whole, none of which is refused; and how long the
/// one being read is.
pub proof fn law_what_opening_knows(op: OpenOp, devs: Seq<Seq<u8>>, k: int)
    requires
        op.knows(devs),
    ensures
        0 <= k < op.images@.len() ==> op.images@[k].describes(devs[k]) && opening::image_refusal(
            devs[k],
        ) is None,
        op.stage is Ready || op.stage is Beside ==> devs.len() == op.images@.len(),
        op.stage is Ready && 0 <= k < op.images@.len() - 1 ==> opening::identity(devs[k + 1])
            == opening::named_parent(devs[k]),
        !(op.stage is Ready) && !(op.stage is Beside) ==> devs.len() == op.images@.len() + 1
            && devs.last().len() == op.size,
{
    if op.stage is Ready && 0 <= k < op.images@.len() - 1 {
        assert(!opening::stranger_at(devs, k));
    }
}

/// What is read of a device: the last 512 bytes; the first 512, where those
/// are no footer; the header, where the footer says it is; the table, where
/// the header says it is, four bytes for each entry.
pub proof fn law_what_opening_reads(op: OpenOp)
    ensures
        match op.stage {
            OpenStage::Footer => op.wanted() matches Some(x) && x.offset == op.size - 512 && x.len
                == 512,
            OpenStage::Mirror(_) => op.wanted() matches Some(x) && x.offset == 0 && x.len == 512,
            OpenStage::Header(found) => op.wanted() matches Some(x) && x.offset
                == found.footer.data_offset && x.len == 1024,
            OpenStage::Table(_, header) => op.wanted() matches Some(x) && x.offset
                == header.table_offset && x.len == 4 * header.max_table_entries,
            _ => op.wanted() is None,
        },
{
}

/// A parent is opened exactly where fewer than sixteen images are open and
/// its device has room for a footer.
pub proof fn law_parent_is_opened_exactly_where(op: OpenOp, size: u64)
    ensures
        op.parent_refusal(size) is None <==> op.images@.len() < 16 && size >= 512,
        op.images@.len() >= 16 ==> op.parent_refusal(size) == Some(Error::ParentTooDeep),
        op.images@.len() < 16 && size < 512 ==> op.parent_refusal(size) == Some(
            Error::Corrupt("device shorter than 512 bytes"),
        ),
{
}

/// A parent is looked for only where there is a path to look from, by the
/// name that the image opened last has for it, which is not empty; and an
/// image without a parent ends the chain.
pub proof fn law_parent_is_looked_for_by_name(op: OpenOp, k: int)
    requires
        op.wf(),
        0 <= k < op.images@.len(),
    ensures
        op.images@[k].footer.disk_type == DiskType::Differencing ==> op.has_path && (
        op.images@[k].sparse matches Some(s) && s.header.parent_name@.len() > 0),
        op.stage is Ready ==> (op.images@[k].footer.disk_type == DiskType::Differencing <==> k + 1
            < op.images@.len()),
        !(op.stage is Ready) ==> op.images@[k].footer.disk_type == DiskType::Differencing,
        op.stage is Beside && k == op.images@.len() - 1 ==> (op.images@[k].sparse matches Some(s)
            && op.asked_name() == s.header.parent_name@),
{
    assert(op.images@[k].wf());
}

} // verus!
