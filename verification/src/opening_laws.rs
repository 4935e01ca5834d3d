//! What opening promises.
use crate::dynamic as dynamic_header;
use crate::dynamic::{DynamicHeader, BAT_UNALLOCATED};
use crate::error::{Error, Result};
use crate::footer as footer_block;
use crate::footer::{DiskType, Footer};
use crate::format as wire;
use crate::format::dynamic_offsets as at;
use crate::opening;
use crate::opening::OpenOp;
use crate::reader;
use crate::reader::{Image, VhdReader};
use crate::table;
use crate::writing;
use crate::writing_laws as laws;
use vstd::prelude::*;

verus! {

/// An image without a parent that no check refuses opens: no step of
/// opening it fails.
pub proof fn law_believed_image_opens(op: OpenOp, bytes: Seq<u8>, res: Result<OpenOp>, d: Seq<u8>)
    requires
        opening::open_step(op, bytes, res),
        opening::answered(op, bytes, seq![d]),
        opening::image_refusal(d) is None,
        !opening::is_differencing(d),
    ensures
        res is Ok,
{
    assert(seq![d].last() == d);
}

/// An image that a check refuses never opens: no reader is handed out for
/// it, alone or as part of a chain.
pub proof fn law_refused_image_never_opens(op: OpenOp, devs: Seq<Seq<u8>>, k: int)
    requires
        op.stage is Ready,
        0 <= k < devs.len(),
        opening::image_refusal(devs[k]) is Some,
    ensures
        !op.knows(devs),
{
    if op.knows(devs) {
        assert(op.images@[k].describes(devs[k]));
    }
}

/// Where the trailing footer is damaged and the copy at offset 0 is not,
/// the copy is the footer; where both are, the image is refused for what
/// is wrong with the trailing one.
pub proof fn law_damaged_tail_is_made_good_from_the_mirror(d: Seq<u8>)
    requires
        d.len() >= 512,
        footer_block::footer_refusal(opening::trailing_footer(d)) is Some,
    ensures
        opening::mirror_usable(d) ==> opening::footer_of(d) == opening::mirror_footer(d)
            && opening::recovered(d),
        !opening::mirror_usable(d) ==> opening::image_refusal(d) == footer_block::footer_refusal(
            opening::trailing_footer(d),
        ),
{
    reveal(opening::image_refusal);
}

/// A parent that is not the one its child names never opens.
pub proof fn law_stranger_is_never_a_parent(op: OpenOp, devs: Seq<Seq<u8>>, k: int)
    requires
        op.stage is Ready,
        0 <= k < devs.len() - 1,
        opening::identity(devs[k + 1]) != opening::named_parent(devs[k]),
    ensures
        !op.knows(devs),
{
    assert(opening::stranger_at(devs, k));
}

/// A child that has no name for its parent never opens, nor is a parent
/// looked for on its behalf.
pub proof fn law_nameless_child_never_opens(op: OpenOp, devs: Seq<Seq<u8>>, k: int)
    requires
        op.wf(),
        0 <= k < op.images@.len(),
        opening::is_differencing(devs[k]),
        opening::parent_name_of(devs[k]).len() == 0,
    ensures
        !op.knows(devs),
{
    if op.knows(devs) {
        assert(op.images@[k].describes(devs[k]));
        assert(op.images@[k].footer.disk_type == DiskType::Differencing);
    }
}

/// A child that has no name for its parent is refused for that as soon as
/// its table has been read, before a parent is looked for.
pub proof fn law_nameless_child_is_refused_before_the_lookup(
    op: OpenOp,
    bytes: Seq<u8>,
    res: Result<OpenOp>,
    devs: Seq<Seq<u8>>,
)
    requires
        op.wf(),
        op.stage is Table,
        op.has_path,
        opening::open_step(op, bytes, res),
        res matches Ok(op2) ==> opening::goes_on(op, op2),
        opening::answered(op, bytes, devs),
        opening::image_refusal(devs.last()) is None,
        opening::is_differencing(devs.last()),
        opening::parent_name_of(devs.last()).len() == 0,
    ensures
        res matches Err(e) && opening::parent_not_found(
            e,
            "differencing VHD has empty parent name"@,
        ),
{
    match res {
        Ok(op2) => {
            assert(op2.knows(devs));
            assert(!op2.in_device());
            law_nameless_child_never_opens(op2, devs, devs.len() - 1);
        },
        Err(e) => {
            assert(opening::chain_refused(e, devs, op.has_path));
        },
    }
}

/// A reader with a parent takes no writes: neither it nor any image below
/// it is ever written to.
pub proof fn law_a_chain_is_read_only(r: VhdReader, offset: int, len: int)
    requires
        r.wf(),
        r.images@.len() > 1,
    ensures
        !r.takes_writes(),
        writing::write_refusal(r, offset, len) == Some(Error::ReadOnly),
{
    assert(r.images@[0].wf());
}

/// The headers are the same but for their parent locators.
pub open spec fn header_alike(a: DynamicHeader, b: DynamicHeader) -> bool {
    &&& a.data_offset == b.data_offset
    &&& a.table_offset == b.table_offset
    &&& a.header_version == b.header_version
    &&& a.max_table_entries == b.max_table_entries
    &&& a.block_size == b.block_size
    &&& a.parent_unique_id == b.parent_unique_id
    &&& a.parent_timestamp == b.parent_timestamp
    &&& a.parent_name@ == b.parent_name@
}

/// The images are the same but for the parent locators of their headers.
pub open spec fn image_alike(a: Image, b: Image) -> bool {
    &&& a.footer == b.footer
    &&& a.footer_bytes@ == b.footer_bytes@
    &&& a.recovered == b.recovered
    &&& match (a.sparse, b.sparse) {
        (Some(s), Some(t)) => {
            &&& header_alike(s.header, t.header)
            &&& s.bat@ == t.bat@
            &&& s.bitmap_size == t.bitmap_size
            &&& s.next_alloc == t.next_alloc
        },
        (None, None) => true,
        _ => false,
    }
}

/// Both look for a parent, and are the same but for the parent locators of
/// the images opened so far.
pub open spec fn lookup_alike(a: OpenOp, b: OpenOp) -> bool {
    &&& a.stage is Beside
    &&& b.stage is Beside
    &&& a.has_path == b.has_path
    &&& a.writable == b.writable
    &&& a.size == b.size
    &&& a.images@.len() == b.images@.len()
    &&& forall|k: int|
        #![trigger a.images@[k]]
        #![trigger b.images@[k]]
        0 <= k < a.images@.len() ==> image_alike(a.images@[k], b.images@[k])
}

proof fn lemma_alike_is_as_well_formed(a: OpenOp, b: OpenOp)
    requires
        lookup_alike(a, b),
        a.wf(),
    ensures
        b.wf(),
{
    assert forall|k: int| 0 <= k < b.images@.len() implies (#[trigger] b.images@[k]).wf() && (
    b.images@[k].footer.disk_type == DiskType::Differencing && b.has_path
        && b.images@[k].names_parent()) by {
        assert(a.images@[k].wf());
        assert(a.images@[k].footer.disk_type == DiskType::Differencing);
        let s = a.images@[k].sparse->0;
        let t = b.images@[k].sparse->0;
        assert(t.wf(b.images@[k].size()));
    }
}

/// Parent locators play no part in looking for a parent: where two lookups
/// differ in nothing else, the one is possible where the other is, both ask
/// for the same name, a parent that was found is taken or refused alike,
/// and whether it is the parent that was named is the same question.
pub proof fn law_locators_play_no_part_in_the_lookup(
    a: OpenOp,
    b: OpenOp,
    size: u64,
    parent: Footer,
)
    requires
        lookup_alike(a, b),
        a.images@.len() > 0,
    ensures
        a.wf() <==> b.wf(),
        a.wf() ==> a.asked_name() == b.asked_name(),
        a.parent_refusal(size) == b.parent_refusal(size),
        a.wf() ==> (parent.unique_id@ == a.images@.last().sparse->0.header.parent_unique_id@
            <==> parent.unique_id@ == b.images@.last().sparse->0.header.parent_unique_id@),
{
    if a.wf() {
        lemma_alike_is_as_well_formed(a, b);
    }
    if b.wf() {
        lemma_alike_is_as_well_formed(b, a);
    }
    let n = a.images@.len() - 1;
    assert(image_alike(a.images@[n], b.images@[n]));
    if a.wf() {
        assert(a.images@[n].names_parent());
    }
}

/// Two devices hold the same image but for the parent locators, and the
/// checksum that covers them.
pub open spec fn device_alike(d: Seq<u8>, e: Seq<u8>) -> bool {
    &&& d.len() == e.len()
    &&& opening::recovered(d) == opening::recovered(e)
    &&& opening::footer_of(d) == opening::footer_of(e)
    &&& opening::header_offset_of(d) + 1024 <= d.len()
    &&& dynamic_header::header_refusal(opening::header_of(d)) is None
    &&& dynamic_header::header_refusal(opening::header_of(e)) is None
    &&& forall|i: int|
        0 <= i < 1024 && !(at::CHECKSUM.start <= i < at::CHECKSUM.end) && !(at::PARENT_LOCATORS <= i
            < at::PARENT_LOCATORS + at::PARENT_LOCATOR_COUNT * at::PARENT_LOCATOR_STRIDE)
            ==> #[trigger] opening::header_of(d)[i] == opening::header_of(e)[i]
    &&& opening::table_of(d) == opening::table_of(e)
}

/// What opening goes by is the same on two such devices.
proof fn lemma_devices_alike(d: Seq<u8>, e: Seq<u8>)
    requires
        device_alike(d, e),
    ensures
        opening::image_refusal(d) == opening::image_refusal(e),
        opening::is_fixed(d) == opening::is_fixed(e),
        opening::is_differencing(d) == opening::is_differencing(e),
        opening::virtual_size_of(d) == opening::virtual_size_of(e),
        opening::parent_name_of(d) == opening::parent_name_of(e),
        opening::named_parent(d) == opening::named_parent(e),
        opening::identity(d) == opening::identity(e),
{
    let h = opening::header_of(d);
    let g = opening::header_of(e);
    assert(h.subrange(64, 576) =~= g.subrange(64, 576));
    assert(wire::field(h, 40, 16) =~= wire::field(g, 40, 16));
    assert(opening::block_size_of(d) == opening::block_size_of(e));
    assert(opening::table_offset_of(d) == opening::table_offset_of(e));
    assert(opening::table_entries_of(d) == opening::table_entries_of(e));
    reveal(opening::image_refusal);
}

/// Parent locators play no part in the outcome: where two chains differ in
/// nothing else, the one is refused, with the same error, where the other
/// is, and a parent is a stranger in the one where it is in the other.
pub proof fn law_locators_play_no_part_in_the_outcome(
    devs: Seq<Seq<u8>>,
    others: Seq<Seq<u8>>,
    has_path: bool,
    e: Error,
)
    requires
        devs.len() == others.len(),
        devs.len() > 0,
        forall|k: int|
            0 <= k < devs.len() ==> #[trigger] devs[k] == others[k] || device_alike(
                devs[k],
                others[k],
            ),
    ensures
        opening::chain_refused(e, devs, has_path) <==> opening::chain_refused(e, others, has_path),
        forall|k: int|
            0 <= k < devs.len() ==> opening::image_refusal(#[trigger] devs[k])
                == opening::image_refusal(others[k]),
        forall|k: int|
            0 <= k < devs.len() - 1 ==> #[trigger] opening::stranger_at(devs, k)
                == opening::stranger_at(others, k),
{
    lemma_outcome_carries_over(devs, others, has_path, e);
    assert forall|k: int| 0 <= k < others.len() implies #[trigger] others[k] == devs[k]
        || device_alike(others[k], devs[k]) by {
        assert(devs[k] == others[k] || device_alike(devs[k], others[k]));
        if devs[k] != others[k] {
            lemma_alike_both_ways(devs[k], others[k]);
        }
    }
    lemma_outcome_carries_over(others, devs, has_path, e);
}

proof fn lemma_alike_both_ways(d: Seq<u8>, e: Seq<u8>)
    requires
        device_alike(d, e),
    ensures
        device_alike(e, d),
{
    assert forall|i: int|
        0 <= i < 1024 && !(at::CHECKSUM.start <= i < at::CHECKSUM.end) && !(at::PARENT_LOCATORS <= i
            < at::PARENT_LOCATORS
            + at::PARENT_LOCATOR_COUNT * at::PARENT_LOCATOR_STRIDE) implies #[trigger] opening::header_of(
        e,
    )[i] == opening::header_of(d)[i] by {
        assert(opening::header_of(d)[i] == opening::header_of(e)[i]);
    }
}

proof fn lemma_outcome_carries_over(
    devs: Seq<Seq<u8>>,
    others: Seq<Seq<u8>>,
    has_path: bool,
    e: Error,
)
    requires
        devs.len() == others.len(),
        devs.len() > 0,
        forall|k: int|
            0 <= k < devs.len() ==> #[trigger] devs[k] == others[k] || device_alike(
                devs[k],
                others[k],
            ),
    ensures
        opening::chain_refused(e, devs, has_path) ==> opening::chain_refused(e, others, has_path),
        forall|k: int|
            0 <= k < devs.len() ==> opening::image_refusal(#[trigger] devs[k])
                == opening::image_refusal(others[k]),
        forall|k: int|
            0 <= k < devs.len() - 1 ==> #[trigger] opening::stranger_at(devs, k)
                == opening::stranger_at(others, k),
{
    assert forall|k: int| 0 <= k < devs.len() implies {
        &&& opening::image_refusal(#[trigger] devs[k]) == opening::image_refusal(others[k])
        &&& opening::is_differencing(devs[k]) == opening::is_differencing(others[k])
        &&& opening::parent_name_of(devs[k]) == opening::parent_name_of(others[k])
        &&& opening::named_parent(devs[k]) == opening::named_parent(others[k])
        &&& opening::identity(devs[k]) == opening::identity(others[k])
    } by {
        if devs[k] != others[k] {
            lemma_devices_alike(devs[k], others[k]);
        }
    }
    assert forall|k: int| 0 <= k < devs.len() - 1 implies #[trigger] opening::stranger_at(devs, k)
        == opening::stranger_at(others, k) by {
        assert(opening::named_parent(devs[k]) == opening::named_parent(others[k]));
        assert(opening::identity(devs[k + 1]) == opening::identity(others[k + 1]));
    }
    let n = devs.len() - 1;
    assert(opening::image_refusal(devs[n]) == opening::image_refusal(others[n]));
    if opening::chain_refused(e, devs, has_path) && opening::image_refusal(devs[n]) is None
        && !opening::is_differencing(devs[n]) {
        let k = choose|k: int|
            {
                &&& 0 <= k < devs.len() - 1
                &&& #[trigger] opening::stranger_at(devs, k)
                &&& forall|j: int|
                    k < j < devs.len() - 1 ==> !#[trigger] opening::stranger_at(devs, j)
                &&& opening::parent_not_found(
                    e,
                    opening::stranger_text(
                        opening::identity(devs[k + 1]),
                        opening::named_parent(devs[k]),
                    ),
                )
            };
        assert(opening::stranger_at(others, k));
        assert(opening::named_parent(devs[k]) == opening::named_parent(others[k]));
        assert(opening::identity(devs[k + 1]) == opening::identity(others[k + 1]));
        assert forall|j: int| k < j < others.len() - 1 implies !#[trigger] opening::stranger_at(
            others,
            j,
        ) by {
            assert(!opening::stranger_at(devs, j));
        }
    }
}

/// In an image that opens, a block stands behind the metadata and before
/// the trailing footer, where there is one.
pub proof fn law_blocks_keep_off_the_metadata(d: Seq<u8>, b: int)
    requires
        d.len() >= 512,
        opening::image_refusal(d) is None,
        !opening::is_fixed(d),
        0 <= b < opening::table_of(d).len(),
        opening::table_of(d)[b] != BAT_UNALLOCATED,
    ensures
        opening::data_start_of(d) <= reader::block_host(opening::table_of(d)[b]),
        reader::block_host(opening::table_of(d)[b]) + opening::block_total_of(d)
            <= opening::data_end_of(d),
        opening::table_end_of(d) <= opening::data_start_of(d),
        opening::header_offset_of(d) + 1024 <= opening::data_start_of(d),
        512 <= opening::data_start_of(d),
{
    reveal(opening::image_refusal);
    let bat = opening::table_of(d);
    table::lemma_every_entry_is_believed(
        bat,
        bat.len() as int,
        opening::data_start_of(d),
        opening::data_end_of(d),
        opening::block_total_of(d),
        b,
    );
}

/// In an image that opens, no two virtual blocks share a byte of the
/// device.
pub proof fn law_blocks_never_overlap(d: Seq<u8>, b: int, c: int)
    requires
        d.len() >= 512,
        opening::image_refusal(d) is None,
        !opening::is_fixed(d),
        0 <= b < c < opening::table_of(d).len(),
        opening::table_of(d)[b] != BAT_UNALLOCATED,
        opening::table_of(d)[c] != BAT_UNALLOCATED,
    ensures
        !reader::blocks_overlap(
            opening::table_of(d)[b],
            opening::table_of(d)[c],
            opening::block_total_of(d),
        ),
{
    reveal(opening::image_refusal);
}

/// Whatever is opened can be read to its end: every virtual block has an
/// entry in the table.
pub proof fn law_table_covers_the_disk(d: Seq<u8>, v: int)
    requires
        d.len() >= 512,
        opening::image_refusal(d) is None,
        !opening::is_fixed(d),
        0 <= v < opening::virtual_size_of(d),
    ensures
        0 <= v / opening::block_size_of(d) < opening::table_of(d).len(),
{
    reveal(opening::image_refusal);
    let bs = opening::block_size_of(d);
    let n = opening::table_entries_of(d);
    vstd::arithmetic::div_mod::lemma_fundamental_div_mod(v, bs);
    vstd::arithmetic::div_mod::lemma_mod_bound(v, bs);
    assert(0 <= v / bs < n) by (nonlinear_arith)
        requires
            0 <= v < n * bs,
            bs > 0,
            v == bs * (v / bs) + v % bs,
            0 <= v % bs < bs,
    ;
}

/// An image just opened takes writes.
pub proof fn law_opened_image_is_ready(r: VhdReader, d: Seq<u8>)
    requires
        r.wf(),
        r.images@.len() == 1,
        r.opened_from(seq![d]),
        opening::is_fixed(d) ==> opening::virtual_size_of(d) <= d.len(),
        !opening::is_fixed(d) ==> opening::table_end_of(d) <= opening::data_end_of(d),
    ensures
        laws::ready(r, d),
{
    assert(r.images@[0].wf());
    assert(r.images@[0].describes(seq![d][0]));
    match r.images@[0].sparse {
        Some(s) => {
            assert forall|b: int|
                0 <= b < s.bat@.len() && #[trigger] s.bat@[b] != BAT_UNALLOCATED implies s.table_end()
                <= reader::block_host(s.bat@[b]) by {
                law_blocks_keep_off_the_metadata(d, b);
            }
        },
        None => {},
    }
}

} // verus!
