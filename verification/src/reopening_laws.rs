//! What is found when an image is opened again: after a write that was run
//! to its end, and after one that was not.
use crate::dynamic::BAT_UNALLOCATED;
use crate::footer as footer_block;
use crate::footer::DiskType;
use crate::format as wire;
use crate::interruption_laws as interruption;
use crate::opening;
use crate::opening_laws;
use crate::reader;
use crate::reader::{Sparse, VhdReader};
use crate::table;
use crate::writing;
use crate::writing::{WriteOp, WriteStage};
use crate::writing_laws as laws;
use vstd::prelude::*;

verus! {

/// The metadata of the image lies in front of the end of the data area, and
/// the table does not run over the header.
pub open spec fn well_laid(d: Seq<u8>) -> bool {
    &&& opening::header_offset_of(d) + 1024 <= opening::data_end_of(d)
    &&& opening::table_end_of(d) <= opening::data_end_of(d)
    &&& opening::table_end_of(d) <= opening::header_offset_of(d) || opening::header_offset_of(d)
        + 1024 <= opening::table_offset_of(d)
}

/// The table entry of the block that the byte at `v` falls into.
pub open spec fn entry_for(table: Seq<u32>, block_size: int, v: int) -> u32 {
    table[v / block_size]
}

/// That entry has no byte in common with the `n` bytes at `at`.
pub open spec fn entry_clear(table_offset: int, block_size: int, v: int, at: int, n: int) -> bool {
    let entry = table_offset + 4 * (v / block_size);
    entry + 4 <= at || at + n <= entry
}

/// A write of `len` bytes at `offset` spares the `n` bytes at `at`: it
/// allocates no block, or they and the table lie in front of the end of the
/// data area, where the blocks are placed, and no entry that it fills in
/// lies among them.
pub open spec fn spared(d: Seq<u8>, offset: int, len: int, at: int, n: int) -> bool {
    forall|v: int|
        offset <= v < offset + len && #[trigger] entry_for(
            opening::table_of(d),
            opening::block_size_of(d),
            v,
        ) == BAT_UNALLOCATED ==> {
            &&& at + n <= opening::data_end_of(d)
            &&& opening::table_end_of(d) <= opening::data_end_of(d)
            &&& entry_clear(opening::table_offset_of(d), opening::block_size_of(d), v, at, n)
        }
}

/// A write of `len` bytes at `offset` spares the dynamic header.
pub open spec fn header_spared(d: Seq<u8>, offset: int, len: int) -> bool {
    spared(d, offset, len, opening::header_offset_of(d), 1024)
}

/// There is a copy of the footer at offset 0, and a write of `len` bytes at
/// `offset` spares it.
pub open spec fn mirror_spared(d: Seq<u8>, offset: int, len: int) -> bool {
    opening::mirror_footer(d) == opening::footer_of(d) && spared(d, offset, len, 0, 512)
}

/// In an image that is well laid out every write spares the header, and,
/// where the footer's copy lies in front of the table, the copy too.
pub proof fn law_every_write_spares_a_well_laid_image(d: Seq<u8>, offset: int, len: int)
    requires
        well_laid(d),
        0 < opening::block_size_of(d),
        0 <= offset,
        offset + len <= opening::table_entries_of(d) * opening::block_size_of(d),
    ensures
        header_spared(d, offset, len),
        mirrored(d) ==> mirror_spared(d, offset, len),
{
    let bs = opening::block_size_of(d);
    let n = opening::table_entries_of(d);
    assert forall|v: int| offset <= v < offset + len implies 0 <= #[trigger] (v / bs) < n by {
        vstd::arithmetic::div_mod::lemma_fundamental_div_mod(v, bs);
        vstd::arithmetic::div_mod::lemma_mod_bound(v, bs);
        assert(0 <= v / bs < n) by (nonlinear_arith)
            requires
                0 <= v < n * bs,
                bs > 0,
                v == bs * (v / bs) + v % bs,
                0 <= v % bs < bs,
        ;
    }
    assert forall|v: int|
        offset <= v < offset + len implies entry_clear(
        opening::table_offset_of(d),
        bs,
        v,
        opening::header_offset_of(d),
        1024,
    ) && (512 <= opening::table_offset_of(d) ==> entry_clear(
        opening::table_offset_of(d),
        bs,
        v,
        0,
        512,
    )) by {
        assert(0 <= v / bs < n);
    }
}

/// The device is, apart from the blocks, as this stage of a write leaves
/// it: the header where it was, the table in line with the cached one, no
/// block before `start`, and, but for the time between, the footer behind
/// the last block and nothing behind the footer. On a device that was
/// opened without a footer at its end there is none before the first block
/// is allocated, and the device keeps its length `bare` until then.
pub open spec fn sealed(
    op: WriteOp,
    s: Sparse,
    footer: Seq<u8>,
    bare: int,
    header_at: int,
    header: Seq<u8>,
    start: int,
    dev: Seq<u8>,
) -> bool {
    &&& wire::field(dev, header_at, 1024) == header
    &&& interruption::stored(op, s, dev)
    &&& start <= s.next_alloc
    &&& forall|b: int|
        0 <= b < s.bat@.len() && #[trigger] s.bat@[b] != BAT_UNALLOCATED ==> start
            <= reader::block_host(s.bat@[b])
    &&& op.unpublished() || op.stage is Mirror ==> start <= op.host
    &&& end_sealed(op, s, footer, bare, dev)
}

/// How the device ends.
pub open spec fn end_sealed(op: WriteOp, s: Sparse, footer: Seq<u8>, bare: int, dev: Seq<u8>) -> bool {
    match op.stage {
        WriteStage::Zeroing(done) => {
            &&& done % 512 == 0
            &&& if done == 0 {
                settled(s, footer, bare, dev)
            } else {
                dev.len() == op.host + done
            }
        },
        WriteStage::ZeroFlush
        | WriteStage::Entry(_)
        | WriteStage::EntryFlush(_) => dev.len() == op.host + s.block_total(),
        WriteStage::Mirror => {
            &&& dev.len() == op.host + s.block_total()
            &&& laws::zeroed(dev, dev.len() - 512, dev.len() as int)
        },
        _ => settled(s, footer, bare, dev),
    }
}

/// The device ends with the footer behind the last block, or, bare of a
/// footer from the first, with the data area.
pub open spec fn settled(s: Sparse, footer: Seq<u8>, bare: int, dev: Seq<u8>) -> bool {
    ||| dev.len() == s.next_alloc + 512 && opening::trailing_footer(dev) == footer
    ||| dev.len() == s.next_alloc == bare
}

/// The `n` bytes at `at` and the table lie before `start`, and no entry that
/// the write has yet to fill in lies among those bytes.
spec fn apart(op: WriteOp, s: Sparse, at: int, n: int, start: int) -> bool {
    &&& 0 <= at
    &&& 0 <= n
    &&& at + n <= start
    &&& s.table_end() <= start
    &&& forall|v: int|
        op.offset <= v < op.offset + op.len() && #[trigger] entry_for(s.bat@, s.block_size(), v)
            == BAT_UNALLOCATED ==> entry_clear(
            s.header.table_offset as int,
            s.block_size(),
            v,
            at,
            n,
        )
}

proof fn lemma_field_kept(dev: Seq<u8>, dev2: Seq<u8>, at: int, n: int)
    requires
        0 <= at,
        0 <= n,
        at + n <= dev.len(),
        at + n <= dev2.len(),
        forall|i: int| at <= i < at + n ==> #[trigger] dev2[i] == dev[i],
    ensures
        wire::field(dev2, at, n) == wire::field(dev, at, n),
{
    assert(wire::field(dev2, at, n) =~= wire::field(dev, at, n));
}

/// No request of a write touches metadata other than the table.
proof fn lemma_metadata_kept(
    op: WriteOp,
    s: Sparse,
    size: int,
    footer: Seq<u8>,
    at: int,
    n: int,
    start: int,
    dev: Seq<u8>,
)
    requires
        s.wf(size),
        op.wf_sparse(s),
        op.offset + op.len() <= size,
        apart(op, s, at, n, start),
        start <= s.next_alloc <= dev.len(),
        op.unpublished() ==> start <= op.host,
        forall|b: int|
            0 <= b < s.bat@.len() && #[trigger] s.bat@[b] != BAT_UNALLOCATED ==> start
                <= reader::block_host(s.bat@[b]),
    ensures
        wire::field(laws::performed(dev, op.pending_sparse(s, footer)), at, n) == wire::field(
            dev,
            at,
            n,
        ),
{
    let dev2 = laws::performed(dev, op.pending_sparse(s, footer));
    writing::lemma_span(op, s, size);
    assert(op.stage is Entry || op.stage is Bitmap || start <= op.host);
    if op.stage is Entry {
        assert(entry_for(s.bat@, s.block_size(), op.cursor()) == BAT_UNALLOCATED);
    }
    lemma_field_kept(dev, dev2, at, n);
}

/// A request that changes a block that the table names leaves what stands
/// behind the last block alone.
proof fn lemma_end_kept(
    op: WriteOp,
    s: Sparse,
    size: int,
    footer: Seq<u8>,
    bare: int,
    dev: Seq<u8>,
)
    requires
        s.wf(size),
        op.wf_sparse(s),
        op.offset + op.len() <= size,
        !op.unpublished(),
        !(op.stage is Mirror),
        settled(s, footer, bare, dev),
    ensures
        settled(s, footer, bare, laws::performed(dev, op.pending_sparse(s, footer))),
{
    let dev2 = laws::performed(dev, op.pending_sparse(s, footer));
    writing::lemma_span(op, s, size);
    assert(dev2.len() == dev.len());
    if dev.len() == s.next_alloc + 512 {
        assert(opening::trailing_footer(dev2) =~= opening::trailing_footer(dev));
    }
}

/// No step leaves more entries to fill in.
proof fn lemma_stays_apart(
    op: WriteOp,
    s: Sparse,
    size: int,
    answer: Seq<u8>,
    op2: WriteOp,
    t: Sparse,
    at: int,
    n: int,
    start: int,
)
    requires
        s.wf(size),
        op.wf_sparse(s),
        op.offset + op.len() <= size,
        apart(op, s, at, n, start),
        writing::sparse_moved(s, t, t.bat@, t.next_alloc as int),
        op2.follows_sparse(op, s, answer, t.bat@, t.next_alloc as int),
    ensures
        apart(op2, t, at, n, start),
{
    assert forall|v: int|
        op2.offset <= v < op2.offset + op2.len() && #[trigger] entry_for(t.bat@, t.block_size(), v)
            == BAT_UNALLOCATED implies entry_clear(
        t.header.table_offset as int,
        t.block_size(),
        v,
        at,
        n,
    ) by {
        laws::lemma_position(s, size, v);
        assert(entry_for(s.bat@, s.block_size(), v) == BAT_UNALLOCATED);
    }
}

proof fn lemma_step_stays_sealed(
    op: WriteOp,
    r: VhdReader,
    dev: Seq<u8>,
    disk: Seq<u8>,
    answer: Seq<u8>,
    op2: WriteOp,
    r2: VhdReader,
    bare: int,
    header_at: int,
    header: Seq<u8>,
    start: int,
)
    requires
        op.wf(r),
        op.stage != WriteStage::Done,
        op.tracks(r, dev, disk),
        op2.follows(r2, op, r, answer),
        r.images@[0].sparse is Some,
        apart(op, r.images@[0].sparse->0, header_at, 1024, start),
        sealed(
            op,
            r.images@[0].sparse->0,
            r.images@[0].footer_bytes@,
            bare,
            header_at,
            header,
            start,
            dev,
        ),
    ensures
        sealed(
            op2,
            r2.images@[0].sparse->0,
            r2.images@[0].footer_bytes@,
            bare,
            header_at,
            header,
            start,
            laws::performed(dev, op.pending(r)),
        ),
        apart(op2, r2.images@[0].sparse->0, header_at, 1024, start),
        apart(op, r.images@[0].sparse->0, 0, 512, start) ==> apart(
            op2,
            r2.images@[0].sparse->0,
            0,
            512,
            start,
        ) && opening::mirror_footer(laws::performed(dev, op.pending(r)))
            == opening::mirror_footer(dev),
{
    assert(r.images@[0].wf());
    let s = r.images@[0].sparse->0;
    let t = r2.images@[0].sparse->0;
    let footer = r.images@[0].footer_bytes@;
    let size = disk.len() as int;
    let dev2 = laws::performed(dev, op.pending(r));
    interruption::law_table_on_device_follows(op, r, dev, disk, answer, op2, r2);
    lemma_metadata_kept(op, s, size, footer, header_at, 1024, start, dev);
    lemma_stays_apart(op, s, size, answer, op2, t, header_at, 1024, start);
    if apart(op, s, 0, 512, start) {
        lemma_stays_apart(op, s, size, answer, op2, t, 0, 512, start);
        lemma_metadata_kept(op, s, size, footer, 0, 512, start, dev);
        assert(opening::mirror_footer(dev2) == wire::field(dev2, 0, 512));
        assert(opening::mirror_footer(dev) == wire::field(dev, 0, 512));
    }
    if op.unpublished() || op.stage is Mirror {
        lemma_allocation_stays_sealed(op, s, size, footer, bare, dev, disk, answer, op2, t, start);
    } else {
        lemma_end_kept(op, s, size, footer, bare, dev);
        assert(t.bat@ == s.bat@ && t.next_alloc == s.next_alloc);
    }
}

/// What the end of the device does while a block is being allocated.
proof fn lemma_allocation_stays_sealed(
    op: WriteOp,
    s: Sparse,
    size: int,
    footer: Seq<u8>,
    bare: int,
    dev: Seq<u8>,
    disk: Seq<u8>,
    answer: Seq<u8>,
    op2: WriteOp,
    t: Sparse,
    start: int,
)
    requires
        s.wf(size),
        op.wf_sparse(s),
        op.offset + op.len() <= size,
        op.unpublished() || op.stage is Mirror,
        writing::sparse_moved(s, t, t.bat@, t.next_alloc as int),
        op2.follows_sparse(op, s, answer, t.bat@, t.next_alloc as int),
        op.tracks_sparse(s, dev, disk),
        footer.len() == 512,
        start <= s.next_alloc,
        start <= op.host,
        s.table_end() <= start,
        forall|b: int|
            0 <= b < s.bat@.len() && #[trigger] s.bat@[b] != BAT_UNALLOCATED ==> start
                <= reader::block_host(s.bat@[b]),
        end_sealed(op, s, footer, bare, dev),
    ensures
        start <= t.next_alloc,
        forall|b: int|
            0 <= b < t.bat@.len() && #[trigger] t.bat@[b] != BAT_UNALLOCATED ==> start
                <= reader::block_host(t.bat@[b]),
        op2.unpublished() || op2.stage is Mirror ==> start <= op2.host,
        end_sealed(op2, t, footer, bare, laws::performed(dev, op.pending_sparse(s, footer))),
{
    let dev2 = laws::performed(dev, op.pending_sparse(s, footer));
    writing::lemma_span(op, s, size);
    match op.stage {
        WriteStage::Mirror => {
            assert(opening::trailing_footer(dev2) =~= footer);
        },
        _ => {},
    }
}

/// The device carries a copy of its footer at offset 0, and the table does
/// not run over it.
pub open spec fn mirrored(d: Seq<u8>) -> bool {
    &&& opening::mirror_footer(d) == opening::footer_of(d)
    &&& 512 <= opening::table_offset_of(d)
}

/// Nothing that can be taken for a footer stands at the end of the device.
pub open spec fn footless(d: Seq<u8>) -> bool {
    footer_block::footer_refusal(opening::trailing_footer(d)) is Some
}

/// At every stage the device ends with the footer behind the last block, or
/// with something that cannot be taken for a footer.
proof fn lemma_how_it_ends(
    op: WriteOp,
    s: Sparse,
    footer: Seq<u8>,
    bare: int,
    dev: Seq<u8>,
    disk: Seq<u8>,
)
    requires
        s.wf(disk.len() as int),
        op.stage != WriteStage::Done ==> op.wf_sparse(s) && op.offset + op.len() <= disk.len(),
        op.tracks_sparse(s, dev, disk),
        end_sealed(op, s, footer, bare, dev),
        bare >= 512 || bare < 0,
        dev.len() == bare ==> footless(dev),
        footer_block::footer_refusal(footer) is None,
    ensures
        dev.len() >= 512,
        dev.len() % 512 == 0,
        dev.len() >= s.next_alloc,
        opening::trailing_footer(dev) == footer || footless(dev),
        opening::trailing_footer(dev) == footer ==> dev.len() == s.next_alloc + 512,
        op.stage == WriteStage::Done && dev.len() != bare ==> dev.len() == s.next_alloc + 512
            && opening::trailing_footer(dev) == footer,
{
    if op.stage != WriteStage::Done {
        writing::lemma_span(op, s, disk.len() as int);
    }
    if op.unpublished() || op.stage is Mirror {
        if !settled(s, footer, bare, dev) {
            assert(wire::field(opening::trailing_footer(dev), 0, 8)[0] == 0);
        }
    }
}

/// The table that a sealed device carries is one that no check refuses.
proof fn lemma_stored_table_is_believed(op: WriteOp, s: Sparse, size: int, lo: int, hi: int, bat: Seq<u32>)
    requires
        s.wf(size),
        op.stage != WriteStage::Done ==> op.wf_sparse(s),
        forall|b: int|
            0 <= b < s.bat@.len() && #[trigger] s.bat@[b] != BAT_UNALLOCATED ==> lo
                <= reader::block_host(s.bat@[b]),
        op.unpublished() ==> lo <= op.host,
        s.next_alloc <= hi,
        bat == match op.stage {
            WriteStage::EntryFlush(entry) => s.bat@.update(op.block(s), entry),
            _ => s.bat@,
        },
    ensures
        table::table_refusal(bat, lo, hi, s.block_total()) is None,
{
    let total = s.block_total();
    assert forall|b: int| 0 <= b < bat.len() implies table::entry_refusal(
        #[trigger] bat[b],
        lo,
        hi,
        total,
    ) is None by {
        if bat[b] != BAT_UNALLOCATED && bat[b] == s.bat@[b] {
            assert(lo <= reader::block_host(s.bat@[b]));
        }
    }
    table::lemma_no_entry_is_refused(bat, bat.len() as int, lo, hi, total);
    assert forall|b: int, c: int|
        0 <= b < c < bat.len() && #[trigger] bat[b] != BAT_UNALLOCATED && #[trigger] bat[c]
            != BAT_UNALLOCATED implies !reader::blocks_overlap(bat[b], bat[c], total) by {
        match op.stage {
            WriteStage::EntryFlush(entry) => {
                if b == op.block(s) {
                    assert(bat[c] == s.bat@[c]);
                } else if c == op.block(s) {
                    assert(bat[b] == s.bat@[b]);
                } else {
                    assert(bat[b] == s.bat@[b] && bat[c] == s.bat@[c]);
                }
            },
            _ => {},
        }
    }
    assert(!table::has_overlap(bat, total));
    assert(!table::has_alias(bat)) by {
        if table::has_alias(bat) {
            let (b, c) = choose|b: int, c: int|
                0 <= b < c < bat.len() && #[trigger] bat[b] != BAT_UNALLOCATED && bat[b]
                    == #[trigger] bat[c];
            assert(!reader::blocks_overlap(bat[b], bat[c], total));
        }
    }
}

/// What is found on a sealed device, at whatever stage.
#[verifier::rlimit(50)]
proof fn lemma_sealed_metadata(
    op: WriteOp,
    s: Sparse,
    bare: int,
    disk: Seq<u8>,
    dev0: Seq<u8>,
    dev: Seq<u8>,
)
    requires
        s.wf(disk.len() as int),
        op.stage != WriteStage::Done ==> op.wf_sparse(s) && op.offset + op.len() <= disk.len(),
        op.tracks_sparse(s, dev, disk),
        opening::image_refusal(dev0) is None,
        !opening::is_fixed(dev0),
        s.header.table_offset == opening::table_offset_of(dev0),
        s.bat@.len() == opening::table_entries_of(dev0),
        s.block_size() == opening::block_size_of(dev0),
        sealed(
            op,
            s,
            opening::footer_of(dev0),
            bare,
            opening::header_offset_of(dev0),
            opening::header_of(dev0),
            opening::data_start_of(dev0),
            dev,
        ),
        bare >= 512 || bare < 0,
        dev.len() == bare ==> footless(dev),
        footless(dev) ==> opening::mirror_footer(dev) == opening::footer_of(dev0),
    ensures
        opening::recovered(dev) == footless(dev),
        opening::footer_of(dev) == opening::footer_of(dev0),
        opening::header_of(dev) == opening::header_of(dev0),
        opening::table_of(dev) == interruption::disk_table(s, dev),
        opening::image_refusal(dev) is None,
        op.stage == WriteStage::Done && dev.len() != bare ==> {
            &&& !opening::recovered(dev)
            &&& dev.len() == s.next_alloc + 512
            &&& opening::table_of(dev) == s.bat@
            &&& well_laid(dev0) ==> well_laid(dev)
        },
{
    let footer = opening::footer_of(dev0);
    lemma_believed_footer(dev0);
    lemma_how_it_ends(op, s, footer, bare, dev, disk);
    assert(opening::footer_of(dev) == footer);
    assert(opening::header_of(dev) == opening::header_of(dev0));
    assert(opening::table_of(dev) =~= interruption::disk_table(s, dev));
    lemma_stored_table_is_believed(
        op,
        s,
        disk.len() as int,
        opening::data_start_of(dev),
        opening::data_end_of(dev),
        opening::table_of(dev),
    );
    lemma_refusal_carries_over(dev0, dev);
}

/// The image described on the one device is described on the other.
proof fn lemma_description_carries_over(
    r0: VhdReader,
    dev0: Seq<u8>,
    r: VhdReader,
    dev: Seq<u8>,
)
    requires
        r0.images@.len() == 1,
        r0.opened_from(seq![dev0]),
        r.images@.len() == 1,
        r0.images@[0].sparse is Some,
        r.images@[0].sparse is Some,
        r.images@[0].footer == r0.images@[0].footer,
        r.images@[0].footer_bytes == r0.images@[0].footer_bytes,
        r.images@[0].recovered == r0.images@[0].recovered,
        r.images@[0].sparse->0.header == r0.images@[0].sparse->0.header,
        r.images@[0].sparse->0.bitmap_size == r0.images@[0].sparse->0.bitmap_size,
        dev.len() == r.images@[0].sparse->0.next_alloc + 512,
        !opening::recovered(dev0),
        !opening::recovered(dev),
        opening::footer_of(dev) == opening::footer_of(dev0),
        opening::header_of(dev) == opening::header_of(dev0),
        opening::table_of(dev) == r.images@[0].sparse->0.bat@,
        opening::image_refusal(dev) is None,
    ensures
        r.opened_from(seq![dev]),
{
    assert(r0.images@[0].describes(seq![dev0][0]));
    assert(seq![dev0][0] == dev0);
    assert(r.images@[0].describes(dev));
    assert(opening::images_on(r.images@, seq![dev])) by {
        assert(seq![dev][0] == dev);
    }
}

proof fn lemma_believed_footer(d: Seq<u8>)
    requires
        opening::image_refusal(d) is None,
    ensures
        d.len() >= 512,
        footer_block::footer_refusal(opening::footer_of(d)) is None,
{
    reveal(opening::image_refusal);
}

/// Where footer and header stayed as they were, what is left to check is
/// the table.
proof fn lemma_refusal_carries_over(dev0: Seq<u8>, dev: Seq<u8>)
    requires
        opening::image_refusal(dev0) is None,
        !opening::is_fixed(dev0),
        dev.len() >= 512,
        dev.len() % 512 == 0,
        opening::footer_of(dev) == opening::footer_of(dev0),
        opening::header_of(dev) == opening::header_of(dev0),
        opening::table_end_of(dev) <= dev.len(),
        table::table_refusal(
            opening::table_of(dev),
            opening::data_start_of(dev),
            opening::data_end_of(dev),
            opening::block_total_of(dev),
        ) is None,
    ensures
        opening::image_refusal(dev) is None,
{
    reveal(opening::image_refusal);
}

proof fn lemma_run_stays_sealed(
    ops: Seq<WriteOp>,
    readers: Seq<VhdReader>,
    devs: Seq<Seq<u8>>,
    replies: Seq<Seq<u8>>,
    disk: Seq<u8>,
    n: int,
    bare: int,
    header_at: int,
    header: Seq<u8>,
    start: int,
)
    requires
        laws::write_run(ops, readers, devs, replies),
        0 <= n < ops.len(),
        ops[0].tracks(readers[0], devs[0], disk),
        readers[0].images@.len() == 1,
        readers[0].images@[0].sparse is Some,
        apart(ops[0], readers[0].images@[0].sparse->0, header_at, 1024, start),
        sealed(
            ops[0],
            readers[0].images@[0].sparse->0,
            readers[0].images@[0].footer_bytes@,
            bare,
            header_at,
            header,
            start,
            devs[0],
        ),
    ensures
        ops[n].tracks(readers[n], devs[n], disk),
        readers[n].images@.len() == 1,
        readers[n].images@[0].sparse is Some,
        readers[n].images@[0].footer == readers[0].images@[0].footer,
        readers[n].images@[0].footer_bytes == readers[0].images@[0].footer_bytes,
        readers[n].images@[0].recovered == readers[0].images@[0].recovered,
        readers[n].images@[0].sparse->0.header == readers[0].images@[0].sparse->0.header,
        readers[n].images@[0].sparse->0.bitmap_size == readers[0].images@[0].sparse->0.bitmap_size,
        apart(ops[n], readers[n].images@[0].sparse->0, header_at, 1024, start),
        sealed(
            ops[n],
            readers[n].images@[0].sparse->0,
            readers[n].images@[0].footer_bytes@,
            bare,
            header_at,
            header,
            start,
            devs[n],
        ),
        apart(ops[0], readers[0].images@[0].sparse->0, 0, 512, start) ==> apart(
            ops[n],
            readers[n].images@[0].sparse->0,
            0,
            512,
            start,
        ) && opening::mirror_footer(devs[n]) == opening::mirror_footer(devs[0]),
        ops[n].offset == ops[0].offset,
        ops[n].payload == ops[0].payload,
    decreases n,
{
    if n > 0 {
        lemma_run_stays_sealed(
            ops,
            readers,
            devs,
            replies,
            disk,
            n - 1,
            bare,
            header_at,
            header,
            start,
        );
        assert(ops[n - 1].wf(readers[n - 1]));
        laws::law_write_step_keeps_track(
            ops[n - 1],
            readers[n - 1],
            devs[n - 1],
            disk,
            replies[n - 1],
            ops[n],
            readers[n],
        );
        lemma_step_stays_sealed(
            ops[n - 1],
            readers[n - 1],
            devs[n - 1],
            disk,
            replies[n - 1],
            ops[n],
            readers[n],
            bare,
            header_at,
            header,
            start,
        );
    }
}

/// What an image that was opened has from its device.
proof fn lemma_described(r: VhdReader, d: Seq<u8>)
    requires
        r.wf(),
        r.images@[0].footer.disk_type == DiskType::Dynamic,
        r.opened_from(seq![d]),
    ensures
        r.images@.len() == 1,
        r.images@[0].sparse is Some,
        r.images@[0].footer_bytes@ == opening::footer_of(d),
        d.len() >= 512,
        !opening::is_fixed(d),
        opening::image_refusal(d) is None,
        ({
            let s = r.images@[0].sparse->0;
            &&& s.bat@ == opening::table_of(d)
            &&& s.header.table_offset == opening::table_offset_of(d)
            &&& s.bat@.len() == opening::table_entries_of(d)
            &&& s.block_size() == opening::block_size_of(d)
            &&& s.next_alloc == opening::data_end_of(d)
            &&& s.next_alloc % 512 == 0
        }),
{
    assert(r.images@[0].wf());
    assert(r.images@[0].describes(seq![d][0]));
    assert(seq![d][0] == d);
    lemma_believed_footer(d);
}

/// The length that a device without a footer at its end has; negative for
/// any other.
pub open spec fn bare_length(d: Seq<u8>) -> int {
    if opening::recovered(d) {
        d.len() as int
    } else {
        -1
    }
}

/// Where the data area starts, between the metadata and an end on a sector
/// boundary.
proof fn lemma_data_start(header_offset: int, table_end: int, end: int)
    requires
        0 <= header_offset,
    ensures
        ({
            let start = opening::round_up(opening::metadata_end(header_offset, table_end));
            &&& header_offset + 1024 <= start
            &&& table_end <= start
            &&& header_offset + 1024 <= end && table_end <= end && end % 512 == 0 ==> start <= end
        }),
{
}

/// A write that spares the header starts from an image whose data area has
/// room for a block.
proof fn lemma_room_for_blocks(s: Sparse, size: int, d: Seq<u8>, offset: int, len: int)
    requires
        d.len() >= 512,
        opening::image_refusal(d) is None,
        !opening::is_fixed(d),
        s.wf(size),
        s.bat@ == opening::table_of(d),
        s.block_size() == opening::block_size_of(d),
        s.next_alloc == opening::data_end_of(d),
        0 <= offset,
        0 < len,
        offset + len <= size,
        header_spared(d, offset, len),
    ensures
        opening::data_start_of(d) <= opening::data_end_of(d),
        opening::header_offset_of(d) + 1024 <= opening::data_start_of(d),
        opening::table_end_of(d) <= opening::data_start_of(d),
{
    laws::lemma_position(s, size, offset);
    let b = offset / s.block_size();
    assert(0 <= b < s.bat@.len());
    assert(0 <= opening::header_offset_of(d));
    lemma_data_start(
        opening::header_offset_of(d),
        opening::table_end_of(d),
        opening::data_end_of(d),
    );
    if entry_for(opening::table_of(d), opening::block_size_of(d), offset) != BAT_UNALLOCATED {
        opening_laws::law_blocks_keep_off_the_metadata(d, b);
    }
}

proof fn lemma_start_is_sealed(
    op: WriteOp,
    s: Sparse,
    size: int,
    footer: Seq<u8>,
    d: Seq<u8>,
)
    requires
        d.len() >= 512,
        opening::image_refusal(d) is None,
        !opening::is_fixed(d),
        header_spared(d, op.offset as int, op.len()),
        footer == opening::footer_of(d),
        s.wf(size),
        op.len() > 0,
        op.offset + op.len() <= size,
        s.bat@ == opening::table_of(d),
        s.header.table_offset == opening::table_offset_of(d),
        s.bat@.len() == opening::table_entries_of(d),
        s.block_size() == opening::block_size_of(d),
        s.next_alloc == opening::data_end_of(d),
        op.stage == writing::chunk_start(s, op.offset as int).0,
        op.host == writing::chunk_start(s, op.offset as int).1,
    ensures
        apart(op, s, opening::header_offset_of(d), 1024, opening::data_start_of(d)),
        spared(d, op.offset as int, op.len(), 0, 512) ==> apart(
            op,
            s,
            0,
            512,
            opening::data_start_of(d),
        ),
        sealed(
            op,
            s,
            footer,
            bare_length(d),
            opening::header_offset_of(d),
            opening::header_of(d),
            opening::data_start_of(d),
            d,
        ),
{
    let start = opening::data_start_of(d);
    lemma_room_for_blocks(s, size, d, op.offset as int, op.len());
    assert forall|b: int|
        0 <= b < s.bat@.len() && #[trigger] s.bat@[b] != BAT_UNALLOCATED implies start
        <= reader::block_host(s.bat@[b]) by {
        opening_laws::law_blocks_keep_off_the_metadata(d, b);
    }
    assert forall|b: int| 0 <= b < s.bat@.len() implies interruption::disk_table(s, d)[b]
        == s.bat@[b] by {
        assert(s.bat@[b] == opening::table_of(d)[b]);
    }
    assert(interruption::disk_table(s, d) =~= s.bat@);
}

/// How a write through a reader just opened starts.
proof fn lemma_write_starts_sealed(op: WriteOp, r: VhdReader, d: Seq<u8>, offset: int, payload: Seq<u8>)
    requires
        op.wf(r),
        writing::write_refusal(r, offset, payload.len() as int) is None,
        writing::begins(op, r, offset, payload),
        r.images@[0].footer.disk_type == DiskType::Dynamic,
        r.opened_from(seq![d]),
        payload.len() > 0,
        header_spared(d, offset, payload.len() as int),
    ensures
        op.tracks(r, d, r.guest(seq![d])),
        apart(
            op,
            r.images@[0].sparse->0,
            opening::header_offset_of(d),
            1024,
            opening::data_start_of(d),
        ),
        spared(d, offset, payload.len() as int, 0, 512) ==> apart(
            op,
            r.images@[0].sparse->0,
            0,
            512,
            opening::data_start_of(d),
        ),
        sealed(
            op,
            r.images@[0].sparse->0,
            r.images@[0].footer_bytes@,
            bare_length(d),
            opening::header_offset_of(d),
            opening::header_of(d),
            opening::data_start_of(d),
            d,
        ),
{
    lemma_described(r, d);
    assert(r.images@[0].wf());
    let size = r.images@[0].size();
    let s = r.images@[0].sparse->0;
    lemma_room_for_blocks(s, size, d, offset, payload.len() as int);
    opening_laws::law_opened_image_is_ready(r, d);
    lemma_start_is_sealed(op, s, size, r.images@[0].footer_bytes@, d);
    laws::law_write_begins(op, r, d, offset, payload);
}

/// A run of a write through a reader just opened: what is found on the
/// device at its end.
#[verifier::rlimit(50)]
proof fn lemma_run_is_found(
    ops: Seq<WriteOp>,
    readers: Seq<VhdReader>,
    devs: Seq<Seq<u8>>,
    replies: Seq<Seq<u8>>,
    offset: int,
    payload: Seq<u8>,
)
    requires
        laws::write_run(ops, readers, devs, replies),
        writing::write_refusal(readers[0], offset, payload.len() as int) is None,
        writing::begins(ops[0], readers[0], offset, payload),
        readers[0].images@[0].footer.disk_type == DiskType::Dynamic,
        readers[0].opened_from(seq![devs[0]]),
        payload.len() > 0,
        header_spared(devs[0], offset, payload.len() as int),
        opening::recovered(devs[0]) || ops.last().stage != WriteStage::Done ==> mirror_spared(
            devs[0],
            offset,
            payload.len() as int,
        ),
        devs.last().len() == bare_length(devs[0]) ==> footless(devs.last()),
    ensures
        ops.last().tracks(readers.last(), devs.last(), readers[0].guest(seq![devs[0]])),
        ops.last().wf(readers.last()),
        ops.last().offset == offset,
        ops.last().payload@ == payload,
        readers.last().images@.len() == 1,
        readers.last().images@[0].sparse is Some,
        readers.last().images@[0].footer == readers[0].images@[0].footer,
        readers.last().images@[0].footer_bytes == readers[0].images@[0].footer_bytes,
        readers.last().images@[0].recovered == readers[0].images@[0].recovered,
        readers.last().images@[0].sparse->0.header == readers[0].images@[0].sparse->0.header,
        readers.last().images@[0].sparse->0.bitmap_size
            == readers[0].images@[0].sparse->0.bitmap_size,
        interruption::stored(ops.last(), readers.last().images@[0].sparse->0, devs.last()),
        opening::footer_of(devs.last()) == opening::footer_of(devs[0]),
        opening::header_of(devs.last()) == opening::header_of(devs[0]),
        opening::table_of(devs.last()) == interruption::disk_table(
            readers.last().images@[0].sparse->0,
            devs.last(),
        ),
        opening::image_refusal(devs.last()) is None,
        mirrored(devs[0]) && well_laid(devs[0]) ==> mirrored(devs.last()),
        ops.last().stage == WriteStage::Done && !opening::recovered(devs[0]) ==> {
            &&& !opening::recovered(devs.last())
            &&& devs.last().len() == readers.last().images@[0].sparse->0.next_alloc + 512
            &&& opening::table_of(devs.last()) == readers.last().images@[0].sparse->0.bat@
            &&& well_laid(devs[0]) ==> well_laid(devs.last())
        },
{
    let n = ops.len() - 1;
    let r = readers[0];
    let d = devs[0];
    let disk = r.guest(seq![d]);
    assert(ops[0].wf(r));
    assert(ops[n].wf(readers[n]));
    lemma_described(r, d);
    lemma_write_starts_sealed(ops[0], r, d, offset, payload);
    if mirrored(d) && well_laid(d) {
        assert(r.images@[0].wf());
        law_every_write_spares_a_well_laid_image(d, offset, payload.len() as int);
    }
    lemma_run_stays_sealed(
        ops,
        readers,
        devs,
        replies,
        disk,
        n,
        bare_length(d),
        opening::header_offset_of(d),
        opening::header_of(d),
        opening::data_start_of(d),
    );
    assert(readers[n].images@[0].wf());
    let s = readers[n].images@[0].sparse->0;
    lemma_believed_footer(d);
    lemma_how_it_ends(
        ops[n],
        s,
        opening::footer_of(d),
        bare_length(d),
        devs[n],
        disk,
    );
    lemma_sealed_metadata(ops[n], s, bare_length(d), disk, d, devs[n]);
}

/// A run of a write of nothing is over before it begins.
proof fn lemma_empty_run(
    ops: Seq<WriteOp>,
    readers: Seq<VhdReader>,
    devs: Seq<Seq<u8>>,
    replies: Seq<Seq<u8>>,
    offset: int,
)
    requires
        laws::write_run(ops, readers, devs, replies),
        writing::begins(ops[0], readers[0], offset, seq![]),
    ensures
        ops.len() == 1,
        readers.last() == readers[0],
        devs.last() == devs[0],
        readers[0].guest(seq![devs[0]]) == wire::overwrite(
            readers[0].guest(seq![devs[0]]),
            offset,
            seq![],
        ),
{
    assert(ops[0].stage == WriteStage::Done);
    let disk = readers[0].guest(seq![devs[0]]);
    assert(wire::overwrite(disk, offset, seq![]) =~= disk);
}

/// Two readers that were opened from one device show one disk.
proof fn lemma_one_device_one_disk(r: VhdReader, r2: VhdReader, d: Seq<u8>)
    requires
        r.wf(),
        r2.wf(),
        r.opened_from(seq![d]),
        r2.opened_from(seq![d]),
        r.images@[0].footer.disk_type != DiskType::Differencing,
    ensures
        r2.guest(seq![d]) == r.guest(seq![d]),
{
    assert(r.images@[0].wf() && r2.images@[0].wf());
    assert(r.images@[0].describes(seq![d][0]) && r2.images@[0].describes(seq![d][0]));
    footer_block::law_wire_values_tell_types_apart(
        r.images@[0].footer.disk_type,
        r2.images@[0].footer.disk_type,
    );
    if r.images@[0].footer.disk_type == DiskType::Fixed {
        laws::lemma_guest_of_fixed(r, d);
        laws::lemma_guest_of_fixed(r2, d);
    } else {
        laws::lemma_guest_of_dynamic(r, d);
        laws::lemma_guest_of_dynamic(r2, d);
        let s = r.images@[0].sparse->0;
        let s2 = r2.images@[0].sparse->0;
        assert forall|v: int| 0 <= v < r.images@[0].size() implies r2.guest(seq![d])[v] == r.guest(
            seq![d],
        )[v] by {
            assert(laws::dyn_byte(s2, d, v) == laws::dyn_byte(s, d, v));
        }
    }
    assert(r2.guest(seq![d]) =~= r.guest(seq![d]));
}

/// After a write to a dynamic disk that was run to its end, the image opens
/// again, and what is opened is the reader that wrote: the same footer and
/// header, and on the device the table and the tail that it has cached.
pub proof fn law_reopening_finds_what_was_written(
    ops: Seq<WriteOp>,
    readers: Seq<VhdReader>,
    devs: Seq<Seq<u8>>,
    replies: Seq<Seq<u8>>,
    offset: int,
    payload: Seq<u8>,
)
    requires
        laws::write_run(ops, readers, devs, replies),
        writing::write_refusal(readers[0], offset, payload.len() as int) is None,
        writing::begins(ops[0], readers[0], offset, payload),
        ops.last().stage == WriteStage::Done,
        readers[0].images@[0].footer.disk_type == DiskType::Dynamic,
        readers[0].opened_from(seq![devs[0]]),
        !opening::recovered(devs[0]),
        header_spared(devs[0], offset, payload.len() as int),
    ensures
        readers.last().opened_from(seq![devs.last()]),
        !opening::recovered(devs.last()),
        opening::trailing_footer(devs.last()) == opening::trailing_footer(devs[0]),
        well_laid(devs[0]) ==> well_laid(devs.last()),
        well_laid(devs[0]) && mirrored(devs[0]) ==> mirrored(devs.last()),
        readers.last().guest(seq![devs.last()]) == wire::overwrite(
            readers[0].guest(seq![devs[0]]),
            offset,
            payload,
        ),
{
    assert(ops[0].wf(readers[0]));
    lemma_described(readers[0], devs[0]);
    if payload.len() == 0 {
        assert(payload =~= seq![]);
        lemma_empty_run(ops, readers, devs, replies, offset);
    } else {
        assert(readers[0].images@[0].wf());
        lemma_room_for_blocks(
            readers[0].images@[0].sparse->0,
            readers[0].images@[0].size(),
            devs[0],
            offset,
            payload.len() as int,
        );
        opening_laws::law_opened_image_is_ready(readers[0], devs[0]);
        lemma_run_is_found(ops, readers, devs, replies, offset, payload);
        lemma_description_carries_over(readers[0], devs[0], readers.last(), devs.last());
        laws::law_finished_write_is_spliced_in(ops, readers, devs, replies, offset, payload);
    }
}

/// What was written reads back, and lasts. After a write that was run to
/// its end the reader that wrote shows the payload at its offset and every
/// other byte as it was; the image opens again, at the same size, with the
/// same footer at its end; and whoever opens it sees that same disk.
pub proof fn law_what_was_written_reads_back_and_lasts(
    ops: Seq<WriteOp>,
    readers: Seq<VhdReader>,
    devs: Seq<Seq<u8>>,
    replies: Seq<Seq<u8>>,
    offset: int,
    payload: Seq<u8>,
    r: VhdReader,
)
    requires
        laws::write_run(ops, readers, devs, replies),
        writing::write_refusal(readers[0], offset, payload.len() as int) is None,
        writing::begins(ops[0], readers[0], offset, payload),
        ops.last().stage == WriteStage::Done,
        readers[0].opened_from(seq![devs[0]]),
        !opening::recovered(devs[0]),
        if opening::is_fixed(devs[0]) {
            opening::virtual_size_of(devs[0]) + 512 <= devs[0].len()
        } else {
            header_spared(devs[0], offset, payload.len() as int)
        },
    ensures
        ({
            let disk = wire::overwrite(readers[0].guest(seq![devs[0]]), offset, payload);
            &&& readers.last().guest(seq![devs.last()]) == disk
            &&& opening::image_refusal(devs.last()) is None
            &&& !opening::is_differencing(devs.last())
            &&& opening::virtual_size_of(devs.last()) == opening::virtual_size_of(devs[0])
            &&& opening::trailing_footer(devs.last()) == opening::trailing_footer(devs[0])
            &&& r.wf() && r.opened_from(seq![devs.last()]) ==> r.guest(seq![devs.last()]) == disk
        }),
{
    let n = ops.len() - 1;
    let d = devs[0];
    let e = devs[n];
    assert(ops[0].wf(readers[0]));
    assert(ops[n].wf(readers[n]));
    assert(readers[0].images@[0].wf());
    assert(readers[0].images@[0].describes(seq![d][0]));
    assert(seq![d][0] == d && seq![e][0] == e);
    if opening::is_fixed(d) {
        law_reopening_a_fixed_disk(ops, readers, devs, replies, offset, payload);
    } else {
        law_reopening_finds_what_was_written(ops, readers, devs, replies, offset, payload);
    }
    assert(readers[n].images@[0].describes(seq![e][0]));
    assert(readers[n].images@[0].wf());
    if r.wf() && r.opened_from(seq![e]) {
        lemma_one_device_one_disk(readers[n], r, e);
    }
}

/// Stop a write to a dynamic disk after any of its requests: what is then
/// on the device opens again. Where the footer is not at the end of the
/// device any more, or not yet, the image opens by its copy at offset 0.
///
/// An image that had no footer at its end to begin with may hold a guest's
/// bytes there. It opens again unless the guest has put a footer of its own
/// making in that place.
pub proof fn law_interrupted_write_leaves_an_image_that_opens(
    ops: Seq<WriteOp>,
    readers: Seq<VhdReader>,
    devs: Seq<Seq<u8>>,
    replies: Seq<Seq<u8>>,
    offset: int,
    payload: Seq<u8>,
)
    requires
        laws::write_run(ops, readers, devs, replies),
        writing::write_refusal(readers[0], offset, payload.len() as int) is None,
        writing::begins(ops[0], readers[0], offset, payload),
        readers[0].images@[0].footer.disk_type == DiskType::Dynamic,
        readers[0].opened_from(seq![devs[0]]),
        header_spared(devs[0], offset, payload.len() as int),
        mirror_spared(devs[0], offset, payload.len() as int),
        opening::recovered(devs[0]) && devs.last().len() == devs[0].len() ==> footless(
            devs.last(),
        ),
    ensures
        opening::image_refusal(devs.last()) is None,
        !opening::is_differencing(devs.last()),
        opening::virtual_size_of(devs.last()) == opening::virtual_size_of(devs[0]),
{
    assert(ops[0].wf(readers[0]));
    lemma_described(readers[0], devs[0]);
    if payload.len() == 0 {
        assert(payload =~= seq![]);
        lemma_empty_run(ops, readers, devs, replies, offset);
    } else {
        lemma_run_is_found(ops, readers, devs, replies, offset, payload);
    }
}

/// Stop a write to a dynamic disk after any of its requests, and open the
/// image again: every byte is the one from before the write or the one
/// that was being written. If the write was done, it is spliced in.
pub proof fn law_reopening_after_an_interrupted_write_shows_old_or_new_bytes(
    ops: Seq<WriteOp>,
    readers: Seq<VhdReader>,
    devs: Seq<Seq<u8>>,
    replies: Seq<Seq<u8>>,
    offset: int,
    payload: Seq<u8>,
    r: VhdReader,
)
    requires
        laws::write_run(ops, readers, devs, replies),
        writing::write_refusal(readers[0], offset, payload.len() as int) is None,
        writing::begins(ops[0], readers[0], offset, payload),
        readers[0].images@[0].footer.disk_type == DiskType::Dynamic,
        readers[0].opened_from(seq![devs[0]]),
        header_spared(devs[0], offset, payload.len() as int),
        mirror_spared(devs[0], offset, payload.len() as int),
        opening::recovered(devs[0]) && devs.last().len() == devs[0].len() ==> footless(
            devs.last(),
        ),
        r.wf(),
        r.opened_from(seq![devs.last()]),
    ensures
        r.guest(seq![devs.last()]).len() == readers[0].guest(seq![devs[0]]).len(),
        forall|v: int|
            0 <= v < r.guest(seq![devs.last()]).len() ==> interruption::old_or_new(
                ops.last(),
                readers[0].guest(seq![devs[0]]),
                v,
                #[trigger] r.guest(seq![devs.last()])[v],
            ),
        ops.last().stage == WriteStage::Done ==> r.guest(seq![devs.last()]) == wire::overwrite(
            readers[0].guest(seq![devs[0]]),
            offset,
            payload,
        ),
{
    let d = devs.last();
    let disk = readers[0].guest(seq![devs[0]]);
    let r1 = readers.last();
    assert(ops[0].wf(readers[0]));
    lemma_described(readers[0], devs[0]);
    if payload.len() == 0 {
        assert(payload =~= seq![]);
        lemma_empty_run(ops, readers, devs, replies, offset);
        lemma_one_device_one_disk(readers[0], r, d);
    } else {
        lemma_run_is_found(ops, readers, devs, replies, offset, payload);
        assert(r.images@[0].wf());
        assert(r.images@[0].describes(seq![d][0]));
        assert(seq![d][0] == d);
        lemma_described(r, d);
        laws::lemma_guest_of_dynamic(r, d);
        laws::lemma_guest_of_dynamic(r1, d);
        let s = r.images@[0].sparse->0;
        let s1 = r1.images@[0].sparse->0;
        assert forall|v: int| 0 <= v < disk.len() implies interruption::old_or_new(
            ops.last(),
            disk,
            v,
            #[trigger] r.guest(seq![d])[v],
        ) by {
            interruption::law_disk_on_device_is_old_or_new(ops.last(), r1, d, disk, v);
            assert(r.guest(seq![d])[v] == laws::dyn_byte(s, d, v));
        }
        if ops.last().stage == WriteStage::Done {
            laws::law_write_done(ops.last(), r1, d, disk);
            assert forall|v: int| 0 <= v < disk.len() implies r.guest(seq![d])[v] == r1.guest(
                seq![d],
            )[v] by {
                assert(r.guest(seq![d])[v] == laws::dyn_byte(s, d, v));
                assert(r1.guest(seq![d])[v] == laws::dyn_byte(s1, d, v));
            }
            assert(r.guest(seq![d]) =~= r1.guest(seq![d]));
        }
    }
}

/// A write to a fixed disk never reaches the footer: after it the image
/// opens again, as the reader that wrote.
pub proof fn law_reopening_a_fixed_disk(
    ops: Seq<WriteOp>,
    readers: Seq<VhdReader>,
    devs: Seq<Seq<u8>>,
    replies: Seq<Seq<u8>>,
    offset: int,
    payload: Seq<u8>,
)
    requires
        laws::write_run(ops, readers, devs, replies),
        writing::write_refusal(readers[0], offset, payload.len() as int) is None,
        writing::begins(ops[0], readers[0], offset, payload),
        ops.last().stage == WriteStage::Done,
        readers[0].images@[0].footer.disk_type == DiskType::Fixed,
        readers[0].opened_from(seq![devs[0]]),
        readers[0].images@[0].size() <= devs[0].len() - 512,
    ensures
        readers.last() == readers[0],
        readers[0].opened_from(seq![devs.last()]),
        readers[0].guest(seq![devs.last()]) == wire::overwrite(
            readers[0].guest(seq![devs[0]]),
            offset,
            payload,
        ),
{
    let n = ops.len() - 1;
    let r = readers[0];
    let d = devs[0];
    let image = r.images@[0];
    assert(ops[0].wf(r));
    assert(image.wf());
    assert(image.describes(seq![d][0]));
    assert(seq![d][0] == d);
    laws::law_finished_write_is_spliced_in(ops, readers, devs, replies, offset, payload);
    if payload.len() == 0 {
        assert(n == 0);
    } else {
        assert(ops[0].stage == WriteStage::Direct);
        assert(ops[0].pending(r) is Write);
        assert(n > 0);
        assert(ops[1].follows(readers[1], ops[0], readers[0], replies[0]));
        assert(ops[1].stage == WriteStage::Done);
        assert(n == 1);
        let e = devs[1];
        assert(opening::trailing_footer(e) =~= opening::trailing_footer(d));
        reveal(opening::image_refusal);
        assert(!opening::recovered(d));
        assert(opening::image_refusal(e) is None);
        assert(image.describes(e));
        assert(seq![e][0] == e);
        assert(opening::images_on(r.images@, seq![e]));
    }
}

/// Reading back: a read of what a finished write wrote returns the
/// payload, and a read of any range that it did not touch returns what was
/// there before.
pub proof fn law_read_after_write(
    ops: Seq<WriteOp>,
    readers: Seq<VhdReader>,
    devs: Seq<Seq<u8>>,
    replies: Seq<Seq<u8>>,
    offset: int,
    payload: Seq<u8>,
    reads: Seq<crate::reading::ReadOp>,
    read_replies: Seq<Seq<u8>>,
)
    requires
        laws::write_run(ops, readers, devs, replies),
        writing::write_refusal(readers[0], offset, payload.len() as int) is None,
        writing::begins(ops[0], readers[0], offset, payload),
        laws::ready(readers[0], devs[0]),
        ops.last().stage == WriteStage::Done,
        crate::reading::read_run(reads, readers.last(), seq![devs.last()], read_replies),
        reads[0].consistent(readers.last(), seq![devs.last()]),
        reads[0].len > 0,
        reads.last().stage == crate::reading::ReadStage::Done,
    ensures
        reads[0].offset == offset && reads[0].len == payload.len() ==> reads.last().out@ == payload,
        reads[0].offset + reads[0].len <= offset || offset + payload.len() <= reads[0].offset
            ==> reads.last().out@ == readers[0].guest(seq![devs[0]]).subrange(
            reads[0].offset as int,
            reads[0].offset + reads[0].len,
        ),
{
    laws::law_finished_write_is_spliced_in(ops, readers, devs, replies, offset, payload);
    crate::reading::law_finished_read_returns_the_disk(
        reads,
        readers.last(),
        seq![devs.last()],
        read_replies,
    );
    let lo = reads[0].offset as int;
    let hi = reads[0].offset + reads[0].len;
    let before = readers[0].guest(seq![devs[0]]);
    let after = readers.last().guest(seq![devs.last()]);
    assert(reads[0].wf(readers.last()));
    if lo == offset && reads[0].len == payload.len() {
        assert(after.subrange(lo, hi) =~= payload);
    }
    if hi <= offset || offset + payload.len() <= lo {
        assert(after.subrange(lo, hi) =~= before.subrange(lo, hi));
    }
}

} // verus!
