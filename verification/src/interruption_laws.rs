//! What is left behind when a write stops half-way.
use crate::dynamic::BAT_UNALLOCATED;
use crate::format as wire;
use crate::reader;
use crate::reader::{Sparse, VhdReader};
use crate::writing;
use crate::writing::{Pending, WriteOp, WriteStage};
use crate::writing_laws as laws;
use vstd::prelude::*;

verus! {

/// `dev2` is what a device that held `dev` may hold after a request that
/// failed, or that nothing is known of: any of the bytes to be written may
/// have landed, and nothing else has changed.
pub open spec fn interrupted(dev: Seq<u8>, request: Pending, dev2: Seq<u8>) -> bool {
    match request {
        Pending::Write { offset, bytes } => {
            &&& dev.len() <= dev2.len() <= laws::performed(dev, request).len()
            &&& forall|i: int|
                0 <= i < dev2.len() ==> (i < dev.len() && #[trigger] dev2[i] == dev[i]) || (offset
                    <= i < offset + bytes.len() && dev2[i] == bytes[i - offset])
        },
        _ => dev2 == dev,
    }
}

/// The byte is the one that was there before the write began, or the one
/// that the write puts there.
pub open spec fn old_or_new(op: WriteOp, disk: Seq<u8>, v: int, byte: u8) -> bool {
    byte == disk[v] || (op.offset <= v < op.offset + op.len() && byte == op.payload@[v - op.offset])
}

#[verifier::rlimit(50)]
proof fn lemma_interrupted_sparse(
    op: WriteOp,
    s: Sparse,
    dev: Seq<u8>,
    disk: Seq<u8>,
    footer: Seq<u8>,
    dev2: Seq<u8>,
    v: int,
)
    requires
        s.wf(disk.len() as int),
        op.stage == WriteStage::Done ==> op.written == op.len(),
        op.stage != WriteStage::Done ==> op.wf_sparse(s),
        op.len() > 0 ==> op.offset + op.len() <= disk.len(),
        op.tracks_sparse(s, dev, disk),
        interrupted(dev, op.pending_sparse(s, footer), dev2),
        0 <= v < disk.len(),
    ensures
        old_or_new(op, disk, v, laws::dyn_byte(s, dev2, v)),
{
    let size = disk.len() as int;
    let host = op.host as int;
    let bitmap = s.bitmap();
    let i = v % s.block_size();
    let b = v / s.block_size();
    laws::lemma_position(s, size, v);
    if op.stage != WriteStage::Done {
        writing::lemma_span(op, s, size);
    }
    if !(op.stage is Publish) {
        assert(old_or_new(op, disk, v, laws::dyn_byte(s, dev, v)));
    }
    match op.stage {
        WriteStage::Zeroing(_) | WriteStage::Entry(_) | WriteStage::Mirror => {
            assert(laws::blocks_kept(s, dev, dev2));
            laws::lemma_kept_blocks_keep_the_disk(s, dev, dev2, disk);
            assert(laws::dyn_byte(s, dev2, v) == laws::dyn_byte(s, dev, v));
        },
        WriteStage::Head => {
            let lo = 512 * op.first(s);
            assert forall|j: int| lo <= j < op.in_block(s) implies !#[trigger] reader::byte_present(
                dev,
                host,
                j,
            ) by {
                assert(j / 512 == op.first(s));
                laws::lemma_bitmap_read(op, s, dev, j);
            }
            laws::lemma_hidden_write(s, dev, dev2, disk, op.block(s), lo, op.in_block(s));
            assert(laws::dyn_byte(s, dev2, v) == laws::dyn_byte(s, dev, v));
        },
        WriteStage::Tail => {
            let lo = op.in_block(s) + op.chunk(s);
            let hi = 512 * (op.last(s) + 1);
            assert forall|j: int| lo <= j < hi implies !#[trigger] reader::byte_present(
                dev,
                host,
                j,
            ) by {
                assert(j / 512 == op.last(s));
                laws::lemma_bitmap_read(op, s, dev, j);
            }
            laws::lemma_hidden_write(s, dev, dev2, disk, op.block(s), lo, hi);
            assert(laws::dyn_byte(s, dev2, v) == laws::dyn_byte(s, dev, v));
        },
        WriteStage::Payload => {
            if b == op.block(s) {
                assert(dev2[host + i / 512 / 8] == dev[host + i / 512 / 8]);
                assert(dev2[host + bitmap + i] == dev[host + bitmap + i] || dev2[host + bitmap + i]
                    == op.payload@[op.written + (i - op.in_block(s))]);
                if op.in_block(s) <= i < op.in_block(s) + op.chunk(s) {
                    assert(v - op.cursor() == i - op.in_block(s));
                }
            } else {
                laws::lemma_other_blocks_keep(s, dev, dev2, size, op.block(s), v);
            }
        },
        WriteStage::Publish => {
            lemma_interrupted_publish(op, s, dev, disk, footer, dev2, v);
        },
        _ => {},
    }
}

proof fn lemma_interrupted_publish(
    op: WriteOp,
    s: Sparse,
    dev: Seq<u8>,
    disk: Seq<u8>,
    footer: Seq<u8>,
    dev2: Seq<u8>,
    v: int,
)
    requires
        s.wf(disk.len() as int),
        op.stage == WriteStage::Publish,
        op.wf_sparse(s),
        op.offset + op.len() <= disk.len(),
        op.tracks_sparse(s, dev, disk),
        interrupted(dev, op.pending_sparse(s, footer), dev2),
        0 <= v < disk.len(),
    ensures
        old_or_new(op, disk, v, laws::dyn_byte(s, dev2, v)),
{
    let size = disk.len() as int;
    let host = op.host as int;
    let bitmap = s.bitmap();
    let i = v % s.block_size();
    let sector = i / 512;
    laws::lemma_position(s, size, v);
    writing::lemma_span(op, s, size);
    let here = op.spliced(disk, op.written as int);
    let next = op.spliced(disk, op.written + op.chunk(s));
    assert(laws::dyn_byte(s, dev, v) == here[v] || laws::dyn_byte(s, dev, v) == next[v]);
    if v / s.block_size() == op.block(s) {
        let before = dev.subrange(host, host + bitmap);
        assert(before[sector / 8] == dev[host + sector / 8]);
        assert(dev2[host + sector / 8] == dev[host + sector / 8] || dev2[host + sector / 8]
            == op.bitmap@[sector / 8]);
        assert(dev2[host + bitmap + i] == dev[host + bitmap + i]);
        assert(reader::sector_set(op.bitmap@, sector) <==> op.first(s) <= sector <= op.last(s)
            || reader::sector_set(before, sector));
        if op.in_block(s) <= i < op.in_block(s) + op.chunk(s) {
            let j = i - op.in_block(s);
            assert(dev[host + bitmap + op.in_block(s) + j] == op.payload@[op.written + j]);
            assert(v - op.cursor() == j);
        }
    } else {
        laws::lemma_other_blocks_keep(s, dev, dev2, size, op.block(s), v);
    }
}

/// Whenever a write stops, and however much of its last request reached
/// the device, every byte that the guest then sees is the one from before
/// the write or the one that was being written; outside the range of the
/// write it is the one from before.
pub proof fn law_interrupted_write_leaves_old_or_new_bytes(
    op: WriteOp,
    r: VhdReader,
    dev: Seq<u8>,
    disk: Seq<u8>,
    dev2: Seq<u8>,
    v: int,
)
    requires
        op.wf(r),
        op.tracks(r, dev, disk),
        interrupted(dev, op.pending(r), dev2),
        0 <= v < disk.len(),
    ensures
        old_or_new(op, disk, v, r.guest(seq![dev2])[v]),
{
    assert(r.images@[0].wf());
    match r.images@[0].sparse {
        Some(s) => {
            laws::lemma_guest_of_dynamic(r, dev2);
            lemma_interrupted_sparse(op, s, dev, disk, r.images@[0].footer_bytes@, dev2, v);
            assert(r.guest(seq![dev2])[v] == laws::dyn_byte(s, dev2, v));
        },
        None => {
            laws::lemma_guest_of_fixed(r, dev2);
            assert(r.guest(seq![dev2])[v] == dev2[v]);
        },
    }
}

/// The block allocation table as it stands on the device.
pub open spec fn disk_table(s: Sparse, dev: Seq<u8>) -> Seq<u32> {
    Seq::new(s.bat@.len(), |b: int| wire::be32(dev, s.header.table_offset + 4 * b) as u32)
}

/// The table on the device is the cached one, but for an entry that was
/// just written and is not cached yet.
pub open spec fn stored(op: WriteOp, s: Sparse, dev: Seq<u8>) -> bool {
    disk_table(s, dev) == match op.stage {
        WriteStage::EntryFlush(entry) => s.bat@.update(op.block(s), entry),
        _ => s.bat@,
    }
}

proof fn lemma_table_kept(s: Sparse, dev: Seq<u8>, dev2: Seq<u8>)
    requires
        dev.len() >= s.table_end(),
        dev2.len() >= s.table_end(),
        forall|i: int|
            s.header.table_offset <= i < s.table_end() ==> #[trigger] dev2[i] == dev[i],
    ensures
        disk_table(s, dev2) == disk_table(s, dev),
{
    assert forall|b: int| 0 <= b < s.bat@.len() implies disk_table(s, dev2)[b] == disk_table(
        s,
        dev,
    )[b] by {
        let at = s.header.table_offset + 4 * b;
        assert(dev2[at] == dev[at] && dev2[at + 1] == dev[at + 1] && dev2[at + 2] == dev[at + 2]
            && dev2[at + 3] == dev[at + 3]);
    }
    assert(disk_table(s, dev2) =~= disk_table(s, dev));
}

/// Every step keeps the table on the device in line with the cached one.
#[verifier::rlimit(50)]
pub proof fn law_table_on_device_follows(
    op: WriteOp,
    r: VhdReader,
    dev: Seq<u8>,
    disk: Seq<u8>,
    answer: Seq<u8>,
    op2: WriteOp,
    r2: VhdReader,
)
    requires
        op.wf(r),
        op.stage != WriteStage::Done,
        op.tracks(r, dev, disk),
        r.images@[0].sparse is Some,
        stored(op, r.images@[0].sparse->0, dev),
        op2.follows(r2, op, r, answer),
    ensures
        stored(op2, r2.images@[0].sparse->0, laws::performed(dev, op.pending(r))),
{
    assert(r.images@[0].wf());
    let s = r.images@[0].sparse->0;
    let t = r2.images@[0].sparse->0;
    let dev2 = laws::performed(dev, op.pending(r));
    writing::lemma_span(op, s, disk.len() as int);
    match op.stage {
        WriteStage::Entry(entry) => {
            let bytes = wire::be32_bytes(entry as int);
            let expected = s.bat@.update(op.block(s), entry);
            assert forall|b: int| 0 <= b < s.bat@.len() implies disk_table(t, dev2)[b]
                == expected[b] by {
                let at = s.header.table_offset + 4 * b;
                if b == op.block(s) {
                    assert(dev2[at] == bytes[0] && dev2[at + 1] == bytes[1] && dev2[at + 2]
                        == bytes[2] && dev2[at + 3] == bytes[3]);
                } else {
                    assert(dev2[at] == dev[at] && dev2[at + 1] == dev[at + 1] && dev2[at + 2]
                        == dev[at + 2] && dev2[at + 3] == dev[at + 3]);
                    assert(disk_table(s, dev)[b] == s.bat@[b]);
                }
            }
            assert(disk_table(t, dev2) =~= expected);
        },
        _ => {
            lemma_table_kept(s, dev, dev2);
            assert(disk_table(t, dev2) =~= disk_table(s, dev2));
        },
    }
}

/// Stop after any request, forget what was cached, and read the disk
/// through the table that is on the device: every byte is the one from
/// before the write or the one that was being written.
pub proof fn law_disk_on_device_is_old_or_new(
    op: WriteOp,
    r: VhdReader,
    dev: Seq<u8>,
    disk: Seq<u8>,
    v: int,
)
    requires
        op.wf(r),
        op.tracks(r, dev, disk),
        r.images@[0].sparse is Some,
        stored(op, r.images@[0].sparse->0, dev),
        0 <= v < disk.len(),
    ensures
        old_or_new(
            op,
            disk,
            v,
            laws::table_byte(
                disk_table(r.images@[0].sparse->0, dev),
                r.images@[0].sparse->0.block_size(),
                dev,
                v,
            ),
        ),
{
    assert(r.images@[0].wf());
    let s = r.images@[0].sparse->0;
    laws::lemma_position(s, disk.len() as int, v);
    let i = v % s.block_size();
    match op.stage {
        WriteStage::EntryFlush(entry) => {
            assert(laws::dyn_byte(s, dev, v) == op.spliced(disk, op.written as int)[v]);
            if v / s.block_size() == op.block(s) {
                assert(dev[op.host + i / 512 / 8] == 0);
                reader::lemma_zero_byte_marks_nothing(i / 512 % 8);
            }
        },
        WriteStage::Publish => {
            assert(laws::dyn_byte(s, dev, v) == op.spliced(disk, op.written as int)[v]
                || laws::dyn_byte(s, dev, v) == op.spliced(disk, op.written + op.chunk(s))[v]);
        },
        WriteStage::PublishFlush => {
            assert(laws::dyn_byte(s, dev, v) == op.spliced(disk, op.written + op.chunk(s))[v]);
        },
        _ => {
            assert(laws::dyn_byte(s, dev, v) == op.spliced(disk, op.written as int)[v]);
        },
    }
}

/// A block that is being allocated shares no byte with a block that the
/// table names.
pub proof fn law_fresh_block_overlaps_nothing(op: WriteOp, r: VhdReader, b: int)
    requires
        op.wf(r),
        op.unpublished(),
        r.images@[0].sparse is Some,
        0 <= b < r.images@[0].sparse->0.bat@.len(),
        r.images@[0].sparse->0.bat@[b] != BAT_UNALLOCATED,
    ensures
        reader::block_host(r.images@[0].sparse->0.bat@[b])
            + r.images@[0].sparse->0.block_total() <= op.host,
{
    assert(r.images@[0].wf());
}

/// The tail only ever moves up.
pub proof fn law_tail_never_retreats(
    op: WriteOp,
    r: VhdReader,
    answer: Seq<u8>,
    op2: WriteOp,
    r2: VhdReader,
)
    requires
        op.wf(r),
        r.images@[0].sparse is Some,
        op2.follows(r2, op, r, answer),
    ensures
        r2.images@[0].sparse is Some,
        r2.images@[0].sparse->0.next_alloc >= r.images@[0].sparse->0.next_alloc,
{
    assert(r.images@[0].wf());
}

/// From the moment the table entry of a fresh block is handed to the
/// device, its range is never handed out again, whatever became of that
/// request: the tail is past it, and blocks are placed at the tail.
pub proof fn law_no_range_is_handed_out_twice(
    op: WriteOp,
    r: VhdReader,
    later: Sparse,
    cursor: int,
)
    requires
        op.wf(r),
        r.images@[0].sparse is Some,
        op.stage is Entry || op.stage is EntryFlush,
        later.next_alloc >= r.images@[0].sparse->0.next_alloc,
        writing::chunk_start(later, cursor).0 is Zeroing,
    ensures
        writing::chunk_start(later, cursor).1 >= op.host
            + r.images@[0].sparse->0.block_total(),
{
}

/// Each step of an allocation is flushed before the next, and so is each
/// block that was written: the table entry is handed to the device behind
/// the flush of the zeroed block, the footer behind the flush of the entry,
/// the block's bitmap is read behind the flush of the footer, and the write
/// is done, or goes on to its next block, behind the flush of the bitmap.
/// Between the caller's bytes and the bitmap that marks them there is no
/// flush.
pub proof fn law_allocation_steps_are_flushed_in_between(
    op: WriteOp,
    r: VhdReader,
    answer: Seq<u8>,
    op2: WriteOp,
    r2: VhdReader,
)
    requires
        op.wf(r),
        op.stage != WriteStage::Done,
        r.images@[0].sparse is Some,
        op2.follows(r2, op, r, answer),
    ensures
        op2.stage is Entry ==> op.stage is ZeroFlush,
        op2.stage is Mirror ==> op.stage is EntryFlush,
        op2.stage is Bitmap ==> op.stage is MirrorFlush || op.stage is PublishFlush,
        op2.stage == WriteStage::Zeroing(0) || op2.stage is Done ==> op.stage is PublishFlush,
        op.stage is ZeroFlush || op.stage is EntryFlush || op.stage is MirrorFlush
            || op.stage is PublishFlush ==> op.pending(r) is Flush,
{
    assert(r.images@[0].wf());
    writing::lemma_span(op, r.images@[0].sparse->0, r.images@[0].size());
}

} // verus!
