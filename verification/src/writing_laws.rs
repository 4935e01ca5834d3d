//! What a write does to the disk that the guest sees.
use crate::device;
use crate::dynamic as dynamic_header;
use crate::dynamic::BAT_UNALLOCATED;
use crate::footer::DiskType;
use crate::format as wire;
use crate::reader;
use crate::reader::{Sparse, VhdReader};
use crate::writing;
use crate::writing::{Pending, WriteOp, WriteStage};
use vstd::prelude::*;

verus! {

/// The byte at `i` of the block whose bitmap starts at `host`: zero where
/// the bitmap does not mark its sector.
pub open spec fn block_byte(dev: Seq<u8>, host: int, bitmap: int, i: int) -> u8 {
    if reader::byte_present(dev, host, i) {
        dev[host + bitmap + i]
    } else {
        0
    }
}

/// The byte at `v` of the dynamic disk whose blocks `table` names.
pub open spec fn table_byte(table: Seq<u32>, block_size: int, dev: Seq<u8>, v: int) -> u8 {
    let entry = table[v / block_size];
    if entry == BAT_UNALLOCATED {
        0
    } else {
        block_byte(
            dev,
            reader::block_host(entry),
            dynamic_header::bitmap_bytes(block_size),
            v % block_size,
        )
    }
}

/// The byte at `v` of a dynamic disk.
pub open spec fn dyn_byte(s: Sparse, dev: Seq<u8>, v: int) -> u8 {
    table_byte(s.bat@, s.block_size(), dev, v)
}

/// The dynamic disk on `dev` holds `disk`.
pub open spec fn shows(s: Sparse, dev: Seq<u8>, disk: Seq<u8>) -> bool {
    forall|v: int| 0 <= v < disk.len() ==> #[trigger] dyn_byte(s, dev, v) == disk[v]
}

/// What a device holds once the request has been carried out.
pub open spec fn performed(dev: Seq<u8>, request: Pending) -> Seq<u8> {
    match request {
        Pending::Write { offset, bytes } => device::written(dev, offset, bytes),
        _ => dev,
    }
}

/// The metadata keeps clear of the blocks: the table ends before the first
/// block and before the tail, and the device reaches up to the tail.
pub open spec fn laid_out(s: Sparse, dev: Seq<u8>) -> bool {
    &&& dev.len() >= s.next_alloc
    &&& s.table_end() <= s.next_alloc
    &&& forall|b: int|
        0 <= b < s.bat@.len() && #[trigger] s.bat@[b] != BAT_UNALLOCATED ==> s.table_end()
            <= reader::block_host(s.bat@[b])
}

/// The bytes `lo..hi` of `dev` are zero.
pub open spec fn zeroed(dev: Seq<u8>, lo: int, hi: int) -> bool {
    &&& dev.len() >= hi
    &&& forall|i: int| lo <= i < hi ==> #[trigger] dev[i] == 0
}

/// The bytes `lo..hi` of the block at `host` are zero wherever the bitmap
/// does not mark their sector.
pub open spec fn defined(dev: Seq<u8>, host: int, bitmap: int, lo: int, hi: int) -> bool {
    forall|i: int|
        lo <= i < hi && !#[trigger] reader::byte_present(dev, host, i) ==> dev[host + bitmap + i] == 0
}

impl WriteOp {
    /// The disk with the first `n` bytes of the payload spliced in.
    pub open spec fn spliced(self, disk: Seq<u8>, n: int) -> Seq<u8> {
        wire::overwrite(disk, self.offset as int, self.payload@.take(n))
    }

    /// The part of the first sector before the chunk reads as it did
    /// before, once its sector is marked.
    pub open spec fn head_defined(self, s: Sparse, dev: Seq<u8>) -> bool {
        defined(dev, self.host as int, s.bitmap(), 512 * self.first(s), self.in_block(s))
    }

    /// Likewise the part of the last sector behind the chunk.
    pub open spec fn tail_defined(self, s: Sparse, dev: Seq<u8>) -> bool {
        defined(
            dev,
            self.host as int,
            s.bitmap(),
            self.in_block(s) + self.chunk(s),
            512 * (self.last(s) + 1),
        )
    }

    /// The chunk is in the block's data area.
    pub open spec fn payload_on(self, s: Sparse, dev: Seq<u8>) -> bool {
        forall|j: int|
            0 <= j < self.chunk(s) ==> #[trigger] dev[self.host + s.bitmap() + self.in_block(s) + j]
                == self.payload@[self.written + j]
    }

    /// The bitmap that was read is the one on the device.
    pub open spec fn bitmap_on(self, s: Sparse, dev: Seq<u8>) -> bool {
        self.bitmap@ == dev.subrange(self.host as int, self.host + s.bitmap())
    }

    /// The device is as this stage leaves it, of a write to a dynamic disk
    /// that held `disk` when the write began.
    pub open spec fn tracks_sparse(self, s: Sparse, dev: Seq<u8>, disk: Seq<u8>) -> bool {
        let host = self.host as int;
        let here = self.spliced(disk, self.written as int);
        let next = self.spliced(disk, self.written + self.chunk(s));
        &&& laid_out(s, dev)
        &&& match self.stage {
            WriteStage::Zeroing(done) => zeroed(dev, host, host + done) && shows(s, dev, here),
            WriteStage::ZeroFlush | WriteStage::Entry(_) | WriteStage::EntryFlush(_) => {
                &&& s.table_end() <= host
                &&& zeroed(dev, host, host + s.block_total())
                &&& shows(s, dev, here)
            },
            WriteStage::Mirror | WriteStage::MirrorFlush | WriteStage::Bitmap => shows(
                s,
                dev,
                here,
            ),
            WriteStage::Head => self.bitmap_on(s, dev) && shows(s, dev, here),
            WriteStage::Tail => {
                &&& self.bitmap_on(s, dev)
                &&& self.head_defined(s, dev)
                &&& shows(s, dev, here)
            },
            WriteStage::Payload => {
                &&& self.bitmap_on(s, dev)
                &&& self.head_defined(s, dev)
                &&& self.tail_defined(s, dev)
                &&& shows(s, dev, here)
            },
            WriteStage::Publish => {
                &&& writing::marks(
                    dev.subrange(host, host + s.bitmap()),
                    self.bitmap@,
                    self.first(s),
                    self.last(s),
                )
                &&& self.head_defined(s, dev)
                &&& self.tail_defined(s, dev)
                &&& self.payload_on(s, dev)
                &&& forall|v: int|
                    0 <= v < disk.len() ==> #[trigger] dyn_byte(s, dev, v) == here[v] || (dyn_byte(
                        s,
                        dev,
                        v,
                    ) == next[v] && self.cursor() <= v < self.cursor() + self.chunk(s))
            },
            WriteStage::PublishFlush => shows(s, dev, next),
            WriteStage::Direct => false,
            WriteStage::Done => shows(s, dev, here),
        }
    }
}

/// `dev2` holds what `dev` holds in every block that the table names.
pub open spec fn blocks_kept(s: Sparse, dev: Seq<u8>, dev2: Seq<u8>) -> bool {
    forall|b: int, j: int|
        0 <= b < s.bat@.len() && #[trigger] s.bat@[b] != BAT_UNALLOCATED && reader::block_host(
            s.bat@[b],
        ) <= j < reader::block_host(s.bat@[b]) + s.block_total() ==> #[trigger] dev2[j] == dev[j]
}

/// Where in its block a byte of the disk falls.
pub proof fn lemma_position(s: Sparse, size: int, v: int)
    requires
        s.wf(size),
        0 <= v < size,
    ensures
        0 <= v / s.block_size() < s.bat@.len(),
        0 <= v % s.block_size() < s.block_size(),
        v == v / s.block_size() * s.block_size() + v % s.block_size(),
        0 <= v % s.block_size() / 512 / 8 < s.bitmap(),
        s.block_size() % 512 == 0,
{
    writing::lemma_cursor_in_table(s, size, v);
    dynamic_header::lemma_block_is_whole_sectors(s.block_size());
}

/// The disk is a function of the blocks' bytes.
pub proof fn lemma_kept_blocks_keep_the_disk(s: Sparse, dev: Seq<u8>, dev2: Seq<u8>, disk: Seq<u8>)
    requires
        s.wf(disk.len() as int),
        blocks_kept(s, dev, dev2),
    ensures
        forall|v: int|
            0 <= v < disk.len() ==> #[trigger] dyn_byte(s, dev2, v) == dyn_byte(s, dev, v),
        shows(s, dev, disk) ==> shows(s, dev2, disk),
{
    assert forall|v: int| 0 <= v < disk.len() implies #[trigger] dyn_byte(s, dev2, v) == dyn_byte(
        s,
        dev,
        v,
    ) by {
        lemma_position(s, disk.len() as int, v);
        let b = v / s.block_size();
        let i = v % s.block_size();
        if s.bat@[b] != BAT_UNALLOCATED {
            let host = reader::block_host(s.bat@[b]);
            assert(dev2[host + i / 512 / 8] == dev[host + i / 512 / 8]);
            assert(dev2[host + s.bitmap() + i] == dev[host + s.bitmap() + i]);
        }
    }
}

/// Everything that a step of a write to a dynamic disk starts from.
spec fn step_starts(
    op: WriteOp,
    s: Sparse,
    dev: Seq<u8>,
    disk: Seq<u8>,
    answer: Seq<u8>,
    op2: WriteOp,
    t: Sparse,
) -> bool {
    &&& s.wf(disk.len() as int)
    &&& op.stage != WriteStage::Done
    &&& op.wf_sparse(s)
    &&& op.offset + op.len() <= disk.len()
    &&& op.tracks_sparse(s, dev, disk)
    &&& writing::sparse_moved(s, t, t.bat@, t.next_alloc as int)
    &&& op2.follows_sparse(op, s, answer, t.bat@, t.next_alloc as int)
}

proof fn lemma_zeroing_step(
    op: WriteOp,
    s: Sparse,
    dev: Seq<u8>,
    disk: Seq<u8>,
    answer: Seq<u8>,
    op2: WriteOp,
    t: Sparse,
    footer: Seq<u8>,
)
    requires
        step_starts(op, s, dev, disk, answer, op2, t),
        op.stage is Zeroing || op.stage is ZeroFlush,
    ensures
        op2.tracks_sparse(t, performed(dev, op.pending_sparse(s, footer)), disk),
{
    let dev2 = performed(dev, op.pending_sparse(s, footer));
    assert(blocks_kept(s, dev, dev2));
    lemma_kept_blocks_keep_the_disk(s, dev, dev2, op.spliced(disk, op.written as int));
    assert forall|v: int| 0 <= v < disk.len() implies #[trigger] dyn_byte(t, dev2, v) == dyn_byte(
        s,
        dev2,
        v,
    ) by {}
}

proof fn lemma_publishing_step(
    op: WriteOp,
    s: Sparse,
    dev: Seq<u8>,
    disk: Seq<u8>,
    answer: Seq<u8>,
    op2: WriteOp,
    t: Sparse,
    footer: Seq<u8>,
)
    requires
        step_starts(op, s, dev, disk, answer, op2, t),
        op.stage is Entry || op.stage is Mirror || op.stage is MirrorFlush,
    ensures
        op2.tracks_sparse(t, performed(dev, op.pending_sparse(s, footer)), disk),
{
    let dev2 = performed(dev, op.pending_sparse(s, footer));
    assert(blocks_kept(s, dev, dev2));
    lemma_kept_blocks_keep_the_disk(s, dev, dev2, op.spliced(disk, op.written as int));
    assert forall|v: int| 0 <= v < disk.len() implies #[trigger] dyn_byte(t, dev2, v) == dyn_byte(
        s,
        dev2,
        v,
    ) by {}
}

/// A fresh block that is all zeros reads as the hole it replaces.
proof fn lemma_entry_step(
    op: WriteOp,
    s: Sparse,
    dev: Seq<u8>,
    disk: Seq<u8>,
    answer: Seq<u8>,
    op2: WriteOp,
    t: Sparse,
)
    requires
        step_starts(op, s, dev, disk, answer, op2, t),
        op.stage is EntryFlush,
    ensures
        op2.tracks_sparse(t, dev, disk),
{
    let here = op.spliced(disk, op.written as int);
    assert forall|v: int| 0 <= v < disk.len() implies #[trigger] dyn_byte(t, dev, v) == here[v] by {
        lemma_position(s, disk.len() as int, v);
        let i = v % s.block_size();
        assert(dyn_byte(s, dev, v) == here[v]);
        if v / s.block_size() == op.block(s) {
            assert(dev[op.host + i / 512 / 8] == 0);
            reader::lemma_zero_byte_marks_nothing(i / 512 % 8);
        }
    }
}

/// A bitmap that was read marks what the device marks.
pub proof fn lemma_bitmap_read(op: WriteOp, s: Sparse, dev: Seq<u8>, i: int)
    requires
        op.bitmap_on(s, dev),
        op.host + s.bitmap() <= dev.len(),
        0 <= i / 512 / 8 < s.bitmap(),
    ensures
        reader::sector_set(op.bitmap@, i / 512) == reader::byte_present(dev, op.host as int, i),
{
}

/// What a sector's bit says of a byte in the gap before the chunk.
proof fn lemma_head_is_defined(op: WriteOp, s: Sparse, dev: Seq<u8>, size: int)
    requires
        s.wf(size),
        op.offset + op.len() <= size,
        op.written < op.len(),
        op.bitmap_on(s, dev),
        op.host + s.block_total() <= dev.len(),
        !op.needs_head(s),
    ensures
        op.head_defined(s, dev),
{
    writing::lemma_span(op, s, size);
    let lo = 512 * op.first(s);
    assert forall|i: int|
        lo <= i < op.in_block(s) && !#[trigger] reader::byte_present(
            dev,
            op.host as int,
            i,
        ) implies dev[op.host + s.bitmap() + i] == 0 by {
        assert(i / 512 == op.first(s));
        lemma_bitmap_read(op, s, dev, i);
    }
}

/// Likewise in the gap behind it.
proof fn lemma_tail_is_defined(op: WriteOp, s: Sparse, dev: Seq<u8>, size: int)
    requires
        s.wf(size),
        op.offset + op.len() <= size,
        op.written < op.len(),
        op.bitmap_on(s, dev),
        op.host + s.block_total() <= dev.len(),
        !op.needs_tail(s),
    ensures
        op.tail_defined(s, dev),
{
    writing::lemma_span(op, s, size);
    let lo = op.in_block(s) + op.chunk(s);
    assert forall|i: int|
        lo <= i < 512 * (op.last(s) + 1) && !#[trigger] reader::byte_present(
            dev,
            op.host as int,
            i,
        ) implies dev[op.host + s.bitmap() + i] == 0 by {
        assert(i / 512 == op.last(s));
        lemma_bitmap_read(op, s, dev, i);
    }
}

proof fn lemma_bitmap_step(
    op: WriteOp,
    s: Sparse,
    dev: Seq<u8>,
    disk: Seq<u8>,
    answer: Seq<u8>,
    op2: WriteOp,
    t: Sparse,
)
    requires
        step_starts(op, s, dev, disk, answer, op2, t),
        op.stage is Bitmap,
        device::answers(dev, op.host as int, s.bitmap(), answer),
    ensures
        op2.tracks_sparse(t, dev, disk),
{
    let size = disk.len() as int;
    writing::lemma_span(op, s, size);
    assert(op.host + s.block_total() <= dev.len());
    assert(op2.bitmap_on(s, dev));
    if !op2.needs_head(s) {
        lemma_head_is_defined(op2, s, dev, size);
        if !op2.needs_tail(s) {
            lemma_tail_is_defined(op2, s, dev, size);
        }
    }
    assert forall|v: int| 0 <= v < disk.len() implies #[trigger] dyn_byte(t, dev, v) == dyn_byte(
        s,
        dev,
        v,
    ) by {}
}

/// Bytes of one block change, and only in sectors that its bitmap does not
/// mark: the disk stays as it was.
pub proof fn lemma_hidden_write(
    s: Sparse,
    dev: Seq<u8>,
    dev2: Seq<u8>,
    disk: Seq<u8>,
    b: int,
    lo: int,
    hi: int,
)
    requires
        s.wf(disk.len() as int),
        0 <= b < s.bat@.len(),
        s.bat@[b] != BAT_UNALLOCATED,
        0 <= lo <= hi <= s.block_size(),
        dev2.len() == dev.len(),
        forall|j: int|
            0 <= j < dev.len() && !(reader::block_host(s.bat@[b]) + s.bitmap() + lo <= j
                < reader::block_host(s.bat@[b]) + s.bitmap() + hi) ==> #[trigger] dev2[j] == dev[j],
        reader::block_host(s.bat@[b]) + s.block_total() <= dev.len(),
        laid_out(s, dev),
        forall|i: int|
            lo <= i < hi ==> !#[trigger] reader::byte_present(
                dev,
                reader::block_host(s.bat@[b]),
                i,
            ),
    ensures
        forall|v: int|
            0 <= v < disk.len() ==> #[trigger] dyn_byte(s, dev2, v) == dyn_byte(s, dev, v),
        forall|i: int|
            0 <= i < s.block_size() ==> #[trigger] reader::byte_present(
                dev2,
                reader::block_host(s.bat@[b]),
                i,
            ) == reader::byte_present(dev, reader::block_host(s.bat@[b]), i),
{
    let host = reader::block_host(s.bat@[b]);
    dynamic_header::lemma_block_is_whole_sectors(s.block_size());
    assert forall|i: int| 0 <= i < s.block_size() implies #[trigger] reader::byte_present(
        dev2,
        host,
        i,
    ) == reader::byte_present(dev, host, i) by {
        assert(dev2[host + i / 512 / 8] == dev[host + i / 512 / 8]);
    }
    assert forall|v: int| 0 <= v < disk.len() implies #[trigger] dyn_byte(s, dev2, v) == dyn_byte(
        s,
        dev,
        v,
    ) by {
        lemma_position(s, disk.len() as int, v);
        let c = v / s.block_size();
        let i = v % s.block_size();
        if c == b {
            assert(reader::byte_present(dev2, host, i) == reader::byte_present(dev, host, i));
            if !(lo <= i < hi) {
                assert(dev2[host + s.bitmap() + i] == dev[host + s.bitmap() + i]);
            }
        } else if s.bat@[c] != BAT_UNALLOCATED {
            let other = reader::block_host(s.bat@[c]);
            assert(!reader::blocks_overlap(s.bat@[b], s.bat@[c], s.block_total()));
            assert(dev2[other + i / 512 / 8] == dev[other + i / 512 / 8]);
            assert(dev2[other + s.bitmap() + i] == dev[other + s.bitmap() + i]);
        }
    }
}

#[verifier::rlimit(50)]
proof fn lemma_head_step(
    op: WriteOp,
    s: Sparse,
    dev: Seq<u8>,
    disk: Seq<u8>,
    answer: Seq<u8>,
    op2: WriteOp,
    t: Sparse,
    footer: Seq<u8>,
)
    requires
        step_starts(op, s, dev, disk, answer, op2, t),
        op.stage is Head,
        op.needs_head(s),
    ensures
        op2.tracks_sparse(t, performed(dev, op.pending_sparse(s, footer)), disk),
{
    let size = disk.len() as int;
    let dev2 = performed(dev, op.pending_sparse(s, footer));
    let host = op.host as int;
    let lo = 512 * op.first(s);
    let hi = op.in_block(s);
    writing::lemma_span(op, s, size);
    assert(host + s.block_total() <= dev.len());
    assert forall|i: int| lo <= i < hi implies !#[trigger] reader::byte_present(dev, host, i) by {
        assert(i / 512 == op.first(s));
        lemma_bitmap_read(op, s, dev, i);
    }
    lemma_hidden_write(s, dev, dev2, disk, op.block(s), lo, hi);
    assert(op2.bitmap@ =~= dev2.subrange(host, host + s.bitmap()));
    assert(op2.bitmap_on(s, dev2));
    assert(op2.head_defined(s, dev2));
    if !op2.needs_tail(s) {
        lemma_tail_is_defined(op2, s, dev2, size);
    }
    assert forall|v: int| 0 <= v < disk.len() implies #[trigger] dyn_byte(t, dev2, v) == dyn_byte(
        s,
        dev2,
        v,
    ) by {}
}

#[verifier::rlimit(50)]
proof fn lemma_tail_step(
    op: WriteOp,
    s: Sparse,
    dev: Seq<u8>,
    disk: Seq<u8>,
    answer: Seq<u8>,
    op2: WriteOp,
    t: Sparse,
    footer: Seq<u8>,
)
    requires
        step_starts(op, s, dev, disk, answer, op2, t),
        op.stage is Tail,
        op.needs_tail(s),
    ensures
        op2.tracks_sparse(t, performed(dev, op.pending_sparse(s, footer)), disk),
{
    let size = disk.len() as int;
    let dev2 = performed(dev, op.pending_sparse(s, footer));
    let host = op.host as int;
    let lo = op.in_block(s) + op.chunk(s);
    let hi = 512 * (op.last(s) + 1);
    writing::lemma_span(op, s, size);
    assert(host + s.block_total() <= dev.len());
    assert forall|i: int| lo <= i < hi implies !#[trigger] reader::byte_present(dev, host, i) by {
        assert(i / 512 == op.last(s));
        lemma_bitmap_read(op, s, dev, i);
    }
    lemma_hidden_write(s, dev, dev2, disk, op.block(s), lo, hi);
    assert(op2.bitmap@ =~= dev2.subrange(host, host + s.bitmap()));
    assert(op2.bitmap_on(s, dev2));
    assert(op2.tail_defined(s, dev2));
    assert(op2.head_defined(s, dev2)) by {
        assert forall|i: int|
            512 * op.first(s) <= i < op.in_block(s) && !#[trigger] reader::byte_present(
                dev2,
                host,
                i,
            ) implies dev2[host + s.bitmap() + i] == 0 by {
            assert(!reader::byte_present(dev, host, i));
        }
    }
    assert forall|v: int| 0 <= v < disk.len() implies #[trigger] dyn_byte(t, dev2, v) == dyn_byte(
        s,
        dev2,
        v,
    ) by {}
}

/// A write into one block leaves every byte of the disk outside that block
/// alone.
pub proof fn lemma_other_blocks_keep(
    s: Sparse,
    dev: Seq<u8>,
    dev2: Seq<u8>,
    size: int,
    b: int,
    v: int,
)
    requires
        s.wf(size),
        0 <= b < s.bat@.len(),
        s.bat@[b] != BAT_UNALLOCATED,
        laid_out(s, dev),
        dev2.len() == dev.len(),
        forall|j: int|
            0 <= j < dev.len() && !(reader::block_host(s.bat@[b]) <= j < reader::block_host(
                s.bat@[b],
            ) + s.block_total()) ==> #[trigger] dev2[j] == dev[j],
        0 <= v < size,
        v / s.block_size() != b,
    ensures
        dyn_byte(s, dev2, v) == dyn_byte(s, dev, v),
{
    lemma_position(s, size, v);
    let c = v / s.block_size();
    let i = v % s.block_size();
    if s.bat@[c] != BAT_UNALLOCATED {
        let other = reader::block_host(s.bat@[c]);
        assert(!reader::blocks_overlap(s.bat@[b], s.bat@[c], s.block_total()));
        assert(dev2[other + i / 512 / 8] == dev[other + i / 512 / 8]);
        assert(dev2[other + s.bitmap() + i] == dev[other + s.bitmap() + i]);
    }
}

/// A byte of the chunk lies in the chunk's block.
proof fn lemma_chunk_in_block(op: WriteOp, s: Sparse, size: int, v: int)
    requires
        s.wf(size),
        op.offset + op.len() <= size,
        op.written < op.len(),
        op.cursor() <= v < op.cursor() + op.chunk(s),
    ensures
        v / s.block_size() == op.block(s),
        v % s.block_size() == op.in_block(s) + (v - op.cursor()),
{
    writing::lemma_span(op, s, size);
    vstd::arithmetic::div_mod::lemma_fundamental_div_mod_converse(
        v,
        s.block_size(),
        op.block(s),
        op.in_block(s) + (v - op.cursor()),
    );
}

proof fn lemma_payload_step(
    op: WriteOp,
    s: Sparse,
    dev: Seq<u8>,
    disk: Seq<u8>,
    answer: Seq<u8>,
    op2: WriteOp,
    t: Sparse,
    footer: Seq<u8>,
)
    requires
        step_starts(op, s, dev, disk, answer, op2, t),
        op.stage is Payload,
    ensures
        op2.tracks_sparse(t, performed(dev, op.pending_sparse(s, footer)), disk),
{
    let size = disk.len() as int;
    let dev2 = performed(dev, op.pending_sparse(s, footer));
    let host = op.host as int;
    let bitmap = s.bitmap();
    let b = op.block(s);
    writing::lemma_span(op, s, size);
    assert(host + s.block_total() <= dev.len());
    assert(dev2.subrange(host, host + bitmap) =~= dev.subrange(host, host + bitmap));
    assert forall|i: int| 0 <= i < s.block_size() implies #[trigger] reader::byte_present(
        dev2,
        host,
        i,
    ) == reader::byte_present(dev, host, i) by {
        assert(dev2[host + i / 512 / 8] == dev[host + i / 512 / 8]);
    }
    assert(op2.head_defined(s, dev2)) by {
        assert forall|i: int|
            512 * op.first(s) <= i < op.in_block(s) && !#[trigger] reader::byte_present(
                dev2,
                host,
                i,
            ) implies dev2[host + bitmap + i] == 0 by {
            assert(!reader::byte_present(dev, host, i));
        }
    }
    assert(op2.tail_defined(s, dev2)) by {
        assert forall|i: int|
            op.in_block(s) + op.chunk(s) <= i < 512 * (op.last(s) + 1)
                && !#[trigger] reader::byte_present(dev2, host, i) implies dev2[host + bitmap + i]
            == 0 by {
            assert(!reader::byte_present(dev, host, i));
        }
    }
    assert(op2.payload_on(s, dev2));
    let here = op.spliced(disk, op.written as int);
    let next = op.spliced(disk, op.written + op.chunk(s));
    assert forall|v: int| 0 <= v < disk.len() implies #[trigger] dyn_byte(t, dev2, v) == here[v]
        || (dyn_byte(t, dev2, v) == next[v] && op.cursor() <= v < op.cursor() + op.chunk(s)) by {
        lemma_position(s, size, v);
        assert(dyn_byte(s, dev, v) == here[v]);
        assert(dyn_byte(t, dev2, v) == dyn_byte(s, dev2, v));
        let i = v % s.block_size();
        if v / s.block_size() == b {
            assert(reader::byte_present(dev2, host, i) == reader::byte_present(dev, host, i));
            if op.in_block(s) <= i < op.in_block(s) + op.chunk(s) {
                assert(v - op.cursor() == i - op.in_block(s));
                assert(dev2[host + bitmap + i] == op.payload@[v - op.offset]);
            } else {
                assert(dev2[host + bitmap + i] == dev[host + bitmap + i]);
            }
        } else {
            lemma_other_blocks_keep(s, dev, dev2, size, b, v);
        }
    }
}

proof fn lemma_publish_step(
    op: WriteOp,
    s: Sparse,
    dev: Seq<u8>,
    disk: Seq<u8>,
    answer: Seq<u8>,
    op2: WriteOp,
    t: Sparse,
    footer: Seq<u8>,
)
    requires
        step_starts(op, s, dev, disk, answer, op2, t),
        op.stage is Publish,
    ensures
        op2.tracks_sparse(t, performed(dev, op.pending_sparse(s, footer)), disk),
{
    let size = disk.len() as int;
    let dev2 = performed(dev, op.pending_sparse(s, footer));
    let host = op.host as int;
    let bitmap = s.bitmap();
    let b = op.block(s);
    writing::lemma_span(op, s, size);
    assert(host + s.block_total() <= dev.len());
    let before = dev.subrange(host, host + bitmap);
    let here = op.spliced(disk, op.written as int);
    let next = op.spliced(disk, op.written + op.chunk(s));
    assert forall|v: int| 0 <= v < disk.len() implies #[trigger] dyn_byte(t, dev2, v) == next[v] by {
        lemma_position(s, size, v);
        assert(dyn_byte(t, dev2, v) == dyn_byte(s, dev2, v));
        assert(dyn_byte(s, dev, v) == here[v] || (dyn_byte(s, dev, v) == next[v] && op.cursor() <= v
            < op.cursor() + op.chunk(s)));
        let i = v % s.block_size();
        let sector = i / 512;
        if v / s.block_size() == b {
            assert(dev2[host + sector / 8] == op.bitmap@[sector / 8]);
            assert(before[sector / 8] == dev[host + sector / 8]);
            assert(reader::sector_set(op.bitmap@, sector) <==> op.first(s) <= sector <= op.last(s)
                || reader::sector_set(before, sector));
            assert(reader::byte_present(dev2, host, i) == reader::sector_set(op.bitmap@, sector));
            assert(reader::byte_present(dev, host, i) == reader::sector_set(before, sector));
            assert(dev2[host + bitmap + i] == dev[host + bitmap + i]);
            if op.in_block(s) <= i < op.in_block(s) + op.chunk(s) {
                let j = i - op.in_block(s);
                assert(dev[host + bitmap + op.in_block(s) + j] == op.payload@[op.written + j]);
                assert(v - op.cursor() == j);
            } else {
                assert(dyn_byte(s, dev, v) == here[v]);
                assert(here[v] == next[v]);
            }
        } else {
            lemma_other_blocks_keep(s, dev, dev2, size, b, v);
            if op.cursor() <= v < op.cursor() + op.chunk(s) {
                lemma_chunk_in_block(op, s, size, v);
            }
            assert(here[v] == next[v]);
        }
    }
}

proof fn lemma_chunk_step(
    op: WriteOp,
    s: Sparse,
    dev: Seq<u8>,
    disk: Seq<u8>,
    answer: Seq<u8>,
    op2: WriteOp,
    t: Sparse,
)
    requires
        step_starts(op, s, dev, disk, answer, op2, t),
        op.stage is PublishFlush,
    ensures
        op2.tracks_sparse(t, dev, disk),
{
    assert forall|v: int| 0 <= v < disk.len() implies #[trigger] dyn_byte(t, dev, v) == dyn_byte(
        s,
        dev,
        v,
    ) by {}
}

proof fn lemma_step_sparse(
    op: WriteOp,
    s: Sparse,
    dev: Seq<u8>,
    disk: Seq<u8>,
    answer: Seq<u8>,
    op2: WriteOp,
    t: Sparse,
    footer: Seq<u8>,
)
    requires
        step_starts(op, s, dev, disk, answer, op2, t),
        op.stage is Bitmap ==> device::answers(dev, op.host as int, s.bitmap(), answer),
    ensures
        op2.tracks_sparse(t, performed(dev, op.pending_sparse(s, footer)), disk),
{
    match op.stage {
        WriteStage::Zeroing(_) | WriteStage::ZeroFlush => {
            lemma_zeroing_step(op, s, dev, disk, answer, op2, t, footer);
        },
        WriteStage::Entry(_) | WriteStage::Mirror | WriteStage::MirrorFlush => {
            lemma_publishing_step(op, s, dev, disk, answer, op2, t, footer);
        },
        WriteStage::EntryFlush(_) => {
            lemma_entry_step(op, s, dev, disk, answer, op2, t);
        },
        WriteStage::Bitmap => {
            lemma_bitmap_step(op, s, dev, disk, answer, op2, t);
        },
        WriteStage::Head => {
            lemma_head_step(op, s, dev, disk, answer, op2, t, footer);
        },
        WriteStage::Tail => {
            lemma_tail_step(op, s, dev, disk, answer, op2, t, footer);
        },
        WriteStage::Payload => {
            lemma_payload_step(op, s, dev, disk, answer, op2, t, footer);
        },
        WriteStage::Publish => {
            lemma_publish_step(op, s, dev, disk, answer, op2, t, footer);
        },
        _ => {
            lemma_chunk_step(op, s, dev, disk, answer, op2, t);
        },
    }
}

/// What the guest sees of a dynamic disk.
pub proof fn lemma_guest_of_dynamic(r: VhdReader, dev: Seq<u8>)
    requires
        r.wf(),
        r.images@[0].footer.disk_type == DiskType::Dynamic,
    ensures
        r.images@[0].sparse is Some,
        r.guest(seq![dev]).len() == r.images@[0].size(),
        forall|v: int|
            0 <= v < r.images@[0].size() ==> #[trigger] r.guest(seq![dev])[v] == dyn_byte(
                r.images@[0].sparse->0,
                dev,
                v,
            ),
{
    reveal_with_fuel(reader::guest_byte, 2);
    assert(r.images@[0].wf());
}

/// What the guest sees of a fixed disk.
pub proof fn lemma_guest_of_fixed(r: VhdReader, dev: Seq<u8>)
    requires
        r.wf(),
        r.images@[0].footer.disk_type == DiskType::Fixed,
    ensures
        r.images@[0].sparse is None,
        r.guest(seq![dev]).len() == r.images@[0].size(),
        forall|v: int|
            0 <= v < r.images@[0].size() ==> #[trigger] r.guest(seq![dev])[v] == dev[v],
{
    assert(r.images@[0].wf());
}

/// The device can take writes through this reader: a fixed disk lies on
/// the device as a whole; of a dynamic one the metadata keeps clear of the
/// blocks.
pub open spec fn ready(r: VhdReader, dev: Seq<u8>) -> bool {
    match r.images@[0].sparse {
        Some(s) => laid_out(s, dev),
        None => dev.len() >= r.images@[0].size(),
    }
}

impl WriteOp {
    /// The device is as this stage leaves it, of a write to a disk that
    /// held `disk` when the write began.
    pub open spec fn tracks(self, r: VhdReader, dev: Seq<u8>, disk: Seq<u8>) -> bool {
        &&& disk.len() == r.images@[0].size()
        &&& ready(r, dev)
        &&& match r.images@[0].sparse {
            Some(s) => self.tracks_sparse(s, dev, disk),
            None => {
                let now = if self.stage == WriteStage::Done {
                    wire::overwrite(disk, self.offset as int, self.payload@)
                } else {
                    disk
                };
                forall|v: int| 0 <= v < disk.len() ==> #[trigger] dev[v] == now[v]
            },
        }
    }
}

/// A write starts out from the disk that the guest sees.
pub proof fn law_write_begins(
    op: WriteOp,
    r: VhdReader,
    dev: Seq<u8>,
    offset: int,
    payload: Seq<u8>,
)
    requires
        r.wf(),
        writing::write_refusal(r, offset, payload.len() as int) is None,
        writing::begins(op, r, offset, payload),
        ready(r, dev),
    ensures
        op.tracks(r, dev, r.guest(seq![dev])),
{
    let disk = r.guest(seq![dev]);
    assert(r.images@[0].wf());
    match r.images@[0].sparse {
        Some(s) => {
            lemma_guest_of_dynamic(r, dev);
            assert forall|v: int| 0 <= v < disk.len() implies #[trigger] dyn_byte(s, dev, v)
                == op.spliced(disk, 0)[v] by {
                assert(disk[v] == dyn_byte(s, dev, v));
            }
        },
        None => {
            lemma_guest_of_fixed(r, dev);
            assert forall|v: int| 0 <= v < disk.len() implies #[trigger] dev[v] == disk[v] by {
                assert(disk[v] == r.guest(seq![dev])[v]);
            }
        },
    }
}

/// Every step keeps track: once the pending request has been carried out
/// on the device, the device is as the next stage has it.
pub proof fn law_write_step_keeps_track(
    op: WriteOp,
    r: VhdReader,
    dev: Seq<u8>,
    disk: Seq<u8>,
    answer: Seq<u8>,
    op2: WriteOp,
    r2: VhdReader,
)
    requires
        op.wf(r),
        op.stage != WriteStage::Done,
        op.tracks(r, dev, disk),
        op.pending(r) matches Pending::Read { offset, len } ==> device::answers(
            dev,
            offset,
            len,
            answer,
        ),
        op2.follows(r2, op, r, answer),
    ensures
        op2.tracks(r2, performed(dev, op.pending(r)), disk),
{
    assert(r.images@[0].wf());
    match r.images@[0].sparse {
        Some(s) => {
            let t = r2.images@[0].sparse->0;
            lemma_step_sparse(op, s, dev, disk, answer, op2, t, r.images@[0].footer_bytes@);
        },
        None => {},
    }
}

/// A write that is done has spliced its payload into the disk, and has
/// changed no other byte of it.
pub proof fn law_write_done(op: WriteOp, r: VhdReader, dev: Seq<u8>, disk: Seq<u8>)
    requires
        op.wf(r),
        op.stage == WriteStage::Done,
        op.tracks(r, dev, disk),
    ensures
        r.guest(seq![dev]) == wire::overwrite(disk, op.offset as int, op.payload@),
{
    assert(r.images@[0].wf());
    let now = wire::overwrite(disk, op.offset as int, op.payload@);
    match r.images@[0].sparse {
        Some(s) => {
            lemma_guest_of_dynamic(r, dev);
            assert(op.payload@.take(op.len()) =~= op.payload@);
            assert forall|v: int| 0 <= v < now.len() implies r.guest(seq![dev])[v] == now[v] by {
                assert(dyn_byte(s, dev, v) == now[v]);
            }
        },
        None => {
            lemma_guest_of_fixed(r, dev);
        },
    }
    assert(r.guest(seq![dev]) =~= now);
}

/// A run of a write: in state `i` the write is `ops[i]`, the reader
/// `readers[i]` and the device `devs[i]`; each state is the one before it
/// with its pending request carried out, and answered by `replies[i]`.
pub open spec fn write_run(
    ops: Seq<WriteOp>,
    readers: Seq<VhdReader>,
    devs: Seq<Seq<u8>>,
    replies: Seq<Seq<u8>>,
) -> bool {
    &&& 0 < ops.len() == readers.len() == devs.len() == replies.len()
    &&& forall|i: int| 0 <= i < ops.len() ==> (#[trigger] ops[i]).wf(readers[i])
    &&& forall|i: int|
        0 <= i < ops.len() - 1 ==> {
            &&& (#[trigger] ops[i]).stage != WriteStage::Done
            &&& ops[i].pending(readers[i]) matches Pending::Read { offset, len }
                ==> device::answers(devs[i], offset, len, replies[i])
            &&& ops[i + 1].follows(readers[i + 1], ops[i], readers[i], replies[i])
            &&& devs[i + 1] == performed(devs[i], ops[i].pending(readers[i]))
        }
}

proof fn lemma_run_tracks(
    ops: Seq<WriteOp>,
    readers: Seq<VhdReader>,
    devs: Seq<Seq<u8>>,
    replies: Seq<Seq<u8>>,
    disk: Seq<u8>,
    n: int,
)
    requires
        write_run(ops, readers, devs, replies),
        0 <= n < ops.len(),
        ops[0].tracks(readers[0], devs[0], disk),
    ensures
        ops[n].tracks(readers[n], devs[n], disk),
        ops[n].offset == ops[0].offset,
        ops[n].payload@ == ops[0].payload@,
    decreases n,
{
    if n > 0 {
        lemma_run_tracks(ops, readers, devs, replies, disk, n - 1);
        assert(ops[n - 1].wf(readers[n - 1]));
        law_write_step_keeps_track(
            ops[n - 1],
            readers[n - 1],
            devs[n - 1],
            disk,
            replies[n - 1],
            ops[n],
            readers[n],
        );
    }
}

/// What a write that was run to its end leaves behind: the disk that the
/// guest saw before, with the payload at its offset and every other byte
/// as it was.
pub proof fn law_finished_write_is_spliced_in(
    ops: Seq<WriteOp>,
    readers: Seq<VhdReader>,
    devs: Seq<Seq<u8>>,
    replies: Seq<Seq<u8>>,
    offset: int,
    payload: Seq<u8>,
)
    requires
        write_run(ops, readers, devs, replies),
        writing::write_refusal(readers[0], offset, payload.len() as int) is None,
        writing::begins(ops[0], readers[0], offset, payload),
        ready(readers[0], devs[0]),
        ops.last().stage == WriteStage::Done,
    ensures
        readers.last().guest(seq![devs.last()]) == wire::overwrite(
            readers[0].guest(seq![devs[0]]),
            offset,
            payload,
        ),
        ready(readers.last(), devs.last()),
{
    let n = ops.len() - 1;
    assert(ops[0].wf(readers[0]));
    law_write_begins(ops[0], readers[0], devs[0], offset, payload);
    lemma_run_tracks(ops, readers, devs, replies, readers[0].guest(seq![devs[0]]), n);
    law_write_done(ops[n], readers[n], devs[n], readers[0].guest(seq![devs[0]]));
}

/// Writes to ranges that do not overlap leave the same disk in whichever
/// order they are carried out: neither is lost.
pub proof fn law_disjoint_writes_both_survive(
    disk: Seq<u8>,
    offset1: int,
    payload1: Seq<u8>,
    offset2: int,
    payload2: Seq<u8>,
)
    requires
        0 <= offset1,
        offset1 + payload1.len() <= disk.len(),
        0 <= offset2,
        offset2 + payload2.len() <= disk.len(),
        offset1 + payload1.len() <= offset2 || offset2 + payload2.len() <= offset1,
    ensures
        ({
            let both = wire::overwrite(
                wire::overwrite(disk, offset1, payload1),
                offset2,
                payload2,
            );
            &&& both == wire::overwrite(
                wire::overwrite(disk, offset2, payload2),
                offset1,
                payload1,
            )
            &&& both.subrange(offset1, offset1 + payload1.len()) == payload1
            &&& both.subrange(offset2, offset2 + payload2.len()) == payload2
        }),
{
    let both = wire::overwrite(wire::overwrite(disk, offset1, payload1), offset2, payload2);
    assert(both =~= wire::overwrite(wire::overwrite(disk, offset2, payload2), offset1, payload1));
    assert(both.subrange(offset1, offset1 + payload1.len()) =~= payload1);
    assert(both.subrange(offset2, offset2 + payload2.len()) =~= payload2);
}

} // verus!
