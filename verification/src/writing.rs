//! Writing: the order of device requests that splices bytes into a disk.
//!
//! For each block in the affected range of a dynamic disk:
//!   - If the BAT entry is unallocated, allocate a fresh block at the file
//!     tail (bitmap precedes data): zero it, flush, publish its BAT entry,
//!     flush, put the footer behind it, flush.
//!   - Give the untouched parts of a partly-written sector the contents a
//!     reader sees there today, so that setting the sector's bitmap bit
//!     does not publish bytes the caller never wrote.
//!   - Splice the caller's bytes into the block, then mark the touched
//!     sectors in the bitmap, and flush.
//!
//! The tail is *read* before a block is zeroed and *advanced* between that
//! and the write of its BAT entry. Fail before, and nothing references the
//! zeroed range: the next allocation reuses it. Fail after, and the entry
//! may be on the device whatever the call returned: the range is treated as
//! live and never handed out again.
use crate::device;
use crate::device::zero_bytes;
use crate::disk_laws;
use crate::dynamic::BAT_UNALLOCATED;
use crate::error::{Error, Result};
use crate::footer::{DiskType, FOOTER_SIZE};
use crate::format as wire;
use crate::format::{be_bytes_u32, copy_bytes, SECTOR_SIZE};
use crate::reader;
use crate::reader::{bat_entry_for, Image, Sparse, VhdReader};
use vstd::prelude::*;

verus! {

/// A fresh block is zeroed in pieces of at most this many bytes, so that a
/// pathological block size costs time rather than memory.
pub const ZERO_CHUNK: u64 = 1_048_576;

/// Where a write stands: what the next request is for.
#[derive(Debug, Clone, Copy, PartialEq, Eq, Structural)]
pub enum WriteStage {
    /// Zero the fresh block; this many bytes of it are done.
    Zeroing(u64),
    ZeroFlush,
    /// Publish the fresh block in the table on the device.
    Entry(u32),
    EntryFlush(u32),
    /// Put the footer behind the fresh block.
    Mirror,
    MirrorFlush,
    /// Read the block's sector bitmap.
    Bitmap,
    /// Define the part of the first sector before the caller's bytes.
    Head,
    /// Define the part of the last sector behind the caller's bytes.
    Tail,
    Payload,
    /// Write the bitmap with the touched sectors marked.
    Publish,
    PublishFlush,
    /// Fixed disks: the one write.
    Direct,
    Done,
}

/// What the device is asked to do next.
#[derive(Debug)]
pub enum WriteRequest {
    Read { offset: u64, len: usize },
    Write { offset: u64, bytes: Vec<u8> },
    Flush,
    Done,
}

/// A [`WriteRequest`] as a mathematical value.
pub enum Pending {
    Read { offset: int, len: int },
    Write { offset: int, bytes: Seq<u8> },
    Flush,
    Nothing,
}

impl View for WriteRequest {
    type V = Pending;

    open spec fn view(&self) -> Pending {
        match self {
            WriteRequest::Read { offset, len } => Pending::Read {
                offset: *offset as int,
                len: *len as int,
            },
            WriteRequest::Write { offset, bytes } => Pending::Write {
                offset: *offset as int,
                bytes: bytes@,
            },
            WriteRequest::Flush => Pending::Flush,
            WriteRequest::Done => Pending::Nothing,
        }
    }
}

/// A write in progress.
#[derive(Debug)]
pub struct WriteOp {
    pub offset: u64,
    pub payload: Vec<u8>,
    /// How much of the payload is on the disk for good.
    pub written: usize,
    pub stage: WriteStage,
    /// Host offset of the block being written.
    pub host: u64,
    /// That block's sector bitmap, once it has been read.
    pub bitmap: Vec<u8>,
}

/// The first sector that the bytes from `i` on touch, and the last one
/// that `n` bytes from there touch.
pub open spec fn first_sector(i: int) -> int {
    i / 512
}

pub open spec fn last_sector(i: int, n: int) -> int {
    (i + n - 1) / 512
}

impl WriteOp {
    pub open spec fn len(self) -> int {
        self.payload@.len() as int
    }

    /// The virtual offset of the next byte to write.
    pub open spec fn cursor(self) -> int {
        self.offset + self.written
    }

    /// The virtual block that the next byte falls into.
    pub open spec fn block(self, s: Sparse) -> int {
        self.cursor() / s.block_size()
    }

    /// Where in that block it falls.
    pub open spec fn in_block(self, s: Sparse) -> int {
        self.cursor() % s.block_size()
    }

    /// How many bytes go into that block.
    pub open spec fn chunk(self, s: Sparse) -> int {
        let room = s.block_size() - self.in_block(s);
        let left = self.len() - self.written;
        if room < left { room } else { left }
    }

    pub open spec fn first(self, s: Sparse) -> int {
        first_sector(self.in_block(s))
    }

    pub open spec fn last(self, s: Sparse) -> int {
        last_sector(self.in_block(s), self.chunk(s))
    }

    /// The part of the first sector before the caller's bytes would be
    /// published without ever having been written.
    pub open spec fn needs_head(self, s: Sparse) -> bool {
        self.in_block(s) % 512 != 0 && !reader::sector_set(self.bitmap@, self.first(s))
    }

    /// Likewise for the part of the last sector behind them.
    pub open spec fn needs_tail(self, s: Sparse) -> bool {
        (self.in_block(s) + self.chunk(s)) % 512 != 0 && !reader::sector_set(
            self.bitmap@,
            self.last(s),
        )
    }

    /// The next piece of the fresh block to zero.
    pub open spec fn zero_piece(self, s: Sparse, done: int) -> int {
        let left = s.block_total() - done;
        if left < ZERO_CHUNK { left } else { ZERO_CHUNK as int }
    }

    /// What the device has to do at this stage, for a dynamic image whose
    /// sparse part is `s` and whose footer bytes are `footer`.
    pub open spec fn pending_sparse(self, s: Sparse, footer: Seq<u8>) -> Pending {
        let data = self.host + s.bitmap();
        let start = data + self.in_block(s);
        match self.stage {
            WriteStage::Zeroing(done) => Pending::Write {
                offset: self.host + done,
                bytes: device::zeros(self.zero_piece(s, done as int)),
            },
            WriteStage::Entry(entry) => Pending::Write {
                offset: s.header.table_offset + 4 * self.block(s),
                bytes: wire::be32_bytes(entry as int),
            },
            WriteStage::Mirror => Pending::Write {
                offset: self.host + s.block_total(),
                bytes: footer,
            },
            WriteStage::Bitmap => Pending::Read { offset: self.host as int, len: s.bitmap() },
            WriteStage::Head => Pending::Write {
                offset: data + 512 * self.first(s),
                bytes: device::zeros(self.in_block(s) % 512),
            },
            WriteStage::Tail => Pending::Write {
                offset: start + self.chunk(s),
                bytes: device::zeros(512 - (self.in_block(s) + self.chunk(s)) % 512),
            },
            WriteStage::Payload => Pending::Write {
                offset: start,
                bytes: self.payload@.subrange(
                    self.written as int,
                    self.written + self.chunk(s),
                ),
            },
            WriteStage::Publish => Pending::Write {
                offset: self.host as int,
                bytes: self.bitmap@,
            },
            WriteStage::Done => Pending::Nothing,
            _ => Pending::Flush,
        }
    }

    /// What the device has to do next.
    pub open spec fn pending(self, r: VhdReader) -> Pending {
        match r.images@[0].sparse {
            Some(s) => self.pending_sparse(s, r.images@[0].footer_bytes@),
            None => match self.stage {
                WriteStage::Direct => Pending::Write {
                    offset: self.offset as int,
                    bytes: self.payload@,
                },
                _ => Pending::Nothing,
            },
        }
    }

    /// A block is being allocated and not in the table yet.
    pub open spec fn unpublished(self) -> bool {
        match self.stage {
            WriteStage::Zeroing(_)
            | WriteStage::ZeroFlush
            | WriteStage::Entry(_)
            | WriteStage::EntryFlush(_) => true,
            _ => false,
        }
    }

    /// The stages that hold the block's bitmap.
    pub open spec fn holds_bitmap(self) -> bool {
        match self.stage {
            WriteStage::Head
            | WriteStage::Tail
            | WriteStage::Payload
            | WriteStage::Publish
            | WriteStage::PublishFlush => true,
            _ => false,
        }
    }

    /// The state is one that a write to a dynamic image passes through.
    pub open spec fn wf_sparse(self, s: Sparse) -> bool {
        &&& self.stage != WriteStage::Direct
        &&& self.written < self.len()
        &&& 0 <= self.block(s) < s.bat@.len()
        &&& self.host + s.block_total() + 512 <= u64::MAX
        &&& if self.unpublished() {
            s.bat@[self.block(s)] == BAT_UNALLOCATED
        } else {
            &&& s.bat@[self.block(s)] != BAT_UNALLOCATED
            &&& self.host == reader::block_host(s.bat@[self.block(s)])
        }
        &&& match self.stage {
            WriteStage::Zeroing(done) => self.host == s.next_alloc && done < s.block_total(),
            WriteStage::ZeroFlush => self.host == s.next_alloc,
            WriteStage::Entry(entry) | WriteStage::EntryFlush(entry) => {
                &&& entry != BAT_UNALLOCATED
                &&& self.host == reader::block_host(entry)
                &&& s.next_alloc == self.host + s.block_total()
                &&& s.tail_clear_of(self.host as int)
            },
            WriteStage::Mirror | WriteStage::MirrorFlush => s.next_alloc == self.host
                + s.block_total(),
            WriteStage::Head => self.needs_head(s),
            WriteStage::Tail => self.needs_tail(s),
            _ => true,
        }
        &&& self.holds_bitmap() ==> self.bitmap@.len() == s.bitmap()
    }

    /// The state is one that a write through `r` passes through.
    pub open spec fn wf(self, r: VhdReader) -> bool {
        &&& r.wf()
        &&& r.takes_writes()
        &&& self.len() > 0 ==> self.offset + self.len() <= r.images@[0].size()
        &&& self.stage == WriteStage::Done ==> self.written == self.len()
        &&& self.stage != WriteStage::Done ==> match r.images@[0].sparse {
            Some(s) => self.wf_sparse(s),
            None => self.stage == WriteStage::Direct && self.written == 0 && self.len() > 0,
        }
    }
}

impl Sparse {
    /// Every block that the table names ends at or before `host`.
    pub open spec fn tail_clear_of(self, host: int) -> bool {
        forall|b: int|
            0 <= b < self.bat@.len() && #[trigger] self.bat@[b] != BAT_UNALLOCATED
                ==> reader::block_host(self.bat@[b]) + self.block_total() <= host
    }
}

/// `t` is `s` but for the cached table and the tail.
pub open spec fn sparse_moved(s: Sparse, t: Sparse, bat: Seq<u32>, next_alloc: int) -> bool {
    &&& t.header == s.header
    &&& t.bitmap_size == s.bitmap_size
    &&& t.bat@ == bat
    &&& t.next_alloc == next_alloc
}

/// `q` is the image `p` but for its sparse part, which is now `t`.
pub open spec fn image_moved(p: Image, q: Image, t: Sparse) -> bool {
    &&& q.footer == p.footer
    &&& q.footer_bytes == p.footer_bytes
    &&& q.recovered == p.recovered
    &&& q.sparse == Some(t)
}

/// `r2` is the reader `r` but for the cached table and the tail of its
/// first image.
pub open spec fn reader_moved(r: VhdReader, r2: VhdReader, bat: Seq<u32>, next_alloc: int) -> bool {
    &&& r2.writable == r.writable
    &&& r2.images@.len() == r.images@.len()
    &&& forall|k: int| 0 < k < r.images@.len() ==> #[trigger] r2.images@[k] == r.images@[k]
    &&& r.images@[0].sparse is Some
    &&& r2.images@[0].sparse is Some
    &&& image_moved(r.images@[0], r2.images@[0], r2.images@[0].sparse->0)
    &&& sparse_moved(r.images@[0].sparse->0, r2.images@[0].sparse->0, bat, next_alloc)
}

/// The stage in which the next chunk starts, and the host offset of its
/// block: a block that the table does not name is placed at the tail.
pub open spec fn chunk_start(s: Sparse, cursor: int) -> (WriteStage, int) {
    let entry = s.bat@[cursor / s.block_size()];
    if entry == BAT_UNALLOCATED {
        (WriteStage::Zeroing(0), s.next_alloc as int)
    } else {
        (WriteStage::Bitmap, reader::block_host(entry))
    }
}

/// Why the next chunk cannot be started, or `None` where it can: the block
/// it needs would not end below the last addressable byte.
pub open spec fn chunk_refusal(s: Sparse, cursor: int) -> Option<Error> {
    if s.bat@[cursor / s.block_size()] == BAT_UNALLOCATED && s.next_alloc + s.block_total() + 512
        > u64::MAX {
        Some(Error::Corrupt("a block was placed past the last addressable byte"))
    } else {
        None
    }
}

/// Why a write of `len` bytes at `offset` is refused before anything
/// reaches the device, or `None` where it is not.
pub open spec fn write_refusal(r: VhdReader, offset: int, len: int) -> Option<Error> {
    let size = r.images@[0].size();
    if !r.takes_writes() {
        Some(Error::ReadOnly)
    } else if len == 0 {
        None
    } else if offset + len > u64::MAX {
        Some(Error::Corrupt("offset+len overflow"))
    } else if offset + len > size {
        Some(Error::OutOfBounds { offset: offset as u64, len: len as u64, size: size as u64 })
    } else {
        match r.images@[0].sparse {
            Some(s) => chunk_refusal(s, offset),
            None => None,
        }
    }
}

/// How a write of `payload` at `offset` starts.
pub open spec fn begins(op: WriteOp, r: VhdReader, offset: int, payload: Seq<u8>) -> bool {
    &&& op.offset == offset
    &&& op.payload@ == payload
    &&& if payload.len() == 0 {
        op.stage == WriteStage::Done && op.written == 0
    } else {
        &&& op.written == 0
        &&& match r.images@[0].sparse {
            Some(s) => op.stage == chunk_start(s, offset).0 && op.host == chunk_start(s, offset).1,
            None => op.stage == WriteStage::Direct,
        }
    }
}

/// `after` marks the sectors `first..=last` and those that `before` marks.
pub open spec fn marks(before: Seq<u8>, after: Seq<u8>, first: int, last: int) -> bool {
    &&& after.len() == before.len()
    &&& forall|t: int|
        0 <= t < 8 * after.len() ==> (#[trigger] reader::sector_set(after, t) <==> first <= t
            <= last || reader::sector_set(before, t))
    &&& forall|i: int|
        0 <= i < after.len() && !(first / 8 <= i <= last / 8) ==> after[i] == before[i]
}

impl WriteOp {
    /// The stage after the bitmap has been read.
    pub open spec fn after_bitmap(self, s: Sparse) -> WriteStage {
        if self.needs_head(s) {
            WriteStage::Head
        } else {
            self.after_head(s)
        }
    }

    pub open spec fn after_head(self, s: Sparse) -> WriteStage {
        if self.needs_tail(s) {
            WriteStage::Tail
        } else {
            WriteStage::Payload
        }
    }

    /// `self` is the state after `op` once its request has been carried
    /// out with `answer`, for a dynamic image whose sparse part was `s`;
    /// the cached table is then `bat` and the tail `next_alloc`.
    pub open spec fn follows_sparse(
        self,
        op: WriteOp,
        s: Sparse,
        answer: Seq<u8>,
        bat: Seq<u32>,
        next_alloc: int,
    ) -> bool {
        &&& self.offset == op.offset
        &&& self.payload == op.payload
        &&& op.stage != WriteStage::PublishFlush ==> self.written == op.written && self.host
            == op.host
        &&& match op.stage {
            WriteStage::EntryFlush(entry) => bat == s.bat@.update(op.block(s), entry),
            _ => bat == s.bat@,
        }
        &&& match op.stage {
            WriteStage::ZeroFlush => next_alloc == op.host + s.block_total(),
            _ => next_alloc == s.next_alloc,
        }
        &&& match op.stage {
            WriteStage::Bitmap => self.bitmap@ == answer,
            WriteStage::Payload => marks(op.bitmap@, self.bitmap@, op.first(s), op.last(s)),
            WriteStage::PublishFlush => true,
            _ => self.bitmap == op.bitmap,
        }
        &&& match op.stage {
            WriteStage::Zeroing(done) => {
                let done2 = done + op.zero_piece(s, done as int);
                self.stage == if done2 == s.block_total() {
                    WriteStage::ZeroFlush
                } else {
                    WriteStage::Zeroing(done2 as u64)
                }
            },
            WriteStage::ZeroFlush => {
                &&& reader::entry_refusal_for(op.host as int) is None
                &&& self.stage matches WriteStage::Entry(entry) && reader::block_host(entry)
                    == op.host
            },
            WriteStage::Entry(entry) => self.stage == WriteStage::EntryFlush(entry),
            WriteStage::EntryFlush(_) => self.stage == WriteStage::Mirror,
            WriteStage::Mirror => self.stage == WriteStage::MirrorFlush,
            WriteStage::MirrorFlush => self.stage == WriteStage::Bitmap,
            WriteStage::Bitmap => self.stage == self.after_bitmap(s),
            WriteStage::Head => self.stage == self.after_head(s),
            WriteStage::Tail => self.stage == WriteStage::Payload,
            WriteStage::Payload => self.stage == WriteStage::Publish,
            WriteStage::Publish => self.stage == WriteStage::PublishFlush,
            WriteStage::PublishFlush => {
                &&& self.written == op.written + op.chunk(s)
                &&& if self.written == self.len() {
                    self.stage == WriteStage::Done
                } else {
                    &&& chunk_refusal(s, self.cursor()) is None
                    &&& self.stage == chunk_start(s, self.cursor()).0
                    &&& self.host == chunk_start(s, self.cursor()).1
                }
            },
            _ => false,
        }
    }

    /// `self` and `r2` are the write and the reader after `op` and `r`,
    /// once the pending request has been carried out with `answer`.
    pub open spec fn follows(
        self,
        r2: VhdReader,
        op: WriteOp,
        r: VhdReader,
        answer: Seq<u8>,
    ) -> bool {
        match r.images@[0].sparse {
            Some(s) => {
                &&& r2.images@[0].sparse matches Some(t)
                &&& reader_moved(r, r2, t.bat@, t.next_alloc as int)
                &&& self.follows_sparse(op, s, answer, t.bat@, t.next_alloc as int)
            },
            None => {
                &&& r2 == r
                &&& self.offset == op.offset
                &&& self.payload == op.payload
                &&& self.written == op.len()
                &&& self.stage == WriteStage::Done
            },
        }
    }

    /// Why the write cannot go on although its request was carried out,
    /// or `None` where it can.
    pub open spec fn step_refusal(self, r: VhdReader) -> Option<Error> {
        match r.images@[0].sparse {
            Some(s) => match self.stage {
                WriteStage::ZeroFlush => reader::entry_refusal_for(self.host as int),
                WriteStage::PublishFlush => if self.written + self.chunk(s) < self.len() {
                    chunk_refusal(s, self.cursor() + self.chunk(s))
                } else {
                    None
                },
                _ => None,
            },
            None => None,
        }
    }

    /// Bytes and stages still to go: every step makes it smaller.
    pub open spec fn work_left(self, r: VhdReader) -> int {
        match r.images@[0].sparse {
            Some(s) => (self.len() - self.written) * (s.block_total() + 16) + match self.stage {
                WriteStage::Zeroing(done) => 13 + s.block_total() - done,
                WriteStage::ZeroFlush => 12int,
                WriteStage::Entry(_) => 11,
                WriteStage::EntryFlush(_) => 10,
                WriteStage::Mirror => 9,
                WriteStage::MirrorFlush => 8,
                WriteStage::Bitmap => 7,
                WriteStage::Head => 6,
                WriteStage::Tail => 5,
                WriteStage::Payload => 4,
                WriteStage::Publish => 3,
                WriteStage::PublishFlush => 2,
                WriteStage::Direct => 1,
                WriteStage::Done => 0,
            },
            None => if self.stage == WriteStage::Done { 0 } else { 1 },
        }
    }
}

fn set_tail(r: &mut VhdReader, next_alloc: u64)
    requires
        old(r).images@.len() > 0,
        old(r).images@[0].sparse is Some,
    ensures
        reader_moved(
            *old(r),
            *final(r),
            old(r).images@[0].sparse->0.bat@,
            next_alloc as int,
        ),
{
    let image = &mut r.images[0];
    match &mut image.sparse {
        Some(s) => {
            s.next_alloc = next_alloc;
        },
        None => {},
    }
}

fn set_entry(r: &mut VhdReader, block: usize, entry: u32)
    requires
        old(r).images@.len() > 0,
        old(r).images@[0].sparse is Some,
        block < old(r).images@[0].sparse->0.bat@.len(),
    ensures
        reader_moved(
            *old(r),
            *final(r),
            old(r).images@[0].sparse->0.bat@.update(block as int, entry),
            old(r).images@[0].sparse->0.next_alloc as int,
        ),
{
    let image = &mut r.images[0];
    match &mut image.sparse {
        Some(s) => {
            s.bat[block] = entry;
        },
        None => {},
    }
}

/// Mark the sectors `first..=last` present.
pub fn mark_sectors(bitmap: &mut Vec<u8>, first: u64, last: u64)
    requires
        first <= last,
        last / 8 < old(bitmap).len(),
    ensures
        marks(old(bitmap)@, final(bitmap)@, first as int, last as int),
{
    let mut sector: u64 = first;
    loop
        invariant_except_break
            first <= sector <= last,
            last / 8 < bitmap.len(),
            bitmap@.len() == old(bitmap)@.len(),
            forall|t: int|
                0 <= t < 8 * bitmap@.len() ==> (#[trigger] reader::sector_set(bitmap@, t) <==> first
                    <= t < sector || reader::sector_set(old(bitmap)@, t)),
            forall|i: int|
                0 <= i < bitmap@.len() && !(first / 8 <= i <= last / 8) ==> bitmap@[i] == old(
                    bitmap,
                )@[i],
        ensures
            marks(old(bitmap)@, bitmap@, first as int, last as int),
        decreases last - sector,
    {
        VhdReader::bitmap_set(bitmap, sector);
        if sector == last {
            break;
        }
        sector += 1;
    }
}

/// The stage in which a chunk at `cursor` starts, and its block's host
/// offset.
fn start_chunk(s: &Sparse, cursor: u64) -> (r: Result<(WriteStage, u64)>)
    requires
        s.block_size() >= 512,
        s.bitmap_size == s.bitmap(),
        cursor as int / s.block_size() < s.bat.len(),
    ensures
        r is Ok <==> chunk_refusal(*s, cursor as int) is None,
        r matches Ok(start) ==> start.0 == chunk_start(*s, cursor as int).0 && start.1
            == chunk_start(*s, cursor as int).1,
        r matches Err(e) ==> chunk_refusal(*s, cursor as int) == Some(e),
{
    let entry: u32 = s.bat[(cursor / s.header.block_size as u64) as usize];
    if entry != BAT_UNALLOCATED {
        return Ok((WriteStage::Bitmap, entry as u64 * SECTOR_SIZE));
    }
    let room: u64 = u64::MAX - s.next_alloc;
    if room < s.bitmap_size + s.header.block_size as u64 + FOOTER_SIZE as u64 {
        return Err(Error::Corrupt("a block was placed past the last addressable byte"));
    }
    Ok((WriteStage::Zeroing(0), s.next_alloc))
}

pub proof fn lemma_cursor_in_table(s: Sparse, size: int, cursor: int)
    requires
        s.wf(size),
        0 <= cursor < size,
    ensures
        0 <= cursor / s.block_size() < s.bat@.len(),
        0 <= cursor % s.block_size() < s.block_size(),
        cursor == cursor / s.block_size() * s.block_size() + cursor % s.block_size(),
{
    let bs = s.block_size();
    vstd::arithmetic::div_mod::lemma_fundamental_div_mod(cursor, bs);
    vstd::arithmetic::div_mod::lemma_mod_bound(cursor, bs);
    assert(0 <= cursor / bs < s.bat@.len()) by (nonlinear_arith)
        requires
            0 <= cursor < size,
            size <= s.bat@.len() * bs,
            bs > 0,
            cursor == bs * (cursor / bs) + cursor % bs,
            0 <= cursor % bs < bs,
    ;
    assert(bs * (cursor / bs) == cursor / bs * bs) by (nonlinear_arith);
}

proof fn lemma_bitmap_bytes_bound(s: Sparse)
    requires
        s.block_size() >= 512,
    ensures
        512 <= s.bitmap() <= 0x10_0000,
        s.bitmap() % 512 == 0,
{
}

impl VhdReader {
    /// Start writing `payload` at virtual `offset`. Supported on fixed and
    /// dynamic VHDs; differencing returns [`Error::ReadOnly`].
    pub fn write_at(&self, offset: u64, payload: Vec<u8>) -> (r: Result<WriteOp>)
        requires
            self.wf(),
        ensures
            r is Ok <==> write_refusal(*self, offset as int, payload@.len() as int) is None,
            r is Ok <==> {
                &&& self.writable
                &&& self.images@[0].footer.disk_type != DiskType::Differencing
                &&& payload@.len() == 0 || (offset + payload@.len()
                    <= self.images@[0].footer.current_size && (self.images@[0].sparse matches Some(
                    s,
                ) ==> s.bat@[offset as int / s.header.block_size as int] != 0xFFFF_FFFF
                    || s.next_alloc + s.bitmap_size + s.header.block_size + 512
                    <= 0xFFFF_FFFF_FFFF_FFFF))
            },
            r matches Ok(op) ==> begins(op, *self, offset as int, payload@),
            r matches Ok(op) ==> op.wf(*self),
            r matches Err(e) ==> write_refusal(*self, offset as int, payload@.len() as int) == Some(
                e,
            ),
    {
        proof {
            assert(payload.len() == payload@.len());
            disk_laws::law_write_is_taken_exactly_where(*self, offset, payload.len());
        }
        if !self.writable() {
            return Err(Error::ReadOnly);
        }
        let len: u64 = payload.len() as u64;
        let mut op = WriteOp {
            offset,
            payload,
            written: 0,
            stage: WriteStage::Done,
            host: 0,
            bitmap: Vec::new(),
        };
        if len == 0 {
            return Ok(op);
        }
        if len > u64::MAX - offset {
            return Err(Error::Corrupt("offset+len overflow"));
        }
        let size: u64 = self.virtual_size();
        if offset + len > size {
            return Err(Error::OutOfBounds { offset, len, size });
        }
        match &self.images[0].sparse {
            None => {
                op.stage = WriteStage::Direct;
            },
            Some(s) => {
                proof {
                    lemma_cursor_in_table(*s, size as int, offset as int);
                    lemma_bitmap_bytes_bound(*s);
                }
                match start_chunk(s, offset) {
                    Ok(start) => {
                        op.stage = start.0;
                        op.host = start.1;
                    },
                    Err(e) => {
                        return Err(e);
                    },
                }
            },
        }
        Ok(op)
    }
}

/// Where a chunk lies is inside its block, its sectors inside the bitmap.
pub proof fn lemma_span(op: WriteOp, s: Sparse, size: int)
    requires
        s.wf(size),
        op.offset + op.len() <= size,
        op.written < op.len(),
    ensures
        0 <= op.block(s) < s.bat@.len(),
        0 <= op.in_block(s) < s.block_size(),
        op.cursor() == op.block(s) * s.block_size() + op.in_block(s),
        1 <= op.chunk(s) <= s.block_size() - op.in_block(s),
        op.written + op.chunk(s) <= op.len(),
        s.block_size() % 512 == 0,
        0 <= op.first(s) <= op.last(s) < s.block_size() / 512,
        op.last(s) / 8 < s.bitmap(),
        512 <= s.bitmap() <= 0x10_0000,
        s.bitmap() % 512 == 0,
        s.block_size() <= 0xFFFF_FFFF,
{
    lemma_cursor_in_table(s, size, op.cursor());
    crate::dynamic::lemma_block_is_whole_sectors(s.block_size());
    lemma_bitmap_bytes_bound(s);
}

impl WriteOp {
    /// The block of the next chunk, where in it the chunk starts, and how
    /// long the chunk is.
    fn span(&self, s: &Sparse, Ghost(size): Ghost<int>) -> (r: (usize, u64, usize))
        requires
            s.wf(size),
            size <= u64::MAX,
            self.offset + self.len() <= size,
            self.written < self.len(),
        ensures
            r.0 == self.block(*s),
            r.1 == self.in_block(*s),
            r.2 == self.chunk(*s),
            r.0 < s.bat.len(),
    {
        proof {
            lemma_span(*self, *s, size);
        }
        let block_size: u64 = s.header.block_size as u64;
        let cursor: u64 = self.offset + self.written as u64;
        let block: u64 = cursor / block_size;
        let in_block: u64 = cursor % block_size;
        let left: usize = self.payload.len() - self.written;
        let room: u64 = block_size - in_block;
        let chunk: usize = if room < left as u64 {
            room as usize
        } else {
            left
        };
        proof {
            assert(s.bat.len() == s.bat@.len());
        }
        (block as usize, in_block, chunk)
    }

    /// What the device has to do next.
    pub fn request(&self, reader: &VhdReader) -> (r: WriteRequest)
        requires
            self.wf(*reader),
        ensures
            r@ == self.pending(*reader),
    {
        match self.stage {
            WriteStage::Done => {
                return WriteRequest::Done;
            },
            WriteStage::ZeroFlush
            | WriteStage::EntryFlush(_)
            | WriteStage::MirrorFlush
            | WriteStage::PublishFlush => {
                return WriteRequest::Flush;
            },
            _ => {},
        }
        let image = &reader.images[0];
        match &image.sparse {
            None => {
                let bytes = copy_bytes(&self.payload, 0..self.payload.len());
                proof {
                    assert(bytes@ =~= self.payload@);
                }
                WriteRequest::Write { offset: self.offset, bytes }
            },
            Some(s) => self.request_sparse(s, image, Ghost(image.size())),
        }
    }

    fn request_sparse(&self, s: &Sparse, image: &Image, Ghost(size): Ghost<int>) -> (r: WriteRequest)
        requires
            s.wf(size),
            size <= u64::MAX,
            self.offset + self.len() <= size,
            self.wf_sparse(*s),
            self.stage != WriteStage::Done,
        ensures
            r@ == self.pending_sparse(*s, image.footer_bytes@),
    {
        proof {
            lemma_span(*self, *s, size);
        }
        let (block, in_block, chunk) = self.span(s, Ghost(size));
        let total: u64 = s.bitmap_size + s.header.block_size as u64;
        proof {
            assert(self.written + chunk <= self.payload.len());
        }
        match self.stage {
            WriteStage::Zeroing(done) => {
                let left: u64 = total - done;
                let piece: u64 = if left < ZERO_CHUNK {
                    left
                } else {
                    ZERO_CHUNK
                };
                WriteRequest::Write { offset: self.host + done, bytes: zero_bytes(piece as usize) }
            },
            WriteStage::Entry(entry) => {
                let raw = be_bytes_u32(entry);
                let bytes = copy_bytes(&raw, 0..4);
                proof {
                    assert(bytes@ =~= raw@);
                }
                WriteRequest::Write { offset: s.header.table_offset + 4 * block as u64, bytes }
            },
            WriteStage::Mirror => {
                let bytes = copy_bytes(&image.footer_bytes, 0..image.footer_bytes.len());
                proof {
                    assert(bytes@ =~= image.footer_bytes@);
                }
                WriteRequest::Write { offset: self.host + total, bytes }
            },
            WriteStage::Bitmap => WriteRequest::Read {
                offset: self.host,
                len: s.bitmap_size as usize,
            },
            WriteStage::Head => {
                let head: u64 = in_block % SECTOR_SIZE;
                WriteRequest::Write {
                    offset: self.host + s.bitmap_size + (in_block - head),
                    bytes: zero_bytes(head as usize),
                }
            },
            WriteStage::Tail => {
                let end: u64 = in_block + chunk as u64;
                WriteRequest::Write {
                    offset: self.host + s.bitmap_size + end,
                    bytes: zero_bytes((SECTOR_SIZE - end % SECTOR_SIZE) as usize),
                }
            },
            WriteStage::Payload => WriteRequest::Write {
                offset: self.host + s.bitmap_size + in_block,
                bytes: copy_bytes(&self.payload, self.written..self.written + chunk),
            },
            WriteStage::Publish => {
                let bytes = copy_bytes(&self.bitmap, 0..self.bitmap.len());
                proof {
                    assert(bytes@ =~= self.bitmap@);
                }
                WriteRequest::Write { offset: self.host, bytes }
            },
            _ => WriteRequest::Flush,
        }
    }
}

/// A table entry that names the block at `host`, behind every other block,
/// keeps the sparse part well-formed.
proof fn lemma_entry_keeps_wf(s: Sparse, t: Sparse, size: int, block: int, entry: u32)
    requires
        s.wf(size),
        0 <= block < s.bat@.len(),
        sparse_moved(s, t, s.bat@.update(block, entry), s.next_alloc as int),
        s.tail_clear_of(reader::block_host(entry)),
        s.next_alloc == reader::block_host(entry) + s.block_total(),
    ensures
        t.wf(size),
{
}

/// A reader stays well-formed where its first image's sparse part does.
proof fn lemma_moved_wf(r: VhdReader, r2: VhdReader, bat: Seq<u32>, next_alloc: int)
    requires
        r.wf(),
        reader_moved(r, r2, bat, next_alloc),
        r2.images@[0].sparse->0.wf(r.images@[0].size()),
    ensures
        r2.wf(),
        r2.images@[0].size() == r.images@[0].size(),
        r2.images@[0].footer == r.images@[0].footer,
        r2.takes_writes() == r.takes_writes(),
{
    assert forall|k: int| 0 <= k < r2.images@.len() implies (#[trigger] r2.images@[k]).wf() by {
        assert(r.images@[k].wf());
    }
    assert forall|k: int| 0 <= k < r2.images@.len() implies ((
    #[trigger] r2.images@[k]).footer.disk_type == DiskType::Differencing <==> k + 1
        < r2.images@.len()) by {
        assert(r.images@[k].wf());
    }
}

proof fn lemma_chunk_is_progress(len: int, written: int, chunk: int, total: int, stage: int)
    requires
        1 <= chunk <= len - written,
        total >= 0,
        0 <= stage <= 13 + total,
    ensures
        0 <= (len - written - chunk) * (total + 16) + stage < (len - written) * (total + 16) + 2,
{
    assert((len - written) * (total + 16) == (len - written - chunk) * (total + 16) + chunk * (total
        + 16)) by (nonlinear_arith);
    assert(chunk * (total + 16) >= total + 16) by (nonlinear_arith)
        requires
            chunk >= 1,
            total >= 0,
    ;
    assert((len - written - chunk) * (total + 16) >= 0) by (nonlinear_arith)
        requires
            len - written - chunk >= 0,
            total >= 0,
    ;
}

proof fn lemma_work_is_left(left: int, total: int)
    requires
        left >= 0,
        total >= 0,
    ensures
        left * (total + 16) >= 0,
{
    assert(left * (total + 16) >= 0) by (nonlinear_arith)
        requires
            left >= 0,
            total >= 0,
    ;
}

/// What a step from `op` and `r` comes to: `op2` and `r2`, or an error.
spec fn stepped(
    op: WriteOp,
    r: VhdReader,
    answer: Seq<u8>,
    op2: WriteOp,
    r2: VhdReader,
    res: Result<()>,
) -> bool {
    &&& r2.wf()
    &&& res is Ok <==> op.step_refusal(r) is None
    &&& match res {
        Ok(_) => {
            &&& op2.wf(r2)
            &&& op2.follows(r2, op, r, answer)
            &&& 0 <= op2.work_left(r2) < op.work_left(r)
        },
        Err(e) => {
            let s = r.images@[0].sparse->0;
            &&& op.step_refusal(r) == Some(e)
            &&& reader_moved(
                r,
                r2,
                s.bat@,
                if op.stage == WriteStage::ZeroFlush {
                    op.host + s.block_total()
                } else {
                    s.next_alloc as int
                },
            )
        },
    }
}

impl WriteOp {
    /// Go on after the pending request has been carried out; `answer`
    /// holds what was read, where it was a read.
    ///
    /// On an error the write is over. The tail may have moved even then:
    /// the space between is leaked, never handed out twice.
    pub fn complete(&mut self, reader: &mut VhdReader, answer: Vec<u8>) -> (res: Result<()>)
        requires
            old(self).wf(*old(reader)),
            old(self).stage != WriteStage::Done,
            old(self).pending(*old(reader)) matches Pending::Read { offset, len } ==> answer@.len()
                == len,
        ensures
            final(reader).wf(),
            res is Ok <==> old(self).step_refusal(*old(reader)) is None,
            res is Ok ==> final(self).wf(*final(reader)),
            res is Ok ==> final(self).follows(*final(reader), *old(self), *old(reader), answer@),
            res is Ok ==> 0 <= final(self).work_left(*final(reader)) < old(self).work_left(
                *old(reader),
            ),
            res matches Err(e) ==> old(self).step_refusal(*old(reader)) == Some(e),
            res is Err ==> reader_moved(
                *old(reader),
                *final(reader),
                old(reader).images@[0].sparse->0.bat@,
                match old(self).stage {
                    WriteStage::ZeroFlush => old(self).host
                        + old(reader).images@[0].sparse->0.block_total(),
                    _ => old(reader).images@[0].sparse->0.next_alloc as int,
                },
            ),
    {
        let ghost size = reader.images@[0].size();
        let ghost op0 = *self;
        let ghost r0 = *reader;
        match &reader.images[0].sparse {
            None => {
                self.written = self.payload.len();
                self.stage = WriteStage::Done;
                Ok(())
            },
            Some(s) => {
                let ghost s0 = *s;
                proof {
                    lemma_span(op0, s0, size);
                    lemma_work_is_left(op0.len() - op0.written, s0.block_total());
                }
                let (block, in_block, chunk) = self.span(s, Ghost(size));
                let total: u64 = s.bitmap_size + s.header.block_size as u64;
                match self.stage {
                    WriteStage::Zeroing(done) => {
                        let left: u64 = total - done;
                        self.stage = if left <= ZERO_CHUNK {
                            WriteStage::ZeroFlush
                        } else {
                            WriteStage::Zeroing(done + ZERO_CHUNK)
                        };
                    },
                    WriteStage::ZeroFlush => {
                        return self.tail_done(reader, total, Ghost(answer@));
                    },
                    WriteStage::Entry(entry) => {
                        self.stage = WriteStage::EntryFlush(entry);
                    },
                    WriteStage::EntryFlush(entry) => {
                        set_entry(reader, block, entry);
                        self.stage = WriteStage::Mirror;
                        proof {
                            lemma_entry_keeps_wf(
                                s0,
                                reader.images@[0].sparse->0,
                                size,
                                block as int,
                                entry,
                            );
                            lemma_moved_wf(
                                r0,
                                *reader,
                                s0.bat@.update(block as int, entry),
                                s0.next_alloc as int,
                            );
                        }
                    },
                    WriteStage::Mirror => {
                        self.stage = WriteStage::MirrorFlush;
                    },
                    WriteStage::MirrorFlush => {
                        self.stage = WriteStage::Bitmap;
                    },
                    WriteStage::Bitmap => {
                        self.bitmap = answer;
                        let first: u64 = in_block / SECTOR_SIZE;
                        if in_block % SECTOR_SIZE != 0 && !VhdReader::bitmap_get(
                            &self.bitmap,
                            first,
                        ) {
                            self.stage = WriteStage::Head;
                        } else {
                            self.stage = self.stage_after_head(s, in_block, chunk, Ghost(size));
                        }
                    },
                    WriteStage::Head => {
                        self.stage = self.stage_after_head(s, in_block, chunk, Ghost(size));
                    },
                    WriteStage::Tail => {
                        self.stage = WriteStage::Payload;
                    },
                    WriteStage::Payload => {
                        let first: u64 = in_block / SECTOR_SIZE;
                        let last: u64 = (in_block + chunk as u64 - 1) / SECTOR_SIZE;
                        mark_sectors(&mut self.bitmap, first, last);
                        self.stage = WriteStage::Publish;
                    },
                    WriteStage::Publish => {
                        self.stage = WriteStage::PublishFlush;
                    },
                    _ => {
                        return self.chunk_done(reader, chunk, Ghost(answer@));
                    },
                }
                Ok(())
            },
        }
    }

    /// The fresh block is zeroed for good: commit the tail, then name the
    /// block. The instant its entry goes to the device nothing proves any
    /// more that it did not land, so this is the last moment at which the
    /// space is provably free.
    fn tail_done(&mut self, reader: &mut VhdReader, total: u64, Ghost(answer): Ghost<Seq<u8>>)
        -> (res: Result<()>)
        requires
            old(self).wf(*old(reader)),
            old(self).stage == WriteStage::ZeroFlush,
            old(reader).images@[0].sparse is Some,
            total == old(reader).images@[0].sparse->0.block_total(),
        ensures
            stepped(*old(self), *old(reader), answer, *final(self), *final(reader), res),
    {
        let ghost r0 = *reader;
        let ghost s0 = reader.images@[0].sparse->0;
        set_tail(reader, self.host + total);
        proof {
            lemma_span(*self, s0, r0.images@[0].size());
            lemma_work_is_left(self.len() - self.written, s0.block_total());
            lemma_moved_wf(r0, *reader, s0.bat@, self.host + total);
        }
        match bat_entry_for(self.host) {
            Ok(entry) => {
                self.stage = WriteStage::Entry(entry);
                Ok(())
            },
            Err(e) => Err(e),
        }
    }

    /// A chunk is on the disk: start the next one, if there is one.
    fn chunk_done(&mut self, reader: &VhdReader, chunk: usize, Ghost(answer): Ghost<Seq<u8>>) -> (res:
        Result<()>)
        requires
            old(self).wf(*reader),
            old(self).stage == WriteStage::PublishFlush,
            reader.images@[0].sparse is Some,
            chunk == old(self).chunk(reader.images@[0].sparse->0),
        ensures
            stepped(*old(self), *reader, answer, *final(self), *reader, res),
    {
        let ghost size = reader.images@[0].size();
        let ghost op0 = *self;
        match &reader.images[0].sparse {
            None => Ok(()),
            Some(s) => {
                proof {
                    lemma_span(op0, *s, size);
                    assert(op0.payload.len() == op0.payload@.len());
                }
                let written: usize = self.written + chunk;
                if written == self.payload.len() {
                    self.written = written;
                    self.stage = WriteStage::Done;
                    proof {
                        lemma_chunk_is_progress(
                            op0.len(),
                            op0.written as int,
                            chunk as int,
                            s.block_total(),
                            0,
                        );
                    }
                    return Ok(());
                }
                proof {
                    lemma_cursor_in_table(*s, size, op0.cursor() + chunk);
                }
                match start_chunk(s, self.offset + written as u64) {
                    Ok(start) => {
                        self.written = written;
                        self.stage = start.0;
                        self.host = start.1;
                        proof {
                            let n: int = match self.stage {
                                WriteStage::Zeroing(_) => 13 + s.block_total(),
                                _ => 7,
                            };
                            lemma_chunk_is_progress(
                                op0.len(),
                                op0.written as int,
                                chunk as int,
                                s.block_total(),
                                n,
                            );
                        }
                        Ok(())
                    },
                    Err(e) => Err(e),
                }
            },
        }
    }

    /// Pad the last sector, or go straight to the payload?
    fn stage_after_head(&self, s: &Sparse, in_block: u64, chunk: usize, Ghost(size): Ghost<int>)
        -> (r: WriteStage)
        requires
            s.wf(size),
            self.offset + self.len() <= size,
            self.written < self.len(),
            in_block == self.in_block(*s),
            chunk == self.chunk(*s),
            self.bitmap@.len() == s.bitmap(),
        ensures
            r == self.after_head(*s),
    {
        proof {
            lemma_span(*self, *s, size);
        }
        let end: u64 = in_block + chunk as u64;
        if end % SECTOR_SIZE != 0 && !VhdReader::bitmap_get(&self.bitmap, (end - 1) / SECTOR_SIZE) {
            WriteStage::Tail
        } else {
            WriteStage::Payload
        }
    }
}

} // verus!
