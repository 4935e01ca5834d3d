//! Reading: where each byte of the disk comes from.
//!
//! A read walks the disk piece by piece. Each piece is looked for in the
//! image itself, then in its parent, and so on: an image holds it where
//! the block is allocated and the block's bitmap marks the sector; where
//! no image holds it, it reads as zero.
use crate::device;
use crate::dynamic::BAT_UNALLOCATED;
use crate::error::{Error, Result};
use crate::format::SECTOR_SIZE;
use crate::reader;
use crate::reader::{Image, VhdReader};
use vstd::prelude::*;

verus! {

/// The sector bitmap of one block.
#[derive(Debug)]
pub struct CachedBitmap {
    pub block: u64,
    pub bytes: Vec<u8>,
}

/// Where a read stands: what the next request is for.
#[derive(Debug, Clone, Copy, PartialEq, Eq, Structural)]
pub enum ReadStage {
    /// Nothing is outstanding.
    Walk,
    /// The sector bitmap of this block.
    Bitmap(u64),
    /// The bytes of the piece, at this host offset.
    Data(u64),
    Done,
}

/// What the device of image `level` is asked for next.
#[derive(Debug, Clone, Copy, PartialEq, Eq)]
pub enum ReadRequest {
    Read { level: usize, offset: u64, len: usize },
    Done,
}

/// A run of bytes on a device.
pub struct Extent {
    pub offset: int,
    pub len: int,
}

/// A read in progress.
#[derive(Debug)]
pub struct ReadOp {
    pub offset: u64,
    pub len: usize,
    /// The bytes read so far.
    pub out: Vec<u8>,
    /// The image in which the current piece is being looked for.
    pub level: usize,
    /// How long the current piece is.
    pub piece: usize,
    /// Per image, the bitmap that was read last.
    pub bitmaps: Vec<Option<CachedBitmap>>,
    pub stage: ReadStage,
}

/// The bitmap kept for an image belongs to a block of that image.
pub open spec fn slot_wf(slot: Option<CachedBitmap>, image: Image) -> bool {
    slot matches Some(c) ==> {
        &&& image.sparse matches Some(s)
        &&& c.bytes@.len() == s.bitmap()
        &&& c.block < s.bat@.len()
        &&& s.bat@[c.block as int] != BAT_UNALLOCATED
    }
}

impl ReadOp {
    /// The virtual offset of the next byte.
    pub open spec fn cursor(self) -> int {
        self.offset + self.out@.len()
    }

    /// Where on its device `image` holds the next byte, if it does.
    pub open spec fn data_host(self, image: Image) -> int {
        match image.sparse {
            Some(s) => reader::block_host(s.bat@[self.cursor() / s.block_size()]) + s.bitmap()
                + self.cursor() % s.block_size(),
            None => self.cursor(),
        }
    }

    /// The state is one that a read through `r` passes through.
    pub open spec fn wf(self, r: VhdReader) -> bool {
        &&& r.wf()
        &&& self.out@.len() <= self.len
        &&& self.len > 0 ==> self.offset + self.len <= r.images@[0].size()
        &&& self.bitmaps@.len() == r.images@.len()
        &&& forall|k: int|
            0 <= k < self.bitmaps@.len() ==> slot_wf(#[trigger] self.bitmaps@[k], r.images@[k])
        &&& self.level <= r.images@.len()
        &&& self.stage == ReadStage::Done <==> self.out@.len() == self.len
        &&& self.stage != ReadStage::Done ==> 0 < self.piece <= self.len - self.out@.len()
        &&& match self.stage {
            ReadStage::Bitmap(block) => {
                &&& self.level < r.images@.len()
                &&& r.images@[self.level as int].sparse matches Some(s)
                &&& block < s.bat@.len()
                &&& s.bat@[block as int] != BAT_UNALLOCATED
                &&& block == self.cursor() / s.block_size()
                &&& self.cursor() + self.piece <= r.images@[self.level as int].size()
                &&& self.piece <= s.block_size() - self.cursor() % s.block_size()
            },
            ReadStage::Data(host) => {
                &&& self.level < r.images@.len()
                &&& self.cursor() + self.piece <= r.images@[self.level as int].size()
                &&& host == self.data_host(r.images@[self.level as int])
                &&& r.images@[self.level as int].sparse matches Some(s)
                    ==> s.bat@[self.cursor() / s.block_size()] != BAT_UNALLOCATED && self.piece
                    <= 512 - self.cursor() % s.block_size() % 512
            },
            _ => true,
        }
    }

    /// What has been learnt so far is true of the devices that hold `devs`.
    pub open spec fn consistent(self, r: VhdReader, devs: Seq<Seq<u8>>) -> bool {
        &&& forall|j: int|
            0 <= j < self.out@.len() ==> #[trigger] self.out@[j] == reader::guest_byte(
                r.images@,
                devs,
                0,
                self.offset + j,
            )
        &&& self.stage != ReadStage::Done ==> forall|v: int|
            self.cursor() <= v < self.cursor() + self.piece ==> #[trigger] reader::guest_byte(
                r.images@,
                devs,
                0,
                v,
            ) == reader::guest_byte(r.images@, devs, self.level as int, v)
        &&& forall|k: int|
            0 <= k < self.bitmaps@.len() ==> (#[trigger] self.bitmaps@[k] matches Some(c) ==> {
                let s = r.images@[k].sparse->0;
                let host = reader::block_host(s.bat@[c.block as int]);
                device::answers(devs[k], host, s.bitmap(), c.bytes@)
            })
        &&& self.stage matches ReadStage::Data(host) ==> forall|v: int|
            self.cursor() <= v < self.cursor() + self.piece ==> #[trigger] reader::guest_byte(
                r.images@,
                devs,
                self.level as int,
                v,
            ) == devs[self.level as int][host + (v - self.cursor())]
    }

    /// What the device of image `level` is asked for next: the offset and
    /// the number of bytes. `None` when the read is done.
    pub open spec fn wanted(self, r: VhdReader) -> Option<Extent> {
        match self.stage {
            ReadStage::Bitmap(block) => {
                let s = r.images@[self.level as int].sparse->0;
                Some(Extent { offset: reader::block_host(s.bat@[block as int]), len: s.bitmap() })
            },
            ReadStage::Data(host) => Some(Extent { offset: host as int, len: self.piece as int }),
            _ => None,
        }
    }

    /// Bytes and images still to look at: every answer makes it smaller.
    pub open spec fn work_left(self, r: VhdReader) -> int {
        (self.len - self.out@.len()) * 64 + 2 * (r.images@.len() - self.level) + match self.stage {
            ReadStage::Walk => 2int,
            ReadStage::Bitmap(_) => 1,
            _ => 0,
        }
    }
}

/// Why a read of `len` bytes at `offset` is refused, or `None` where it is
/// not.
pub open spec fn read_refusal(r: VhdReader, offset: int, len: int) -> Option<Error> {
    let size = r.images@[0].size();
    if len == 0 {
        None
    } else if offset + len > u64::MAX {
        Some(Error::Corrupt("offset+len overflow"))
    } else if offset + len > size {
        Some(Error::OutOfBounds { offset: offset as u64, len: len as u64, size: size as u64 })
    } else {
        None
    }
}

/// Bytes up to the end of a block lie in that block.
proof fn lemma_same_block(bs: int, cursor: int, v: int)
    requires
        bs > 0,
        0 <= cursor <= v < cursor + (bs - cursor % bs),
    ensures
        v / bs == cursor / bs,
        v % bs == cursor % bs + (v - cursor),
{
    vstd::arithmetic::div_mod::lemma_fundamental_div_mod(cursor, bs);
    vstd::arithmetic::div_mod::lemma_mod_bound(cursor, bs);
    assert(bs * (cursor / bs) == cursor / bs * bs) by (nonlinear_arith);
    vstd::arithmetic::div_mod::lemma_fundamental_div_mod_converse(
        v,
        bs,
        cursor / bs,
        cursor % bs + (v - cursor),
    );
}

/// Append `n` zero bytes.
fn append_zeros(out: &mut Vec<u8>, n: usize)
    requires
        old(out)@.len() + n <= usize::MAX,
    ensures
        final(out)@ == old(out)@ + device::zeros(n as int),
{
    let mut i: usize = 0;
    while i < n
        invariant
            i <= n,
            out@ == old(out)@ + device::zeros(i as int),
        decreases n - i,
    {
        out.push(0);
        i += 1;
        proof {
            assert(out@ =~= old(out)@ + device::zeros(i as int));
        }
    }
}

/// Image `k` does not hold the byte at `v`: its parent is asked.
proof fn lemma_deferred(images: Seq<Image>, devs: Seq<Seq<u8>>, k: int, v: int)
    requires
        0 <= k < images.len(),
        v < images[k].size(),
        images[k].sparse is Some,
        ({
            let s = images[k].sparse->0;
            let entry = s.bat@[v / s.block_size()];
            entry == BAT_UNALLOCATED || !reader::byte_present(
                devs[k],
                reader::block_host(entry),
                v % s.block_size(),
            )
        }),
    ensures
        reader::guest_byte(images, devs, k, v) == reader::guest_byte(images, devs, k + 1, v),
{
}

/// `op2` knows what `op` knows, and what follows from it.
pub open spec fn learnt(op: ReadOp, op2: ReadOp, r: VhdReader) -> bool {
    &&& op2.offset == op.offset
    &&& op2.len == op.len
    &&& forall|devs: Seq<Seq<u8>>|
        #[trigger] op.consistent(r, devs) ==> op2.consistent(r, devs)
}

impl ReadOp {
    /// No image holds the piece: it reads as zero.
    fn fill_zeros(&mut self, reader: &VhdReader)
        requires
            old(self).wf(*reader),
            old(self).stage == ReadStage::Walk,
            old(self).level == reader.images@.len() || old(self).cursor()
                >= reader.images@[old(self).level as int].size(),
        ensures
            final(self).wf(*reader),
            learnt(*old(self), *final(self), *reader),
            0 <= final(self).work_left(*reader) < old(self).work_left(*reader),
    {
        let ghost op0 = *self;
        proof {
            assert(self.out.len() == self.out@.len());
        }
        append_zeros(&mut self.out, self.piece);
        self.next_piece();
        proof {
            assert forall|devs: Seq<Seq<u8>>| #[trigger] op0.consistent(
                *reader,
                devs,
            ) implies self.consistent(*reader, devs) by {
                assert forall|j: int| 0 <= j < self.out@.len() implies #[trigger] self.out@[j]
                    == reader::guest_byte(reader.images@, devs, 0, self.offset + j) by {
                    if j >= op0.out@.len() {
                        let v = self.offset + j;
                        assert(reader::guest_byte(reader.images@, devs, 0, v)
                            == reader::guest_byte(reader.images@, devs, op0.level as int, v));
                    } else {
                        assert(op0.out@[j] == reader::guest_byte(
                            reader.images@,
                            devs,
                            0,
                            self.offset + j,
                        ));
                    }
                }
            }
        }
    }

    /// Start over with what is left.
    fn next_piece(&mut self)
        requires
            old(self).out@.len() <= old(self).len,
        ensures
            final(self).offset == old(self).offset,
            final(self).len == old(self).len,
            final(self).out == old(self).out,
            final(self).bitmaps == old(self).bitmaps,
            final(self).level == 0,
            final(self).piece == final(self).len - final(self).out@.len(),
            final(self).stage == if final(self).piece == 0 {
                ReadStage::Done
            } else {
                ReadStage::Walk
            },
    {
        self.level = 0;
        self.piece = self.len - self.out.len();
        self.stage = if self.piece == 0 {
            ReadStage::Done
        } else {
            ReadStage::Walk
        };
    }

    /// Look for the piece in the block whose bitmap is at hand.
    fn look_in_block(&mut self, reader: &VhdReader)
        requires
            old(self).wf(*reader),
            old(self).stage == ReadStage::Walk || old(self).stage is Bitmap,
            old(self).level < reader.images@.len(),
            ({
                let k = old(self).level as int;
                let s = reader.images@[k].sparse->0;
                let cursor = old(self).cursor();
                &&& reader.images@[k].sparse is Some
                &&& old(self).bitmaps@[k] matches Some(c) && c.block == cursor / s.block_size()
                &&& cursor + old(self).piece <= reader.images@[k].size()
                &&& old(self).piece <= s.block_size() - cursor % s.block_size()
            }),
        ensures
            final(self).wf(*reader),
            learnt(*old(self), *final(self), *reader),
            final(self).stage == ReadStage::Walk || final(self).stage is Data,
            0 <= final(self).work_left(*reader) < old(self).work_left(*reader),
    {
        let ghost op0 = *self;
        let ghost k = self.level as int;
        let cursor: u64 = self.offset + self.out.len() as u64;
        let image = &reader.images[self.level];
        proof {
            assert(image.wf());
            assert(slot_wf(self.bitmaps@[k], reader.images@[k]));
        }
        match (&image.sparse, &self.bitmaps[self.level]) {
            (Some(s), Some(c)) => {
                proof {
                    crate::writing_laws::lemma_position(*s, image.size(), cursor as int);
                }
                let block_size: u64 = s.header.block_size as u64;
                let in_block: u64 = cursor % block_size;
                let entry: u32 = s.bat[c.block as usize];
                let sector: u64 = in_block / SECTOR_SIZE;
                let room: u64 = SECTOR_SIZE - in_block % SECTOR_SIZE;
                let present: bool = VhdReader::bitmap_get(&c.bytes, sector);
                let host: u64 = entry as u64 * SECTOR_SIZE;
                let data: u64 = host + s.bitmap_size + in_block;
                if room < self.piece as u64 {
                    self.piece = room as usize;
                }
                if present {
                    self.stage = ReadStage::Data(data);
                } else {
                    self.stage = ReadStage::Walk;
                    self.level = self.level + 1;
                }
                proof {
                    assert forall|devs: Seq<Seq<u8>>| #[trigger] op0.consistent(
                        *reader,
                        devs,
                    ) implies self.consistent(*reader, devs) by {
                        assert(device::answers(devs[k], host as int, s.bitmap(), c.bytes@));
                        assert forall|v: int|
                            cursor <= v < cursor + self.piece implies #[trigger] reader::guest_byte(
                            reader.images@,
                            devs,
                            0,
                            v,
                        ) == reader::guest_byte(reader.images@, devs, self.level as int, v) by {
                            lemma_same_block(s.block_size(), cursor as int, v);
                            assert((v % s.block_size()) / 512 == sector);
                            if !present {
                                lemma_deferred(reader.images@, devs, k, v);
                            }
                        }
                        if present {
                            assert forall|v: int|
                                cursor <= v < cursor + self.piece implies #[trigger] reader::guest_byte(
                                reader.images@,
                                devs,
                                k,
                                v,
                            ) == devs[k][data + (v - cursor)] by {
                                lemma_same_block(s.block_size(), cursor as int, v);
                                assert((v % s.block_size()) / 512 == sector);
                            }
                        }
                    }
                }
            },
            _ => {},
        }
    }
}

impl ReadOp {
    /// Look for the piece in image `level`.
    #[verifier::rlimit(50)]
    fn look(&mut self, reader: &VhdReader)
        requires
            old(self).wf(*reader),
            old(self).stage == ReadStage::Walk,
        ensures
            final(self).wf(*reader),
            learnt(*old(self), *final(self), *reader),
            0 <= final(self).work_left(*reader) < old(self).work_left(*reader),
    {
        let ghost op0 = *self;
        let ghost k = self.level as int;
        let cursor: u64 = self.offset + self.out.len() as u64;
        if self.level == reader.images.len() {
            self.fill_zeros(reader);
            return;
        }
        let image = &reader.images[self.level];
        proof {
            assert(image.wf());
        }
        let size: u64 = image.footer.current_size;
        if cursor >= size {
            self.fill_zeros(reader);
            return;
        }
        if size - cursor < self.piece as u64 {
            self.piece = (size - cursor) as usize;
        }
        match &image.sparse {
            None => {
                self.stage = ReadStage::Data(cursor);
            },
            Some(s) => {
                proof {
                    crate::writing_laws::lemma_position(*s, image.size(), cursor as int);
                }
                let block_size: u64 = s.header.block_size as u64;
                let block: u64 = cursor / block_size;
                let room: u64 = block_size - cursor % block_size;
                if room < self.piece as u64 {
                    self.piece = room as usize;
                }
                proof {
                    assert(s.bat.len() == s.bat@.len());
                }
                if s.bat[block as usize] == BAT_UNALLOCATED {
                    self.level = self.level + 1;
                    proof {
                        assert forall|devs: Seq<Seq<u8>>| #[trigger] op0.consistent(
                            *reader,
                            devs,
                        ) implies self.consistent(*reader, devs) by {
                            assert forall|v: int|
                                cursor <= v < cursor + self.piece implies #[trigger] reader::guest_byte(
                                reader.images@,
                                devs,
                                0,
                                v,
                            ) == reader::guest_byte(reader.images@, devs, self.level as int, v) by {
                                lemma_same_block(s.block_size(), cursor as int, v);
                                lemma_deferred(reader.images@, devs, k, v);
                            }
                        }
                    }
                    return;
                }
                let at_hand: bool = match &self.bitmaps[self.level] {
                    Some(c) => c.block == block,
                    None => false,
                };
                if at_hand {
                    let ghost op1 = *self;
                    proof {
                        assert forall|devs: Seq<Seq<u8>>| #[trigger] op0.consistent(
                            *reader,
                            devs,
                        ) implies op1.consistent(*reader, devs) by {}
                    }
                    self.look_in_block(reader);
                } else {
                    self.stage = ReadStage::Bitmap(block);
                }
            },
        }
    }

    /// Walk on until the device has to be asked, or nothing is left.
    fn walk(&mut self, reader: &VhdReader)
        requires
            old(self).wf(*reader),
        ensures
            final(self).wf(*reader),
            final(self).stage != ReadStage::Walk,
            learnt(*old(self), *final(self), *reader),
            0 <= final(self).work_left(*reader) <= old(self).work_left(*reader),
    {
        let ghost op0 = *self;
        while self.stage == ReadStage::Walk
            invariant
                self.wf(*reader),
                learnt(op0, *self, *reader),
                0 <= self.work_left(*reader) <= op0.work_left(*reader),
            decreases self.work_left(*reader),
        {
            let ghost op1 = *self;
            self.look(reader);
            proof {
                assert forall|devs: Seq<Seq<u8>>| #[trigger] op0.consistent(
                    *reader,
                    devs,
                ) implies self.consistent(*reader, devs) by {
                    assert(op1.consistent(*reader, devs));
                }
            }
        }
    }

    /// What the device of one of the images is asked for next.
    pub fn request(&self, reader: &VhdReader) -> (r: ReadRequest)
        requires
            self.wf(*reader),
            self.stage != ReadStage::Walk,
        ensures
            match r {
                ReadRequest::Read { level, offset, len } => level == self.level && self.wanted(
                    *reader,
                ) == Some((Extent { offset: offset as int, len: len as int })),
                ReadRequest::Done => self.wanted(*reader) is None && self.stage == ReadStage::Done,
            },
    {
        match self.stage {
            ReadStage::Bitmap(block) => {
                let image = &reader.images[self.level];
                proof {
                    assert(image.wf());
                }
                match &image.sparse {
                    Some(s) => {
                        proof {
                            assert(s.bat.len() == s.bat@.len());
                        }
                        ReadRequest::Read {
                            level: self.level,
                            offset: s.bat[block as usize] as u64 * SECTOR_SIZE,
                            len: s.bitmap_size as usize,
                        }
                    },
                    None => ReadRequest::Done,
                }
            },
            ReadStage::Data(host) => ReadRequest::Read {
                level: self.level,
                offset: host,
                len: self.piece,
            },
            _ => ReadRequest::Done,
        }
    }

    /// Go on with the bytes that the device of image `level` answered.
    pub fn supply(&mut self, reader: &VhdReader, bytes: Vec<u8>)
        requires
            old(self).wf(*reader),
            old(self).wanted(*reader) is Some,
            bytes@.len() == old(self).wanted(*reader)->0.len,
        ensures
            final(self).wf(*reader),
            final(self).stage != ReadStage::Walk,
            read_step(*old(self), *reader, bytes@, *final(self)),
            0 <= final(self).work_left(*reader) < old(self).work_left(*reader),
    {
        let ghost op0 = *self;
        let ghost k = self.level as int;
        let ghost answer = bytes@;
        let ghost at = op0.wanted(*reader)->0.offset;
        let ghost n = op0.wanted(*reader)->0.len;
        match self.stage {
            ReadStage::Bitmap(block) => {
                proof {
                    assert(reader.images@[k].wf());
                }
                self.bitmaps[self.level] = Some(CachedBitmap { block, bytes });
                let ghost op1 = *self;
                self.look_in_block(reader);
                let ghost op2 = *self;
                self.walk(reader);
                proof {
                    assert forall|devs: Seq<Seq<u8>>| #[trigger] op0.consistent(
                        *reader,
                        devs,
                    ) && device::answers(devs[k], at, n, answer) implies self.consistent(
                        *reader,
                        devs,
                    ) by {
                        assert(op1.consistent(*reader, devs));
                        assert(op2.consistent(*reader, devs));
                    }
                }
            },
            ReadStage::Data(host) => {
                proof {
                    assert(self.out.len() == self.out@.len());
                }
                let mut bytes = bytes;
                self.out.append(&mut bytes);
                self.next_piece();
                let ghost op1 = *self;
                self.walk(reader);
                proof {
                    assert forall|devs: Seq<Seq<u8>>| #[trigger] op0.consistent(
                        *reader,
                        devs,
                    ) && device::answers(devs[k], at, n, answer) implies self.consistent(
                        *reader,
                        devs,
                    ) by {
                        assert forall|j: int|
                            0 <= j < op1.out@.len() implies #[trigger] op1.out@[j]
                            == reader::guest_byte(reader.images@, devs, 0, op1.offset + j) by {
                            let v = op1.offset + j;
                            if j >= op0.out@.len() {
                                assert(reader::guest_byte(reader.images@, devs, 0, v)
                                    == reader::guest_byte(reader.images@, devs, k, v));
                            } else {
                                assert(op0.out@[j] == reader::guest_byte(
                                    reader.images@,
                                    devs,
                                    0,
                                    v,
                                ));
                            }
                        }
                        assert(op1.consistent(*reader, devs));
                    }
                }
            },
            _ => {},
        }
    }

    /// The bytes that were asked for.
    pub fn finish(self, reader: &VhdReader) -> (r: Vec<u8>)
        requires
            self.wf(*reader),
            self.stage == ReadStage::Done,
        ensures
            r@.len() == self.len,
            forall|devs: Seq<Seq<u8>>|
                #[trigger] self.consistent(*reader, devs) && self.len > 0 ==> r@ == reader.guest(
                    devs,
                ).subrange(self.offset as int, self.offset + self.len),
    {
        self.out
    }
}

/// `op2` is what becomes of the read `op` once the device of image
/// `op.level` has answered `bytes`: it is about the same range, and of any
/// devices of which `op` was right and on which that answer is right, it
/// is right too.
pub open spec fn read_step(op: ReadOp, r: VhdReader, bytes: Seq<u8>, op2: ReadOp) -> bool {
    &&& op2.offset == op.offset
    &&& op2.len == op.len
    &&& forall|devs: Seq<Seq<u8>>|
        #[trigger] op.consistent(r, devs) && device::answers(
            devs[op.level as int],
            op.wanted(r)->0.offset,
            op.wanted(r)->0.len,
            bytes,
        ) ==> op2.consistent(r, devs)
}

/// No bitmaps yet, for `n` images.
fn empty_slots(n: usize) -> (r: Vec<Option<CachedBitmap>>)
    ensures
        r@.len() == n,
        forall|k: int| 0 <= k < n ==> #[trigger] r@[k] is None,
{
    let mut r: Vec<Option<CachedBitmap>> = Vec::new();
    while r.len() < n
        invariant
            r@.len() <= n,
            forall|k: int| 0 <= k < r@.len() ==> #[trigger] r@[k] is None,
        decreases n - r@.len(),
    {
        r.push(None);
    }
    r
}

impl VhdReader {
    /// Start reading exactly `len` bytes at virtual `offset`.
    pub fn read_at(&self, offset: u64, len: usize) -> (r: Result<ReadOp>)
        requires
            self.wf(),
        ensures
            r is Ok <==> read_refusal(*self, offset as int, len as int) is None,
            r is Ok <==> len == 0 || offset + len <= self.images@[0].footer.current_size,
            r matches Ok(op) ==> {
                &&& op.wf(*self)
                &&& op.offset == offset
                &&& op.len == len
                &&& op.stage != ReadStage::Walk
                &&& forall|devs: Seq<Seq<u8>>| #[trigger] op.consistent(*self, devs)
            },
            r matches Err(e) ==> read_refusal(*self, offset as int, len as int) == Some(e),
    {
        let size: u64 = self.virtual_size();
        if len > 0 {
            if len as u64 > u64::MAX - offset {
                return Err(Error::Corrupt("offset+len overflow"));
            }
            if offset + len as u64 > size {
                return Err(Error::OutOfBounds { offset, len: len as u64, size });
            }
        }
        let mut op = ReadOp {
            offset,
            len,
            out: Vec::new(),
            level: 0,
            piece: len,
            bitmaps: empty_slots(self.images.len()),
            stage: if len == 0 {
                ReadStage::Done
            } else {
                ReadStage::Walk
            },
        };
        let ghost op0 = op;
        op.walk(self);
        proof {
            assert forall|devs: Seq<Seq<u8>>| #[trigger] op.consistent(*self, devs) by {
                assert(op0.consistent(*self, devs));
            }
        }
        Ok(op)
    }
}

/// A run of a read: `ops[i]` is the read before answer `i`, `replies[i]`
/// that answer, and every answer is what the devices hold.
pub open spec fn read_run(
    ops: Seq<ReadOp>,
    r: VhdReader,
    devs: Seq<Seq<u8>>,
    replies: Seq<Seq<u8>>,
) -> bool {
    &&& 0 < ops.len() == replies.len()
    &&& forall|i: int| 0 <= i < ops.len() ==> (#[trigger] ops[i]).wf(r)
    &&& forall|i: int|
        0 <= i < ops.len() - 1 ==> {
            &&& (#[trigger] ops[i]).wanted(r) matches Some(extent)
            &&& device::answers(devs[ops[i].level as int], extent.offset, extent.len, replies[i])
            &&& read_step(ops[i], r, replies[i], ops[i + 1])
        }
}

proof fn lemma_run_stays_consistent(
    ops: Seq<ReadOp>,
    r: VhdReader,
    devs: Seq<Seq<u8>>,
    replies: Seq<Seq<u8>>,
    n: int,
)
    requires
        read_run(ops, r, devs, replies),
        ops[0].consistent(r, devs),
        0 <= n < ops.len(),
    ensures
        ops[n].consistent(r, devs),
        ops[n].offset == ops[0].offset,
        ops[n].len == ops[0].len,
    decreases n,
{
    if n > 0 {
        lemma_run_stays_consistent(ops, r, devs, replies, n - 1);
        assert(ops[n - 1].consistent(r, devs));
        assert(read_step(ops[n - 1], r, replies[n - 1], ops[n]));
    }
}

/// A read that was run to its end has returned exactly the bytes of the
/// disk that the guest sees: the image's own where it has them, the
/// parent's where it has none, zeros where nobody has any.
pub proof fn law_finished_read_returns_the_disk(
    ops: Seq<ReadOp>,
    r: VhdReader,
    devs: Seq<Seq<u8>>,
    replies: Seq<Seq<u8>>,
)
    requires
        read_run(ops, r, devs, replies),
        ops[0].consistent(r, devs),
        ops[0].len > 0,
        ops.last().stage == ReadStage::Done,
    ensures
        ops.last().out@ == r.guest(devs).subrange(
            ops[0].offset as int,
            ops[0].offset + ops[0].len,
        ),
{
    let n = ops.len() - 1;
    lemma_run_stays_consistent(ops, r, devs, replies, n);
    assert(ops[n].wf(r));
    let out = ops[n].out@;
    let expected = r.guest(devs).subrange(ops[0].offset as int, ops[0].offset + ops[0].len);
    assert forall|j: int| 0 <= j < out.len() implies out[j] == expected[j] by {
        assert(out[j] == reader::guest_byte(r.images@, devs, 0, ops[0].offset + j));
    }
    assert(out =~= expected);
}

/// Where no image of the chain holds a byte, it reads as zero.
pub proof fn law_holes_read_as_zero(images: Seq<Image>, devs: Seq<Seq<u8>>, k: int, v: int)
    requires
        0 <= k <= images.len(),
        forall|j: int|
            k <= j < images.len() ==> v >= (#[trigger] images[j]).size() || (
            images[j].sparse matches Some(s) && s.bat@[v / s.block_size()] == BAT_UNALLOCATED),
    ensures
        reader::guest_byte(images, devs, k, v) == 0,
    decreases images.len() - k,
{
    if k < images.len() {
        assert(v >= images[k].size() || images[k].sparse is Some);
        law_holes_read_as_zero(images, devs, k + 1, v);
    }
}

} // verus!
