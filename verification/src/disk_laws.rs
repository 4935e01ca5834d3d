//! What a read gives, what a write asks of the device, and when either is
//! refused, in terms of the table, the bitmaps and the bytes on the devices.
use crate::device;
use crate::error::Error;
use crate::footer::DiskType;
use crate::reader;
use crate::reader::{Image, VhdReader};
use crate::reading;
use crate::reading::{ReadOp, ReadStage};
use crate::writing;
use crate::writing::{Pending, WriteOp, WriteStage};
use vstd::prelude::*;

verus! {

/// What the bit of the first, second, .. eighth sector of a bitmap byte is
/// worth.
pub open spec fn weight(n: int) -> int {
    if n == 0 {
        128
    } else if n == 1 {
        64
    } else if n == 2 {
        32
    } else if n == 3 {
        16
    } else if n == 4 {
        8
    } else if n == 5 {
        4
    } else if n == 6 {
        2
    } else {
        1
    }
}

/// A bitmap byte holds eight sectors, from its top bit down.
pub proof fn law_bitmap_byte_runs_from_the_top(byte: u8, n: int)
    requires
        0 <= n < 8,
    ensures
        reader::sector_bit(byte, n) <==> byte as int / weight(n) % 2 == 1,
{
    assert((byte & (0x80u8 >> 0u8) != 0) == (byte / 128 % 2 == 1)) by (bit_vector);
    assert((byte & (0x80u8 >> 1u8) != 0) == (byte / 64 % 2 == 1)) by (bit_vector);
    assert((byte & (0x80u8 >> 2u8) != 0) == (byte / 32 % 2 == 1)) by (bit_vector);
    assert((byte & (0x80u8 >> 3u8) != 0) == (byte / 16 % 2 == 1)) by (bit_vector);
    assert((byte & (0x80u8 >> 4u8) != 0) == (byte / 8 % 2 == 1)) by (bit_vector);
    assert((byte & (0x80u8 >> 5u8) != 0) == (byte / 4 % 2 == 1)) by (bit_vector);
    assert((byte & (0x80u8 >> 6u8) != 0) == (byte / 2 % 2 == 1)) by (bit_vector);
    assert((byte & (0x80u8 >> 7u8) != 0) == (byte / 1 % 2 == 1)) by (bit_vector);
}

/// Sector `n` of a bitmap is bit `n % 8`, from the top, of byte `n / 8`.
pub proof fn law_bitmap_sector(bitmap: Seq<u8>, n: int)
    requires
        0 <= n < 8 * bitmap.len(),
    ensures
        reader::sector_set(bitmap, n) <==> bitmap[n / 8] as int / weight(n % 8) % 2 == 1,
{
    law_bitmap_byte_runs_from_the_top(bitmap[n / 8], n % 8);
}

/// The image itself has the byte at `v`: `v` lies inside it and, unless it
/// is a fixed disk, the table names a block for it whose bitmap marks its
/// sector.
pub open spec fn holds(image: Image, dev: Seq<u8>, v: int) -> bool {
    &&& v < image.footer.current_size
    &&& match image.sparse {
        None => true,
        Some(s) => {
            let entry = s.bat@[v / s.header.block_size as int];
            let i = v % s.header.block_size as int;
            &&& entry != 0xFFFF_FFFF
            &&& dev[512 * entry + i / 4096] as int / weight(i / 512 % 8) % 2 == 1
        },
    }
}

/// The byte that an image has at `v`: behind the bitmap of its block, or,
/// on a fixed disk, at `v`.
pub open spec fn own_byte(image: Image, dev: Seq<u8>, v: int) -> u8 {
    match image.sparse {
        None => dev[v],
        Some(s) => dev[512 * s.bat@[v / s.header.block_size as int] + s.bitmap_size + v
            % s.header.block_size as int],
    }
}

/// `v` lies inside each of the first `k` images, and none of them has the
/// byte.
pub open spec fn passed_on(r: VhdReader, devs: Seq<Seq<u8>>, k: int, v: int) -> bool {
    forall|j: int|
        0 <= j < k ==> v < (#[trigger] r.images@[j]).footer.current_size && !holds(
            r.images@[j],
            devs[j],
            v,
        )
}

proof fn lemma_holds_is_present(image: Image, dev: Seq<u8>, v: int)
    requires
        image.wf(),
        0 <= v < image.footer.current_size,
        image.sparse is Some,
    ensures
        ({
            let s = image.sparse->0;
            let entry = s.bat@[v / s.block_size()];
            holds(image, dev, v) <==> entry != 0xFFFF_FFFF && reader::byte_present(
                dev,
                reader::block_host(entry),
                v % s.block_size(),
            )
        }),
{
    let s = image.sparse->0;
    let entry = s.bat@[v / s.block_size()];
    let i = v % s.block_size();
    crate::writing_laws::lemma_position(s, image.size(), v);
    assert(i / 512 / 8 == i / 4096);
    law_bitmap_byte_runs_from_the_top(dev[512 * entry + i / 4096], i / 512 % 8);
}

proof fn lemma_passed_on(r: VhdReader, devs: Seq<Seq<u8>>, k: int, v: int)
    requires
        r.wf(),
        0 <= v,
        0 <= k <= r.images@.len(),
        passed_on(r, devs, k, v),
    ensures
        reader::guest_byte(r.images@, devs, 0, v) == reader::guest_byte(r.images@, devs, k, v),
    decreases k,
{
    if k > 0 {
        lemma_passed_on(r, devs, k - 1, v);
        let image = r.images@[k - 1];
        assert(image.wf());
        assert(v < image.footer.current_size && !holds(image, devs[k - 1], v));
        lemma_holds_is_present(image, devs[k - 1], v);
    }
}

/// Of a chain, the nearest image that has a byte gives it: whichever image
/// it is, where every image above it reaches as far and has no byte of its
/// own there, the guest sees its byte.
pub proof fn law_nearest_image_that_has_a_byte_gives_it(
    r: VhdReader,
    devs: Seq<Seq<u8>>,
    k: int,
    v: int,
)
    requires
        r.wf(),
        0 <= v,
        0 <= k < r.images@.len(),
        passed_on(r, devs, k, v),
        holds(r.images@[k], devs[k], v),
    ensures
        v < r.guest(devs).len(),
        r.guest(devs)[v] == own_byte(r.images@[k], devs[k], v),
{
    lemma_passed_on(r, devs, k, v);
    let image = r.images@[k];
    assert(image.wf());
    if k > 0 {
        assert(v < r.images@[0].footer.current_size);
    }
    if image.sparse is Some {
        lemma_holds_is_present(image, devs[k], v);
    }
}

proof fn lemma_weights(n: int)
    requires
        0 <= n < 8,
    ensures
        weight(n) == vstd::arithmetic::power2::pow2((7 - n) as nat),
{
    vstd::arithmetic::power2::lemma2_to64();
}

/// Image `k`, wherever in the chain it is, gives the byte
/// at `v` where `v` lies inside it, its table names a block for `v` and the
/// bitmap of that block marks the sector of `v`; and each image above it
/// reaches as far, and its table names no block for `v`, or one whose bitmap
/// does not mark the sector. The byte stands behind the bitmap, at its place
/// in the block.
pub proof fn law_any_image_of_a_chain_gives_what_those_above_leave_open(
    r: VhdReader,
    devs: Seq<Seq<u8>>,
    k: int,
    v: int,
)
    requires
        r.wf(),
        0 <= v,
        0 <= k < r.images@.len(),
        forall|j: int|
            0 <= j < k ==> {
                let s = (#[trigger] r.images@[j]).sparse->0;
                let entry = s.bat@[v / s.header.block_size as int];
                let i = v % s.header.block_size as int;
                &&& v < r.images@[j].footer.current_size
                &&& entry == 0xFFFF_FFFF || devs[j][512 * entry + i / 512 / 8] as int
                    / vstd::arithmetic::power2::pow2((7 - i / 512 % 8) as nat) as int % 2 == 0
            },
        v < r.images@[k].footer.current_size,
        r.images@[k].sparse matches Some(s) && {
            let entry = s.bat@[v / s.header.block_size as int];
            let i = v % s.header.block_size as int;
            &&& entry != 0xFFFF_FFFF
            &&& devs[k][512 * entry + i / 512 / 8] as int / vstd::arithmetic::power2::pow2(
                (7 - i / 512 % 8) as nat,
            ) as int % 2 == 1
        },
    ensures
        ({
            let s = r.images@[k].sparse->0;
            let entry = s.bat@[v / s.header.block_size as int];
            let i = v % s.header.block_size as int;
            &&& 0 <= v < r.guest(devs).len()
            &&& r.guest(devs)[v] == devs[k][512 * entry + s.bitmap_size + i]
            &&& reader::guest_byte(r.images@, devs, 0, v) == devs[k][512 * entry + s.bitmap_size + i]
        }),
{
    assert forall|j: int| 0 <= j < k implies v < (
    #[trigger] r.images@[j]).footer.current_size && !holds(r.images@[j], devs[j], v) by {
        let s = r.images@[j].sparse->0;
        let i = v % s.header.block_size as int;
        assert(r.images@[j].wf());
        assert(r.images@[j].footer.disk_type == DiskType::Differencing);
        crate::writing_laws::lemma_position(s, r.images@[j].size(), v);
        lemma_weights(i / 512 % 8);
        assert(i / 512 / 8 == i / 4096);
    }
    let s = r.images@[k].sparse->0;
    let i = v % s.header.block_size as int;
    assert(r.images@[k].wf());
    crate::writing_laws::lemma_position(s, r.images@[k].size(), v);
    lemma_weights(i / 512 % 8);
    assert(i / 512 / 8 == i / 4096);
    law_nearest_image_that_has_a_byte_gives_it(r, devs, k, v);
}

/// A byte that no image has is zero, and so is one at which the images that
/// have none are followed by one that does not reach as far.
pub proof fn law_byte_that_nobody_has_is_zero(r: VhdReader, devs: Seq<Seq<u8>>, k: int, v: int)
    requires
        r.wf(),
        0 <= v < r.images@[0].footer.current_size,
        0 < k <= r.images@.len(),
        passed_on(r, devs, k, v),
        k == r.images@.len() || v >= r.images@[k].footer.current_size,
    ensures
        r.guest(devs)[v] == 0,
{
    lemma_passed_on(r, devs, k, v);
}

/// The disk that the guest sees is as long as its footer says.
pub proof fn law_disk_is_as_long_as_its_footer_says(r: VhdReader, devs: Seq<Seq<u8>>)
    requires
        r.wf(),
    ensures
        r.guest(devs).len() == r.images@[0].footer.current_size,
        r.images@[0].size() == r.images@[0].footer.current_size,
{
}

/// What a finished read has at `j` is the byte of the nearest image that
/// has one, wherever in the chain that is.
pub proof fn law_finished_read_takes_each_byte_from_the_nearest_image(
    ops: Seq<ReadOp>,
    r: VhdReader,
    devs: Seq<Seq<u8>>,
    replies: Seq<Seq<u8>>,
    j: int,
    k: int,
)
    requires
        reading::read_run(ops, r, devs, replies),
        ops[0].consistent(r, devs),
        ops.last().stage == ReadStage::Done,
        0 <= j < ops[0].len,
        0 <= k <= r.images@.len(),
        passed_on(r, devs, k, ops[0].offset + j),
    ensures
        ops.last().out@.len() == ops[0].len,
        k < r.images@.len() && holds(r.images@[k], devs[k], ops[0].offset + j)
            ==> ops.last().out@[j] == own_byte(r.images@[k], devs[k], ops[0].offset + j),
        k > 0 && (k == r.images@.len() || ops[0].offset + j >= r.images@[k].footer.current_size)
            ==> ops.last().out@[j] == 0,
{
    let v = ops[0].offset + j;
    assert(ops[0].wf(r));
    reading::law_finished_read_returns_the_disk(ops, r, devs, replies);
    assert(ops.last().out@[j] == r.guest(devs)[v]);
    if k < r.images@.len() && holds(r.images@[k], devs[k], v) {
        law_nearest_image_that_has_a_byte_gives_it(r, devs, k, v);
    }
    if k > 0 && (k == r.images@.len() || v >= r.images@[k].footer.current_size) {
        law_byte_that_nobody_has_is_zero(r, devs, k, v);
    }
}

/// What a read of a sparse image asks for lies on the image's device.
pub proof fn law_reads_stay_on_the_device(op: ReadOp, r: VhdReader, devs: Seq<Seq<u8>>)
    requires
        op.wf(r),
        r.opened_from(devs),
        op.wanted(r) is Some,
        r.images@[op.level as int].sparse is Some,
    ensures
        op.level < devs.len(),
        0 <= op.wanted(r)->0.offset,
        0 < op.wanted(r)->0.len,
        op.wanted(r)->0.offset + op.wanted(r)->0.len <= devs[op.level as int].len(),
{
    let k = op.level as int;
    let image = r.images@[k];
    let s = image.sparse->0;
    assert(image.wf());
    assert(image.describes(devs[k]));
    assert(op.stage is Bitmap || op.stage is Data);
    crate::writing_laws::lemma_position(s, image.size(), op.cursor());
    assert(s.next_alloc <= devs[k].len());
    let b = op.cursor() / s.block_size();
    assert(s.bat@[b] != 0xFFFF_FFFF);
    assert(reader::block_host(s.bat@[b]) + s.block_total() <= s.next_alloc);
}

/// A read is taken exactly where it is empty or ends inside the disk.
pub proof fn law_read_is_taken_exactly_where(r: VhdReader, offset: u64, len: usize)
    requires
        r.wf(),
    ensures
        reading::read_refusal(r, offset as int, len as int) is None <==> len == 0 || offset + len
            <= r.images@[0].footer.current_size,
        len > 0 && offset + len > 0xFFFF_FFFF_FFFF_FFFF ==> reading::read_refusal(
            r,
            offset as int,
            len as int,
        ) == Some(Error::Corrupt("offset+len overflow")),
        len > 0 && r.images@[0].footer.current_size < offset + len <= 0xFFFF_FFFF_FFFF_FFFF
            ==> reading::read_refusal(r, offset as int, len as int) == Some(
            Error::OutOfBounds {
                offset,
                len: len as u64,
                size: r.images@[0].footer.current_size,
            },
        ),
{
}

/// A reader takes writes exactly where its device does and its image is
/// fixed or dynamic.
pub proof fn law_writes_are_taken_exactly_where(r: VhdReader)
    requires
        r.wf(),
    ensures
        r.takes_writes() <==> r.writable && (r.images@[0].footer.disk_type == DiskType::Fixed
            || r.images@[0].footer.disk_type == DiskType::Dynamic),
{
}

/// The block for `v` can be had: the table names one, or one that is placed
/// at the tail, with the footer behind it, ends where a `u64` can say so.
pub open spec fn has_room(r: VhdReader, v: int) -> bool {
    r.images@[0].sparse matches Some(s) ==> {
        ||| s.bat@[v / s.header.block_size as int] != 0xFFFF_FFFF
        ||| s.next_alloc + s.bitmap_size + s.header.block_size + 512 <= 0xFFFF_FFFF_FFFF_FFFF
    }
}

/// A write is taken exactly where the reader takes writes and it is empty,
/// or ends inside the disk and its first block can be had.
#[verifier::rlimit(40)]
pub proof fn law_write_is_taken_exactly_where(r: VhdReader, offset: u64, len: usize)
    requires
        r.wf(),
    ensures
        writing::write_refusal(r, offset as int, len as int) is None <==> {
            &&& r.writable
            &&& r.images@[0].footer.disk_type != DiskType::Differencing
            &&& len == 0 || (offset + len <= r.images@[0].footer.current_size && (
            r.images@[0].sparse matches Some(s) ==> s.bat@[offset as int / s.header.block_size as int]
                != 0xFFFF_FFFF || s.next_alloc + s.bitmap_size + s.header.block_size + 512
                <= 0xFFFF_FFFF_FFFF_FFFF))
        },
        !r.writable || r.images@[0].footer.disk_type == DiskType::Differencing
            ==> writing::write_refusal(r, offset as int, len as int) == Some(Error::ReadOnly),
        r.takes_writes() && len > 0 && offset + len > 0xFFFF_FFFF_FFFF_FFFF
            ==> writing::write_refusal(r, offset as int, len as int) == Some(
            Error::Corrupt("offset+len overflow"),
        ),
        r.takes_writes() && len > 0 && r.images@[0].footer.current_size < offset + len
            <= 0xFFFF_FFFF_FFFF_FFFF ==> writing::write_refusal(r, offset as int, len as int)
            == Some(
            Error::OutOfBounds {
                offset,
                len: len as u64,
                size: r.images@[0].footer.current_size,
            },
        ),
{
    assert(r.images@[0].wf());
}

/// A write that was taken fails midway, other than by the device, exactly
/// where a fresh block cannot be named in the table, or the next block
/// cannot be had.
#[verifier::rlimit(40)]
pub proof fn law_write_fails_midway_exactly_where(op: WriteOp, r: VhdReader)
    requires
        op.wf(r),
        op.stage != WriteStage::Done,
    ensures
        op.step_refusal(r) is Some <==> (r.images@[0].sparse matches Some(s) && {
            let bs = s.header.block_size as int;
            let v = op.offset + op.written;
            let next = v - v % bs + bs;
            ||| op.stage is ZeroFlush && op.host / 512 >= 0xFFFF_FFFF
            ||| op.stage is PublishFlush && next < op.offset + op.payload@.len() && !has_room(r, next)
        }),
        r.images@[0].sparse is None ==> op.step_refusal(r) is None,
{
    assert(r.images@[0].wf());
    if let Some(s) = r.images@[0].sparse {
        writing::lemma_span(op, s, r.images@[0].size());
    }
}

/// While the blocks of a disk lie below the highest sector that a table
/// entry can name, no write that was taken fails but by the device.
pub proof fn law_write_below_the_highest_sector_goes_on(op: WriteOp, r: VhdReader)
    requires
        op.wf(r),
        op.stage != WriteStage::Done,
        r.images@[0].sparse matches Some(s) ==> s.next_alloc < 512 * 0xFFFF_FFFF,
    ensures
        op.step_refusal(r) is None,
{
    law_write_fails_midway_exactly_where(op, r);
    assert(r.images@[0].wf());
}

/// The table entry for a block can be had exactly where the block stands on
/// a sector boundary, at a sector below 0xFFFF_FFFF.
pub proof fn law_entry_is_had_exactly_where(host: int, entry: u32)
    requires
        0 <= host,
    ensures
        reader::entry_refusal_for(host) is None <==> host % 512 == 0 && host / 512 < 0xFFFF_FFFF,
        reader::block_host(entry) == 512 * entry,
{
}

/// Runs of bytes on a device: what an answer is, what a write leaves, and
/// what a run of zeros is.
pub proof fn law_device_bytes(dev: Seq<u8>, at: int, bytes: Seq<u8>, n: int)
    requires
        0 <= at,
        0 <= n,
    ensures
        at + n <= dev.len() ==> (device::answers(dev, at, n, bytes) <==> bytes == dev.subrange(
            at,
            at + n,
        )),
        at + n > dev.len() ==> !device::answers(dev, at, n, bytes),
        device::zeros(n).len() == n,
        forall|i: int| 0 <= i < n ==> #[trigger] device::zeros(n)[i] == 0,
        device::written(dev, at, bytes).len() >= dev.len(),
        device::written(dev, at, bytes).len() >= at + bytes.len(),
        device::written(dev, at, bytes).len() == dev.len() || device::written(dev, at, bytes).len()
            == at + bytes.len(),
        device::written(dev, at, bytes).subrange(at, at + bytes.len()) == bytes,
        forall|i: int|
            0 <= i < dev.len() && !(at <= i < at + bytes.len()) ==> #[trigger] device::written(
                dev,
                at,
                bytes,
            )[i] == dev[i],
{
    assert(device::written(dev, at, bytes).subrange(at, at + bytes.len()) =~= bytes);
    if at + n <= dev.len() && device::answers(dev, at, n, bytes) {
        assert(bytes =~= dev.subrange(at, at + n));
    }
}

/// How many bytes of the payload go into the block of the next byte: up to
/// the end of the block, or all that are left.
pub open spec fn piece_of(op: WriteOp, block_size: int) -> int {
    let v = op.offset + op.written;
    let room = block_size - v % block_size;
    let left = op.payload@.len() - op.written;
    if left < room {
        left
    } else {
        room
    }
}

/// A write to a fixed disk is one request.
pub proof fn law_request_of_a_write_to_a_fixed_disk(op: WriteOp, r: VhdReader)
    requires
        op.wf(r),
        op.stage != WriteStage::Done,
        r.images@[0].sparse is None,
    ensures
        op.pending(r) == (Pending::Write { offset: op.offset as int, bytes: op.payload@ }),
{
}

/// What a fresh block takes. It is zeroed from its start on, at most a
/// mebibyte at a time; its entry goes to the table, four bytes per block;
/// the footer goes behind it.
#[verifier::rlimit(40)]
pub proof fn law_requests_of_an_allocation(op: WriteOp, r: VhdReader)
    requires
        op.wf(r),
        r.images@[0].sparse is Some,
        op.stage is Zeroing || op.stage is Entry || op.stage is Mirror,
    ensures
        ({
            let s = r.images@[0].sparse->0;
            let bs = s.header.block_size as int;
            let v = op.offset + op.written;
            &&& op.stage matches WriteStage::Zeroing(done) ==> {
                let left = s.bitmap_size + bs - done;
                op.pending(r) matches Pending::Write { offset, bytes } && offset == op.host + done
                    && bytes.len() == (if left < 1048576 {
                    left
                } else {
                    1048576
                }) && forall|j: int| 0 <= j < bytes.len() ==> #[trigger] bytes[j] == 0
            }
            &&& op.stage matches WriteStage::Entry(entry) ==> {
                op.pending(r) matches Pending::Write { offset, bytes } && offset
                    == s.header.table_offset + 4 * (v / bs) && bytes.len() == 4 && 16777216
                    * bytes[0] + 65536 * bytes[1] + 256 * bytes[2] + bytes[3] == entry && 512
                    * entry == op.host
            }
            &&& op.stage is Mirror ==> op.pending(r) == (Pending::Write {
                offset: op.host + s.bitmap_size + bs,
                bytes: r.images@[0].footer_bytes@,
            })
        }),
{
    assert(r.images@[0].wf());
    if let WriteStage::Entry(entry) = op.stage {
        crate::format_laws::law_integers_read_back(entry as int);
    }
}

/// Where a piece of the payload goes: behind the block's bitmap, at its
/// place in the block. The bitmap is read before, and written after.
#[verifier::rlimit(40)]
pub proof fn law_requests_of_a_piece(op: WriteOp, r: VhdReader)
    requires
        op.wf(r),
        r.images@[0].sparse is Some,
        op.stage is Bitmap || op.stage is Payload || op.stage is Publish,
    ensures
        ({
            let s = r.images@[0].sparse->0;
            let bs = s.header.block_size as int;
            let v = op.offset + op.written;
            &&& 512 * s.bat@[v / bs] == op.host
            &&& op.stage is Bitmap ==> op.pending(r) == (Pending::Read {
                offset: op.host as int,
                len: s.bitmap_size as int,
            })
            &&& op.stage is Payload ==> op.pending(r) == (Pending::Write {
                offset: op.host + s.bitmap_size + v % bs,
                bytes: op.payload@.subrange(op.written as int, op.written + piece_of(op, bs)),
            })
            &&& op.stage is Publish ==> op.pending(r) == (Pending::Write {
                offset: op.host as int,
                bytes: op.bitmap@,
            })
        }),
{
    assert(r.images@[0].wf());
}

/// What a piece leaves open of its first and its last sector is filled with
/// zeros: from the start of the first sector to the piece, and from the
/// piece to the end of the last.
#[verifier::rlimit(40)]
pub proof fn law_requests_at_open_ends(op: WriteOp, r: VhdReader)
    requires
        op.wf(r),
        r.images@[0].sparse is Some,
        op.stage is Head || op.stage is Tail,
    ensures
        ({
            let s = r.images@[0].sparse->0;
            let bs = s.header.block_size as int;
            let data = op.host + s.bitmap_size;
            let i = (op.offset + op.written) % bs;
            let end = i + piece_of(op, bs);
            op.pending(r) matches Pending::Write { offset, bytes } && {
                &&& forall|j: int| 0 <= j < bytes.len() ==> #[trigger] bytes[j] == 0
                &&& 0 < bytes.len() < 512
                &&& op.stage is Head ==> (offset - data) % 512 == 0 && offset + bytes.len() == data + i
                &&& op.stage is Tail ==> offset == data + end && (end + bytes.len()) % 512 == 0
            }
        }),
{
    assert(r.images@[0].wf());
    writing::lemma_span(op, r.images@[0].sparse->0, r.images@[0].size());
}

/// How a write starts. On a fixed disk it is one request; on a dynamic one
/// the block that the table names for the first byte is gone to, or, where
/// it names none, a fresh block at the tail is zeroed.
pub proof fn law_write_starts_at_its_block(op: WriteOp, r: VhdReader, offset: int, payload: Seq<u8>)
    requires
        r.wf(),
        writing::begins(op, r, offset, payload),
    ensures
        op.offset == offset,
        op.payload@ == payload,
        op.written == 0,
        payload.len() == 0 <==> op.stage == WriteStage::Done,
        payload.len() > 0 && r.images@[0].sparse is None ==> op.stage == WriteStage::Direct,
        payload.len() > 0 ==> (r.images@[0].sparse matches Some(s) ==> {
            let entry = s.bat@[offset / s.header.block_size as int];
            &&& entry == 0xFFFF_FFFF ==> op.stage == WriteStage::Zeroing(0) && op.host
                == s.next_alloc
            &&& entry != 0xFFFF_FFFF ==> op.stage == WriteStage::Bitmap && op.host == 512 * entry
        }),
{
}

/// What comes after what in a write to a dynamic disk, and what becomes of
/// the table and of the tail. The tail moves past the fresh block once the
/// block is zeroed for good; the table names the block once the entry is on
/// the device for good. A piece that is marked for good is behind the
/// write, and the next one starts at the block that the table names, or at
/// the tail.
#[verifier::rlimit(40)]
pub proof fn law_steps_of_a_write(
    op: WriteOp,
    r: VhdReader,
    answer: Seq<u8>,
    op2: WriteOp,
    r2: VhdReader,
)
    requires
        op.wf(r),
        op.stage != WriteStage::Done,
        r.images@[0].sparse is Some,
        op2.follows(r2, op, r, answer),
    ensures
        ({
            let s = r.images@[0].sparse->0;
            let t = r2.images@[0].sparse->0;
            let bs = s.header.block_size as int;
            let b = (op.offset + op.written) / bs;
            let total = s.bitmap_size + bs;
            &&& r2.images@[0].sparse is Some
            &&& r2.images@[0].footer == r.images@[0].footer
            &&& r2.images@[0].footer_bytes == r.images@[0].footer_bytes
            &&& r2.images@[0].recovered == r.images@[0].recovered
            &&& r2.images@.len() == r.images@.len()
            &&& r2.writable == r.writable
            &&& t.header == s.header
            &&& t.bitmap_size == s.bitmap_size
            &&& op2.offset == op.offset
            &&& op2.payload@ == op.payload@
            &&& t.next_alloc == if op.stage is ZeroFlush {
                s.next_alloc + total
            } else {
                s.next_alloc as int
            }
            &&& t.bat@.len() == s.bat@.len()
            &&& forall|c: int|
                0 <= c < s.bat@.len() && c != b ==> #[trigger] t.bat@[c] == s.bat@[c]
            &&& op.stage is EntryFlush ==> 512 * t.bat@[b] == op.host
            &&& !(op.stage is EntryFlush) ==> t.bat@[b] == s.bat@[b]
            &&& op.stage matches WriteStage::Zeroing(done) ==> {
                if total - done <= 1048576 {
                    op2.stage is ZeroFlush
                } else {
                    op2.stage == WriteStage::Zeroing((done + 1048576) as u64)
                }
            }
            &&& op.stage is ZeroFlush ==> op2.stage is Entry
            &&& op.stage is Entry ==> op2.stage is EntryFlush
            &&& op.stage is EntryFlush ==> op2.stage is Mirror
            &&& op.stage is Mirror ==> op2.stage is MirrorFlush
            &&& op.stage is MirrorFlush ==> op2.stage is Bitmap
            &&& op.stage is Bitmap ==> op2.bitmap@ == answer && (op2.stage is Head || op2.stage is Tail
                || op2.stage is Payload)
            &&& op.stage is Head ==> op2.stage is Tail || op2.stage is Payload
            &&& op.stage is Tail ==> op2.stage is Payload
            &&& op.stage is Payload ==> op2.stage is Publish
            &&& op.stage is Publish ==> op2.stage is PublishFlush
            &&& op2.written == if op.stage is PublishFlush {
                op.written + piece_of(op, bs)
            } else {
                op.written as int
            }
            &&& op.stage is PublishFlush && op2.written == op.payload@.len() ==> op2.stage
                == WriteStage::Done
            &&& op.stage is PublishFlush && op2.written < op.payload@.len() ==> {
                let entry = s.bat@[(op.offset + op2.written) / bs];
                &&& entry == 0xFFFF_FFFF ==> op2.stage == WriteStage::Zeroing(0) && op2.host
                    == s.next_alloc
                &&& entry != 0xFFFF_FFFF ==> op2.stage == WriteStage::Bitmap && op2.host == 512
                    * entry
            }
            &&& !(op.stage is PublishFlush) ==> op2.host == op.host
        }),
{
    assert(r.images@[0].wf());
    writing::lemma_span(op, r.images@[0].sparse->0, r.images@[0].size());
}

/// A write to a fixed disk is done with its one request.
pub proof fn law_step_of_a_write_to_a_fixed_disk(
    op: WriteOp,
    r: VhdReader,
    answer: Seq<u8>,
    op2: WriteOp,
    r2: VhdReader,
)
    requires
        op.wf(r),
        op.stage != WriteStage::Done,
        r.images@[0].sparse is None,
        op2.follows(r2, op, r, answer),
    ensures
        r2 == r,
        op2.stage == WriteStage::Done,
        op2.offset == op.offset,
        op2.payload@ == op.payload@,
        op2.written == op.payload@.len(),
{
}

/// Zeros go before the payload exactly where it starts inside a sector that
/// the block does not hold yet, and behind it exactly where it ends inside
/// one.
#[verifier::rlimit(40)]
pub proof fn law_open_ends_are_filled_exactly_where(
    op: WriteOp,
    r: VhdReader,
    answer: Seq<u8>,
    op2: WriteOp,
    r2: VhdReader,
)
    requires
        op.wf(r),
        op.stage is Bitmap || op.stage is Head,
        r.images@[0].sparse is Some,
        op.stage is Bitmap ==> answer.len() == r.images@[0].sparse->0.bitmap_size,
        op2.follows(r2, op, r, answer),
    ensures
        ({
            let bs = r.images@[0].sparse->0.header.block_size as int;
            let i = (op.offset + op.written) % bs;
            let end = i + piece_of(op, bs);
            let map = op2.bitmap@;
            let first = map[i / 512 / 8] as int / weight(i / 512 % 8) % 2 == 1;
            let last = map[(end - 1) / 512 / 8] as int / weight((end - 1) / 512 % 8) % 2 == 1;
            &&& op.stage is Bitmap ==> (op2.stage is Head <==> i % 512 != 0 && !first)
            &&& !(op2.stage is Head) ==> (op2.stage is Tail <==> end % 512 != 0 && !last)
        }),
{
    let s = r.images@[0].sparse->0;
    assert(r.images@[0].wf());
    writing::lemma_span(op, s, r.images@[0].size());
    let i = op.in_block(s);
    let end = i + op.chunk(s);
    assert(op2.bitmap@.len() == s.bitmap());
    law_bitmap_sector(op2.bitmap@, i / 512);
    law_bitmap_sector(op2.bitmap@, (end - 1) / 512);
}

/// The bitmap that goes to the device with a piece marks the sectors that
/// the piece touches and those that were marked before, and no other.
#[verifier::rlimit(40)]
pub proof fn law_bitmap_marks_what_was_written(
    op: WriteOp,
    r: VhdReader,
    answer: Seq<u8>,
    op2: WriteOp,
    r2: VhdReader,
    n: int,
)
    requires
        op.wf(r),
        op.stage is Payload,
        r.images@[0].sparse is Some,
        op2.follows(r2, op, r, answer),
        0 <= n < 8 * op.bitmap@.len(),
    ensures
        ({
            let bs = r.images@[0].sparse->0.header.block_size as int;
            let i = (op.offset + op.written) % bs;
            let end = i + piece_of(op, bs);
            let before = op.bitmap@[n / 8] as int / weight(n % 8) % 2 == 1;
            let after = op2.bitmap@[n / 8] as int / weight(n % 8) % 2 == 1;
            &&& op2.bitmap@.len() == op.bitmap@.len()
            &&& after <==> before || (512 * n < end && i < 512 * (n + 1))
        }),
{
    let s = r.images@[0].sparse->0;
    assert(r.images@[0].wf());
    writing::lemma_span(op, s, r.images@[0].size());
    law_bitmap_sector(op.bitmap@, n);
    law_bitmap_sector(op2.bitmap@, n);
}

/// A finished write has changed the bytes of its range to its payload, and
/// no other byte of the disk.
pub proof fn law_finished_write_changes_its_range_and_no_other(
    ops: Seq<WriteOp>,
    readers: Seq<VhdReader>,
    devs: Seq<Seq<u8>>,
    replies: Seq<Seq<u8>>,
    offset: int,
    payload: Seq<u8>,
    v: int,
)
    requires
        crate::writing_laws::write_run(ops, readers, devs, replies),
        writing::write_refusal(readers[0], offset, payload.len() as int) is None,
        writing::begins(ops[0], readers[0], offset, payload),
        crate::writing_laws::ready(readers[0], devs[0]),
        ops.last().stage == WriteStage::Done,
        0 <= offset,
        0 <= v < readers[0].images@[0].footer.current_size,
    ensures
        readers.last().guest(seq![devs.last()]).len() == readers[0].images@[0].footer.current_size,
        offset <= v < offset + payload.len() ==> readers.last().guest(seq![devs.last()])[v]
            == payload[v - offset],
        v < offset || offset + payload.len() <= v ==> readers.last().guest(seq![devs.last()])[v]
            == readers[0].guest(seq![devs[0]])[v],
{
    crate::writing_laws::law_finished_write_is_spliced_in(
        ops,
        readers,
        devs,
        replies,
        offset,
        payload,
    );
}

} // verus!
