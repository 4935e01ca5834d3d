//! Opening: from the bytes of a device to an image that can be believed.
//!
//! An image is refused before a caller holds a reader for it where its
//! footer, its dynamic header or its block allocation table cannot be
//! believed. A damaged trailing footer is made good from the copy at
//! offset 0.
use crate::device;
use crate::dynamic as dynamic_header;
use crate::dynamic::{DynamicHeader, BAT_UNALLOCATED, DYN_HEADER_SIZE};
use crate::error::{Error, Result};
use crate::footer as footer_block;
use crate::footer::{DiskType, Footer, FOOTER_SIZE};
use crate::format as wire;
use crate::format::dynamic_offsets;
use crate::format::footer_offsets;
use crate::format::{disk_type_wire, SECTOR_SIZE};
use crate::reader;
use crate::reader::{Image, Sparse, VhdReader, MAX_PARENT_DEPTH};
use crate::reading::Extent;
use crate::table;
use crate::table::{check_table, parse_table};
use crate::text;
use crate::text::hex16;
use vstd::prelude::*;

verus! {

/// The last 512 bytes of a device.
pub open spec fn trailing_footer(d: Seq<u8>) -> Seq<u8> {
    d.subrange(d.len() - 512, d.len() as int)
}

/// The first 512 bytes of a device.
pub open spec fn mirror_footer(d: Seq<u8>) -> Seq<u8> {
    d.subrange(0, 512)
}

/// The disk type that footer bytes carry.
pub open spec fn wire_type(f: Seq<u8>) -> int {
    wire::be32(f, footer_offsets::DISK_TYPE as int)
}

/// The first 512 bytes are a footer of an image that keeps a copy of it
/// there.
pub open spec fn mirror_usable(d: Seq<u8>) -> bool {
    footer_block::footer_refusal(mirror_footer(d)) is None && wire_type(mirror_footer(d))
        != disk_type_wire::FIXED
}

/// The trailing footer is damaged and the copy at offset 0 is not.
pub open spec fn recovered(d: Seq<u8>) -> bool {
    footer_block::footer_refusal(trailing_footer(d)) is Some && mirror_usable(d)
}

/// The footer that is believed.
pub open spec fn footer_of(d: Seq<u8>) -> Seq<u8> {
    if recovered(d) {
        mirror_footer(d)
    } else {
        trailing_footer(d)
    }
}

pub open spec fn virtual_size_of(d: Seq<u8>) -> int {
    wire::be64(footer_of(d), footer_offsets::CURRENT_SIZE as int)
}

pub open spec fn header_offset_of(d: Seq<u8>) -> int {
    wire::be64(footer_of(d), footer_offsets::DATA_OFFSET as int)
}

pub open spec fn is_fixed(d: Seq<u8>) -> bool {
    wire_type(footer_of(d)) == disk_type_wire::FIXED
}

pub open spec fn is_differencing(d: Seq<u8>) -> bool {
    wire_type(footer_of(d)) == disk_type_wire::DIFFERENCING
}

/// The bytes of the dynamic header.
pub open spec fn header_of(d: Seq<u8>) -> Seq<u8> {
    wire::field(d, header_offset_of(d), 1024)
}

pub open spec fn block_size_of(d: Seq<u8>) -> int {
    wire::be32(header_of(d), dynamic_offsets::BLOCK_SIZE as int)
}

pub open spec fn table_offset_of(d: Seq<u8>) -> int {
    wire::be64(header_of(d), dynamic_offsets::TABLE_OFFSET as int)
}

pub open spec fn table_entries_of(d: Seq<u8>) -> int {
    wire::be32(header_of(d), dynamic_offsets::MAX_TABLE_ENTRIES as int)
}

pub open spec fn table_end_of(d: Seq<u8>) -> int {
    table_offset_of(d) + 4 * table_entries_of(d)
}

/// The block allocation table.
pub open spec fn table_of(d: Seq<u8>) -> Seq<u32> {
    Seq::new(
        table_entries_of(d) as nat,
        |b: int| wire::be32(d, table_offset_of(d) + 4 * b) as u32,
    )
}

pub open spec fn round_up(v: int) -> int {
    (v + 511) / 512 * 512
}

/// Where the metadata of the image ends.
pub open spec fn metadata_end(header_offset: int, table_end: int) -> int {
    let header_end = if header_offset + 1024 < 512 { 512 } else { header_offset + 1024 };
    if header_end < table_end { table_end } else { header_end }
}

/// The first host offset at which a block may stand.
pub open spec fn data_start_of(d: Seq<u8>) -> int {
    round_up(metadata_end(header_offset_of(d), table_end_of(d)))
}

/// Where the data area ends: where the trailing footer begins, or, where
/// there is none, at the end of the device. An allocation that was cut
/// short leaves its block there, and no footer behind it.
pub open spec fn data_end_of(d: Seq<u8>) -> int {
    if recovered(d) {
        d.len() as int
    } else {
        d.len() - 512
    }
}

pub open spec fn block_total_of(d: Seq<u8>) -> int {
    dynamic_header::bitmap_bytes(block_size_of(d)) + block_size_of(d)
}

/// Why the device that holds `d` is no image, or `None` where it is one.
/// What stands first wins. Parents are another matter.
#[verifier::opaque]
pub open spec fn image_refusal(d: Seq<u8>) -> Option<Error> {
    if d.len() < FOOTER_SIZE {
        Some(Error::Corrupt("device shorter than 512 bytes"))
    } else if footer_block::footer_refusal(footer_of(d)) is Some {
        footer_block::footer_refusal(footer_of(d))
    } else if is_fixed(d) {
        None
    } else if header_offset_of(d) == u64::MAX {
        Some(Error::Corrupt("dynamic/differencing footer has data_offset = 0xFFFF..."))
    } else if d.len() % 512 != 0 {
        Some(
            Error::Corrupt(
                "sparse image length is not a multiple of 512, so its blocks cannot sit on sector boundaries",
            ),
        )
    } else if dynamic_header::header_refusal(header_of(d)) is Some {
        dynamic_header::header_refusal(header_of(d))
    } else if table_entries_of(d) * block_size_of(d) < virtual_size_of(d) {
        Some(Error::Corrupt("BAT is too small to describe the declared virtual size"))
    } else if table_end_of(d) > u64::MAX {
        Some(Error::Corrupt("BAT extent overflows"))
    } else if table_end_of(d) > d.len() {
        Some(Error::Corrupt("BAT extends past the end of the image"))
    } else {
        table::table_refusal(table_of(d), data_start_of(d), data_end_of(d), block_total_of(d))
    }
}

impl Image {
    /// The image has a name for its parent.
    pub open spec fn names_parent(self) -> bool {
        self.sparse matches Some(s) && s.header.parent_name@.len() > 0
    }

    /// This image is what is found on the device that holds `d`.
    pub open spec fn describes(self, d: Seq<u8>) -> bool {
        &&& self.footer_bytes@ == footer_of(d)
        &&& self.footer.describes(footer_of(d))
        &&& self.recovered == recovered(d)
        &&& match self.sparse {
            None => is_fixed(d),
            Some(s) => {
                &&& !is_fixed(d)
                &&& s.header.describes(header_of(d))
                &&& s.bat@ == table_of(d)
                &&& s.bitmap_size == dynamic_header::bitmap_bytes(block_size_of(d))
                &&& s.next_alloc == data_end_of(d)
            },
        }
    }
}

/// The footer that an image is opened with.
#[derive(Debug)]
pub struct FooterFound {
    pub footer: Footer,
    pub bytes: Vec<u8>,
    pub recovered: bool,
}

/// Where opening stands: what the next request is for.
#[derive(Debug)]
pub enum OpenStage {
    /// The last 512 bytes of the device.
    Footer,
    /// The first 512, because of what is wrong with the last.
    Mirror(Error),
    /// The dynamic header.
    Header(FooterFound),
    /// The block allocation table.
    Table(FooterFound, DynamicHeader),
    /// The parent, in the directory of the child.
    Beside,
    Ready,
}

/// What is needed next.
#[derive(Debug)]
pub enum OpenRequest {
    /// Bytes of the device being opened.
    Read { offset: u64, len: u64 },
    /// The device of the parent: the file of that name in the directory of
    /// the image opened last. A parent that is not there is not found.
    FindParent { name: String },
    Ready,
}

/// An image being opened, and with it the chain of its parents.
pub struct OpenOp {
    /// The image has a path, relative to which a parent can be looked for.
    pub has_path: bool,
    pub writable: bool,
    /// The images opened so far, each the parent of the one before.
    pub images: Vec<Image>,
    /// Size of the device being opened.
    pub size: u64,
    pub stage: OpenStage,
}

impl FooterFound {
    /// This is the footer of a sparse image on a device of `size` bytes.
    pub open spec fn wf(self, size: int) -> bool {
        &&& self.bytes@.len() == 512
        &&& self.footer.describes(self.bytes@)
        &&& self.footer.disk_type != DiskType::Fixed
        &&& self.footer.data_offset != u64::MAX
        &&& size % 512 == 0
    }

    pub open spec fn describes(self, d: Seq<u8>) -> bool {
        &&& self.bytes@ == footer_of(d)
        &&& self.recovered == recovered(d)
        &&& footer_block::footer_refusal(footer_of(d)) is None
    }
}

impl OpenOp {
    /// A device is being read, not a parent looked for.
    pub open spec fn in_device(self) -> bool {
        match self.stage {
            OpenStage::Footer
            | OpenStage::Mirror(_)
            | OpenStage::Header(_)
            | OpenStage::Table(_, _) => true,
            _ => false,
        }
    }

    /// The state is one that opening passes through.
    pub open spec fn wf(self) -> bool {
        &&& forall|k: int| 0 <= k < self.images@.len() ==> (#[trigger] self.images@[k]).wf()
        &&& forall|k: int|
            0 <= k < self.images@.len() ==> ((#[trigger] self.images@[k]).footer.disk_type
                == DiskType::Differencing <==> !(self.stage is Ready) || k + 1 < self.images@.len())
        &&& forall|k: int|
            0 <= k < self.images@.len() && (#[trigger] self.images@[k]).footer.disk_type
                == DiskType::Differencing ==> self.has_path && self.images@[k].names_parent()
        &&& self.in_device() ==> self.images@.len() < MAX_PARENT_DEPTH && self.size >= 512
        &&& !self.in_device() ==> 0 < self.images@.len() <= MAX_PARENT_DEPTH
        &&& match self.stage {
            OpenStage::Header(found) => found.wf(self.size as int),
            OpenStage::Table(found, header) => {
                &&& found.wf(self.size as int)
                &&& dynamic_header::power_of_two(header.block_size as int)
                &&& header.block_size >= 512
                &&& header.max_table_entries * header.block_size >= found.footer.current_size
                &&& header.table_offset + 4 * header.max_table_entries <= self.size
            },
            _ => true,
        }
    }

    /// The part of the device that is to be read next; `None` where no
    /// part is.
    pub open spec fn wanted(self) -> Option<Extent> {
        match self.stage {
            OpenStage::Footer => Some(Extent { offset: self.size - 512, len: 512 }),
            OpenStage::Mirror(_) => Some(Extent { offset: 0, len: 512 }),
            OpenStage::Header(found) => Some(
                Extent { offset: found.footer.data_offset as int, len: 1024 },
            ),
            OpenStage::Table(_, header) => Some(
                Extent {
                    offset: header.table_offset as int,
                    len: 4 * header.max_table_entries,
                },
            ),
            _ => None,
        }
    }

    /// What has been learnt so far is true of the devices that hold
    /// `devs`: those of the images opened, and then the one being read.
    pub open spec fn knows(self, devs: Seq<Seq<u8>>) -> bool {
        let n = self.images@.len();
        let d = devs[n as int];
        &&& devs.len() == if self.in_device() { n + 1 } else { n }
        &&& forall|k: int|
            0 <= k < n ==> (#[trigger] self.images@[k]).describes(devs[k]) && image_refusal(devs[k])
                is None
        &&& self.in_device() ==> d.len() == self.size
        &&& match self.stage {
            OpenStage::Mirror(e) => footer_block::footer_refusal(trailing_footer(d)) == Some(e),
            OpenStage::Header(found) => found.describes(d),
            OpenStage::Table(found, header) => {
                &&& found.describes(d)
                &&& header_offset_of(d) + 1024 <= d.len()
                &&& header.describes(header_of(d))
                &&& dynamic_header::header_refusal(header_of(d)) is None
            },
            OpenStage::Ready => forall|k: int|
                0 <= k < n - 1 ==> !#[trigger] stranger_at(devs, k),
            _ => true,
        }
    }

    /// The name under which the parent is looked for.
    pub open spec fn asked_name(self) -> Seq<char> {
        self.images@.last().sparse->0.header.parent_name@
    }

    /// Why a parent whose device is `size` bytes long is not opened, or
    /// `None` where opening it begins.
    pub open spec fn parent_refusal(self, size: u64) -> Option<Error> {
        if self.images@.len() >= MAX_PARENT_DEPTH {
            Some(Error::ParentTooDeep)
        } else if size < FOOTER_SIZE {
            Some(Error::Corrupt("device shorter than 512 bytes"))
        } else {
            None
        }
    }

    /// Steps still to go: every one makes it smaller.
    pub open spec fn work_left(self) -> int {
        8 * (MAX_PARENT_DEPTH - self.images@.len()) + match self.stage {
            OpenStage::Footer => 7int,
            OpenStage::Mirror(_) => 6,
            OpenStage::Header(_) => 5,
            OpenStage::Table(_, _) => 4,
            OpenStage::Beside => 9,
            OpenStage::Ready => 0,
        }
    }
}

/// The identity that a child names for its parent.
pub open spec fn named_parent(d: Seq<u8>) -> Seq<u8> {
    wire::field(header_of(d), dynamic_offsets::PARENT_UNIQUE_ID.start as int, 16)
}

/// The identity of an image.
pub open spec fn identity(d: Seq<u8>) -> Seq<u8> {
    wire::field(footer_of(d), footer_offsets::UNIQUE_ID.start as int, 16)
}

/// The name that a child has for its parent.
pub open spec fn parent_name_of(d: Seq<u8>) -> Seq<char> {
    dynamic_header::decoded_name(
        header_of(d).subrange(
            dynamic_offsets::PARENT_UNICODE_NAME.start as int,
            dynamic_offsets::PARENT_UNICODE_NAME.end as int,
        ),
    )
}

/// Image `k + 1` is not the parent that image `k` names.
pub open spec fn stranger_at(devs: Seq<Seq<u8>>, k: int) -> bool {
    identity(devs[k + 1]) != named_parent(devs[k])
}

/// What is said of a parent that is not the one the child names.
pub open spec fn stranger_text(found: Seq<u8>, named: Seq<u8>) -> Seq<char> {
    "found a parent whose unique_id is "@ + text::hex_text(found) + " where the child names "@
        + text::hex_text(named)
}

/// The error is a parent not found, in these words.
pub open spec fn parent_not_found(e: Error, words: Seq<char>) -> bool {
    e matches Error::ParentNotFound(t) && t@ == words
}

/// `e` is why the chain on `devs`, the last of which was read just now, is
/// refused.
pub open spec fn chain_refused(e: Error, devs: Seq<Seq<u8>>, has_path: bool) -> bool {
    let d = devs.last();
    match image_refusal(d) {
        Some(why) => e == why,
        None => if is_differencing(d) {
            if !has_path {
                e == Error::Unsupported(
                    "differencing VHD opened on a raw device; parent resolution needs a path",
                )
            } else {
                &&& parent_name_of(d).len() == 0
                &&& parent_not_found(e, "differencing VHD has empty parent name"@)
            }
        } else {
            exists|k: int|
                {
                    &&& 0 <= k < devs.len() - 1
                    &&& #[trigger] stranger_at(devs, k)
                    &&& forall|j: int| k < j < devs.len() - 1 ==> !#[trigger] stranger_at(devs, j)
                    &&& parent_not_found(
                        e,
                        stranger_text(identity(devs[k + 1]), named_parent(devs[k])),
                    )
                }
        },
    }
}

/// Whether two identities are the same, byte for byte.
fn same_identity(a: &[u8; 16], b: &[u8; 16]) -> (r: bool)
    ensures
        r == (a@ == b@),
{
    let mut i: usize = 0;
    while i < 16
        invariant
            i <= 16,
            forall|j: int| 0 <= j < i ==> a@[j] == b@[j],
        decreases 16 - i,
    {
        if a[i] != b[i] {
            return false;
        }
        i += 1;
    }
    proof {
        assert(a@ =~= b@);
    }
    true
}

/// The parent a child found is the parent it named, or it is not its
/// parent.
///
/// A differencing image is a delta: the child holds only the sectors it
/// changed, and every other sector comes from the parent. A delta bolted
/// onto a different parent is a disk that is internally consistent, opens
/// without complaint, and is wrong.
///
/// `parent_timestamp` is deliberately not enforced: a parent may have been
/// modified after the child was created.
pub fn check_parent_identity(parent: &Footer, header: &DynamicHeader) -> (r: Result<()>)
    ensures
        r is Ok <==> parent.unique_id@ == header.parent_unique_id@,
        r matches Err(e) ==> parent_not_found(
            e,
            stranger_text(parent.unique_id@, header.parent_unique_id@),
        ),
{
    if same_identity(&parent.unique_id, &header.parent_unique_id) {
        return Ok(());
    }
    let mut words = "found a parent whose unique_id is ".to_owned();
    words.append(hex16(&parent.unique_id).as_str());
    words.append(" where the child names ");
    words.append(hex16(&header.parent_unique_id).as_str());
    Err(Error::ParentNotFound(words))
}

/// Check every image of a chain against the one above it, from the far end
/// of the chain up.
fn check_chain(images: &Vec<Image>, Ghost(has_path): Ghost<bool>) -> (r: Result<()>)
    requires
        images@.len() > 0,
        forall|k: int|
            0 <= k < images@.len() - 1 ==> (#[trigger] images@[k]).wf()
                && images@[k].footer.disk_type == DiskType::Differencing,
    ensures
        forall|devs: Seq<Seq<u8>>| #[trigger]
            chain_on(images@, devs) ==> match r {
                Ok(_) => forall|k: int|
                    0 <= k < images@.len() - 1 ==> !#[trigger] stranger_at(devs, k),
                Err(e) => chain_refused(e, devs, has_path),
            },
{
    let mut k: usize = images.len() - 1;
    while k > 0
        invariant
            k < images@.len(),
            forall|j: int|
                0 <= j < images@.len() - 1 ==> (#[trigger] images@[j]).wf()
                    && images@[j].footer.disk_type == DiskType::Differencing,
            forall|devs: Seq<Seq<u8>>, j: int|
                chain_on(images@, devs) && k <= j < images@.len() - 1 ==> !#[trigger] stranger_at(
                    devs,
                    j,
                ),
        decreases k,
    {
        proof {
            assert(images@[k - 1].wf());
        }
        match &images[k - 1].sparse {
            Some(s) => {
                let checked = check_parent_identity(&images[k].footer, &s.header);
                proof {
                    assert forall|devs: Seq<Seq<u8>>| #[trigger] chain_on(
                        images@,
                        devs,
                    ) implies identity(devs[k as int]) == images@[k as int].footer.unique_id@
                        && named_parent(devs[k - 1]) == s.header.parent_unique_id@ by {
                        assert(images@[k as int].describes(devs[k as int]));
                        assert(images@[k - 1].describes(devs[k - 1]));
                    }
                }
                match checked {
                    Ok(_) => {
                        proof {
                            assert forall|devs: Seq<Seq<u8>>, j: int|
                                chain_on(images@, devs) && k - 1 <= j < images@.len()
                                    - 1 implies !#[trigger] stranger_at(devs, j) by {
                                assert(k <= j || j == k - 1);
                            }
                        }
                    },
                    Err(e) => {
                        proof {
                            assert forall|devs: Seq<Seq<u8>>| #[trigger] chain_on(
                                images@,
                                devs,
                            ) implies chain_refused(e, devs, has_path) by {
                                assert(stranger_at(devs, k - 1));
                                assert(images@[images@.len() - 1].describes(devs.last()));
                            }
                        }
                        return Err(e);
                    },
                }
            },
            None => {},
        }
        k = k - 1;
    }
    Ok(())
}

/// Each image is what is found on its device, and none is refused.
pub open spec fn images_on(images: Seq<Image>, devs: Seq<Seq<u8>>) -> bool {
    &&& devs.len() == images.len()
    &&& forall|k: int|
        0 <= k < images.len() ==> (#[trigger] images[k]).describes(devs[k]) && image_refusal(devs[k])
            is None
}

/// The whole chain, down to an image without a parent, is what is found on
/// `devs`.
pub open spec fn chain_on(images: Seq<Image>, devs: Seq<Seq<u8>>) -> bool {
    &&& images.len() > 0
    &&& !is_differencing(devs.last())
    &&& images_on(images, devs)
}

/// `op` is right of `devs`, and on them `bytes` is the right answer.
pub open spec fn answered(op: OpenOp, bytes: Seq<u8>, devs: Seq<Seq<u8>>) -> bool {
    &&& op.knows(devs)
    &&& device::answers(devs.last(), op.wanted()->0.offset, op.wanted()->0.len, bytes)
}

/// What a step from `op` comes to where the device answered `bytes`: of
/// any devices of which `op` was right and on which that answer is right,
/// the next state is right, or the error is why they are refused.
pub open spec fn open_step(op: OpenOp, bytes: Seq<u8>, res: Result<OpenOp>) -> bool {
    forall|devs: Seq<Seq<u8>>| #[trigger]
        answered(op, bytes, devs) ==> match res {
            Ok(op2) => op2.knows(devs),
            Err(e) => chain_refused(e, devs, op.has_path),
        }
}

/// `op2` is `op` but for its stage.
spec fn carries(op2: OpenOp, op: OpenOp) -> bool {
    &&& op2.has_path == op.has_path
    &&& op2.writable == op.writable
    &&& op2.images == op.images
    &&& op2.size == op.size
}

/// `op2` goes on from `op`.
pub open spec fn goes_on(op: OpenOp, op2: OpenOp) -> bool {
    &&& op2.wf()
    &&& op2.has_path == op.has_path
    &&& op2.writable == op.writable
    &&& 0 <= op2.work_left() < op.work_left()
}

proof fn lemma_one_more_image(
    op: OpenOp,
    images: Seq<Image>,
    image: Image,
    devs: Seq<Seq<u8>>,
)
    requires
        op.knows(devs),
        op.in_device(),
        images == op.images@.push(image),
        image.describes(devs.last()),
        image_refusal(devs.last()) is None,
    ensures
        images_on(images, devs),
{
    assert forall|k: int| 0 <= k < images.len() implies (#[trigger] images[k]).describes(devs[k])
        && image_refusal(devs[k]) is None by {
        if k < images.len() - 1 {
            assert(op.images@[k].describes(devs[k]));
        }
    }
}

impl OpenOp {
    /// What is needed next.
    pub fn request(&self) -> (r: OpenRequest)
        requires
            self.wf(),
        ensures
            match r {
                OpenRequest::Read { offset, len } => self.wanted() == Some(
                    (Extent { offset: offset as int, len: len as int }),
                ),
                OpenRequest::FindParent { name } => {
                    &&& self.stage is Beside
                    &&& name@.len() > 0
                    &&& name@ == self.asked_name()
                },
                OpenRequest::Ready => self.stage is Ready,
            },
    {
        match &self.stage {
            OpenStage::Footer => OpenRequest::Read {
                offset: self.size - FOOTER_SIZE as u64,
                len: FOOTER_SIZE as u64,
            },
            OpenStage::Mirror(_) => OpenRequest::Read { offset: 0, len: FOOTER_SIZE as u64 },
            OpenStage::Header(found) => OpenRequest::Read {
                offset: found.footer.data_offset,
                len: DYN_HEADER_SIZE as u64,
            },
            OpenStage::Table(_, header) => OpenRequest::Read {
                offset: header.table_offset,
                len: 4 * header.max_table_entries as u64,
            },
            OpenStage::Beside => OpenRequest::FindParent { name: self.parent_name() },
            OpenStage::Ready => OpenRequest::Ready,
        }
    }

    fn parent_name(&self) -> (r: String)
        requires
            self.wf(),
            self.stage is Beside,
        ensures
            r@ == self.asked_name(),
            r@.len() > 0,
    {
        let last = &self.images[self.images.len() - 1];
        proof {
            assert(self.images@[self.images@.len() - 1].wf());
        }
        match &last.sparse {
            Some(s) => s.header.parent_name.clone(),
            None => String::new(),
        }
    }

    /// An image has been read whole: look for its parent, or, if it has
    /// none, check the chain.
    fn with_image(self, image: Image, Ghost(op0): Ghost<OpenOp>, Ghost(bytes): Ghost<Seq<u8>>)
        -> (res: Result<OpenOp>)
        requires
            op0.wf(),
            op0.in_device(),
            carries(self, op0),
            image.wf(),
            forall|devs: Seq<Seq<u8>>| #[trigger]
                answered(op0, bytes, devs) ==> image.describes(devs.last()) && image_refusal(
                    devs.last(),
                ) is None,
        ensures
            open_step(op0, bytes, res),
            res matches Ok(op) ==> goes_on(op0, op),
    {
        let OpenOp { has_path, writable, images, size, stage: _ } = self;
        let mut images = images;
        images.push(image);
        proof {
            assert forall|devs: Seq<Seq<u8>>| #[trigger] answered(
                op0,
                bytes,
                devs,
            ) implies images_on(images@, devs) by {
                lemma_one_more_image(op0, images@, image, devs);
            }
            assert forall|k: int| 0 <= k < images@.len() implies (#[trigger] images@[k]).wf() by {
                if k < images@.len() - 1 {
                    assert(op0.images@[k].wf());
                }
            }
            assert forall|k: int| 0 <= k < images@.len() - 1 implies (
            #[trigger] images@[k]).footer.disk_type == DiskType::Differencing by {
                assert(op0.images@[k].footer.disk_type == DiskType::Differencing);
            }
        }
        match parent_stage(&images, has_path) {
            Ok(stage) => {
                let op = OpenOp { has_path, writable, images, size, stage };
                proof {
                    assert forall|devs: Seq<Seq<u8>>| #[trigger] answered(
                        op0,
                        bytes,
                        devs,
                    ) implies op.knows(devs) by {
                        assert(images_on(images@, devs));
                    }
                }
                Ok(op)
            },
            Err(e) => {
                proof {
                    assert forall|devs: Seq<Seq<u8>>| #[trigger] answered(
                        op0,
                        bytes,
                        devs,
                    ) implies chain_refused(e, devs, has_path) by {
                        assert(images_on(images@, devs));
                    }
                }
                Err(e)
            },
        }
    }
}

/// What comes after the last of `images` has been read: its parent, if it
/// has one; if not, the chain is checked.
fn parent_stage(images: &Vec<Image>, has_path: bool) -> (r: Result<OpenStage>)
    requires
        images@.len() > 0,
        forall|k: int| 0 <= k < images@.len() ==> (#[trigger] images@[k]).wf(),
        forall|k: int|
            0 <= k < images@.len() - 1 ==> (#[trigger] images@[k]).footer.disk_type
                == DiskType::Differencing,
    ensures
        r matches Ok(stage) ==> if images@.last().footer.disk_type == DiskType::Differencing {
            stage is Beside && has_path && images@.last().names_parent()
        } else {
            stage is Ready
        },
        forall|devs: Seq<Seq<u8>>| #[trigger]
            images_on(images@, devs) ==> match r {
                Ok(stage) => stage is Ready ==> forall|k: int|
                    0 <= k < images@.len() - 1 ==> !#[trigger] stranger_at(devs, k),
                Err(e) => chain_refused(e, devs, has_path),
            },
{
    let last = &images[images.len() - 1];
    proof {
        assert(images@[images@.len() - 1].wf());
        assert forall|devs: Seq<Seq<u8>>| #[trigger] images_on(images@, devs) implies last.describes(
            devs.last(),
        ) && image_refusal(devs.last()) is None by {
            assert(images@[images@.len() - 1].describes(devs[devs.len() - 1]));
        }
    }
    match &last.sparse {
        Some(s) => {
            if last.footer.disk_type == DiskType::Differencing {
                if !has_path {
                    return Err(
                        Error::Unsupported(
                            "differencing VHD opened on a raw device; parent resolution needs a path",
                        ),
                    );
                }
                if s.header.parent_name.as_str().is_empty() {
                    return Err(
                        Error::ParentNotFound("differencing VHD has empty parent name".to_owned()),
                    );
                }
                return Ok(OpenStage::Beside);
            }
        },
        None => {},
    }
    proof {
        assert forall|devs: Seq<Seq<u8>>| #[trigger] images_on(images@, devs) implies chain_on(
            images@,
            devs,
        ) by {
            assert(last.describes(devs.last()));
        }
    }
    match check_chain(images, Ghost(has_path)) {
        Ok(_) => Ok(OpenStage::Ready),
        Err(e) => Err(e),
    }
}

impl OpenOp {
    /// A footer has been found.
    fn with_footer(
        self,
        footer: Footer,
        bytes: Vec<u8>,
        recovered: bool,
        Ghost(answer): Ghost<Seq<u8>>,
    ) -> (res: Result<OpenOp>)
        requires
            self.wf(),
            self.stage is Footer || self.stage is Mirror,
            bytes@.len() == 512,
            footer.describes(bytes@),
            forall|devs: Seq<Seq<u8>>| #[trigger]
                answered(self, answer, devs) ==> {
                    &&& footer_of(devs.last()) == bytes@
                    &&& crate::opening::recovered(devs.last()) == recovered
                    &&& footer_block::footer_refusal(bytes@) is None
                },
        ensures
            open_step(self, answer, res),
            res matches Ok(op) ==> goes_on(self, op),
    {
        if footer.disk_type == DiskType::Fixed {
            let image = Image { footer, footer_bytes: bytes, recovered, sparse: None };
            proof {
                assert forall|devs: Seq<Seq<u8>>| #[trigger] answered(
                    self,
                    answer,
                    devs,
                ) implies image.describes(devs.last()) && image_refusal(devs.last()) is None by {
                    reveal(image_refusal);
                }
            }
            let ghost op0 = self;
            return self.with_image(image, Ghost(op0), Ghost(answer));
        }
        if footer.data_offset == u64::MAX {
            proof {
                reveal(image_refusal);
            }
            return Err(
                Error::Corrupt("dynamic/differencing footer has data_offset = 0xFFFF..."),
            );
        }
        // A BAT entry is a sector index, so every block of a sparse image
        // sits on a sector boundary, and so does the tail behind them. The
        // footer was found at the end of the device: an unaligned length
        // means that the image's own layout is already off-grid.
        if self.size % SECTOR_SIZE != 0 {
            proof {
                reveal(image_refusal);
            }
            return Err(
                Error::Corrupt(
                    "sparse image length is not a multiple of 512, so its blocks cannot sit on sector boundaries",
                ),
            );
        }
        let found = FooterFound { footer, bytes, recovered };
        Ok(OpenOp { stage: OpenStage::Header(found), ..self })
    }
}

/// A table that no check refuses makes a sparse part that is well-formed.
proof fn lemma_believed_table_is_wf(s: Sparse, lo: int, size: int)
    requires
        dynamic_header::power_of_two(s.block_size()),
        s.block_size() >= 512,
        s.bitmap_size == s.bitmap(),
        s.bat@.len() == s.header.max_table_entries,
        size <= s.bat@.len() * s.block_size(),
        s.table_end() <= u64::MAX,
        s.next_alloc % 512 == 0,
        table::table_refusal(s.bat@, lo, s.next_alloc as int, s.block_total()) is None,
    ensures
        s.wf(size),
{
    let bat = s.bat@;
    let hi = s.next_alloc as int;
    let total = s.block_total();
    assert forall|b: int| 0 <= b < bat.len() && #[trigger] bat[b] != BAT_UNALLOCATED implies
        reader::block_host(bat[b]) + total <= hi by {
        table::lemma_every_entry_is_believed(bat, bat.len() as int, lo, hi, total, b);
    }
    assert forall|b: int, c: int|
        0 <= b < bat.len() && 0 <= c < bat.len() && b != c && #[trigger] bat[b] != BAT_UNALLOCATED
            && #[trigger] bat[c] != BAT_UNALLOCATED implies !reader::blocks_overlap(
        bat[b],
        bat[c],
        total,
    ) by {
        assert(!table::has_overlap(bat, total));
        if b < c {
            assert(!reader::blocks_overlap(bat[b], bat[c], total));
        } else {
            assert(!reader::blocks_overlap(bat[c], bat[b], total));
        }
    }
}

impl OpenOp {
    /// The dynamic header has been read.
    #[verifier::rlimit(40)]
    fn with_header(
        self,
        found: FooterFound,
        header_bytes: &Vec<u8>,
        Ghost(op0): Ghost<OpenOp>,
    ) -> (res: Result<OpenOp>)
        requires
            op0.wf(),
            op0.stage == OpenStage::Header(found),
            carries(self, op0),
            header_bytes@.len() == 1024,
        ensures
            open_step(op0, header_bytes@, res),
            res matches Ok(op) ==> goes_on(op0, op),
    {
        proof {
            lemma_header_read(op0, found, header_bytes@);
        }
        let header = match DynamicHeader::parse(header_bytes) {
            Ok(header) => header,
            Err(e) => {
                return Err(e);
            },
        };
        // The number of entries comes straight off the device. Two bounds,
        // and both are the image's own arithmetic: the table must describe
        // at least the declared virtual size, and it cannot be larger than
        // the file it lives in.
        let entries: u64 = header.max_table_entries as u64;
        let block_size: u64 = header.block_size as u64;
        proof {
            assert(entries * block_size <= 0xFFFF_FFFF * 0xFFFF_FFFF) by (nonlinear_arith)
                requires
                    entries <= 0xFFFF_FFFF,
                    block_size <= 0xFFFF_FFFF,
            ;
        }
        if entries * block_size < found.footer.current_size {
            return Err(
                Error::Corrupt("BAT is too small to describe the declared virtual size"),
            );
        }
        let table_end: u64 = match header.table_offset.checked_add(4 * entries) {
            Some(end) => end,
            None => {
                return Err(Error::Corrupt("BAT extent overflows"));
            },
        };
        if table_end > self.size {
            return Err(Error::Corrupt("BAT extends past the end of the image"));
        }
        Ok(OpenOp { stage: OpenStage::Table(found, header), ..self })
    }

    /// The block allocation table has been read.
    #[verifier::rlimit(40)]
    fn with_table(
        self,
        found: FooterFound,
        header: DynamicHeader,
        table_bytes: &Vec<u8>,
        Ghost(op0): Ghost<OpenOp>,
    ) -> (res: Result<OpenOp>)
        requires
            op0.wf(),
            op0.stage == OpenStage::Table(found, header),
            carries(self, op0),
            table_bytes@.len() == 4 * header.max_table_entries,
        ensures
            open_step(op0, table_bytes@, res),
            res matches Ok(op) ==> goes_on(op0, op),
    {
        proof {
            assert(table_bytes.len() == table_bytes@.len());
        }
        let bat = parse_table(table_bytes, header.max_table_entries as usize);
        proof {
            lemma_table_read(op0, found, header, table_bytes@, bat@);
        }
        let bitmap_size: u64 = header.bitmap_size_bytes();
        let block_total: u64 = bitmap_size + header.block_size as u64;
        let table_end: u64 = header.table_offset + 4 * header.max_table_entries as u64;
        let header_end: u64 = match found.footer.data_offset.checked_add(DYN_HEADER_SIZE as u64) {
            Some(end) => end,
            None => {
                return Err(Error::Corrupt("dynamic header extent overflows"));
            },
        };
        if header_end > self.size {
            return Err(Error::Corrupt("dynamic header extent overflows"));
        }
        let metadata_end: u64 = if header_end < table_end {
            table_end
        } else {
            header_end
        };
        let data_start: u64 = (metadata_end + (SECTOR_SIZE - 1)) / SECTOR_SIZE * SECTOR_SIZE;
        // The data area ends where the trailing footer begins, not at the
        // end of the file: a block that reaches further has the footer as
        // its last sector. Where no footer was found there, the last sector
        // may well be a block's.
        let next_alloc: u64 = if found.recovered {
            self.size
        } else {
            self.size - FOOTER_SIZE as u64
        };
        let checked = check_table(&bat, data_start, next_alloc, block_total);
        match checked {
            Ok(_) => {},
            Err(e) => {
                return Err(e);
            },
        }
        let sparse = Sparse { header, bat, bitmap_size, next_alloc };
        let image = Image {
            footer: found.footer,
            footer_bytes: found.bytes,
            recovered: found.recovered,
            sparse: Some(sparse),
        };
        proof {
            lemma_believed_table_is_wf(sparse, data_start as int, image.size());
            lemma_image_read(op0, found, header, table_bytes@, image);
        }
        self.with_image(image, Ghost(op0), Ghost(table_bytes@))
    }
}

/// Why the header that was read cannot be believed.
spec fn read_header_refusal(op: OpenOp, found: FooterFound, bytes: Seq<u8>) -> Option<Error> {
    let entries = wire::be32(bytes, dynamic_offsets::MAX_TABLE_ENTRIES as int);
    let block_size = wire::be32(bytes, dynamic_offsets::BLOCK_SIZE as int);
    let table_end = wire::be64(bytes, dynamic_offsets::TABLE_OFFSET as int) + 4 * entries;
    if dynamic_header::header_refusal(bytes) is Some {
        dynamic_header::header_refusal(bytes)
    } else if entries * block_size < found.footer.current_size {
        Some(Error::Corrupt("BAT is too small to describe the declared virtual size"))
    } else if table_end > u64::MAX {
        Some(Error::Corrupt("BAT extent overflows"))
    } else if table_end > op.size {
        Some(Error::Corrupt("BAT extends past the end of the image"))
    } else {
        None
    }
}

proof fn lemma_header_read(op: OpenOp, found: FooterFound, bytes: Seq<u8>)
    requires
        op.wf(),
        op.stage == OpenStage::Header(found),
    ensures
        forall|devs: Seq<Seq<u8>>| #[trigger]
            answered(op, bytes, devs) ==> {
                &&& header_of(devs.last()) == bytes
                &&& header_offset_of(devs.last()) + 1024 <= devs.last().len()
                &&& read_header_refusal(op, found, bytes) is Some ==> image_refusal(devs.last())
                    == read_header_refusal(op, found, bytes)
            },
{
    assert forall|devs: Seq<Seq<u8>>| #[trigger] answered(op, bytes, devs) implies header_of(
        devs.last(),
    ) == bytes && header_offset_of(devs.last()) + 1024 <= devs.last().len() && (read_header_refusal(
        op,
        found,
        bytes,
    ) is Some ==> image_refusal(devs.last()) == read_header_refusal(op, found, bytes)) by {
        assert(found.describes(devs.last()));
        reveal(image_refusal);
    }
}

/// Why the table that was read cannot be believed.
spec fn read_refusal(op: OpenOp, found: FooterFound, header: DynamicHeader, bat: Seq<u32>) -> Option<
    Error,
> {
    table::table_refusal(
        bat,
        round_up(
            metadata_end(
                found.footer.data_offset as int,
                header.table_offset + 4 * header.max_table_entries,
            ),
        ),
        if found.recovered {
            op.size as int
        } else {
            op.size - 512
        },
        dynamic_header::bitmap_bytes(header.block_size as int) + header.block_size,
    )
}

proof fn lemma_table_read(
    op: OpenOp,
    found: FooterFound,
    header: DynamicHeader,
    bytes: Seq<u8>,
    bat: Seq<u32>,
)
    requires
        op.wf(),
        op.stage == OpenStage::Table(found, header),
        bat.len() == header.max_table_entries,
        forall|b: int| 0 <= b < bat.len() ==> #[trigger] bat[b] == wire::be32(bytes, 4 * b),
    ensures
        forall|devs: Seq<Seq<u8>>| #[trigger]
            answered(op, bytes, devs) ==> {
                &&& bat == table_of(devs.last())
                &&& found.footer.data_offset + 1024 <= op.size
                &&& image_refusal(devs.last()) == read_refusal(op, found, header, bat)
            },
{
    assert forall|devs: Seq<Seq<u8>>| #[trigger] answered(op, bytes, devs) implies bat == table_of(
        devs.last(),
    ) && found.footer.data_offset + 1024 <= op.size && image_refusal(devs.last()) == read_refusal(
        op,
        found,
        header,
        bat,
    ) by {
        reveal(image_refusal);
        let d = devs.last();
        assert forall|b: int| 0 <= b < bat.len() implies bat[b] == table_of(d)[b] by {
            assert(wire::be32(bytes, 4 * b) == wire::be32(d, table_offset_of(d) + 4 * b));
        }
        assert(bat =~= table_of(d));
    }
}

/// The image put together from what was read is the one on the device.
proof fn lemma_image_read(
    op: OpenOp,
    found: FooterFound,
    header: DynamicHeader,
    bytes: Seq<u8>,
    image: Image,
)
    requires
        op.wf(),
        op.stage == OpenStage::Table(found, header),
        image.footer == found.footer,
        image.footer_bytes == found.bytes,
        image.recovered == found.recovered,
        image.sparse matches Some(s) && {
            &&& s.header == header
            &&& s.bitmap_size == dynamic_header::bitmap_bytes(header.block_size as int)
            &&& s.next_alloc == if found.recovered {
                op.size as int
            } else {
                op.size - 512
            }
            &&& read_refusal(op, found, header, s.bat@) is None
            &&& forall|devs: Seq<Seq<u8>>| #[trigger]
                answered(op, bytes, devs) ==> {
                    &&& s.bat@ == table_of(devs.last())
                    &&& image_refusal(devs.last()) == read_refusal(op, found, header, s.bat@)
                }
        },
    ensures
        forall|devs: Seq<Seq<u8>>| #[trigger]
            answered(op, bytes, devs) ==> image.describes(devs.last()) && image_refusal(devs.last())
                is None,
{
    assert forall|devs: Seq<Seq<u8>>| #[trigger] answered(op, bytes, devs) implies image.describes(
        devs.last(),
    ) && image_refusal(devs.last()) is None by {
        assert(found.describes(devs.last()));
    }
}

impl OpenOp {
    /// Go on with the bytes that the device answered.
    pub fn supply(self, bytes: Vec<u8>) -> (res: Result<OpenOp>)
        requires
            self.wf(),
            self.wanted() is Some,
            bytes@.len() == self.wanted()->0.len,
        ensures
            open_step(self, bytes@, res),
            res matches Ok(op) ==> goes_on(self, op),
    {
        let ghost op0 = self;
        let ghost answer = bytes@;
        let OpenOp { has_path, writable, images, size, stage } = self;
        match stage {
            OpenStage::Footer => {
                let op = OpenOp { has_path, writable, images, size, stage: OpenStage::Footer };
                match Footer::parse(&bytes) {
                    Ok(footer) => op.with_footer(footer, bytes, false, Ghost(answer)),
                    Err(e) => Ok(OpenOp { stage: OpenStage::Mirror(e), ..op }),
                }
            },
            OpenStage::Mirror(refusal) => {
                proof {
                    assert forall|devs: Seq<Seq<u8>>| #[trigger] answered(
                        op0,
                        answer,
                        devs,
                    ) implies mirror_footer(devs.last()) == answer by {
                        assert(mirror_footer(devs.last()) =~= answer);
                    }
                }
                match Footer::parse(&bytes) {
                    Ok(footer) => {
                        if footer.disk_type != DiskType::Fixed {
                            let op = OpenOp {
                                has_path,
                                writable,
                                images,
                                size,
                                stage: OpenStage::Mirror(refusal),
                            };
                            return op.with_footer(footer, bytes, true, Ghost(answer));
                        }
                    },
                    Err(_) => {},
                }
                proof {
                    reveal(image_refusal);
                }
                Err(refusal)
            },
            OpenStage::Header(found) => {
                let op = OpenOp { has_path, writable, images, size, stage: OpenStage::Footer };
                op.with_header(found, &bytes, Ghost(op0))
            },
            OpenStage::Table(found, header) => {
                let op = OpenOp { has_path, writable, images, size, stage: OpenStage::Footer };
                op.with_table(found, header, &bytes, Ghost(op0))
            },
            other => Ok(OpenOp { has_path, writable, images, size, stage: other }),
        }
    }

    /// The parent's device has been found; it is `size` bytes long.
    pub fn parent_found(self, size: u64) -> (res: Result<OpenOp>)
        requires
            self.wf(),
            self.stage is Beside,
        ensures
            res is Ok <==> self.parent_refusal(size) is None,
            res is Ok <==> self.images@.len() < 16 && size >= 512,
            res matches Ok(op) ==> {
                &&& goes_on(self, op)
                &&& op.stage is Footer
                &&& op.size == size
                &&& op.images == self.images
                &&& forall|devs: Seq<Seq<u8>>, d: Seq<u8>|
                    #![trigger self.knows(devs), devs.push(d)]
                    self.knows(devs) && d.len() == size ==> op.knows(devs.push(d))
            },
            res matches Err(e) ==> self.parent_refusal(size) == Some(e),
    {
        if self.images.len() >= MAX_PARENT_DEPTH {
            return Err(Error::ParentTooDeep);
        }
        if size < FOOTER_SIZE as u64 {
            return Err(Error::Corrupt("device shorter than 512 bytes"));
        }
        let op = OpenOp { size, stage: OpenStage::Footer, ..self };
        proof {
            assert forall|devs: Seq<Seq<u8>>, d: Seq<u8>|
                #![trigger self.knows(devs), devs.push(d)]
                self.knows(devs) && d.len() == size implies op.knows(devs.push(d)) by {
                assert forall|k: int| 0 <= k < op.images@.len() implies (
                #[trigger] op.images@[k]).describes(devs.push(d)[k]) && image_refusal(
                    devs.push(d)[k],
                ) is None by {
                    assert(self.images@[k].describes(devs[k]));
                }
            }
        }
        Ok(op)
    }

    /// There is no file of the parent's name in the directory of the
    /// child: the parent is not found. `shown` is the path that was tried.
    pub fn parent_missing(self, shown: String) -> (res: Result<OpenOp>)
        requires
            self.wf(),
            self.stage is Beside,
        ensures
            res matches Err(e) && parent_not_found(e, tried_text(shown@)),
    {
        let mut words = "tried '".to_owned();
        words.append(shown.as_str());
        words.append("'");
        Err(Error::ParentNotFound(words))
    }

    /// The reader, once every image of the chain is open.
    pub fn finish(self) -> (r: VhdReader)
        requires
            self.wf(),
            self.stage is Ready,
        ensures
            r.wf(),
            r.writable == self.writable,
            r.images == self.images,
            forall|devs: Seq<Seq<u8>>| #[trigger] self.knows(devs) ==> r.opened_from(devs),
    {
        VhdReader { images: self.images, writable: self.writable }
    }
}

/// What is said where a parent is not found under the path `shown`.
pub open spec fn tried_text(shown: Seq<char>) -> Seq<char> {
    "tried '"@ + shown + "'"@
}

impl VhdReader {
    /// This reader is what opening the chain on `devs` gives.
    pub open spec fn opened_from(self, devs: Seq<Seq<u8>>) -> bool {
        &&& images_on(self.images@, devs)
        &&& forall|k: int| 0 <= k < devs.len() - 1 ==> !#[trigger] stranger_at(devs, k)
    }

    /// Open an image that has a path, read-only; its device is `size`
    /// bytes long.
    pub fn open(size: u64) -> (r: Result<OpenOp>)
        ensures
            begins_open(r, size, false, true),
    {
        begin(size, false, true)
    }

    /// Open an image that has a path, read-write. Whether a write succeeds
    /// further depends on the subtype: fixed and dynamic VHDs have a write
    /// path; differencing returns [`Error::ReadOnly`].
    pub fn open_rw(size: u64) -> (r: Result<OpenOp>)
        ensures
            begins_open(r, size, true, true),
    {
        begin(size, true, true)
    }

    /// Open read-only on top of an arbitrary device. There is no path, so a
    /// differencing image is rejected with [`Error::Unsupported`].
    pub fn open_on_device(size: u64) -> (r: Result<OpenOp>)
        ensures
            begins_open(r, size, false, false),
    {
        begin(size, false, false)
    }

    /// Open read-write on top of an arbitrary device. The device must
    /// report that it is writable; otherwise the call returns
    /// [`Error::ReadOnly`].
    pub fn open_rw_on_device(size: u64, is_writable: bool) -> (r: Result<OpenOp>)
        ensures
            is_writable ==> begins_open(r, size, true, false),
            !is_writable ==> (r matches Err(e) && e == Error::ReadOnly),
    {
        if !is_writable {
            return Err(Error::ReadOnly);
        }
        begin(size, true, false)
    }
}

/// How opening a device of `size` bytes begins.
pub open spec fn begins_open(r: Result<OpenOp>, size: u64, writable: bool, has_path: bool) -> bool {
    match r {
        Ok(op) => {
            &&& size >= FOOTER_SIZE
            &&& op.wf()
            &&& op.stage is Footer
            &&& op.size == size
            &&& op.writable == writable
            &&& op.has_path == has_path
            &&& op.images@.len() == 0
            &&& forall|d: Seq<u8>| #![trigger seq![d]] d.len() == size ==> op.knows(seq![d])
        },
        Err(e) => {
            &&& size < FOOTER_SIZE
            &&& e == Error::Corrupt("device shorter than 512 bytes")
            &&& forall|d: Seq<u8>|
                d.len() == size ==> #[trigger] image_refusal(d) == Some(e)
        },
    }
}

fn begin(size: u64, writable: bool, has_path: bool) -> (r: Result<OpenOp>)
    ensures
        begins_open(r, size, writable, has_path),
{
    proof {
        reveal(image_refusal);
    }
    if size < FOOTER_SIZE as u64 {
        return Err(Error::Corrupt("device shorter than 512 bytes"));
    }
    Ok(OpenOp { has_path, writable, images: Vec::new(), size, stage: OpenStage::Footer })
}

} // verus!
