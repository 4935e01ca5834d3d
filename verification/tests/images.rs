//! Whole images on devices held in memory: hand-crafted ones, fresh ones,
//! damaged ones.
//!
//! The hand-crafted shapes:
//!
//! - **Fixed**: 16 KiB virtual, all data in place, footer trailing.
//! - **Dynamic**: 8 KiB virtual, block_size = 4 KiB, 2 BAT entries, one of
//!   them allocated. Sector bitmap exercised.
//! - **Differencing**: child with one block over a fixed parent, with the
//!   bitmap controlling per-sector defer-or-data.

use vhd::dynamic::{
    compute_checksum as dyn_cs, BAT_UNALLOCATED, DYN_HEADER_COOKIE, DYN_HEADER_SIZE,
};
use vhd::error::{fs_core_to_vhd_error, DeviceError};
use vhd::footer::{compute_checksum as footer_cs, FOOTER_COOKIE, FOOTER_SIZE};
use vhd::footer_build::Entropy;
use vhd::opening::OpenRequest;
use vhd::reading::ReadRequest;
use vhd::writing::WriteRequest;
use vhd::{DiskType, Error, VhdReader};

/// Files by name, held in memory: the devices of these tests.
struct Store {
    files: Vec<(String, Vec<u8>)>,
}

impl Store {
    fn new() -> Store {
        Store { files: Vec::new() }
    }

    fn put(&mut self, name: &str, bytes: Vec<u8>) {
        self.files.retain(|(n, _)| n != name);
        self.files.push((name.to_string(), bytes));
    }

    fn get(&self, name: &str) -> Option<&Vec<u8>> {
        self.files.iter().find(|(n, _)| n == name).map(|(_, b)| b)
    }

    fn len(&self, name: &str) -> u64 {
        self.get(name).expect("no such file").len() as u64
    }

    fn patch(&mut self, name: &str, off: u64, bytes: &[u8]) {
        let file = self.files.iter_mut().find(|(n, _)| n == name).unwrap();
        let end = off as usize + bytes.len();
        if file.1.len() < end {
            file.1.resize(end, 0);
        }
        file.1[off as usize..end].copy_from_slice(bytes);
    }

    fn read(&self, name: &str, offset: u64, len: u64) -> Result<Vec<u8>, Error> {
        let file = self.get(name).expect("no such file");
        match offset.checked_add(len) {
            Some(end) if end <= file.len() as u64 => {
                Ok(file[offset as usize..end as usize].to_vec())
            }
            _ => Err(fs_core_to_vhd_error(DeviceError::ShortRead {
                offset,
                want: len as usize,
                got: 0,
            })),
        }
    }
}

#[derive(Clone, Copy)]
enum How {
    ReadOnly,
    ReadWrite,
    OnDevice,
    RwOnDevice(bool),
}

/// An opened chain: the reader, and the name of each image's file.
struct Disk {
    reader: VhdReader,
    chain: Vec<String>,
}

fn open_as(store: &Store, name: &str, how: How) -> Result<Disk, Error> {
    let size = store.len(name);
    let mut op = match how {
        How::ReadOnly => VhdReader::open(size)?,
        How::ReadWrite => VhdReader::open_rw(size)?,
        How::OnDevice => VhdReader::open_on_device(size)?,
        How::RwOnDevice(writable) => VhdReader::open_rw_on_device(size, writable)?,
    };
    let mut chain = vec![name.to_string()];
    loop {
        match op.request() {
            OpenRequest::Read { offset, len } => {
                let bytes = store.read(chain.last().unwrap(), offset, len)?;
                op = op.supply(bytes)?;
            }
            OpenRequest::FindParent { name } => {
                let child = chain.last().unwrap();
                let path = match child.rfind('/') {
                    Some(at) => format!("{}/{}", &child[..at], name),
                    None => name,
                };
                match store.get(&path) {
                    Some(file) => {
                        op = op.parent_found(file.len() as u64)?;
                        chain.push(path);
                    }
                    None => op = op.parent_missing(path)?,
                }
            }
            OpenRequest::Ready => {
                return Ok(Disk {
                    reader: op.finish(),
                    chain,
                });
            }
        }
    }
}

fn open(store: &Store, name: &str) -> Result<Disk, Error> {
    open_as(store, name, How::ReadOnly)
}

fn open_rw(store: &Store, name: &str) -> Result<Disk, Error> {
    open_as(store, name, How::ReadWrite)
}

impl Disk {
    fn read_at(&self, store: &Store, offset: u64, buf: &mut [u8]) -> Result<(), Error> {
        let mut op = self.reader.read_at(offset, buf.len())?;
        loop {
            match op.request(&self.reader) {
                ReadRequest::Read { level, offset, len } => {
                    let bytes = store.read(&self.chain[level], offset, len as u64)?;
                    op.supply(&self.reader, bytes);
                }
                ReadRequest::Done => {
                    buf.copy_from_slice(&op.finish(&self.reader));
                    return Ok(());
                }
            }
        }
    }

    fn write_at(&mut self, store: &mut Store, offset: u64, buf: &[u8]) -> Result<(), Error> {
        self.write_until(store, offset, buf, usize::MAX)
    }

    /// As `write_at`, with a device that fails from request `limit` on.
    fn write_until(
        &mut self,
        store: &mut Store,
        offset: u64,
        buf: &[u8],
        limit: usize,
    ) -> Result<(), Error> {
        let mut op = self.reader.write_at(offset, buf.to_vec())?;
        let mut requests = 0usize;
        loop {
            let request = op.request(&self.reader);
            if requests == limit && !matches!(request, WriteRequest::Done) {
                return Err(Error::Custom("the device failed".to_string()));
            }
            requests += 1;
            let answer = match request {
                WriteRequest::Read { offset, len } => {
                    store.read(&self.chain[0], offset, len as u64)?
                }
                WriteRequest::Write { offset, bytes } => {
                    store.patch(&self.chain[0], offset, &bytes);
                    Vec::new()
                }
                WriteRequest::Flush => Vec::new(),
                WriteRequest::Done => return Ok(()),
            };
            op.complete(&mut self.reader, answer)?;
        }
    }
}

fn create_fixed(store: &mut Store, name: &str, size: u64) -> Result<Disk, Error> {
    let new = VhdReader::create_fixed(
        size,
        &Entropy {
            urandom: None,
            sequence: 0,
        },
    )?;
    let mut file = vec![0u8; new.total_len as usize];
    file[new.footer_offset as usize..].copy_from_slice(&new.footer);
    store.put(name, file);
    open_rw(store, name)
}

// ---------------------------------------------------------------------------
// Fixtures, at literal offsets
// ---------------------------------------------------------------------------

fn build_footer(disk_type: DiskType, data_offset: u64, virt_size: u64) -> [u8; FOOTER_SIZE] {
    build_footer_with_id(disk_type, data_offset, virt_size, [0u8; 16])
}

/// As [`build_footer`], with the footer's `unique_id`: the value a
/// differencing child's `parent_unique_id` has to match.
fn build_footer_with_id(
    disk_type: DiskType,
    data_offset: u64,
    virt_size: u64,
    unique_id: [u8; 16],
) -> [u8; FOOTER_SIZE] {
    let mut f = [0u8; FOOTER_SIZE];
    f[68..84].copy_from_slice(&unique_id);
    f[0..8].copy_from_slice(&FOOTER_COOKIE);
    f[8..12].copy_from_slice(&0x0000_0002u32.to_be_bytes()); // features
    f[12..16].copy_from_slice(&0x0001_0000u32.to_be_bytes()); // file_format_version
    f[16..24].copy_from_slice(&data_offset.to_be_bytes());
    f[40..48].copy_from_slice(&virt_size.to_be_bytes()); // original
    f[48..56].copy_from_slice(&virt_size.to_be_bytes()); // current
    let dt: u32 = match disk_type {
        DiskType::Fixed => 2,
        DiskType::Dynamic => 3,
        DiskType::Differencing => 4,
    };
    f[60..64].copy_from_slice(&dt.to_be_bytes());
    let cs = footer_cs(&f);
    f[64..68].copy_from_slice(&cs.to_be_bytes());
    f
}

/// A dynamic header at its literal offsets.
fn build_header(
    table_offset: u64,
    entries: u32,
    block_size: u32,
    parent_name: &str,
    parent_unique_id: [u8; 16],
) -> [u8; DYN_HEADER_SIZE] {
    let mut hdr = [0u8; DYN_HEADER_SIZE];
    hdr[0..8].copy_from_slice(&DYN_HEADER_COOKIE);
    hdr[8..16].copy_from_slice(&u64::MAX.to_be_bytes()); // no next
    hdr[16..24].copy_from_slice(&table_offset.to_be_bytes());
    hdr[24..28].copy_from_slice(&0x0001_0000u32.to_be_bytes());
    hdr[28..32].copy_from_slice(&entries.to_be_bytes());
    hdr[32..36].copy_from_slice(&block_size.to_be_bytes());
    hdr[40..56].copy_from_slice(&parent_unique_id);
    for (i, c) in parent_name.encode_utf16().enumerate() {
        if i * 2 + 2 > 512 {
            break;
        }
        hdr[64 + i * 2..64 + i * 2 + 2].copy_from_slice(&c.to_be_bytes());
    }
    let cs = dyn_cs(&hdr);
    hdr[36..40].copy_from_slice(&cs.to_be_bytes());
    hdr
}

/// A sparse image of 8 KiB in blocks of 4 KiB:
///
/// ```text
///   sector 0       footer (mirror)
///   sector 1..2    dynamic header (1024 bytes = 2 sectors)
///   sector 3..4    BAT (8 bytes, 2 entries, padded to 2 sectors)
///   sector 5       block 0 bitmap (1 sector)
///   sector 6..13   block 0 data (4096 bytes = 8 sectors)
///   ...trailing footer
/// ```
///
/// Block 0 allocated, if `block0` is given; block 1 sparse.
fn build_sparse(
    disk_type: DiskType,
    parent_name: &str,
    parent_unique_id: [u8; 16],
    block0: Option<(&[u8], u8)>,
) -> Vec<u8> {
    const SECTOR: usize = 512;
    let footer = build_footer(disk_type, 512, 8 * 1024);
    let hdr = build_header(1536, 2, 4096, parent_name, parent_unique_id);
    let end_of_data = match block0 {
        Some(_) => SECTOR * 5 + 512 + 4096,
        None => SECTOR * 5,
    };
    let mut f = vec![0u8; end_of_data + FOOTER_SIZE];
    f[0..512].copy_from_slice(&footer);
    f[512..1536].copy_from_slice(&hdr);
    f[1536..1544].copy_from_slice(&[0xFF; 8]);
    if let Some((data, bitmap)) = block0 {
        f[1536..1540].copy_from_slice(&5u32.to_be_bytes());
        f[2560] = bitmap;
        f[3072..3072 + 4096].copy_from_slice(data);
    }
    f[end_of_data..].copy_from_slice(&footer);
    f
}

fn build_dynamic_vhd(block0_data: &[u8], bitmap: u8) -> Vec<u8> {
    build_sparse(DiskType::Dynamic, "", [0; 16], Some((block0_data, bitmap)))
}

/// Both BAT entries unallocated.
fn build_dynamic_vhd_all_sparse() -> Vec<u8> {
    build_sparse(DiskType::Dynamic, "", [0; 16], None)
}

fn build_differencing_vhd(parent_name: &str, bitmap: u8, child_block_byte: u8) -> Vec<u8> {
    build_sparse(
        DiskType::Differencing,
        parent_name,
        [0; 16],
        Some((&[child_block_byte; 4096], bitmap)),
    )
}

/// A differencing child that names `parent_name` and declares
/// `parent_unique_id`; every byte comes from the parent.
fn build_differencing_vhd_claiming(parent_name: &str, parent_unique_id: [u8; 16]) -> Vec<u8> {
    build_sparse(DiskType::Differencing, parent_name, parent_unique_id, None)
}

/// A fixed image: `data`, then the footer.
fn build_fixed(data: &[u8], unique_id: [u8; 16]) -> Vec<u8> {
    let mut f = data.to_vec();
    f.extend_from_slice(&build_footer_with_id(
        DiskType::Fixed,
        u64::MAX,
        data.len() as u64,
        unique_id,
    ));
    f
}

fn one(bytes: Vec<u8>) -> Store {
    let mut store = Store::new();
    store.put("t/disk.vhd", bytes);
    store
}

fn pattern(len: usize) -> Vec<u8> {
    (0u8..=255u8).cycle().take(len).collect()
}

// ---------------------------------------------------------------------------
// Fixed
// ---------------------------------------------------------------------------

#[test]
fn fixed_round_trip() {
    let virt_size = 16u64 * 1024;
    let pattern = pattern(virt_size as usize);
    let store = one(build_fixed(&pattern, [0; 16]));

    let r = open(&store, "t/disk.vhd").unwrap();
    assert_eq!(r.reader.disk_type(), DiskType::Fixed);
    assert_eq!(r.reader.virtual_size(), virt_size);
    assert_eq!(r.reader.block_size(), 0);
    assert!(!r.reader.has_parent());
    assert_eq!(r.reader.footer().data_offset, u64::MAX);

    let mut buf = vec![0u8; 256];
    r.read_at(&store, 100, &mut buf).unwrap();
    assert_eq!(buf, pattern[100..356]);
}

#[test]
fn fixed_read_past_end_errors() {
    let virt_size = 4096u64;
    let store = one(build_fixed(&vec![0u8; virt_size as usize], [0; 16]));
    let r = open(&store, "t/disk.vhd").unwrap();
    let mut buf = [0u8; 16];
    let err = r.read_at(&store, virt_size - 8, &mut buf).unwrap_err();
    assert!(
        matches!(
            err,
            Error::OutOfBounds {
                offset: 4088,
                len: 16,
                size: 4096
            }
        ),
        "got {err:?}"
    );
}

// ---------------------------------------------------------------------------
// Dynamic
// ---------------------------------------------------------------------------

#[test]
fn dynamic_allocated_block_reads_back_data() {
    let block = pattern(4096);
    // bitmap: all 8 sectors of block 0 allocated.
    let store = one(build_dynamic_vhd(&block, 0xFF));

    let r = open(&store, "t/disk.vhd").unwrap();
    assert_eq!(r.reader.disk_type(), DiskType::Dynamic);
    assert_eq!(r.reader.virtual_size(), 8 * 1024);
    assert_eq!(r.reader.block_size(), 4096);

    let mut buf = vec![0u8; 4096];
    r.read_at(&store, 0, &mut buf).unwrap();
    assert_eq!(buf, block);
}

#[test]
fn dynamic_unallocated_block_reads_zeros() {
    let store = one(build_dynamic_vhd(&vec![0u8; 4096], 0xFF));
    let r = open(&store, "t/disk.vhd").unwrap();
    let mut buf = vec![0xAAu8; 4096];
    r.read_at(&store, 4096, &mut buf).unwrap(); // virt block 1, unallocated
    assert!(buf.iter().all(|&b| b == 0));
}

#[test]
fn dynamic_partial_bitmap_zero_fills_unset_sectors() {
    // Bitmap 0b1010_1010: the MSB (bit 7) corresponds to sector 0, so
    // sectors 0, 2, 4, 6 are allocated; 1, 3, 5, 7 are not.
    let store = one(build_dynamic_vhd(&vec![0xCC; 4096], 0xAA));
    let r = open(&store, "t/disk.vhd").unwrap();
    let mut buf = vec![0u8; 4096];
    r.read_at(&store, 0, &mut buf).unwrap();

    for sector in 0..8u64 {
        let start = (sector * 512) as usize;
        let end = start + 512;
        let allocated = sector % 2 == 0;
        let expected = if allocated { 0xCC } else { 0 };
        assert!(
            buf[start..end].iter().all(|&b| b == expected),
            "sector {sector}: allocated={allocated}"
        );
    }
}

// ---------------------------------------------------------------------------
// Differencing: child with one block over a fixed parent
// ---------------------------------------------------------------------------

fn over_a_parent(child: Vec<u8>) -> Store {
    let mut store = Store::new();
    store.put("t/parent.vhd", build_fixed(&vec![0xAB; 8 * 1024], [0; 16]));
    store.put("t/child.vhd", child);
    store
}

#[test]
fn differencing_falls_through_to_parent_for_unallocated() {
    // bitmap 0xAA: sectors 0,2,4,6 from child (0xCD), 1,3,5,7 from parent
    // (0xAB).
    let store = over_a_parent(build_differencing_vhd("parent.vhd", 0xAA, 0xCD));

    let r = open(&store, "t/child.vhd").unwrap();
    assert_eq!(r.reader.disk_type(), DiskType::Differencing);
    assert!(r.reader.has_parent());

    let mut buf = vec![0u8; 4096];
    r.read_at(&store, 0, &mut buf).unwrap();
    for sector in 0..8u64 {
        let start = (sector * 512) as usize;
        let end = start + 512;
        let from_child = sector % 2 == 0;
        let expected = if from_child { 0xCD } else { 0xAB };
        assert!(
            buf[start..end].iter().all(|&b| b == expected),
            "sector {sector}: from_child={from_child}"
        );
    }

    // Block 1 is unallocated entirely: all bytes from parent (0xAB).
    let mut buf2 = vec![0u8; 4096];
    r.read_at(&store, 4096, &mut buf2).unwrap();
    assert!(buf2.iter().all(|&b| b == 0xAB));
}

#[test]
fn beyond_the_end_of_a_shorter_parent_there_are_zeros() {
    let mut store = Store::new();
    store.put("t/parent.vhd", build_fixed(&vec![0xAB; 5 * 1024], [0; 16]));
    store.put(
        "t/child.vhd",
        build_differencing_vhd("parent.vhd", 0x00, 0xCD),
    );
    let r = open(&store, "t/child.vhd").unwrap();
    let mut buf = vec![0xFFu8; 8 * 1024];
    r.read_at(&store, 0, &mut buf).unwrap();
    assert!(buf[..5 * 1024].iter().all(|&b| b == 0xAB));
    assert!(buf[5 * 1024..].iter().all(|&b| b == 0));
}

#[test]
fn a_parent_that_is_not_a_sibling_is_not_found() {
    let mut store = Store::new();
    store.put("parent.vhd", build_fixed(&vec![0x11; 8 * 1024], [0; 16]));
    store.put(
        "t/child.vhd",
        build_differencing_vhd("parent.vhd", 0x00, 0xCD),
    );
    match open(&store, "t/child.vhd") {
        Err(Error::ParentNotFound(m)) => assert_eq!(m, "tried 't/parent.vhd'"),
        other => panic!("got {:?}", other.err()),
    }

    // Beside the child it is.
    store.put("t/parent.vhd", build_fixed(&vec![0x22; 8 * 1024], [0; 16]));
    let r = open(&store, "t/child.vhd").unwrap();
    assert_eq!(r.chain, ["t/child.vhd", "t/parent.vhd"]);
    let mut buf = [0u8; 16];
    r.read_at(&store, 0, &mut buf).unwrap();
    assert_eq!(buf, [0x22; 16]);
}

/// Fill in the parent locators of the child, and repair the checksum.
fn with_locators(mut child: Vec<u8>, fill: u8) -> Vec<u8> {
    let header = &mut child[512..1536];
    header[576..768].fill(fill);
    let cs = dyn_cs(header);
    header[36..40].copy_from_slice(&cs.to_be_bytes());
    child
}

#[test]
fn parent_locators_play_no_part_in_finding_the_parent() {
    for fill in [0x00u8, 0x57, 0xFF] {
        // Found, and read through, but never written to.
        let child = with_locators(build_differencing_vhd("parent.vhd", 0xAA, 0xCD), fill);
        let store = over_a_parent(child.clone());
        let r = open_rw(&store, "t/child.vhd").unwrap();
        assert_eq!(r.chain, ["t/child.vhd", "t/parent.vhd"]);
        assert!(!r.reader.writable());
        assert!(matches!(
            r.reader.write_at(0, vec![1]),
            Err(Error::ReadOnly)
        ));
        let mut buf = [0u8; 1024];
        r.read_at(&store, 0, &mut buf).unwrap();
        assert!(buf[..512].iter().all(|&b| b == 0xCD));
        assert!(buf[512..].iter().all(|&b| b == 0xAB));

        // Not found.
        let mut store = Store::new();
        store.put("t/child.vhd", child);
        assert!(matches!(
            open(&store, "t/child.vhd"),
            Err(Error::ParentNotFound(m)) if m == "tried 't/parent.vhd'"
        ));

        // Not the one that is named.
        let mut store = child_and_parent([0x11; 16], [0x22; 16]);
        let child = build_differencing_vhd_claiming("parent.vhd", [0x11; 16]);
        store.put("t/child.vhd", with_locators(child, fill));
        assert!(matches!(
            open(&store, "t/child.vhd"),
            Err(Error::ParentNotFound(m)) if m.contains("22222222") && m.contains("11111111")
        ));

        // Not named at all.
        let store = one(with_locators(build_differencing_vhd("", 0, 0), fill));
        assert!(matches!(
            open(&store, "t/disk.vhd"),
            Err(Error::ParentNotFound(m)) if m == "differencing VHD has empty parent name"
        ));
    }
}

#[test]
fn a_child_without_a_parent_name_is_refused() {
    let store = one(build_differencing_vhd("", 0x00, 0xCD));
    match open(&store, "t/disk.vhd") {
        Err(Error::ParentNotFound(m)) => {
            assert_eq!(m, "differencing VHD has empty parent name")
        }
        other => panic!("got {:?}", other.err()),
    }
}

#[test]
fn a_chain_of_sixteen_opens_and_one_of_seventeen_does_not() {
    for (depth, opens) in [(16usize, true), (17, false)] {
        let mut store = Store::new();
        for k in 0..depth - 1 {
            let parent = format!("{}.vhd", k + 1);
            store.put(
                &format!("t/{k}.vhd"),
                build_differencing_vhd_claiming(&parent, [0; 16]),
            );
        }
        store.put(
            &format!("t/{}.vhd", depth - 1),
            build_fixed(&vec![0x5A; 8 * 1024], [0; 16]),
        );
        match open(&store, "t/0.vhd") {
            Ok(r) => {
                assert!(opens, "depth {depth}");
                assert_eq!(r.chain.len(), depth);
                let mut buf = vec![0u8; 8 * 1024];
                r.read_at(&store, 0, &mut buf).unwrap();
                assert!(buf.iter().all(|&b| b == 0x5A));
            }
            Err(Error::ParentTooDeep) => assert!(!opens, "depth {depth}"),
            Err(e) => panic!("depth {depth}: {e:?}"),
        }
    }
}

#[test]
fn a_chain_that_runs_in_a_circle_is_refused() {
    let store = one(build_differencing_vhd_claiming("disk.vhd", [0; 16]));
    assert!(matches!(
        open(&store, "t/disk.vhd"),
        Err(Error::ParentTooDeep)
    ));
}

// ---------------------------------------------------------------------------
// Fixed write path
// ---------------------------------------------------------------------------

#[test]
fn create_fixed_round_trip_pattern() {
    let mut store = Store::new();
    let virt_size = 64u64 * 1024;
    let mut r = create_fixed(&mut store, "t/disk.vhd", virt_size).unwrap();
    assert_eq!(r.reader.disk_type(), DiskType::Fixed);
    assert_eq!(r.reader.virtual_size(), virt_size);
    assert!(r.reader.writable());

    // Write a pattern then read it back through a freshly opened RO reader.
    let pattern = pattern(virt_size as usize);
    r.write_at(&mut store, 0, &pattern).unwrap();
    assert!(r.reader.flush_writes());

    let r2 = open(&store, "t/disk.vhd").unwrap();
    let mut buf = vec![0u8; virt_size as usize];
    r2.read_at(&store, 0, &mut buf).unwrap();
    assert_eq!(buf, pattern);
    assert_eq!(r2.reader.virtual_size(), virt_size);
    assert!(!r2.reader.flush_writes());
}

#[test]
fn create_fixed_partial_write_within_bounds() {
    let mut store = Store::new();
    let mut r = create_fixed(&mut store, "t/disk.vhd", 32 * 1024).unwrap();

    // Write 4 KiB starting at offset 8 KiB.
    let chunk: Vec<u8> = vec![0xA5; 4096];
    r.write_at(&mut store, 8 * 1024, &chunk).unwrap();

    let mut buf = vec![0u8; 4096];
    r.read_at(&store, 8 * 1024, &mut buf).unwrap();
    assert_eq!(buf, chunk);

    // Surrounding region should still read as zero.
    let mut zero = vec![0xFFu8; 1024];
    r.read_at(&store, 0, &mut zero).unwrap();
    assert!(zero.iter().all(|&b| b == 0));
}

#[test]
fn write_past_virtual_size_returns_out_of_bounds() {
    let mut store = Store::new();
    let virt_size = 8u64 * 1024;
    let mut r = create_fixed(&mut store, "t/disk.vhd", virt_size).unwrap();
    let buf = vec![0u8; 16];
    let err = r.write_at(&mut store, virt_size - 8, &buf).unwrap_err();
    assert!(matches!(err, Error::OutOfBounds { .. }), "got {err:?}");
}

#[test]
fn write_into_footer_region_returns_out_of_bounds() {
    let mut store = Store::new();
    let virt_size = 8u64 * 1024;
    let mut r = create_fixed(&mut store, "t/disk.vhd", virt_size).unwrap();
    // Trying to write a single byte at virtual_size (== footer host offset)
    // must be rejected: that's footer territory.
    let buf = [0u8; 1];
    let err = r.write_at(&mut store, virt_size, &buf).unwrap_err();
    assert!(matches!(err, Error::OutOfBounds { .. }), "got {err:?}");
    // After a rejected write, the footer must still parse cleanly: reopen.
    let _r2 = open(&store, "t/disk.vhd").expect("footer survives rejected write");
}

#[test]
fn fixed_opened_read_only_is_not_writable() {
    let mut store = Store::new();
    let r = create_fixed(&mut store, "t/disk.vhd", 4 * 1024).unwrap();
    assert!(r.reader.writable());
    // Reopen RO.
    let mut r = open(&store, "t/disk.vhd").unwrap();
    assert!(!r.reader.writable());
    let buf = [0u8; 16];
    let err = r.write_at(&mut store, 0, &buf).unwrap_err();
    assert!(matches!(err, Error::ReadOnly), "got {err:?}");
}

#[test]
fn fixed_opened_read_write_is_writable() {
    let mut store = Store::new();
    create_fixed(&mut store, "t/disk.vhd", 4 * 1024).unwrap();
    let mut r = open_rw(&store, "t/disk.vhd").unwrap();
    assert!(r.reader.writable());
    let chunk = vec![0x42u8; 512];
    r.write_at(&mut store, 1024, &chunk).unwrap();
    let mut buf = vec![0u8; 512];
    r.read_at(&store, 1024, &mut buf).unwrap();
    assert_eq!(buf, chunk);
}

#[test]
fn dynamic_opened_read_only_rejects_writes() {
    let mut store = one(build_dynamic_vhd(&vec![0u8; 4096], 0xFF));
    let mut r = open(&store, "t/disk.vhd").unwrap();
    assert_eq!(r.reader.disk_type(), DiskType::Dynamic);
    assert!(!r.reader.writable());
    let buf = [0u8; 16];
    let err = r.write_at(&mut store, 0, &buf).unwrap_err();
    assert!(matches!(err, Error::ReadOnly), "got {err:?}");
}

#[test]
fn dynamic_opened_rw_is_writable() {
    let store = one(build_dynamic_vhd(&vec![0u8; 4096], 0xFF));
    let r = open_rw(&store, "t/disk.vhd").unwrap();
    assert_eq!(r.reader.disk_type(), DiskType::Dynamic);
    assert!(r.reader.writable());
}

#[test]
fn differencing_is_not_writable() {
    let mut store = over_a_parent(build_differencing_vhd("parent.vhd", 0xFF, 0x11));
    let mut r = open_rw(&store, "t/child.vhd").unwrap();
    assert_eq!(r.reader.disk_type(), DiskType::Differencing);
    assert!(!r.reader.writable());
    let buf = [0u8; 16];
    let err = r.write_at(&mut store, 0, &buf).unwrap_err();
    assert!(matches!(err, Error::ReadOnly), "got {err:?}");
}

#[test]
fn create_fixed_rejects_unaligned_size() {
    let mut store = Store::new();
    match create_fixed(&mut store, "t/disk.vhd", 1024 + 1) {
        Ok(_) => panic!("expected error for unaligned size"),
        Err(e) => assert!(matches!(e, Error::Corrupt(_)), "got {e:?}"),
    }
    assert!(matches!(
        create_fixed(&mut store, "t/disk.vhd", 0),
        Err(Error::Corrupt(_))
    ));
    let none = Entropy {
        urandom: None,
        sequence: 0,
    };
    assert!(matches!(
        VhdReader::create_fixed(u64::MAX - 511, &none),
        Err(Error::Corrupt("create_fixed: size overflow"))
    ));
}

#[test]
fn requests_that_cannot_be_met_are_refused_before_the_device_is_asked() {
    let store = one(build_dynamic_vhd(&vec![0u8; 4096], 0xFF));
    let r = open_rw(&store, "t/disk.vhd").unwrap();
    // Nothing to do, anywhere.
    assert!(r.reader.read_at(u64::MAX, 0).is_ok());
    assert!(r.reader.write_at(u64::MAX, Vec::new()).is_ok());
    assert!(matches!(
        r.reader.read_at(u64::MAX, 2),
        Err(Error::Corrupt("offset+len overflow"))
    ));
    assert!(matches!(
        r.reader.write_at(u64::MAX, vec![0; 2]),
        Err(Error::Corrupt("offset+len overflow"))
    ));
    assert!(matches!(
        r.reader.write_at(8192, vec![0; 1]),
        Err(Error::OutOfBounds {
            offset: 8192,
            len: 1,
            size: 8192
        })
    ));
}

// ---------------------------------------------------------------------------
// On-device entry points
// ---------------------------------------------------------------------------

#[test]
fn open_on_device_round_trips_fixed_image() {
    let virt_size = 8u64 * 1024;
    let pattern = pattern(virt_size as usize);
    let store = one(build_fixed(&pattern, [0; 16]));
    let r = open_as(&store, "t/disk.vhd", How::OnDevice).unwrap();
    assert_eq!(r.reader.disk_type(), DiskType::Fixed);
    assert_eq!(r.reader.virtual_size(), virt_size);

    let mut buf = vec![0u8; 256];
    r.read_at(&store, 64, &mut buf).unwrap();
    assert_eq!(buf, pattern[64..64 + 256]);
}

#[test]
fn open_rw_on_device_supports_fixed_writes() {
    let mut store = Store::new();
    create_fixed(&mut store, "t/disk.vhd", 4 * 1024).unwrap();
    let mut r = open_as(&store, "t/disk.vhd", How::RwOnDevice(true)).unwrap();
    assert!(r.reader.writable());

    let payload = vec![0xCDu8; 256];
    r.write_at(&mut store, 512, &payload).unwrap();
    let mut buf = vec![0u8; 256];
    r.read_at(&store, 512, &mut buf).unwrap();
    assert_eq!(buf, payload);
}

#[test]
fn open_rw_on_device_rejects_readonly_inner() {
    let mut store = Store::new();
    create_fixed(&mut store, "t/disk.vhd", 4 * 1024).unwrap();
    match open_as(&store, "t/disk.vhd", How::RwOnDevice(false)) {
        Err(Error::ReadOnly) => {}
        Err(e) => panic!("expected ReadOnly, got error {e:?}"),
        Ok(_) => panic!("expected ReadOnly, got Ok"),
    }
}

#[test]
fn differencing_on_device_rejected() {
    let store = over_a_parent(build_differencing_vhd("parent.vhd", 0xFF, 0x11));
    match open_as(&store, "t/child.vhd", How::OnDevice) {
        Err(Error::Unsupported(_)) => {}
        Err(e) => panic!("expected Unsupported, got error {e:?}"),
        Ok(_) => panic!("expected Unsupported, got Ok"),
    }
}

// ---------------------------------------------------------------------------
// Dynamic write path
// ---------------------------------------------------------------------------

#[test]
fn dynamic_write_into_existing_block_round_trips() {
    // Block 0 starts with pattern; bitmap fully set so the pre-write
    // read sees the original bytes.
    let original = pattern(4096);
    let mut store = one(build_dynamic_vhd(&original, 0xFF));

    let mut r = open_rw(&store, "t/disk.vhd").unwrap();
    assert!(r.reader.writable());

    // Overwrite 256 bytes inside block 0.
    let payload = vec![0x5Au8; 256];
    r.write_at(&mut store, 100, &payload).unwrap();

    // Read it back through the same handle.
    let mut buf = vec![0u8; 256];
    r.read_at(&store, 100, &mut buf).unwrap();
    assert_eq!(buf, payload);

    // Bytes outside the written window are untouched.
    let mut head = vec![0u8; 100];
    r.read_at(&store, 0, &mut head).unwrap();
    assert_eq!(head, original[..100]);

    // Re-open RO; the on-disk image must reflect the write.
    let r2 = open(&store, "t/disk.vhd").unwrap();
    let mut buf2 = vec![0u8; 256];
    r2.read_at(&store, 100, &mut buf2).unwrap();
    assert_eq!(buf2, payload);
}

#[test]
fn dynamic_write_allocates_fresh_block() {
    // Block 0 allocated, block 1 sparse. Write into block 1 to force
    // a fresh allocation, then verify both the new content and that
    // the trailing footer still parses on re-open.
    let mut store = one(build_dynamic_vhd(&vec![0u8; 4096], 0xFF));
    let mut r = open_rw(&store, "t/disk.vhd").unwrap();
    assert!(r.reader.writable());

    // Block 1 is virt offset [4096, 8192).
    let payload = vec![0xE3u8; 1024];
    r.write_at(&mut store, 4096 + 200, &payload).unwrap();

    // Read back through the same handle.
    let mut buf = vec![0u8; 1024];
    r.read_at(&store, 4096 + 200, &mut buf).unwrap();
    assert_eq!(buf, payload);

    // Untouched parts of block 1 still read as zeros.
    let mut head = vec![0xFFu8; 200];
    r.read_at(&store, 4096, &mut head).unwrap();
    assert!(head.iter().all(|&b| b == 0), "block 1 head should be zero");

    // Trailing parts of block 1 also zero.
    let mut tail = vec![0xFFu8; 4096 - 200 - 1024];
    r.read_at(&store, 4096 + 200 + 1024, &mut tail).unwrap();
    assert!(tail.iter().all(|&b| b == 0), "block 1 tail should be zero");

    // Re-open RO: exercises footer rewrite + BAT durability.
    let r2 = open(&store, "t/disk.vhd").unwrap();
    let mut buf2 = vec![0u8; 1024];
    r2.read_at(&store, 4096 + 200, &mut buf2).unwrap();
    assert_eq!(buf2, payload);
    assert_eq!(r2.reader.virtual_size(), 8 * 1024);
}

#[test]
fn dynamic_write_spanning_block_boundary_allocates_both() {
    // Both blocks start sparse. A single write that straddles the
    // boundary must allocate two fresh blocks and splice the payload
    // correctly across them.
    let mut store = one(build_dynamic_vhd_all_sparse());
    let mut r = open_rw(&store, "t/disk.vhd").unwrap();
    assert!(r.reader.writable());

    // Write 2 KiB straddling block boundary at virt offset 4096-512:
    //   first 512 bytes land at end of block 0, next 1536 bytes at
    //   start of block 1.
    let payload = pattern(2048);
    let start = 4096u64 - 512;
    r.write_at(&mut store, start, &payload).unwrap();

    // Same-handle read.
    let mut buf = vec![0u8; 2048];
    r.read_at(&store, start, &mut buf).unwrap();
    assert_eq!(buf, payload);

    // Untouched preceding bytes of block 0 still zero.
    let mut head = vec![0xFFu8; 512];
    r.read_at(&store, 0, &mut head).unwrap();
    assert!(head.iter().all(|&b| b == 0));

    // Untouched trailing bytes of block 1 still zero.
    let mut tail = vec![0xFFu8; 4096 - 1536];
    r.read_at(&store, start + 2048, &mut tail).unwrap();
    assert!(tail.iter().all(|&b| b == 0));

    // Two blocks and a footer behind the last: nothing more.
    assert_eq!(store.len("t/disk.vhd"), 512 * 5 + 2 * (512 + 4096) + 512);

    // Reopen RO; the image must be coherent.
    let r2 = open(&store, "t/disk.vhd").unwrap();
    let mut buf2 = vec![0u8; 2048];
    r2.read_at(&store, start, &mut buf2).unwrap();
    assert_eq!(buf2, payload);
}

/// Two writes that do not overlap, in either order: one disk.
#[test]
fn writes_side_by_side_both_survive() {
    let mut disks = Vec::new();
    for swap in [false, true] {
        let mut store = one(build_dynamic_vhd(&pattern(4096), 0x3C));
        let mut r = open_rw(&store, "t/disk.vhd").unwrap();
        let mut writes = [(1000u64, vec![0x11u8; 3500]), (4500, vec![0x22u8; 700])];
        if swap {
            writes.reverse();
        }
        for (offset, bytes) in &writes {
            r.write_at(&mut store, *offset, bytes).unwrap();
        }
        let mut all = vec![0u8; 8192];
        r.read_at(&store, 0, &mut all).unwrap();
        assert!(all[1000..4500].iter().all(|&b| b == 0x11));
        assert!(all[4500..5200].iter().all(|&b| b == 0x22));
        disks.push(all);
    }
    assert_eq!(disks[0], disks[1]);
}

/// A table that lies inside the header, in its reserved part: a write that
/// fills in no entry leaves the header alone, and the image opens again.
#[test]
fn a_write_in_place_spares_a_header_that_holds_the_table() {
    let mut f = build_dynamic_vhd(&pattern(4096), 0xFF);
    let mut header = f[512..1536].to_vec();
    header[16..24].copy_from_slice(&(512u64 + 768).to_be_bytes());
    header[768..772].copy_from_slice(&5u32.to_be_bytes());
    header[772..776].copy_from_slice(&BAT_UNALLOCATED.to_be_bytes());
    let cs = dyn_cs(&header);
    header[36..40].copy_from_slice(&cs.to_be_bytes());
    f[512..1536].copy_from_slice(&header);
    let mut store = one(f);
    let mut r = open_rw(&store, "t/disk.vhd").unwrap();
    r.write_at(&mut store, 700, &[0x6B; 900]).unwrap();
    let mut expected = pattern(4096);
    expected[700..1600].copy_from_slice(&[0x6B; 900]);
    let r = open(&store, "t/disk.vhd").unwrap();
    let mut buf = vec![0u8; 4096];
    r.read_at(&store, 0, &mut buf).unwrap();
    assert_eq!(buf, expected);

    // Filling in an entry changes the header, and with it its checksum.
    let mut r = open_rw(&store, "t/disk.vhd").unwrap();
    r.write_at(&mut store, 4096, &[1; 16]).unwrap();
    assert!(matches!(
        open(&store, "t/disk.vhd"),
        Err(Error::BadChecksum { .. })
    ));
}

/// The order in which a first write reaches the device.
#[test]
fn an_allocation_reaches_the_device_in_its_order() {
    let mut store = one(build_dynamic_vhd_all_sparse());
    let mut r = open_rw(&store, "t/disk.vhd").unwrap();
    let mut op = r.reader.write_at(4096 + 100, vec![0xAB; 16]).unwrap();
    let mut seen = Vec::new();
    loop {
        let answer = match op.request(&r.reader) {
            WriteRequest::Read { offset, len } => {
                seen.push(format!("read {offset}+{len}"));
                store.read("t/disk.vhd", offset, len as u64).unwrap()
            }
            WriteRequest::Write { offset, bytes } => {
                seen.push(format!("write {offset}+{}", bytes.len()));
                store.patch("t/disk.vhd", offset, &bytes);
                Vec::new()
            }
            WriteRequest::Flush => {
                seen.push("flush".to_string());
                Vec::new()
            }
            WriteRequest::Done => break,
        };
        op.complete(&mut r.reader, answer).unwrap();
    }
    assert_eq!(
        seen,
        [
            "write 2560+4608", // the zeroed block
            "flush",
            "write 1540+4", // its table entry
            "flush",
            "write 7168+512", // the footer behind it
            "flush",
            "read 2560+512",  // the bitmap
            "write 3072+100", // the gap before the payload
            "write 3188+396", // the gap behind it
            "write 3172+16",  // the payload
            "write 2560+512", // the bitmap, marked
            "flush",
        ]
    );
}

#[test]
fn a_large_block_is_zeroed_in_pieces() {
    let none = Entropy {
        urandom: None,
        sequence: 0,
    };
    let new = VhdReader::create_dynamic(8 << 20, 4 << 20, &none).unwrap();
    let mut store = one(dynamic_file(&new));
    let mut r = open_rw(&store, "t/disk.vhd").unwrap();
    let mut op = r.reader.write_at(0, vec![1; 1]).unwrap();
    let mut pieces = Vec::new();
    while let WriteRequest::Write { offset, bytes } = op.request(&r.reader) {
        pieces.push((offset, bytes.len()));
        store.patch("t/disk.vhd", offset, &bytes);
        op.complete(&mut r.reader, Vec::new()).unwrap();
    }
    let start = store_tail(&new);
    assert_eq!(
        pieces,
        [
            (start, 1 << 20),
            (start + (1 << 20), 1 << 20),
            (start + (2 << 20), 1 << 20),
            (start + (3 << 20), 1 << 20),
            (start + (4 << 20), 1024),
        ]
    );
}

fn dynamic_file(new: &vhd::creating::NewDynamic) -> Vec<u8> {
    let mut file = new.head.clone();
    file.resize(file.len() + new.table_len as usize, 0xFF);
    file.extend_from_slice(&new.footer);
    assert_eq!(file.len() as u64, new.total_len);
    file
}

fn store_tail(new: &vhd::creating::NewDynamic) -> u64 {
    new.total_len - 512
}

// ---------------------------------------------------------------------------
// Interrupted writes
// ---------------------------------------------------------------------------

/// Stop the write after every number of requests: through the handle that
/// wrote, each byte is the old one or the new one, and a write afterwards
/// still lands.
#[test]
fn a_write_that_fails_anywhere_leaves_old_or_new_bytes() {
    for limit in 0..40 {
        let mut store = one(build_dynamic_vhd(&pattern(4096), 0xA5));
        let mut r = open_rw(&store, "t/disk.vhd").unwrap();
        let mut before = vec![0u8; 8192];
        r.read_at(&store, 0, &mut before).unwrap();

        let start = 3000usize;
        let payload = vec![0x77u8; 2500];
        let done = r
            .write_until(&mut store, start as u64, &payload, limit)
            .is_ok();
        let mut after = vec![0u8; 8192];
        r.read_at(&store, 0, &mut after).unwrap();
        for i in 0..8192 {
            let inside = (start..start + 2500).contains(&i);
            assert!(
                inside && after[i] == 0x77 || after[i] == before[i] && !(inside && done),
                "limit {limit}: byte {i} is {:#x}, was {:#x}",
                after[i],
                before[i]
            );
        }

        // What is on the device opens, and shows old or new bytes as well.
        let found = open(&store, "t/disk.vhd").expect("opens after the failure");
        let mut seen = vec![0u8; 8192];
        found.read_at(&store, 0, &mut seen).unwrap();
        for i in 0..8192 {
            let inside = (start..start + 2500).contains(&i);
            assert!(
                seen[i] == before[i] || inside && seen[i] == 0x77,
                "limit {limit}: byte {i} reopens as {:#x}, was {:#x}",
                seen[i],
                before[i]
            );
        }

        // The next write goes through, and the image reopens as written.
        r.write_at(&mut store, 4096, &[0x99; 64]).unwrap();
        r.read_at(&store, 0, &mut after).unwrap();
        assert!(after[4096..4160].iter().all(|&b| b == 0x99));
        let r2 = open(&store, "t/disk.vhd").expect("reopens");
        let mut again = vec![0u8; 8192];
        r2.read_at(&store, 0, &mut again).unwrap();
        assert_eq!(again, after, "limit {limit}");
    }
}

/// A failure between the write of a table entry and its flush leaks the
/// block: the next allocation takes another range.
#[test]
fn a_range_offered_to_the_table_is_not_handed_out_again() {
    let mut store = one(build_dynamic_vhd_all_sparse());
    let mut r = open_rw(&store, "t/disk.vhd").unwrap();
    // zero, flush, entry: then the device fails.
    assert!(r.write_until(&mut store, 0, &[1; 512], 3).is_err());
    r.write_at(&mut store, 4096, &[2; 512]).unwrap();
    let table = store.read("t/disk.vhd", 1536, 8).unwrap();
    assert_eq!(table[0..4], 5u32.to_be_bytes());
    assert_eq!(table[4..8], (5u32 + 9).to_be_bytes());

    // A failure before that leaks nothing.
    let mut store = one(build_dynamic_vhd_all_sparse());
    let mut r = open_rw(&store, "t/disk.vhd").unwrap();
    assert!(r.write_until(&mut store, 0, &[1; 512], 1).is_err());
    r.write_at(&mut store, 4096, &[2; 512]).unwrap();
    let table = store.read("t/disk.vhd", 1536, 8).unwrap();
    assert_eq!(table[0..4], BAT_UNALLOCATED.to_be_bytes());
    assert_eq!(table[4..8], 5u32.to_be_bytes());
}

// ---------------------------------------------------------------------------
// What opening refuses
// ---------------------------------------------------------------------------

/// A dynamic VHD whose `max_table_entries` is absurd is refused at open
/// rather than used to size an allocation.
#[test]
fn absurd_max_table_entries_is_refused_before_allocating() {
    let mut store = one(build_dynamic_vhd(&[0xABu8; 4096], 0xFF));
    let mut hdr = store.read("t/disk.vhd", 512, 1024).unwrap();
    hdr[28..32].copy_from_slice(&0xFFFF_FFFFu32.to_be_bytes());
    hdr[36..40].copy_from_slice(&0u32.to_be_bytes());
    let cs = dyn_cs(&hdr);
    hdr[36..40].copy_from_slice(&cs.to_be_bytes());
    store.patch("t/disk.vhd", 512, &hdr);

    let msg = match open(&store, "t/disk.vhd") {
        Ok(_) => panic!("a BAT larger than the image must be refused, not allocated"),
        Err(e) => e.message(),
    };
    assert!(
        msg.contains("BAT"),
        "the refusal should name the BAT, got: {msg}"
    );
}

/// Replace a field of the fixture's header and repair the checksum.
fn with_header_field(at: usize, bytes: &[u8]) -> Store {
    let mut store = one(build_dynamic_vhd(&[0xABu8; 4096], 0xFF));
    let mut hdr = store.read("t/disk.vhd", 512, 1024).unwrap();
    hdr[at..at + bytes.len()].copy_from_slice(bytes);
    let cs = dyn_cs(&hdr);
    hdr[36..40].copy_from_slice(&cs.to_be_bytes());
    store.patch("t/disk.vhd", 512, &hdr);
    store
}

fn refusal(store: &Store) -> &'static str {
    match open(store, "t/disk.vhd") {
        Err(Error::Corrupt(m)) => m,
        other => panic!("expected Corrupt, got {:?}", other.err()),
    }
}

#[test]
fn every_refusal_says_what_is_wrong() {
    let mut store = Store::new();
    store.put("t/disk.vhd", vec![0; 511]);
    assert_eq!(refusal(&store), "device shorter than 512 bytes");

    let mut f = build_dynamic_vhd(&[0; 4096], 0xFF);
    let n = f.len();
    f[n - 512..].copy_from_slice(&build_footer(DiskType::Dynamic, u64::MAX, 8192));
    assert_eq!(
        refusal(&one(f)),
        "dynamic/differencing footer has data_offset = 0xFFFF..."
    );

    assert_eq!(
        refusal(&with_header_field(0, b"NOTcxspr")),
        "dynamic header bad cookie"
    );
    assert_eq!(
        refusal(&with_header_field(32, &4097u32.to_be_bytes())),
        "block_size is not a power of two"
    );
    assert_eq!(
        refusal(&with_header_field(32, &256u32.to_be_bytes())),
        "block_size < 512"
    );
    assert_eq!(
        refusal(&with_header_field(28, &1u32.to_be_bytes())),
        "BAT is too small to describe the declared virtual size"
    );
    assert_eq!(
        refusal(&with_header_field(16, &(u64::MAX - 3).to_be_bytes())),
        "BAT extent overflows"
    );
    assert_eq!(
        refusal(&with_header_field(16, &7677u64.to_be_bytes())),
        "BAT extends past the end of the image"
    );
    assert_eq!(
        refusal(&with_bat(&[0])),
        "BAT entry names a block inside the image's own metadata"
    );
    assert_eq!(
        refusal(&with_bat(&[6])),
        "BAT entry names a block running into the trailing footer or past it"
    );
    assert_eq!(
        refusal(&with_bat(&[5, 5])),
        "two BAT entries name the same block"
    );
}

#[test]
fn a_header_that_the_device_does_not_hold_is_a_device_error() {
    let mut f = build_dynamic_vhd(&[0; 4096], 0xFF);
    let n = f.len();
    f[n - 512..].copy_from_slice(&build_footer(DiskType::Dynamic, 1 << 40, 8192));
    match open(&one(f), "t/disk.vhd") {
        Err(Error::Io(e)) => assert!(
            e.to_string()
                .contains("short read at 1099511627776: wanted 1024 got 0"),
            "{e}"
        ),
        other => panic!("got {:?}", other.err()),
    }
}

// `build_dynamic_vhd`'s layout, for the numbers below: footer mirror at
// 0, dynamic header at 512 (1024 bytes), BAT at sector 3 (1536), block 0
// bitmap at sector 5 (2560), block 0 data at 3072, trailing footer at
// 7168. So the first byte a block may occupy is 2048.

const FIXTURE_BAT_OFFSET: u64 = 512 * 3;

/// The standard dynamic fixture with its first BAT entries replaced.
fn with_bat(entries: &[u32]) -> Store {
    let mut store = one(build_dynamic_vhd(&pattern(4096), 0xFF));
    for (i, entry) in entries.iter().enumerate() {
        store.patch(
            "t/disk.vhd",
            FIXTURE_BAT_OFFSET + 4 * i as u64,
            &entry.to_be_bytes(),
        );
    }
    store
}

#[test]
fn a_bat_entry_pointing_into_the_metadata_is_refused_at_open() {
    // Entry 0 makes the footer mirror the block's sector bitmap and the
    // bytes after it the block's data.
    let err = open(&with_bat(&[0]), "t/disk.vhd")
        .err()
        .expect("an image whose BAT points at its own footer must be refused");
    assert!(matches!(err, Error::Corrupt(_)), "got {err:?}");
}

#[test]
fn a_bat_entry_landing_on_the_last_metadata_sector_is_refused_at_open() {
    // Sector 3 is the BAT itself, one sector below the first address a
    // block may occupy.
    let err = open(&with_bat(&[3]), "t/disk.vhd")
        .err()
        .expect("an image whose BAT points at the BAT must be refused");
    assert!(matches!(err, Error::Corrupt(_)), "got {err:?}");
}

#[test]
fn a_bat_entry_at_the_first_legal_sector_is_accepted() {
    open(&with_bat(&[4]), "t/disk.vhd").expect("a block at the first legal sector must open");
}

#[test]
fn a_bat_entry_past_the_end_of_the_image_is_refused_at_open() {
    let err = open(&with_bat(&[0x00FF_FFFF]), "t/disk.vhd")
        .err()
        .expect("an image whose BAT points past its own end must be refused");
    assert!(matches!(err, Error::Corrupt(_)), "got {err:?}");
}

#[test]
fn a_bat_entry_whose_block_reaches_the_trailing_footer_is_refused_at_open() {
    // Entry 6 puts the block at 3072, so it ends at 3072 + 4608 == 7680,
    // which is exactly the device's size, and its last sector IS the
    // footer.
    let err = open(&with_bat(&[6]), "t/disk.vhd")
        .err()
        .expect("a block whose last sector is the trailing footer must be refused");
    assert!(matches!(err, Error::Corrupt(_)), "got {err:?}");
}

#[test]
fn a_bat_entry_whose_block_ends_exactly_at_the_footer_is_accepted() {
    // 2560 + 4608 == 7168: the block ends exactly where the footer begins.
    let store = with_bat(&[5]);
    let r = open(&store, "t/disk.vhd").expect("a block ending at the footer must open");
    let mut buf = vec![0u8; 4096];
    r.read_at(&store, 0, &mut buf).unwrap();
    assert_eq!(buf, pattern(4096), "and it must still read");
}

#[test]
fn two_bat_entries_naming_one_block_are_refused_at_open() {
    // Entry 1 is normally unallocated; pointing it at block 0 makes two
    // virtual blocks share one host block, so a write through either
    // silently changes the other.
    let err = open(&with_bat(&[5, 5]), "t/disk.vhd")
        .err()
        .expect("an image with two BAT entries at one address must be refused");
    assert!(matches!(err, Error::Corrupt(_)), "got {err:?}");
}

#[test]
fn blocks_that_overlap_are_refused_and_blocks_end_to_end_are_not() {
    // Room for two blocks behind the table: 2048 + 2 * 4608 = 11264.
    for (second, opens) in [(4u32 + 8, false), (4 + 9, true), (4 + 10, true)] {
        let footer = build_footer(DiskType::Dynamic, 512, 8192);
        let mut f = vec![0u8; 11264 + 512 + 512];
        f[0..512].copy_from_slice(&footer);
        f[512..1536].copy_from_slice(&build_header(1536, 2, 4096, "", [0; 16]));
        f[1536..1540].copy_from_slice(&second.to_be_bytes());
        f[1540..1544].copy_from_slice(&4u32.to_be_bytes());
        let n = f.len();
        f[n - 512..].copy_from_slice(&footer);
        match open(&one(f), "t/disk.vhd") {
            Ok(_) => assert!(opens, "entry {second}"),
            Err(Error::Corrupt(m)) => {
                assert!(!opens, "entry {second}");
                assert_eq!(m, "two BAT entries name overlapping blocks");
            }
            Err(e) => panic!("entry {second}: {e:?}"),
        }
    }
}

#[test]
fn the_unmodified_fixture_still_opens_and_reads() {
    let block = pattern(4096);
    let store = one(build_dynamic_vhd(&block, 0xFF));
    let r = open(&store, "t/disk.vhd").unwrap();
    let mut buf = vec![0u8; 4096];
    r.read_at(&store, 0, &mut buf).unwrap();
    assert_eq!(buf, block);
}

/// The all-sparse fixture with its trailing footer one byte past the
/// sector boundary, so the file is 3073 bytes long and its last 512 bytes
/// are still a valid footer.
fn dynamic_with_unaligned_length() -> Store {
    let mut store = one(build_dynamic_vhd_all_sparse());
    let footer = store.read("t/disk.vhd", 512 * 5, 512).unwrap();
    store.patch("t/disk.vhd", 512 * 5 + 1, &footer);
    assert_eq!(store.len("t/disk.vhd"), 512 * 5 + 1 + 512);
    store
}

#[test]
fn a_sparse_image_whose_length_is_not_a_multiple_of_512_is_refused() {
    let store = dynamic_with_unaligned_length();
    let err = open(&store, "t/disk.vhd")
        .err()
        .expect("an off-grid sparse image must be refused");
    assert!(matches!(err, Error::Corrupt(_)), "got {err:?}");

    let err = open_rw(&store, "t/disk.vhd")
        .err()
        .expect("and refused for writing too");
    assert!(matches!(err, Error::Corrupt(_)), "got {err:?}");
}

#[test]
fn an_aligned_sparse_image_still_allocates_and_reads_back() {
    let mut store = one(build_dynamic_vhd_all_sparse());
    let payload = [0xABu8; 16];
    let mut r = open_rw(&store, "t/disk.vhd").unwrap();
    r.write_at(&mut store, 0, &payload).unwrap();
    let r = open(&store, "t/disk.vhd").unwrap();
    let mut buf = [0u8; 16];
    r.read_at(&store, 0, &mut buf).unwrap();
    assert_eq!(buf, payload);
}

// ---------------------------------------------------------------------------
// Partial sectors
// ---------------------------------------------------------------------------

/// A partial-sector write into a block somebody else allocated must not
/// publish the rest of the sector. Block 0 is allocated, its bitmap is all
/// clear, so every sector reads as zero, and its data area holds `0xEE`.
#[test]
fn a_partial_sector_write_publishes_only_what_was_written() {
    let mut store = one(build_dynamic_vhd(&[0xEEu8; 4096], 0x00));

    // Before anything is written, the block reads as zeros.
    let r = open(&store, "t/disk.vhd").unwrap();
    let mut buf = vec![0u8; 512];
    r.read_at(&store, 0, &mut buf).unwrap();
    assert!(
        buf.iter().all(|&b| b == 0),
        "an all-clear bitmap must read as zeros, got {:02x?}",
        &buf[..8]
    );

    let mut r = open_rw(&store, "t/disk.vhd").unwrap();
    r.write_at(&mut store, 100, &[0xABu8; 16]).unwrap();

    let r = open(&store, "t/disk.vhd").unwrap();
    let mut buf = vec![0u8; 512];
    r.read_at(&store, 0, &mut buf).unwrap();

    assert_eq!(&buf[100..116], &[0xABu8; 16], "the payload did not land");
    let stray: Vec<usize> = (0..512)
        .filter(|&i| !(100..116).contains(&i) && buf[i] != 0)
        .collect();
    assert!(
        stray.is_empty(),
        "{} bytes the caller never wrote were published; first at {:?}",
        stray.len(),
        &stray[..stray.len().min(8)]
    );
}

/// A write that starts mid-sector and ends mid-sector two sectors later
/// leaves both partial ends undefined-free, and does not disturb the
/// sector between them, which the payload covers in full.
#[test]
fn a_write_spanning_three_sectors_publishes_only_what_was_written() {
    let mut store = one(build_dynamic_vhd(&[0xEEu8; 4096], 0x00));

    let start = 512 + 300u64; // mid-sector 1
    let len = 512 + 400usize; // through sector 2, ending mid-sector 3
    let mut r = open_rw(&store, "t/disk.vhd").unwrap();
    r.write_at(&mut store, start, &vec![0xCDu8; len]).unwrap();

    let r = open(&store, "t/disk.vhd").unwrap();
    let mut buf = vec![0u8; 4 * 512];
    r.read_at(&store, 0, &mut buf).unwrap();

    let s = start as usize;
    assert_eq!(&buf[s..s + len], &vec![0xCDu8; len][..]);
    let stray: Vec<usize> = (0..buf.len())
        .filter(|&i| !(s..s + len).contains(&i) && buf[i] != 0)
        .collect();
    assert!(
        stray.is_empty(),
        "{} bytes the caller never wrote were published; first at {:?}",
        stray.len(),
        &stray[..stray.len().min(8)]
    );
}

// ---------------------------------------------------------------------------
// Parents
// ---------------------------------------------------------------------------

fn child_and_parent(named: [u8; 16], found: [u8; 16]) -> Store {
    let mut store = Store::new();
    store.put("t/parent.vhd", build_fixed(&vec![0xBB; 8 * 1024], found));
    store.put(
        "t/child.vhd",
        build_differencing_vhd_claiming("parent.vhd", named),
    );
    store
}

/// A child must not accept a parent that is not the one it names.
#[test]
fn a_parent_that_is_not_the_one_the_child_names_is_refused() {
    let store = child_and_parent([0x11; 16], [0x22; 16]);
    let err = open(&store, "t/child.vhd")
        .err()
        .expect("a parent whose unique_id does not match must be refused");
    match err {
        Error::ParentNotFound(m) => {
            assert!(
                m.contains("22222222"),
                "the message must name what it found: {m}"
            );
            assert!(m.contains("11111111"), "and what the child asked for: {m}");
        }
        other => panic!("expected ParentNotFound, got {other:?}"),
    }
}

/// Two ids that differ in exactly one byte are still different ids, and
/// there is a case at each end.
#[test]
fn a_parent_id_differing_in_one_byte_at_either_end_is_still_a_different_parent() {
    for at in [0usize, 15] {
        let mut theirs = [0x22u8; 16];
        let mut ours = [0x22u8; 16];
        theirs[at] = 0xFE;
        ours[at] = 0xFF;
        let store = child_and_parent(ours, theirs);
        assert!(
            matches!(open(&store, "t/child.vhd"), Err(Error::ParentNotFound(_))),
            "a difference in byte {at} is still a different parent"
        );
    }
}

/// The positive control: the right parent still opens, and the child
/// still reads through to it.
#[test]
fn a_parent_whose_unique_id_matches_is_accepted_and_read_through() {
    let store = child_and_parent([0x22; 16], [0x22; 16]);
    let r = open(&store, "t/child.vhd").expect("the named parent must be accepted");
    assert!(r.reader.has_parent());
    let mut buf = vec![0u8; 512];
    r.read_at(&store, 0, &mut buf).unwrap();
    assert!(
        buf.iter().all(|&b| b == 0xBB),
        "every byte comes from the parent"
    );
}

// ---------------------------------------------------------------------------
// The footer's copy
// ---------------------------------------------------------------------------

#[test]
fn a_damaged_trailing_footer_is_recovered_from_the_mirror() {
    let mut store = one(build_dynamic_vhd(&pattern(4096), 0xFF));
    assert!(!open(&store, "t/disk.vhd")
        .unwrap()
        .reader
        .footer_recovered_from_mirror());
    let tail = store.len("t/disk.vhd") - 512;
    store.patch("t/disk.vhd", tail, &[0u8; 512]);
    let r = open(&store, "t/disk.vhd").expect("the mirror at offset 0 is intact");
    assert_eq!(r.reader.virtual_size(), 8192);
    assert!(r.reader.footer_recovered_from_mirror());
    let mut buf = vec![0u8; 4096];
    r.read_at(&store, 0, &mut buf).unwrap();
    assert_eq!(buf, pattern(4096));

    store.patch("t/disk.vhd", 0, &[0u8; 512]);
    assert!(
        matches!(open(&store, "t/disk.vhd"), Err(Error::NotVhd)),
        "no valid footer anywhere must be refused"
    );
}

/// A block may reach to the end of a device that has no footer there; the
/// next one goes behind it, and the footer behind that.
#[test]
fn without_a_trailing_footer_the_data_area_reaches_to_the_end() {
    // Entry 6 puts the block at 3072..7680, over the trailing footer.
    let mut store = with_bat(&[6]);
    assert!(open(&store, "t/disk.vhd").is_err());
    store.patch("t/disk.vhd", 7168, &[0u8; 512]);
    let mut r = open_rw(&store, "t/disk.vhd").expect("no footer to run into");
    assert!(r.reader.footer_recovered_from_mirror());
    r.write_at(&mut store, 4096, &[0x31; 100]).unwrap();
    assert_eq!(store.len("t/disk.vhd"), 7680 + 4608 + 512);
    let r = open(&store, "t/disk.vhd").unwrap();
    assert!(!r.reader.footer_recovered_from_mirror());
    let mut buf = vec![0u8; 100];
    r.read_at(&store, 4096, &mut buf).unwrap();
    assert_eq!(buf, [0x31; 100]);
}

#[test]
fn a_fixed_disk_keeps_no_copy_of_its_footer() {
    // The guest's own first sector happens to be a fixed footer.
    let mut data = vec![0u8; 4096];
    data[..512].copy_from_slice(&build_footer(DiskType::Fixed, u64::MAX, 4096));
    let mut store = one(build_fixed(&data, [0; 16]));
    store.patch("t/disk.vhd", 4096, &[0u8; 512]);
    assert!(matches!(open(&store, "t/disk.vhd"), Err(Error::NotVhd)));
}

// ---------------------------------------------------------------------------
// Fresh dynamic images
// ---------------------------------------------------------------------------

#[test]
fn a_dynamic_image_is_created_written_and_reopened() {
    let none = Entropy {
        urandom: Some([9; 16]),
        sequence: 0,
    };
    let block = 1u64 << 20;
    let new = VhdReader::create_dynamic(16 * block, block as u32, &none).unwrap();
    let mut store = one(dynamic_file(&new));
    assert_eq!(store.len("t/disk.vhd"), 2048 + 512);

    let mut r = open_rw(&store, "t/disk.vhd").unwrap();
    assert_eq!(r.reader.disk_type(), DiskType::Dynamic);
    assert_eq!(r.reader.virtual_size(), 16 * block);
    assert_eq!(r.reader.block_size(), 1 << 20);
    let mut expected = vec![0u8; 16 << 20];
    let mut all = vec![0xFFu8; 16 << 20];
    r.read_at(&store, 0, &mut all).unwrap();
    assert!(all == expected, "a fresh disk is all zeros");

    // In the first block, across a boundary, and in a late block, so that
    // blocks are allocated out of order.
    for (offset, len, fill) in [
        (12 * block + 17, 3000usize, 0xC3u8),
        (block - 1000, 5000, 0xA5),
        (4096, 700, 0x5A),
    ] {
        let bytes: Vec<u8> = (0..len).map(|j| fill.wrapping_add(j as u8)).collect();
        r.write_at(&mut store, offset, &bytes).unwrap();
        expected[offset as usize..offset as usize + len].copy_from_slice(&bytes);
    }
    let r = open(&store, "t/disk.vhd").unwrap();
    r.read_at(&store, 0, &mut all).unwrap();
    assert!(all == expected, "every byte is as it was written");
}

#[test]
fn create_dynamic_refuses_what_no_table_can_describe() {
    let none = Entropy {
        urandom: None,
        sequence: 0,
    };
    for (size, block_size) in [(0u64, 4096u32), (513, 4096), (8192, 0), (8192, 256), (8192, 4097)] {
        assert!(
            matches!(
                VhdReader::create_dynamic(size, block_size, &none),
                Err(Error::Corrupt(_))
            ),
            "{size} {block_size}"
        );
    }
    assert!(matches!(
        VhdReader::create_dynamic(1 << 41, 512, &none),
        Err(Error::Corrupt(m)) if m.contains("more blocks")
    ));
    // A size that is no whole number of blocks has one more, partly used.
    let new = VhdReader::create_dynamic(4096 + 512, 4096, &none).unwrap();
    let store = one(dynamic_file(&new));
    let r = open(&store, "t/disk.vhd").unwrap();
    assert_eq!(r.reader.virtual_size(), 4608);
    let mut buf = vec![1u8; 4608];
    r.read_at(&store, 0, &mut buf).unwrap();
    assert!(buf.iter().all(|&b| b == 0));
}

#[test]
fn a_block_that_no_entry_can_name_is_an_error_and_the_tail_has_moved() {
    // The tail is put where the next block would be the "absent" sector.
    let store = one(build_dynamic_vhd_all_sparse());
    let mut r = open_rw(&store, "t/disk.vhd").unwrap();
    let sentinel = BAT_UNALLOCATED as u64 * 512;
    r.reader.images[0].sparse.as_mut().unwrap().next_alloc = sentinel;
    let mut op = r.reader.write_at(0, vec![1; 1]).unwrap();
    assert!(matches!(op.request(&r.reader), WriteRequest::Write { offset, .. } if offset == sentinel));
    op.complete(&mut r.reader, Vec::new()).unwrap();
    assert!(matches!(op.request(&r.reader), WriteRequest::Flush));
    match op.complete(&mut r.reader, Vec::new()) {
        Err(Error::Corrupt(m)) => assert!(m.contains("absent"), "{m}"),
        other => panic!("got {other:?}"),
    }
    let sparse = r.reader.images[0].sparse.as_ref().unwrap();
    assert_eq!(sparse.next_alloc, sentinel + 4608);
    assert_eq!(sparse.bat, [BAT_UNALLOCATED, BAT_UNALLOCATED]);
}

#[test]
fn a_block_past_the_last_address_is_refused_before_it_is_zeroed() {
    let store = one(build_dynamic_vhd_all_sparse());
    let mut r = open_rw(&store, "t/disk.vhd").unwrap();
    r.reader.images[0].sparse.as_mut().unwrap().next_alloc = u64::MAX - 511;
    assert!(matches!(
        r.reader.write_at(0, vec![1; 1]),
        Err(Error::Corrupt("a block was placed past the last addressable byte"))
    ));
}

// ---------------------------------------------------------------------------
// Damaged fixed images
// ---------------------------------------------------------------------------

const VSIZE: u64 = 1024 * 1024; // 1 MiB fixed disk

/// A fixed VHD with `VSIZE` bytes of virtual capacity. The 512-byte footer
/// lives at file offset `VSIZE`.
fn make_fixed() -> Store {
    let mut store = Store::new();
    let disk = create_fixed(&mut store, "disk.vhd", VSIZE).unwrap();
    assert!(disk.reader.flush_writes());
    store
}

fn footer_offset() -> u64 {
    VSIZE
}

#[test]
fn created_fixed_vhd_opens_as_baseline() {
    let store = make_fixed();
    let r = open(&store, "disk.vhd").unwrap();
    assert_eq!(r.reader.virtual_size(), VSIZE);
    let mut buf = [0u8; 16];
    r.read_at(&store, 0, &mut buf).unwrap();
    assert!(buf.iter().all(|&b| b == 0));
}

#[test]
fn corrupt_footer_cookie_is_not_vhd() {
    let mut store = make_fixed();
    store.patch("disk.vhd", footer_offset(), b"NOTcooki");
    let err = open(&store, "disk.vhd")
        .err()
        .expect("expected NotVhd, got Ok");
    assert!(matches!(err, Error::NotVhd), "got {err:?}");
}

#[test]
fn corrupt_footer_checksum_is_rejected() {
    let mut store = make_fixed();
    // Flip a byte in the footer's original_size field (offset +40)
    // without fixing the stored checksum.
    store.patch("disk.vhd", footer_offset() + 40, &[0xFF]);
    match open(&store, "disk.vhd") {
        Err(Error::BadChecksum { what, .. }) => assert_eq!(what, "footer"),
        other => panic!("expected footer BadChecksum, got {:?}", other.err()),
    }
}

#[test]
fn corrupt_footer_disk_type_is_unsupported() {
    let mut store = make_fixed();
    // disk_type is a big-endian u32 at footer offset +60. Set it to 9
    // (outside the {2,3,4} set) and repair the checksum so parsing
    // reaches the disk-type check and rejects with UnsupportedDiskType
    // rather than BadChecksum.
    let mut footer = store.read("disk.vhd", footer_offset(), 512).unwrap();
    footer[60..64].copy_from_slice(&9u32.to_be_bytes());
    let cs = vhd::footer::compute_checksum(&footer);
    footer[64..68].copy_from_slice(&cs.to_be_bytes());
    store.patch("disk.vhd", footer_offset(), &footer);

    match open(&store, "disk.vhd") {
        Err(Error::UnsupportedDiskType(9)) => {}
        other => panic!("expected UnsupportedDiskType(9), got {:?}", other.err()),
    }
}

#[test]
fn fixed_vhd_large_write_round_trips_across_sectors() {
    let mut store = Store::new();
    let mut r = create_fixed(&mut store, "disk.vhd", VSIZE).unwrap();

    // Write a 300 KiB pattern at a non-sector-multiple offset so it
    // straddles many 512-byte sectors and is not block-aligned.
    let start = 100 * 1024 + 17;
    let payload: Vec<u8> = (0..300 * 1024).map(|i| (i % 251) as u8).collect();
    r.write_at(&mut store, start, &payload).unwrap();
    assert!(r.reader.flush_writes());

    let r2 = open(&store, "disk.vhd").unwrap();
    let mut got = vec![0u8; payload.len()];
    r2.read_at(&store, start, &mut got).unwrap();
    assert_eq!(got, payload);

    // Bytes just before the written window are still zero.
    let mut before = [0u8; 16];
    r2.read_at(&store, start - 16, &mut before).unwrap();
    assert!(before.iter().all(|&b| b == 0));
}
