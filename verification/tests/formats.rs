//! The on-disk structures, byte for byte.
//!
//! Every fixture here writes its bytes at literal offsets: they are a
//! second opinion on the offset table, not a use of it.

use vhd::dynamic::{
    compute_checksum as dyn_checksum, decode_utf16_be, is_power_of_two, DynamicHeader, ParentLocator,
    BAT_UNALLOCATED, DYN_HEADER_COOKIE, DYN_HEADER_SIZE,
};
use vhd::footer::{compute_checksum as footer_checksum, FOOTER_COOKIE, FOOTER_SIZE};
use vhd::footer_build::{
    build_fixed_footer, chs_for_size, compose_footer, fill_from_clock_prng, generate_uuid_v4,
    vhd_timestamp, vhd_timestamp_now, Entropy,
};
use vhd::format::{
    be_bytes_u32, chs, disk_type_wire, dynamic_offsets, footer_offsets, ones_complement_checksum,
    read_u32, read_u64, write_u32, write_u64, SECTOR_SIZE,
};
use vhd::reader::bat_entry_for;
use vhd::{DiskType, Error, Footer, VhdReader};

fn no_entropy() -> Entropy {
    Entropy {
        urandom: None,
        sequence: 0,
    }
}

// ---------------------------------------------------------------------------
// Dynamic header
// ---------------------------------------------------------------------------

#[test]
fn checksum_round_trip_for_minimal_dynamic_header() {
    let mut h = [0u8; 1024];
    h[0..8].copy_from_slice(&DYN_HEADER_COOKIE);
    h[8..16].copy_from_slice(&u64::MAX.to_be_bytes()); // no next
    h[16..24].copy_from_slice(&3072u64.to_be_bytes()); // BAT @ 6 sectors
    h[24..28].copy_from_slice(&0x0001_0000u32.to_be_bytes());
    h[28..32].copy_from_slice(&4u32.to_be_bytes()); // max table entries
    h[32..36].copy_from_slice(&0x0010_0000u32.to_be_bytes()); // block_size = 1 MB
    let cs = dyn_checksum(&h);
    h[36..40].copy_from_slice(&cs.to_be_bytes());

    let parsed = DynamicHeader::parse(&h).unwrap();
    assert_eq!(parsed.block_size, 0x0010_0000);
    assert_eq!(parsed.max_table_entries, 4);
    assert_eq!(parsed.bitmap_size_bytes(), 512);
}

/// A valid dynamic header with the given block size and a correct
/// checksum.
fn valid_header(block_size: u32) -> [u8; 1024] {
    let mut h = [0u8; 1024];
    h[0..8].copy_from_slice(&DYN_HEADER_COOKIE);
    h[8..16].copy_from_slice(&u64::MAX.to_be_bytes());
    h[16..24].copy_from_slice(&3072u64.to_be_bytes());
    h[24..28].copy_from_slice(&0x0001_0000u32.to_be_bytes());
    h[28..32].copy_from_slice(&4u32.to_be_bytes());
    h[32..36].copy_from_slice(&block_size.to_be_bytes());
    let cs = dyn_checksum(&h);
    h[36..40].copy_from_slice(&cs.to_be_bytes());
    h
}

#[test]
fn rejects_header_shorter_than_1024_bytes() {
    let err = DynamicHeader::parse(&[0u8; 512]).unwrap_err();
    assert!(matches!(err, Error::Corrupt(_)), "got {err:?}");
}

#[test]
fn dynamic_rejects_bad_cookie() {
    // The cookie is looked at before the checksum, so no checksum repair
    // is needed.
    let mut h = valid_header(0x0010_0000);
    h[0..8].copy_from_slice(b"NOTcxspr");
    let err = DynamicHeader::parse(&h).unwrap_err();
    assert!(matches!(err, Error::Corrupt(_)), "got {err:?}");
}

#[test]
fn rejects_checksum_mismatch() {
    let mut h = valid_header(0x0010_0000);
    h[28] ^= 0xFF; // perturb max_table_entries without fixing checksum
    match DynamicHeader::parse(&h).unwrap_err() {
        Error::BadChecksum { what, .. } => assert_eq!(what, "dynamic-header"),
        other => panic!("expected BadChecksum, got {other:?}"),
    }
}

#[test]
fn rejects_block_size_not_power_of_two() {
    let h = valid_header(0x0010_0001); // 1 MiB + 1
    let err = DynamicHeader::parse(&h).unwrap_err();
    assert!(matches!(err, Error::Corrupt(_)), "got {err:?}");
}

#[test]
fn rejects_block_size_below_512() {
    let h = valid_header(256);
    let err = DynamicHeader::parse(&h).unwrap_err();
    assert!(matches!(err, Error::Corrupt(_)), "got {err:?}");
}

fn valid_parsed(block_size: u32) -> DynamicHeader {
    DynamicHeader::parse(&valid_header(block_size)).unwrap()
}

#[test]
fn bitmap_size_rounds_up_to_a_sector() {
    // 512-byte block -> 1 sector -> 1 bit -> 1 byte -> padded to 512.
    assert_eq!(valid_parsed(512).bitmap_size_bytes(), 512);
    // 2 MiB block -> 4096 sectors -> 512 bytes -> exactly 1 sector.
    assert_eq!(valid_parsed(0x0020_0000).bitmap_size_bytes(), 512);
    // 8 MiB block -> 16384 sectors -> 2048 bytes -> 4 sectors.
    assert_eq!(valid_parsed(0x0080_0000).bitmap_size_bytes(), 2048);
}

#[test]
fn decodes_parent_name_from_utf16_be() {
    let mut h = valid_header(0x0020_0000);
    // Write "p.vhd" as UTF-16 BE into the parent name field at 64.
    let name: Vec<u8> = "p.vhd"
        .encode_utf16()
        .flat_map(|u| u.to_be_bytes())
        .collect();
    h[64..64 + name.len()].copy_from_slice(&name);
    let cs = dyn_checksum(&h);
    h[36..40].copy_from_slice(&cs.to_be_bytes());
    let parsed = DynamicHeader::parse(&h).unwrap();
    assert_eq!(parsed.parent_name, "p.vhd");
}

#[test]
fn every_field_of_a_dynamic_header_is_read_from_its_place() {
    let mut h = valid_header(0x0020_0000);
    h[8..16].copy_from_slice(&0x0102_0304_0506_0708u64.to_be_bytes());
    h[24..28].copy_from_slice(&0x0001_0002u32.to_be_bytes());
    for i in 0..16 {
        h[40 + i] = 0xA0 + i as u8;
    }
    h[56..60].copy_from_slice(&0x1122_3344u32.to_be_bytes());
    for k in 0..8usize {
        let off = 576 + 24 * k;
        h[off..off + 4].copy_from_slice(&[b'W', b'2', b'k', k as u8]);
        h[off + 4..off + 8].copy_from_slice(&(100 + k as u32).to_be_bytes());
        h[off + 8..off + 12].copy_from_slice(&(200 + k as u32).to_be_bytes());
        h[off + 12..off + 16].copy_from_slice(&(300 + k as u32).to_be_bytes());
        h[off + 16..off + 24].copy_from_slice(&(1u64 << (32 + k)).to_be_bytes());
    }
    let cs = dyn_checksum(&h);
    h[36..40].copy_from_slice(&cs.to_be_bytes());

    let p = DynamicHeader::parse(&h).unwrap();
    assert_eq!(p.data_offset, 0x0102_0304_0506_0708);
    assert_eq!(p.table_offset, 3072);
    assert_eq!(p.header_version, 0x0001_0002);
    assert_eq!(p.max_table_entries, 4);
    assert_eq!(p.parent_unique_id[0], 0xA0);
    assert_eq!(p.parent_unique_id[15], 0xAF);
    assert_eq!(p.parent_timestamp, 0x1122_3344);
    assert_eq!(p.parent_name, "");
    for (k, locator) in p.parent_locators.iter().enumerate() {
        assert_eq!(locator.platform_code, [b'W', b'2', b'k', k as u8]);
        assert_eq!(locator.platform_data_space, 100 + k as u32);
        assert_eq!(locator.platform_data_length, 200 + k as u32);
        assert_eq!(locator.reserved, 300 + k as u32);
        assert_eq!(locator.platform_data_offset, 1u64 << (32 + k));
    }
}

#[test]
fn utf16_names_decode_up_to_the_first_zero() {
    assert_eq!(decode_utf16_be(&[]), "");
    assert_eq!(decode_utf16_be(&[0x00, 0x61, 0x00, 0x00, 0x00, 0x62]), "a");
    // A byte left over is no unit.
    assert_eq!(decode_utf16_be(&[0x00, 0x61, 0x00]), "a");
    // U+00E9, then U+1F4BE as a surrogate pair.
    assert_eq!(
        decode_utf16_be(&[0x00, 0xE9, 0xD8, 0x3D, 0xDC, 0xBE]),
        "\u{e9}\u{1f4be}"
    );
    // A surrogate without its partner: no name at all.
    assert_eq!(decode_utf16_be(&[0x00, 0x61, 0xD8, 0x3D]), "");
    assert_eq!(decode_utf16_be(&[0xDC, 0xBE, 0x00, 0x61]), "");
}

#[test]
fn powers_of_two_are_told_from_other_numbers() {
    for v in [0u32, 3, 5, 6, 511, 513, 0x8000_0001, u32::MAX] {
        assert!(!is_power_of_two(v), "{v}");
    }
    for k in 0..32 {
        assert!(is_power_of_two(1 << k), "2^{k}");
    }
}

// ---------------------------------------------------------------------------
// Footer
// ---------------------------------------------------------------------------

#[test]
fn footer_rejects_bad_cookie() {
    let bytes = [0u8; 512];
    assert!(matches!(Footer::parse(&bytes), Err(Error::NotVhd)));
}

#[test]
fn checksum_round_trip_for_minimal_fixed_footer() {
    let mut f = [0u8; 512];
    f[0..8].copy_from_slice(&FOOTER_COOKIE);
    f[8..12].copy_from_slice(&0x0000_0002u32.to_be_bytes());
    f[12..16].copy_from_slice(&0x0001_0000u32.to_be_bytes());
    f[16..24].copy_from_slice(&u64::MAX.to_be_bytes()); // fixed
    f[40..48].copy_from_slice(&(8u64 * 1024 * 1024).to_be_bytes());
    f[48..56].copy_from_slice(&(8u64 * 1024 * 1024).to_be_bytes());
    f[60..64].copy_from_slice(&2u32.to_be_bytes()); // disk_type fixed
    let cs = footer_checksum(&f);
    f[64..68].copy_from_slice(&cs.to_be_bytes());

    let parsed = Footer::parse(&f).unwrap();
    assert_eq!(parsed.disk_type, DiskType::Fixed);
    assert_eq!(parsed.current_size, 8 * 1024 * 1024);
}

#[test]
fn a_footer_is_refused_for_the_first_thing_wrong_with_it() {
    assert!(matches!(
        Footer::parse(&[0u8; 511]),
        Err(Error::Corrupt("footer shorter than 512 bytes"))
    ));
    let mut f = build_fixed_footer(1 << 20, &no_entropy());
    f[60..64].copy_from_slice(&5u32.to_be_bytes());
    match Footer::parse(&f) {
        Err(Error::BadChecksum { expected, found, what }) => {
            assert_eq!(what, "footer");
            assert_eq!(expected, found + 3);
        }
        other => panic!("got {other:?}"),
    }
    let cs = footer_checksum(&f);
    f[64..68].copy_from_slice(&cs.to_be_bytes());
    assert!(matches!(
        Footer::parse(&f),
        Err(Error::UnsupportedDiskType(5))
    ));
}

#[test]
fn disk_types_have_the_wire_values_two_to_four() {
    for (v, t) in [
        (2, DiskType::Fixed),
        (3, DiskType::Dynamic),
        (4, DiskType::Differencing),
    ] {
        assert_eq!(DiskType::from_u32(v).unwrap(), t);
        assert_eq!(t.to_u32(), v);
    }
    for v in [0, 1, 5, u32::MAX] {
        assert!(matches!(
            DiskType::from_u32(v),
            Err(Error::UnsupportedDiskType(w)) if w == v
        ));
    }
}

#[test]
fn a_checksum_ignores_its_own_field() {
    let mut f = build_fixed_footer(1 << 20, &no_entropy());
    let before = footer_checksum(&f);
    f[64..68].copy_from_slice(&[1, 2, 3, 4]);
    assert_eq!(footer_checksum(&f), before);
    f[63] ^= 1;
    assert_ne!(footer_checksum(&f), before);
}

#[test]
fn a_checksum_is_the_complement_of_the_byte_sum() {
    assert_eq!(ones_complement_checksum(&[], 512, 64..68), u32::MAX);
    assert_eq!(ones_complement_checksum(&[1, 2, 3, 4], 4, 1..3), !5u32);
    assert_eq!(ones_complement_checksum(&[1, 2, 3, 4], 2, 4..8), !3u32);
    assert_eq!(
        ones_complement_checksum(&vec![0xFFu8; 1000], 2000, 0..0),
        !(255 * 1000u32)
    );
}

// ---------------------------------------------------------------------------
// Footer composition
// ---------------------------------------------------------------------------

#[test]
fn built_footer_round_trips_through_parser() {
    let f = build_fixed_footer(64 * 1024 * 1024, &no_entropy());
    let parsed = Footer::parse(&f).expect("parse");
    assert_eq!(parsed.current_size, 64 * 1024 * 1024);
    assert_eq!(parsed.original_size, 64 * 1024 * 1024);
    assert_eq!(parsed.disk_type, DiskType::Fixed);
    assert_eq!(parsed.data_offset, u64::MAX);
}

#[test]
fn uuid_v4_has_correct_version_and_variant_bits() {
    for sequence in 0..32 {
        let id = generate_uuid_v4(&Entropy {
            urandom: None,
            sequence,
        });
        assert_eq!(id[6] & 0xF0, 0x40, "version nibble");
        assert_eq!(id[8] & 0xC0, 0x80, "variant bits");
    }
}

#[test]
fn a_uuid_keeps_the_random_bytes_it_is_given() {
    let id = generate_uuid_v4(&Entropy {
        urandom: Some([0xFF; 16]),
        sequence: 0,
    });
    let mut expected = [0xFFu8; 16];
    expected[6] = 0x4F;
    expected[8] = 0xBF;
    assert_eq!(id, expected);
    let id = generate_uuid_v4(&Entropy {
        urandom: Some([0; 16]),
        sequence: 0,
    });
    let mut expected = [0u8; 16];
    expected[6] = 0x40;
    expected[8] = 0x80;
    assert_eq!(id, expected);
}

#[test]
fn the_clock_generator_is_split_mix_64() {
    // The generator's published outputs for seed 0.
    let out = fill_from_clock_prng(0, 0);
    assert_eq!(out[0..8], 0xE220_A839_7B1D_CDAFu64.to_be_bytes());
    assert_eq!(out[8..16], 0x6E78_9E6A_A1B9_65F4u64.to_be_bytes());
    // The running number moves the seed by one step of the generator.
    let next = fill_from_clock_prng(0, 1);
    assert_eq!(next[0..8], out[8..16]);
}

#[test]
fn time_stamps_count_from_the_year_2000_and_clamp() {
    assert_eq!(vhd_timestamp(0), 0);
    assert_eq!(vhd_timestamp(946_684_800), 0);
    assert_eq!(vhd_timestamp(946_684_801), 1);
    assert_eq!(vhd_timestamp(946_684_800 + u32::MAX as u64), u32::MAX);
    assert_eq!(vhd_timestamp(u64::MAX), u32::MAX);
    // The clock is past 2020.
    assert!(vhd_timestamp_now() > 631_152_000);
}

#[test]
fn a_composed_footer_has_every_field_in_its_place() {
    let id = [7u8; 16];
    let f = compose_footer(4 * 1024 * 1024, DiskType::Dynamic, 512, 0x0102_0304, &id);
    assert_eq!(&f[0..8], b"conectix");
    assert_eq!(f[8..12], 2u32.to_be_bytes());
    assert_eq!(f[12..16], 0x0001_0000u32.to_be_bytes());
    assert_eq!(f[16..24], 512u64.to_be_bytes());
    assert_eq!(f[24..28], 0x0102_0304u32.to_be_bytes());
    assert_eq!(&f[28..32], b"am  ");
    assert_eq!(f[32..36], 1u32.to_be_bytes());
    assert_eq!(&f[36..40], b"Mac ");
    assert_eq!(f[40..48], (4u64 << 20).to_be_bytes());
    assert_eq!(f[48..56], (4u64 << 20).to_be_bytes());
    assert_eq!(f[56..60], [0, 120, 4, 17]);
    assert_eq!(f[60..64], 3u32.to_be_bytes());
    assert_eq!(f[68..84], id);
    assert!(f[84..].iter().all(|&b| b == 0));
    let sum: u32 = f
        .iter()
        .enumerate()
        .filter(|(i, _)| !(64..68).contains(i))
        .map(|(_, &b)| b as u32)
        .sum();
    assert_eq!(f[64..68], (!sum).to_be_bytes());
}

#[test]
fn chs_geometry_is_within_spec_bounds_for_typical_sizes() {
    for size_mib in [1u64, 8, 64, 512, 2048] {
        let (c, h, s) = chs_for_size(size_mib * 1024 * 1024);
        assert!(c > 0, "{size_mib}MiB cylinders");
        assert!(h > 0 && h <= 16, "{size_mib}MiB heads");
        assert!(s > 0, "{size_mib}MiB spt");
    }
}

#[test]
fn chs_geometry_clamps_at_and_beyond_the_spec_ceiling() {
    // At and beyond the most sectors that can be addressed the geometry
    // saturates to 16 heads and 255 sectors per track, and never overflows
    // the u16/u8 fields.
    let ceiling_bytes = 65535u64 * 16 * 255 * 512;
    let (c_at, h_at, s_at) = chs_for_size(ceiling_bytes);
    assert_eq!(h_at, 16);
    assert_eq!(s_at, 255);
    assert!(c_at > 0);

    let (c_over, h_over, s_over) = chs_for_size(1u64 << 50);
    assert_eq!(h_over, 16);
    assert_eq!(s_over, 255);
    assert_eq!(c_over, c_at, "beyond-ceiling sizes clamp identically");
}

#[test]
fn built_footer_for_large_disk_has_saturated_geometry() {
    let size = 65535u64 * 16 * 255 * 512;
    let f = build_fixed_footer(size, &no_entropy());
    let parsed = Footer::parse(&f).expect("parse");
    assert_eq!(parsed.current_size, size);
    assert_eq!(f[56..60], [0xFF, 0xFF, 16, 255]);
}

// ---------------------------------------------------------------------------
// The layout
// ---------------------------------------------------------------------------

#[test]
fn layout_matches_the_published_specification() {
    // Footer, 512 bytes.
    assert_eq!(footer_offsets::COOKIE, 0..8);
    assert_eq!(footer_offsets::FEATURES, 8);
    assert_eq!(footer_offsets::FILE_FORMAT_VERSION, 12);
    assert_eq!(footer_offsets::DATA_OFFSET, 16);
    assert_eq!(footer_offsets::TIMESTAMP, 24);
    assert_eq!(footer_offsets::CREATOR_APPLICATION, 28);
    assert_eq!(footer_offsets::CREATOR_VERSION, 32);
    assert_eq!(footer_offsets::CREATOR_HOST_OS, 36);
    assert_eq!(footer_offsets::ORIGINAL_SIZE, 40);
    assert_eq!(footer_offsets::CURRENT_SIZE, 48);
    assert_eq!(footer_offsets::DISK_GEOMETRY, 56);
    assert_eq!(footer_offsets::DISK_TYPE, 60);
    assert_eq!(footer_offsets::CHECKSUM, 64..68);
    assert_eq!(footer_offsets::UNIQUE_ID, 68..84);
    assert_eq!(footer_offsets::SAVED_STATE, 84);

    // Dynamic header, 1024 bytes.
    assert_eq!(dynamic_offsets::COOKIE, 0..8);
    assert_eq!(dynamic_offsets::DATA_OFFSET, 8);
    assert_eq!(dynamic_offsets::TABLE_OFFSET, 16);
    assert_eq!(dynamic_offsets::HEADER_VERSION, 24);
    assert_eq!(dynamic_offsets::MAX_TABLE_ENTRIES, 28);
    assert_eq!(dynamic_offsets::BLOCK_SIZE, 32);
    assert_eq!(dynamic_offsets::CHECKSUM, 36..40);
    assert_eq!(dynamic_offsets::PARENT_UNIQUE_ID, 40..56);
    assert_eq!(dynamic_offsets::PARENT_TIMESTAMP, 56);
    assert_eq!(dynamic_offsets::PARENT_UNICODE_NAME, 64..576);
    assert_eq!(dynamic_offsets::PARENT_LOCATORS, 576);
    assert_eq!(dynamic_offsets::PARENT_LOCATOR_STRIDE, 24);
    assert_eq!(dynamic_offsets::PARENT_LOCATOR_COUNT, 8);

    // Disk types and the sector size.
    assert_eq!(disk_type_wire::FIXED, 2);
    assert_eq!(disk_type_wire::DYNAMIC, 3);
    assert_eq!(disk_type_wire::DIFFERENCING, 4);
    assert_eq!(SECTOR_SIZE, 512);
}

#[test]
fn no_field_overlaps_its_neighbour() {
    // (start, width) in ascending order.
    let footer = [
        (footer_offsets::COOKIE.start, 8),
        (footer_offsets::FEATURES, 4),
        (footer_offsets::FILE_FORMAT_VERSION, 4),
        (footer_offsets::DATA_OFFSET, 8),
        (footer_offsets::TIMESTAMP, 4),
        (footer_offsets::CREATOR_APPLICATION, 4),
        (footer_offsets::CREATOR_VERSION, 4),
        (footer_offsets::CREATOR_HOST_OS, 4),
        (footer_offsets::ORIGINAL_SIZE, 8),
        (footer_offsets::CURRENT_SIZE, 8),
        (footer_offsets::DISK_GEOMETRY, 4),
        (footer_offsets::DISK_TYPE, 4),
        (
            footer_offsets::CHECKSUM.start,
            footer_offsets::CHECKSUM.len(),
        ),
        (
            footer_offsets::UNIQUE_ID.start,
            footer_offsets::UNIQUE_ID.len(),
        ),
        (footer_offsets::SAVED_STATE, 1),
    ];
    assert_no_overlap(&footer, FOOTER_SIZE, "footer");

    let dynamic = [
        (dynamic_offsets::COOKIE.start, 8),
        (dynamic_offsets::DATA_OFFSET, 8),
        (dynamic_offsets::TABLE_OFFSET, 8),
        (dynamic_offsets::HEADER_VERSION, 4),
        (dynamic_offsets::MAX_TABLE_ENTRIES, 4),
        (dynamic_offsets::BLOCK_SIZE, 4),
        (
            dynamic_offsets::CHECKSUM.start,
            dynamic_offsets::CHECKSUM.len(),
        ),
        (
            dynamic_offsets::PARENT_UNIQUE_ID.start,
            dynamic_offsets::PARENT_UNIQUE_ID.len(),
        ),
        (dynamic_offsets::PARENT_TIMESTAMP, 4),
        (
            dynamic_offsets::PARENT_UNICODE_NAME.start,
            dynamic_offsets::PARENT_UNICODE_NAME.len(),
        ),
        (
            dynamic_offsets::PARENT_LOCATORS,
            dynamic_offsets::PARENT_LOCATOR_STRIDE * dynamic_offsets::PARENT_LOCATOR_COUNT,
        ),
    ];
    assert_no_overlap(&dynamic, DYN_HEADER_SIZE, "dynamic header");
}

fn assert_no_overlap(fields: &[(usize, usize)], size: usize, what: &str) {
    let mut reached = 0usize;
    for (start, width) in fields {
        assert!(
            *start >= reached,
            "{what}: field at {start} overlaps the one ending at {reached}"
        );
        reached = start + width;
        assert!(reached <= size, "{what}: field at {start} runs past {size}");
    }
}

#[test]
fn ladder_constants_are_the_products_they_stand_for() {
    assert_eq!(chs::MAX_ADDRESSABLE_SECTORS, 65535 * 16 * 255);
    assert_eq!(chs::LADDER_CEILING_SECTORS, 65535 * 16 * 63);
}

#[test]
fn integers_are_big_endian() {
    let b = [0x01u8, 0x23, 0x45, 0x67, 0x89, 0xAB, 0xCD, 0xEF, 0x10];
    assert_eq!(read_u32(&b, 0), 0x0123_4567);
    assert_eq!(read_u32(&b, 5), 0xABCD_EF10);
    assert_eq!(read_u64(&b, 0), 0x0123_4567_89AB_CDEF);
    assert_eq!(be_bytes_u32(0x89AB_CDEF), [0x89, 0xAB, 0xCD, 0xEF]);
    let mut f = [0u8; 12];
    write_u32(&mut f, 0, 0xFEDC_BA98);
    write_u64(&mut f, 4, 0x0123_4567_89AB_CDEF);
    assert_eq!(f[0..4], 0xFEDC_BA98u32.to_be_bytes());
    assert_eq!(f[4..12], 0x0123_4567_89AB_CDEFu64.to_be_bytes());
}

// ---------------------------------------------------------------------------
// Bitmaps and table entries
// ---------------------------------------------------------------------------

#[test]
fn the_bitmap_is_most_significant_bit_first() {
    let bitmap = [0b1000_0000u8, 0b0000_0001];
    assert!(
        VhdReader::bitmap_get(&bitmap, 0),
        "sector 0 is bit 7 of byte 0"
    );
    assert!(!VhdReader::bitmap_get(&bitmap, 1));
    assert!(!VhdReader::bitmap_get(&bitmap, 7));
    assert!(!VhdReader::bitmap_get(&bitmap, 8));
    assert!(
        VhdReader::bitmap_get(&bitmap, 15),
        "sector 15 is bit 0 of byte 1"
    );
}

#[test]
fn setting_a_sector_touches_only_that_sector() {
    let mut bitmap = vec![0u8; 2];
    VhdReader::bitmap_set(&mut bitmap, 3);
    assert_eq!(bitmap, [0b0001_0000, 0]);
    assert!(VhdReader::bitmap_get(&bitmap, 3));

    VhdReader::bitmap_set(&mut bitmap, 9);
    assert_eq!(bitmap, [0b0001_0000, 0b0100_0000]);

    // Idempotent: the write path marks ranges that may overlap sectors
    // already present.
    VhdReader::bitmap_set(&mut bitmap, 3);
    assert_eq!(bitmap, [0b0001_0000, 0b0100_0000]);

    for sector in 0..16u64 {
        assert_eq!(
            VhdReader::bitmap_get(&bitmap, sector),
            sector == 3 || sector == 9,
            "sector {sector}"
        );
    }
}

#[test]
fn a_bat_entry_is_only_computed_from_an_address_it_can_name() {
    // The ordinary case still works.
    assert_eq!(bat_entry_for(2048).unwrap(), 4);

    // Unaligned: the division would truncate to the sector below.
    let err = bat_entry_for(2561).unwrap_err();
    assert!(
        matches!(err, Error::Corrupt(m) if m.contains("sector boundary")),
        "got {err:?}"
    );

    // Past what a u32 sector index can address.
    let err = bat_entry_for((u32::MAX as u64 + 1) * SECTOR_SIZE).unwrap_err();
    assert!(
        matches!(err, Error::Corrupt(m) if m.contains("highest sector")),
        "got {err:?}"
    );

    // Exactly the sentinel: 0xFFFF_FFFF * 512 is a legal-looking offset
    // whose entry means "there is no block here".
    let sentinel_off = BAT_UNALLOCATED as u64 * SECTOR_SIZE;
    let err = bat_entry_for(sentinel_off).unwrap_err();
    assert!(
        matches!(err, Error::Corrupt(m) if m.contains("absent")),
        "got {err:?}"
    );
}

#[test]
fn a_bitmap_always_covers_every_sector_of_its_block() {
    for block_size in [512u32, 4096, 0x0020_0000, 0x0080_0000] {
        let header = DynamicHeader {
            data_offset: 0,
            table_offset: 0,
            header_version: 0x0001_0000,
            max_table_entries: 1,
            block_size,
            parent_unique_id: [0; 16],
            parent_timestamp: 0,
            parent_name: String::new(),
            parent_locators: [ParentLocator::default(); 8],
        };
        let bitmap_bytes = header.bitmap_size_bytes();
        let sectors = u64::from(block_size) / SECTOR_SIZE;
        let last_byte_index = (sectors - 1) / 8;
        assert!(
            last_byte_index < bitmap_bytes,
            "block size {block_size}: last sector {} needs byte {last_byte_index}, \
             bitmap is {bitmap_bytes} bytes",
            sectors - 1
        );
    }
}
