//! What is said to a person: error texts, numbers from the command line,
//! hex dumps.

use vhd::error::{fs_core_to_vhd_error, short_read_text, vhd_to_fs_core_error, DeviceError};
use vhd::text::hex16;
use vhd::tool::{
    hex_dump, overrun, parse_u64, push_line, ParseFailure, ParseFault, DEFAULT_BLOCK_SIZE,
    MAX_DUMP_LEN,
};
use vhd::Error;

fn os_error() -> std::io::Error {
    std::io::Error::new(std::io::ErrorKind::PermissionDenied, "no entry")
}

#[test]
fn every_error_says_what_it_is() {
    let cases: Vec<(Error, &str)> = vec![
        (Error::Io(os_error()), "io: no entry"),
        (
            Error::NotVhd,
            "not a VHD image (missing or invalid footer)",
        ),
        (
            Error::BadChecksum {
                expected: 0xffff_e78a,
                found: 0,
                what: "footer",
            },
            "footer checksum mismatch: expected 0xffffe78a, found 0x0",
        ),
        (
            Error::UnsupportedDiskType(99),
            "unsupported VHD disk type: 99",
        ),
        (Error::Corrupt("bad"), "corrupt VHD: bad"),
        (Error::Unsupported("odd"), "unsupported VHD feature: odd"),
        (
            Error::OutOfBounds {
                offset: 4088,
                len: 16,
                size: 4096,
            },
            "read [4088, 4088+16) past virtual size 4096",
        ),
        (Error::ParentTooDeep, "differencing chain too deep (cycle?)"),
        (
            Error::ParentNotFound("gone".to_string()),
            "differencing parent not found: gone",
        ),
        (
            Error::ReadOnly,
            "VHD is read-only (opened RO, or write path not yet implemented for this subtype)",
        ),
        (Error::Custom("as told".to_string()), "as told"),
    ];
    for (error, words) in cases {
        assert_eq!(error.message(), words);
    }
    let from: Error = os_error().into();
    assert_eq!(from.message(), "io: no entry");
}

#[test]
fn a_devices_failure_is_the_librarys_error_and_back() {
    assert!(matches!(
        fs_core_to_vhd_error(DeviceError::ReadOnly),
        Error::ReadOnly
    ));
    assert!(matches!(
        fs_core_to_vhd_error(DeviceError::OutOfBounds {
            offset: 1,
            len: 2,
            size: 3
        }),
        Error::OutOfBounds {
            offset: 1,
            len: 2,
            size: 3
        }
    ));
    assert!(matches!(
        fs_core_to_vhd_error(DeviceError::Custom("x".to_string())),
        Error::Custom(s) if s == "x"
    ));
    match fs_core_to_vhd_error(DeviceError::Io(os_error())) {
        Error::Io(e) => assert_eq!(e.kind(), std::io::ErrorKind::PermissionDenied),
        other => panic!("got {other:?}"),
    }
    match fs_core_to_vhd_error(DeviceError::ShortRead {
        offset: 7,
        want: 512,
        got: 3,
    }) {
        Error::Io(e) => {
            assert_eq!(e.kind(), std::io::ErrorKind::UnexpectedEof);
            assert_eq!(e.to_string(), "short read at 7: wanted 512 got 3");
        }
        other => panic!("got {other:?}"),
    }
    assert_eq!(
        short_read_text(u64::MAX, 0, 10),
        "short read at 18446744073709551615: wanted 0 got 10"
    );

    assert!(matches!(
        vhd_to_fs_core_error(Error::ReadOnly),
        DeviceError::ReadOnly
    ));
    assert!(matches!(
        vhd_to_fs_core_error(Error::OutOfBounds {
            offset: 1,
            len: 2,
            size: 3
        }),
        DeviceError::OutOfBounds {
            offset: 1,
            len: 2,
            size: 3
        }
    ));
    assert!(matches!(
        vhd_to_fs_core_error(Error::Io(os_error())),
        DeviceError::Io(_)
    ));
    assert!(matches!(
        vhd_to_fs_core_error(Error::Corrupt("bad")),
        DeviceError::Custom(s) if s == "corrupt VHD: bad"
    ));
    assert!(matches!(
        vhd_to_fs_core_error(Error::NotVhd),
        DeviceError::Custom(s) if s == "not a VHD image (missing or invalid footer)"
    ));
}

#[test]
fn identities_are_shown_in_hex() {
    let id: [u8; 16] = [
        0x00, 0x11, 0x2a, 0x3f, 0xff, 0xf0, 0x0f, 0x80, 0x7f, 1, 2, 3, 4, 5, 6, 7,
    ];
    assert_eq!(hex16(&id), "00112a3ffff00f807f01020304050607");
}

#[test]
fn numbers_are_decimal_or_marked_as_hexadecimal() {
    for (text, value) in [
        ("0", 0u64),
        ("512", 512),
        ("+7", 7),
        ("007", 7),
        ("18446744073709551615", u64::MAX),
        ("0x0", 0),
        ("0xff", 255),
        ("0XFf", 255),
        ("0x+10", 16),
        ("0xffffffffffffffff", u64::MAX),
    ] {
        assert_eq!(parse_u64(text), Ok(value), "{text}");
    }
    for (text, hex, fault) in [
        ("", false, ParseFault::Empty),
        ("0x", true, ParseFault::Empty),
        ("+", false, ParseFault::InvalidDigit),
        ("0x+", true, ParseFault::InvalidDigit),
        ("-1", false, ParseFault::InvalidDigit),
        ("12a", false, ParseFault::InvalidDigit),
        ("x10", false, ParseFault::InvalidDigit),
        ("0xg", true, ParseFault::InvalidDigit),
        ("1 ", false, ParseFault::InvalidDigit),
        ("é", false, ParseFault::InvalidDigit),
        ("18446744073709551616", false, ParseFault::TooLarge),
        ("0x10000000000000000", true, ParseFault::TooLarge),
    ] {
        assert_eq!(parse_u64(text), Err(ParseFailure { hex, fault }), "{text}");
    }
}

/// The words for a number that cannot be read are those of the standard
/// library.
#[test]
fn a_fault_has_the_words_of_the_standard_library() {
    for text in ["", "x", "18446744073709551616", "+", "18446744073709551615x"] {
        let theirs = text.parse::<u64>().unwrap_err().to_string();
        assert_eq!(parse_u64(text).unwrap_err().fault.words(), theirs, "{text}");
    }
}

#[test]
fn an_input_that_runs_past_the_disk_is_refused_by_its_length() {
    assert_eq!(overrun(0, 4096, 4096), None);
    assert_eq!(overrun(4095, 1, 4096), None);
    assert_eq!(overrun(u64::MAX, 0, 4096), None);
    assert_eq!(
        overrun(0, 64 << 30, 16777216).unwrap(),
        "68719476736 bytes at 0 run past the virtual disk of 16777216 bytes"
    );
    assert!(overrun(4096, 1, 4096).is_some());
    assert!(overrun(u64::MAX, u64::MAX, u64::MAX).is_some());
}

#[test]
fn a_dump_has_sixteen_bytes_to_a_line() {
    assert_eq!(hex_dump(0, &[]), "");
    assert_eq!(
        hex_dump(0x1f0, b"0123456789abcdef~\x7f"),
        "000001f0  30 31 32 33 34 35 36 37  38 39 61 62 63 64 65 66  |0123456789abcdef|\n\
         00000200  7e 7f                                            |~.|\n"
    );
    assert_eq!(
        hex_dump(0, &[0x41; 8]),
        format!(
            "00000000  41 41 41 41 41 41 41 41{}|AAAAAAAA|\n",
            " ".repeat(27)
        )
    );
    let mut line = String::from("> ");
    push_line(&mut line, 0x1_2345_6789, &[0]);
    assert_eq!(
        line,
        format!("> 123456789  00{}|.|\n", " ".repeat(47))
    );
    assert_eq!(MAX_DUMP_LEN, 4 * 1024 * 1024);
    assert_eq!(DEFAULT_BLOCK_SIZE, 2 * 1024 * 1024);
}
