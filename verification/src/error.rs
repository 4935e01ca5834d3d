//! Narrow error type: one variant per failure shape.
use crate::text;
use crate::text::push_number;
use vstd::prelude::*;

verus! {

/// `std::io::Error`, carried through as an opaque value.
#[verifier::external_type_specification]
#[verifier::external_body]
pub struct ExIoError(std::io::Error);

#[derive(Debug)]
pub enum Error {
    Io(std::io::Error),
    /// File is missing the VHD footer or the cookie doesn't match.
    NotVhd,
    /// Footer or dynamic-header checksum mismatch.
    BadChecksum { expected: u32, found: u32, what: &'static str },
    /// Disk type outside the known {2 fixed, 3 dynamic, 4 differencing} set.
    UnsupportedDiskType(u32),
    /// Header field combination is internally inconsistent.
    Corrupt(&'static str),
    /// A feature the reader doesn't handle.
    Unsupported(&'static str),
    /// Access past the end of the virtual disk.
    OutOfBounds { offset: u64, len: u64, size: u64 },
    /// Differencing-chain depth exceeded.
    ParentTooDeep,
    /// Differencing parent could not be located.
    ParentNotFound(String),
    /// Write attempted on a reader opened read-only, or on a subtype that
    /// has no write path (differencing).
    ReadOnly,
    /// A failure the backing device reported in its own words.
    Custom(String),
}

pub type Result<T> = std::result::Result<T, Error>;

impl From<std::io::Error> for Error {
    fn from(e: std::io::Error) -> (r: Self) {
        Error::Io(e)
    }
}

impl vstd::std_specs::convert::FromSpecImpl<std::io::Error> for Error {
    open spec fn obeys_from_spec() -> bool {
        true
    }

    open spec fn from_spec(e: std::io::Error) -> Self {
        Error::Io(e)
    }
}

/// The text of an I/O error, as its `Display` writes it. Nothing is
/// promised of the words, which are the operating system's.
#[verifier::external_body]
fn io_text(e: &std::io::Error) -> (r: String) {
    format!("{e}")
}

impl Error {
    /// What is said of the error, but for the words of an I/O error.
    pub open spec fn words(self) -> Seq<char> {
        match self {
            Error::Io(_) => "io: "@,
            Error::NotVhd => "not a VHD image (missing or invalid footer)"@,
            Error::BadChecksum { expected, found, what } => what@
                + " checksum mismatch: expected 0x"@ + text::number(expected as int, 16)
                + ", found 0x"@ + text::number(found as int, 16),
            Error::UnsupportedDiskType(t) => "unsupported VHD disk type: "@ + text::number(
                t as int,
                10,
            ),
            Error::Corrupt(what) => "corrupt VHD: "@ + what@,
            Error::Unsupported(what) => "unsupported VHD feature: "@ + what@,
            Error::OutOfBounds { offset, len, size } => "read ["@ + text::number(offset as int, 10)
                + ", "@ + text::number(offset as int, 10) + "+"@ + text::number(len as int, 10)
                + ") past virtual size "@ + text::number(size as int, 10),
            Error::ParentTooDeep => "differencing chain too deep (cycle?)"@,
            Error::ParentNotFound(what) => "differencing parent not found: "@ + what@,
            Error::ReadOnly =>
                "VHD is read-only (opened RO, or write path not yet implemented for this subtype)"@,
            Error::Custom(what) => what@,
        }
    }

    /// The error as text for a person to read.
    pub fn message(&self) -> (r: String)
        ensures
            self is Io ==> self.words().is_prefix_of(r@),
            !(self is Io) ==> r@ == self.words(),
    {
        match self {
            Error::Io(e) => {
                let mut r = "io: ".to_owned();
                r.append(io_text(e).as_str());
                r
            },
            Error::NotVhd => "not a VHD image (missing or invalid footer)".to_owned(),
            Error::BadChecksum { expected, found, what } => {
                let mut r = String::new();
                r.append(what);
                r.append(" checksum mismatch: expected 0x");
                push_number(&mut r, *expected as u64, 16);
                r.append(", found 0x");
                push_number(&mut r, *found as u64, 16);
                proof {
                    assert(r@ =~= self.words());
                }
                r
            },
            Error::UnsupportedDiskType(t) => {
                let mut r = "unsupported VHD disk type: ".to_owned();
                push_number(&mut r, *t as u64, 10);
                r
            },
            Error::Corrupt(what) => {
                let mut r = "corrupt VHD: ".to_owned();
                r.append(what);
                r
            },
            Error::Unsupported(what) => {
                let mut r = "unsupported VHD feature: ".to_owned();
                r.append(what);
                r
            },
            Error::OutOfBounds { offset, len, size } => {
                let mut r = "read [".to_owned();
                push_number(&mut r, *offset, 10);
                r.append(", ");
                push_number(&mut r, *offset, 10);
                r.append("+");
                push_number(&mut r, *len, 10);
                r.append(") past virtual size ");
                push_number(&mut r, *size, 10);
                r
            },
            Error::ParentTooDeep => "differencing chain too deep (cycle?)".to_owned(),
            Error::ParentNotFound(what) => {
                let mut r = "differencing parent not found: ".to_owned();
                r.append(what.as_str());
                r
            },
            Error::ReadOnly =>
                "VHD is read-only (opened RO, or write path not yet implemented for this subtype)".to_owned(),
            Error::Custom(what) => what.clone(),
        }
    }
}

/// A failure of a block device, in the device's own terms.
#[derive(Debug)]
pub enum DeviceError {
    Io(std::io::Error),
    /// The source ran out of data before `want` bytes had been transferred.
    ShortRead { offset: u64, want: usize, got: usize },
    ReadOnly,
    OutOfBounds { offset: u64, len: u64, size: u64 },
    Custom(String),
}

/// What is said of a short read.
pub open spec fn short_read_words(offset: int, want: int, got: int) -> Seq<char> {
    "short read at "@ + text::number(offset, 10) + ": wanted "@ + text::number(want, 10) + " got "@
        + text::number(got, 10)
}

pub fn short_read_text(offset: u64, want: usize, got: usize) -> (r: String)
    ensures
        r@ == short_read_words(offset as int, want as int, got as int),
{
    let mut r = "short read at ".to_owned();
    push_number(&mut r, offset, 10);
    r.append(": wanted ");
    push_number(&mut r, want as u64, 10);
    r.append(" got ");
    push_number(&mut r, got as u64, 10);
    r
}

/// The I/O error of kind `UnexpectedEof` that says `words`.
pub uninterp spec fn eof_error(words: Seq<char>) -> std::io::Error;

/// `std::io::Error::new` for the kind `UnexpectedEof`: the error that it
/// makes of `words`. What is inside it stays unsaid, as an I/O error is
/// opaque; only that it is made of these words.
#[verifier::external_body]
fn unexpected_eof(words: String) -> (r: std::io::Error)
    ensures
        r == eof_error(words@),
{
    std::io::Error::new(std::io::ErrorKind::UnexpectedEof, words)
}

/// A device's failure as an error of this library: the same failure, and
/// a short read as an I/O error that says so.
pub fn fs_core_to_vhd_error(e: DeviceError) -> (r: Error)
    ensures
        match e {
            DeviceError::Io(io) => r == Error::Io(io),
            DeviceError::ShortRead { offset, want, got } => r == Error::Io(
                eof_error(short_read_words(offset as int, want as int, got as int)),
            ),
            DeviceError::ReadOnly => r == Error::ReadOnly,
            DeviceError::OutOfBounds { offset, len, size } => r == (Error::OutOfBounds {
                offset,
                len,
                size,
            }),
            DeviceError::Custom(s) => r == Error::Custom(s),
        },
{
    match e {
        DeviceError::Io(io) => Error::Io(io),
        DeviceError::ShortRead { offset, want, got } => Error::Io(
            unexpected_eof(short_read_text(offset, want, got)),
        ),
        DeviceError::ReadOnly => Error::ReadOnly,
        DeviceError::OutOfBounds { offset, len, size } => Error::OutOfBounds { offset, len, size },
        DeviceError::Custom(s) => Error::Custom(s),
    }
}

/// An error of this library in a device's terms; what a device has no term
/// for, it says in words.
pub fn vhd_to_fs_core_error(e: Error) -> (r: DeviceError)
    ensures
        match e {
            Error::Io(io) => r == DeviceError::Io(io),
            Error::OutOfBounds { offset, len, size } => r == (DeviceError::OutOfBounds {
                offset,
                len,
                size,
            }),
            Error::ReadOnly => r == DeviceError::ReadOnly,
            _ => r matches DeviceError::Custom(s) && s@ == e.words(),
        },
{
    match e {
        Error::Io(io) => DeviceError::Io(io),
        Error::OutOfBounds { offset, len, size } => DeviceError::OutOfBounds { offset, len, size },
        Error::ReadOnly => DeviceError::ReadOnly,
        other => DeviceError::Custom(other.message()),
    }
}

} // verus!
