//! VHD footer (512 bytes at end of file; for dynamic/differencing, also
//! mirrored at offset 0).
//!
//! Layout (offsets within the 512-byte footer):
//!
//! ```text
//!   0   8   cookie ("conectix")
//!   8   4   features
//!  12   4   file_format_version  (0x00010000 = 1.0)
//!  16   8   data_offset          (0xFFFF... for fixed; dynamic header
//!                                 host offset for dynamic/differencing)
//!  24   4   timestamp            (seconds since 2000-01-01T00:00:00)
//!  28   4   creator_application
//!  32   4   creator_version
//!  36   4   creator_host_os
//!  40   8   original_size        (virtual disk size in bytes)
//!  48   8   current_size         (virtual disk size in bytes)
//!  56   4   disk_geometry        (CHS encoded: u16 cyls, u8 heads, u8 spt)
//!  60   4   disk_type            (2=fixed, 3=dynamic, 4=differencing)
//!  64   4   checksum             (one's complement sum, the checksum
//!                                 field itself left out)
//!  68  16   unique_id
//!  84   1   saved_state
//!  85 427   reserved (zero)
//! ```
//!
//! All multi-byte integers are big-endian.
use crate::error::{Error, Result};
use crate::format as wire;
use crate::format_laws;
use crate::format::disk_type_wire;
use crate::format::footer_offsets as at;
use crate::format::{
    copy16, has_cookie, ones_complement_checksum, read_u32, read_u64,
};
use vstd::prelude::*;

verus! {

pub const FOOTER_SIZE: usize = 512;

/// "conectix".
pub const FOOTER_COOKIE: [u8; 8] = [99, 111, 110, 101, 99, 116, 105, 120];

#[derive(Debug, Clone, Copy, PartialEq, Eq, Structural)]
pub enum DiskType {
    Fixed,
    Dynamic,
    Differencing,
}

impl DiskType {
    /// The value that stands for this type in a footer.
    pub open spec fn wire(self) -> u32 {
        match self {
            DiskType::Fixed => disk_type_wire::FIXED,
            DiskType::Dynamic => disk_type_wire::DYNAMIC,
            DiskType::Differencing => disk_type_wire::DIFFERENCING,
        }
    }

    /// Whether any type has this wire value.
    pub open spec fn known(v: u32) -> bool {
        2 <= v <= 4
    }

    /// The value that stands for this type in a footer.
    pub fn to_u32(self) -> (r: u32)
        ensures
            r == self.wire(),
    {
        match self {
            DiskType::Fixed => disk_type_wire::FIXED,
            DiskType::Dynamic => disk_type_wire::DYNAMIC,
            DiskType::Differencing => disk_type_wire::DIFFERENCING,
        }
    }

    pub fn from_u32(v: u32) -> (r: Result<Self>)
        ensures
            r is Ok <==> Self::known(v),
            r matches Ok(t) ==> t.wire() == v,
            r matches Err(e) ==> e == Error::UnsupportedDiskType(v),
    {
        match v {
            disk_type_wire::FIXED => Ok(DiskType::Fixed),
            disk_type_wire::DYNAMIC => Ok(DiskType::Dynamic),
            disk_type_wire::DIFFERENCING => Ok(DiskType::Differencing),
            other => Err(Error::UnsupportedDiskType(other)),
        }
    }
}

/// No two disk types have one wire value, and every type's value is known.
pub proof fn law_wire_values_tell_types_apart(a: DiskType, b: DiskType)
    ensures
        DiskType::known(a.wire()),
        a.wire() == b.wire() ==> a == b,
{
}

#[derive(Debug, Clone)]
pub struct Footer {
    pub features: u32,
    pub file_format_version: u32,
    pub data_offset: u64,
    pub original_size: u64,
    pub current_size: u64,
    pub disk_type: DiskType,
    pub unique_id: [u8; 16],
}

/// The checksum that a footer with these bytes has to carry.
pub open spec fn footer_checksum(s: Seq<u8>) -> int {
    wire::checksum(s, FOOTER_SIZE as int, at::CHECKSUM.start as int, at::CHECKSUM.end as int)
}

/// Why the bytes `s` are not a footer, or `None` where they are one. What
/// stands first wins: length, cookie, checksum, disk type.
pub open spec fn footer_refusal(s: Seq<u8>) -> Option<Error> {
    if s.len() < FOOTER_SIZE {
        Some(Error::Corrupt("footer shorter than 512 bytes"))
    } else if wire::field(s, 0, 8) != FOOTER_COOKIE@ {
        Some(Error::NotVhd)
    } else if wire::be32(s, at::CHECKSUM.start as int) != footer_checksum(s) {
        Some(
            Error::BadChecksum {
                expected: wire::be32(s, at::CHECKSUM.start as int) as u32,
                found: footer_checksum(s) as u32,
                what: "footer",
            },
        )
    } else if !DiskType::known(wire::be32(s, at::DISK_TYPE as int) as u32) {
        Some(Error::UnsupportedDiskType(wire::be32(s, at::DISK_TYPE as int) as u32))
    } else {
        None
    }
}

impl Footer {
    /// Every field of this value is the field of that name in the footer
    /// bytes `s`.
    pub open spec fn describes(self, s: Seq<u8>) -> bool {
        &&& self.features == wire::be32(s, at::FEATURES as int)
        &&& self.file_format_version == wire::be32(s, at::FILE_FORMAT_VERSION as int)
        &&& self.data_offset == wire::be64(s, at::DATA_OFFSET as int)
        &&& self.original_size == wire::be64(s, at::ORIGINAL_SIZE as int)
        &&& self.current_size == wire::be64(s, at::CURRENT_SIZE as int)
        &&& self.disk_type.wire() == wire::be32(s, at::DISK_TYPE as int)
        &&& self.unique_id@ == wire::field(s, at::UNIQUE_ID.start as int, 16)
    }

    pub fn parse(bytes: &[u8]) -> (r: Result<Self>)
        ensures
            r is Ok <==> footer_refusal(bytes@) is None,
            r is Ok <==> format_laws::is_footer(bytes@),
            r matches Ok(f) ==> f.describes(bytes@),
            r matches Err(e) ==> footer_refusal(bytes@) == Some(e),
    {
        proof {
            format_laws::law_footer_is_taken_exactly_where(bytes@);
        }
        if bytes.len() < FOOTER_SIZE {
            return Err(Error::Corrupt("footer shorter than 512 bytes"));
        }
        if !has_cookie(bytes, &FOOTER_COOKIE) {
            return Err(Error::NotVhd);
        }
        let stored_checksum: u32 = read_u32(bytes, at::CHECKSUM.start);
        let computed_checksum: u32 = compute_checksum(bytes);
        if stored_checksum != computed_checksum {
            return Err(
                Error::BadChecksum {
                    expected: stored_checksum,
                    found: computed_checksum,
                    what: "footer",
                },
            );
        }
        let disk_type = match DiskType::from_u32(read_u32(bytes, at::DISK_TYPE)) {
            Ok(t) => t,
            Err(e) => return Err(e),
        };
        Ok(
            Footer {
                features: read_u32(bytes, at::FEATURES),
                file_format_version: read_u32(bytes, at::FILE_FORMAT_VERSION),
                data_offset: read_u64(bytes, at::DATA_OFFSET),
                original_size: read_u64(bytes, at::ORIGINAL_SIZE),
                current_size: read_u64(bytes, at::CURRENT_SIZE),
                disk_type,
                unique_id: copy16(bytes, at::UNIQUE_ID.start),
            },
        )
    }
}

/// One's complement of the `u32` sum of all bytes, with the checksum field
/// (bytes 64..68) left out.
pub fn compute_checksum(footer_bytes: &[u8]) -> (r: u32)
    ensures
        r == footer_checksum(footer_bytes@),
        footer_bytes@.len() >= 512 ==> (r + format_laws::total(footer_bytes@.take(64))
            + format_laws::total(footer_bytes@.subrange(68, 512))) % 0x1_0000_0000 == 0xFFFF_FFFF,
{
    proof {
        if footer_bytes@.len() >= 512 {
            format_laws::law_footer_checksum_complements_the_sum(footer_bytes@);
        }
    }
    ones_complement_checksum(footer_bytes, FOOTER_SIZE, at::CHECKSUM)
}

} // verus!
