//! VHD (Microsoft Virtual Hard Disk) images: fixed, dynamic and
//! differencing, read and written.
//!
//! The library decides; it does no I/O. Opening, reading and writing are
//! operations that hand out one request to a backing device at a time and
//! go on with its answer:
//!
//! - [`opening`]: from the bytes of a device, and of the devices of its
//!   parents, to a [`VhdReader`]; images that cannot be believed are
//!   refused.
//! - [`reading`]: where each byte of the virtual disk comes from.
//! - [`writing`]: the order of device writes and flushes that splices bytes
//!   into a disk.
//! - [`creating`]: the bytes of a fresh image.
//!
//! What these promise together is proved in [`writing_laws`],
//! [`interruption_laws`], [`opening_laws`] and [`reopening_laws`]. What
//! each of them means in plain bytes and numbers is proved in
//! [`format_laws`], [`image_laws`], [`disk_laws`], [`build_laws`] and
//! [`text_laws`].
pub mod build_laws;
pub mod creating;
pub mod device;
pub mod disk_laws;
pub mod dynamic;
pub mod error;
pub mod footer;
pub mod footer_build;
pub mod format;
pub mod format_laws;
pub mod image_laws;
pub mod interruption_laws;
pub mod opening;
pub mod opening_laws;
pub mod reader;
pub mod reading;
pub mod reopening_laws;
pub mod table;
pub mod text;
pub mod text_laws;
pub mod tool;
pub mod writing;
pub mod writing_laws;

pub use error::{Error, Result};
pub use footer::{DiskType, Footer};
pub use reader::VhdReader;
