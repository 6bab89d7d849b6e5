//! Codec for a read-only, flat, archive-style ROM filing system image.
//!
//! An image is a single contiguous byte buffer: a fixed 16-byte header
//! followed by a sequence of file entries, each entry being a fixed 24-byte
//! metadata record immediately followed by the raw file contents.
//!
//! [`RomFs::new`] validates a buffer and exposes a lazy, zero-copy walk over
//! the entries; [`RomFs::construct`] and [`RomFs::construct_into`] serialize
//! a slice of entries back into that exact byte layout.

use vstd::prelude::*;

pub mod be;
pub mod decode;
pub mod encode;
pub mod laws;
pub mod layout;

pub use decode::Header;
pub use decode::RomFs;
pub use decode::RomFsEntryIter;
pub use encode::Sink;
pub use encode::VecSink;
pub use layout::Entry;
pub use layout::EntryMetadata;

verus! {

/// The ways in which encoding or decoding can fail.
#[derive(Debug, Copy, Clone, PartialEq, Eq, Structural)]
pub enum Error {
    /// The image does not start with the magic signature.
    InvalidMagicHeader,
    /// The buffer length differs from the total size declared in the header.
    WrongSize,
    /// The version tag in the header is not a recognised value.
    UnknownVersion,
    /// A buffer was too small for the data it was asked to hold.
    BufferTooSmall,
    /// A file name needs more than the 14 bytes the metadata record holds.
    FilenameTooLong,
    /// A stored file name was not valid UTF-8.
    NonUnicodeFilename,
    /// A byte sink refused a write.
    SinkError,
}

/// The image formats this crate understands.
#[derive(Debug, Copy, Clone, PartialEq, Eq, Structural)]
pub enum FormatVersion {
    /// The first version, tagged `0x00 0x01 0x00 0x00` on the wire.
    Version100,
}

/// A timestamp, stored on the wire as six single-byte fields.
#[derive(Debug, Copy, Clone, PartialEq, Eq, Structural)]
pub struct Time {
    /// Years elapsed since 1970.
    pub year_since_1970: u8,
    /// Month, counted from 0.
    pub zero_indexed_month: u8,
    /// Day of the month, counted from 0.
    pub zero_indexed_day: u8,
    /// Hours.
    pub hours: u8,
    /// Minutes.
    pub minutes: u8,
    /// Seconds.
    pub seconds: u8,
}

} // verus!
