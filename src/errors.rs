//! Error types.

use vstd::prelude::*;

verus! {

/// Represents an error encountered when reading a TIFF header.
#[derive(Clone, Copy, Debug, PartialEq, Eq)]
pub enum HeaderError {
    /// The first two bytes are neither `II` nor `MM`.
    BadEndianMagic { culprit: [u8; 2] },
    /// The version number that follows them is not 42.
    BadMagic { magic: u16 },
}

/// An error encountered while reading or writing the metadata of a file.
#[derive(Clone, Copy, Debug, PartialEq, Eq)]
pub enum TiffError {
    /// A read ran past the end of the stream.
    UnexpectedEof,
    /// The header is malformed.
    Header(HeaderError),
    /// A field has a signed or floating-point type, which this library does not decode.
    UnsupportedType { tag_type: u16 },
    /// A directory holds more entries than its 16-bit count can express.
    TooManyEntries { count: usize },
    /// A field holds more units than its 32-bit count can express.
    CountOverflow,
    /// A position in the stream does not fit in a 32-bit offset.
    OffsetOverflow,
    /// The chain of directories loops back on itself.
    CyclicChain,
}

/// An error encountered during extraction of a field from an IFD.
#[derive(Clone, Copy, Debug, PartialEq, Eq)]
pub enum FieldExtractionError {
    /// The field holds another type of data.
    WrongDataType,
    /// The field holds no value.
    InsufficientData,
    /// The directory has no field with this tag.
    MissingTag { tag: u16 },
}

} // verus!
