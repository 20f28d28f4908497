//! Reading and writing the metadata layer of TIFF files: the header, the chain of
//! image file directories, and their typed fields, stored inline or behind offsets.
//!
//! Files are read from and written to an in-memory [`ByteStream`]. Reading decodes every
//! directory of the chain into an [`IFD`]; writing streams directories one at a time, linking
//! each into the chain by patching the pointer that the previous one left at zero.

use vstd::prelude::*;

/// Byte order, and the integer codecs that depend on it.
pub mod byte_order;
/// Error types.
pub mod errors;
/// An in-memory, seekable stream of bytes.
pub mod stream;
/// Numbers fixed by the file format.
pub mod constants;
/// Header reading/writing.
pub mod header;
/// Raw directories: entries as they lie in the file.
pub mod raw_ifd;
/// Typed field values and their conversion from and to raw entries.
pub mod ifd_field;
/// The directory model.
pub mod ifd;
/// TIFF metadata reader.
pub mod metadata_reader;
/// TIFF metadata writer.
pub mod metadata_writer;
/// Conversions between single values and fields.
pub mod field_conversions;
/// Helpers for baseline TIFF interpretation.
pub mod baseline;

pub use baseline::compression_type::CompressionType;
pub use byte_order::Endianness;
pub use errors::{FieldExtractionError, HeaderError, TiffError};
pub use header::{read_header_endian, read_header_magic, write_header};
pub use ifd::{IFDEntry, IFD};
pub use ifd_field::{iterate_null_terminated_ascii_as_utf8, tag_exceeds_ifd_field, IFDField};
pub use metadata_reader::{read_ifd_table_endian, read_raw_ifds, MetadataReader};
pub use metadata_writer::MetadataWriter;
pub use raw_ifd::{RawIFD, RawIFDField};
pub use stream::ByteStream;

verus! {

} // verus!
