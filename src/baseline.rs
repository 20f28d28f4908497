//! Helpers for baseline TIFF interpretation: compression and photometric interpretation codes.

/// Enum representation of a compression type.
pub mod compression_type;

/// Compression codes and their names.
pub mod compression;

/// Photometric interpretation codes and their names.
pub mod photometic_interpretation;
