//! Numbers fixed by the file format.

use vstd::prelude::*;

verus! {

/// The byte repeated twice at the start of a little-endian file (`I`).
pub const LITTLE_ENDIAN_MAGIC_BYTE: u8 = 0x49;

/// The byte repeated twice at the start of a big-endian file (`M`).
pub const BIG_ENDIAN_MAGIC_BYTE: u8 = 0x4D;

/// The version number that follows the byte-order mark.
pub const VERSION_MAGIC: u16 = 42;

/// Field type: 8-bit unsigned integers.
pub const IFD_TYPE_BYTE: u16 = 1;

/// Field type: NUL-terminated strings.
pub const IFD_TYPE_ASCII: u16 = 2;

/// Field type: 16-bit unsigned integers.
pub const IFD_TYPE_SHORT: u16 = 3;

/// Field type: 32-bit unsigned integers.
pub const IFD_TYPE_LONG: u16 = 4;

/// Field type: pairs of 32-bit unsigned integers (numerator, denominator).
pub const IFD_TYPE_RATIONAL: u16 = 5;

/// Field type: 8-bit signed integers.
pub const IFD_TYPE_SBYTE: u16 = 6;

/// Field type: bytes of no fixed meaning.
pub const IFD_TYPE_UNDEFINED: u16 = 7;

/// Field type: 16-bit signed integers.
pub const IFD_TYPE_SSHORT: u16 = 8;

/// Field type: 32-bit signed integers.
pub const IFD_TYPE_SLONG: u16 = 9;

/// Field type: pairs of 32-bit signed integers.
pub const IFD_TYPE_SRATIONAL: u16 = 10;

/// Field type: 32-bit floating-point numbers.
pub const IFD_TYPE_FLOAT: u16 = 11;

/// Field type: 64-bit floating-point numbers.
pub const IFD_TYPE_DOUBLE: u16 = 12;

} // verus!
