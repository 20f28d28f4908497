//! The file header: the byte-order mark and the version number.

use crate::byte_order::{u16_from_bytes, u16_to_bytes, Endianness};
use crate::constants::{BIG_ENDIAN_MAGIC_BYTE, LITTLE_ENDIAN_MAGIC_BYTE, VERSION_MAGIC};
use crate::errors::{HeaderError, TiffError};
use crate::stream::{overwrite, ByteStream};
use vstd::prelude::*;

verus! {

/// The byte order named by a two-byte mark, if it is one of the two marks.
pub open spec fn endian_of_mark(b0: u8, b1: u8) -> Option<Endianness> {
    if b0 == LITTLE_ENDIAN_MAGIC_BYTE && b1 == LITTLE_ENDIAN_MAGIC_BYTE {
        Some(Endianness::Little)
    } else if b0 == BIG_ENDIAN_MAGIC_BYTE && b1 == BIG_ENDIAN_MAGIC_BYTE {
        Some(Endianness::Big)
    } else {
        None
    }
}

/// The byte-order mark of `e`.
pub open spec fn mark_of(e: Endianness) -> Seq<u8> {
    match e {
        Endianness::Little => seq![LITTLE_ENDIAN_MAGIC_BYTE, LITTLE_ENDIAN_MAGIC_BYTE],
        Endianness::Big => seq![BIG_ENDIAN_MAGIC_BYTE, BIG_ENDIAN_MAGIC_BYTE],
    }
}

/// The four header bytes of a file in byte order `e`.
pub open spec fn header_bytes(e: Endianness) -> Seq<u8> {
    mark_of(e) + u16_to_bytes(e, VERSION_MAGIC)
}

/// The headers of the two byte orders differ in their first byte, and each names its order.
pub proof fn lemma_headers_differ()
    ensures
        header_bytes(Endianness::Little)[0] != header_bytes(Endianness::Big)[0],
        endian_of_mark(header_bytes(Endianness::Little)[0], header_bytes(Endianness::Little)[1])
            == Some(Endianness::Little),
        endian_of_mark(header_bytes(Endianness::Big)[0], header_bytes(Endianness::Big)[1])
            == Some(Endianness::Big),
{
}

/// Reads the byte-order mark at the position of `reader`.
pub fn read_header_endian(reader: &mut ByteStream) -> (r: Result<Endianness, TiffError>)
    ensures
        final(reader).data@ == old(reader).data@,
        ({
            let d = old(reader).data@;
            let p = old(reader).pos as int;
            if p + 2 > d.len() {
                r == Err::<Endianness, TiffError>(TiffError::UnexpectedEof)
            } else {
                final(reader).pos == p + 2 && match endian_of_mark(d[p], d[p + 1]) {
                    Some(e) => r == Ok::<Endianness, TiffError>(e),
                    None => r is Err && r->Err_0 is Header && r->Err_0->Header_0 is BadEndianMagic
                        && r->Err_0->Header_0->culprit@ == d.subrange(p, p + 2),
                }
            }
        }),
{
    let mark = reader.read_exact(2)?;
    let b0 = mark[0];
    let b1 = mark[1];
    if b0 == LITTLE_ENDIAN_MAGIC_BYTE && b1 == LITTLE_ENDIAN_MAGIC_BYTE {
        Ok(Endianness::Little)
    } else if b0 == BIG_ENDIAN_MAGIC_BYTE && b1 == BIG_ENDIAN_MAGIC_BYTE {
        Ok(Endianness::Big)
    } else {
        let culprit = [b0, b1];
        assert(culprit@ =~= seq![b0, b1]);
        Err(TiffError::Header(HeaderError::BadEndianMagic { culprit }))
    }
}

/// Reads the version number in byte order `e` and checks that it is 42.
pub fn read_header_magic(reader: &mut ByteStream, e: Endianness) -> (r: Result<(), TiffError>)
    ensures
        final(reader).data@ == old(reader).data@,
        ({
            let d = old(reader).data@;
            let p = old(reader).pos as int;
            if p + 2 > d.len() {
                r == Err::<(), TiffError>(TiffError::UnexpectedEof)
            } else {
                let magic = u16_from_bytes(e, d.subrange(p, p + 2));
                final(reader).pos == p + 2 && if magic == VERSION_MAGIC {
                    r is Ok
                } else {
                    r == Err::<(), TiffError>(TiffError::Header(HeaderError::BadMagic { magic }))
                }
            }
        }),
{
    let magic = reader.read_u16(e)?;
    if magic != VERSION_MAGIC {
        Err(TiffError::Header(HeaderError::BadMagic { magic }))
    } else {
        Ok(())
    }
}

/// Writes the byte-order mark of `e` and the version number at the position of `writer`.
pub fn write_header(writer: &mut ByteStream, e: Endianness) -> (r: Result<(), TiffError>)
    ensures
        old(writer).pos + 4 <= usize::MAX <==> r is Ok,
        r is Ok ==> final(writer).data@ == overwrite(
            old(writer).data@,
            old(writer).pos as int,
            header_bytes(e),
        ) && final(writer).pos == old(writer).pos + 4,
        r is Err ==> r->Err_0 == TiffError::OffsetOverflow,
{
    if writer.pos > usize::MAX - 4 {
        return Err(TiffError::OffsetOverflow);
    }
    let mark = match e {
        Endianness::Little => [LITTLE_ENDIAN_MAGIC_BYTE, LITTLE_ENDIAN_MAGIC_BYTE],
        Endianness::Big => [BIG_ENDIAN_MAGIC_BYTE, BIG_ENDIAN_MAGIC_BYTE],
    };
    assert(mark@ =~= mark_of(e));
    let ghost d0 = writer.data@;
    let ghost start = writer.pos as int;
    writer.write_all(mark.as_slice())?;
    writer.write_u16(e, VERSION_MAGIC)?;
    assert(writer.data@ =~= overwrite(d0, start, header_bytes(e)));
    Ok(())
}

} // verus!
