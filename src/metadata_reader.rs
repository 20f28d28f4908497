//! Reading the metadata of a file: the header, then every directory of the chain, decoded
//! in full into memory.

use crate::byte_order::{u16_from_bytes, Endianness};
use crate::constants::VERSION_MAGIC;
use crate::errors::{HeaderError, TiffError};
use crate::header::{endian_of_mark, read_header_endian, read_header_magic};
use crate::ifd::{dir_from, IFD};
use crate::ifd_field::FieldValue;
use crate::raw_ifd::{chain_from, prepend_dirs, RawFieldView, RawIFD};
use crate::stream::ByteStream;
use vstd::prelude::*;

verus! {

/// The contents of a list of raw directories.
pub open spec fn raw_dirs_view(v: Seq<RawIFD>) -> Seq<Seq<RawFieldView>> {
    v.map_values(|r: RawIFD| r@)
}

/// The contents of a list of directories.
pub open spec fn dirs_view(v: Seq<IFD>) -> Seq<Seq<(u16, FieldValue)>> {
    v.map_values(|r: IFD| r@)
}

/// The directories decoded from raw directories of a stream `d`: the first failing one
/// decides the error.
pub open spec fn decode_dirs(e: Endianness, d: Seq<u8>, raws: Seq<Seq<RawFieldView>>) -> Result<
    Seq<Seq<(u16, FieldValue)>>,
    TiffError,
>
    decreases raws.len(),
{
    if raws.len() == 0 {
        Ok(Seq::empty())
    } else {
        match decode_dirs(e, d, raws.drop_last()) {
            Err(x) => Err(x),
            Ok(p) => match dir_from(e, d, raws.last()) {
                Err(x) => Err(x),
                Ok(dir) => Ok(p.push(dir)),
            },
        }
    }
}

/// The directories of the chain whose first pointer is at `ptr`, decoded. At most as many
/// pointers are followed as the stream has bytes: a longer chain must loop.
pub open spec fn read_chain(e: Endianness, d: Seq<u8>, ptr: int) -> Result<
    Seq<Seq<(u16, FieldValue)>>,
    TiffError,
> {
    match chain_from(e, d, ptr, d.len()) {
        Err(x) => Err(x),
        Ok(raws) => decode_dirs(e, d, raws),
    }
}

/// What reading a file in byte order `e` gives from its version number at `p` on: the
/// version number is checked, then the chain whose first pointer follows it is read.
pub open spec fn read_table(e: Endianness, d: Seq<u8>, p: int) -> Result<
    Seq<Seq<(u16, FieldValue)>>,
    TiffError,
> {
    if p < 0 || p + 2 > d.len() {
        Err(TiffError::UnexpectedEof)
    } else {
        let magic = u16_from_bytes(e, d.subrange(p, p + 2));
        if magic != VERSION_MAGIC {
            Err(TiffError::Header(HeaderError::BadMagic { magic }))
        } else {
            read_chain(e, d, p + 2)
        }
    }
}

/// Once decoding some of the directories fails, decoding all of them fails the same way.
proof fn lemma_decode_dirs_error(
    e: Endianness,
    d: Seq<u8>,
    raws: Seq<Seq<RawFieldView>>,
    k: int,
)
    requires
        0 <= k <= raws.len(),
        decode_dirs(e, d, raws.take(k)) is Err,
    ensures
        decode_dirs(e, d, raws) == decode_dirs(e, d, raws.take(k)),
    decreases raws.len() - k,
{
    if k == raws.len() {
        assert(raws.take(k) =~= raws);
    } else {
        assert(raws.take(k + 1).drop_last() =~= raws.take(k));
        lemma_decode_dirs_error(e, d, raws, k + 1);
    }
}

/// Decodes the fields of each raw IFD, dereferencing offsets through `reader`.
fn decode_raw_ifds(reader: &mut ByteStream, raw_ifds: &Vec<RawIFD>, e: Endianness) -> (r: Result<
    Vec<IFD>,
    TiffError,
>)
    ensures
        final(reader).data@ == old(reader).data@,
        ({
            let s = decode_dirs(e, old(reader).data@, raw_dirs_view(raw_ifds@));
            &&& s is Ok <==> r is Ok
            &&& r is Ok ==> dirs_view(r->Ok_0@) == s->Ok_0
            &&& r is Err ==> r->Err_0 == s->Err_0
        }),
{
    let ghost d = reader.data@;
    let ghost raws = raw_dirs_view(raw_ifds@);
    let n = raw_ifds.len();
    let mut ifds: Vec<IFD> = Vec::with_capacity(n);
    let mut i: usize = 0;
    assert(raws.take(0) =~= Seq::<Seq<RawFieldView>>::empty());
    assert(dirs_view(ifds@) =~= Seq::<Seq<(u16, FieldValue)>>::empty());
    while i < n
        invariant
            reader.data@ == d,
            d == old(reader).data@,
            raws == raw_dirs_view(raw_ifds@),
            n == raws.len(),
            i <= n,
            decode_dirs(e, d, raws.take(i as int)) == Ok::<
                Seq<Seq<(u16, FieldValue)>>,
                TiffError,
            >(dirs_view(ifds@)),
        decreases n - i,
    {
        assert(raws.take(i + 1).drop_last() =~= raws.take(i as int));
        assert(raws.take(i + 1).last() == raw_ifds@[i as int]@);
        match IFD::read_from(reader, &raw_ifds[i], e) {
            Ok(ifd) => {
                ifds.push(ifd);
                assert(dirs_view(ifds@) =~= decode_dirs(e, d, raws.take(i as int))->Ok_0.push(
                    ifd@,
                ));
            },
            Err(x) => {
                proof {
                    lemma_decode_dirs_error(e, d, raws, i + 1);
                }
                return Err(x);
            },
        }
        i += 1;
    }
    assert(raws.take(n as int) =~= raws);
    Ok(ifds)
}

/// Read all IFDs of the chain whose first pointer is at the position of `reader`, without
/// decoding their fields.
pub fn read_raw_ifds(reader: &mut ByteStream, e: Endianness) -> (r: Result<
    Vec<RawIFD>,
    TiffError,
>)
    ensures
        final(reader).data@ == old(reader).data@,
        ({
            let s = chain_from(e, old(reader).data@, old(reader).pos as int, old(reader).data@.len());
            &&& s is Ok <==> r is Ok
            &&& r is Ok ==> raw_dirs_view(r->Ok_0@) == s->Ok_0
            &&& r is Err ==> r->Err_0 == s->Err_0
        }),
{
    let ghost d = reader.data@;
    let ghost start = reader.pos as int;
    let mut ifds: Vec<RawIFD> = Vec::new();
    let mut fuel: usize = reader.data.len();
    assert(raw_dirs_view(ifds@) =~= Seq::<Seq<RawFieldView>>::empty());
    assert(prepend_dirs(Seq::empty(), chain_from(e, d, start, d.len())) =~~= chain_from(e, d, start, d.len()));
    loop
        invariant
            reader.data@ == d,
            d == old(reader).data@,
            start == old(reader).pos,
            fuel <= d.len(),
            prepend_dirs(raw_dirs_view(ifds@), chain_from(e, d, reader.pos as int, fuel as nat))
                == chain_from(e, d, start, d.len()),
        decreases fuel,
    {
        let ghost ptr = reader.pos as int;
        let next_ifd_offset = reader.read_u32(e)?;
        if next_ifd_offset == 0 {
            assert(raw_dirs_view(ifds@) + Seq::<Seq<RawFieldView>>::empty() =~= raw_dirs_view(ifds@));
            return Ok(ifds);
        }
        if fuel == 0 {
            return Err(TiffError::CyclicChain);
        }
        reader.seek(next_ifd_offset as usize);
        let raw = RawIFD::from_reader(reader, e)?;
        let ghost before = raw_dirs_view(ifds@);
        let ghost rest = chain_from(e, d, reader.pos as int, (fuel - 1) as nat);
        assert(chain_from(e, d, ptr, fuel as nat) == match rest {
            Ok(rs) => Ok::<Seq<Seq<RawFieldView>>, TiffError>(seq![raw@] + rs),
            Err(x) => Err(x),
        });
        ifds.push(raw);
        assert(raw_dirs_view(ifds@) =~= before.push(raw@));
        proof {
            match rest {
                Ok(rs) => {
                    assert(before.push(raw@) + rs =~= before + (seq![raw@] + rs));
                },
                Err(_) => {},
            }
        }
        fuel = fuel - 1;
    }
}

/// Read all of the IFDs with byte order `e`, the position of `reader` being that of the
/// version number.
pub fn read_ifd_table_endian(reader: &mut ByteStream, e: Endianness) -> (r: Result<
    Vec<IFD>,
    TiffError,
>)
    ensures
        final(reader).data@ == old(reader).data@,
        ({
            let s = read_table(e, old(reader).data@, old(reader).pos as int);
            &&& s is Ok <==> r is Ok
            &&& r is Ok ==> dirs_view(r->Ok_0@) == s->Ok_0
            &&& r is Err ==> r->Err_0 == s->Err_0
        }),
{
    let ghost d = reader.data@;
    read_header_magic(reader, e)?;
    let ghost ptr = reader.pos as int;
    let raw_ifds = read_raw_ifds(reader, e)?;
    decode_raw_ifds(reader, &raw_ifds, e)
}

/// A TIFF metadata (header/IFD) reader.
pub struct MetadataReader {
    /// The byte order of the file.
    endianness: Endianness,
    /// Table of IFDs read.
    ifd_table: Vec<IFD>,
}

impl View for MetadataReader {
    type V = (Endianness, Seq<Seq<(u16, FieldValue)>>);

    closed spec fn view(&self) -> (Endianness, Seq<Seq<(u16, FieldValue)>>) {
        (self.endianness, dirs_view(self.ifd_table@))
    }
}

impl MetadataReader {
    /// Reads the header at the position of `reader`, then the entire IFD chain.
    pub fn read_header(reader: &mut ByteStream) -> (r: Result<Self, TiffError>)
        ensures
            final(reader).data@ == old(reader).data@,
            ({
                let d = old(reader).data@;
                let p = old(reader).pos as int;
                if p + 2 > d.len() {
                    r == Err::<Self, TiffError>(TiffError::UnexpectedEof)
                } else {
                    match endian_of_mark(d[p], d[p + 1]) {
                        None => r is Err && r->Err_0 is Header && r->Err_0->Header_0 is BadEndianMagic
                            && r->Err_0->Header_0->culprit@ == d.subrange(p, p + 2),
                        Some(e) => {
                            let s = read_table(e, d, p + 2);
                            &&& s is Ok <==> r is Ok
                            &&& r is Ok ==> r->Ok_0@ == (e, s->Ok_0)
                            &&& r is Err ==> r->Err_0 == s->Err_0
                        },
                    }
                }
            }),
    {
        let endianness = read_header_endian(reader)?;
        let ifd_table = read_ifd_table_endian(reader, endianness)?;
        Ok(MetadataReader { endianness, ifd_table })
    }

    /// Reads the IFD chain whose first pointer is at `offset`, with the byte order of this
    /// file (for sub-IFDs, for example).
    pub fn read_external_ifd_table(&self, offset: usize, reader: &mut ByteStream) -> (r: Result<
        Vec<IFD>,
        TiffError,
    >)
        ensures
            final(reader).data@ == old(reader).data@,
            ({
                let s = read_chain(self@.0, old(reader).data@, offset as int);
                &&& s is Ok <==> r is Ok
                &&& r is Ok ==> dirs_view(r->Ok_0@) == s->Ok_0
                &&& r is Err ==> r->Err_0 == s->Err_0
            }),
    {
        reader.seek(offset);
        let ghost d = reader.data@;
        let e = self.endianness;
        let raw_ifds = read_raw_ifds(reader, e)?;
        decode_raw_ifds(reader, &raw_ifds, e)
    }

    /// Returns true if the file is in little-endian byte order.
    pub fn is_little_endian(&self) -> (r: bool)
        ensures
            r == (self@.0 == Endianness::Little),
    {
        self.endianness.is_little()
    }

    /// The byte order of the file.
    pub fn endianness(&self) -> (r: Endianness)
        ensures
            r == self@.0,
    {
        self.endianness
    }

    /// This file's IFDs, in the order they were read.
    pub fn ifds(&self) -> (r: &[IFD])
        ensures
            dirs_view(r@) == self@.1,
    {
        self.ifd_table.as_slice()
    }

    /// Reads `length` bytes at `offset` without interpreting them (strip or tile data).
    pub fn read_raw_range(&self, reader: &mut ByteStream, offset: usize, length: usize) -> (r:
        Result<Vec<u8>, TiffError>)
        ensures
            final(reader).data@ == old(reader).data@,
            offset + length <= old(reader).data@.len() <==> r is Ok,
            r is Ok ==> r->Ok_0@ == old(reader).data@.subrange(
                offset as int,
                offset + length,
            ),
            r is Err ==> r->Err_0 == TiffError::UnexpectedEof,
    {
        reader.seek(offset);
        reader.read_exact(length)
    }
}

} // verus!
