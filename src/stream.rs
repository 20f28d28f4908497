//! An in-memory, seekable stream of bytes: the source that metadata is read from and the
//! sink that it is written to.

use crate::byte_order::{u16_from_bytes, u16_to_bytes, u32_from_bytes, u32_to_bytes, Endianness};
use crate::errors::TiffError;
use vstd::prelude::*;

verus! {

/// The bytes of `data` after writing `bytes` at position `pos`: bytes in the way are
/// overwritten, the data grows where needed, and a gap before `pos` is filled with zeros.
/// Writing no bytes changes nothing.
pub open spec fn overwrite(data: Seq<u8>, pos: int, bytes: Seq<u8>) -> Seq<u8> {
    let end = if bytes.len() > 0 && pos + bytes.len() > data.len() {
        pos + bytes.len()
    } else {
        data.len() as int
    };
    Seq::new(
        end as nat,
        |i: int|
            if pos <= i < pos + bytes.len() {
                bytes[i - pos]
            } else if i < data.len() {
                data[i]
            } else {
                0u8
            },
    )
}

/// Two writes in a row, the second where the first ended, are one write of both.
pub proof fn lemma_overwrite_concat(data: Seq<u8>, pos: int, b1: Seq<u8>, b2: Seq<u8>)
    requires
        0 <= pos,
    ensures
        overwrite(overwrite(data, pos, b1), pos + b1.len(), b2) =~= overwrite(data, pos, b1 + b2),
{
    if b1.len() == 0 {
        assert(b1 + b2 =~= b2);
        assert(overwrite(data, pos, b1) =~= data);
    } else if b2.len() == 0 {
        assert(b1 + b2 =~= b1);
    }
}

/// Writing at the end of the data appends.
pub proof fn lemma_overwrite_append(data: Seq<u8>, bytes: Seq<u8>)
    ensures
        overwrite(data, data.len() as int, bytes) =~= data + bytes,
{
}

/// A cursor over a growable buffer of bytes.
pub struct ByteStream {
    /// The bytes of the stream.
    pub data: Vec<u8>,
    /// The position of the next read or write.
    pub pos: usize,
}

impl ByteStream {
    /// A stream over `data`, positioned at its start.
    pub fn new(data: Vec<u8>) -> (r: Self)
        ensures
            r.data@ == data@,
            r.pos == 0,
    {
        ByteStream { data, pos: 0 }
    }

    /// An empty stream.
    pub fn empty() -> (r: Self)
        ensures
            r.data@ == Seq::<u8>::empty(),
            r.pos == 0,
    {
        ByteStream { data: Vec::new(), pos: 0 }
    }

    /// The position of the next read or write.
    pub fn position(&self) -> (r: usize)
        ensures
            r == self.pos,
    {
        self.pos
    }

    /// The number of bytes in the stream.
    pub fn len(&self) -> (r: usize)
        ensures
            r == self.data@.len(),
    {
        self.data.len()
    }

    /// Moves the position to `pos`, which may lie past the end.
    pub fn seek(&mut self, pos: usize)
        ensures
            final(self).data@ == old(self).data@,
            final(self).pos == pos,
    {
        self.pos = pos;
    }

    /// The bytes of the stream.
    pub fn into_inner(self) -> (r: Vec<u8>)
        ensures
            r@ == self.data@,
    {
        self.data
    }

    /// Reads exactly `n` bytes, failing if fewer remain.
    pub fn read_exact(&mut self, n: usize) -> (r: Result<Vec<u8>, TiffError>)
        ensures
            final(self).data@ == old(self).data@,
            old(self).pos + n <= old(self).data@.len() <==> r is Ok,
            r is Ok ==> final(self).pos == old(self).pos + n && r->Ok_0@ == old(self).data@.subrange(
                old(self).pos as int,
                old(self).pos + n,
            ),
            r is Err ==> r->Err_0 == TiffError::UnexpectedEof && final(self).pos == old(self).pos,
    {
        let len = self.data.len();
        if self.pos > len || n > len - self.pos {
            return Err(TiffError::UnexpectedEof);
        }
        let mut out: Vec<u8> = Vec::with_capacity(n);
        let mut i: usize = 0;
        while i < n
            invariant
                self.pos + n <= len,
                len == self.data@.len(),
                i <= n,
                out@ == self.data@.subrange(self.pos as int, self.pos + i),
            decreases n - i,
        {
            out.push(self.data[self.pos + i]);
            i += 1;
            assert(out@ =~= self.data@.subrange(self.pos as int, self.pos + i));
        }
        self.pos = self.pos + n;
        Ok(out)
    }

    /// Reads a 16-bit integer in byte order `e`.
    pub fn read_u16(&mut self, e: Endianness) -> (r: Result<u16, TiffError>)
        ensures
            final(self).data@ == old(self).data@,
            old(self).pos + 2 <= old(self).data@.len() <==> r is Ok,
            r is Ok ==> final(self).pos == old(self).pos + 2 && r->Ok_0 == u16_from_bytes(
                e,
                old(self).data@.subrange(old(self).pos as int, old(self).pos + 2),
            ),
            r is Err ==> r->Err_0 == TiffError::UnexpectedEof,
    {
        let buf = self.read_exact(2)?;
        Ok(e.read_u16(buf.as_slice()))
    }

    /// Reads a 32-bit integer in byte order `e`.
    pub fn read_u32(&mut self, e: Endianness) -> (r: Result<u32, TiffError>)
        ensures
            final(self).data@ == old(self).data@,
            old(self).pos + 4 <= old(self).data@.len() <==> r is Ok,
            r is Ok ==> final(self).pos == old(self).pos + 4 && r->Ok_0 == u32_from_bytes(
                e,
                old(self).data@.subrange(old(self).pos as int, old(self).pos + 4),
            ),
            r is Err ==> r->Err_0 == TiffError::UnexpectedEof,
    {
        let buf = self.read_exact(4)?;
        Ok(e.read_u32(buf.as_slice()))
    }

    /// Writes all of `bytes` at the position, which then moves past them.
    pub fn write_all(&mut self, bytes: &[u8]) -> (r: Result<(), TiffError>)
        ensures
            old(self).pos + bytes@.len() <= usize::MAX <==> r is Ok,
            r is Ok ==> final(self).data@ == overwrite(old(self).data@, old(self).pos as int, bytes@)
                && final(self).pos == old(self).pos + bytes@.len(),
            r is Err ==> *final(self) == *old(self) && r->Err_0 == TiffError::OffsetOverflow,
    {
        let n = bytes.len();
        if n > usize::MAX - self.pos {
            return Err(TiffError::OffsetOverflow);
        }
        let ghost old_data = self.data@;
        let pos = self.pos;
        if n == 0 {
            assert(self.data@ =~= overwrite(old_data, pos as int, bytes@));
            return Ok(());
        }
        while self.data.len() < pos
            invariant
                self.pos == pos,
                old_data.len() <= self.data@.len() <= if pos > old_data.len() {
                    pos as int
                } else {
                    old_data.len() as int
                },
                forall|j: int|
                    0 <= j < self.data@.len() ==> self.data@[j] == if j < old_data.len() {
                        old_data[j]
                    } else {
                        0u8
                    },
            decreases pos - self.data@.len(),
        {
            self.data.push(0);
        }
        let mut i: usize = 0;
        while i < n
            invariant
                self.pos == pos,
                pos + n <= usize::MAX,
                n == bytes@.len(),
                i <= n,
                self.data@.len() == if pos + i > old_data.len() {
                    pos + i
                } else {
                    old_data.len() as int
                },
                forall|j: int|
                    0 <= j < self.data@.len() ==> self.data@[j] == if pos <= j < pos + i {
                        bytes@[j - pos]
                    } else if j < old_data.len() {
                        old_data[j]
                    } else {
                        0u8
                    },
            decreases n - i,
        {
            let p = pos + i;
            if p < self.data.len() {
                self.data.set(p, bytes[i]);
            } else {
                self.data.push(bytes[i]);
            }
            i += 1;
        }
        assert(self.data@ =~= overwrite(old_data, pos as int, bytes@));
        self.pos = pos + n;
        Ok(())
    }

    /// Writes a 16-bit integer in byte order `e`.
    pub fn write_u16(&mut self, e: Endianness, n: u16) -> (r: Result<(), TiffError>)
        ensures
            old(self).pos + 2 <= usize::MAX <==> r is Ok,
            r is Ok ==> final(self).data@ == overwrite(
                old(self).data@,
                old(self).pos as int,
                u16_to_bytes(e, n),
            ) && final(self).pos == old(self).pos + 2,
            r is Err ==> *final(self) == *old(self) && r->Err_0 == TiffError::OffsetOverflow,
    {
        let buf = e.u16_bytes(n);
        self.write_all(buf.as_slice())
    }

    /// Writes a 32-bit integer in byte order `e`.
    pub fn write_u32(&mut self, e: Endianness, n: u32) -> (r: Result<(), TiffError>)
        ensures
            old(self).pos + 4 <= usize::MAX <==> r is Ok,
            r is Ok ==> final(self).data@ == overwrite(
                old(self).data@,
                old(self).pos as int,
                u32_to_bytes(e, n),
            ) && final(self).pos == old(self).pos + 4,
            r is Err ==> *final(self) == *old(self) && r->Err_0 == TiffError::OffsetOverflow,
    {
        let buf = e.u32_bytes(n);
        self.write_all(buf.as_slice())
    }
}

} // verus!
