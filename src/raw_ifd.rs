//! Raw directories: entries as they lie in the file, with their 4-byte value-or-offset
//! slot not yet interpreted.

use crate::byte_order::{
    lemma_u16_round_trip, lemma_u32_round_trip, u16_from_bytes, u16_to_bytes, u32_from_bytes,
    u32_to_bytes, Endianness,
};
use crate::errors::TiffError;
use crate::stream::{overwrite, ByteStream};
use vstd::prelude::*;

verus! {

/// A struct representing a low-level IFD value.
#[derive(Debug, Clone, Copy)]
pub struct RawIFDField {
    /// Tag ID.
    pub tag: u16,
    /// Tag data type.
    pub tag_type: u16,
    /// Quantity (not byte count) of data in the field.
    pub count: u32,
    /// Either the value of the tag, if it is small enough, or the file offset of its data.
    pub value_or_offset: [u8; 4],
}

/// The contents of a raw entry.
pub struct RawFieldView {
    pub tag: u16,
    pub tag_type: u16,
    pub count: u32,
    pub value_or_offset: Seq<u8>,
}

impl View for RawIFDField {
    type V = RawFieldView;

    open spec fn view(&self) -> RawFieldView {
        RawFieldView {
            tag: self.tag,
            tag_type: self.tag_type,
            count: self.count,
            value_or_offset: self.value_or_offset@,
        }
    }
}

/// The entry stored in the twelve bytes at `p`.
pub open spec fn raw_field_at(e: Endianness, d: Seq<u8>, p: int) -> RawFieldView {
    RawFieldView {
        tag: u16_from_bytes(e, d.subrange(p, p + 2)),
        tag_type: u16_from_bytes(e, d.subrange(p + 2, p + 4)),
        count: u32_from_bytes(e, d.subrange(p + 4, p + 8)),
        value_or_offset: d.subrange(p + 8, p + 12),
    }
}

/// The twelve bytes that store an entry.
pub open spec fn raw_field_bytes(e: Endianness, f: RawFieldView) -> Seq<u8> {
    u16_to_bytes(e, f.tag) + u16_to_bytes(e, f.tag_type) + u32_to_bytes(e, f.count)
        + f.value_or_offset
}

/// A struct representing a low-level IFD.
#[derive(Debug, Clone)]
pub struct RawIFD {
    pub entries: Vec<RawIFDField>,
}

/// The contents of a list of raw entries.
pub open spec fn raw_entries_view(v: Seq<RawIFDField>) -> Seq<RawFieldView> {
    v.map_values(|f: RawIFDField| f@)
}

impl View for RawIFD {
    type V = Seq<RawFieldView>;

    open spec fn view(&self) -> Seq<RawFieldView> {
        raw_entries_view(self.entries@)
    }
}

/// The directory stored at `p`, if the stream holds all of it.
pub open spec fn raw_ifd_at(e: Endianness, d: Seq<u8>, p: int) -> Option<Seq<RawFieldView>> {
    if p < 0 || p + 2 > d.len() {
        None
    } else {
        let n = u16_from_bytes(e, d.subrange(p, p + 2)) as int;
        if p + 2 + 12 * n > d.len() {
            None
        } else {
            Some(Seq::new(n as nat, |i: int| raw_field_at(e, d, p + 2 + 12 * i)))
        }
    }
}

/// The number of bytes that a directory of `n` entries takes, next pointer excluded.
pub open spec fn raw_ifd_size(n: int) -> int {
    2 + 12 * n
}

/// The bytes that store a directory: its entry count, then its entries.
pub open spec fn raw_ifd_bytes(e: Endianness, entries: Seq<RawFieldView>) -> Seq<u8> {
    u16_to_bytes(e, entries.len() as u16) + Seq::new(
        (12 * entries.len()) as nat,
        |j: int| raw_field_bytes(e, entries[j / 12])[j % 12],
    )
}

/// The directories of the chain whose first pointer lies at `ptr`, following at most `fuel`
/// pointers.
pub open spec fn chain_from(e: Endianness, d: Seq<u8>, ptr: int, fuel: nat) -> Result<
    Seq<Seq<RawFieldView>>,
    TiffError,
>
    decreases fuel,
{
    if ptr < 0 || ptr + 4 > d.len() {
        Err(TiffError::UnexpectedEof)
    } else {
        let off = u32_from_bytes(e, d.subrange(ptr, ptr + 4)) as int;
        if off == 0 {
            Ok(Seq::empty())
        } else if fuel == 0 {
            Err(TiffError::CyclicChain)
        } else {
            match raw_ifd_at(e, d, off) {
                None => Err(TiffError::UnexpectedEof),
                Some(dir) => match chain_from(e, d, off + raw_ifd_size(dir.len() as int), (fuel - 1) as nat) {
                    Ok(rest) => Ok(seq![dir] + rest),
                    Err(x) => Err(x),
                },
            }
        }
    }
}

/// `r` with `done` put in front of its directories.
pub open spec fn prepend_dirs(
    done: Seq<Seq<RawFieldView>>,
    r: Result<Seq<Seq<RawFieldView>>, TiffError>,
) -> Result<Seq<Seq<RawFieldView>>, TiffError> {
    match r {
        Ok(rest) => Ok(done + rest),
        Err(x) => Err(x),
    }
}

/// A directory read back from the bytes that store it is the directory.
pub proof fn lemma_raw_ifd_round_trip(e: Endianness, d: Seq<u8>, p: int, entries: Seq<RawFieldView>)
    requires
        0 <= p,
        entries.len() <= u16::MAX,
        forall|i: int| 0 <= i < entries.len() ==> (#[trigger] entries[i]).value_or_offset.len() == 4,
        p + raw_ifd_size(entries.len() as int) <= d.len(),
        d.subrange(p, p + raw_ifd_size(entries.len() as int)) == raw_ifd_bytes(e, entries),
    ensures
        raw_ifd_at(e, d, p) == Some(entries),
{
    let n = entries.len() as int;
    let b = raw_ifd_bytes(e, entries);
    lemma_u16_round_trip(e, n as u16);
    assert(d.subrange(p, p + 2) =~= b.subrange(0, 2));
    assert(b.subrange(0, 2) =~= u16_to_bytes(e, n as u16));
    assert forall|i: int| 0 <= i < n implies #[trigger] raw_field_at(e, d, p + 2 + 12 * i) == entries[i] by {
        let f = entries[i];
        let q = p + 2 + 12 * i;
        let fb = raw_field_bytes(e, f);
        assert(fb.len() == 12);
        assert forall|m: int| 0 <= m < 12 implies d[q + m] == #[trigger] fb[m] by {
            assert((12 * i + m) / 12 == i && (12 * i + m) % 12 == m) by (nonlinear_arith)
                requires
                    0 <= m < 12,
                    0 <= i,
            ;
            assert(d[q + m] == b[2 + 12 * i + m]);
        }
        lemma_u16_round_trip(e, f.tag);
        lemma_u16_round_trip(e, f.tag_type);
        lemma_u32_round_trip(e, f.count);
        let t1 = u16_to_bytes(e, f.tag);
        let t2 = u16_to_bytes(e, f.tag_type);
        let t3 = u32_to_bytes(e, f.count);
        assert(fb == t1 + t2 + t3 + f.value_or_offset);
        assert(fb[0] == t1[0] && fb[1] == t1[1]);
        assert(fb[2] == t2[0] && fb[3] == t2[1]);
        assert(forall|m: int| 0 <= m < 4 ==> fb[4 + m] == #[trigger] t3[m]);
        assert(forall|m: int| 0 <= m < 4 ==> fb[8 + m] == #[trigger] f.value_or_offset[m]);
        assert(d.subrange(q, q + 2) =~= t1);
        assert(d.subrange(q + 2, q + 4) =~= t2);
        assert(d.subrange(q + 4, q + 8) =~= u32_to_bytes(e, f.count));
        assert(d.subrange(q + 8, q + 12) =~= f.value_or_offset);
    }
    assert(Seq::new(n as nat, |i: int| raw_field_at(e, d, p + 2 + 12 * i)) =~= entries);
}

/// A directory stored below `bound` reads the same from two streams that agree below it.
pub proof fn lemma_raw_ifd_frame(e: Endianness, d: Seq<u8>, d2: Seq<u8>, p: int, bound: int)
    requires
        raw_ifd_at(e, d, p) is Some,
        p + raw_ifd_size(raw_ifd_at(e, d, p)->0.len() as int) <= bound,
        bound <= d.len(),
        bound <= d2.len(),
        d2.subrange(0, bound) == d.subrange(0, bound),
    ensures
        raw_ifd_at(e, d2, p) == raw_ifd_at(e, d, p),
{
    let n = raw_ifd_at(e, d, p)->0.len() as int;
    assert forall|a: int, b: int| 0 <= a <= b <= bound implies #[trigger] d2.subrange(a, b)
        == d.subrange(a, b) by {
        assert(d2.subrange(a, b) =~= d2.subrange(0, bound).subrange(a, b));
        assert(d.subrange(a, b) =~= d.subrange(0, bound).subrange(a, b));
    }
    assert(d2.subrange(p, p + 2) == d.subrange(p, p + 2));
    assert forall|i: int| 0 <= i < n implies #[trigger] raw_field_at(e, d2, p + 2 + 12 * i)
        == raw_field_at(e, d, p + 2 + 12 * i) by {
        let q = p + 2 + 12 * i;
        assert(d2.subrange(q, q + 2) == d.subrange(q, q + 2));
        assert(d2.subrange(q + 2, q + 4) == d.subrange(q + 2, q + 4));
        assert(d2.subrange(q + 4, q + 8) == d.subrange(q + 4, q + 8));
        assert(d2.subrange(q + 8, q + 12) == d.subrange(q + 8, q + 12));
    }
    assert(Seq::new(n as nat, |i: int| raw_field_at(e, d2, p + 2 + 12 * i)) =~= Seq::new(
        n as nat,
        |i: int| raw_field_at(e, d, p + 2 + 12 * i),
    ));
}

impl RawIFDField {
    /// Read the field value from `reader`.
    pub fn from_reader(reader: &mut ByteStream, e: Endianness) -> (r: Result<Self, TiffError>)
        ensures
            final(reader).data@ == old(reader).data@,
            old(reader).pos + 12 <= old(reader).data@.len() <==> r is Ok,
            r is Ok ==> r->Ok_0@ == raw_field_at(e, old(reader).data@, old(reader).pos as int)
                && final(reader).pos == old(reader).pos + 12,
            r is Err ==> r->Err_0 == TiffError::UnexpectedEof,
    {
        let ghost d = reader.data@;
        let ghost p = reader.pos as int;
        if reader.pos > reader.data.len() || reader.data.len() - reader.pos < 12 {
            return Err(TiffError::UnexpectedEof);
        }
        let tag = reader.read_u16(e)?;
        let tag_type = reader.read_u16(e)?;
        let count = reader.read_u32(e)?;
        let buf = reader.read_exact(4)?;
        let value_or_offset = [buf[0], buf[1], buf[2], buf[3]];
        assert(value_or_offset@ =~= d.subrange(p + 8, p + 12));
        Ok(RawIFDField { tag, tag_type, count, value_or_offset })
    }

    /// Write the field value to `writer`.
    pub fn to_writer(&self, writer: &mut ByteStream, e: Endianness) -> (r: Result<(), TiffError>)
        ensures
            old(writer).pos + 12 <= usize::MAX <==> r is Ok,
            r is Ok ==> final(writer).data@ == overwrite(
                old(writer).data@,
                old(writer).pos as int,
                raw_field_bytes(e, self@),
            ) && final(writer).pos == old(writer).pos + 12,
            r is Err ==> r->Err_0 == TiffError::OffsetOverflow,
    {
        if writer.pos > usize::MAX - 12 {
            return Err(TiffError::OffsetOverflow);
        }
        let mut buf: Vec<u8> = Vec::with_capacity(12);
        let tag = e.u16_bytes(self.tag);
        let tag_type = e.u16_bytes(self.tag_type);
        let count = e.u32_bytes(self.count);
        buf.push(tag[0]);
        buf.push(tag[1]);
        buf.push(tag_type[0]);
        buf.push(tag_type[1]);
        buf.push(count[0]);
        buf.push(count[1]);
        buf.push(count[2]);
        buf.push(count[3]);
        buf.push(self.value_or_offset[0]);
        buf.push(self.value_or_offset[1]);
        buf.push(self.value_or_offset[2]);
        buf.push(self.value_or_offset[3]);
        assert(buf@ =~= raw_field_bytes(e, self@));
        writer.write_all(buf.as_slice())
    }
}

impl RawIFD {
    /// Read an entire IFD from `reader`, excluding the offset to the next IFD.
    pub fn from_reader(reader: &mut ByteStream, e: Endianness) -> (r: Result<Self, TiffError>)
        ensures
            final(reader).data@ == old(reader).data@,
            raw_ifd_at(e, old(reader).data@, old(reader).pos as int) is Some <==> r is Ok,
            r is Ok ==> r->Ok_0@ == raw_ifd_at(e, old(reader).data@, old(reader).pos as int)->0
                && final(reader).pos == old(reader).pos + raw_ifd_size(r->Ok_0@.len() as int),
            r is Err ==> r->Err_0 == TiffError::UnexpectedEof,
    {
        let ghost d = reader.data@;
        let ghost p = reader.pos as int;
        let field_count = reader.read_u16(e)?;
        let n = field_count as usize;
        if reader.pos > reader.data.len() || (reader.data.len() - reader.pos) / 12 < n {
            return Err(TiffError::UnexpectedEof);
        }
        let mut entries: Vec<RawIFDField> = Vec::with_capacity(n);
        let mut i: usize = 0;
        while i < n
            invariant
                reader.data@ == d,
                n == u16_from_bytes(e, d.subrange(p, p + 2)),
                p + 2 + 12 * n <= d.len(),
                i <= n,
                reader.pos == p + 2 + 12 * i,
                entries@.len() == i,
                forall|k: int| 0 <= k < i ==> entries@[k]@ == raw_field_at(e, d, p + 2 + 12 * k),
            decreases n - i,
        {
            let field = RawIFDField::from_reader(reader, e)?;
            entries.push(field);
            i += 1;
        }
        let r = RawIFD { entries };
        assert(r@ =~= raw_ifd_at(e, d, p)->0);
        Ok(r)
    }

    /// Write an entire IFD to `writer`, excluding the offset to the next IFD.
    pub fn to_writer(&self, writer: &mut ByteStream, e: Endianness) -> (r: Result<(), TiffError>)
        ensures
            self@.len() <= u16::MAX && old(writer).pos + raw_ifd_size(self@.len() as int)
                <= usize::MAX <==> r is Ok,
            r is Ok ==> final(writer).data@ == overwrite(
                old(writer).data@,
                old(writer).pos as int,
                raw_ifd_bytes(e, self@),
            ) && final(writer).pos == old(writer).pos + raw_ifd_size(self@.len() as int),
            r is Err ==> *final(writer) == *old(writer) && if self@.len() > u16::MAX {
                r->Err_0 == (TiffError::TooManyEntries { count: self@.len() as usize })
            } else {
                r->Err_0 == TiffError::OffsetOverflow
            },
    {
        let n = self.entries.len();
        if n > 65535 {
            return Err(TiffError::TooManyEntries { count: n });
        }
        if writer.pos > usize::MAX - 2 || (usize::MAX - 2 - writer.pos) / 12 < n {
            return Err(TiffError::OffsetOverflow);
        }
        let mut buf: Vec<u8> = Vec::new();
        let count = e.u16_bytes(n as u16);
        buf.push(count[0]);
        buf.push(count[1]);
        let mut i: usize = 0;
        while i < n
            invariant
                n == self@.len(),
                n <= 65535,
                i <= n,
                buf@ =~= u16_to_bytes(e, n as u16) + Seq::new(
                    (12 * i) as nat,
                    |j: int| raw_field_bytes(e, self@[j / 12])[j % 12],
                ),
            decreases n - i,
        {
            let f = self.entries[i];
            let tag = e.u16_bytes(f.tag);
            let tag_type = e.u16_bytes(f.tag_type);
            let cnt = e.u32_bytes(f.count);
            let ghost before = buf@;
            buf.push(tag[0]);
            buf.push(tag[1]);
            buf.push(tag_type[0]);
            buf.push(tag_type[1]);
            buf.push(cnt[0]);
            buf.push(cnt[1]);
            buf.push(cnt[2]);
            buf.push(cnt[3]);
            buf.push(f.value_or_offset[0]);
            buf.push(f.value_or_offset[1]);
            buf.push(f.value_or_offset[2]);
            buf.push(f.value_or_offset[3]);
            proof {
                assert(self@[i as int] == f@);
                let fb = raw_field_bytes(e, f@);
                assert(buf@ =~= before + fb);
                assert forall|j: int| 0 <= j < 12 * (i + 1) implies #[trigger] (buf@[2 + j]) == raw_field_bytes(e, self@[j / 12])[j % 12] by {
                    if j >= 12 * i {
                        assert(j / 12 == i) by (nonlinear_arith) requires 12 * i <= j < 12 * (i + 1);
                        assert(j % 12 == j - 12 * i) by (nonlinear_arith) requires 12 * i <= j < 12 * (i + 1);
                    }
                }
            }
            i += 1;
        }
        assert(buf@ =~= raw_ifd_bytes(e, self@));
        writer.write_all(buf.as_slice())
    }
}

} // verus!
