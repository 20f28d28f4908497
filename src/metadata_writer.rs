//! Writing the metadata of a file: the header, then directories streamed one at a time,
//! each one linked into the chain by patching the pointer that the previous one left at 0.

use crate::byte_order::{lemma_u16_round_trip, lemma_u32_round_trip, u16_from_bytes, u32_from_bytes, u32_to_bytes, Endianness};
use crate::errors::TiffError;
use crate::header::{endian_of_mark, header_bytes};
use crate::ifd::{
    dir_from, dir_within, encode_entries, lemma_dir_from_frame, lemma_entries_round_trip,
    lemma_write_order_members, read_back_dir, write_order, IFD,
};
use crate::ifd_field::{field_within, FieldValue};
use crate::metadata_reader::{decode_dirs, read_table};
use crate::raw_ifd::{
    chain_from, lemma_raw_ifd_frame, lemma_raw_ifd_round_trip, raw_ifd_at, raw_ifd_bytes,
    raw_ifd_size, RawFieldView,
};
use crate::stream::{lemma_overwrite_append, overwrite, ByteStream};
use vstd::prelude::*;

verus! {

/// The 32-bit integer stored at `p`.
pub open spec fn u32_at(e: Endianness, d: Seq<u8>, p: int) -> int {
    u32_from_bytes(e, d.subrange(p, p + 4)) as int
}

/// The position of the pointer that follows the directory at `t`.
pub open spec fn next_pointer(e: Endianness, d: Seq<u8>, t: int) -> int {
    t + raw_ifd_size(u16_from_bytes(e, d.subrange(t, t + 2)) as int)
}

/// Whether the header's pointer and the pointer after each directory link the directories
/// at `tables` into a list, in order, whose last pointer is 0.
pub open spec fn pointers_linked(e: Endianness, d: Seq<u8>, tables: Seq<int>) -> bool {
    &&& u32_at(e, d, 4) == if tables.len() == 0 {
        0
    } else {
        tables[0]
    }
    &&& forall|i: int|
        0 <= i < tables.len() ==> u32_at(e, d, next_pointer(e, d, #[trigger] tables[i])) == if i
            + 1 < tables.len() {
            tables[i + 1]
        } else {
            0
        }
}

/// Whether, from the pointer at `ptr`, the directories at `tables` follow one another in
/// the stream, each holding the raw entries `raws`, until the pointer at `last`.
pub open spec fn chain_links(
    e: Endianness,
    d: Seq<u8>,
    ptr: int,
    tables: Seq<int>,
    raws: Seq<Seq<RawFieldView>>,
    last: int,
) -> bool
    decreases tables.len(),
{
    if tables.len() == 0 {
        ptr == last && raws.len() == 0
    } else {
        &&& raws.len() == tables.len()
        &&& 0 <= ptr
        &&& ptr + 4 <= tables[0] <= u32::MAX
        &&& u32_at(e, d, ptr) == tables[0]
        &&& raw_ifd_at(e, d, tables[0]) == Some(raws[0])
        &&& chain_links(
            e,
            d,
            tables[0] + raw_ifd_size(raws[0].len() as int),
            tables.drop_first(),
            raws.drop_first(),
            last,
        )
    }
}

/// What a writer keeps true of its stream: the stream is positioned at its end, starts with
/// the header, and its chain of directories ends in a zero pointer at `last`; each directory
/// decodes to what `dirs` holds, reading nothing past `last`.
#[verifier::opaque]
pub open spec fn writer_state(
    e: Endianness,
    d: Seq<u8>,
    pos: int,
    last: int,
    tables: Seq<int>,
    raws: Seq<Seq<RawFieldView>>,
    dirs: Seq<Seq<(u16, FieldValue)>>,
) -> bool {
    &&& pos == d.len()
    &&& d.len() >= 8
    &&& d.subrange(0, 4) == header_bytes(e)
    &&& 4 <= last
    &&& last + 4 <= d.len()
    &&& u32_at(e, d, last) == 0
    &&& chain_links(e, d, 4, tables, raws, last)
    &&& dirs.len() == raws.len()
    &&& forall|i: int|
        0 <= i < raws.len() ==> dir_from(e, d, #[trigger] raws[i]) == Ok::<
            Seq<(u16, FieldValue)>,
            TiffError,
        >(dirs[i]) && dir_within(e, raws[i], last)
}

/// A chain advances at least six bytes per directory.
proof fn lemma_chain_extent(
    e: Endianness,
    d: Seq<u8>,
    ptr: int,
    tables: Seq<int>,
    raws: Seq<Seq<RawFieldView>>,
    last: int,
)
    requires
        chain_links(e, d, ptr, tables, raws, last),
    ensures
        ptr + 6 * tables.len() <= last,
        raws.len() == tables.len(),
    decreases tables.len(),
{
    if tables.len() > 0 {
        lemma_chain_extent(
            e,
            d,
            tables[0] + raw_ifd_size(raws[0].len() as int),
            tables.drop_first(),
            raws.drop_first(),
            last,
        );
    }
}

/// A linked chain is what following its pointers reads.
proof fn lemma_chain_reads(
    e: Endianness,
    d: Seq<u8>,
    ptr: int,
    tables: Seq<int>,
    raws: Seq<Seq<RawFieldView>>,
    last: int,
    fuel: nat,
)
    requires
        chain_links(e, d, ptr, tables, raws, last),
        0 <= ptr,
        last + 4 <= d.len(),
        u32_at(e, d, last) == 0,
        fuel >= tables.len(),
    ensures
        chain_from(e, d, ptr, fuel) == Ok::<Seq<Seq<RawFieldView>>, TiffError>(raws),
        pointers_linked_from(e, d, ptr, tables),
    decreases tables.len(),
{
    lemma_chain_extent(e, d, ptr, tables, raws, last);
    if tables.len() == 0 {
        assert(raws =~= Seq::<Seq<RawFieldView>>::empty());
    } else {
        let next = tables[0] + raw_ifd_size(raws[0].len() as int);
        lemma_chain_reads(e, d, next, tables.drop_first(), raws.drop_first(), last, (fuel - 1) as nat);
        assert(seq![raws[0]] + raws.drop_first() =~= raws);
        assert(u32_at(e, d, ptr) != 0);
        assert(chain_from(e, d, ptr, fuel) == match chain_from(e, d, next, (fuel - 1) as nat) {
            Ok(rest) => Ok::<Seq<Seq<RawFieldView>>, TiffError>(seq![raws[0]] + rest),
            Err(x) => Err(x),
        });
        assert(u16_from_bytes(e, d.subrange(tables[0], tables[0] + 2)) as int == raws[0].len());
        assert(next_pointer(e, d, tables[0]) == next);
        let rest = tables.drop_first();
        assert forall|i: int| 0 <= i < tables.len() implies u32_at(e, d, next_pointer(e, d, #[trigger] tables[i])) == if i + 1 < tables.len() {
            tables[i + 1]
        } else {
            0
        } by {
            if i > 0 {
                assert(tables[i] == rest[i - 1]);
            } else if tables.len() > 1 {
                assert(rest[0] == tables[1]);
            } else {
                lemma_chain_extent(e, d, next, rest, raws.drop_first(), last);
            }
        }
    }
}

/// Whether, from the pointer at `ptr`, the pointers link the directories at `tables`.
pub open spec fn pointers_linked_from(e: Endianness, d: Seq<u8>, ptr: int, tables: Seq<int>) -> bool {
    &&& u32_at(e, d, ptr) == if tables.len() == 0 {
        0
    } else {
        tables[0]
    }
    &&& forall|i: int|
        0 <= i < tables.len() ==> u32_at(e, d, next_pointer(e, d, #[trigger] tables[i])) == if i
            + 1 < tables.len() {
            tables[i + 1]
        } else {
            0
        }
}

/// A chain that lies below `last` is linked the same way in a stream that agrees below it.
proof fn lemma_chain_frame(
    e: Endianness,
    d: Seq<u8>,
    d2: Seq<u8>,
    ptr: int,
    tables: Seq<int>,
    raws: Seq<Seq<RawFieldView>>,
    last: int,
)
    requires
        chain_links(e, d, ptr, tables, raws, last),
        last <= d.len(),
        last <= d2.len(),
        d2.subrange(0, last) == d.subrange(0, last),
    ensures
        chain_links(e, d2, ptr, tables, raws, last),
    decreases tables.len(),
{
    if tables.len() > 0 {
        let next = tables[0] + raw_ifd_size(raws[0].len() as int);
        lemma_chain_extent(e, d, next, tables.drop_first(), raws.drop_first(), last);
        assert(d2.subrange(ptr, ptr + 4) =~= d2.subrange(0, last).subrange(ptr, ptr + 4));
        assert(d.subrange(ptr, ptr + 4) =~= d.subrange(0, last).subrange(ptr, ptr + 4));
        lemma_raw_ifd_frame(e, d, d2, tables[0], last);
        lemma_chain_frame(e, d, d2, next, tables.drop_first(), raws.drop_first(), last);
    }
}

/// A chain grows by one directory when its last pointer is set to a directory stored after it.
proof fn lemma_chain_push(
    e: Endianness,
    d: Seq<u8>,
    ptr: int,
    tables: Seq<int>,
    raws: Seq<Seq<RawFieldView>>,
    last: int,
    t: int,
    r: Seq<RawFieldView>,
)
    requires
        chain_links(e, d, ptr, tables, raws, last),
        0 <= last,
        last + 4 <= t <= u32::MAX,
        u32_at(e, d, last) == t,
        raw_ifd_at(e, d, t) == Some(r),
    ensures
        chain_links(e, d, ptr, tables.push(t), raws.push(r), t + raw_ifd_size(r.len() as int)),
    decreases tables.len(),
{
    assert(tables.push(t)[tables.len() as int] == t);
    assert(raws.push(r)[raws.len() as int] == r);
    if tables.len() == 0 {
        assert(tables.push(t).drop_first() =~= Seq::<int>::empty());
        assert(raws.push(r).drop_first() =~= Seq::<Seq<RawFieldView>>::empty());
        assert(tables.push(t)[0] == t);
        assert(raws.push(r)[0] == r);
        assert(chain_links(
            e,
            d,
            t + raw_ifd_size(r.len() as int),
            Seq::<int>::empty(),
            Seq::<Seq<RawFieldView>>::empty(),
            t + raw_ifd_size(r.len() as int),
        ));
    } else {
        assert(tables.push(t)[0] == tables[0]);
        assert(raws.push(r)[0] == raws[0]);
        let next = tables[0] + raw_ifd_size(raws[0].len() as int);
        lemma_chain_push(e, d, next, tables.drop_first(), raws.drop_first(), last, t, r);
        assert(tables.push(t).drop_first() =~= tables.drop_first().push(t));
        assert(raws.push(r).drop_first() =~= raws.drop_first().push(r));
    }
}

/// Directories that each decode decode together, in order.
proof fn lemma_decode_all(
    e: Endianness,
    d: Seq<u8>,
    raws: Seq<Seq<RawFieldView>>,
    dirs: Seq<Seq<(u16, FieldValue)>>,
)
    requires
        dirs.len() == raws.len(),
        forall|i: int|
            0 <= i < raws.len() ==> dir_from(e, d, #[trigger] raws[i]) == Ok::<
                Seq<(u16, FieldValue)>,
                TiffError,
            >(dirs[i]),
    ensures
        decode_dirs(e, d, raws) == Ok::<Seq<Seq<(u16, FieldValue)>>, TiffError>(dirs),
    decreases raws.len(),
{
    if raws.len() > 0 {
        let ri = raws.drop_last();
        let di = dirs.drop_last();
        assert forall|i: int| 0 <= i < ri.len() implies dir_from(e, d, #[trigger] ri[i]) == Ok::<
            Seq<(u16, FieldValue)>,
            TiffError,
        >(di[i]) by {
            assert(ri[i] == raws[i]);
        }
        lemma_decode_all(e, d, ri, di);
        assert(raws.last() == raws[raws.len() - 1]);
        assert(dirs.last() == dirs[dirs.len() - 1]);
        assert(dir_from(e, d, raws[raws.len() - 1]) == Ok::<Seq<(u16, FieldValue)>, TiffError>(dirs[dirs.len() - 1]));
        assert(di.push(dirs.last()) =~= dirs);
    } else {
        assert(dirs =~= Seq::<Seq<(u16, FieldValue)>>::empty());
    }
}

/// The plain facts of a writer's state.
proof fn lemma_state_facts(
    e: Endianness,
    d: Seq<u8>,
    pos: int,
    last: int,
    tables: Seq<int>,
    raws: Seq<Seq<RawFieldView>>,
    dirs: Seq<Seq<(u16, FieldValue)>>,
)
    requires
        writer_state(e, d, pos, last, tables, raws, dirs),
    ensures
        pos == d.len(),
        d.len() >= 8,
        4 <= last,
        last + 4 <= d.len(),
{
    reveal(writer_state);
}

/// A writer's state survives bytes appended to its stream.
proof fn lemma_state_extend(
    e: Endianness,
    d: Seq<u8>,
    d2: Seq<u8>,
    last: int,
    tables: Seq<int>,
    raws: Seq<Seq<RawFieldView>>,
    dirs: Seq<Seq<(u16, FieldValue)>>,
)
    requires
        writer_state(e, d, d.len() as int, last, tables, raws, dirs),
        d2.len() >= d.len(),
        d2.subrange(0, d.len() as int) == d,
    ensures
        writer_state(e, d2, d2.len() as int, last, tables, raws, dirs),
{
    reveal(writer_state);
    let n = d.len() as int;
    assert(d2.subrange(0, 4) =~= d2.subrange(0, n).subrange(0, 4));
    assert(d2.subrange(last, last + 4) =~= d2.subrange(0, n).subrange(last, last + 4));
    assert(d2.subrange(0, last) =~= d2.subrange(0, n).subrange(0, last));
    assert(d.subrange(0, last) =~= d.subrange(0, n).subrange(0, last));
    lemma_chain_frame(e, d, d2, 4, tables, raws, last);
    assert forall|i: int| 0 <= i < raws.len() implies dir_from(e, d2, #[trigger] raws[i]) == Ok::<
        Seq<(u16, FieldValue)>,
        TiffError,
    >(dirs[i]) && dir_within(e, raws[i], last) by {
        lemma_dir_from_frame(e, d, d2, raws[i], last);
    }
}

/// Raw entries that read nothing at or past `b1` read nothing at or past a later `b2`.
proof fn lemma_dir_within_mono(e: Endianness, raws: Seq<RawFieldView>, b1: int, b2: int)
    requires
        dir_within(e, raws, b1),
        b1 <= b2,
    ensures
        dir_within(e, raws, b2),
{
    assert forall|i: int| 0 <= i < raws.len() implies field_within(e, #[trigger] raws[i], b2) by {
        assert(field_within(e, raws[i], b1));
    }
}

/// Writing a directory keeps the writer's state: `b` holds the data written out of line, `tb`
/// the table, which a zero pointer follows, and the pointer that ended the chain is set to
/// the table.
proof fn lemma_write_step(
    e: Endianness,
    d0: Seq<u8>,
    b: Seq<u8>,
    tb: Seq<u8>,
    d4: Seq<u8>,
    last0: int,
    t: int,
    tables: Seq<int>,
    raws: Seq<Seq<RawFieldView>>,
    dirs: Seq<Seq<(u16, FieldValue)>>,
    w: Seq<(u16, FieldValue)>,
    r: Seq<RawFieldView>,
)
    requires
        writer_state(e, d0, d0.len() as int, last0, tables, raws, dirs),
        crate::ifd::none_unrecognized(w),
        encode_entries(e, w, d0.len() as int) == Ok::<(Seq<RawFieldView>, Seq<u8>), TiffError>((r, b)),
        t == d0.len() + b.len(),
        t <= u32::MAX,
        r.len() <= u16::MAX,
        tb == raw_ifd_bytes(e, r),
        d4 == overwrite(d0 + b + tb + u32_to_bytes(e, 0), last0, u32_to_bytes(e, t as u32)),
    ensures
        writer_state(
            e,
            d4,
            d4.len() as int,
            t + raw_ifd_size(r.len() as int),
            tables.push(t),
            raws.push(r),
            dirs.push(read_back_dir(e, w)),
        ),
{
    reveal(writer_state);
    let len0 = d0.len() as int;
    let next = t + raw_ifd_size(r.len() as int);
    let d3 = d0 + b + tb + u32_to_bytes(e, 0);
    lemma_u32_round_trip(e, 0);
    lemma_u32_round_trip(e, t as u32);
    assert(tb.len() == raw_ifd_size(r.len() as int)) by {
        lemma_u16_round_trip(e, r.len() as u16);
    }
    assert(d4.len() == d3.len());
    assert(d4.subrange(0, last0) =~= d0.subrange(0, last0));
    assert(d4.subrange(0, 4) =~= d0.subrange(0, 4));
    assert(d4.subrange(last0, last0 + 4) =~= u32_to_bytes(e, t as u32));
    assert(d4.subrange(next, next + 4) =~= u32_to_bytes(e, 0));
    assert(d4.subrange(t, next) =~= tb);
    assert(d4.subrange(len0, len0 + b.len()) =~= b);
    lemma_entries_round_trip(e, w, len0, d4);
    lemma_raw_ifd_round_trip(e, d4, t, r);
    lemma_chain_frame(e, d0, d4, 4, tables, raws, last0);
    lemma_chain_push(e, d4, 4, tables, raws, last0, t, r);
    assert forall|i: int| 0 <= i < raws.len() implies dir_from(e, d4, #[trigger] raws[i])
        == Ok::<Seq<(u16, FieldValue)>, TiffError>(dirs[i]) && dir_within(e, raws[i], next) by {
        lemma_dir_from_frame(e, d0, d4, raws[i], last0);
        lemma_dir_within_mono(e, raws[i], last0, next);
    }
    lemma_dir_within_mono(e, r, len0 + b.len(), next);
    let raws2 = raws.push(r);
    let dirs2 = dirs.push(read_back_dir(e, w));
    assert forall|i: int| 0 <= i < raws2.len() implies dir_from(e, d4, #[trigger] raws2[i])
        == Ok::<Seq<(u16, FieldValue)>, TiffError>(dirs2[i]) && dir_within(e, raws2[i], next) by {
        if i < raws.len() {
            assert(raws2[i] == raws[i]);
            assert(dirs2[i] == dirs[i]);
        }
    }
}

/// What a writer has produced so far.
pub struct WriterView {
    /// The byte order of the file.
    pub endianness: Endianness,
    /// The bytes of the file.
    pub data: Seq<u8>,
    /// The positions of the directories written, in order.
    pub tables: Seq<int>,
    /// What each directory written decodes to, in order.
    pub dirs: Seq<Seq<(u16, FieldValue)>>,
}

/// A TIFF metadata (header/IFD) writer, over an in-memory stream that it owns.
pub struct MetadataWriter {
    /// The byte order of the file.
    endianness: Endianness,
    /// The file written so far.
    stream: ByteStream,
    /// File position of the last written IFD pointer, which holds 0 until another IFD is
    /// written.
    last_ifd_pointer_position: usize,
    /// The positions of the directories written.
    tables: Ghost<Seq<int>>,
    /// The raw entries of the directories written.
    raws: Ghost<Seq<Seq<RawFieldView>>>,
    /// What the directories written decode to.
    dirs: Ghost<Seq<Seq<(u16, FieldValue)>>>,
}

impl View for MetadataWriter {
    type V = WriterView;

    closed spec fn view(&self) -> WriterView {
        WriterView {
            endianness: self.endianness,
            data: self.stream.data@,
            tables: self.tables@,
            dirs: self.dirs@,
        }
    }
}

impl MetadataWriter {
    /// Whether the writer's stream holds a header and a chain of the directories written,
    /// ending in a zero pointer. Every writer has this property: `write_header` establishes it
    /// and each method keeps it.
    pub closed spec fn wf(&self) -> bool {
        writer_state(
            self.endianness,
            self.stream.data@,
            self.stream.pos as int,
            self.last_ifd_pointer_position as int,
            self.tables@,
            self.raws@,
            self.dirs@,
        )
    }

    /// Starts a file in byte order `endianness`: writes the header, then a zero pointer to
    /// the first IFD, which the first IFD written replaces.
    pub fn write_header(endianness: Endianness) -> (r: Self)
        ensures
            r@.endianness == endianness,
            r@.data == header_bytes(endianness) + u32_to_bytes(endianness, 0),
            r@.tables == Seq::<int>::empty(),
            r@.dirs == Seq::<Seq<(u16, FieldValue)>>::empty(),
            r.wf(),
    {
        let mut stream = ByteStream::empty();
        let written = crate::header::write_header(&mut stream, endianness);
        assert(written is Ok);
        let last_ifd_pointer_position = stream.position();
        let zero = stream.write_u32(endianness, 0);
        assert(zero is Ok);
        let ghost d = stream.data@;
        proof {
            lemma_u32_round_trip(endianness, 0);
            assert(d =~= header_bytes(endianness) + u32_to_bytes(endianness, 0));
            assert(d.subrange(0, 4) =~= header_bytes(endianness));
            assert(d.subrange(4, 8) =~= u32_to_bytes(endianness, 0));
            reveal(writer_state);
        }
        MetadataWriter {
            endianness,
            stream,
            last_ifd_pointer_position,
            tables: Ghost(Seq::empty()),
            raws: Ghost(Seq::empty()),
            dirs: Ghost(Seq::empty()),
        }
    }

    /// The byte order of the file.
    pub fn endianness(&self) -> (r: Endianness)
        ensures
            r == self@.endianness,
    {
        self.endianness
    }

    /// The bytes written so far.
    pub fn bytes(&self) -> (r: &[u8])
        ensures
            r@ == self@.data,
    {
        self.stream.data.as_slice()
    }

    proof fn lemma_output(&self)
        requires
            self.wf(),
        ensures
            self@.data.len() >= 8,
            endian_of_mark(self@.data[0], self@.data[1]) == Some(self@.endianness),
            pointers_linked(self@.endianness, self@.data, self@.tables),
            self@.tables.len() == self@.dirs.len(),
            read_table(self@.endianness, self@.data, 2) == Ok::<
                Seq<Seq<(u16, FieldValue)>>,
                TiffError,
            >(self@.dirs),
    {
        reveal(writer_state);
        let e = self.endianness;
        let d = self.stream.data@;
        let last = self.last_ifd_pointer_position as int;
        let tables = self.tables@;
        let raws = self.raws@;
        lemma_chain_extent(e, d, 4, tables, raws, last);
        lemma_chain_reads(e, d, 4, tables, raws, last, d.len());
        lemma_decode_all(e, d, raws, self.dirs@);
        lemma_u16_round_trip(e, 42);
        assert(d.subrange(0, 4) == header_bytes(e));
        assert(d[0] == header_bytes(e)[0] && d[1] == header_bytes(e)[1]);
        assert(d.subrange(2, 4) =~= header_bytes(e).subrange(2, 4));
        assert(header_bytes(e).subrange(2, 4) =~= crate::byte_order::u16_to_bytes(e, 42));
    }

    /// The bytes of the file.
    pub fn into_inner(self) -> (r: Vec<u8>)
        ensures
            r@ == self@.data,
    {
        self.stream.into_inner()
    }

    /// Writes a single IFD: first the data of its fields that do not fit in their entries,
    /// then its entries, then a zero pointer to the next IFD; the pointer that ended the chain
    /// is then set to this IFD. Returns the position of the IFD.
    pub fn write_ifd(&mut self, ifd: &IFD) -> (r: Result<u64, TiffError>)
        requires
            old(self).wf(),
        ensures
            final(self).wf(),
            final(self)@.endianness == old(self)@.endianness,
            ({
                let e = old(self)@.endianness;
                let len = old(self)@.data.len() as int;
                let s = encode_entries(e, write_order(ifd@), len);
                let t = len + s->Ok_0.1.len();
                let n = s->Ok_0.0.len() as int;
                &&& r is Ok <==> s is Ok && t <= u32::MAX && n <= u16::MAX && t + raw_ifd_size(n)
                    + 4 <= usize::MAX
                &&& r is Ok ==> r->Ok_0 == t && final(self)@.tables == old(self)@.tables.push(t)
                    && final(self)@.dirs == old(self)@.dirs.push(read_back_dir(e, write_order(ifd@)))
                &&& r is Err ==> final(self)@.tables == old(self)@.tables && final(self)@.dirs == old(
                    self,
                )@.dirs
                &&& s is Err ==> r == Err::<u64, TiffError>(s->Err_0)
                &&& s is Ok && t > u32::MAX ==> r == Err::<u64, TiffError>(TiffError::OffsetOverflow)
                &&& s is Ok && t <= u32::MAX && n > u16::MAX ==> r == Err::<u64, TiffError>(
                    TiffError::TooManyEntries { count: n as usize },
                )
            }),
    {
        let e = self.endianness;
        let ghost d0 = self.stream.data@;
        let ghost len0 = d0.len() as int;
        let ghost last0 = self.last_ifd_pointer_position as int;
        let ghost tables = self.tables@;
        let ghost raws = self.raws@;
        let ghost dirs = self.dirs@;
        let ghost w = write_order(ifd@);
        proof {
            lemma_state_facts(e, d0, self.stream.pos as int, last0, tables, raws, dirs);
        }
        let raw_ifd = match ifd.write_to(&mut self.stream, e) {
            Ok(raw) => raw,
            Err(x) => {
                proof {
                    let b = choose|b: Seq<u8>|
                        self.stream.data@ == overwrite(d0, len0, b) && self.stream.pos == len0
                            + b.len();
                    lemma_overwrite_append(d0, b);
                    assert(self.stream.data@.subrange(0, len0) =~= d0);
                    lemma_state_extend(e, d0, self.stream.data@, last0, tables, raws, dirs);
                }
                return Err(x);
            },
        };
        let ghost b = encode_entries(e, w, len0)->Ok_0.1;
        let ghost d1 = self.stream.data@;
        proof {
            lemma_overwrite_append(d0, b);
            assert(d1.subrange(0, len0) =~= d0);
            lemma_state_extend(e, d0, d1, last0, tables, raws, dirs);
        }
        let table_position = self.stream.position();
        if table_position > 0xFFFF_FFFF {
            return Err(TiffError::OffsetOverflow);
        }
        match raw_ifd.to_writer(&mut self.stream, e) {
            Ok(()) => {},
            Err(x) => {
                return Err(x);
            },
        }
        let ghost tb = raw_ifd_bytes(e, raw_ifd@);
        let ghost d2 = self.stream.data@;
        proof {
            lemma_overwrite_append(d1, tb);
            assert(d2.subrange(0, d1.len() as int) =~= d1);
            lemma_state_extend(e, d1, d2, last0, tables, raws, dirs);
        }
        let next_ifd_table_pointer_position = self.stream.position();
        match self.stream.write_u32(e, 0) {
            Ok(()) => {},
            Err(x) => {
                return Err(x);
            },
        }
        let ghost d3 = self.stream.data@;
        let position_after_table = self.stream.position();
        self.stream.seek(self.last_ifd_pointer_position);
        let patched = self.stream.write_u32(e, table_position as u32);
        assert(patched is Ok);
        self.last_ifd_pointer_position = next_ifd_table_pointer_position;
        self.stream.seek(position_after_table);
        proof {
            lemma_overwrite_append(d2, u32_to_bytes(e, 0));
            assert(d3 =~= d0 + b + tb + u32_to_bytes(e, 0));
            lemma_write_order_members(ifd@);
            lemma_write_step(
                e,
                d0,
                b,
                tb,
                self.stream.data@,
                last0,
                table_position as int,
                tables,
                raws,
                dirs,
                w,
                raw_ifd@,
            );
        }
        self.tables = Ghost(self.tables@.push(table_position as int));
        self.raws = Ghost(self.raws@.push(raw_ifd@));
        self.dirs = Ghost(self.dirs@.push(read_back_dir(e, write_order(ifd@))));
        Ok(table_position as u64)
    }

    /// Writes `bytes` at the end of the file without interpreting them (strip or tile data),
    /// returning their offset and length.
    pub fn write_raw_bytes(&mut self, bytes: &[u8]) -> (r: Result<(usize, usize), TiffError>)
        requires
            old(self).wf(),
        ensures
            final(self).wf(),
            final(self)@.endianness == old(self)@.endianness,
            final(self)@.tables == old(self)@.tables,
            final(self)@.dirs == old(self)@.dirs,
            old(self)@.data.len() + bytes@.len() <= usize::MAX <==> r is Ok,
            r is Ok ==> r->Ok_0 == (old(self)@.data.len() as usize, bytes@.len() as usize)
                && final(self)@.data == old(self)@.data + bytes@,
            r is Err ==> r->Err_0 == TiffError::OffsetOverflow && final(self)@.data == old(
                self,
            )@.data,
    {
        let ghost d = self.stream.data@;
        proof {
            lemma_state_facts(
                self.endianness,
                d,
                self.stream.pos as int,
                self.last_ifd_pointer_position as int,
                self.tables@,
                self.raws@,
                self.dirs@,
            );
        }
        let offset = self.stream.position();
        let written = self.stream.write_all(bytes);
        proof {
            if written is Ok {
                lemma_overwrite_append(d, bytes@);
                assert(self.stream.data@.subrange(0, d.len() as int) =~= d);
                lemma_state_extend(
                    self.endianness,
                    d,
                    self.stream.data@,
                    self.last_ifd_pointer_position as int,
                    self.tables@,
                    self.raws@,
                    self.dirs@,
                );
            }
        }
        match written {
            Ok(()) => Ok((offset, bytes.len())),
            Err(x) => Err(x),
        }
    }
}

/// The bytes of a writer form a file that reads back as the directories written, in
/// order: the header names the writer's byte order, and the header's pointer and the pointer
/// after each directory link the directories in the order they were written, the last
/// pointer being 0.
pub proof fn lemma_writer_output(w: &MetadataWriter)
    requires
        w.wf(),
    ensures
        w@.data.len() >= 8,
        endian_of_mark(w@.data[0], w@.data[1]) == Some(w@.endianness),
        pointers_linked(w@.endianness, w@.data, w@.tables),
        w@.tables.len() == w@.dirs.len(),
        read_table(w@.endianness, w@.data, 2) == Ok::<Seq<Seq<(u16, FieldValue)>>, TiffError>(
            w@.dirs,
        ),
{
    w.lemma_output();
}

} // verus!
