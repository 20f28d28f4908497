//! The directory model: an ordered list of tagged fields, decoded from a raw directory
//! and encoded back into one.

use crate::byte_order::Endianness;
use crate::errors::{FieldExtractionError, TiffError};
use crate::ifd_field::{
    encode_field, field_from, field_within, field_writable, lemma_field_from_frame,
    lemma_field_round_trip, read_back, FieldValue, IFDField,
};
use crate::raw_ifd::{raw_entries_view, RawFieldView, RawIFD, RawIFDField};
use crate::stream::{lemma_overwrite_concat, overwrite, ByteStream};
use vstd::prelude::*;

verus! {

/// A single entry (tag, field) in an IFD.
#[derive(Debug, Clone, PartialEq)]
pub struct IFDEntry {
    pub tag: u16,
    pub data: IFDField,
}

impl View for IFDEntry {
    type V = (u16, FieldValue);

    open spec fn view(&self) -> (u16, FieldValue) {
        (self.tag, self.data@)
    }
}

/// The (tag, value) pairs of a list of entries.
pub open spec fn entries_view(v: Seq<IFDEntry>) -> Seq<(u16, FieldValue)> {
    v.map_values(|x: IFDEntry| x@)
}

/// A high-level representation of an Image File Directory.
#[derive(Debug, Clone, PartialEq)]
pub struct IFD {
    pub entries: Vec<IFDEntry>,
}

impl View for IFD {
    type V = Seq<(u16, FieldValue)>;

    open spec fn view(&self) -> Seq<(u16, FieldValue)> {
        entries_view(self.entries@)
    }
}

/// Whether `i` is the index of the first entry of `s` with tag `tag`.
pub open spec fn first_with_tag(s: Seq<(u16, FieldValue)>, tag: u16, i: int) -> bool {
    0 <= i < s.len() && s[i].0 == tag && forall|j: int| 0 <= j < i ==> s[j].0 != tag
}

/// Whether some entry of `s` has tag `tag`.
pub open spec fn has_tag(s: Seq<(u16, FieldValue)>, tag: u16) -> bool {
    exists|i: int| 0 <= i < s.len() && s[i].0 == tag
}

/// The directory decoded from the raw entries `raws` of a stream `d`: the first failing
/// entry decides the error.
pub open spec fn dir_from(e: Endianness, d: Seq<u8>, raws: Seq<RawFieldView>) -> Result<
    Seq<(u16, FieldValue)>,
    TiffError,
>
    decreases raws.len(),
{
    if raws.len() == 0 {
        Ok(Seq::empty())
    } else {
        match dir_from(e, d, raws.drop_last()) {
            Err(x) => Err(x),
            Ok(p) => match field_from(e, d, raws.last()) {
                Err(x) => Err(x),
                Ok(f) => Ok(p.push((raws.last().tag, f))),
            },
        }
    }
}

/// `s` with `x` inserted after every entry whose tag is not greater than its own.
pub open spec fn insert_by_tag(s: Seq<(u16, FieldValue)>, x: (u16, FieldValue)) -> Seq<
    (u16, FieldValue),
>
    decreases s.len(),
{
    if s.len() == 0 {
        seq![x]
    } else if s[0].0 > x.0 {
        seq![x] + s
    } else {
        seq![s[0]] + insert_by_tag(s.drop_first(), x)
    }
}

/// The entries of a directory in the order they are written: `Unrecognized` ones left out,
/// the rest sorted by ascending tag, entries with equal tags kept in their order.
pub open spec fn write_order(s: Seq<(u16, FieldValue)>) -> Seq<(u16, FieldValue)>
    decreases s.len(),
{
    if s.len() == 0 {
        Seq::empty()
    } else if s.last().1 is Unrecognized {
        write_order(s.drop_last())
    } else {
        insert_by_tag(write_order(s.drop_last()), s.last())
    }
}

/// Encoding entries in order from stream position `pos`: the raw entries, and the bytes
/// written out of line after `pos`.
pub open spec fn encode_entries(e: Endianness, s: Seq<(u16, FieldValue)>, pos: int) -> Result<
    (Seq<RawFieldView>, Seq<u8>),
    TiffError,
>
    decreases s.len(),
{
    if s.len() == 0 {
        Ok((Seq::empty(), Seq::empty()))
    } else {
        match encode_entries(e, s.drop_last(), pos) {
            Err(x) => Err(x),
            Ok((raws, bytes)) => match encode_field(e, s.last().0, s.last().1, pos + bytes.len()) {
                Err(x) => Err(x),
                Ok((r, b)) => Ok((raws.push(r), bytes + b)),
            },
        }
    }
}

/// The entries of `s` at the indices `order`.
pub open spec fn pick(s: Seq<(u16, FieldValue)>, order: Seq<usize>) -> Seq<(u16, FieldValue)> {
    Seq::new(order.len(), |k: int| s[order[k] as int])
}

/// Once decoding a prefix of the entries fails, decoding all of them fails the same way.
proof fn lemma_dir_from_error(e: Endianness, d: Seq<u8>, raws: Seq<RawFieldView>, k: int)
    requires
        0 <= k <= raws.len(),
        dir_from(e, d, raws.take(k)) is Err,
    ensures
        dir_from(e, d, raws) == dir_from(e, d, raws.take(k)),
    decreases raws.len() - k,
{
    if k == raws.len() {
        assert(raws.take(k) =~= raws);
    } else {
        assert(raws.take(k + 1).drop_last() =~= raws.take(k));
        lemma_dir_from_error(e, d, raws, k + 1);
    }
}

/// Once encoding a prefix of the entries fails, encoding all of them fails the same way.
proof fn lemma_encode_entries_error(e: Endianness, s: Seq<(u16, FieldValue)>, pos: int, k: int)
    requires
        0 <= k <= s.len(),
        encode_entries(e, s.take(k), pos) is Err,
    ensures
        encode_entries(e, s, pos) == encode_entries(e, s.take(k), pos),
    decreases s.len() - k,
{
    if k == s.len() {
        assert(s.take(k) =~= s);
    } else {
        assert(s.take(k + 1).drop_last() =~= s.take(k));
        lemma_encode_entries_error(e, s, pos, k + 1);
    }
}

/// What a list of entries reads back as, once written in byte order `e`.
pub open spec fn read_back_dir(e: Endianness, s: Seq<(u16, FieldValue)>) -> Seq<(u16, FieldValue)> {
    Seq::new(s.len(), |i: int| (s[i].0, read_back(e, s[i].1)))
}

/// Whether decoding the raw entries `raws` reads no byte at or after `bound`.
pub open spec fn dir_within(e: Endianness, raws: Seq<RawFieldView>, bound: int) -> bool {
    forall|i: int| 0 <= i < raws.len() ==> field_within(e, #[trigger] raws[i], bound)
}

/// Whether every entry of `s` can be written and read back as itself, once `Unrecognized`
/// entries, which are not written, are set aside.
pub open spec fn dir_writable(s: Seq<(u16, FieldValue)>) -> bool {
    forall|i: int|
        0 <= i < s.len() && !(#[trigger] s[i].1 is Unrecognized) ==> field_writable(s[i].1)
}

/// Whether no entry of `s` is `Unrecognized`.
pub open spec fn none_unrecognized(s: Seq<(u16, FieldValue)>) -> bool {
    forall|i: int| 0 <= i < s.len() ==> !(#[trigger] s[i].1 is Unrecognized)
}

/// Decoding entries that read below `bound` gives the same result on two streams that
/// agree below `bound`.
pub proof fn lemma_dir_from_frame(
    e: Endianness,
    d: Seq<u8>,
    d2: Seq<u8>,
    raws: Seq<RawFieldView>,
    bound: int,
)
    requires
        dir_from(e, d, raws) is Ok,
        dir_within(e, raws, bound),
        bound <= d.len(),
        bound <= d2.len(),
        d2.subrange(0, bound) == d.subrange(0, bound),
    ensures
        dir_from(e, d2, raws) == dir_from(e, d, raws),
    decreases raws.len(),
{
    if raws.len() > 0 {
        let init = raws.drop_last();
        assert(dir_within(e, init, bound)) by {
            assert forall|i: int| 0 <= i < init.len() implies field_within(e, #[trigger] init[i], bound) by {
                assert(init[i] == raws[i]);
            }
        }
        lemma_dir_from_frame(e, d, d2, init, bound);
        assert(field_within(e, raws[raws.len() - 1], bound));
        lemma_field_from_frame(e, d, d2, raws.last(), bound);
    }
}

/// Encoded entries decode to what they read back as, against a stream that holds the bytes
/// written out of line at `pos`, and read nothing past those bytes.
pub proof fn lemma_entries_round_trip(e: Endianness, s: Seq<(u16, FieldValue)>, pos: int, d: Seq<u8>)
    requires
        none_unrecognized(s),
        0 <= pos,
        encode_entries(e, s, pos) is Ok,
        pos + encode_entries(e, s, pos)->Ok_0.1.len() <= d.len(),
        d.subrange(pos, pos + encode_entries(e, s, pos)->Ok_0.1.len()) == encode_entries(
            e,
            s,
            pos,
        )->Ok_0.1,
    ensures
        encode_entries(e, s, pos)->Ok_0.0.len() == s.len(),
        forall|i: int|
            0 <= i < s.len() ==> (#[trigger] encode_entries(e, s, pos)->Ok_0.0[i]).value_or_offset.len()
                == 4,
        dir_from(e, d, encode_entries(e, s, pos)->Ok_0.0) == Ok::<
            Seq<(u16, FieldValue)>,
            TiffError,
        >(read_back_dir(e, s)),
        dir_within(e, encode_entries(e, s, pos)->Ok_0.0, pos + encode_entries(e, s, pos)->Ok_0.1.len()),
    decreases s.len(),
{
    if s.len() == 0 {
        assert(read_back_dir(e, s) =~= Seq::<(u16, FieldValue)>::empty());
    } else {
        let init = s.drop_last();
        let (raws0, bytes0) = encode_entries(e, init, pos)->Ok_0;
        let q = pos + bytes0.len();
        let (r, b) = encode_field(e, s.last().0, s.last().1, q)->Ok_0;
        let all = bytes0 + b;
        assert(none_unrecognized(init)) by {
            assert forall|i: int| 0 <= i < init.len() implies !(#[trigger] init[i].1 is Unrecognized) by {
                assert(init[i] == s[i]);
            }
        }
        assert(d.subrange(pos, pos + bytes0.len()) =~= d.subrange(pos, pos + all.len()).subrange(
            0,
            bytes0.len() as int,
        ));
        assert(all.subrange(0, bytes0.len() as int) =~= bytes0);
        lemma_entries_round_trip(e, init, pos, d);
        assert(d.subrange(q, q + b.len()) =~= d.subrange(pos, pos + all.len()).subrange(
            bytes0.len() as int,
            all.len() as int,
        ));
        assert(all.subrange(bytes0.len() as int, all.len() as int) =~= b);
        assert(!(s[s.len() - 1].1 is Unrecognized));
        lemma_field_round_trip(e, s.last().0, s.last().1, q, d);
        let raws = raws0.push(r);
        assert(raws.drop_last() =~= raws0);
        assert(read_back_dir(e, s) =~= read_back_dir(e, init).push((s.last().0, read_back(e, s.last().1))));
        assert forall|i: int| 0 <= i < raws.len() implies field_within(e, #[trigger] raws[i], pos + all.len()) by {
            if i < raws0.len() {
                assert(raws[i] == raws0[i]);
                assert(field_within(e, raws0[i], pos + bytes0.len()));
            }
        }
    }
}

/// Inserting by tag adds one entry.
proof fn lemma_insert_by_tag_len(s: Seq<(u16, FieldValue)>, x: (u16, FieldValue))
    ensures
        insert_by_tag(s, x).len() == s.len() + 1,
        forall|i: int|
            0 <= i < insert_by_tag(s, x).len() ==> #[trigger] insert_by_tag(s, x)[i] == x
                || s.contains(insert_by_tag(s, x)[i]),
    decreases s.len(),
{
    if s.len() > 0 && s[0].0 <= x.0 {
        lemma_insert_by_tag_len(s.drop_first(), x);
        let r = insert_by_tag(s, x);
        assert forall|i: int| 0 <= i < r.len() implies #[trigger] r[i] == x || s.contains(r[i]) by {
            if i == 0 {
                assert(s[0] == r[0]);
            } else {
                let t = insert_by_tag(s.drop_first(), x);
                assert(r[i] == t[i - 1]);
                if t[i - 1] != x {
                    let k = choose|k: int| 0 <= k < s.drop_first().len() && s.drop_first()[k] == t[i - 1];
                    assert(s[k + 1] == r[i]);
                }
            }
        }
    } else if s.len() > 0 {
        let r = insert_by_tag(s, x);
        assert forall|i: int| 0 <= i < r.len() implies #[trigger] r[i] == x || s.contains(r[i]) by {
            if i > 0 {
                assert(r[i] == s[i - 1]);
            }
        }
    }
}

/// The entries written are entries of the directory, none of them `Unrecognized`.
pub proof fn lemma_write_order_members(s: Seq<(u16, FieldValue)>)
    ensures
        forall|i: int|
            0 <= i < write_order(s).len() ==> s.contains(#[trigger] write_order(s)[i]),
        none_unrecognized(write_order(s)),
    decreases s.len(),
{
    if s.len() > 0 {
        let init = s.drop_last();
        lemma_write_order_members(init);
        let w0 = write_order(init);
        assert forall|i: int| 0 <= i < w0.len() implies s.contains(#[trigger] w0[i]) by {
            let k = choose|k: int| 0 <= k < init.len() && init[k] == w0[i];
            assert(s[k] == w0[i]);
        }
        if !(s.last().1 is Unrecognized) {
            lemma_insert_by_tag_len(w0, s.last());
            let w = write_order(s);
            assert forall|i: int| 0 <= i < w.len() implies s.contains(#[trigger] w[i]) && !(w[i].1 is Unrecognized) by {
                if w[i] == s.last() {
                    assert(s[s.len() - 1] == w[i]);
                } else {
                    let k = choose|k: int| 0 <= k < w0.len() && w0[k] == w[i];
                    assert(s.contains(w0[k]));
                    assert(!(w0[k].1 is Unrecognized));
                }
            }
        }
    }
}

/// Round trip of a directory: the raw entries that encoding a directory from stream position
/// `pos` produces decode, against a stream that holds the bytes written out of line at `pos`,
/// to its entries other than `Unrecognized` ones, sorted by ascending tag.
pub proof fn lemma_directory_round_trip(e: Endianness, s: Seq<(u16, FieldValue)>, pos: int, d: Seq<u8>)
    requires
        dir_writable(s),
        0 <= pos,
        encode_entries(e, write_order(s), pos) is Ok,
        pos + encode_entries(e, write_order(s), pos)->Ok_0.1.len() <= d.len(),
        d.subrange(pos, pos + encode_entries(e, write_order(s), pos)->Ok_0.1.len())
            == encode_entries(e, write_order(s), pos)->Ok_0.1,
    ensures
        dir_from(e, d, encode_entries(e, write_order(s), pos)->Ok_0.0) == Ok::<
            Seq<(u16, FieldValue)>,
            TiffError,
        >(write_order(s)),
{
    let w = write_order(s);
    lemma_write_order_members(s);
    lemma_entries_round_trip(e, w, pos, d);
    assert forall|i: int| 0 <= i < w.len() implies #[trigger] read_back(e, w[i].1) == w[i].1 by {
        let k = choose|k: int| 0 <= k < s.len() && s[k] == w[i];
        assert(!(s[k].1 is Unrecognized));
        assert(field_writable(s[k].1));
        lemma_encode_entries_count(e, w, pos, i);
        crate::ifd_field::lemma_read_back_writable(e, w[i].1);
    }
    assert(read_back_dir(e, w) =~= w);
}

/// Each entry that encoding succeeded on has a count that fits in 32 bits.
proof fn lemma_encode_entries_count(e: Endianness, s: Seq<(u16, FieldValue)>, pos: int, i: int)
    requires
        encode_entries(e, s, pos) is Ok,
        0 <= i < s.len(),
    ensures
        crate::ifd_field::field_count(s[i].1) <= u32::MAX,
    decreases s.len(),
{
    if i < s.len() - 1 {
        assert(s.drop_last()[i] == s[i]);
        lemma_encode_entries_count(e, s.drop_last(), pos, i);
    }
}

/// A writable directory whose encoding succeeded reads back as its entries in write order;
/// with the writer's record of what each directory reads back as, the file reads back as the
/// directories written.
pub proof fn lemma_read_back_dir_writable(e: Endianness, s: Seq<(u16, FieldValue)>, pos: int)
    requires
        dir_writable(s),
        encode_entries(e, write_order(s), pos) is Ok,
    ensures
        read_back_dir(e, write_order(s)) == write_order(s),
{
    let w = write_order(s);
    lemma_write_order_members(s);
    assert forall|i: int| 0 <= i < w.len() implies #[trigger] read_back(e, w[i].1) == w[i].1 by {
        let k = choose|k: int| 0 <= k < s.len() && s[k] == w[i];
        assert(!(s[k].1 is Unrecognized));
        lemma_encode_entries_count(e, w, pos, i);
        crate::ifd_field::lemma_read_back_writable(e, w[i].1);
    }
    assert(read_back_dir(e, w) =~= w);
}

/// The number of entries of `s` that are `Unrecognized`.
pub open spec fn unrecognized_count(s: Seq<(u16, FieldValue)>) -> nat
    decreases s.len(),
{
    if s.len() == 0 {
        0
    } else {
        unrecognized_count(s.drop_last()) + if s.last().1 is Unrecognized {
            1nat
        } else {
            0nat
        }
    }
}

/// Writing a directory leaves out exactly its `Unrecognized` entries: one more of them at
/// the end changes nothing that is written, and the entries written are all the others.
pub proof fn lemma_unrecognized_left_out(s: Seq<(u16, FieldValue)>, x: (u16, FieldValue))
    requires
        x.1 is Unrecognized,
    ensures
        write_order(s.push(x)) == write_order(s),
        write_order(s).len() + unrecognized_count(s) == s.len(),
    decreases s.len(),
{
    assert(s.push(x).drop_last() =~= s);
    if s.len() > 0 {
        lemma_unrecognized_left_out(s.drop_last(), x);
        if !(s.last().1 is Unrecognized) {
            lemma_insert_by_tag_len(write_order(s.drop_last()), s.last());
        }
    }
}

/// The entries of `s` that are not `Unrecognized`, in order.
pub open spec fn recognized_entries(s: Seq<(u16, FieldValue)>) -> Seq<(u16, FieldValue)>
    decreases s.len(),
{
    if s.len() == 0 {
        Seq::empty()
    } else if s.last().1 is Unrecognized {
        recognized_entries(s.drop_last())
    } else {
        recognized_entries(s.drop_last()).push(s.last())
    }
}

/// Inserting by tag inserts at some index.
proof fn lemma_insert_by_tag_index(s: Seq<(u16, FieldValue)>, x: (u16, FieldValue)) -> (k: int)
    ensures
        0 <= k <= s.len(),
        insert_by_tag(s, x) == s.insert(k, x),
    decreases s.len(),
{
    if s.len() == 0 {
        assert(seq![x] =~= s.insert(0, x));
        0
    } else if s[0].0 > x.0 {
        assert(seq![x] + s =~= s.insert(0, x));
        0
    } else {
        let k = lemma_insert_by_tag_index(s.drop_first(), x);
        assert(seq![s[0]] + s.drop_first().insert(k, x) =~= s.insert(k + 1, x));
        k + 1
    }
}

/// Inserting an element anywhere adds it to the multiset of the elements.
proof fn lemma_insert_to_multiset(t: Seq<(u16, FieldValue)>, k: int, x: (u16, FieldValue))
    requires
        0 <= k <= t.len(),
    ensures
        t.insert(k, x).to_multiset() =~= t.to_multiset().insert(x),
{
    let u = t.insert(k, x);
    assert(u.remove(k) =~= t);
    u.to_multiset_ensures();
    assert(u[k] == x);
    assert(u.contains(x));
    assert(u.to_multiset().count(x) > 0);
}

/// The entries written are those of the directory that are not `Unrecognized`, each as
/// often as it occurs there: only their order may differ.
pub proof fn lemma_write_order_rearranges(s: Seq<(u16, FieldValue)>)
    ensures
        write_order(s).to_multiset() =~= recognized_entries(s).to_multiset(),
    decreases s.len(),
{
    if s.len() == 0 {
        assert(write_order(s) =~= recognized_entries(s));
    } else {
        let init = s.drop_last();
        lemma_write_order_rearranges(init);
        if !(s.last().1 is Unrecognized) {
            let k = lemma_insert_by_tag_index(write_order(init), s.last());
            lemma_insert_to_multiset(write_order(init), k, s.last());
            recognized_entries(init).to_multiset_ensures();
        }
    }
}

/// The entries written are in ascending order of tag.
pub proof fn lemma_write_order_sorted(s: Seq<(u16, FieldValue)>)
    ensures
        forall|i: int, j: int|
            0 <= i < j < write_order(s).len() ==> write_order(s)[i].0 <= write_order(s)[j].0,
    decreases s.len(),
{
    if s.len() > 0 {
        lemma_write_order_sorted(s.drop_last());
        if !(s.last().1 is Unrecognized) {
            lemma_insert_sorted(write_order(s.drop_last()), s.last());
        }
    }
}

/// Inserting by tag into a sorted list keeps it sorted.
proof fn lemma_insert_sorted(s: Seq<(u16, FieldValue)>, x: (u16, FieldValue))
    requires
        forall|i: int, j: int| 0 <= i < j < s.len() ==> s[i].0 <= s[j].0,
    ensures
        forall|i: int, j: int|
            0 <= i < j < insert_by_tag(s, x).len() ==> insert_by_tag(s, x)[i].0 <= insert_by_tag(
                s,
                x,
            )[j].0,
    decreases s.len(),
{
    lemma_insert_by_tag_len(s, x);
    if s.len() > 0 && s[0].0 <= x.0 {
        let t = s.drop_first();
        lemma_insert_sorted(t, x);
        lemma_insert_by_tag_len(t, x);
        let r = insert_by_tag(s, x);
        assert forall|i: int, j: int| 0 <= i < j < r.len() implies r[i].0 <= r[j].0 by {
            if i == 0 {
                let y = insert_by_tag(t, x)[j - 1];
                assert(r[j] == y);
                if y != x {
                    let k = choose|k: int| 0 <= k < t.len() && t[k] == y;
                    assert(s[k + 1] == y);
                }
            } else {
                assert(r[i] == insert_by_tag(t, x)[i - 1]);
                assert(r[j] == insert_by_tag(t, x)[j - 1]);
            }
        }
    }
}

impl IFD {
    /// Create an empty IFD.
    pub fn new() -> (r: Self)
        ensures
            r@ == Seq::<(u16, FieldValue)>::empty(),
    {
        let r = IFD { entries: Vec::new() };
        assert(r@ =~= Seq::<(u16, FieldValue)>::empty());
        r
    }

    /// Appends a field with tag `tag`.
    pub fn add_tag(&mut self, tag: u16, data: IFDField)
        ensures
            final(self)@ == old(self)@.push((tag, data@)),
    {
        self.entries.push(IFDEntry { tag, data });
        assert(self@ =~= old(self)@.push((tag, data@)));
    }

    /// The index of the first entry with tag `tag`, if any.
    fn position_of(&self, tag: u16) -> (r: Option<usize>)
        ensures
            r is None <==> !has_tag(self@, tag),
            r is Some ==> first_with_tag(self@, tag, r->0 as int),
    {
        let mut i: usize = 0;
        while i < self.entries.len()
            invariant
                i <= self@.len(),
                self@.len() == self.entries@.len(),
                forall|j: int| 0 <= j < i ==> self@[j].0 != tag,
            decreases self.entries@.len() - i,
        {
            if self.entries[i].tag == tag {
                assert(self@[i as int] == self.entries@[i as int]@);
                return Some(i);
            }
            i += 1;
        }
        None
    }

    /// The field of the first entry with tag `tag`, if any.
    pub fn get_tag(&self, tag: u16) -> (r: Option<&IFDField>)
        ensures
            r is None <==> !has_tag(self@, tag),
            r is Some ==> exists|i: int| first_with_tag(self@, tag, i) && r->0@ == self@[i].1,
    {
        match self.position_of(tag) {
            Some(i) => Some(&self.entries[i].data),
            None => None,
        }
    }

    /// The field of the first entry with tag `tag`, if any, to change in place.
    pub fn get_tag_mut(&mut self, tag: u16) -> (r: Option<&mut IFDField>)
        ensures
            r is None <==> !has_tag(old(self)@, tag),
            r is None ==> final(self)@ == old(self)@,
            r is Some ==> exists|i: int|
                first_with_tag(old(self)@, tag, i) && (*r->0)@ == old(self)@[i].1
                    && final(self)@ == old(self)@.update(i, (tag, (*final(r->0))@)),
    {
        match self.position_of(tag) {
            Some(i) => {
                let entry = vec_index_mut(&mut self.entries, i);
                Some(&mut entry.data)
            },
            None => None,
        }
    }

    /// The field of the first entry with tag `tag`, or `MissingTag`.
    pub fn get(&self, tag: u16) -> (r: Result<&IFDField, FieldExtractionError>)
        ensures
            r is Err <==> !has_tag(self@, tag),
            r is Err ==> r->Err_0 == (FieldExtractionError::MissingTag { tag }),
            r is Ok ==> exists|i: int| first_with_tag(self@, tag, i) && r->Ok_0@ == self@[i].1,
    {
        match self.get_tag(tag) {
            Some(f) => Ok(f),
            None => Err(FieldExtractionError::MissingTag { tag }),
        }
    }

    /// Reads the fields of `raw_ifd` from `reader`, dereferencing the offsets they hold.
    pub fn read_from(reader: &mut ByteStream, raw_ifd: &RawIFD, e: Endianness) -> (r: Result<
        Self,
        TiffError,
    >)
        ensures
            final(reader).data@ == old(reader).data@,
            ({
                let s = dir_from(e, old(reader).data@, raw_ifd@);
                &&& s is Ok <==> r is Ok
                &&& r is Ok ==> r->Ok_0@ == s->Ok_0
                &&& r is Err ==> r->Err_0 == s->Err_0
            }),
    {
        let ghost d = reader.data@;
        let ghost raws = raw_ifd@;
        let n = raw_ifd.entries.len();
        let mut entries: Vec<IFDEntry> = Vec::with_capacity(n);
        let mut i: usize = 0;
        assert(raws.take(0) =~= Seq::<RawFieldView>::empty());
        assert(entries_view(entries@) =~= Seq::<(u16, FieldValue)>::empty());
        while i < n
            invariant
                reader.data@ == d,
                d == old(reader).data@,
                raws == raw_ifd@,
                n == raws.len(),
                i <= n,
                dir_from(e, d, raws.take(i as int)) == Ok::<Seq<(u16, FieldValue)>, TiffError>(
                    entries_view(entries@),
                ),
            decreases n - i,
        {
            let field = &raw_ifd.entries[i];
            assert(raws.take(i + 1).drop_last() =~= raws.take(i as int));
            assert(raws.take(i + 1).last() == field@);
            match IFDField::read_from(reader, field, e) {
                Ok(data) => {
                    entries.push(IFDEntry { tag: field.tag, data });
                    assert(entries_view(entries@) =~= dir_from(e, d, raws.take(i as int))->Ok_0.push(
                        (field.tag, data@),
                    ));
                },
                Err(x) => {
                    proof {
                        lemma_dir_from_error(e, d, raws, i + 1);
                    }
                    return Err(x);
                },
            }
            i += 1;
        }
        assert(raws.take(n as int) =~= raws);
        Ok(IFD { entries })
    }
}

impl IFD {
    /// The indices of the entries in the order they are written.
    fn write_order_indices(&self) -> (r: Vec<usize>)
        ensures
            pick(self@, r@) == write_order(self@),
            forall|k: int|
                0 <= k < r@.len() ==> #[trigger] r@[k] < self@.len() && !(self@[r@[k] as int].1 is Unrecognized),
    {
        let n = self.entries.len();
        let mut order: Vec<usize> = Vec::new();
        let mut i: usize = 0;
        assert(self@.take(0) =~= Seq::<(u16, FieldValue)>::empty());
        assert(pick(self@, order@) =~= Seq::<(u16, FieldValue)>::empty());
        while i < n
            invariant
                i <= n,
                n == self@.len(),
                n == self.entries@.len(),
                pick(self@, order@) == write_order(self@.take(i as int)),
                forall|k: int|
                    0 <= k < order@.len() ==> #[trigger] order@[k] < i && !(self@[order@[k] as int].1 is Unrecognized),
            decreases n - i,
        {
            assert(self@.take(i + 1).drop_last() =~= self@.take(i as int));
            assert(self@.take(i + 1).last() == self@[i as int]);
            assert(self@[i as int] == self.entries@[i as int]@);
            let unrecognized = matches!(self.entries[i].data, IFDField::Unrecognized { .. });
            if !unrecognized {
                let tag = self.entries[i].tag;
                let ghost s = pick(self@, order@);
                let ghost x = self@[i as int];
                let mut k: usize = 0;
                assert(s.skip(0) =~= s);
                assert(s.take(0) + s =~= s);
                while k < order.len() && self.entries[order[k]].tag <= tag
                    invariant
                        k <= order@.len(),
                        s == pick(self@, order@),
                        x == self@[i as int],
                        x.0 == tag,
                        n == self@.len(),
                        n == self.entries@.len(),
                        i < n,
                        forall|j: int| 0 <= j < order@.len() ==> #[trigger] order@[j] < i,
                        insert_by_tag(s, x) == s.take(k as int) + insert_by_tag(s.skip(k as int), x),
                    decreases order@.len() - k,
                {
                    assert(s[k as int] == self@[order@[k as int] as int]);
                    assert(self@[order@[k as int] as int] == self.entries@[order@[k as int] as int]@);
                    assert(s.skip(k as int)[0] == s[k as int]);
                    assert(s.skip(k as int).drop_first() =~= s.skip(k + 1));
                    assert(s.take(k + 1) =~= s.take(k as int) + seq![s[k as int]]);
                    k += 1;
                }
                proof {
                    if k < order@.len() {
                        assert(s[k as int] == self@[order@[k as int] as int]);
                        assert(self@[order@[k as int] as int] == self.entries@[order@[k as int] as int]@);
                        assert(s.skip(k as int)[0] == s[k as int]);
                    } else {
                        assert(s.skip(k as int) =~= Seq::<(u16, FieldValue)>::empty());
                    }
                }
                order.insert(k, i);
                assert(pick(self@, order@) =~= s.take(k as int) + (seq![x] + s.skip(k as int)));
            } else {
                assert(self@[i as int].1 is Unrecognized);
            }
            i += 1;
        }
        assert(self@.take(n as int) =~= self@);
        order
    }

    /// Writes the fields into `writer`, returning a raw IFD describing their locations or data.
    /// `Unrecognized` fields are left out, and the others are written by ascending tag.
    pub fn write_to(&self, writer: &mut ByteStream, e: Endianness) -> (r: Result<
        RawIFD,
        TiffError,
    >)
        ensures
            ({
                let s = encode_entries(e, write_order(self@), old(writer).pos as int);
                &&& s is Ok <==> r is Ok
                &&& r is Ok ==> r->Ok_0@ == s->Ok_0.0 && final(writer).data@ == overwrite(
                    old(writer).data@,
                    old(writer).pos as int,
                    s->Ok_0.1,
                ) && final(writer).pos == old(writer).pos + s->Ok_0.1.len()
                &&& r is Err ==> r->Err_0 == s->Err_0
            }),
            r is Err ==> exists|b: Seq<u8>|
                final(writer).data@ == overwrite(old(writer).data@, old(writer).pos as int, b)
                    && final(writer).pos == old(writer).pos + b.len(),
    {
        let order = self.write_order_indices();
        let ghost w = write_order(self@);
        let ghost d0 = writer.data@;
        let ghost pos0 = writer.pos as int;
        let mut raws: Vec<RawIFDField> = Vec::new();
        let ghost mut written: Seq<u8> = Seq::empty();
        let mut k: usize = 0;
        assert(w.take(0) =~= Seq::<(u16, FieldValue)>::empty());
        assert(raw_entries_view(raws@) =~= Seq::<RawFieldView>::empty());
        assert(overwrite(d0, pos0, Seq::empty()) =~= d0);
        while k < order.len()
            invariant
                k <= order@.len(),
                w == write_order(self@),
                w == pick(self@, order@),
                d0 == old(writer).data@,
                pos0 == old(writer).pos,
                forall|j: int|
                    0 <= j < order@.len() ==> #[trigger] order@[j] < self@.len() && !(self@[order@[j] as int].1 is Unrecognized),
                self@.len() == self.entries@.len(),
                encode_entries(e, w.take(k as int), pos0) == Ok::<
                    (Seq<RawFieldView>, Seq<u8>),
                    TiffError,
                >((raw_entries_view(raws@), written)),
                writer.data@ == overwrite(d0, pos0, written),
                writer.pos == pos0 + written.len(),
            decreases order@.len() - k,
        {
            let entry = &self.entries[order[k]];
            assert(self@[order@[k as int] as int] == self.entries@[order@[k as int] as int]@);
            assert(w.take(k + 1).drop_last() =~= w.take(k as int));
            assert(w.take(k + 1).last() == w[k as int]);
            let ghost before = writer.data@;
            match entry.data.write_to(writer, e, entry.tag) {
                Ok(raw) => {
                    let ghost b = encode_field(e, entry.tag, entry.data@, pos0 + written.len())->Ok_0.1;
                    proof {
                        lemma_overwrite_concat(d0, pos0, written, b);
                    }
                    raws.push(raw);
                    proof {
                        written = written + b;
                    }
                    assert(raw_entries_view(raws@) =~= encode_entries(e, w.take(k as int), pos0)->Ok_0.0.push(raw@));
                },
                Err(x) => {
                    proof {
                        lemma_encode_entries_error(e, w, pos0, k + 1);
                        assert(writer.data@ == overwrite(d0, pos0, written));
                    }
                    return Err(x);
                },
            }
            k += 1;
        }
        assert(w.take(k as int) =~= w);
        Ok(RawIFD { entries: raws })
    }
}

/// Borrows element `i` of `v` mutably.
fn vec_index_mut<T>(v: &mut Vec<T>, i: usize) -> (r: &mut T)
    requires
        i < old(v)@.len(),
    ensures
        *r == old(v)@[i as int],
        final(v)@ == old(v)@.update(i as int, *final(r)),
{
    &mut v[i]
}

} // verus!
