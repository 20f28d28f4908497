//! Typed field values, and their conversion from and to raw entries: decoded inline from
//! the 4-byte slot or read at the offset it holds, by one predicate in both directions.

use crate::byte_order::{
    flat, lemma_flat_push, lemma_flat_unit, u16_from_bytes, u16_to_bytes, u32_from_bytes,
    u32_to_bytes, Endianness,
};
use crate::constants::{
    IFD_TYPE_ASCII, IFD_TYPE_BYTE, IFD_TYPE_DOUBLE, IFD_TYPE_FLOAT, IFD_TYPE_LONG,
    IFD_TYPE_RATIONAL, IFD_TYPE_SBYTE, IFD_TYPE_SHORT, IFD_TYPE_SLONG, IFD_TYPE_SRATIONAL,
    IFD_TYPE_SSHORT, IFD_TYPE_UNDEFINED,
};
use crate::errors::TiffError;
use crate::raw_ifd::{RawFieldView, RawIFDField};
use crate::stream::{overwrite, ByteStream};
use vstd::prelude::*;
use vstd::utf8::{
    char_is_scalar, decode_utf8, encode_scalar, encode_utf8, encode_utf8_decode_utf8,
    encode_utf8_valid_utf8, has_width_1_encoding, valid_utf8,
};

verus! {

/// Whether `count` units of type `tag_type` take more than the 4-byte slot of an entry, so
/// that the slot holds the offset of the data instead of the data.
pub open spec fn exceeds_inline(tag_type: u16, count: u32) -> bool {
    if tag_type == IFD_TYPE_BYTE || tag_type == IFD_TYPE_ASCII || tag_type == IFD_TYPE_SBYTE
        || tag_type == IFD_TYPE_UNDEFINED {
        count > 4
    } else if tag_type == IFD_TYPE_SHORT || tag_type == IFD_TYPE_SSHORT {
        count > 2
    } else if tag_type == IFD_TYPE_LONG || tag_type == IFD_TYPE_SLONG || tag_type
        == IFD_TYPE_FLOAT {
        count > 1
    } else {
        tag_type == IFD_TYPE_RATIONAL || tag_type == IFD_TYPE_SRATIONAL || tag_type
            == IFD_TYPE_DOUBLE
    }
}

/// Decide whether or not the specified count of this tag type exceeds the 4-byte
/// `value_or_offset` field within the IFD tag field.
pub fn tag_exceeds_ifd_field(tag_type: u16, count: u32) -> (r: bool)
    ensures
        r == exceeds_inline(tag_type, count),
{
    if tag_type == IFD_TYPE_BYTE || tag_type == IFD_TYPE_ASCII || tag_type == IFD_TYPE_SBYTE
        || tag_type == IFD_TYPE_UNDEFINED {
        count > 4
    } else if tag_type == IFD_TYPE_SHORT || tag_type == IFD_TYPE_SSHORT {
        count > 2
    } else if tag_type == IFD_TYPE_LONG || tag_type == IFD_TYPE_SLONG || tag_type
        == IFD_TYPE_FLOAT {
        count > 1
    } else {
        tag_type == IFD_TYPE_RATIONAL || tag_type == IFD_TYPE_SRATIONAL || tag_type
            == IFD_TYPE_DOUBLE
    }
}

/// IFD field data, a dynamic type representing TIFF's array fields.
#[derive(Debug, Clone, PartialEq)]
pub enum IFDField {
    /// Undefined (but not unrecognized) data. May contain binaries.
    Undefined(Vec<u8>),
    Byte(Vec<u8>),
    Ascii(Vec<String>),
    Short(Vec<u16>),
    Long(Vec<u32>),
    Rational(Vec<(u32, u32)>),
    /// The `type` field of the tag was unrecognized when reading. This variant is left out
    /// when writing, as there is no way to know how to write it correctly.
    Unrecognized {
        /// Integer representing the type of this tag.
        tag_type: u16,
        /// Integer representing the quantity (not byte count) of this tag.
        count: u32,
        /// Either the tag's value, or a pointer to a location within the file.
        value_or_offset: [u8; 4],
    },
}

/// The contents of a field.
pub enum FieldValue {
    Undefined(Seq<u8>),
    Byte(Seq<u8>),
    Ascii(Seq<Seq<char>>),
    Short(Seq<u16>),
    Long(Seq<u32>),
    Rational(Seq<(u32, u32)>),
    Unrecognized { tag_type: u16, count: u32, value_or_offset: Seq<u8> },
}

/// The characters of each string.
pub open spec fn strings_view(v: Seq<String>) -> Seq<Seq<char>> {
    v.map_values(|s: String| s@)
}

impl View for IFDField {
    type V = FieldValue;

    open spec fn view(&self) -> FieldValue {
        match self {
            IFDField::Undefined(v) => FieldValue::Undefined(v@),
            IFDField::Byte(v) => FieldValue::Byte(v@),
            IFDField::Ascii(v) => FieldValue::Ascii(strings_view(v@)),
            IFDField::Short(v) => FieldValue::Short(v@),
            IFDField::Long(v) => FieldValue::Long(v@),
            IFDField::Rational(v) => FieldValue::Rational(v@),
            IFDField::Unrecognized { tag_type, count, value_or_offset } => FieldValue::Unrecognized {
                tag_type: *tag_type,
                count: *count,
                value_or_offset: value_or_offset@,
            },
        }
    }
}

/// The type code of a field.
pub open spec fn field_type(f: FieldValue) -> u16 {
    match f {
        FieldValue::Undefined(_) => IFD_TYPE_UNDEFINED,
        FieldValue::Byte(_) => IFD_TYPE_BYTE,
        FieldValue::Ascii(_) => IFD_TYPE_ASCII,
        FieldValue::Short(_) => IFD_TYPE_SHORT,
        FieldValue::Long(_) => IFD_TYPE_LONG,
        FieldValue::Rational(_) => IFD_TYPE_RATIONAL,
        FieldValue::Unrecognized { tag_type, .. } => tag_type,
    }
}

/// The bytes that store a list of strings: each one's UTF-8 encoding, followed by a NUL.
pub open spec fn ascii_bytes(strings: Seq<Seq<char>>) -> Seq<u8>
    decreases strings.len(),
{
    if strings.len() == 0 {
        Seq::empty()
    } else {
        ascii_bytes(strings.drop_last()) + encode_utf8(strings.last()) + seq![0u8]
    }
}

/// The bytes that store the data of a field, in byte order `e`.
pub open spec fn field_bytes(e: Endianness, f: FieldValue) -> Seq<u8> {
    match f {
        FieldValue::Undefined(b) => b,
        FieldValue::Byte(b) => b,
        FieldValue::Ascii(s) => ascii_bytes(s),
        FieldValue::Short(v) => flat(2, v.len() as int, |u: int| u16_to_bytes(e, v[u])),
        FieldValue::Long(v) => flat(4, v.len() as int, |u: int| u32_to_bytes(e, v[u])),
        FieldValue::Rational(v) => flat(
            8,
            v.len() as int,
            |u: int| u32_to_bytes(e, v[u].0) + u32_to_bytes(e, v[u].1),
        ),
        FieldValue::Unrecognized { value_or_offset, .. } => value_or_offset,
    }
}

/// The value of the `count` slot of a field: its number of units, where a string counts its
/// bytes and its NUL.
pub open spec fn field_count(f: FieldValue) -> int {
    match f {
        FieldValue::Undefined(b) => b.len() as int,
        FieldValue::Byte(b) => b.len() as int,
        FieldValue::Ascii(s) => ascii_bytes(s).len() as int,
        FieldValue::Short(v) => v.len() as int,
        FieldValue::Long(v) => v.len() as int,
        FieldValue::Rational(v) => v.len() as int,
        FieldValue::Unrecognized { count, .. } => count as int,
    }
}

/// Whether a type code is a signed or floating-point type, which is not decoded.
pub open spec fn is_unsupported_type(t: u16) -> bool {
    t == IFD_TYPE_SBYTE || t == IFD_TYPE_SSHORT || t == IFD_TYPE_SLONG || t == IFD_TYPE_SRATIONAL
        || t == IFD_TYPE_FLOAT || t == IFD_TYPE_DOUBLE
}

/// Whether a type code is one that decodes to a typed value.
pub open spec fn is_known_type(t: u16) -> bool {
    t == IFD_TYPE_BYTE || t == IFD_TYPE_ASCII || t == IFD_TYPE_SHORT || t == IFD_TYPE_LONG || t
        == IFD_TYPE_RATIONAL || t == IFD_TYPE_UNDEFINED
}

/// The number of bytes that decoding `count` units of type `t` reads: the 4 literal bytes
/// for an unknown type.
pub open spec fn units_size(t: u16, count: u32) -> int {
    if t == IFD_TYPE_BYTE || t == IFD_TYPE_ASCII || t == IFD_TYPE_UNDEFINED {
        count as int
    } else if t == IFD_TYPE_SHORT {
        2 * count
    } else if t == IFD_TYPE_LONG {
        4 * count
    } else if t == IFD_TYPE_RATIONAL {
        8 * count
    } else {
        4
    }
}

/// The strings of a run of bytes that has no NUL, if it has any: none when it is empty or
/// not valid UTF-8.
pub open spec fn ascii_run(run: Seq<u8>) -> Seq<Seq<char>> {
    if run.len() > 0 && valid_utf8(run) {
        seq![decode_utf8(run)]
    } else {
        Seq::empty()
    }
}

/// The strings of `b` when the run `run` was read before it: the bytes are split at each
/// NUL, and each run is decoded by `ascii_run`.
pub open spec fn ascii_strings_after(b: Seq<u8>, run: Seq<u8>) -> Seq<Seq<char>>
    decreases b.len(),
{
    if b.len() == 0 {
        ascii_run(run)
    } else if b[0] == 0 {
        ascii_run(run) + ascii_strings_after(b.drop_first(), Seq::empty())
    } else {
        ascii_strings_after(b.drop_first(), run.push(b[0]))
    }
}

/// The strings stored in an ASCII field's bytes.
pub open spec fn ascii_strings(b: Seq<u8>) -> Seq<Seq<char>> {
    ascii_strings_after(b, Seq::empty())
}

/// The value of `count` units of type `t` decoded from `src`, which holds
/// `units_size(t, count)` bytes.
pub open spec fn units_from(e: Endianness, t: u16, count: u32, src: Seq<u8>) -> FieldValue {
    if t == IFD_TYPE_BYTE {
        FieldValue::Byte(src)
    } else if t == IFD_TYPE_UNDEFINED {
        FieldValue::Undefined(src)
    } else if t == IFD_TYPE_ASCII {
        FieldValue::Ascii(ascii_strings(src))
    } else if t == IFD_TYPE_SHORT {
        FieldValue::Short(
            Seq::new(count as nat, |i: int| u16_from_bytes(e, src.subrange(2 * i, 2 * i + 2))),
        )
    } else if t == IFD_TYPE_LONG {
        FieldValue::Long(
            Seq::new(count as nat, |i: int| u32_from_bytes(e, src.subrange(4 * i, 4 * i + 4))),
        )
    } else if t == IFD_TYPE_RATIONAL {
        FieldValue::Rational(
            Seq::new(
                count as nat,
                |i: int|
                    (
                        u32_from_bytes(e, src.subrange(8 * i, 8 * i + 4)),
                        u32_from_bytes(e, src.subrange(8 * i + 4, 8 * i + 8)),
                    ),
            ),
        )
    } else {
        FieldValue::Unrecognized { tag_type: t, count, value_or_offset: src }
    }
}

/// The result of decoding `count` units of type `t` from the bytes of `d` at `p`.
pub open spec fn read_units(e: Endianness, t: u16, count: u32, d: Seq<u8>, p: int) -> Result<
    FieldValue,
    TiffError,
> {
    if is_unsupported_type(t) {
        Err(TiffError::UnsupportedType { tag_type: t })
    } else if p + units_size(t, count) > d.len() {
        Err(TiffError::UnexpectedEof)
    } else {
        Ok(units_from(e, t, count, d.subrange(p, p + units_size(t, count))))
    }
}

/// The result of decoding a raw entry of a stream `d`: from its slot, or from the offset
/// that its slot holds.
pub open spec fn field_from(e: Endianness, d: Seq<u8>, raw: RawFieldView) -> Result<
    FieldValue,
    TiffError,
> {
    if exceeds_inline(raw.tag_type, raw.count) {
        read_units(
            e,
            raw.tag_type,
            raw.count,
            d,
            u32_from_bytes(e, raw.value_or_offset) as int,
        )
    } else {
        read_units(e, raw.tag_type, raw.count, raw.value_or_offset, 0)
    }
}

/// The view of a decoding result.
pub open spec fn field_result_view(r: Result<IFDField, TiffError>) -> Result<
    FieldValue,
    TiffError,
> {
    match r {
        Ok(f) => Ok(f@),
        Err(x) => Err(x),
    }
}

/// The four bytes of a slot that holds `b` inline, padded with zeros.
pub open spec fn pad4(b: Seq<u8>) -> Seq<u8> {
    Seq::new(4, |i: int| if i < b.len() { b[i] } else { 0u8 })
}

/// Encoding a field with tag `tag` when the stream position is `pos`: the raw entry, and the
/// bytes to write out of line at `pos`.
pub open spec fn encode_field(e: Endianness, tag: u16, f: FieldValue, pos: int) -> Result<
    (RawFieldView, Seq<u8>),
    TiffError,
> {
    if field_count(f) > u32::MAX {
        Err(TiffError::CountOverflow)
    } else {
        let t = field_type(f);
        let c = field_count(f) as u32;
        let b = field_bytes(e, f);
        if exceeds_inline(t, c) {
            if pos > u32::MAX || pos + b.len() > usize::MAX {
                Err(TiffError::OffsetOverflow)
            } else {
                Ok(
                    (
                        RawFieldView {
                            tag,
                            tag_type: t,
                            count: c,
                            value_or_offset: u32_to_bytes(e, pos as u32),
                        },
                        b,
                    ),
                )
            }
        } else {
            Ok((RawFieldView { tag, tag_type: t, count: c, value_or_offset: pad4(b) }, Seq::empty()))
        }
    }
}

/// Appends `b` to `out`.
fn extend_bytes(out: &mut Vec<u8>, b: &[u8])
    ensures
        final(out)@ == old(out)@ + b@,
{
    let ghost start = out@;
    let mut i: usize = 0;
    while i < b.len()
        invariant
            i <= b@.len(),
            out@ == start + b@.subrange(0, i as int),
        decreases b@.len() - i,
    {
        out.push(b[i]);
        i += 1;
        assert(out@ =~= start + b@.subrange(0, i as int));
    }
    assert(b@.subrange(0, b@.len() as int) =~= b@);
}

/// The bytes of a list of strings are at least as many as those of any prefix.
proof fn lemma_ascii_bytes_grow(ss: Seq<Seq<char>>, i: int)
    requires
        0 <= i <= ss.len(),
    ensures
        ascii_bytes(ss.take(i)).len() <= ascii_bytes(ss).len(),
    decreases ss.len() - i,
{
    if i < ss.len() {
        lemma_ascii_bytes_step(ss, i);
        lemma_ascii_bytes_grow(ss, i + 1);
    } else {
        assert(ss.take(i) =~= ss);
    }
}

/// Taking one more string adds its encoding and a NUL.
proof fn lemma_ascii_bytes_step(ss: Seq<Seq<char>>, i: int)
    requires
        0 <= i < ss.len(),
    ensures
        ascii_bytes(ss.take(i + 1)) == ascii_bytes(ss.take(i)) + encode_utf8(ss[i]) + seq![0u8],
{
    assert(ss.take(i + 1).drop_last() =~= ss.take(i));
}

impl IFDField {
    /// The type code of this field.
    pub fn type_number(&self) -> (r: u16)
        ensures
            r == field_type(self@),
    {
        match self {
            IFDField::Undefined(_) => IFD_TYPE_UNDEFINED,
            IFDField::Byte(_) => IFD_TYPE_BYTE,
            IFDField::Ascii(_) => IFD_TYPE_ASCII,
            IFDField::Short(_) => IFD_TYPE_SHORT,
            IFDField::Long(_) => IFD_TYPE_LONG,
            IFDField::Rational(_) => IFD_TYPE_RATIONAL,
            IFDField::Unrecognized { tag_type, .. } => *tag_type,
        }
    }

    /// The value of the `count` slot of this field, if it fits in a `usize`.
    pub fn count(&self) -> (r: Option<usize>)
        ensures
            r is Some <==> field_count(self@) <= usize::MAX,
            r is Some ==> r->0 == field_count(self@),
    {
        match self {
            IFDField::Undefined(data) => Some(data.len()),
            IFDField::Byte(data) => Some(data.len()),
            IFDField::Ascii(strings) => {
                let ghost ss = strings_view(strings@);
                let mut length: usize = 0;
                let mut i: usize = 0;
                assert(ss.take(0) =~= Seq::<Seq<char>>::empty());
                while i < strings.len()
                    invariant
                        ss == strings_view(strings@),
                        self@ == FieldValue::Ascii(ss),
                        i <= strings@.len(),
                        length == ascii_bytes(ss.take(i as int)).len(),
                    decreases strings@.len() - i,
                {
                    proof {
                        lemma_ascii_bytes_step(ss, i as int);
                    }
                    let n = strings[i].as_str().as_bytes().len();
                    assert(n == encode_utf8(ss[i as int]).len());
                    if n >= usize::MAX - length {
                        proof {
                            lemma_ascii_bytes_grow(ss, i as int + 1);
                            assert(ascii_bytes(ss.take(i as int + 1)).len() == length + n + 1);
                            assert(field_count(self@) == ascii_bytes(ss).len());
                        }
                        return None;
                    }
                    length = length + n + 1;
                    i += 1;
                }
                assert(ss.take(i as int) =~= ss);
                Some(length)
            },
            IFDField::Short(data) => Some(data.len()),
            IFDField::Long(data) => Some(data.len()),
            IFDField::Rational(data) => Some(data.len()),
            IFDField::Unrecognized { count, .. } => Some(*count as usize),
        }
    }

    /// The type code of this field and the value of its `count` slot.
    pub fn get_type_and_count(&self) -> (r: Result<(u16, u32), TiffError>)
        ensures
            field_count(self@) <= u32::MAX <==> r is Ok,
            r is Ok ==> r->Ok_0 == (field_type(self@), field_count(self@) as u32),
            r is Err ==> r->Err_0 == TiffError::CountOverflow,
    {
        let t = self.type_number();
        match self.count() {
            Some(c) => {
                if c > 0xFFFF_FFFF {
                    Err(TiffError::CountOverflow)
                } else {
                    Ok((t, c as u32))
                }
            },
            None => Err(TiffError::CountOverflow),
        }
    }

    /// Appends the data of this field to `out`, in byte order `e`.
    pub fn write_field_into(&self, out: &mut Vec<u8>, e: Endianness)
        ensures
            final(out)@ == old(out)@ + field_bytes(e, self@),
    {
        let ghost start = out@;
        match self {
            IFDField::Undefined(bytes) => extend_bytes(out, bytes.as_slice()),
            IFDField::Byte(bytes) => extend_bytes(out, bytes.as_slice()),
            IFDField::Ascii(strings) => {
                let ghost ss = strings_view(strings@);
                let mut i: usize = 0;
                assert(ss.take(0) =~= Seq::<Seq<char>>::empty());
                assert(out@ =~= start + ascii_bytes(ss.take(0)));
                while i < strings.len()
                    invariant
                        ss == strings_view(strings@),
                        i <= strings@.len(),
                        out@ == start + ascii_bytes(ss.take(i as int)),
                    decreases strings@.len() - i,
                {
                    proof {
                        lemma_ascii_bytes_step(ss, i as int);
                    }
                    extend_bytes(out, strings[i].as_str().as_bytes());
                    out.push(0u8);
                    i += 1;
                    assert(out@ =~= start + ascii_bytes(ss.take(i as int)));
                }
                assert(ss.take(i as int) =~= ss);
            },
            IFDField::Short(shorts) => {
                let ghost f = |u: int| u16_to_bytes(e, shorts@[u]);
                let mut i: usize = 0;
                assert(out@ =~= start + flat(2, 0, f));
                while i < shorts.len()
                    invariant
                        f == (|u: int| u16_to_bytes(e, shorts@[u])),
                        i <= shorts@.len(),
                        out@ == start + flat(2, i as int, f),
                    decreases shorts@.len() - i,
                {
                    proof {
                        lemma_flat_push(2, i as int, f);
                    }
                    let b = e.u16_bytes(shorts[i]);
                    extend_bytes(out, b.as_slice());
                    i += 1;
                    assert(out@ =~= start + flat(2, i as int, f));
                }
            },
            IFDField::Long(longs) => {
                let ghost f = |u: int| u32_to_bytes(e, longs@[u]);
                let mut i: usize = 0;
                assert(out@ =~= start + flat(4, 0, f));
                while i < longs.len()
                    invariant
                        f == (|u: int| u32_to_bytes(e, longs@[u])),
                        i <= longs@.len(),
                        out@ == start + flat(4, i as int, f),
                    decreases longs@.len() - i,
                {
                    proof {
                        lemma_flat_push(4, i as int, f);
                    }
                    let b = e.u32_bytes(longs[i]);
                    extend_bytes(out, b.as_slice());
                    i += 1;
                    assert(out@ =~= start + flat(4, i as int, f));
                }
            },
            IFDField::Rational(rationals) => {
                let ghost f = |u: int|
                    u32_to_bytes(e, rationals@[u].0) + u32_to_bytes(e, rationals@[u].1);
                let mut i: usize = 0;
                assert(out@ =~= start + flat(8, 0, f));
                while i < rationals.len()
                    invariant
                        f == (|u: int|
                            u32_to_bytes(e, rationals@[u].0) + u32_to_bytes(e, rationals@[u].1)),
                        i <= rationals@.len(),
                        out@ == start + flat(8, i as int, f),
                    decreases rationals@.len() - i,
                {
                    proof {
                        lemma_flat_push(8, i as int, f);
                    }
                    let (a, b) = rationals[i];
                    let ba = e.u32_bytes(a);
                    let bb = e.u32_bytes(b);
                    extend_bytes(out, ba.as_slice());
                    extend_bytes(out, bb.as_slice());
                    i += 1;
                    assert(out@ =~= start + flat(8, i as int, f));
                }
            },
            IFDField::Unrecognized { value_or_offset, .. } => {
                extend_bytes(out, value_or_offset.as_slice());
            },
        }
    }
}

/// The data of a field that is not `Unrecognized` takes as many bytes as decoding its type
/// and count reads.
pub proof fn lemma_field_bytes_len(e: Endianness, f: FieldValue)
    requires
        !(f is Unrecognized),
        0 <= field_count(f) <= u32::MAX,
    ensures
        field_bytes(e, f).len() == units_size(field_type(f), field_count(f) as u32),
{
}

impl IFDField {
    /// Converts this field into a raw entry with tag `tag`: its data goes into the slot when
    /// it fits, and is written at the position of `writer` otherwise, the slot then holding
    /// that position.
    pub fn write_to(&self, writer: &mut ByteStream, e: Endianness, tag: u16) -> (r: Result<
        RawIFDField,
        TiffError,
    >)
        requires
            !(self@ is Unrecognized),
        ensures
            ({
                let s = encode_field(e, tag, self@, old(writer).pos as int);
                &&& s is Ok <==> r is Ok
                &&& r is Ok ==> r->Ok_0@ == s->Ok_0.0 && final(writer).data@ == overwrite(
                    old(writer).data@,
                    old(writer).pos as int,
                    s->Ok_0.1,
                ) && final(writer).pos == old(writer).pos + s->Ok_0.1.len()
                &&& r is Err ==> r->Err_0 == s->Err_0 && *final(writer) == *old(writer)
            }),
    {
        let (tag_type, count) = self.get_type_and_count()?;
        let mut bytes: Vec<u8> = Vec::new();
        self.write_field_into(&mut bytes, e);
        assert(bytes@ =~= field_bytes(e, self@));
        proof {
            lemma_field_bytes_len(e, self@);
        }
        if tag_exceeds_ifd_field(tag_type, count) {
            let pos = writer.position();
            if pos > 0xFFFF_FFFF || bytes.len() > usize::MAX - pos {
                return Err(TiffError::OffsetOverflow);
            }
            let value_or_offset = e.u32_bytes(pos as u32);
            writer.write_all(bytes.as_slice())?;
            Ok(RawIFDField { tag, tag_type, count, value_or_offset })
        } else {
            let n = bytes.len();
            let b0 = if n > 0 { bytes[0] } else { 0u8 };
            let b1 = if n > 1 { bytes[1] } else { 0u8 };
            let b2 = if n > 2 { bytes[2] } else { 0u8 };
            let b3 = if n > 3 { bytes[3] } else { 0u8 };
            let value_or_offset = [b0, b1, b2, b3];
            assert(value_or_offset@ =~= pad4(bytes@));
            assert(overwrite(writer.data@, writer.pos as int, Seq::empty()) =~= writer.data@);
            Ok(RawIFDField { tag, tag_type, count, value_or_offset })
        }
    }

    /// Decodes `count` units of type `tag_type` from the position of `reader`.
    pub fn from_raw_field_reader(
        reader: &mut ByteStream,
        e: Endianness,
        tag_type: u16,
        count: u32,
    ) -> (r: Result<Self, TiffError>)
        ensures
            final(reader).data@ == old(reader).data@,
            field_result_view(r) == read_units(
                e,
                tag_type,
                count,
                old(reader).data@,
                old(reader).pos as int,
            ),
    {
        let ghost d = reader.data@;
        let ghost p = reader.pos as int;
        if tag_type == IFD_TYPE_SBYTE || tag_type == IFD_TYPE_SSHORT || tag_type == IFD_TYPE_SLONG
            || tag_type == IFD_TYPE_SRATIONAL || tag_type == IFD_TYPE_FLOAT || tag_type
            == IFD_TYPE_DOUBLE {
            return Err(TiffError::UnsupportedType { tag_type });
        }
        let c = count as u64;
        let need: u64 = if tag_type == IFD_TYPE_BYTE || tag_type == IFD_TYPE_ASCII || tag_type
            == IFD_TYPE_UNDEFINED {
            c
        } else if tag_type == IFD_TYPE_SHORT {
            2 * c
        } else if tag_type == IFD_TYPE_LONG {
            4 * c
        } else if tag_type == IFD_TYPE_RATIONAL {
            8 * c
        } else {
            4
        };
        assert(need == units_size(tag_type, count));
        let len = reader.data.len();
        if reader.pos > len || need > (len - reader.pos) as u64 {
            return Err(TiffError::UnexpectedEof);
        }
        let ghost src = d.subrange(p, p + need);
        let n = count as usize;
        if tag_type == IFD_TYPE_BYTE {
            let buffer = reader.read_exact(n)?;
            Ok(IFDField::Byte(buffer))
        } else if tag_type == IFD_TYPE_UNDEFINED {
            let buffer = reader.read_exact(n)?;
            Ok(IFDField::Undefined(buffer))
        } else if tag_type == IFD_TYPE_ASCII {
            let buffer = reader.read_exact(n)?;
            Ok(IFDField::Ascii(iterate_null_terminated_ascii_as_utf8(buffer.as_slice())))
        } else if tag_type == IFD_TYPE_SHORT {
            let mut buffer: Vec<u16> = Vec::with_capacity(n);
            let mut i: usize = 0;
            while i < n
                invariant
                    reader.data@ == d,
                    n == count,
                    p + 2 * n <= d.len(),
                    i <= n,
                    reader.pos == p + 2 * i,
                    buffer@.len() == i,
                    forall|k: int|
                        0 <= k < i ==> buffer@[k] == u16_from_bytes(
                            e,
                            d.subrange(p + 2 * k, p + 2 * k + 2),
                        ),
                decreases n - i,
            {
                let v = reader.read_u16(e)?;
                buffer.push(v);
                i += 1;
            }
            let r = IFDField::Short(buffer);
            assert(r@ == units_from(e, tag_type, count, src)) by {
                assert forall|k: int| 0 <= k < n implies #[trigger] src.subrange(2 * k, 2 * k + 2)
                    =~= d.subrange(p + 2 * k, p + 2 * k + 2) by {}
                assert(buffer@ =~= Seq::new(
                    count as nat,
                    |i: int| u16_from_bytes(e, src.subrange(2 * i, 2 * i + 2)),
                ));
            }
            Ok(r)
        } else if tag_type == IFD_TYPE_LONG {
            let mut buffer: Vec<u32> = Vec::with_capacity(n);
            let mut i: usize = 0;
            while i < n
                invariant
                    reader.data@ == d,
                    n == count,
                    p + 4 * n <= d.len(),
                    i <= n,
                    reader.pos == p + 4 * i,
                    buffer@.len() == i,
                    forall|k: int|
                        0 <= k < i ==> buffer@[k] == u32_from_bytes(
                            e,
                            d.subrange(p + 4 * k, p + 4 * k + 4),
                        ),
                decreases n - i,
            {
                let v = reader.read_u32(e)?;
                buffer.push(v);
                i += 1;
            }
            let r = IFDField::Long(buffer);
            assert(r@ == units_from(e, tag_type, count, src)) by {
                assert forall|k: int| 0 <= k < n implies #[trigger] src.subrange(4 * k, 4 * k + 4)
                    =~= d.subrange(p + 4 * k, p + 4 * k + 4) by {}
                assert(buffer@ =~= Seq::new(
                    count as nat,
                    |i: int| u32_from_bytes(e, src.subrange(4 * i, 4 * i + 4)),
                ));
            }
            Ok(r)
        } else if tag_type == IFD_TYPE_RATIONAL {
            let mut buffer: Vec<(u32, u32)> = Vec::with_capacity(n);
            let mut i: usize = 0;
            while i < n
                invariant
                    reader.data@ == d,
                    n == count,
                    p + 8 * n <= d.len(),
                    i <= n,
                    reader.pos == p + 8 * i,
                    buffer@.len() == i,
                    forall|k: int|
                        0 <= k < i ==> buffer@[k] == (
                            u32_from_bytes(e, d.subrange(p + 8 * k, p + 8 * k + 4)),
                            u32_from_bytes(e, d.subrange(p + 8 * k + 4, p + 8 * k + 8)),
                        ),
                decreases n - i,
            {
                let a = reader.read_u32(e)?;
                let b = reader.read_u32(e)?;
                buffer.push((a, b));
                i += 1;
            }
            let r = IFDField::Rational(buffer);
            assert(r@ == units_from(e, tag_type, count, src)) by {
                assert forall|k: int| 0 <= k < n implies #[trigger] src.subrange(8 * k, 8 * k + 4)
                    =~= d.subrange(p + 8 * k, p + 8 * k + 4) && src.subrange(8 * k + 4, 8 * k + 8)
                    =~= d.subrange(p + 8 * k + 4, p + 8 * k + 8) by {}
                assert(buffer@ =~= Seq::new(
                    count as nat,
                    |i: int|
                        (
                            u32_from_bytes(e, src.subrange(8 * i, 8 * i + 4)),
                            u32_from_bytes(e, src.subrange(8 * i + 4, 8 * i + 8)),
                        ),
                ));
            }
            Ok(r)
        } else {
            let buffer = reader.read_exact(4)?;
            let value_or_offset = [buffer[0], buffer[1], buffer[2], buffer[3]];
            assert(value_or_offset@ =~= src);
            Ok(IFDField::Unrecognized { tag_type, count, value_or_offset })
        }
    }

    /// Reads the field described by `field`: from its slot, or from the offset that its slot
    /// holds, which `reader` is moved to.
    pub fn read_from(reader: &mut ByteStream, field: &RawIFDField, e: Endianness) -> (r: Result<
        Self,
        TiffError,
    >)
        ensures
            final(reader).data@ == old(reader).data@,
            field_result_view(r) == field_from(e, old(reader).data@, field@),
    {
        if tag_exceeds_ifd_field(field.tag_type, field.count) {
            let tag_data_offset = e.read_u32(field.value_or_offset.as_slice());
            reader.seek(tag_data_offset as usize);
            Self::from_raw_field_reader(reader, e, field.tag_type, field.count)
        } else {
            let mut slot: Vec<u8> = Vec::with_capacity(4);
            slot.push(field.value_or_offset[0]);
            slot.push(field.value_or_offset[1]);
            slot.push(field.value_or_offset[2]);
            slot.push(field.value_or_offset[3]);
            assert(slot@ =~= field.value_or_offset@);
            let mut cursor = ByteStream::new(slot);
            Self::from_raw_field_reader(&mut cursor, e, field.tag_type, field.count)
        }
    }
}

/// Whether a list of strings survives storage in an ASCII field: each string is nonempty
/// and holds no NUL, since NULs separate the strings and empty runs are dropped.
pub open spec fn ascii_storable(ss: Seq<Seq<char>>) -> bool {
    forall|i: int| 0 <= i < ss.len() ==> #[trigger] ss[i].len() > 0 && !ss[i].contains('\0')
}

/// Whether a field can be written and read back: it is not `Unrecognized`, and its strings,
/// if any, survive storage.
pub open spec fn field_writable(f: FieldValue) -> bool {
    match f {
        FieldValue::Unrecognized { .. } => false,
        FieldValue::Ascii(ss) => ascii_storable(ss),
        _ => true,
    }
}

/// A leading or continuation byte of UTF-8 is never zero.
proof fn lemma_or_nonzero(x: u8)
    ensures
        0x80u8 | x != 0u8,
        0xC0u8 | x != 0u8,
        0xE0u8 | x != 0u8,
        0xF0u8 | x != 0u8,
{
    assert(0x80u8 | x != 0u8) by (bit_vector);
    assert(0xC0u8 | x != 0u8) by (bit_vector);
    assert(0xE0u8 | x != 0u8) by (bit_vector);
    assert(0xF0u8 | x != 0u8) by (bit_vector);
}

/// A character other than NUL encodes to nonzero bytes.
proof fn lemma_scalar_no_zero(c: char)
    requires
        c != '\0',
    ensures
        encode_scalar(c as u32).len() > 0,
        forall|j: int|
            0 <= j < encode_scalar(c as u32).len() ==> #[trigger] encode_scalar(c as u32)[j] != 0,
{
    char_is_scalar(c);
    let v = c as u32;
    assert(v != 0);
    if has_width_1_encoding(v) {
        assert((v & 0x7F) as u8 != 0u8) by (bit_vector)
            requires
                v != 0,
                v <= 0x7F,
        ;
    } else {
        lemma_or_nonzero(((v >> 6) & 0x1F) as u8);
        lemma_or_nonzero(((v >> 12) & 0x0F) as u8);
        lemma_or_nonzero(((v >> 18) & 0x7) as u8);
        lemma_or_nonzero((v & 0x3F) as u8);
        lemma_or_nonzero(((v >> 6) & 0x3F) as u8);
        lemma_or_nonzero(((v >> 12) & 0x3F) as u8);
    }
}

/// A string without NUL encodes to bytes without zero, and a nonempty one to nonempty bytes.
pub proof fn lemma_utf8_no_nul(s: Seq<char>)
    requires
        !s.contains('\0'),
    ensures
        s.len() > 0 ==> encode_utf8(s).len() > 0,
        forall|j: int| 0 <= j < encode_utf8(s).len() ==> #[trigger] encode_utf8(s)[j] != 0,
    decreases s.len(),
{
    if s.len() > 0 {
        assert(s[0] != '\0') by {
            if s[0] == '\0' {
                assert(s.contains('\0'));
            }
        }
        lemma_scalar_no_zero(s[0]);
        let rest = s.drop_first();
        assert(!rest.contains('\0')) by {
            if rest.contains('\0') {
                let k = choose|k: int| 0 <= k < rest.len() && rest[k] == '\0';
                assert(s[k + 1] == '\0');
            }
        }
        lemma_utf8_no_nul(rest);
        let a = encode_scalar(s[0] as u32);
        let b = encode_utf8(rest);
        assert(encode_utf8(s) == a + b);
        assert forall|j: int| 0 <= j < (a + b).len() implies #[trigger] (a + b)[j] != 0 by {
            if j >= a.len() {
                assert((a + b)[j] == b[j - a.len()]);
            }
        }
    }
}

/// Reading bytes without NUL only lengthens the pending run.
proof fn lemma_ascii_after_run(x: Seq<u8>, y: Seq<u8>, run: Seq<u8>)
    requires
        forall|j: int| 0 <= j < x.len() ==> #[trigger] x[j] != 0,
    ensures
        ascii_strings_after(x + y, run) == ascii_strings_after(y, run + x),
    decreases x.len(),
{
    if x.len() == 0 {
        assert(x + y =~= y);
        assert(run + x =~= run);
    } else {
        assert((x + y)[0] == x[0]);
        assert((x + y).drop_first() =~= x.drop_first() + y);
        lemma_ascii_after_run(x.drop_first(), y, run.push(x[0]));
        assert(run.push(x[0]) + x.drop_first() =~= run + x);
    }
}

/// The strings stored by `ascii_bytes` come back first when the bytes are read.
proof fn lemma_ascii_strings_prefix(ss: Seq<Seq<char>>, tail: Seq<u8>)
    requires
        ascii_storable(ss),
    ensures
        ascii_strings_after(ascii_bytes(ss) + tail, Seq::empty()) == ss + ascii_strings_after(
            tail,
            Seq::empty(),
        ),
    decreases ss.len(),
{
    if ss.len() == 0 {
        assert(ascii_bytes(ss) + tail =~= tail);
        assert(ss + ascii_strings_after(tail, Seq::empty()) =~= ascii_strings_after(
            tail,
            Seq::empty(),
        ));
    } else {
        let init = ss.drop_last();
        let last = ss.last();
        assert(last == ss[ss.len() - 1]);
        let enc = encode_utf8(last);
        let zt = seq![0u8] + tail;
        let t2 = enc + zt;
        assert(ascii_bytes(ss) + tail =~= ascii_bytes(init) + t2);
        assert(ascii_storable(init)) by {
            assert forall|i: int| 0 <= i < init.len() implies #[trigger] init[i].len() > 0
                && !init[i].contains('\0') by {
                assert(init[i] == ss[i]);
            }
        }
        lemma_ascii_strings_prefix(init, t2);
        lemma_utf8_no_nul(last);
        lemma_ascii_after_run(enc, zt, Seq::empty());
        assert(Seq::<u8>::empty() + enc =~= enc);
        assert(zt[0] == 0u8);
        assert(zt.drop_first() =~= tail);
        encode_utf8_valid_utf8(last);
        encode_utf8_decode_utf8(last);
        assert(ascii_run(enc) == seq![last]);
        assert(init + (seq![last] + ascii_strings_after(tail, Seq::empty())) =~= ss
            + ascii_strings_after(tail, Seq::empty()));
    }
}

/// Packing strings into an ASCII field and splitting the bytes again gives the strings
/// back, when each of them is nonempty and holds no NUL.
pub proof fn lemma_ascii_round_trip(ss: Seq<Seq<char>>)
    requires
        ascii_storable(ss),
    ensures
        ascii_strings(ascii_bytes(ss)) == ss,
{
    lemma_ascii_strings_prefix(ss, Seq::empty());
    assert(ascii_bytes(ss) + Seq::<u8>::empty() =~= ascii_bytes(ss));
    assert(ss + Seq::<Seq<char>>::empty() =~= ss);
}

/// Decoding the data of a writable field with its own type and count gives the field back.
proof fn lemma_units_from_field_bytes(e: Endianness, f: FieldValue)
    requires
        field_writable(f),
        field_count(f) <= u32::MAX,
    ensures
        units_from(e, field_type(f), field_count(f) as u32, field_bytes(e, f)) == f,
{
    let c = field_count(f) as u32;
    let b = field_bytes(e, f);
    match f {
        FieldValue::Ascii(ss) => {
            lemma_ascii_round_trip(ss);
        },
        FieldValue::Short(v) => {
            let g = |u: int| u16_to_bytes(e, v[u]);
            assert forall|i: int| 0 <= i < c implies #[trigger] u16_from_bytes(
                e,
                b.subrange(2 * i, 2 * i + 2),
            ) == v[i] by {
                lemma_flat_unit(2, v.len() as int, g, i);
                crate::byte_order::lemma_u16_round_trip(e, v[i]);
            }
            assert(Seq::new(c as nat, |i: int| u16_from_bytes(e, b.subrange(2 * i, 2 * i + 2)))
                =~= v);
        },
        FieldValue::Long(v) => {
            let g = |u: int| u32_to_bytes(e, v[u]);
            assert forall|i: int| 0 <= i < c implies #[trigger] u32_from_bytes(
                e,
                b.subrange(4 * i, 4 * i + 4),
            ) == v[i] by {
                lemma_flat_unit(4, v.len() as int, g, i);
                crate::byte_order::lemma_u32_round_trip(e, v[i]);
            }
            assert(Seq::new(c as nat, |i: int| u32_from_bytes(e, b.subrange(4 * i, 4 * i + 4)))
                =~= v);
        },
        FieldValue::Rational(v) => {
            let g = |u: int| u32_to_bytes(e, v[u].0) + u32_to_bytes(e, v[u].1);
            assert forall|i: int| 0 <= i < c implies (#[trigger] u32_from_bytes(
                e,
                b.subrange(8 * i, 8 * i + 4),
            ), u32_from_bytes(e, b.subrange(8 * i + 4, 8 * i + 8))) == v[i] by {
                crate::byte_order::lemma_u32_round_trip(e, v[i].0);
                crate::byte_order::lemma_u32_round_trip(e, v[i].1);
                lemma_flat_unit(8, v.len() as int, g, i);
                let unit = b.subrange(8 * i, 8 * i + 8);
                assert(b.subrange(8 * i, 8 * i + 4) =~= unit.subrange(0, 4));
                assert(b.subrange(8 * i + 4, 8 * i + 8) =~= unit.subrange(4, 8));
                assert(unit.subrange(0, 4) =~= u32_to_bytes(e, v[i].0));
                assert(unit.subrange(4, 8) =~= u32_to_bytes(e, v[i].1));
            }
            assert(Seq::new(
                c as nat,
                |i: int|
                    (
                        u32_from_bytes(e, b.subrange(8 * i, 8 * i + 4)),
                        u32_from_bytes(e, b.subrange(8 * i + 4, 8 * i + 8)),
                    ),
            ) =~= v);
        },
        _ => {},
    }
}

/// What a field that is not `Unrecognized` reads back as, once written in byte order `e`.
pub open spec fn read_back(e: Endianness, f: FieldValue) -> FieldValue {
    units_from(e, field_type(f), field_count(f) as u32, field_bytes(e, f))
}

/// A writable field reads back as itself.
pub proof fn lemma_read_back_writable(e: Endianness, f: FieldValue)
    requires
        field_writable(f),
        field_count(f) <= u32::MAX,
    ensures
        read_back(e, f) == f,
{
    lemma_units_from_field_bytes(e, f);
}

/// Whether decoding the raw entry `raw` reads no byte at or after `bound`.
pub open spec fn field_within(e: Endianness, raw: RawFieldView, bound: int) -> bool {
    exceeds_inline(raw.tag_type, raw.count) ==> u32_from_bytes(e, raw.value_or_offset) as int
        + units_size(raw.tag_type, raw.count) <= bound
}

/// Decoding an entry that reads below `bound` gives the same result on two streams that
/// agree below `bound`.
pub proof fn lemma_field_from_frame(
    e: Endianness,
    d: Seq<u8>,
    d2: Seq<u8>,
    raw: RawFieldView,
    bound: int,
)
    requires
        field_from(e, d, raw) is Ok,
        field_within(e, raw, bound),
        bound <= d.len(),
        bound <= d2.len(),
        d2.subrange(0, bound) == d.subrange(0, bound),
    ensures
        field_from(e, d2, raw) == field_from(e, d, raw),
{
    if exceeds_inline(raw.tag_type, raw.count) && !is_unsupported_type(raw.tag_type) {
        let off = u32_from_bytes(e, raw.value_or_offset) as int;
        let n = units_size(raw.tag_type, raw.count);
        assert(d2.subrange(off, off + n) =~= d2.subrange(0, bound).subrange(off, off + n));
        assert(d.subrange(off, off + n) =~= d.subrange(0, bound).subrange(off, off + n));
    }
}

/// Round trip of one field: the raw entry that encoding a field other than `Unrecognized`
/// produces decodes to what the field reads back as, against any stream that holds the bytes
/// written out of line at the position they were written to; it reads nothing past them.
pub proof fn lemma_field_round_trip(e: Endianness, tag: u16, f: FieldValue, pos: int, d: Seq<u8>)
    requires
        !(f is Unrecognized),
        0 <= pos,
        encode_field(e, tag, f, pos) is Ok,
        pos + encode_field(e, tag, f, pos)->Ok_0.1.len() <= d.len(),
        d.subrange(pos, pos + encode_field(e, tag, f, pos)->Ok_0.1.len()) == encode_field(
            e,
            tag,
            f,
            pos,
        )->Ok_0.1,
    ensures
        encode_field(e, tag, f, pos)->Ok_0.0.tag == tag,
        encode_field(e, tag, f, pos)->Ok_0.0.value_or_offset.len() == 4,
        field_from(e, d, encode_field(e, tag, f, pos)->Ok_0.0) == Ok::<FieldValue, TiffError>(
            read_back(e, f),
        ),
        field_within(
            e,
            encode_field(e, tag, f, pos)->Ok_0.0,
            pos + encode_field(e, tag, f, pos)->Ok_0.1.len(),
        ),
        field_writable(f) ==> read_back(e, f) == f,
{
    let t = field_type(f);
    let c = field_count(f) as u32;
    let b = field_bytes(e, f);
    lemma_field_bytes_len(e, f);
    if field_writable(f) {
        lemma_units_from_field_bytes(e, f);
    }
    if exceeds_inline(t, c) {
        crate::byte_order::lemma_u32_round_trip(e, pos as u32);
    } else {
        assert(pad4(b).subrange(0, units_size(t, c)) =~= b);
    }
}

/// A raw entry whose type code is neither a known nor a signed or floating-point type
/// decodes, without error and without reading the stream, to `Unrecognized` with its type,
/// count and literal slot bytes.
pub proof fn lemma_unknown_type_decodes_unrecognized(e: Endianness, d: Seq<u8>, raw: RawFieldView)
    requires
        !is_known_type(raw.tag_type),
        !is_unsupported_type(raw.tag_type),
        raw.value_or_offset.len() == 4,
    ensures
        field_from(e, d, raw) == Ok::<FieldValue, TiffError>(
            FieldValue::Unrecognized {
                tag_type: raw.tag_type,
                count: raw.count,
                value_or_offset: raw.value_or_offset,
            },
        ),
{
    assert(raw.value_or_offset.subrange(0, 4) =~= raw.value_or_offset);
}

/// The inline threshold of 16-bit fields: up to two values go into the entry's slot and
/// nothing is written out of line; from three on, exactly two bytes per value are written
/// out of line, and the slot holds the position they were written at.
pub proof fn lemma_short_inline_threshold(e: Endianness, tag: u16, v: Seq<u16>, pos: int)
    requires
        0 <= pos,
        encode_field(e, tag, FieldValue::Short(v), pos) is Ok,
    ensures
        v.len() <= 2 ==> encode_field(e, tag, FieldValue::Short(v), pos)->Ok_0.1.len() == 0,
        v.len() >= 3 ==> encode_field(e, tag, FieldValue::Short(v), pos)->Ok_0.1.len() == 2
            * v.len() && u32_from_bytes(
            e,
            encode_field(e, tag, FieldValue::Short(v), pos)->Ok_0.0.value_or_offset,
        ) == pos,
        v.len() >= 3 && pos > 0 ==> u32_from_bytes(
            e,
            encode_field(e, tag, FieldValue::Short(v), pos)->Ok_0.0.value_or_offset,
        ) != 0,
{
    lemma_field_bytes_len(e, FieldValue::Short(v));
    if v.len() >= 3 {
        crate::byte_order::lemma_u32_round_trip(e, pos as u32);
    }
}

/// A field decodes the same way whichever byte order it was written in.
pub proof fn lemma_read_back_endian_free(f: FieldValue)
    requires
        !(f is Unrecognized),
        field_count(f) <= u32::MAX,
    ensures
        read_back(Endianness::Little, f) == read_back(Endianness::Big, f),
{
    match f {
        FieldValue::Ascii(_) => {},
        _ => {
            lemma_units_from_field_bytes(Endianness::Little, f);
            lemma_units_from_field_bytes(Endianness::Big, f);
        },
    }
}

/// Relies on std's `String::from_utf8`: the string that the bytes encode, if they are
/// valid UTF-8.
#[verifier::external_body]
fn string_from_utf8(bytes: Vec<u8>) -> (r: Option<String>)
    ensures
        r is Some <==> valid_utf8(bytes@),
        r is Some ==> r->0@ == decode_utf8(bytes@),
{
    String::from_utf8(bytes).ok()
}

/// The strings stored in the bytes of an ASCII field: the bytes split at each NUL, empty
/// runs and runs that are not UTF-8 left out.
pub fn iterate_null_terminated_ascii_as_utf8(bytes: &[u8]) -> (r: Vec<String>)
    ensures
        strings_view(r@) == ascii_strings(bytes@),
{
    let n = bytes.len();
    let mut out: Vec<String> = Vec::new();
    let mut run: Vec<u8> = Vec::new();
    let mut i: usize = 0;
    assert(bytes@.subrange(0, n as int) =~= bytes@);
    assert(strings_view(out@) =~= Seq::<Seq<char>>::empty());
    assert(run@ =~= Seq::<u8>::empty());
    while i < n
        invariant
            n == bytes@.len(),
            i <= n,
            ascii_strings(bytes@) == strings_view(out@) + ascii_strings_after(
                bytes@.subrange(i as int, n as int),
                run@,
            ),
        decreases n - i,
    {
        let ghost rest = bytes@.subrange(i as int, n as int);
        assert(rest.drop_first() =~= bytes@.subrange(i + 1, n as int));
        if bytes[i] == 0 {
            let ghost before = strings_view(out@);
            let ghost flushed = ascii_run(run@);
            let done = run;
            run = Vec::new();
            if done.len() > 0 {
                match string_from_utf8(done) {
                    Some(s) => {
                        out.push(s);
                    },
                    None => {},
                }
            }
            assert(strings_view(out@) =~= before + flushed);
        } else {
            run.push(bytes[i]);
        }
        i += 1;
    }
    let ghost before = strings_view(out@);
    let ghost flushed = ascii_run(run@);
    if run.len() > 0 {
        match string_from_utf8(run) {
            Some(s) => {
                out.push(s);
            },
            None => {},
        }
    }
    assert(strings_view(out@) =~= before + flushed);
    assert(bytes@.subrange(n as int, n as int) =~= Seq::<u8>::empty());
    out
}

} // verus!
