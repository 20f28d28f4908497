use tiffy::baseline::{compression, photometic_interpretation};
use tiffy::raw_ifd::RawIFDField;
use tiffy::{
    iterate_null_terminated_ascii_as_utf8, read_header_endian, read_header_magic,
    tag_exceeds_ifd_field, write_header, ByteStream, CompressionType, Endianness, HeaderError,
    IFDField, RawIFD, TiffError, IFD,
};

#[test]
fn integer_codecs_follow_byte_order() {
    assert_eq!(Endianness::Little.read_u16(&[0x34, 0x12]), 0x1234);
    assert_eq!(Endianness::Big.read_u16(&[0x12, 0x34]), 0x1234);
    assert_eq!(Endianness::Little.read_u32(&[0x78, 0x56, 0x34, 0x12]), 0x1234_5678);
    assert_eq!(Endianness::Big.read_u32(&[0x12, 0x34, 0x56, 0x78]), 0x1234_5678);
    assert_eq!(Endianness::Little.u16_bytes(0x1234), [0x34, 0x12]);
    assert_eq!(Endianness::Big.u16_bytes(0x1234), [0x12, 0x34]);
    assert_eq!(Endianness::Little.u32_bytes(0x1234_5678), [0x78, 0x56, 0x34, 0x12]);
    assert_eq!(Endianness::Big.u32_bytes(0x1234_5678), [0x12, 0x34, 0x56, 0x78]);
}

#[test]
fn header_round_trip_and_errors() {
    for e in [Endianness::Little, Endianness::Big] {
        let mut s = ByteStream::empty();
        write_header(&mut s, e).unwrap();
        assert_eq!(s.pos, 4);
        s.seek(0);
        assert_eq!(read_header_endian(&mut s), Ok(e));
        assert_eq!(read_header_magic(&mut s, e), Ok(()));
    }
    let mut s = ByteStream::new(b"IM*\0".to_vec());
    assert_eq!(
        read_header_endian(&mut s),
        Err(TiffError::Header(HeaderError::BadEndianMagic { culprit: [b'I', b'M'] }))
    );
    let mut s = ByteStream::new(vec![b'I', b'I', 43, 0]);
    read_header_endian(&mut s).unwrap();
    assert_eq!(
        read_header_magic(&mut s, Endianness::Little),
        Err(TiffError::Header(HeaderError::BadMagic { magic: 43 }))
    );
    let mut s = ByteStream::new(vec![b'I']);
    assert_eq!(read_header_endian(&mut s), Err(TiffError::UnexpectedEof));
}

#[test]
fn inline_threshold_by_type() {
    assert!(!tag_exceeds_ifd_field(1, 4));
    assert!(tag_exceeds_ifd_field(1, 5));
    assert!(tag_exceeds_ifd_field(2, 5));
    assert!(!tag_exceeds_ifd_field(3, 2));
    assert!(tag_exceeds_ifd_field(3, 3));
    assert!(!tag_exceeds_ifd_field(4, 1));
    assert!(tag_exceeds_ifd_field(4, 2));
    assert!(tag_exceeds_ifd_field(5, 0));
    assert!(tag_exceeds_ifd_field(12, 1));
    assert!(!tag_exceeds_ifd_field(9999, 100));
}

#[test]
fn short_field_inline_threshold() {
    let mut s = ByteStream::empty();
    s.write_all(&[0; 8]).unwrap();
    let raw = IFDField::Short(vec![1, 2]).write_to(&mut s, Endianness::Little, 10).unwrap();
    assert_eq!(s.data.len(), 8);
    assert_eq!(raw.value_or_offset, [1, 0, 2, 0]);
    assert_eq!((raw.tag, raw.tag_type, raw.count), (10, 3, 2));

    let raw = IFDField::Short(vec![1, 2, 3]).write_to(&mut s, Endianness::Little, 10).unwrap();
    assert_eq!(s.data.len(), 8 + 6);
    assert_eq!(&s.data[8..], &[1, 0, 2, 0, 3, 0]);
    assert_eq!(raw.value_or_offset, [8, 0, 0, 0]);
    let offset = Endianness::Little.read_u32(&raw.value_or_offset);
    assert_ne!(offset, 0);
    assert_eq!(IFDField::read_from(&mut s, &raw, Endianness::Little), Ok(IFDField::Short(vec![1, 2, 3])));
}

#[test]
fn ascii_packing() {
    let field = IFDField::Ascii(vec!["Test test".to_string(), "Test test 2".to_string()]);
    assert_eq!(field.get_type_and_count(), Ok((2, 22)));
    assert_eq!(field.count(), Some(22));
    let mut out = Vec::new();
    field.write_field_into(&mut out, Endianness::Big);
    assert_eq!(out, b"Test test\0Test test 2\0".to_vec());
    assert_eq!(
        iterate_null_terminated_ascii_as_utf8(&out),
        vec!["Test test".to_string(), "Test test 2".to_string()]
    );
    let mut s = ByteStream::empty();
    s.write_all(&[0; 8]).unwrap();
    let raw = field.write_to(&mut s, Endianness::Big, 3621).unwrap();
    assert_eq!(raw.count, 22);
    assert_eq!(IFDField::read_from(&mut s, &raw, Endianness::Big), Ok(field));
}

#[test]
fn ascii_split_drops_empty_and_invalid_runs() {
    let bytes = [b'a', 0, 0, 0xFF, 0xFE, 0, b'b', b'c'];
    assert_eq!(
        iterate_null_terminated_ascii_as_utf8(&bytes),
        vec!["a".to_string(), "bc".to_string()]
    );
    let utf8 = "é".as_bytes().to_vec();
    assert_eq!(iterate_null_terminated_ascii_as_utf8(&utf8), vec!["é".to_string()]);
    assert!(iterate_null_terminated_ascii_as_utf8(&[]).is_empty());
}

#[test]
fn unrecognized_type_decodes_literally() {
    let raw = RawIFDField { tag: 77, tag_type: 9999, count: 500, value_or_offset: [9, 8, 7, 6] };
    let mut s = ByteStream::empty();
    assert_eq!(
        IFDField::read_from(&mut s, &raw, Endianness::Little),
        Ok(IFDField::Unrecognized { tag_type: 9999, count: 500, value_or_offset: [9, 8, 7, 6] })
    );
}

#[test]
fn unrecognized_entries_are_left_out_when_written() {
    let mut ifd = IFD::new();
    ifd.add_tag(2, IFDField::from_short(5));
    ifd.add_tag(1, IFDField::Unrecognized { tag_type: 9999, count: 1, value_or_offset: [0; 4] });
    ifd.add_tag(3, IFDField::from_long(6));
    let mut s = ByteStream::empty();
    let raw = ifd.write_to(&mut s, Endianness::Little).unwrap();
    assert_eq!(raw.entries.len(), ifd.entries.len() - 1);
    assert_eq!(raw.entries.iter().map(|f| f.tag).collect::<Vec<_>>(), vec![2, 3]);
}

#[test]
fn entries_are_written_by_ascending_tag() {
    let mut ifd = IFD::new();
    ifd.add_tag(30, IFDField::from_short(1));
    ifd.add_tag(10, IFDField::from_short(2));
    ifd.add_tag(20, IFDField::from_short(3));
    ifd.add_tag(10, IFDField::from_short(4));
    let mut s = ByteStream::empty();
    let raw = ifd.write_to(&mut s, Endianness::Little).unwrap();
    let tags: Vec<(u16, [u8; 4])> = raw.entries.iter().map(|f| (f.tag, f.value_or_offset)).collect();
    assert_eq!(tags, vec![(10, [2, 0, 0, 0]), (10, [4, 0, 0, 0]), (20, [3, 0, 0, 0]), (30, [1, 0, 0, 0])]);
}

#[test]
fn unsupported_types_fail() {
    let raw = RawIFDField { tag: 1, tag_type: 11, count: 1, value_or_offset: [0; 4] };
    let mut s = ByteStream::empty();
    assert_eq!(
        IFDField::read_from(&mut s, &raw, Endianness::Little),
        Err(TiffError::UnsupportedType { tag_type: 11 })
    );
}

#[test]
fn out_of_line_data_past_the_end_fails() {
    let raw = RawIFDField { tag: 1, tag_type: 4, count: 3, value_or_offset: [4, 0, 0, 0] };
    let mut s = ByteStream::new(vec![0; 10]);
    assert_eq!(IFDField::read_from(&mut s, &raw, Endianness::Little), Err(TiffError::UnexpectedEof));
}

#[test]
fn raw_entry_round_trip() {
    let raw = RawIFDField { tag: 0x0102, tag_type: 3, count: 0x0A0B0C0D, value_or_offset: [1, 2, 3, 4] };
    let mut s = ByteStream::empty();
    raw.to_writer(&mut s, Endianness::Big).unwrap();
    assert_eq!(s.data, vec![1, 2, 0, 3, 0x0A, 0x0B, 0x0C, 0x0D, 1, 2, 3, 4]);
    s.seek(0);
    let back = RawIFDField::from_reader(&mut s, Endianness::Big).unwrap();
    assert_eq!((back.tag, back.tag_type, back.count, back.value_or_offset), (0x0102, 3, 0x0A0B0C0D, [1, 2, 3, 4]));
}

#[test]
fn too_many_entries_fail() {
    let entry = RawIFDField { tag: 1, tag_type: 1, count: 1, value_or_offset: [0; 4] };
    let raw = RawIFD { entries: vec![entry; 65536] };
    let mut s = ByteStream::empty();
    assert_eq!(raw.to_writer(&mut s, Endianness::Little), Err(TiffError::TooManyEntries { count: 65536 }));
    let raw = RawIFD { entries: vec![entry; 65535] };
    assert_eq!(raw.to_writer(&mut s, Endianness::Little), Ok(()));
    assert_eq!(s.data.len(), 2 + 12 * 65535);
}

#[test]
fn stream_writes_past_the_end_pad_with_zeros() {
    let mut s = ByteStream::new(vec![1, 2, 3]);
    s.seek(1);
    s.write_all(&[9]).unwrap();
    assert_eq!(s.data, vec![1, 9, 3]);
    s.seek(5);
    s.write_all(&[7, 7]).unwrap();
    assert_eq!(s.data, vec![1, 9, 3, 0, 0, 7, 7]);
    assert_eq!(s.position(), 7);
    s.seek(6);
    assert_eq!(s.read_exact(2), Err(TiffError::UnexpectedEof));
    assert_eq!(s.read_exact(1), Ok(vec![7]));
}

#[test]
fn compression_codes() {
    assert_eq!(CompressionType::from_iteger(5).map(|c| c.to_integer()), Some(5));
    assert_eq!(CompressionType::from_iteger(0x8005).map(|c| u16::from(c)), Some(0x8005));
    assert!(matches!(CompressionType::from_iteger(0x879B), Some(CompressionType::JBIG2)));
    assert!(CompressionType::from_iteger(0).is_none());
    assert_eq!(compression::to_string(7), "NewJPEG");
    assert_eq!(compression::to_string(0x80B2), "Deflate PKzip");
    assert_eq!(compression::to_string(0x1234), "<Unrecognized>");
    assert_eq!(photometic_interpretation::to_string(6), "YCbCr");
    assert_eq!(photometic_interpretation::to_string(7), "<Unrecognized>");
}
