use tiffy::{ByteStream, Endianness, IFDField, MetadataReader, MetadataWriter, TiffError, IFD};

fn d1() -> IFD {
    let mut d = IFD::new();
    d.add_tag(1337, IFDField::Undefined(vec![0, 1, 2, 3]));
    d.add_tag(3621, IFDField::Ascii(vec!["Test test".to_string(), "Test test 2".to_string()]));
    d
}

fn d2() -> IFD {
    let mut d = IFD::new();
    d.add_tag(3280, IFDField::Rational(vec![(0, 1), (2, 3)]));
    d
}

#[test]
fn end_to_end_two_directories() {
    let mut w = MetadataWriter::write_header(Endianness::Little);
    let first = w.write_ifd(&d1()).unwrap();
    w.write_ifd(&d2()).unwrap();
    let bytes = w.into_inner();
    let mut s = ByteStream::new(bytes.clone());
    let r = MetadataReader::read_header(&mut s).unwrap();
    assert!(r.is_little_endian());
    assert_eq!(r.ifds(), &[d1(), d2()][..]);
    let pointer = u32::from_le_bytes([bytes[4], bytes[5], bytes[6], bytes[7]]);
    assert_eq!(pointer as u64, first);
}

#[test]
fn chain_of_directories_in_write_order() {
    let mut w = MetadataWriter::write_header(Endianness::Big);
    let mut offsets = Vec::new();
    for k in 0..4u16 {
        let mut d = IFD::new();
        d.add_tag(100 + k, IFDField::Long(vec![k as u32; k as usize + 1]));
        offsets.push(w.write_ifd(&d).unwrap());
        w.write_raw_bytes(&[0xAB; 3]).unwrap();
    }
    let bytes = w.into_inner();
    let be = |p: usize| u32::from_be_bytes([bytes[p], bytes[p + 1], bytes[p + 2], bytes[p + 3]]) as u64;
    let mut pointer = 4usize;
    for off in &offsets {
        assert_eq!(be(pointer), *off);
        let count = u16::from_be_bytes([bytes[*off as usize], bytes[*off as usize + 1]]) as usize;
        pointer = *off as usize + 2 + 12 * count;
    }
    assert_eq!(be(pointer), 0);
    let mut s = ByteStream::new(bytes);
    let r = MetadataReader::read_header(&mut s).unwrap();
    assert!(!r.is_little_endian());
    assert_eq!(r.ifds().len(), 4);
    for (k, ifd) in r.ifds().iter().enumerate() {
        assert_eq!(ifd.entries[0].tag, 100 + k as u16);
        assert_eq!(ifd.entries[0].data, IFDField::Long(vec![k as u32; k + 1]));
    }
}

#[test]
fn both_byte_orders_decode_alike() {
    let mut outputs = Vec::new();
    for e in [Endianness::Little, Endianness::Big] {
        let mut w = MetadataWriter::write_header(e);
        let mut d = d1();
        d.add_tag(40, IFDField::Short(vec![0x0102, 0x0304, 0x0506]));
        w.write_ifd(&d).unwrap();
        let bytes = w.into_inner();
        let mut s = ByteStream::new(bytes.clone());
        let r = MetadataReader::read_header(&mut s).unwrap();
        assert_eq!(r.endianness(), e);
        outputs.push((bytes, r.ifds().to_vec()));
    }
    assert_eq!(outputs[0].1, outputs[1].1);
    assert_ne!(outputs[0].0, outputs[1].0);
    assert_eq!(&outputs[0].0[0..4], b"II*\0");
    assert_eq!(&outputs[1].0[0..4], b"MM\0*");
    // The short values written out of line come first, byte-reversed between the two orders.
    assert_eq!(&outputs[0].0[8..14], &[2, 1, 4, 3, 6, 5]);
    assert_eq!(&outputs[1].0[8..14], &[1, 2, 3, 4, 5, 6]);
}

#[test]
fn empty_file_has_no_directories() {
    let w = MetadataWriter::write_header(Endianness::Little);
    assert_eq!(w.bytes(), &[b'I', b'I', 42, 0, 0, 0, 0, 0][..]);
    let mut s = ByteStream::new(w.into_inner());
    let r = MetadataReader::read_header(&mut s).unwrap();
    assert!(r.ifds().is_empty());
}

#[test]
fn raw_ranges_pass_through() {
    let mut w = MetadataWriter::write_header(Endianness::Little);
    let (offset, length) = w.write_raw_bytes(&[5, 6, 7]).unwrap();
    assert_eq!((offset, length), (8, 3));
    let mut d = IFD::new();
    d.add_tag(273, IFDField::Long(vec![offset as u32]));
    d.add_tag(279, IFDField::Long(vec![length as u32]));
    w.write_ifd(&d).unwrap();
    let mut s = ByteStream::new(w.into_inner());
    let r = MetadataReader::read_header(&mut s).unwrap();
    let ifd = &r.ifds()[0];
    let off = ifd.get(273).unwrap().first_long().unwrap() as usize;
    let len = ifd.get(279).unwrap().first_long().unwrap() as usize;
    assert_eq!(r.read_raw_range(&mut s, off, len), Ok(vec![5, 6, 7]));
    assert_eq!(r.read_raw_range(&mut s, off, 1000), Err(TiffError::UnexpectedEof));
}

#[test]
fn external_chain_reads_from_an_offset() {
    let mut w = MetadataWriter::write_header(Endianness::Little);
    w.write_ifd(&d2()).unwrap();
    let bytes = w.into_inner();
    let mut s = ByteStream::new(bytes);
    let r = MetadataReader::read_header(&mut s).unwrap();
    assert_eq!(r.read_external_ifd_table(4, &mut s), Ok(vec![d2()]));
}

#[test]
fn cyclic_chain_fails() {
    // A directory with no entries at 8 whose next pointer leads back to it.
    let bytes = vec![b'I', b'I', 42, 0, 8, 0, 0, 0, 0, 0, 8, 0, 0, 0];
    let mut s = ByteStream::new(bytes);
    assert!(matches!(MetadataReader::read_header(&mut s), Err(TiffError::CyclicChain)));
}

#[test]
fn truncated_directory_fails() {
    let bytes = vec![b'M', b'M', 0, 42, 0, 0, 0, 8, 0, 2, 0, 1];
    let mut s = ByteStream::new(bytes);
    assert!(matches!(MetadataReader::read_header(&mut s), Err(TiffError::UnexpectedEof)));
}

#[test]
fn unrecognized_field_survives_reading() {
    // One entry of type 9999 at offset 8, then a zero pointer.
    let mut bytes = vec![b'I', b'I', 42, 0, 8, 0, 0, 0, 1, 0];
    bytes.extend_from_slice(&[7, 0, 0x0F, 0x27, 3, 0, 0, 0, 1, 2, 3, 4]);
    bytes.extend_from_slice(&[0, 0, 0, 0]);
    let mut s = ByteStream::new(bytes);
    let r = MetadataReader::read_header(&mut s).unwrap();
    assert_eq!(
        r.ifds()[0].entries[0].data,
        IFDField::Unrecognized { tag_type: 9999, count: 3, value_or_offset: [1, 2, 3, 4] }
    );
    let mut w = MetadataWriter::write_header(Endianness::Little);
    w.write_ifd(&r.ifds()[0]).unwrap();
    let mut s = ByteStream::new(w.into_inner());
    let back = MetadataReader::read_header(&mut s).unwrap();
    assert!(back.ifds()[0].entries.is_empty());
}
