use tiffy::{FieldExtractionError, IFDField, IFD};

#[test]
fn test_roundtrip_field_conversion() {
    let pair = (8u32, 9u32);
    let field = IFDField::from_rational(pair);
    let converted: (u32, u32) = field.first_rational().unwrap();
    assert_eq!(converted, pair);
}

#[test]
fn single_value_constructors() {
    assert_eq!(IFDField::from_byte(7), IFDField::Byte(vec![7]));
    assert_eq!(IFDField::from_short(300), IFDField::Short(vec![300]));
    assert_eq!(IFDField::from_long(70000), IFDField::Long(vec![70000]));
    assert_eq!(IFDField::from_short(300).first_short(), Ok(300));
    assert_eq!(IFDField::from_long(70000).first_long(), Ok(70000));
    assert_eq!(IFDField::from_byte(7).first_byte(), Ok(7));
}

#[test]
fn extraction_errors() {
    let field = IFDField::Short(vec![]);
    assert_eq!(field.first_short(), Err(FieldExtractionError::InsufficientData));
    assert_eq!(field.first_long(), Err(FieldExtractionError::WrongDataType));
    assert_eq!(field.longs(), Err(FieldExtractionError::WrongDataType));
    assert_eq!(field.shorts(), Ok(&[][..]));
    let ascii = IFDField::Ascii(vec!["a".to_string(), "b".to_string()]);
    assert_eq!(ascii.first_string(), Ok(&"a".to_string()));
    assert_eq!(ascii.strings().unwrap().len(), 2);
    assert_eq!(ascii.bytes(), Err(FieldExtractionError::WrongDataType));
    assert_eq!(IFDField::Byte(vec![1, 2]).bytes(), Ok(&[1u8, 2][..]));
    assert_eq!(IFDField::Rational(vec![(1, 2)]).rationals(), Ok(&[(1u32, 2u32)][..]));
}

#[test]
fn directory_lookup() {
    let mut ifd = IFD::new();
    ifd.add_tag(5, IFDField::from_short(1));
    ifd.add_tag(9, IFDField::from_long(2));
    ifd.add_tag(5, IFDField::from_short(3));
    assert_eq!(ifd.get_tag(5), Some(&IFDField::Short(vec![1])));
    assert_eq!(ifd.get_tag(6), None);
    assert_eq!(ifd.get(6), Err(FieldExtractionError::MissingTag { tag: 6 }));
    assert_eq!(ifd.get(9).unwrap().first_long(), Ok(2));
    *ifd.get_tag_mut(5).unwrap() = IFDField::from_short(42);
    assert_eq!(ifd.entries[0].data, IFDField::Short(vec![42]));
    assert_eq!(ifd.entries[2].data, IFDField::Short(vec![3]));
    assert!(ifd.get_tag_mut(77).is_none());
}
