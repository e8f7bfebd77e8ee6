use storekey::discriminant::{
    borrow_read_discriminant, discriminant_value, discriminant_width, read_discriminant,
    write_discriminant,
};
use storekey::float::{f32_bits, f32_key, f64_bits, f64_key};
use storekey::{
    Bound, decode, decode_borrow, encode, encode_vec, BorrowReader, DecodeError, EncodeError,
    EscapedSlice, EscapedStr, MessageError, ReadReference, Reader, Reference, SliceReader,
    StrReference, Writer,
};

#[test]
fn table_of_encodings() {
    assert_eq!(encode_vec(&()).unwrap(), Vec::<u8>::new());
    assert_eq!(encode_vec(&false).unwrap(), vec![0x02]);
    assert_eq!(encode_vec(&true).unwrap(), vec![0x03]);
    assert_eq!(encode_vec(&None::<u8>).unwrap(), vec![0x02]);
    assert_eq!(encode_vec(&Some(5u8)).unwrap(), vec![0x03, 0x05]);
    assert_eq!(encode_vec(&'a').unwrap(), vec![0x00, 0x00, 0x00, 0x61]);
    assert_eq!(encode_vec("a").unwrap(), vec![0x61, 0x00]);
    assert_eq!(encode_vec("foo").unwrap(), vec![0x66, 0x6f, 0x6f, 0x00]);
    assert_eq!(encode_vec("").unwrap(), vec![0x00]);
    assert_eq!(encode_vec(&vec![0x00u8, 0x01]).unwrap(), vec![0x01, 0x00, 0x01, 0x01, 0x00]);
    assert_eq!(encode_vec(&i8::MIN).unwrap(), vec![0x00]);
    assert_eq!(encode_vec(&i8::MAX).unwrap(), vec![0xFF]);
}

#[test]
fn four_byte_discriminant() {
    // A union of more than 65535 variants: variant 0 is four zero bytes.
    let mut w = Writer::new(Vec::new());
    write_discriminant(&mut w, 0, 70_000).unwrap();
    w.write_u8(5).unwrap();
    assert_eq!(w.into_inner(), vec![0x00, 0x00, 0x00, 0x00, 0x05]);
}

#[test]
fn discriminant_widths() {
    let mut w = Writer::new(Vec::new());
    write_discriminant(&mut w, 0, 3).unwrap();
    write_discriminant(&mut w, 252, 253).unwrap();
    write_discriminant(&mut w, 253, 254).unwrap();
    write_discriminant(&mut w, 65_535, 65_536).unwrap();
    let bytes = w.into_inner();
    assert_eq!(bytes, vec![0x02, 0xFE, 0x00, 0xFD, 0x00, 0x00, 0xFF, 0xFF]);

    let mut r = Reader::new(bytes.clone());
    assert_eq!(read_discriminant(&mut r, 3).unwrap(), 0);
    assert_eq!(read_discriminant(&mut r, 253).unwrap(), 252);
    assert_eq!(read_discriminant(&mut r, 254).unwrap(), 253);
    assert_eq!(read_discriminant(&mut r, 65_536).unwrap(), 65_535);
    assert!(r.is_empty().unwrap());

    let mut r = BorrowReader::new(&bytes);
    assert_eq!(borrow_read_discriminant(&mut r, 3).unwrap(), 0);
    assert!(matches!(borrow_read_discriminant(&mut r, 3), Err(DecodeError::InvalidFormat)));
}

#[test]
fn unknown_discriminant_is_invalid() {
    let mut r = Reader::new(vec![0x05]);
    assert!(matches!(read_discriminant(&mut r, 3), Err(DecodeError::InvalidFormat)));
    let mut r = Reader::new(vec![0x01]);
    assert!(matches!(read_discriminant(&mut r, 3), Err(DecodeError::InvalidFormat)));
    let mut r = Reader::new(vec![]);
    assert!(matches!(read_discriminant(&mut r, 3), Err(DecodeError::UnexpectedEnd)));
}

#[test]
fn two_empty_strings() {
    let (one, two): (String, String) = decode(b"\0\0").unwrap();
    assert_eq!((one.as_str(), two.as_str()), ("", ""));
    let (one, two): (String, String) = decode(b"foo\0test\0").unwrap();
    assert_eq!((one.as_str(), two.as_str()), ("foo", "test"));
}

#[test]
fn integers_across_sign_boundary() {
    assert!(encode_vec(&-1i64).unwrap() < encode_vec(&0i64).unwrap());
    assert!(encode_vec(&-1i64).unwrap() < encode_vec(&1i64).unwrap());
    assert!(encode_vec(&i64::MIN).unwrap() < encode_vec(&i64::MAX).unwrap());
    assert_eq!(encode_vec(&i64::MIN).unwrap(), vec![0; 8]);
    assert_eq!(encode_vec(&-1i32).unwrap(), vec![0x7F, 0xFF, 0xFF, 0xFF]);
    assert_eq!(encode_vec(&1i16).unwrap(), vec![0x80, 0x01]);
    assert_eq!(encode_vec(&0x0102u16).unwrap(), vec![0x01, 0x02]);
}

#[test]
fn string_order() {
    assert!(encode_vec("a").unwrap() < encode_vec("b").unwrap());
    assert!(encode_vec("\x00").unwrap() < encode_vec("\x00\x00").unwrap());
    assert!(encode_vec("\x00").unwrap() < encode_vec("\x01").unwrap());
    assert!(encode_vec("a\x00").unwrap() < encode_vec("a\x01").unwrap());
}

#[test]
fn byte_sequence_order() {
    let e = |v: Vec<u8>| encode_vec(&v).unwrap();
    assert!(e(vec![0]) < e(vec![1]));
    assert!(e(vec![0]) < e(vec![0, 0]));
    assert!(!(e(vec![255]) < e(vec![0, 1])));
    assert!(e(vec![0, 1]) < e(vec![255]));
}

#[test]
fn map_entries_order() {
    let e = |v: Vec<(u8, u8)>| encode_vec(&v).unwrap();
    assert!(e(vec![(0, 0)]) < e(vec![(0, 1)]));
    assert!(e(vec![(0, 0)]) < e(vec![(0, 0), (1, 0)]));
    assert!(e(vec![(0, 0), (1, 0)]) < e(vec![(0, 0), (1, 1)]));
    assert!(e(vec![]) < e(vec![(0, 0)]));
    assert_eq!(e(vec![(0, 1)]), vec![0x01, 0x00, 0x01, 0x00]);
}

#[test]
fn floats() {
    const NEGATIVE_NAN: u64 = 18444492273895866368;
    let ordering64 = [
        f64::from_bits(NEGATIVE_NAN),
        f64::NEG_INFINITY,
        -10.0,
        -1.0,
        -f64::MIN_POSITIVE,
        0.0,
        f64::MIN_POSITIVE,
        1.0,
        10.0,
        f64::INFINITY,
        f64::NAN,
    ];
    for window in ordering64.windows(2) {
        let a = encode_vec(&f64_key(window[0].to_bits())).unwrap();
        let b = encode_vec(&f64_key(window[1].to_bits())).unwrap();
        assert!(a < b, "{:?} < {:?}", window[0], window[1]);
        assert_eq!(f64_bits(f64_key(window[0].to_bits())), window[0].to_bits());
    }
    // Casting a NaN to `f32` does not promise to keep its sign: the negative
    // NaN is written as bits.
    let ordering32 = [
        f32::from_bits(0xFFC0_0000),
        f32::NEG_INFINITY,
        -10.0,
        -1.0,
        -f32::MIN_POSITIVE,
        0.0,
        f32::MIN_POSITIVE,
        1.0,
        10.0,
        f32::INFINITY,
        f32::NAN,
    ];
    for window in ordering32.windows(2) {
        let a = encode_vec(&f32_key(window[0].to_bits())).unwrap();
        let b = encode_vec(&f32_key(window[1].to_bits())).unwrap();
        assert!(a < b, "{:?} < {:?}", window[0], window[1]);
        assert_eq!(f32_bits(f32_key(window[0].to_bits())), window[0].to_bits());
    }
    assert_eq!(f64_key(0.0f64.to_bits()), 0x8000_0000_0000_0000);
    assert_eq!(f64_key((-0.0f64).to_bits()), 0x7FFF_FFFF_FFFF_FFFF);
    assert_eq!(f32_key(1.0f32.to_bits()), 0xBF80_0000);
}

#[test]
fn decode_errors() {
    assert!(matches!(decode::<u32>(&[0, 0, 1]), Err(DecodeError::UnexpectedEnd)));
    assert!(matches!(decode::<u8>(&[1, 2]), Err(DecodeError::BytesRemaining)));
    assert!(matches!(decode::<bool>(&[7]), Err(DecodeError::InvalidFormat)));
    assert!(matches!(decode::<Option<u8>>(&[4]), Err(DecodeError::InvalidFormat)));
    assert!(matches!(decode::<char>(&[0, 0, 0xD8, 0]), Err(DecodeError::InvalidFormat)));
    assert!(matches!(decode::<char>(&[0, 0x11, 0, 0]), Err(DecodeError::InvalidFormat)));
    assert!(matches!(decode::<String>(&[0xFF, 0]), Err(DecodeError::Utf8)));
    assert!(matches!(decode::<String>(b"abc"), Err(DecodeError::UnexpectedEnd)));
    assert!(matches!(decode::<Vec<u8>>(&[1]), Err(DecodeError::UnexpectedEnd)));
    assert!(matches!(decode_borrow::<StrReference>(&[0xC3, 0]), Err(DecodeError::Utf8)));
    assert!(matches!(decode_borrow::<[u8; 3]>(&[1, 2]), Err(DecodeError::UnexpectedEnd)));
    assert!(matches!(decode_borrow::<u16>(&[1, 2, 3]), Err(DecodeError::BytesRemaining)));
}

#[test]
fn valid_chars_decode() {
    assert_eq!(decode::<char>(&[0, 0, 0xD7, 0xFF]).unwrap(), '\u{D7FF}');
    assert_eq!(decode::<char>(&[0, 0x10, 0xFF, 0xFF]).unwrap(), '\u{10FFFF}');
    assert_eq!(decode_borrow::<char>(&[0, 0, 0, 0x41]).unwrap(), 'A');
}

#[test]
fn custom_errors() {
    match EncodeError::message("bad value") {
        EncodeError::Custom(MessageError(m)) => assert_eq!(m, "bad value"),
        _ => panic!("expected a custom error"),
    }
    match DecodeError::message("bad input") {
        DecodeError::Custom(MessageError(m)) => assert_eq!(m, "bad input"),
        _ => panic!("expected a custom error"),
    }
    assert!(matches!(
        EncodeError::custom(MessageError("x".to_owned())),
        EncodeError::Custom(_)
    ));
    assert!(matches!(
        DecodeError::custom(MessageError("y".to_owned())),
        DecodeError::Custom(_)
    ));
}

#[test]
fn encode_appends() {
    let mut buf = vec![9u8];
    encode(&mut buf, &7u16).unwrap();
    encode(&mut buf, "ab").unwrap();
    assert_eq!(buf, vec![9, 0, 7, b'a', b'b', 0]);
}

#[test]
fn writer_escapes_after_mark() {
    let mut w = Writer::new(Vec::new());
    w.mark_terminator();
    w.write_u8(0).unwrap();
    w.mark_terminator();
    w.write_u8(1).unwrap();
    w.mark_terminator();
    w.write_u8(2).unwrap();
    w.write_u8(0).unwrap();
    w.mark_terminator();
    w.write_array([0u8, 0]).unwrap();
    w.write_terminator().unwrap();
    assert_eq!(w.into_inner(), vec![1, 0, 1, 1, 2, 0, 1, 0, 0, 0]);
}

#[test]
fn reader_unescapes_when_expecting() {
    let mut r = Reader::new(vec![1, 0, 5, 1, 1, 2]);
    r.expect_escaped();
    assert_eq!(r.read_u8().unwrap(), 0);
    r.expect_escaped();
    assert_eq!(r.read_u8().unwrap(), 5);
    assert_eq!(r.read_u8().unwrap(), 1);
    assert_eq!(r.read_array::<2>().unwrap(), [1, 2]);
    assert!(r.is_empty().unwrap());
}

#[test]
fn read_terminal_peeks() {
    let mut r = BorrowReader::new(&[0, 7]);
    assert!(r.read_terminal().unwrap());
    assert!(!r.read_terminal().unwrap());
    assert_eq!(r.read_u8().unwrap(), 7);
    assert!(matches!(r.read_terminal(), Err(DecodeError::UnexpectedEnd)));
}

#[test]
fn zero_copy_bytes() {
    let mut r = BorrowReader::new(b"ab\0c\x01\x01d\0");
    match r.read_cow().unwrap() {
        Reference::Borrowed(s) => assert_eq!(s, b"ab"),
        Reference::Copied(_) => panic!("expected a borrowed slice"),
    }
    match r.read_cow().unwrap() {
        Reference::Copied(v) => assert_eq!(v, b"c\x01d".to_vec()),
        Reference::Borrowed(_) => panic!("expected a copy"),
    }
    assert!(r.is_empty());

    let input = b"x\x01\x00y\0".to_vec();
    let dec: Reference = decode_borrow(&input).unwrap();
    assert_eq!(dec.as_bytes(), b"x\x00y");
    assert_eq!(encode_vec(&dec).unwrap(), input);
}

#[test]
fn escaped_views() {
    let input = b"a\x01\x00b\x01\x01\0rest";
    let mut r = BorrowReader::new(input);
    let s: EscapedSlice = r.read_escaped_slice().unwrap();
    assert_eq!(s.as_bytes(), b"a\x01\x00b\x01\x01\0");
    assert!(s.eq_bytes(b"a\x00b\x01"));
    assert!(!s.eq_bytes(b"a\x00b"));
    assert!(!s.eq_bytes(b"a\x00b\x01c"));
    let mut it = s.iter();
    let mut out = Vec::new();
    while let Some(b) = it.next() {
        out.push(b);
    }
    assert_eq!(out, b"a\x00b\x01".to_vec());
    assert_eq!(encode_vec(&s).unwrap(), b"a\x01\x00b\x01\x01\0".to_vec());

    let enc = encode_vec("x\x00y").unwrap();
    let e: EscapedStr = decode_borrow(&enc).unwrap();
    assert!(e.eq_str("x\x00y"));
    assert!(!e.eq_str("x"));
    let mut chars = e.chars();
    let mut text = String::new();
    while let Some(c) = chars.next() {
        text.push(c);
    }
    assert_eq!(text, "x\x00y");
    assert_eq!(e.as_bytes(), enc.as_slice());
    assert_eq!(encode_vec(&e).unwrap(), enc);
    assert!(matches!(decode_borrow::<EscapedStr>(&[0xFF, 0]), Err(DecodeError::Utf8)));
}

#[test]
fn slice_reader_splits_at_delimiter() {
    let data = b"key\0value\0tail";
    let mut r = SliceReader::new(data);
    match r.read_reference_until(0).unwrap() {
        Reference::Borrowed(s) => assert_eq!(s, b"key"),
        Reference::Copied(_) => panic!("expected a borrowed slice"),
    }
    assert_eq!(r.read_reference_until(0).unwrap().as_bytes(), b"value");
    assert!(matches!(r.read_reference_until(0), Err(DecodeError::UnexpectedEnd)));
    assert_eq!(r.read_reference_until(b'l').unwrap().as_bytes(), b"tai");
}

#[test]
fn empty_string_inside_vec_reads_as_end() {
    // The empty string's encoding is a lone terminator, so inside a sequence it
    // is taken for the end of the sequence.
    let enc = encode_vec(&vec![String::new()]).unwrap();
    assert_eq!(enc, vec![0, 0]);
    assert!(matches!(decode::<Vec<String>>(&enc), Err(DecodeError::BytesRemaining)));
}

#[test]
fn nested_and_arrays() {
    let v: Vec<Option<Vec<u16>>> = vec![None, Some(vec![]), Some(vec![0, 0x0100, 7])];
    let enc = encode_vec(&v).unwrap();
    assert_eq!(decode::<Vec<Option<Vec<u16>>>>(&enc).unwrap(), v);
    let a: [(u8, i32); 3] = [(0, -1), (1, 0), (2, i32::MIN)];
    let enc = encode_vec(&a).unwrap();
    assert_eq!(decode::<[(u8, i32); 3]>(&enc).unwrap(), a);
    assert_eq!(decode_borrow::<[(u8, i32); 3]>(&enc).unwrap(), a);
    let empty: [u8; 0] = [];
    assert_eq!(encode_vec(&empty).unwrap(), Vec::<u8>::new());
    assert_eq!(decode::<[u8; 0]>(&[]).unwrap(), empty);
}

#[test]
fn bounds() {
    assert_eq!(encode_vec(&Bound::<u8>::Unbounded).unwrap(), vec![2]);
    assert_eq!(encode_vec(&Bound::Included(5u8)).unwrap(), vec![3, 5]);
    assert_eq!(encode_vec(&Bound::Excluded(5u8)).unwrap(), vec![4, 5]);
    assert!(encode_vec(&Bound::Included(9u8)).unwrap() < encode_vec(&Bound::Excluded(9u8)).unwrap());
    for b in [Bound::Unbounded, Bound::Included(-3i32), Bound::Excluded(7i32)] {
        let enc = encode_vec(&b).unwrap();
        assert_eq!(decode::<Bound<i32>>(&enc).unwrap(), b);
        let again = encode_vec(&decode_borrow::<Bound<i32>>(&enc).unwrap()).unwrap();
        assert_eq!(again, enc);
    }
    assert!(matches!(decode::<Bound<u8>>(&[5, 0]), Err(DecodeError::InvalidFormat)));
}

#[test]
fn tuples_and_boxes() {
    let t = (1u8, "two".to_owned(), -3i16, vec![4u32]);
    let enc = encode_vec(&t).unwrap();
    assert_eq!(decode::<(u8, String, i16, Vec<u32>)>(&enc).unwrap(), t);
    let one = (7u64,);
    let enc = encode_vec(&one).unwrap();
    assert_eq!(enc, vec![0, 0, 0, 0, 0, 0, 0, 7]);
    assert_eq!(decode_borrow::<(u64,)>(&enc).unwrap(), one);
    let three = (true, 'x', None::<u8>);
    let enc = encode_vec(&three).unwrap();
    assert_eq!(enc, vec![3, 0, 0, 0, b'x', 2]);
    assert_eq!(decode::<(bool, char, Option<u8>)>(&enc).unwrap(), three);
    let boxed = Box::new(258u16);
    let enc = encode_vec(&boxed).unwrap();
    assert_eq!(enc, vec![1, 2]);
    assert_eq!(decode::<Box<u16>>(&enc).unwrap(), boxed);
    let r = &&5u8;
    assert_eq!(encode_vec(r).unwrap(), vec![5]);
}

#[test]
fn escaped_slice_equality() {
    let a_bytes = b"a\x01\x00\0".to_vec();
    let b_bytes = b"a\x01\x00\0tail".to_vec();
    let mut ra = BorrowReader::new(&a_bytes);
    let mut rb = BorrowReader::new(&b_bytes);
    let a = ra.read_escaped_slice().unwrap();
    let b = rb.read_escaped_slice().unwrap();
    assert!(a == b);
    assert_eq!(a.to_vec(), b"a\x00".to_vec());
    let c_bytes = b"a\0".to_vec();
    let mut rc = BorrowReader::new(&c_bytes);
    let c = rc.read_escaped_slice().unwrap();
    assert!(a != c);
}

#[test]
fn escaped_counterparts() {
    fn same<T>(_: Option<T>, _: Option<T>) {}
    same::<<&str as storekey::ToEscaped>::Escaped<'static>>(None, None::<EscapedStr<'static>>);
    same::<<Vec<u8> as storekey::ToEscaped>::Escaped<'static>>(None, None::<Vec<u8>>);
    same::<<&[u8] as storekey::ToEscaped>::Escaped<'static>>(None, None::<EscapedSlice<'static>>);
}

#[test]
fn reencoding_gives_the_same_bytes() {
    let values: Vec<(String, Option<i64>)> = vec![
        ("".to_owned(), None),
        ("\x00\x01".to_owned(), Some(-1)),
        ("key".to_owned(), Some(i64::MAX)),
    ];
    for v in values {
        let b = encode_vec(&v).unwrap();
        let d: (String, Option<i64>) = decode(&b).unwrap();
        assert_eq!(encode_vec(&d).unwrap(), b);
        let e: (StrReference, Option<i64>) = decode_borrow(&b).unwrap();
        assert_eq!(encode_vec(&e).unwrap(), b);
    }
}

#[test]
fn error_descriptions() {
    assert_eq!(
        DecodeError::UnexpectedEnd.describe(),
        "Reader did not have enough data to properly decode type"
    );
    assert_eq!(
        DecodeError::BytesRemaining.describe(),
        "Reader had data remaining after type was fully decoded."
    );
    assert_eq!(
        DecodeError::InvalidFormat.describe(),
        "Found an invalid byte sequence which could not be deserialized properly."
    );
    assert_eq!(DecodeError::Utf8.describe(), "Could not decode string due to invalid utf8");
    assert_eq!(DecodeError::Io("gone".to_owned()).describe(), "Io Error: gone");
    assert_eq!(DecodeError::message("mine").describe(), "mine");
    assert_eq!(EncodeError::Io("full".to_owned()).describe(), "Io Error: full");
    assert_eq!(EncodeError::message("nope").describe(), "nope");
    assert_eq!(MessageError("m".to_owned()).describe(), "m");
}

#[test]
fn discriminant_choices() {
    assert_eq!(discriminant_width(0), None);
    assert_eq!(discriminant_width(1), Some(1));
    assert_eq!(discriminant_width(253), Some(1));
    assert_eq!(discriminant_width(254), Some(2));
    assert_eq!(discriminant_width(65_535), Some(2));
    assert_eq!(discriminant_width(65_536), Some(4));
    assert_eq!(discriminant_value(0, 4), 2);
    assert_eq!(discriminant_value(250, 253), 252);
    assert_eq!(discriminant_value(0, 300), 0);
    assert_eq!(discriminant_value(299, 300), 299);
}

#[test]
fn option_and_bound_order() {
    let e = |v: Option<u8>| encode_vec(&v).unwrap();
    assert!(e(None) < e(Some(0)));
    assert!(e(Some(0)) < e(Some(1)));
    assert!(e(Some(255)) > e(None));
    let b = |v: Bound<u16>| encode_vec(&v).unwrap();
    assert!(b(Bound::Unbounded) < b(Bound::Included(0)));
    assert!(b(Bound::Unbounded) < b(Bound::Excluded(0)));
    assert!(b(Bound::Included(7)) < b(Bound::Excluded(7)));
    assert!(b(Bound::Included(7)) < b(Bound::Included(8)));
    assert!(b(Bound::Excluded(0x100)) > b(Bound::Excluded(0xFF)));
}

#[test]
fn slices_encode_like_vectors() {
    let v = vec![0u16, 1, 0x0200];
    let s: &[u16] = &v;
    assert_eq!(encode_vec(s).unwrap(), encode_vec(&v).unwrap());
    assert_eq!(encode_vec(s).unwrap(), vec![1, 0, 0, 1, 0, 1, 2, 0, 0]);
}
