use std::fmt::Debug;

use storekey::{decode, decode_borrow, encode_vec, BorrowDecode, Decode, Encode, StrReference};

fn check_primitive<T>(v: T)
where
    T: Encode + Decode + for<'a> BorrowDecode<'a> + PartialEq + Debug,
{
    let enc = encode_vec(&v).unwrap();
    let dec: T = decode(enc.as_slice()).unwrap();
    assert_eq!(v, dec);
    let dec: T = decode_borrow(enc.as_slice()).unwrap();
    assert_eq!(v, dec);
}

#[test]
fn primitive_u8() {
    check_primitive(0u8);
    check_primitive(u8::MIN);
    check_primitive(u8::MAX);
}

#[test]
fn primitive_i8() {
    check_primitive(0i8);
    check_primitive(i8::MIN);
    check_primitive(i8::MAX);
}

#[test]
fn primitive_u16() {
    check_primitive(0u16);
    check_primitive(u16::MIN);
    check_primitive(u16::MAX);
}

#[test]
fn primitive_i16() {
    check_primitive(0i16);
    check_primitive(i16::MIN);
    check_primitive(i16::MAX);
}

#[test]
fn primitive_u32() {
    check_primitive(0u32);
    check_primitive(u32::MIN);
    check_primitive(u32::MAX);
}

#[test]
fn primitive_i32() {
    check_primitive(0i32);
    check_primitive(i32::MIN);
    check_primitive(i32::MAX);
}

#[test]
fn primitive_u64() {
    check_primitive(0u64);
    check_primitive(u64::MIN);
    check_primitive(u64::MAX);
}

#[test]
fn primitive_i64() {
    check_primitive(0i64);
    check_primitive(i64::MIN);
    check_primitive(i64::MAX);
}

#[test]
fn primitive_u128() {
    check_primitive(0u128);
    check_primitive(u128::MIN);
    check_primitive(u128::MAX);
}

#[test]
fn primitive_i128() {
    check_primitive(0i128);
    check_primitive(i128::MIN);
    check_primitive(i128::MAX);
}

fn test_vec<T>(vec: Vec<T>)
where
    T: Decode + Encode + for<'a> BorrowDecode<'a> + Debug + PartialEq,
{
    let enc = encode_vec(&vec).unwrap();
    let dec: Vec<T> = decode(enc.as_slice()).unwrap();
    assert_eq!(vec, dec);
    let dec: Vec<T> = decode_borrow(enc.as_slice()).unwrap();
    assert_eq!(vec, dec);
}

#[test]
fn vec() {
    test_vec::<u8>(vec![]);
    test_vec(vec![1u8, 2u8, 3u8]);
    test_vec(vec![0u32]);
    test_vec(vec![0x01_01_01_01u32]);
    test_vec(vec!["hello".to_string()]);
    test_vec(vec![vec![0x01_01_01_01u32]]);
}

fn test_order<O: PartialOrd + Encode + ?Sized>(a: &O, b: &O) {
    let a_enc = encode_vec(a).unwrap();
    let b_enc = encode_vec(b).unwrap();
    assert_eq!(a.partial_cmp(b), a_enc.partial_cmp(&b_enc))
}

/// An ordered map given as its entries, in key order.
fn b<const S: usize>(map: [(u8, u8); S]) -> Vec<(u8, u8)> {
    let m: std::collections::BTreeMap<u8, u8> = map.into_iter().collect();
    m.into_iter().collect()
}

#[test]
fn ordering() {
    test_order(&0u8, &0);
    test_order(&0u8, &1);
    test_order(&0u8, &255);

    test_order("a", "b");
    test_order("\x00", "\x00");
    test_order("\x00", "\x00\x00");
    test_order("\x00", "\x01");
    test_order("a\x00", "a\x01");

    test_order(&vec![0u8], &vec![1]);
    test_order(&vec![0u8, 0], &vec![0, 1]);
    test_order(&vec![0u8], &vec![0, 0]);
    test_order(&vec![255u8], &vec![0, 1]);

    test_order(&b::<0>([]), &b([]));
    test_order(&b([(0u8, 1u8)]), &b([(0u8, 0u8)]));
    test_order(&b([(0u8, 0u8), (1, 1)]), &b([(0, 0), (1, 0)]));
}

#[test]
fn test_cow() {
    let data = "hello";
    let enc = encode_vec(data).unwrap();
    let dec: StrReference = decode_borrow(enc.as_slice()).unwrap();
    assert_eq!(data, dec.as_str());
    assert!(matches!(dec, StrReference::Borrowed(_)));

    let data = "hello\x00";
    let enc = encode_vec(data).unwrap();
    let dec: StrReference = decode_borrow(enc.as_slice()).unwrap();
    assert_eq!(data, dec.as_str());
    assert!(matches!(dec, StrReference::Copied(_)));
}
