use std::fmt::Debug;

use storekey::{decode, decode_borrow, encode_vec, BorrowDecode, Decode, Encode, StrReference};

fn roundtrip_inner<T>(v: T)
where
    T: Encode + Decode + for<'a> BorrowDecode<'a> + PartialEq + Debug,
{
    let serialized = encode_vec(&v).unwrap();
    let v2: T = decode(&serialized).unwrap();
    assert_eq!(v, v2);
    let v3: T = decode_borrow(&serialized).unwrap();
    assert_eq!(v, v3);
}

fn roundtrip<T>(v: T)
where
    T: Encode + Decode + for<'a> BorrowDecode<'a> + PartialEq + Debug + Clone,
{
    roundtrip_inner(v.clone());
    let array = [v.clone(), v.clone()];
    roundtrip_inner(array);
}

fn expect<T>(t: T, expected: &[u8])
where
    T: Encode + Decode + PartialEq + Debug,
{
    assert_eq!(encode_vec(&t).unwrap(), expected);
    assert_eq!(decode::<T>(expected).unwrap(), t);
}

fn less<T: Encode + Debug + PartialOrd + ?Sized>(a: &T, b: &T) {
    assert!(a < b, "{a:?} < {b:?} (before serialization)");
    let ea = encode_vec(a).unwrap();
    let eb = encode_vec(b).unwrap();
    assert!(ea < eb, "{ea:?} < {eb:?} (after serialization)");
}

#[test]
fn unit() {
    expect((), &[]);
}

#[test]
fn boolean() {
    expect(false, &[2]);
    expect(true, &[3]);
    less(&false, &true);
}

#[test]
fn option() {
    expect(None::<u8>, &[2]);
    expect(Some::<u8>(5), &[3, 5]);
}

#[test]
fn int_order() {
    less(&0, &1);
    less(&30, &1000);
    less(&0, &u32::MAX);
    less(&0, &u64::MAX);
    less(&i8::MIN, &i8::MAX);
    less(&-1, &0);
    less(&-1, &1);
    less(&i64::MIN, &i64::MAX);
}

#[test]
fn fuzz_varint() {
    let mut n = 0u64;
    loop {
        roundtrip(n);
        roundtrip(u64::MAX - n);
        roundtrip(n as i64);
        roundtrip((u64::MAX - n) as i64);
        n = if let Some(next) = n.checked_add(1).and_then(|n| n.checked_mul(2)) {
            next
        } else {
            break;
        };
    }
}

#[test]
fn chars() {
    roundtrip('a');
    less(&'a', &'b');

    for u in 1..=char::MAX as u32 {
        if let Some(c) = char::from_u32(u) {
            roundtrip(c);
        }
    }

    expect('a', &[0, 0, 0, b'a']);
    assert_eq!(encode_vec("a").unwrap(), vec![b'a', 0]);
}

#[test]
fn enums() {
    expect(Ok::<u8, ()>(5), &[2, 5]);
    expect(Err::<(), u8>(10), &[3, 10]);
    expect(vec![Ok::<u8, ()>(5)], &[2, 5, 0]);

    roundtrip(Ok::<u8, ()>(42));
    roundtrip(Err::<u8, String>("hello".to_owned()));
}

#[test]
fn vector() {
    roundtrip(vec![2, 3, 4, 5]);
}

#[test]
fn bytes() {
    roundtrip(vec![5u8; 9]);
}

#[test]
fn strings() {
    expect("foo".to_owned(), b"foo\0");
    roundtrip("".to_owned());
    roundtrip("hello world!".to_owned());
    roundtrip("adiós".to_owned());
    less("aaa", "bbb");
}

#[test]
fn borrowed_string() {
    let (one, two): (StrReference, StrReference) = decode_borrow(b"\0\0").unwrap();
    assert_eq!((one.as_str(), two.as_str()), ("", ""));
    let (one, two): (StrReference, StrReference) = decode_borrow(b"foo\0test\0").unwrap();
    assert_eq!((one.as_str(), two.as_str()), ("foo", "test"));
}

#[test]
fn fixed_sized_array() {
    let array: [u8; 5] = [2, 3, 4, 5, 6];
    roundtrip(array);
}
