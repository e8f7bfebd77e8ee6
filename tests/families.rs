use storekey::{decode, BorrowDecode, BorrowReader, Decode, Encode, Reader, Writer};

/// A format family of the caller's own.
struct Custom;

#[test]
fn formats() {
    // The library's codecs are the same in every family.
    let v: (u16, Vec<String>) = (513, vec!["a".to_owned(), "\x01".to_owned()]);
    let mut w = Writer::new(Vec::new());
    Encode::<Custom>::encode(&v, &mut w).unwrap();
    let bytes = w.into_inner();
    let mut w = Writer::new(Vec::new());
    Encode::<()>::encode(&v, &mut w).unwrap();
    assert_eq!(bytes, w.into_inner());

    let mut r = Reader::new(bytes.clone());
    let d: (u16, Vec<String>) = <(u16, Vec<String>) as Decode<Custom>>::decode(&mut r).unwrap();
    assert_eq!(d, v);
    let mut r = BorrowReader::new(&bytes);
    let d: (u16, Vec<String>) =
        <(u16, Vec<String>) as BorrowDecode<Custom>>::borrow_decode(&mut r).unwrap();
    assert_eq!(d, v);
    assert_eq!(decode::<(u16, Vec<String>)>(&bytes).unwrap(), v);
}
