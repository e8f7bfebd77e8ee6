//! An order-preserving binary codec: values become byte strings whose
//! lexicographic order is the order of the values.
//!
//! The format is not self-describing: the type must be known to decode. Fixed-width
//! values are written big-endian (signed ones with the sign bit flipped);
//! variable-length sequences are written with each byte `<= 1` behind the escape
//! prefix `1` and end in a lone terminator `0`.
use vstd::prelude::*;

pub mod decode;
pub mod discriminant;
pub mod encode;
pub mod error;
pub mod float;
pub mod format;
pub mod laws;
pub mod prim;
pub mod read;
pub mod reader;
pub mod to_escaped;
pub mod types;
pub mod writer;

pub use error::{DecodeError, EncodeError, MessageError};
pub use read::{ReadReference, SliceReader};
pub use reader::{BorrowReader, Reader, Reference, StrReference};
pub use to_escaped::ToEscaped;
pub use types::{EscapedChars, EscapedIter, EscapedSlice, EscapedStr};
pub use writer::Writer;

verus! {

/// An endpoint of an interval.
#[derive(Debug, PartialEq, Eq)]
pub enum Bound<T> {
    /// The endpoint belongs to the interval.
    Included(T),
    /// The endpoint is just outside the interval.
    Excluded(T),
    /// There is no endpoint.
    Unbounded,
}

/// Types that can be encoded.
///
/// Composite encoders call `Writer::mark_terminator` wherever a decoder could
/// also meet a terminator, so that a leading byte `<= 1` there is escaped.
///
/// `F` is the format family: a type that only selects among several encodings
/// one type may have. The encodings here are the same in every family; `()`
/// is the default one.
pub trait Encode<F = ()> {
    /// The bytes this value appends to a writer whose escape flag is `pending`.
    spec fn encoding(&self, pending: bool) -> Seq<u8>;

    /// The writer's escape flag after this value, from `pending` before it.
    spec fn pending_after(&self, pending: bool) -> bool;

    /// Whether encoding this value succeeds.
    spec fn encodable(&self) -> bool;

    fn encode(&self, w: &mut Writer) -> (r: Result<(), EncodeError>)
        ensures
            self.encodable() ==> r is Ok,
            r is Ok ==> final(w).bytes() == old(w).bytes() + self.encoding(old(w).pending())
                && final(w).pending() == self.pending_after(old(w).pending()),
    ;
}

/// Types that can be decoded from an owned reader, in the format family `F`.
pub trait Decode<F = ()>: Sized {
    /// The mathematical value a decoded value stands for.
    type Model;

    spec fn model(&self) -> Self::Model;

    /// What decoding the input `s` yields, an escape being expected at its front
    /// or not: the model, the number of bytes taken, and whether an escape is
    /// expected afterwards; or the error.
    spec fn decoding(s: Seq<u8>, expect: bool) -> Result<(Self::Model, nat, bool), DecodeError>;

    fn decode(r: &mut Reader) -> (res: Result<Self, DecodeError>)
        ensures
            match Self::decoding(old(r).rest(), old(r).expecting()) {
                Ok((m, n, e)) => res matches Ok(v) && v.model() == m && n <= old(r).rest().len()
                    && final(r).rest() == old(r).rest().skip(n as int) && final(r).expecting() == e,
                Err(k) => res matches Err(x) && x == k,
            },
    ;
}

/// Types that can be decoded from a byte slice, possibly borrowing from it, in
/// the format family `F`.
pub trait BorrowDecode<'de, F = ()>: Sized {
    /// The mathematical value a decoded value stands for.
    type Model;

    spec fn model(&self) -> Self::Model;

    /// What decoding the input `s` yields, an escape being expected at its front
    /// or not: the model, the number of bytes taken, and whether an escape is
    /// expected afterwards; or the error.
    spec fn decoding(s: Seq<u8>, expect: bool) -> Result<(Self::Model, nat, bool), DecodeError>;

    fn borrow_decode(r: &mut BorrowReader<'de>) -> (res: Result<Self, DecodeError>)
        ensures
            match Self::decoding(old(r).rest(), old(r).expecting()) {
                Ok((m, n, e)) => res matches Ok(v) && v.model() == m && n <= old(r).rest().len()
                    && final(r).rest() == old(r).rest().skip(n as int) && final(r).expecting() == e,
                Err(k) => res matches Err(x) && x == k,
            },
    ;
}

/// Encodes `e` at the end of `w`.
pub fn encode<E: Encode + ?Sized>(w: &mut Vec<u8>, e: &E) -> (r: Result<(), EncodeError>)
    ensures
        e.encodable() ==> r is Ok,
        r is Ok ==> final(w)@ == old(w)@ + e.encoding(false),
{
    let mut buffer = Vec::new();
    std::mem::swap(w, &mut buffer);
    let mut writer = Writer::new(buffer);
    let r = e.encode(&mut writer);
    let mut out = writer.into_inner();
    std::mem::swap(w, &mut out);
    r
}

/// Encodes `e` into a new buffer.
pub fn encode_vec<E: Encode + ?Sized>(e: &E) -> (r: Result<Vec<u8>, EncodeError>)
    ensures
        e.encodable() ==> r is Ok,
        r matches Ok(b) ==> b@ == e.encoding(false),
{
    let mut writer = Writer::new(Vec::new());
    match e.encode(&mut writer) {
        Ok(()) => {
            let b = writer.into_inner();
            assert(b@ =~= Seq::<u8>::empty() + e.encoding(false));
            Ok(b)
        },
        Err(x) => Err(x),
    }
}

/// Decodes a `D` that must take all of `r`.
pub fn decode<D: Decode>(r: &[u8]) -> (res: Result<D, DecodeError>)
    ensures
        match D::decoding(r@, false) {
            Ok((m, n, _)) => if n == r@.len() {
                res matches Ok(v) && v.model() == m
            } else {
                res matches Err(DecodeError::BytesRemaining)
            },
            Err(k) => res matches Err(x) && x == k,
        },
{
    let mut reader = Reader::new(vstd::slice::slice_to_vec(r));
    let res = match D::decode(&mut reader) {
        Ok(v) => v,
        Err(e) => return Err(e),
    };
    match reader.is_empty() {
        Ok(true) => Ok(res),
        Ok(false) => Err(DecodeError::BytesRemaining),
        Err(e) => Err(e),
    }
}

/// Decodes a `D` that must take all of `r`, borrowing from `r` where it can.
pub fn decode_borrow<'de, D: BorrowDecode<'de>>(r: &'de [u8]) -> (res: Result<D, DecodeError>)
    ensures
        match D::decoding(r@, false) {
            Ok((m, n, _)) => if n == r@.len() {
                res matches Ok(v) && v.model() == m
            } else {
                res matches Err(DecodeError::BytesRemaining)
            },
            Err(k) => res matches Err(x) && x == k,
        },
{
    let mut reader = BorrowReader::new(r);
    let res = match D::borrow_decode(&mut reader) {
        Ok(v) => v,
        Err(e) => return Err(e),
    };
    if !reader.is_empty() {
        return Err(DecodeError::BytesRemaining);
    }
    Ok(res)
}

} // verus!
