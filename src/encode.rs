//! How values of std's types are encoded.
use vstd::prelude::*;

use crate::error::EncodeError;
use crate::format::{be, escape, fixed_out, lemma_be_one, signed_be};
use crate::reader::{Reference, StrReference};
use crate::types::{EscapedSlice, EscapedStr};
use crate::writer::Writer;
use crate::Bound;
use crate::Encode;
use vstd::utf8::encode_utf8;

verus! {

/// The encodings of the items of `xs` in turn, each written where a
/// terminator could also stand.
pub open spec fn encode_items<F, T: Encode<F>>(xs: Seq<T>) -> Seq<u8>
    decreases xs.len(),
{
    if xs.len() == 0 {
        Seq::empty()
    } else {
        encode_items::<F, T>(xs.drop_last()) + xs.last().encoding(true)
    }
}

impl<F> Encode<F> for u8 {
    open spec fn encoding(&self, pending: bool) -> Seq<u8> {
        fixed_out(pending, be(*self as nat, 1))
    }

    open spec fn pending_after(&self, pending: bool) -> bool {
        false
    }

    open spec fn encodable(&self) -> bool {
        true
    }

    fn encode(&self, w: &mut Writer) -> (r: Result<(), EncodeError>) {
        w.write_u8(*self)
    }
}

impl<F> Encode<F> for i8 {
    open spec fn encoding(&self, pending: bool) -> Seq<u8> {
        fixed_out(pending, signed_be(*self as int, 1))
    }

    open spec fn pending_after(&self, pending: bool) -> bool {
        false
    }

    open spec fn encodable(&self) -> bool {
        true
    }

    fn encode(&self, w: &mut Writer) -> (r: Result<(), EncodeError>) {
        w.write_i8(*self)
    }
}

impl<F> Encode<F> for u16 {
    open spec fn encoding(&self, pending: bool) -> Seq<u8> {
        fixed_out(pending, be(*self as nat, 2))
    }

    open spec fn pending_after(&self, pending: bool) -> bool {
        false
    }

    open spec fn encodable(&self) -> bool {
        true
    }

    fn encode(&self, w: &mut Writer) -> (r: Result<(), EncodeError>) {
        w.write_u16(*self)
    }
}

impl<F> Encode<F> for i16 {
    open spec fn encoding(&self, pending: bool) -> Seq<u8> {
        fixed_out(pending, signed_be(*self as int, 2))
    }

    open spec fn pending_after(&self, pending: bool) -> bool {
        false
    }

    open spec fn encodable(&self) -> bool {
        true
    }

    fn encode(&self, w: &mut Writer) -> (r: Result<(), EncodeError>) {
        w.write_i16(*self)
    }
}

impl<F> Encode<F> for u32 {
    open spec fn encoding(&self, pending: bool) -> Seq<u8> {
        fixed_out(pending, be(*self as nat, 4))
    }

    open spec fn pending_after(&self, pending: bool) -> bool {
        false
    }

    open spec fn encodable(&self) -> bool {
        true
    }

    fn encode(&self, w: &mut Writer) -> (r: Result<(), EncodeError>) {
        w.write_u32(*self)
    }
}

impl<F> Encode<F> for i32 {
    open spec fn encoding(&self, pending: bool) -> Seq<u8> {
        fixed_out(pending, signed_be(*self as int, 4))
    }

    open spec fn pending_after(&self, pending: bool) -> bool {
        false
    }

    open spec fn encodable(&self) -> bool {
        true
    }

    fn encode(&self, w: &mut Writer) -> (r: Result<(), EncodeError>) {
        w.write_i32(*self)
    }
}

impl<F> Encode<F> for u64 {
    open spec fn encoding(&self, pending: bool) -> Seq<u8> {
        fixed_out(pending, be(*self as nat, 8))
    }

    open spec fn pending_after(&self, pending: bool) -> bool {
        false
    }

    open spec fn encodable(&self) -> bool {
        true
    }

    fn encode(&self, w: &mut Writer) -> (r: Result<(), EncodeError>) {
        w.write_u64(*self)
    }
}

impl<F> Encode<F> for i64 {
    open spec fn encoding(&self, pending: bool) -> Seq<u8> {
        fixed_out(pending, signed_be(*self as int, 8))
    }

    open spec fn pending_after(&self, pending: bool) -> bool {
        false
    }

    open spec fn encodable(&self) -> bool {
        true
    }

    fn encode(&self, w: &mut Writer) -> (r: Result<(), EncodeError>) {
        w.write_i64(*self)
    }
}

impl<F> Encode<F> for u128 {
    open spec fn encoding(&self, pending: bool) -> Seq<u8> {
        fixed_out(pending, be(*self as nat, 16))
    }

    open spec fn pending_after(&self, pending: bool) -> bool {
        false
    }

    open spec fn encodable(&self) -> bool {
        true
    }

    fn encode(&self, w: &mut Writer) -> (r: Result<(), EncodeError>) {
        w.write_u128(*self)
    }
}

impl<F> Encode<F> for i128 {
    open spec fn encoding(&self, pending: bool) -> Seq<u8> {
        fixed_out(pending, signed_be(*self as int, 16))
    }

    open spec fn pending_after(&self, pending: bool) -> bool {
        false
    }

    open spec fn encodable(&self) -> bool {
        true
    }

    fn encode(&self, w: &mut Writer) -> (r: Result<(), EncodeError>) {
        w.write_i128(*self)
    }
}

impl<F> Encode<F> for bool {
    /// `2` for false, `3` for true: never a byte that needs escaping.
    open spec fn encoding(&self, pending: bool) -> Seq<u8> {
        if *self {
            seq![3u8]
        } else {
            seq![2u8]
        }
    }

    open spec fn pending_after(&self, pending: bool) -> bool {
        false
    }

    open spec fn encodable(&self) -> bool {
        true
    }

    fn encode(&self, w: &mut Writer) -> (r: Result<(), EncodeError>) {
        proof {
            lemma_be_one(2);
            lemma_be_one(3);
        }
        if *self {
            w.write_u8(3)
        } else {
            w.write_u8(2)
        }
    }
}

impl<F> Encode<F> for char {
    /// The code point, four bytes big-endian.
    open spec fn encoding(&self, pending: bool) -> Seq<u8> {
        fixed_out(pending, be(*self as u32 as nat, 4))
    }

    open spec fn pending_after(&self, pending: bool) -> bool {
        false
    }

    open spec fn encodable(&self) -> bool {
        true
    }

    fn encode(&self, w: &mut Writer) -> (r: Result<(), EncodeError>) {
        w.write_u32(*self as u32)
    }
}

impl<F> Encode<F> for str {
    /// The UTF-8 bytes as a variable-length sequence.
    open spec fn encoding(&self, pending: bool) -> Seq<u8> {
        escape(encode_utf8(self@)).push(0u8)
    }

    open spec fn pending_after(&self, pending: bool) -> bool {
        false
    }

    open spec fn encodable(&self) -> bool {
        true
    }

    fn encode(&self, w: &mut Writer) -> (r: Result<(), EncodeError>) {
        w.write_slice(self.as_bytes())
    }
}

impl<F> Encode<F> for String {
    /// The UTF-8 bytes as a variable-length sequence.
    open spec fn encoding(&self, pending: bool) -> Seq<u8> {
        escape(encode_utf8(self@)).push(0u8)
    }

    open spec fn pending_after(&self, pending: bool) -> bool {
        false
    }

    open spec fn encodable(&self) -> bool {
        true
    }

    fn encode(&self, w: &mut Writer) -> (r: Result<(), EncodeError>) {
        w.write_slice(self.as_str().as_bytes())
    }
}

impl<F> Encode<F> for () {
    open spec fn encoding(&self, pending: bool) -> Seq<u8> {
        Seq::empty()
    }

    open spec fn pending_after(&self, pending: bool) -> bool {
        pending
    }

    open spec fn encodable(&self) -> bool {
        true
    }

    fn encode(&self, w: &mut Writer) -> (r: Result<(), EncodeError>) {
        assert(w.bytes() + Seq::<u8>::empty() =~= w.bytes());
        Ok(())
    }
}

impl<F, A: Encode<F>> Encode<F> for (A,) {
    /// The fields in order, with no separator.
    open spec fn encoding(&self, pending: bool) -> Seq<u8> {
        self.0.encoding(pending)
    }

    open spec fn pending_after(&self, pending: bool) -> bool {
        let p1 = self.0.pending_after(pending);
        p1
    }

    open spec fn encodable(&self) -> bool {
        self.0.encodable()
    }

    fn encode(&self, w: &mut Writer) -> (r: Result<(), EncodeError>) {
        let r = self.0.encode(w);
        assert(r is Ok ==> w.bytes() =~= old(w).bytes() + self.encoding(old(w).pending()));
        r
    }
}

impl<F, A: Encode<F>, B: Encode<F>> Encode<F> for (A, B) {
    /// The fields in order, with no separator.
    open spec fn encoding(&self, pending: bool) -> Seq<u8> {
        let p1 = self.0.pending_after(pending);
        self.0.encoding(pending) + self.1.encoding(p1)
    }

    open spec fn pending_after(&self, pending: bool) -> bool {
        let p1 = self.0.pending_after(pending);
        let p2 = self.1.pending_after(p1);
        p2
    }

    open spec fn encodable(&self) -> bool {
        self.0.encodable() && self.1.encodable()
    }

    fn encode(&self, w: &mut Writer) -> (r: Result<(), EncodeError>) {
        match self.0.encode(w) {
            Ok(()) => {},
            Err(e) => return Err(e),
        }
        let r = self.1.encode(w);
        assert(r is Ok ==> w.bytes() =~= old(w).bytes() + self.encoding(old(w).pending()));
        r
    }
}

impl<F, A: Encode<F>, B: Encode<F>, C: Encode<F>> Encode<F> for (A, B, C) {
    /// The fields in order, with no separator.
    open spec fn encoding(&self, pending: bool) -> Seq<u8> {
        let p1 = self.0.pending_after(pending);
        let p2 = self.1.pending_after(p1);
        self.0.encoding(pending) + self.1.encoding(p1) + self.2.encoding(p2)
    }

    open spec fn pending_after(&self, pending: bool) -> bool {
        let p1 = self.0.pending_after(pending);
        let p2 = self.1.pending_after(p1);
        let p3 = self.2.pending_after(p2);
        p3
    }

    open spec fn encodable(&self) -> bool {
        self.0.encodable() && self.1.encodable() && self.2.encodable()
    }

    fn encode(&self, w: &mut Writer) -> (r: Result<(), EncodeError>) {
        match self.0.encode(w) {
            Ok(()) => {},
            Err(e) => return Err(e),
        }
        match self.1.encode(w) {
            Ok(()) => {},
            Err(e) => return Err(e),
        }
        let r = self.2.encode(w);
        assert(r is Ok ==> w.bytes() =~= old(w).bytes() + self.encoding(old(w).pending()));
        r
    }
}

impl<F, A: Encode<F>, B: Encode<F>, C: Encode<F>, D: Encode<F>> Encode<F> for (A, B, C, D) {
    /// The fields in order, with no separator.
    open spec fn encoding(&self, pending: bool) -> Seq<u8> {
        let p1 = self.0.pending_after(pending);
        let p2 = self.1.pending_after(p1);
        let p3 = self.2.pending_after(p2);
        self.0.encoding(pending)
            + self.1.encoding(p1)
            + self.2.encoding(p2)
            + self.3.encoding(p3)
    }

    open spec fn pending_after(&self, pending: bool) -> bool {
        let p1 = self.0.pending_after(pending);
        let p2 = self.1.pending_after(p1);
        let p3 = self.2.pending_after(p2);
        let p4 = self.3.pending_after(p3);
        p4
    }

    open spec fn encodable(&self) -> bool {
        self.0.encodable() && self.1.encodable() && self.2.encodable() && self.3.encodable()
    }

    fn encode(&self, w: &mut Writer) -> (r: Result<(), EncodeError>) {
        match self.0.encode(w) {
            Ok(()) => {},
            Err(e) => return Err(e),
        }
        match self.1.encode(w) {
            Ok(()) => {},
            Err(e) => return Err(e),
        }
        match self.2.encode(w) {
            Ok(()) => {},
            Err(e) => return Err(e),
        }
        let r = self.3.encode(w);
        assert(r is Ok ==> w.bytes() =~= old(w).bytes() + self.encoding(old(w).pending()));
        r
    }
}

impl<F, T: Encode<F>> Encode<F> for Bound<T> {
    /// `2` for unbounded; `3` then the endpoint for inclusive; `4` then the
    /// endpoint for exclusive, so inclusive sorts first at the same endpoint.
    open spec fn encoding(&self, pending: bool) -> Seq<u8> {
        match self {
            Bound::Unbounded => seq![2u8],
            Bound::Included(x) => seq![3u8] + x.encoding(false),
            Bound::Excluded(x) => seq![4u8] + x.encoding(false),
        }
    }

    open spec fn pending_after(&self, pending: bool) -> bool {
        match self {
            Bound::Unbounded => false,
            Bound::Included(x) => x.pending_after(false),
            Bound::Excluded(x) => x.pending_after(false),
        }
    }

    open spec fn encodable(&self) -> bool {
        match self {
            Bound::Unbounded => true,
            Bound::Included(x) => x.encodable(),
            Bound::Excluded(x) => x.encodable(),
        }
    }

    fn encode(&self, w: &mut Writer) -> (r: Result<(), EncodeError>) {
        proof {
            lemma_be_one(2);
            lemma_be_one(3);
            lemma_be_one(4);
        }
        match self {
            Bound::Unbounded => w.write_u8(2),
            Bound::Included(x) => {
                match w.write_u8(3) {
                    Ok(()) => {},
                    Err(e) => return Err(e),
                }
                let r = x.encode(w);
                assert(r is Ok ==> w.bytes() =~= old(w).bytes() + self.encoding(old(w).pending()));
                r
            },
            Bound::Excluded(x) => {
                match w.write_u8(4) {
                    Ok(()) => {},
                    Err(e) => return Err(e),
                }
                let r = x.encode(w);
                assert(r is Ok ==> w.bytes() =~= old(w).bytes() + self.encoding(old(w).pending()));
                r
            },
        }
    }
}

impl<F, T: Encode<F> + ?Sized> Encode<F> for Box<T> {
    /// The boxed value, as it is.
    open spec fn encoding(&self, pending: bool) -> Seq<u8> {
        (**self).encoding(pending)
    }

    open spec fn pending_after(&self, pending: bool) -> bool {
        (**self).pending_after(pending)
    }

    open spec fn encodable(&self) -> bool {
        (**self).encodable()
    }

    fn encode(&self, w: &mut Writer) -> (r: Result<(), EncodeError>) {
        (**self).encode(w)
    }
}

impl<'a, F, T: Encode<F> + ?Sized> Encode<F> for &'a T {
    /// The referenced value, as it is.
    open spec fn encoding(&self, pending: bool) -> Seq<u8> {
        (**self).encoding(pending)
    }

    open spec fn pending_after(&self, pending: bool) -> bool {
        (**self).pending_after(pending)
    }

    open spec fn encodable(&self) -> bool {
        (**self).encodable()
    }

    fn encode(&self, w: &mut Writer) -> (r: Result<(), EncodeError>) {
        (**self).encode(w)
    }
}

impl<F, T: Encode<F>> Encode<F> for Option<T> {
    /// `2` for none; `3` then the value for some.
    open spec fn encoding(&self, pending: bool) -> Seq<u8> {
        match self {
            None => seq![2u8],
            Some(x) => seq![3u8] + x.encoding(false),
        }
    }

    open spec fn pending_after(&self, pending: bool) -> bool {
        match self {
            None => false,
            Some(x) => x.pending_after(false),
        }
    }

    open spec fn encodable(&self) -> bool {
        match self {
            None => true,
            Some(x) => x.encodable(),
        }
    }

    fn encode(&self, w: &mut Writer) -> (r: Result<(), EncodeError>) {
        proof {
            lemma_be_one(2);
            lemma_be_one(3);
        }
        match self {
            None => w.write_u8(2),
            Some(x) => {
                match w.write_u8(3) {
                    Ok(()) => {},
                    Err(e) => return Err(e),
                }
                let r = x.encode(w);
                assert(r is Ok ==> w.bytes() =~= old(w).bytes() + self.encoding(old(w).pending()));
                r
            },
        }
    }
}

impl<F, O: Encode<F>, E: Encode<F>> Encode<F> for Result<O, E> {
    /// `2` then the value for ok; `3` then the error for err.
    open spec fn encoding(&self, pending: bool) -> Seq<u8> {
        match self {
            Ok(x) => seq![2u8] + x.encoding(false),
            Err(x) => seq![3u8] + x.encoding(false),
        }
    }

    open spec fn pending_after(&self, pending: bool) -> bool {
        match self {
            Ok(x) => x.pending_after(false),
            Err(x) => x.pending_after(false),
        }
    }

    open spec fn encodable(&self) -> bool {
        match self {
            Ok(x) => x.encodable(),
            Err(x) => x.encodable(),
        }
    }

    fn encode(&self, w: &mut Writer) -> (r: Result<(), EncodeError>) {
        proof {
            lemma_be_one(2);
            lemma_be_one(3);
        }
        match self {
            Ok(x) => {
                match w.write_u8(2) {
                    Ok(()) => {},
                    Err(e) => return Err(e),
                }
                let r = x.encode(w);
                assert(r is Ok ==> w.bytes() =~= old(w).bytes() + self.encoding(old(w).pending()));
                r
            },
            Err(x) => {
                match w.write_u8(3) {
                    Ok(()) => {},
                    Err(e) => return Err(e),
                }
                let r = x.encode(w);
                assert(r is Ok ==> w.bytes() =~= old(w).bytes() + self.encoding(old(w).pending()));
                r
            },
        }
    }
}

impl<F, T: Encode<F>> Encode<F> for Vec<T> {
    /// Each item where a terminator could also stand, then a terminator.
    open spec fn encoding(&self, pending: bool) -> Seq<u8> {
        encode_items::<F, T>(self@).push(0u8)
    }

    open spec fn pending_after(&self, pending: bool) -> bool {
        if self@.len() == 0 {
            pending
        } else {
            self@.last().pending_after(true)
        }
    }

    open spec fn encodable(&self) -> bool {
        forall|i: int| 0 <= i < self@.len() ==> #[trigger] self@[i].encodable()
    }

    fn encode(&self, w: &mut Writer) -> (r: Result<(), EncodeError>) {
        let mut i: usize = 0;
        proof {
            assert(self@.take(0) =~= Seq::<T>::empty());
            assert(old(w).bytes() + Seq::<u8>::empty() =~= old(w).bytes());
        }
        while i < self.len()
            invariant
                i <= self@.len(),
                w.bytes() == old(w).bytes() + encode_items::<F, T>(self@.take(i as int)),
                w.pending() == (if i == 0 {
                    old(w).pending()
                } else {
                    self@[i - 1].pending_after(true)
                }),
            decreases self@.len() - i,
        {
            w.mark_terminator();
            match self[i].encode(w) {
                Ok(()) => {},
                Err(e) => return Err(e),
            }
            proof {
                let t = self@.take(i + 1);
                assert(t.drop_last() =~= self@.take(i as int));
                assert(t.last() == self@[i as int]);
            }
            i = i + 1;
        }
        proof {
            assert(self@.take(i as int) =~= self@);
        }
        w.write_terminator()
    }
}

impl<F, T: Encode<F>> Encode<F> for [T] {
    /// Each item where a terminator could also stand, then a terminator.
    open spec fn encoding(&self, pending: bool) -> Seq<u8> {
        encode_items::<F, T>(self@).push(0u8)
    }

    open spec fn pending_after(&self, pending: bool) -> bool {
        if self@.len() == 0 {
            pending
        } else {
            self@.last().pending_after(true)
        }
    }

    open spec fn encodable(&self) -> bool {
        forall|i: int| 0 <= i < self@.len() ==> #[trigger] self@[i].encodable()
    }

    fn encode(&self, w: &mut Writer) -> (r: Result<(), EncodeError>) {
        let mut i: usize = 0;
        proof {
            assert(self@.take(0) =~= Seq::<T>::empty());
            assert(old(w).bytes() + Seq::<u8>::empty() =~= old(w).bytes());
        }
        while i < self.len()
            invariant
                i <= self@.len(),
                w.bytes() == old(w).bytes() + encode_items::<F, T>(self@.take(i as int)),
                w.pending() == (if i == 0 {
                    old(w).pending()
                } else {
                    self@[i - 1].pending_after(true)
                }),
            decreases self@.len() - i,
        {
            w.mark_terminator();
            match self[i].encode(w) {
                Ok(()) => {},
                Err(e) => return Err(e),
            }
            proof {
                let t = self@.take(i + 1);
                assert(t.drop_last() =~= self@.take(i as int));
                assert(t.last() == self@[i as int]);
            }
            i = i + 1;
        }
        proof {
            assert(self@.take(i as int) =~= self@);
        }
        w.write_terminator()
    }
}

/// The encodings of the items of `xs` back to back, each item written with the
/// escape flag the one before it left.
pub open spec fn encode_chain<F, T: Encode<F>>(xs: Seq<T>, pending: bool) -> Seq<u8>
    decreases xs.len(),
{
    if xs.len() == 0 {
        Seq::empty()
    } else {
        encode_chain::<F, T>(xs.drop_last(), pending) + xs.last().encoding(
            pending_chain::<F, T>(xs.drop_last(), pending),
        )
    }
}

/// The escape flag after the items of `xs` back to back.
pub open spec fn pending_chain<F, T: Encode<F>>(xs: Seq<T>, pending: bool) -> bool
    decreases xs.len(),
{
    if xs.len() == 0 {
        pending
    } else {
        xs.last().pending_after(pending_chain::<F, T>(xs.drop_last(), pending))
    }
}

impl<F, T: Encode<F>, const N: usize> Encode<F> for [T; N] {
    /// The items back to back, with no terminator.
    open spec fn encoding(&self, pending: bool) -> Seq<u8> {
        encode_chain::<F, T>(self@, pending)
    }

    open spec fn pending_after(&self, pending: bool) -> bool {
        pending_chain::<F, T>(self@, pending)
    }

    open spec fn encodable(&self) -> bool {
        forall|i: int| 0 <= i < self@.len() ==> #[trigger] self@[i].encodable()
    }

    fn encode(&self, w: &mut Writer) -> (r: Result<(), EncodeError>) {
        let mut i: usize = 0;
        proof {
            assert(self@.take(0) =~= Seq::<T>::empty());
            assert(old(w).bytes() + Seq::<u8>::empty() =~= old(w).bytes());
        }
        while i < N
            invariant
                i <= N,
                self@.len() == N,
                w.bytes() == old(w).bytes() + encode_chain::<F, T>(self@.take(i as int), old(w).pending()),
                w.pending() == pending_chain::<F, T>(self@.take(i as int), old(w).pending()),
            decreases N - i,
        {
            match self[i].encode(w) {
                Ok(()) => {},
                Err(e) => return Err(e),
            }
            proof {
                let t = self@.take(i + 1);
                assert(t.drop_last() =~= self@.take(i as int));
                assert(t.last() == self@[i as int]);
            }
            i = i + 1;
        }
        proof {
            assert(self@.take(i as int) =~= self@);
        }
        Ok(())
    }
}

impl<'a, F> Encode<F> for EscapedSlice<'a> {
    /// The raw bytes as they stand.
    open spec fn encoding(&self, pending: bool) -> Seq<u8> {
        self.raw()
    }

    open spec fn pending_after(&self, pending: bool) -> bool {
        false
    }

    open spec fn encodable(&self) -> bool {
        true
    }

    fn encode(&self, w: &mut Writer) -> (r: Result<(), EncodeError>) {
        w.write_escaped_slice(self)
    }
}

impl<'a, F> Encode<F> for EscapedStr<'a> {
    /// The raw bytes as they stand.
    open spec fn encoding(&self, pending: bool) -> Seq<u8> {
        self.raw()
    }

    open spec fn pending_after(&self, pending: bool) -> bool {
        false
    }

    open spec fn encodable(&self) -> bool {
        true
    }

    fn encode(&self, w: &mut Writer) -> (r: Result<(), EncodeError>) {
        let s = self.as_slice();
        w.write_escaped_slice(&s)
    }
}

impl<'a, F> Encode<F> for Reference<'a> {
    /// The contents as a variable-length sequence.
    open spec fn encoding(&self, pending: bool) -> Seq<u8> {
        escape(self.bytes()).push(0u8)
    }

    open spec fn pending_after(&self, pending: bool) -> bool {
        false
    }

    open spec fn encodable(&self) -> bool {
        true
    }

    fn encode(&self, w: &mut Writer) -> (r: Result<(), EncodeError>) {
        w.write_slice(self.as_bytes())
    }
}

impl<'a, F> Encode<F> for StrReference<'a> {
    /// The UTF-8 bytes as a variable-length sequence.
    open spec fn encoding(&self, pending: bool) -> Seq<u8> {
        escape(encode_utf8(self.chars())).push(0u8)
    }

    open spec fn pending_after(&self, pending: bool) -> bool {
        false
    }

    open spec fn encodable(&self) -> bool {
        true
    }

    fn encode(&self, w: &mut Writer) -> (r: Result<(), EncodeError>) {
        w.write_slice(self.as_str().as_bytes())
    }
}

} // verus!
