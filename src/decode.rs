//! How values of std's types, and the escaped views, are decoded.
use vstd::prelude::*;

use crate::error::DecodeError;
use crate::format::{fixed_end, fixed_ok, fixed_signed, fixed_value, lemma_unescape_body, unescape};
use crate::reader::{BorrowReader, Reader, Reference, StrReference};
use crate::types::{EscapedSlice, EscapedStr};
use crate::{BorrowDecode, Bound, Decode};
use vstd::utf8::{decode_utf8, is_scalar, valid_utf8};

verus! {

/// Relies on `char::from_u32`: `None` exactly for values that are no Unicode
/// scalar value (surrogates, and values above `char::MAX`).
#[verifier::external_body]
fn char_from_u32(c: u32) -> (r: Option<char>)
    ensures
        r is Some <==> is_scalar(c),
        r matches Some(ch) ==> ch as u32 == c,
{
    char::from_u32(c)
}

/// Relies on `<[T; N] as TryFrom<Vec<T>>>::try_from`: it succeeds exactly when
/// the vector holds `N` items, and the array then holds them in order.
#[verifier::external_body]
fn vec_to_array<T, const N: usize>(v: Vec<T>) -> (r: Option<[T; N]>)
    ensures
        r is Some <==> v@.len() == N,
        r matches Some(a) ==> a@ == v@,
{
    v.try_into().ok()
}

/// `r` with `acc` put in front of its models and `k` added to its length.
pub open spec fn prepend_chain<M>(
    acc: Seq<M>,
    k: nat,
    r: Result<(Seq<M>, nat, bool), DecodeError>,
) -> Result<(Seq<M>, nat, bool), DecodeError> {
    match r {
        Ok((v, n, e)) => Ok((acc + v, n + k, e)),
        Err(e) => Err(e),
    }
}

/// Putting two runs of models in front, one after the other, is putting them
/// in front at once.
pub proof fn lemma_prepend_chain_step<M>(
    acc: Seq<M>,
    i: nat,
    k: nat,
    m: M,
    r: Result<(Seq<M>, nat, bool), DecodeError>,
)
    ensures
        prepend_chain(acc, i, match r {
            Ok((ms, n2, f)) => Ok((seq![m] + ms, k + n2, f)),
            Err(e) => Err(e),
        }) == prepend_chain(acc.push(m), i + k, r),
{
    if let Ok((v, n, e)) = r {
        assert(acc + (seq![m] + v) =~= acc.push(m) + v);
    }
}

/// `r` with `acc` put in front of its models and `k` added to its length.
pub open spec fn prepend_models<M>(
    acc: Seq<M>,
    k: nat,
    r: Result<(Seq<M>, nat), DecodeError>,
) -> Result<(Seq<M>, nat), DecodeError> {
    match r {
        Ok((v, n)) => Ok((acc + v, n + k)),
        Err(e) => Err(e),
    }
}

/// Putting two runs of models in front, one after the other, is putting them
/// in front at once.
pub proof fn lemma_prepend_models_step<M>(
    acc: Seq<M>,
    i: nat,
    k: nat,
    m: M,
    r: Result<(Seq<M>, nat), DecodeError>,
)
    ensures
        prepend_models(acc, i, prepend_models(seq![m], k, r)) == prepend_models(
            acc.push(m),
            i + k,
            r,
        ),
{
    if let Ok((v, n)) = r {
        assert(acc + (seq![m] + v) =~= acc.push(m) + v);
    }
}

/// Items read until a terminator, as `Vec`'s `Decode` reads them: the models and
/// the bytes taken, terminator included. An item that takes no byte is refused.
pub open spec fn decode_items<F, T: Decode<F>>(s: Seq<u8>) -> Result<
    (Seq<T::Model>, nat),
    DecodeError,
>
    decreases s.len(),
{
    if s.len() == 0 {
        Err(DecodeError::UnexpectedEnd)
    } else if s[0] == 0 {
        Ok((Seq::empty(), 1))
    } else {
        match T::decoding(s, true) {
            Ok((m, n, e)) => if 0 < n <= s.len() {
                prepend_models(seq![m], n, decode_items::<F, T>(s.skip(n as int)))
            } else {
                Err(DecodeError::InvalidFormat)
            },
            Err(k) => Err(k),
        }
    }
}

/// Items read until a terminator, as `Vec`'s `BorrowDecode` reads them: the models and
/// the bytes taken, terminator included. An item that takes no byte is refused.
pub open spec fn borrow_decode_items<'de, F, T: BorrowDecode<'de, F>>(s: Seq<u8>) -> Result<
    (Seq<T::Model>, nat),
    DecodeError,
>
    decreases s.len(),
{
    if s.len() == 0 {
        Err(DecodeError::UnexpectedEnd)
    } else if s[0] == 0 {
        Ok((Seq::empty(), 1))
    } else {
        match T::decoding(s, true) {
            Ok((m, n, e)) => if 0 < n <= s.len() {
                prepend_models(seq![m], n, borrow_decode_items::<'de, F, T>(s.skip(n as int)))
            } else {
                Err(DecodeError::InvalidFormat)
            },
            Err(k) => Err(k),
        }
    }
}

/// `k` items read back to back, as `Decode` reads an array: the models, the bytes
/// taken, and whether an escape is expected afterwards.
pub open spec fn decode_chain<F, T: Decode<F>>(
    s: Seq<u8>,
    expect: bool,
    k: nat,
) -> Result<(Seq<T::Model>, nat, bool), DecodeError>
    decreases k,
{
    if k == 0 {
        Ok((Seq::empty(), 0, expect))
    } else {
        match T::decoding(s, expect) {
            Ok((m, n, e)) => if n <= s.len() {
                match decode_chain::<F, T>(s.skip(n as int), e, (k - 1) as nat) {
                    Ok((ms, n2, f)) => Ok((seq![m] + ms, n + n2, f)),
                    Err(k) => Err(k),
                }
            } else {
                Err(DecodeError::InvalidFormat)
            },
            Err(k) => Err(k),
        }
    }
}

/// `k` items read back to back, as `BorrowDecode` reads an array: the models, the bytes
/// taken, and whether an escape is expected afterwards.
pub open spec fn borrow_decode_chain<'de, F, T: BorrowDecode<'de, F>>(
    s: Seq<u8>,
    expect: bool,
    k: nat,
) -> Result<(Seq<T::Model>, nat, bool), DecodeError>
    decreases k,
{
    if k == 0 {
        Ok((Seq::empty(), 0, expect))
    } else {
        match T::decoding(s, expect) {
            Ok((m, n, e)) => if n <= s.len() {
                match borrow_decode_chain::<'de, F, T>(s.skip(n as int), e, (k - 1) as nat) {
                    Ok((ms, n2, f)) => Ok((seq![m] + ms, n + n2, f)),
                    Err(k) => Err(k),
                }
            } else {
                Err(DecodeError::InvalidFormat)
            },
            Err(k) => Err(k),
        }
    }
}

impl<F, T: Decode<F>, const N: usize> Decode<F> for [T; N] {
    type Model = Seq<T::Model>;

    open spec fn model(&self) -> Seq<T::Model> {
        Seq::new(self@.len(), |i: int| self@[i].model())
    }

    /// `N` items back to back.
    open spec fn decoding(s: Seq<u8>, expect: bool) -> Result<
        (Seq<T::Model>, nat, bool),
        DecodeError,
    > {
        decode_chain::<F, T>(s, expect, N as nat)
    }

    fn decode(r: &mut Reader) -> (res: Result<[T; N], DecodeError>) {
        let mut buffer: Vec<T> = Vec::new();
        let ghost start = r.rest();
        let ghost e0 = r.expecting();
        let mut i: usize = 0;
        proof {
            assert(start.skip(0) =~= start);
            assert(buffer.model() =~= Seq::<T::Model>::empty());
            if let Ok((ms, n, f)) = decode_chain::<F, T>(start, e0, N as nat) {
                assert(Seq::<T::Model>::empty() + ms =~= ms);
            }
        }
        while i < N
            invariant
                i <= N,
                buffer@.len() == i,
                r.rest().len() <= start.len(),
                start == old(r).rest(),
                e0 == old(r).expecting(),
                r.rest() == start.skip(start.len() - r.rest().len()),
                decode_chain::<F, T>(start, e0, N as nat) == prepend_chain(
                    buffer.model(),
                    (start.len() - r.rest().len()) as nat,
                    decode_chain::<F, T>(r.rest(), r.expecting(), (N - i) as nat),
                ),
            decreases N - i,
        {
            let ghost s = r.rest();
            let ghost e = r.expecting();
            let v = match T::decode(r) {
                Ok(v) => v,
                Err(e) => return Err(e),
            };
            let ghost old_models = buffer.model();
            buffer.push(v);
            proof {
                assert(buffer.model() =~= old_models.push(v.model()));
                let (m, n, f) = T::decoding(s, e)->Ok_0;
                lemma_prepend_chain_step(
                    old_models,
                    (start.len() - s.len()) as nat,
                    n,
                    m,
                    decode_chain::<F, T>(s.skip(n as int), f, (N - i - 1) as nat),
                );
                assert(start.skip(start.len() - s.len()).skip(n as int) =~= start.skip(
                    start.len() - r.rest().len(),
                ));
            }
            i = i + 1;
        }
        proof {
            if let Ok((ms, n, f)) = decode_chain::<F, T>(r.rest(), r.expecting(), 0) {
                assert(buffer.model() + ms =~= buffer.model());
            }
        }
        match vec_to_array::<T, N>(buffer) {
            Some(a) => {
                assert(a.model() =~= buffer.model());
                Ok(a)
            },
            None => Err(DecodeError::InvalidFormat),
        }
    }
}

impl<'de, F, T: BorrowDecode<'de, F>, const N: usize> BorrowDecode<'de, F> for [T; N] {
    type Model = Seq<T::Model>;

    open spec fn model(&self) -> Seq<T::Model> {
        Seq::new(self@.len(), |i: int| self@[i].model())
    }

    /// `N` items back to back.
    open spec fn decoding(s: Seq<u8>, expect: bool) -> Result<
        (Seq<T::Model>, nat, bool),
        DecodeError,
    > {
        borrow_decode_chain::<'de, F, T>(s, expect, N as nat)
    }

    fn borrow_decode(r: &mut BorrowReader<'de>) -> (res: Result<[T; N], DecodeError>) {
        let mut buffer: Vec<T> = Vec::new();
        let ghost start = r.rest();
        let ghost e0 = r.expecting();
        let mut i: usize = 0;
        proof {
            assert(start.skip(0) =~= start);
            assert(buffer.model() =~= Seq::<T::Model>::empty());
            if let Ok((ms, n, f)) = borrow_decode_chain::<'de, F, T>(start, e0, N as nat) {
                assert(Seq::<T::Model>::empty() + ms =~= ms);
            }
        }
        while i < N
            invariant
                i <= N,
                buffer@.len() == i,
                r.rest().len() <= start.len(),
                start == old(r).rest(),
                e0 == old(r).expecting(),
                r.rest() == start.skip(start.len() - r.rest().len()),
                borrow_decode_chain::<'de, F, T>(start, e0, N as nat) == prepend_chain(
                    buffer.model(),
                    (start.len() - r.rest().len()) as nat,
                    borrow_decode_chain::<'de, F, T>(r.rest(), r.expecting(), (N - i) as nat),
                ),
            decreases N - i,
        {
            let ghost s = r.rest();
            let ghost e = r.expecting();
            let v = match T::borrow_decode(r) {
                Ok(v) => v,
                Err(e) => return Err(e),
            };
            let ghost old_models = buffer.model();
            buffer.push(v);
            proof {
                assert(buffer.model() =~= old_models.push(v.model()));
                let (m, n, f) = T::decoding(s, e)->Ok_0;
                lemma_prepend_chain_step(
                    old_models,
                    (start.len() - s.len()) as nat,
                    n,
                    m,
                    borrow_decode_chain::<'de, F, T>(s.skip(n as int), f, (N - i - 1) as nat),
                );
                assert(start.skip(start.len() - s.len()).skip(n as int) =~= start.skip(
                    start.len() - r.rest().len(),
                ));
            }
            i = i + 1;
        }
        proof {
            if let Ok((ms, n, f)) = borrow_decode_chain::<'de, F, T>(r.rest(), r.expecting(), 0) {
                assert(buffer.model() + ms =~= buffer.model());
            }
        }
        match vec_to_array::<T, N>(buffer) {
            Some(a) => {
                assert(a.model() =~= buffer.model());
                Ok(a)
            },
            None => Err(DecodeError::InvalidFormat),
        }
    }
}

impl<F> Decode<F> for u8 {
    type Model = u8;

    open spec fn model(&self) -> u8 {
        *self
    }

    open spec fn decoding(s: Seq<u8>, expect: bool) -> Result<(u8, nat, bool), DecodeError> {
        if fixed_ok(s, expect, 1) {
            Ok((fixed_value(s, expect, 1) as u8, fixed_end(s, expect, 1), false))
        } else {
            Err(DecodeError::UnexpectedEnd)
        }
    }

    fn decode(r: &mut Reader) -> (res: Result<u8, DecodeError>) {
        r.read_u8()
    }
}

impl<F> Decode<F> for i8 {
    type Model = i8;

    open spec fn model(&self) -> i8 {
        *self
    }

    open spec fn decoding(s: Seq<u8>, expect: bool) -> Result<(i8, nat, bool), DecodeError> {
        if fixed_ok(s, expect, 1) {
            Ok((fixed_signed(s, expect, 1) as i8, fixed_end(s, expect, 1), false))
        } else {
            Err(DecodeError::UnexpectedEnd)
        }
    }

    fn decode(r: &mut Reader) -> (res: Result<i8, DecodeError>) {
        r.read_i8()
    }
}

impl<F> Decode<F> for u16 {
    type Model = u16;

    open spec fn model(&self) -> u16 {
        *self
    }

    open spec fn decoding(s: Seq<u8>, expect: bool) -> Result<(u16, nat, bool), DecodeError> {
        if fixed_ok(s, expect, 2) {
            Ok((fixed_value(s, expect, 2) as u16, fixed_end(s, expect, 2), false))
        } else {
            Err(DecodeError::UnexpectedEnd)
        }
    }

    fn decode(r: &mut Reader) -> (res: Result<u16, DecodeError>) {
        r.read_u16()
    }
}

impl<F> Decode<F> for i16 {
    type Model = i16;

    open spec fn model(&self) -> i16 {
        *self
    }

    open spec fn decoding(s: Seq<u8>, expect: bool) -> Result<(i16, nat, bool), DecodeError> {
        if fixed_ok(s, expect, 2) {
            Ok((fixed_signed(s, expect, 2) as i16, fixed_end(s, expect, 2), false))
        } else {
            Err(DecodeError::UnexpectedEnd)
        }
    }

    fn decode(r: &mut Reader) -> (res: Result<i16, DecodeError>) {
        r.read_i16()
    }
}

impl<F> Decode<F> for u32 {
    type Model = u32;

    open spec fn model(&self) -> u32 {
        *self
    }

    open spec fn decoding(s: Seq<u8>, expect: bool) -> Result<(u32, nat, bool), DecodeError> {
        if fixed_ok(s, expect, 4) {
            Ok((fixed_value(s, expect, 4) as u32, fixed_end(s, expect, 4), false))
        } else {
            Err(DecodeError::UnexpectedEnd)
        }
    }

    fn decode(r: &mut Reader) -> (res: Result<u32, DecodeError>) {
        r.read_u32()
    }
}

impl<F> Decode<F> for i32 {
    type Model = i32;

    open spec fn model(&self) -> i32 {
        *self
    }

    open spec fn decoding(s: Seq<u8>, expect: bool) -> Result<(i32, nat, bool), DecodeError> {
        if fixed_ok(s, expect, 4) {
            Ok((fixed_signed(s, expect, 4) as i32, fixed_end(s, expect, 4), false))
        } else {
            Err(DecodeError::UnexpectedEnd)
        }
    }

    fn decode(r: &mut Reader) -> (res: Result<i32, DecodeError>) {
        r.read_i32()
    }
}

impl<F> Decode<F> for u64 {
    type Model = u64;

    open spec fn model(&self) -> u64 {
        *self
    }

    open spec fn decoding(s: Seq<u8>, expect: bool) -> Result<(u64, nat, bool), DecodeError> {
        if fixed_ok(s, expect, 8) {
            Ok((fixed_value(s, expect, 8) as u64, fixed_end(s, expect, 8), false))
        } else {
            Err(DecodeError::UnexpectedEnd)
        }
    }

    fn decode(r: &mut Reader) -> (res: Result<u64, DecodeError>) {
        r.read_u64()
    }
}

impl<F> Decode<F> for i64 {
    type Model = i64;

    open spec fn model(&self) -> i64 {
        *self
    }

    open spec fn decoding(s: Seq<u8>, expect: bool) -> Result<(i64, nat, bool), DecodeError> {
        if fixed_ok(s, expect, 8) {
            Ok((fixed_signed(s, expect, 8) as i64, fixed_end(s, expect, 8), false))
        } else {
            Err(DecodeError::UnexpectedEnd)
        }
    }

    fn decode(r: &mut Reader) -> (res: Result<i64, DecodeError>) {
        r.read_i64()
    }
}

impl<F> Decode<F> for u128 {
    type Model = u128;

    open spec fn model(&self) -> u128 {
        *self
    }

    open spec fn decoding(s: Seq<u8>, expect: bool) -> Result<(u128, nat, bool), DecodeError> {
        if fixed_ok(s, expect, 16) {
            Ok((fixed_value(s, expect, 16) as u128, fixed_end(s, expect, 16), false))
        } else {
            Err(DecodeError::UnexpectedEnd)
        }
    }

    fn decode(r: &mut Reader) -> (res: Result<u128, DecodeError>) {
        r.read_u128()
    }
}

impl<F> Decode<F> for i128 {
    type Model = i128;

    open spec fn model(&self) -> i128 {
        *self
    }

    open spec fn decoding(s: Seq<u8>, expect: bool) -> Result<(i128, nat, bool), DecodeError> {
        if fixed_ok(s, expect, 16) {
            Ok((fixed_signed(s, expect, 16) as i128, fixed_end(s, expect, 16), false))
        } else {
            Err(DecodeError::UnexpectedEnd)
        }
    }

    fn decode(r: &mut Reader) -> (res: Result<i128, DecodeError>) {
        r.read_i128()
    }
}

impl<F> Decode<F> for bool {
    type Model = bool;

    open spec fn model(&self) -> bool {
        *self
    }

    /// `2` is false, `3` is true; any other byte is refused.
    open spec fn decoding(s: Seq<u8>, expect: bool) -> Result<(bool, nat, bool), DecodeError> {
        if fixed_ok(s, expect, 1) && fixed_value(s, expect, 1) == 2 {
            Ok((false, fixed_end(s, expect, 1), false))
        } else if fixed_ok(s, expect, 1) && fixed_value(s, expect, 1) == 3 {
            Ok((true, fixed_end(s, expect, 1), false))
        } else {
            if fixed_ok(s, expect, 1) {
                Err(DecodeError::InvalidFormat)
            } else {
                Err(DecodeError::UnexpectedEnd)
            }
        }
    }

    fn decode(r: &mut Reader) -> (res: Result<bool, DecodeError>) {
        match r.read_u8() {
            Ok(2) => Ok(false),
            Ok(3) => Ok(true),
            Ok(_) => Err(DecodeError::InvalidFormat),
            Err(e) => Err(e),
        }
    }
}

impl<F> Decode<F> for char {
    type Model = char;

    open spec fn model(&self) -> char {
        *self
    }

    /// A four-byte code point; one that is no Unicode scalar value is refused.
    open spec fn decoding(s: Seq<u8>, expect: bool) -> Result<(char, nat, bool), DecodeError> {
        if fixed_ok(s, expect, 4) && is_scalar(fixed_value(s, expect, 4) as u32) {
            Ok((fixed_value(s, expect, 4) as u32 as char, fixed_end(s, expect, 4), false))
        } else {
            if fixed_ok(s, expect, 4) {
                Err(DecodeError::InvalidFormat)
            } else {
                Err(DecodeError::UnexpectedEnd)
            }
        }
    }

    fn decode(r: &mut Reader) -> (res: Result<char, DecodeError>) {
        match r.read_u32() {
            Ok(c) => match char_from_u32(c) {
                Some(ch) => {
                    proof {
                        vstd::utf8::char_u32_cast(ch, c);
                    }
                    Ok(ch)
                },
                None => Err(DecodeError::InvalidFormat),
            },
            Err(e) => Err(e),
        }
    }
}

impl<F> Decode<F> for String {
    type Model = Seq<char>;

    open spec fn model(&self) -> Seq<char> {
        self@
    }

    /// A variable-length sequence that must be UTF-8.
    open spec fn decoding(s: Seq<u8>, expect: bool) -> Result<(Seq<char>, nat, bool), DecodeError> {
        match unescape(s) {
            Some((v, n)) => if valid_utf8(v) {
                Ok((decode_utf8(v), n, false))
            } else {
                Err(DecodeError::Utf8)
            },
            None => Err(DecodeError::UnexpectedEnd),
        }
    }

    fn decode(r: &mut Reader) -> (res: Result<String, DecodeError>) {
        proof {
            if unescape(r.rest()) is Some {
                lemma_unescape_body(r.rest());
            }
        }
        let res = r.read_string();
        proof {
            if res is Ok {
                vstd::utf8::encode_utf8_decode_utf8(res->Ok_0@);
            }
        }
        res
    }
}

impl<F> Decode<F> for () {
    type Model = ();

    open spec fn model(&self) -> () {
        ()
    }

    open spec fn decoding(s: Seq<u8>, expect: bool) -> Result<((), nat, bool), DecodeError> {
        Ok(((), 0, expect))
    }

    fn decode(r: &mut Reader) -> (res: Result<(), DecodeError>) {
        assert(r.rest().skip(0) =~= r.rest());
        Ok(())
    }
}


impl<F, A: Decode<F>> Decode<F> for (A,) {
    type Model = (A::Model,);

    open spec fn model(&self) -> (A::Model,) {
        (self.0.model(),)
    }

    /// The fields in order.
    open spec fn decoding(s: Seq<u8>, expect: bool) -> Result<
        ((A::Model,), nat, bool),
        DecodeError,
    > {
        match A::decoding(s, expect) {
            Ok((v0, n0, e0)) => Ok(((v0,), n0, e0)),
            Err(k) => Err(k),
        }
    }

    fn decode(r: &mut Reader) -> (res: Result<(A,), DecodeError>) {
        let v0 = match A::decode(r) {
            Ok(v) => v,
            Err(e) => return Err(e),
        };
        proof {
            let s = old(r).rest();
            if let Ok((m0, n0, e0)) = A::decoding(s, old(r).expecting()) {
                let s1 = s.skip(n0 as int);
                assert(s1 =~= s.skip((n0) as int));
            }
        }
        Ok((v0,))
    }
}

impl<F, A: Decode<F>, B: Decode<F>> Decode<F> for (A, B) {
    type Model = (A::Model, B::Model);

    open spec fn model(&self) -> (A::Model, B::Model) {
        (self.0.model(), self.1.model())
    }

    /// The fields in order.
    open spec fn decoding(s: Seq<u8>, expect: bool) -> Result<
        ((A::Model, B::Model), nat, bool),
        DecodeError,
    > {
        match A::decoding(s, expect) {
            Ok((v0, n0, e0)) => match B::decoding(s.skip(n0 as int), e0) {
                Ok((v1, n1, e1)) => Ok(((v0, v1), n0 + n1, e1)),
                Err(k) => Err(k),
            },
            Err(k) => Err(k),
        }
    }

    fn decode(r: &mut Reader) -> (res: Result<(A, B), DecodeError>) {
        let v0 = match A::decode(r) {
            Ok(v) => v,
            Err(e) => return Err(e),
        };
        let v1 = match B::decode(r) {
            Ok(v) => v,
            Err(e) => return Err(e),
        };
        proof {
            let s = old(r).rest();
            if let Ok((m0, n0, e0)) = A::decoding(s, old(r).expecting()) {
                let s1 = s.skip(n0 as int);
                if let Ok((m1, n1, e1)) = B::decoding(s1, e0) {
                    let s2 = s1.skip(n1 as int);
                    assert(s2 =~= s.skip((n0 + n1) as int));
                }
            }
        }
        Ok((v0, v1))
    }
}

impl<F, A: Decode<F>, B: Decode<F>, C: Decode<F>> Decode<F> for (A, B, C) {
    type Model = (A::Model, B::Model, C::Model);

    open spec fn model(&self) -> (A::Model, B::Model, C::Model) {
        (self.0.model(), self.1.model(), self.2.model())
    }

    /// The fields in order.
    open spec fn decoding(s: Seq<u8>, expect: bool) -> Result<
        ((A::Model, B::Model, C::Model), nat, bool),
        DecodeError,
    > {
        match A::decoding(s, expect) {
            Ok((v0, n0, e0)) => match B::decoding(s.skip(n0 as int), e0) {
                Ok((v1, n1, e1)) => match C::decoding(s.skip(n0 as int).skip(n1 as int), e1) {
                    Ok((v2, n2, e2)) => Ok(((v0, v1, v2), n0 + n1 + n2, e2)),
                    Err(k) => Err(k),
                },
                Err(k) => Err(k),
            },
            Err(k) => Err(k),
        }
    }

    fn decode(r: &mut Reader) -> (res: Result<(A, B, C), DecodeError>) {
        let v0 = match A::decode(r) {
            Ok(v) => v,
            Err(e) => return Err(e),
        };
        let v1 = match B::decode(r) {
            Ok(v) => v,
            Err(e) => return Err(e),
        };
        let v2 = match C::decode(r) {
            Ok(v) => v,
            Err(e) => return Err(e),
        };
        proof {
            let s = old(r).rest();
            if let Ok((m0, n0, e0)) = A::decoding(s, old(r).expecting()) {
                let s1 = s.skip(n0 as int);
                if let Ok((m1, n1, e1)) = B::decoding(s1, e0) {
                    let s2 = s1.skip(n1 as int);
                    if let Ok((m2, n2, e2)) = C::decoding(s2, e1) {
                        let s3 = s2.skip(n2 as int);
                        assert(s3 =~= s.skip((n0 + n1 + n2) as int));
                    }
                }
            }
        }
        Ok((v0, v1, v2))
    }
}

impl<F, A: Decode<F>, B: Decode<F>, C: Decode<F>, D: Decode<F>> Decode<F> for (A, B, C, D) {
    type Model = (A::Model, B::Model, C::Model, D::Model);

    open spec fn model(&self) -> (A::Model, B::Model, C::Model, D::Model) {
        (self.0.model(), self.1.model(), self.2.model(), self.3.model())
    }

    /// The fields in order.
    open spec fn decoding(s: Seq<u8>, expect: bool) -> Result<
        ((A::Model, B::Model, C::Model, D::Model), nat, bool),
        DecodeError,
    > {
        match A::decoding(s, expect) {
            Ok((v0, n0, e0)) => match B::decoding(s.skip(n0 as int), e0) {
                Ok((v1, n1, e1)) => match C::decoding(s.skip(n0 as int).skip(n1 as int), e1) {
                    Ok((v2, n2, e2)) => match D::decoding(s.skip(n0 as int).skip(n1 as int).skip(n2 as int), e2) {
                        Ok((v3, n3, e3)) => Ok(((v0, v1, v2, v3), n0 + n1 + n2 + n3, e3)),
                        Err(k) => Err(k),
                    },
                    Err(k) => Err(k),
                },
                Err(k) => Err(k),
            },
            Err(k) => Err(k),
        }
    }

    fn decode(r: &mut Reader) -> (res: Result<(A, B, C, D), DecodeError>) {
        let v0 = match A::decode(r) {
            Ok(v) => v,
            Err(e) => return Err(e),
        };
        let v1 = match B::decode(r) {
            Ok(v) => v,
            Err(e) => return Err(e),
        };
        let v2 = match C::decode(r) {
            Ok(v) => v,
            Err(e) => return Err(e),
        };
        let v3 = match D::decode(r) {
            Ok(v) => v,
            Err(e) => return Err(e),
        };
        proof {
            let s = old(r).rest();
            if let Ok((m0, n0, e0)) = A::decoding(s, old(r).expecting()) {
                let s1 = s.skip(n0 as int);
                if let Ok((m1, n1, e1)) = B::decoding(s1, e0) {
                    let s2 = s1.skip(n1 as int);
                    if let Ok((m2, n2, e2)) = C::decoding(s2, e1) {
                        let s3 = s2.skip(n2 as int);
                        if let Ok((m3, n3, e3)) = D::decoding(s3, e2) {
                            let s4 = s3.skip(n3 as int);
                            assert(s4 =~= s.skip((n0 + n1 + n2 + n3) as int));
                        }
                    }
                }
            }
        }
        Ok((v0, v1, v2, v3))
    }
}


impl<F, T: Decode<F>> Decode<F> for Bound<T> {
    type Model = Bound<T::Model>;

    open spec fn model(&self) -> Bound<T::Model> {
        match self {
            Bound::Included(x) => Bound::Included(x.model()),
            Bound::Excluded(x) => Bound::Excluded(x.model()),
            Bound::Unbounded => Bound::Unbounded,
        }
    }

    /// `2` is unbounded, `3` inclusive and `4` exclusive, the endpoint following;
    /// any other byte is refused.
    open spec fn decoding(s: Seq<u8>, expect: bool) -> Result<
        (Bound<T::Model>, nat, bool),
        DecodeError,
    > {
        if fixed_ok(s, expect, 1) && fixed_value(s, expect, 1) == 2 {
            Ok((Bound::Unbounded, fixed_end(s, expect, 1), false))
        } else if fixed_ok(s, expect, 1) && (fixed_value(s, expect, 1) == 3 || fixed_value(
            s,
            expect,
            1,
        ) == 4) {
            let k = fixed_end(s, expect, 1);
            match T::decoding(s.skip(k as int), false) {
                Ok((m, n, f)) => Ok((
                    if fixed_value(s, expect, 1) == 3 {
                        Bound::Included(m)
                    } else {
                        Bound::Excluded(m)
                    },
                    k + n,
                    f,
                )),
                Err(k) => Err(k),
            }
        } else {
            if fixed_ok(s, expect, 1) {
                Err(DecodeError::InvalidFormat)
            } else {
                Err(DecodeError::UnexpectedEnd)
            }
        }
    }

    fn decode(r: &mut Reader) -> (res: Result<Bound<T>, DecodeError>) {
        match r.read_u8() {
            Ok(2) => Ok(Bound::Unbounded),
            Ok(3) => {
                let ghost mid = r.rest();
                match T::decode(r) {
                    Ok(v) => {
                        proof {
                            let k = fixed_end(old(r).rest(), old(r).expecting(), 1);
                            if let Ok((m, n, f)) = T::decoding(mid, false) {
                                assert(old(r).rest().skip(k as int).skip(n as int) =~= old(
                                    r,
                                ).rest().skip((k + n) as int));
                            }
                        }
                        Ok(Bound::Included(v))
                    },
                    Err(e) => Err(e),
                }
            },
            Ok(4) => {
                let ghost mid = r.rest();
                match T::decode(r) {
                    Ok(v) => {
                        proof {
                            let k = fixed_end(old(r).rest(), old(r).expecting(), 1);
                            if let Ok((m, n, f)) = T::decoding(mid, false) {
                                assert(old(r).rest().skip(k as int).skip(n as int) =~= old(
                                    r,
                                ).rest().skip((k + n) as int));
                            }
                        }
                        Ok(Bound::Excluded(v))
                    },
                    Err(e) => Err(e),
                }
            },
            Ok(_) => Err(DecodeError::InvalidFormat),
            Err(e) => Err(e),
        }
    }
}

impl<F, T: Decode<F>> Decode<F> for Box<T> {
    type Model = T::Model;

    open spec fn model(&self) -> T::Model {
        (**self).model()
    }

    /// The boxed value, as it is.
    open spec fn decoding(s: Seq<u8>, expect: bool) -> Result<(T::Model, nat, bool), DecodeError> {
        T::decoding(s, expect)
    }

    fn decode(r: &mut Reader) -> (res: Result<Box<T>, DecodeError>) {
        match T::decode(r) {
            Ok(v) => Ok(Box::new(v)),
            Err(e) => Err(e),
        }
    }
}

impl<F, T: Decode<F>> Decode<F> for Option<T> {
    type Model = Option<T::Model>;

    open spec fn model(&self) -> Option<T::Model> {
        match self {
            None => None,
            Some(x) => Some(x.model()),
        }
    }

    /// `2` is none; `3` is some, the value following; any other byte is refused.
    open spec fn decoding(s: Seq<u8>, expect: bool) -> Result<
        (Option<T::Model>, nat, bool),
        DecodeError,
    > {
        if fixed_ok(s, expect, 1) && fixed_value(s, expect, 1) == 2 {
            Ok((None, fixed_end(s, expect, 1), false))
        } else if fixed_ok(s, expect, 1) && fixed_value(s, expect, 1) == 3 {
            let k = fixed_end(s, expect, 1);
            match T::decoding(s.skip(k as int), false) {
                Ok((m, n, f)) => Ok((Some(m), k + n, f)),
                Err(k) => Err(k),
            }
        } else {
            if fixed_ok(s, expect, 1) {
                Err(DecodeError::InvalidFormat)
            } else {
                Err(DecodeError::UnexpectedEnd)
            }
        }
    }

    fn decode(r: &mut Reader) -> (res: Result<Option<T>, DecodeError>) {
        match r.read_u8() {
            Ok(2) => Ok(None),
            Ok(3) => {
                let ghost mid = r.rest();
                match T::decode(r) {
                    Ok(v) => {
                        proof {
                            let k = fixed_end(old(r).rest(), old(r).expecting(), 1);
                            if let Ok((m, n, f)) = T::decoding(mid, false) {
                                assert(old(r).rest().skip(k as int).skip(n as int) =~= old(
                                    r,
                                ).rest().skip((k + n) as int));
                            }
                        }
                        Ok(Some(v))
                    },
                    Err(e) => Err(e),
                }
            },
            Ok(_) => Err(DecodeError::InvalidFormat),
            Err(e) => Err(e),
        }
    }
}

impl<F, O: Decode<F>, E: Decode<F>> Decode<F> for Result<O, E> {
    type Model = Result<O::Model, E::Model>;

    open spec fn model(&self) -> Result<O::Model, E::Model> {
        match self {
            Ok(x) => Ok(x.model()),
            Err(x) => Err(x.model()),
        }
    }

    /// `2` is ok and `3` is err, the value following; any other byte is refused.
    open spec fn decoding(s: Seq<u8>, expect: bool) -> Result<
        (Result<O::Model, E::Model>, nat, bool),
        DecodeError,
    > {
        if fixed_ok(s, expect, 1) && fixed_value(s, expect, 1) == 2 {
            let k = fixed_end(s, expect, 1);
            match O::decoding(s.skip(k as int), false) {
                Ok((m, n, f)) => Ok((Ok(m), k + n, f)),
                Err(k) => Err(k),
            }
        } else if fixed_ok(s, expect, 1) && fixed_value(s, expect, 1) == 3 {
            let k = fixed_end(s, expect, 1);
            match E::decoding(s.skip(k as int), false) {
                Ok((m, n, f)) => Ok((Err(m), k + n, f)),
                Err(k) => Err(k),
            }
        } else {
            if fixed_ok(s, expect, 1) {
                Err(DecodeError::InvalidFormat)
            } else {
                Err(DecodeError::UnexpectedEnd)
            }
        }
    }

    fn decode(r: &mut Reader) -> (res: Result<Result<O, E>, DecodeError>) {
        match r.read_u8() {
            Ok(2) => {
                let ghost mid = r.rest();
                match O::decode(r) {
                    Ok(v) => {
                        proof {
                            let k = fixed_end(old(r).rest(), old(r).expecting(), 1);
                            if let Ok((m, n, f)) = O::decoding(mid, false) {
                                assert(old(r).rest().skip(k as int).skip(n as int) =~= old(
                                    r,
                                ).rest().skip((k + n) as int));
                            }
                        }
                        Ok(Ok(v))
                    },
                    Err(e) => Err(e),
                }
            },
            Ok(3) => {
                let ghost mid = r.rest();
                match E::decode(r) {
                    Ok(v) => {
                        proof {
                            let k = fixed_end(old(r).rest(), old(r).expecting(), 1);
                            if let Ok((m, n, f)) = E::decoding(mid, false) {
                                assert(old(r).rest().skip(k as int).skip(n as int) =~= old(
                                    r,
                                ).rest().skip((k + n) as int));
                            }
                        }
                        Ok(Err(v))
                    },
                    Err(e) => Err(e),
                }
            },
            Ok(_) => Err(DecodeError::InvalidFormat),
            Err(e) => Err(e),
        }
    }
}

impl<F, T: Decode<F>> Decode<F> for Vec<T> {
    type Model = Seq<T::Model>;

    open spec fn model(&self) -> Seq<T::Model> {
        Seq::new(self@.len(), |i: int| self@[i].model())
    }

    /// Items until a terminator, each read where an escape is expected.
    open spec fn decoding(s: Seq<u8>, expect: bool) -> Result<
        (Seq<T::Model>, nat, bool),
        DecodeError,
    > {
        match decode_items::<F, T>(s) {
            Ok((ms, n)) => Ok((ms, n, true)),
            Err(k) => Err(k),
        }
    }

    fn decode(r: &mut Reader) -> (res: Result<Vec<T>, DecodeError>) {
        let mut buffer: Vec<T> = Vec::new();
        let ghost start = r.rest();
        proof {
            assert(start.skip(0) =~= start);
            assert(buffer.model() =~= Seq::<T::Model>::empty());
            if let Ok((ms, n)) = decode_items::<F, T>(start) {
                assert(Seq::<T::Model>::empty() + ms =~= ms);
            }
        }
        loop
            invariant
                r.rest().len() <= start.len(),
                start == old(r).rest(),
                r.rest() == start.skip(start.len() - r.rest().len()),
                decode_items::<F, T>(start) == prepend_models(
                    buffer.model(),
                    (start.len() - r.rest().len()) as nat,
                    decode_items::<F, T>(r.rest()),
                ),
            decreases r.rest().len(),
        {
            let before = r.remaining_len();
            let ghost s = r.rest();
            match r.read_terminal() {
                Err(e) => return Err(e),
                Ok(true) => {
                    proof {
                        assert(buffer.model() + Seq::<T::Model>::empty() =~= buffer.model());
                        assert(start.skip(start.len() - s.len() + 1) =~= s.drop_first());
                    }
                    return Ok(buffer);
                },
                Ok(false) => {},
            }
            let v = match T::decode(r) {
                Ok(v) => v,
                Err(e) => return Err(e),
            };
            if r.remaining_len() == before {
                return Err(DecodeError::InvalidFormat);
            }
            let ghost old_models = buffer.model();
            buffer.push(v);
            proof {
                assert(buffer.model() =~= old_models.push(v.model()));
                let (m, n, f) = T::decoding(s, true)->Ok_0;
                lemma_prepend_models_step(
                    old_models,
                    (start.len() - s.len()) as nat,
                    n,
                    m,
                    decode_items::<F, T>(s.skip(n as int)),
                );
                assert(start.skip(start.len() - s.len()).skip(n as int) =~= start.skip(
                    start.len() - r.rest().len(),
                ));
            }
        }
    }
}

impl<'de, F> BorrowDecode<'de, F> for u8 {
    type Model = u8;

    open spec fn model(&self) -> u8 {
        *self
    }

    open spec fn decoding(s: Seq<u8>, expect: bool) -> Result<(u8, nat, bool), DecodeError> {
        if fixed_ok(s, expect, 1) {
            Ok((fixed_value(s, expect, 1) as u8, fixed_end(s, expect, 1), false))
        } else {
            Err(DecodeError::UnexpectedEnd)
        }
    }

    fn borrow_decode(r: &mut BorrowReader<'de>) -> (res: Result<u8, DecodeError>) {
        r.read_u8()
    }
}

impl<'de, F> BorrowDecode<'de, F> for i8 {
    type Model = i8;

    open spec fn model(&self) -> i8 {
        *self
    }

    open spec fn decoding(s: Seq<u8>, expect: bool) -> Result<(i8, nat, bool), DecodeError> {
        if fixed_ok(s, expect, 1) {
            Ok((fixed_signed(s, expect, 1) as i8, fixed_end(s, expect, 1), false))
        } else {
            Err(DecodeError::UnexpectedEnd)
        }
    }

    fn borrow_decode(r: &mut BorrowReader<'de>) -> (res: Result<i8, DecodeError>) {
        r.read_i8()
    }
}

impl<'de, F> BorrowDecode<'de, F> for u16 {
    type Model = u16;

    open spec fn model(&self) -> u16 {
        *self
    }

    open spec fn decoding(s: Seq<u8>, expect: bool) -> Result<(u16, nat, bool), DecodeError> {
        if fixed_ok(s, expect, 2) {
            Ok((fixed_value(s, expect, 2) as u16, fixed_end(s, expect, 2), false))
        } else {
            Err(DecodeError::UnexpectedEnd)
        }
    }

    fn borrow_decode(r: &mut BorrowReader<'de>) -> (res: Result<u16, DecodeError>) {
        r.read_u16()
    }
}

impl<'de, F> BorrowDecode<'de, F> for i16 {
    type Model = i16;

    open spec fn model(&self) -> i16 {
        *self
    }

    open spec fn decoding(s: Seq<u8>, expect: bool) -> Result<(i16, nat, bool), DecodeError> {
        if fixed_ok(s, expect, 2) {
            Ok((fixed_signed(s, expect, 2) as i16, fixed_end(s, expect, 2), false))
        } else {
            Err(DecodeError::UnexpectedEnd)
        }
    }

    fn borrow_decode(r: &mut BorrowReader<'de>) -> (res: Result<i16, DecodeError>) {
        r.read_i16()
    }
}

impl<'de, F> BorrowDecode<'de, F> for u32 {
    type Model = u32;

    open spec fn model(&self) -> u32 {
        *self
    }

    open spec fn decoding(s: Seq<u8>, expect: bool) -> Result<(u32, nat, bool), DecodeError> {
        if fixed_ok(s, expect, 4) {
            Ok((fixed_value(s, expect, 4) as u32, fixed_end(s, expect, 4), false))
        } else {
            Err(DecodeError::UnexpectedEnd)
        }
    }

    fn borrow_decode(r: &mut BorrowReader<'de>) -> (res: Result<u32, DecodeError>) {
        r.read_u32()
    }
}

impl<'de, F> BorrowDecode<'de, F> for i32 {
    type Model = i32;

    open spec fn model(&self) -> i32 {
        *self
    }

    open spec fn decoding(s: Seq<u8>, expect: bool) -> Result<(i32, nat, bool), DecodeError> {
        if fixed_ok(s, expect, 4) {
            Ok((fixed_signed(s, expect, 4) as i32, fixed_end(s, expect, 4), false))
        } else {
            Err(DecodeError::UnexpectedEnd)
        }
    }

    fn borrow_decode(r: &mut BorrowReader<'de>) -> (res: Result<i32, DecodeError>) {
        r.read_i32()
    }
}

impl<'de, F> BorrowDecode<'de, F> for u64 {
    type Model = u64;

    open spec fn model(&self) -> u64 {
        *self
    }

    open spec fn decoding(s: Seq<u8>, expect: bool) -> Result<(u64, nat, bool), DecodeError> {
        if fixed_ok(s, expect, 8) {
            Ok((fixed_value(s, expect, 8) as u64, fixed_end(s, expect, 8), false))
        } else {
            Err(DecodeError::UnexpectedEnd)
        }
    }

    fn borrow_decode(r: &mut BorrowReader<'de>) -> (res: Result<u64, DecodeError>) {
        r.read_u64()
    }
}

impl<'de, F> BorrowDecode<'de, F> for i64 {
    type Model = i64;

    open spec fn model(&self) -> i64 {
        *self
    }

    open spec fn decoding(s: Seq<u8>, expect: bool) -> Result<(i64, nat, bool), DecodeError> {
        if fixed_ok(s, expect, 8) {
            Ok((fixed_signed(s, expect, 8) as i64, fixed_end(s, expect, 8), false))
        } else {
            Err(DecodeError::UnexpectedEnd)
        }
    }

    fn borrow_decode(r: &mut BorrowReader<'de>) -> (res: Result<i64, DecodeError>) {
        r.read_i64()
    }
}

impl<'de, F> BorrowDecode<'de, F> for u128 {
    type Model = u128;

    open spec fn model(&self) -> u128 {
        *self
    }

    open spec fn decoding(s: Seq<u8>, expect: bool) -> Result<(u128, nat, bool), DecodeError> {
        if fixed_ok(s, expect, 16) {
            Ok((fixed_value(s, expect, 16) as u128, fixed_end(s, expect, 16), false))
        } else {
            Err(DecodeError::UnexpectedEnd)
        }
    }

    fn borrow_decode(r: &mut BorrowReader<'de>) -> (res: Result<u128, DecodeError>) {
        r.read_u128()
    }
}

impl<'de, F> BorrowDecode<'de, F> for i128 {
    type Model = i128;

    open spec fn model(&self) -> i128 {
        *self
    }

    open spec fn decoding(s: Seq<u8>, expect: bool) -> Result<(i128, nat, bool), DecodeError> {
        if fixed_ok(s, expect, 16) {
            Ok((fixed_signed(s, expect, 16) as i128, fixed_end(s, expect, 16), false))
        } else {
            Err(DecodeError::UnexpectedEnd)
        }
    }

    fn borrow_decode(r: &mut BorrowReader<'de>) -> (res: Result<i128, DecodeError>) {
        r.read_i128()
    }
}

impl<'de, F> BorrowDecode<'de, F> for bool {
    type Model = bool;

    open spec fn model(&self) -> bool {
        *self
    }

    /// `2` is false, `3` is true; any other byte is refused.
    open spec fn decoding(s: Seq<u8>, expect: bool) -> Result<(bool, nat, bool), DecodeError> {
        if fixed_ok(s, expect, 1) && fixed_value(s, expect, 1) == 2 {
            Ok((false, fixed_end(s, expect, 1), false))
        } else if fixed_ok(s, expect, 1) && fixed_value(s, expect, 1) == 3 {
            Ok((true, fixed_end(s, expect, 1), false))
        } else {
            if fixed_ok(s, expect, 1) {
                Err(DecodeError::InvalidFormat)
            } else {
                Err(DecodeError::UnexpectedEnd)
            }
        }
    }

    fn borrow_decode(r: &mut BorrowReader<'de>) -> (res: Result<bool, DecodeError>) {
        match r.read_u8() {
            Ok(2) => Ok(false),
            Ok(3) => Ok(true),
            Ok(_) => Err(DecodeError::InvalidFormat),
            Err(e) => Err(e),
        }
    }
}

impl<'de, F> BorrowDecode<'de, F> for char {
    type Model = char;

    open spec fn model(&self) -> char {
        *self
    }

    /// A four-byte code point; one that is no Unicode scalar value is refused.
    open spec fn decoding(s: Seq<u8>, expect: bool) -> Result<(char, nat, bool), DecodeError> {
        if fixed_ok(s, expect, 4) && is_scalar(fixed_value(s, expect, 4) as u32) {
            Ok((fixed_value(s, expect, 4) as u32 as char, fixed_end(s, expect, 4), false))
        } else {
            if fixed_ok(s, expect, 4) {
                Err(DecodeError::InvalidFormat)
            } else {
                Err(DecodeError::UnexpectedEnd)
            }
        }
    }

    fn borrow_decode(r: &mut BorrowReader<'de>) -> (res: Result<char, DecodeError>) {
        match r.read_u32() {
            Ok(c) => match char_from_u32(c) {
                Some(ch) => {
                    proof {
                        vstd::utf8::char_u32_cast(ch, c);
                    }
                    Ok(ch)
                },
                None => Err(DecodeError::InvalidFormat),
            },
            Err(e) => Err(e),
        }
    }
}

impl<'de, F> BorrowDecode<'de, F> for String {
    type Model = Seq<char>;

    open spec fn model(&self) -> Seq<char> {
        self@
    }

    /// A variable-length sequence that must be UTF-8.
    open spec fn decoding(s: Seq<u8>, expect: bool) -> Result<(Seq<char>, nat, bool), DecodeError> {
        match unescape(s) {
            Some((v, n)) => if valid_utf8(v) {
                Ok((decode_utf8(v), n, false))
            } else {
                Err(DecodeError::Utf8)
            },
            None => Err(DecodeError::UnexpectedEnd),
        }
    }

    fn borrow_decode(r: &mut BorrowReader<'de>) -> (res: Result<String, DecodeError>) {
        proof {
            if unescape(r.rest()) is Some {
                lemma_unescape_body(r.rest());
            }
        }
        let res = r.read_string();
        proof {
            if res is Ok {
                vstd::utf8::encode_utf8_decode_utf8(res->Ok_0@);
            }
        }
        res
    }
}

impl<'de, F> BorrowDecode<'de, F> for () {
    type Model = ();

    open spec fn model(&self) -> () {
        ()
    }

    open spec fn decoding(s: Seq<u8>, expect: bool) -> Result<((), nat, bool), DecodeError> {
        Ok(((), 0, expect))
    }

    fn borrow_decode(r: &mut BorrowReader<'de>) -> (res: Result<(), DecodeError>) {
        assert(r.rest().skip(0) =~= r.rest());
        Ok(())
    }
}


impl<'de, F, A: BorrowDecode<'de, F>> BorrowDecode<'de, F> for (A,) {
    type Model = (A::Model,);

    open spec fn model(&self) -> (A::Model,) {
        (self.0.model(),)
    }

    /// The fields in order.
    open spec fn decoding(s: Seq<u8>, expect: bool) -> Result<
        ((A::Model,), nat, bool),
        DecodeError,
    > {
        match A::decoding(s, expect) {
            Ok((v0, n0, e0)) => Ok(((v0,), n0, e0)),
            Err(k) => Err(k),
        }
    }

    fn borrow_decode(r: &mut BorrowReader<'de>) -> (res: Result<(A,), DecodeError>) {
        let v0 = match A::borrow_decode(r) {
            Ok(v) => v,
            Err(e) => return Err(e),
        };
        proof {
            let s = old(r).rest();
            if let Ok((m0, n0, e0)) = A::decoding(s, old(r).expecting()) {
                let s1 = s.skip(n0 as int);
                assert(s1 =~= s.skip((n0) as int));
            }
        }
        Ok((v0,))
    }
}

impl<'de, F, A: BorrowDecode<'de, F>, B: BorrowDecode<'de, F>> BorrowDecode<'de, F> for (A, B) {
    type Model = (A::Model, B::Model);

    open spec fn model(&self) -> (A::Model, B::Model) {
        (self.0.model(), self.1.model())
    }

    /// The fields in order.
    open spec fn decoding(s: Seq<u8>, expect: bool) -> Result<
        ((A::Model, B::Model), nat, bool),
        DecodeError,
    > {
        match A::decoding(s, expect) {
            Ok((v0, n0, e0)) => match B::decoding(s.skip(n0 as int), e0) {
                Ok((v1, n1, e1)) => Ok(((v0, v1), n0 + n1, e1)),
                Err(k) => Err(k),
            },
            Err(k) => Err(k),
        }
    }

    fn borrow_decode(r: &mut BorrowReader<'de>) -> (res: Result<(A, B), DecodeError>) {
        let v0 = match A::borrow_decode(r) {
            Ok(v) => v,
            Err(e) => return Err(e),
        };
        let v1 = match B::borrow_decode(r) {
            Ok(v) => v,
            Err(e) => return Err(e),
        };
        proof {
            let s = old(r).rest();
            if let Ok((m0, n0, e0)) = A::decoding(s, old(r).expecting()) {
                let s1 = s.skip(n0 as int);
                if let Ok((m1, n1, e1)) = B::decoding(s1, e0) {
                    let s2 = s1.skip(n1 as int);
                    assert(s2 =~= s.skip((n0 + n1) as int));
                }
            }
        }
        Ok((v0, v1))
    }
}

impl<
    'de,
    F,
    A: BorrowDecode<'de, F>,
    B: BorrowDecode<'de, F>,
    C: BorrowDecode<'de, F>,
> BorrowDecode<'de, F> for (A, B, C) {
    type Model = (A::Model, B::Model, C::Model);

    open spec fn model(&self) -> (A::Model, B::Model, C::Model) {
        (self.0.model(), self.1.model(), self.2.model())
    }

    /// The fields in order.
    open spec fn decoding(s: Seq<u8>, expect: bool) -> Result<
        ((A::Model, B::Model, C::Model), nat, bool),
        DecodeError,
    > {
        match A::decoding(s, expect) {
            Ok((v0, n0, e0)) => match B::decoding(s.skip(n0 as int), e0) {
                Ok((v1, n1, e1)) => match C::decoding(s.skip(n0 as int).skip(n1 as int), e1) {
                    Ok((v2, n2, e2)) => Ok(((v0, v1, v2), n0 + n1 + n2, e2)),
                    Err(k) => Err(k),
                },
                Err(k) => Err(k),
            },
            Err(k) => Err(k),
        }
    }

    fn borrow_decode(r: &mut BorrowReader<'de>) -> (res: Result<(A, B, C), DecodeError>) {
        let v0 = match A::borrow_decode(r) {
            Ok(v) => v,
            Err(e) => return Err(e),
        };
        let v1 = match B::borrow_decode(r) {
            Ok(v) => v,
            Err(e) => return Err(e),
        };
        let v2 = match C::borrow_decode(r) {
            Ok(v) => v,
            Err(e) => return Err(e),
        };
        proof {
            let s = old(r).rest();
            if let Ok((m0, n0, e0)) = A::decoding(s, old(r).expecting()) {
                let s1 = s.skip(n0 as int);
                if let Ok((m1, n1, e1)) = B::decoding(s1, e0) {
                    let s2 = s1.skip(n1 as int);
                    if let Ok((m2, n2, e2)) = C::decoding(s2, e1) {
                        let s3 = s2.skip(n2 as int);
                        assert(s3 =~= s.skip((n0 + n1 + n2) as int));
                    }
                }
            }
        }
        Ok((v0, v1, v2))
    }
}

impl<
    'de,
    F,
    A: BorrowDecode<'de, F>,
    B: BorrowDecode<'de, F>,
    C: BorrowDecode<'de, F>,
    D: BorrowDecode<'de, F>,
> BorrowDecode<'de, F> for (A, B, C, D) {
    type Model = (A::Model, B::Model, C::Model, D::Model);

    open spec fn model(&self) -> (A::Model, B::Model, C::Model, D::Model) {
        (self.0.model(), self.1.model(), self.2.model(), self.3.model())
    }

    /// The fields in order.
    open spec fn decoding(s: Seq<u8>, expect: bool) -> Result<
        ((A::Model, B::Model, C::Model, D::Model), nat, bool),
        DecodeError,
    > {
        match A::decoding(s, expect) {
            Ok((v0, n0, e0)) => match B::decoding(s.skip(n0 as int), e0) {
                Ok((v1, n1, e1)) => match C::decoding(s.skip(n0 as int).skip(n1 as int), e1) {
                    Ok((v2, n2, e2)) => match D::decoding(s.skip(n0 as int).skip(n1 as int).skip(n2 as int), e2) {
                        Ok((v3, n3, e3)) => Ok(((v0, v1, v2, v3), n0 + n1 + n2 + n3, e3)),
                        Err(k) => Err(k),
                    },
                    Err(k) => Err(k),
                },
                Err(k) => Err(k),
            },
            Err(k) => Err(k),
        }
    }

    fn borrow_decode(r: &mut BorrowReader<'de>) -> (res: Result<(A, B, C, D), DecodeError>) {
        let v0 = match A::borrow_decode(r) {
            Ok(v) => v,
            Err(e) => return Err(e),
        };
        let v1 = match B::borrow_decode(r) {
            Ok(v) => v,
            Err(e) => return Err(e),
        };
        let v2 = match C::borrow_decode(r) {
            Ok(v) => v,
            Err(e) => return Err(e),
        };
        let v3 = match D::borrow_decode(r) {
            Ok(v) => v,
            Err(e) => return Err(e),
        };
        proof {
            let s = old(r).rest();
            if let Ok((m0, n0, e0)) = A::decoding(s, old(r).expecting()) {
                let s1 = s.skip(n0 as int);
                if let Ok((m1, n1, e1)) = B::decoding(s1, e0) {
                    let s2 = s1.skip(n1 as int);
                    if let Ok((m2, n2, e2)) = C::decoding(s2, e1) {
                        let s3 = s2.skip(n2 as int);
                        if let Ok((m3, n3, e3)) = D::decoding(s3, e2) {
                            let s4 = s3.skip(n3 as int);
                            assert(s4 =~= s.skip((n0 + n1 + n2 + n3) as int));
                        }
                    }
                }
            }
        }
        Ok((v0, v1, v2, v3))
    }
}


impl<'de, F, T: BorrowDecode<'de, F>> BorrowDecode<'de, F> for Bound<T> {
    type Model = Bound<T::Model>;

    open spec fn model(&self) -> Bound<T::Model> {
        match self {
            Bound::Included(x) => Bound::Included(x.model()),
            Bound::Excluded(x) => Bound::Excluded(x.model()),
            Bound::Unbounded => Bound::Unbounded,
        }
    }

    /// `2` is unbounded, `3` inclusive and `4` exclusive, the endpoint following;
    /// any other byte is refused.
    open spec fn decoding(s: Seq<u8>, expect: bool) -> Result<
        (Bound<T::Model>, nat, bool),
        DecodeError,
    > {
        if fixed_ok(s, expect, 1) && fixed_value(s, expect, 1) == 2 {
            Ok((Bound::Unbounded, fixed_end(s, expect, 1), false))
        } else if fixed_ok(s, expect, 1) && (fixed_value(s, expect, 1) == 3 || fixed_value(
            s,
            expect,
            1,
        ) == 4) {
            let k = fixed_end(s, expect, 1);
            match T::decoding(s.skip(k as int), false) {
                Ok((m, n, f)) => Ok((
                    if fixed_value(s, expect, 1) == 3 {
                        Bound::Included(m)
                    } else {
                        Bound::Excluded(m)
                    },
                    k + n,
                    f,
                )),
                Err(k) => Err(k),
            }
        } else {
            if fixed_ok(s, expect, 1) {
                Err(DecodeError::InvalidFormat)
            } else {
                Err(DecodeError::UnexpectedEnd)
            }
        }
    }

    fn borrow_decode(r: &mut BorrowReader<'de>) -> (res: Result<Bound<T>, DecodeError>) {
        match r.read_u8() {
            Ok(2) => Ok(Bound::Unbounded),
            Ok(3) => {
                let ghost mid = r.rest();
                match T::borrow_decode(r) {
                    Ok(v) => {
                        proof {
                            let k = fixed_end(old(r).rest(), old(r).expecting(), 1);
                            if let Ok((m, n, f)) = T::decoding(mid, false) {
                                assert(old(r).rest().skip(k as int).skip(n as int) =~= old(
                                    r,
                                ).rest().skip((k + n) as int));
                            }
                        }
                        Ok(Bound::Included(v))
                    },
                    Err(e) => Err(e),
                }
            },
            Ok(4) => {
                let ghost mid = r.rest();
                match T::borrow_decode(r) {
                    Ok(v) => {
                        proof {
                            let k = fixed_end(old(r).rest(), old(r).expecting(), 1);
                            if let Ok((m, n, f)) = T::decoding(mid, false) {
                                assert(old(r).rest().skip(k as int).skip(n as int) =~= old(
                                    r,
                                ).rest().skip((k + n) as int));
                            }
                        }
                        Ok(Bound::Excluded(v))
                    },
                    Err(e) => Err(e),
                }
            },
            Ok(_) => Err(DecodeError::InvalidFormat),
            Err(e) => Err(e),
        }
    }
}

impl<'de, F, T: BorrowDecode<'de, F>> BorrowDecode<'de, F> for Box<T> {
    type Model = T::Model;

    open spec fn model(&self) -> T::Model {
        (**self).model()
    }

    /// The boxed value, as it is.
    open spec fn decoding(s: Seq<u8>, expect: bool) -> Result<(T::Model, nat, bool), DecodeError> {
        T::decoding(s, expect)
    }

    fn borrow_decode(r: &mut BorrowReader<'de>) -> (res: Result<Box<T>, DecodeError>) {
        match T::borrow_decode(r) {
            Ok(v) => Ok(Box::new(v)),
            Err(e) => Err(e),
        }
    }
}

impl<'de, F, T: BorrowDecode<'de, F>> BorrowDecode<'de, F> for Option<T> {
    type Model = Option<T::Model>;

    open spec fn model(&self) -> Option<T::Model> {
        match self {
            None => None,
            Some(x) => Some(x.model()),
        }
    }

    /// `2` is none; `3` is some, the value following; any other byte is refused.
    open spec fn decoding(s: Seq<u8>, expect: bool) -> Result<
        (Option<T::Model>, nat, bool),
        DecodeError,
    > {
        if fixed_ok(s, expect, 1) && fixed_value(s, expect, 1) == 2 {
            Ok((None, fixed_end(s, expect, 1), false))
        } else if fixed_ok(s, expect, 1) && fixed_value(s, expect, 1) == 3 {
            let k = fixed_end(s, expect, 1);
            match T::decoding(s.skip(k as int), false) {
                Ok((m, n, f)) => Ok((Some(m), k + n, f)),
                Err(k) => Err(k),
            }
        } else {
            if fixed_ok(s, expect, 1) {
                Err(DecodeError::InvalidFormat)
            } else {
                Err(DecodeError::UnexpectedEnd)
            }
        }
    }

    fn borrow_decode(r: &mut BorrowReader<'de>) -> (res: Result<Option<T>, DecodeError>) {
        match r.read_u8() {
            Ok(2) => Ok(None),
            Ok(3) => {
                let ghost mid = r.rest();
                match T::borrow_decode(r) {
                    Ok(v) => {
                        proof {
                            let k = fixed_end(old(r).rest(), old(r).expecting(), 1);
                            if let Ok((m, n, f)) = T::decoding(mid, false) {
                                assert(old(r).rest().skip(k as int).skip(n as int) =~= old(
                                    r,
                                ).rest().skip((k + n) as int));
                            }
                        }
                        Ok(Some(v))
                    },
                    Err(e) => Err(e),
                }
            },
            Ok(_) => Err(DecodeError::InvalidFormat),
            Err(e) => Err(e),
        }
    }
}

impl<'de, F, O: BorrowDecode<'de, F>, E: BorrowDecode<'de, F>> BorrowDecode<'de, F> for Result<O, E> {
    type Model = Result<O::Model, E::Model>;

    open spec fn model(&self) -> Result<O::Model, E::Model> {
        match self {
            Ok(x) => Ok(x.model()),
            Err(x) => Err(x.model()),
        }
    }

    /// `2` is ok and `3` is err, the value following; any other byte is refused.
    open spec fn decoding(s: Seq<u8>, expect: bool) -> Result<
        (Result<O::Model, E::Model>, nat, bool),
        DecodeError,
    > {
        if fixed_ok(s, expect, 1) && fixed_value(s, expect, 1) == 2 {
            let k = fixed_end(s, expect, 1);
            match O::decoding(s.skip(k as int), false) {
                Ok((m, n, f)) => Ok((Ok(m), k + n, f)),
                Err(k) => Err(k),
            }
        } else if fixed_ok(s, expect, 1) && fixed_value(s, expect, 1) == 3 {
            let k = fixed_end(s, expect, 1);
            match E::decoding(s.skip(k as int), false) {
                Ok((m, n, f)) => Ok((Err(m), k + n, f)),
                Err(k) => Err(k),
            }
        } else {
            if fixed_ok(s, expect, 1) {
                Err(DecodeError::InvalidFormat)
            } else {
                Err(DecodeError::UnexpectedEnd)
            }
        }
    }

    fn borrow_decode(r: &mut BorrowReader<'de>) -> (res: Result<Result<O, E>, DecodeError>) {
        match r.read_u8() {
            Ok(2) => {
                let ghost mid = r.rest();
                match O::borrow_decode(r) {
                    Ok(v) => {
                        proof {
                            let k = fixed_end(old(r).rest(), old(r).expecting(), 1);
                            if let Ok((m, n, f)) = O::decoding(mid, false) {
                                assert(old(r).rest().skip(k as int).skip(n as int) =~= old(
                                    r,
                                ).rest().skip((k + n) as int));
                            }
                        }
                        Ok(Ok(v))
                    },
                    Err(e) => Err(e),
                }
            },
            Ok(3) => {
                let ghost mid = r.rest();
                match E::borrow_decode(r) {
                    Ok(v) => {
                        proof {
                            let k = fixed_end(old(r).rest(), old(r).expecting(), 1);
                            if let Ok((m, n, f)) = E::decoding(mid, false) {
                                assert(old(r).rest().skip(k as int).skip(n as int) =~= old(
                                    r,
                                ).rest().skip((k + n) as int));
                            }
                        }
                        Ok(Err(v))
                    },
                    Err(e) => Err(e),
                }
            },
            Ok(_) => Err(DecodeError::InvalidFormat),
            Err(e) => Err(e),
        }
    }
}

impl<'de, F, T: BorrowDecode<'de, F>> BorrowDecode<'de, F> for Vec<T> {
    type Model = Seq<T::Model>;

    open spec fn model(&self) -> Seq<T::Model> {
        Seq::new(self@.len(), |i: int| self@[i].model())
    }

    /// Items until a terminator, each read where an escape is expected.
    open spec fn decoding(s: Seq<u8>, expect: bool) -> Result<
        (Seq<T::Model>, nat, bool),
        DecodeError,
    > {
        match borrow_decode_items::<'de, F, T>(s) {
            Ok((ms, n)) => Ok((ms, n, true)),
            Err(k) => Err(k),
        }
    }

    fn borrow_decode(r: &mut BorrowReader<'de>) -> (res: Result<Vec<T>, DecodeError>) {
        let mut buffer: Vec<T> = Vec::new();
        let ghost start = r.rest();
        proof {
            assert(start.skip(0) =~= start);
            assert(buffer.model() =~= Seq::<T::Model>::empty());
            if let Ok((ms, n)) = borrow_decode_items::<'de, F, T>(start) {
                assert(Seq::<T::Model>::empty() + ms =~= ms);
            }
        }
        loop
            invariant
                r.rest().len() <= start.len(),
                start == old(r).rest(),
                r.rest() == start.skip(start.len() - r.rest().len()),
                borrow_decode_items::<'de, F, T>(start) == prepend_models(
                    buffer.model(),
                    (start.len() - r.rest().len()) as nat,
                    borrow_decode_items::<'de, F, T>(r.rest()),
                ),
            decreases r.rest().len(),
        {
            let before = r.remaining_len();
            let ghost s = r.rest();
            match r.read_terminal() {
                Err(e) => return Err(e),
                Ok(true) => {
                    proof {
                        assert(buffer.model() + Seq::<T::Model>::empty() =~= buffer.model());
                        assert(start.skip(start.len() - s.len() + 1) =~= s.drop_first());
                    }
                    return Ok(buffer);
                },
                Ok(false) => {},
            }
            let v = match T::borrow_decode(r) {
                Ok(v) => v,
                Err(e) => return Err(e),
            };
            if r.remaining_len() == before {
                return Err(DecodeError::InvalidFormat);
            }
            let ghost old_models = buffer.model();
            buffer.push(v);
            proof {
                assert(buffer.model() =~= old_models.push(v.model()));
                let (m, n, f) = T::decoding(s, true)->Ok_0;
                lemma_prepend_models_step(
                    old_models,
                    (start.len() - s.len()) as nat,
                    n,
                    m,
                    borrow_decode_items::<'de, F, T>(s.skip(n as int)),
                );
                assert(start.skip(start.len() - s.len()).skip(n as int) =~= start.skip(
                    start.len() - r.rest().len(),
                ));
            }
        }
    }
}

impl<'de, F> BorrowDecode<'de, F> for EscapedSlice<'de> {
    type Model = Seq<u8>;

    open spec fn model(&self) -> Seq<u8> {
        self.raw()
    }

    /// A variable-length sequence, kept in its raw form.
    open spec fn decoding(s: Seq<u8>, expect: bool) -> Result<(Seq<u8>, nat, bool), DecodeError> {
        match unescape(s) {
            Some((v, n)) => Ok((s.take(n as int), n, false)),
            None => Err(DecodeError::UnexpectedEnd),
        }
    }

    fn borrow_decode(r: &mut BorrowReader<'de>) -> (res: Result<EscapedSlice<'de>, DecodeError>) {
        proof {
            if unescape(r.rest()) is Some {
                lemma_unescape_body(r.rest());
            }
        }
        r.read_escaped_slice()
    }
}

impl<'de, F> BorrowDecode<'de, F> for EscapedStr<'de> {
    type Model = Seq<u8>;

    open spec fn model(&self) -> Seq<u8> {
        self.raw()
    }

    /// A variable-length sequence, kept in its raw form, that must be UTF-8.
    open spec fn decoding(s: Seq<u8>, expect: bool) -> Result<(Seq<u8>, nat, bool), DecodeError> {
        match unescape(s) {
            Some((v, n)) => if valid_utf8(s.take(n as int)) {
                Ok((s.take(n as int), n, false))
            } else {
                Err(DecodeError::Utf8)
            },
            None => Err(DecodeError::UnexpectedEnd),
        }
    }

    fn borrow_decode(r: &mut BorrowReader<'de>) -> (res: Result<EscapedStr<'de>, DecodeError>) {
        proof {
            if unescape(r.rest()) is Some {
                lemma_unescape_body(r.rest());
            }
        }
        r.read_escaped_str()
    }
}

impl<'de, F> BorrowDecode<'de, F> for Reference<'de> {
    type Model = Seq<u8>;

    open spec fn model(&self) -> Seq<u8> {
        self.bytes()
    }

    /// A variable-length sequence; in place when it holds no escape.
    open spec fn decoding(s: Seq<u8>, expect: bool) -> Result<(Seq<u8>, nat, bool), DecodeError> {
        match unescape(s) {
            Some((v, n)) => Ok((v, n, false)),
            None => Err(DecodeError::UnexpectedEnd),
        }
    }

    fn borrow_decode(r: &mut BorrowReader<'de>) -> (res: Result<Reference<'de>, DecodeError>) {
        proof {
            if unescape(r.rest()) is Some {
                lemma_unescape_body(r.rest());
            }
        }
        r.read_cow()
    }
}

impl<'de, F> BorrowDecode<'de, F> for StrReference<'de> {
    type Model = Seq<char>;

    open spec fn model(&self) -> Seq<char> {
        self.chars()
    }

    /// A variable-length sequence that must be UTF-8; in place when it holds no escape.
    open spec fn decoding(s: Seq<u8>, expect: bool) -> Result<(Seq<char>, nat, bool), DecodeError> {
        match unescape(s) {
            Some((v, n)) => if valid_utf8(v) {
                Ok((decode_utf8(v), n, false))
            } else {
                Err(DecodeError::Utf8)
            },
            None => Err(DecodeError::UnexpectedEnd),
        }
    }

    fn borrow_decode(r: &mut BorrowReader<'de>) -> (res: Result<StrReference<'de>, DecodeError>) {
        proof {
            if unescape(r.rest()) is Some {
                lemma_unescape_body(r.rest());
            }
        }
        let res = r.read_str_cow();
        proof {
            if res is Ok {
                vstd::utf8::encode_utf8_decode_utf8(res->Ok_0.chars());
            }
        }
        res
    }
}

} // verus!
