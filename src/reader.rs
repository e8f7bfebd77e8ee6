//! The readers: the owned `Reader` and the zero-copy `BorrowReader`.
use vstd::prelude::*;

use crate::error::DecodeError;
use crate::format::{
    borrowable, fixed_data, fixed_end, fixed_ok, fixed_signed, fixed_skip, fixed_value,
    lemma_prepend_step, lemma_unescape_at, lemma_unescape_plain, lemma_unescape_prefix, prepend,
    unescape,
};
use crate::prim::{be_value, lemma_pow256_values};
use crate::types::{EscapedSlice, EscapedStr};
use vstd::string::StringSliceAdditionalSpecFns;
use vstd::utf8::{encode_utf8, valid_utf8};

verus! {

/// Relies on `std::str::from_utf8`: it succeeds exactly on valid UTF-8, and then
/// views the same bytes as a string.
#[verifier::external_body]
fn utf8_str(v: &[u8]) -> (r: Option<&str>)
    ensures
        r is Some <==> valid_utf8(v@),
        r matches Some(s) ==> s.spec_bytes() == v@,
{
    std::str::from_utf8(v).ok()
}

/// The bytes as a `String`, if they are valid UTF-8.
fn utf8_string(v: &[u8]) -> (r: Option<String>)
    ensures
        r is Some <==> valid_utf8(v@),
        r matches Some(s) ==> encode_utf8(s@) == v@,
{
    match utf8_str(v) {
        Some(s) => Some(s.to_owned()),
        None => None,
    }
}

/// Reads one escaped, terminated sequence from the front of `s`, appending its
/// contents to `buffer`; returns how many bytes it took.
fn unescape_into(s: &[u8], buffer: &mut Vec<u8>) -> (r: Option<usize>)
    ensures
        match unescape(s@) {
            Some((v, n)) => (r matches Some(k) && k as nat == n && k <= s@.len()) && final(buffer)@
                == old(buffer)@ + v,
            None => r is None,
        },
{
    let mut i: usize = 0;
    let ghost mut acc = Seq::<u8>::empty();
    proof {
        assert(s@.skip(0) =~= s@);
        assert(old(buffer)@ + acc =~= old(buffer)@);
        if let Some((v, n)) = unescape(s@) {
            assert(acc + v =~= v);
        }
    }
    loop
        invariant
            i <= s@.len(),
            buffer@ == old(buffer)@ + acc,
            unescape(s@) == prepend(acc, i as nat, unescape(s@.skip(i as int))),
        decreases s@.len() - i,
    {
        if i >= s.len() {
            assert(s@.skip(i as int).len() == 0);
            return None;
        }
        proof {
            lemma_unescape_at(s@, i as int);
        }
        let b = s[i];
        if b == 0 {
            assert(acc + Seq::<u8>::empty() =~= acc);
            return Some(i + 1);
        }
        if b == 1 {
            if i + 1 >= s.len() {
                return None;
            }
            let c = s[i + 1];
            buffer.push(c);
            proof {
                lemma_prepend_step(acc, i as nat, 2, c, unescape(s@.skip(i + 2)));
                acc = acc.push(c);
            }
            i = i + 2;
        } else {
            buffer.push(b);
            proof {
                lemma_prepend_step(acc, i as nat, 1, b, unescape(s@.skip(i + 1)));
                acc = acc.push(b);
            }
            i = i + 1;
        }
    }
}

/// A fixed-width read of `SIZE` bytes from the front of `s`: the bytes and how
/// many were taken, the escape prefix included.
fn fixed_read<const SIZE: usize>(s: &[u8], expect: bool) -> (r: Option<([u8; SIZE], usize)>)
    ensures
        fixed_ok(s@, expect, SIZE as nat) ==> (r matches Some((a, k)) && a@ == fixed_data(
            s@,
            expect,
            SIZE as nat,
        ) && k == fixed_skip(s@, expect) + SIZE),
        !fixed_ok(s@, expect, SIZE as nat) ==> r is None,
{
    let mut skip: usize = 0;
    if expect {
        if s.len() == 0 {
            return None;
        }
        if s[0] == 1 {
            skip = 1;
        }
    }
    if s.len() < skip || s.len() - skip < SIZE {
        return None;
    }
    let mut res = [0u8; SIZE];
    let mut i: usize = 0;
    while i < SIZE
        invariant
            skip == fixed_skip(s@, expect),
            skip + SIZE <= s@.len(),
            i <= SIZE,
            res@.len() == SIZE,
            forall|j: int| 0 <= j < i ==> res@[j] == s@[skip + j],
        decreases SIZE - i,
    {
        res[i] = s[skip + i];
        i = i + 1;
    }
    assert(res@ =~= fixed_data(s@, expect, SIZE as nat));
    Some((res, skip + SIZE))
}

/// The result of a read that borrows from the input where it can.
pub enum Reference<'a> {
    /// The contents, in place in the input.
    Borrowed(&'a [u8]),
    /// The contents, copied out because they held escapes.
    Copied(Vec<u8>),
}

impl<'a> Reference<'a> {
    /// The contents either way.
    pub open spec fn bytes(&self) -> Seq<u8> {
        match self {
            Reference::Borrowed(s) => s@,
            Reference::Copied(v) => v@,
        }
    }

    /// The contents either way.
    pub fn as_bytes(&self) -> (r: &[u8])
        ensures
            r@ == self.bytes(),
    {
        match self {
            Reference::Borrowed(s) => s,
            Reference::Copied(v) => v.as_slice(),
        }
    }
}

/// A string read that borrows from the input where it can.
pub enum StrReference<'a> {
    /// The string, in place in the input.
    Borrowed(&'a str),
    /// The string, copied out because it held escapes.
    Copied(String),
}

impl<'a> StrReference<'a> {
    /// The characters either way.
    pub open spec fn chars(&self) -> Seq<char> {
        match self {
            StrReference::Borrowed(s) => s@,
            StrReference::Copied(v) => v@,
        }
    }

    /// The string either way.
    pub fn as_str(&self) -> (r: &str)
        ensures
            r@ == self.chars(),
    {
        match self {
            StrReference::Borrowed(s) => s,
            StrReference::Copied(v) => v.as_str(),
        }
    }
}


/// The length of the escaped, terminated sequence at the front of `s`,
/// terminator included.
fn escaped_len(s: &[u8]) -> (r: Option<usize>)
    ensures
        match unescape(s@) {
            Some((v, n)) => r matches Some(k) && k as nat == n && k <= s@.len(),
            None => r is None,
        },
{
    let mut i: usize = 0;
    let ghost mut acc = Seq::<u8>::empty();
    proof {
        assert(s@.skip(0) =~= s@);
        if let Some((v, n)) = unescape(s@) {
            assert(acc + v =~= v);
        }
    }
    loop
        invariant
            i <= s@.len(),
            unescape(s@) == prepend(acc, i as nat, unescape(s@.skip(i as int))),
        decreases s@.len() - i,
    {
        if i >= s.len() {
            assert(s@.skip(i as int).len() == 0);
            return None;
        }
        proof {
            lemma_unescape_at(s@, i as int);
        }
        let b = s[i];
        if b == 0 {
            return Some(i + 1);
        }
        if b == 1 {
            if i + 1 >= s.len() {
                return None;
            }
            proof {
                lemma_prepend_step(acc, i as nat, 2, s@[i + 1], unescape(s@.skip(i + 2)));
                acc = acc.push(s@[i + 1]);
            }
            i = i + 2;
        } else {
            proof {
                lemma_prepend_step(acc, i as nat, 1, b, unescape(s@.skip(i + 1)));
                acc = acc.push(b);
            }
            i = i + 1;
        }
    }
}

/// Reads encoded values from an owned buffer, unescaping as it goes.
pub struct Reader {
    inner: Vec<u8>,
    pos: usize,
    expect_escaped: bool,
}

impl Reader {
    #[verifier::type_invariant]
    spec fn inv(&self) -> bool {
        self.pos <= self.inner@.len()
    }

    /// The input not read yet.
    pub closed spec fn rest(&self) -> Seq<u8> {
        self.inner@.skip(self.pos as int)
    }

    /// Whether the next fixed-width read takes a leading escape prefix.
    pub closed spec fn expecting(&self) -> bool {
        self.expect_escaped
    }

    /// A reader over `r`, with no escape expected.
    pub fn new(r: Vec<u8>) -> (res: Self)
        ensures
            res.rest() == r@,
            !res.expecting(),
    {
        assert(r@.skip(0) =~= r@);
        Reader { inner: r, pos: 0, expect_escaped: false }
    }

    /// Whether all the input has been read.
    pub fn is_empty(&self) -> (r: Result<bool, DecodeError>)
        ensures
            r matches Ok(b) && b == (self.rest().len() == 0),
    {
        proof {
            use_type_invariant(self);
        }
        Ok(self.pos >= self.inner.len())
    }

    fn remaining(&self) -> (r: &[u8])
        ensures
            r@ == self.rest(),
    {
        proof {
            use_type_invariant(self);
        }
        let r = vstd::slice::slice_subrange(self.inner.as_slice(), self.pos, self.inner.len());
        assert(r@ =~= self.rest());
        r
    }

    pub(crate) fn remaining_len(&self) -> (r: usize)
        ensures
            r == self.rest().len(),
    {
        proof {
            use_type_invariant(self);
        }
        self.inner.len() - self.pos
    }

    fn advance(&mut self, s: usize)
        requires
            s <= old(self).rest().len(),
        ensures
            final(self).rest() == old(self).rest().skip(s as int),
            final(self).expecting() == old(self).expecting(),
    {
        proof {
            use_type_invariant(&*self);
        }
        assert(self.inner@.skip(self.pos as int).len() == self.inner@.len() - self.pos);
        let n = self.inner.len();
        assert(self.pos + s <= n);
        self.pos = self.pos + s;
        assert(self.inner@.skip(self.pos as int) =~= old(self).rest().skip(s as int));
    }

    /// Marks the next byte as possibly escaped.
    pub fn expect_escaped(&mut self)
        ensures
            final(self).rest() == old(self).rest(),
            final(self).expecting(),
    {
        proof {
            use_type_invariant(&*self);
        }
        self.expect_escaped = true;
    }

    /// Reads a terminator if one comes next: `true` and the terminator taken, or
    /// `false` and nothing taken. Either way an escape is expected next.
    pub fn read_terminal(&mut self) -> (r: Result<bool, DecodeError>)
        ensures
            final(self).expecting(),
            old(self).rest().len() == 0 ==> (r matches Err(DecodeError::UnexpectedEnd)
                && final(self).rest() == old(self).rest()),
            old(self).rest().len() > 0 && old(self).rest()[0] == 0 ==> (r matches Ok(true)
                && final(self).rest() == old(self).rest().drop_first()),
            old(self).rest().len() > 0 && old(self).rest()[0] != 0 ==> (r matches Ok(false)
                && final(self).rest() == old(self).rest()),
    {
        proof {
            use_type_invariant(&*self);
        }
        self.expect_escaped = true;
        let s = self.remaining();
        if s.len() == 0 {
            return Err(DecodeError::UnexpectedEnd);
        }
        if s[0] == 0 {
            self.advance(1);
            assert(old(self).rest().skip(1) =~= old(self).rest().drop_first());
            Ok(true)
        } else {
            Ok(false)
        }
    }

    /// Reads `SIZE` bytes, first taking an escape prefix if an escape is expected;
    /// no escape is expected afterwards.
    pub fn read_array<const SIZE: usize>(&mut self) -> (r: Result<[u8; SIZE], DecodeError>)
        ensures
            !final(self).expecting(),
            fixed_ok(old(self).rest(), old(self).expecting(), SIZE as nat) ==> (r matches Ok(a)
                && a@ == fixed_data(old(self).rest(), old(self).expecting(), SIZE as nat)
                && final(self).rest() == old(self).rest().skip(
                fixed_end(old(self).rest(), old(self).expecting(), SIZE as nat) as int,
            )),
            !fixed_ok(old(self).rest(), old(self).expecting(), SIZE as nat) ==> (r matches Err(
                DecodeError::UnexpectedEnd,
            ) && final(self).rest() == old(self).rest()),
    {
        proof {
            use_type_invariant(&*self);
        }
        let e = self.expect_escaped;
        self.expect_escaped = false;
        match fixed_read::<SIZE>(self.remaining(), e) {
            Some((a, k)) => {
                self.advance(k);
                Ok(a)
            },
            None => Err(DecodeError::UnexpectedEnd),
        }
    }

    /// Reads an escaped, terminated byte sequence into a new buffer.
    pub fn read_vec(&mut self) -> (r: Result<Vec<u8>, DecodeError>)
        ensures
            !final(self).expecting(),
            match unescape(old(self).rest()) {
                Some((v, n)) => r matches Ok(b) && b@ == v && final(self).rest() == old(
                    self,
                ).rest().skip(n as int),
                None => r matches Err(DecodeError::UnexpectedEnd) && final(self).rest() == old(
                    self,
                ).rest(),
            },
    {
        proof {
            use_type_invariant(&*self);
        }
        self.expect_escaped = false;
        let mut buffer = Vec::new();
        match unescape_into(self.remaining(), &mut buffer) {
            Some(n) => {
                self.advance(n);
                assert(Seq::<u8>::empty() + buffer@ =~= buffer@);
                Ok(buffer)
            },
            None => Err(DecodeError::UnexpectedEnd),
        }
    }

    /// Reads an escaped, terminated byte sequence as a string; it must be UTF-8.
    pub fn read_string(&mut self) -> (r: Result<String, DecodeError>)
        ensures
            !final(self).expecting(),
            match unescape(old(self).rest()) {
                Some((v, n)) => final(self).rest() == old(self).rest().skip(n as int) && if valid_utf8(
                    v,
                ) {
                    r matches Ok(s) && encode_utf8(s@) == v
                } else {
                    r matches Err(DecodeError::Utf8)
                },
                None => r matches Err(DecodeError::UnexpectedEnd) && final(self).rest() == old(
                    self,
                ).rest(),
            },
    {
        match self.read_vec() {
            Ok(v) => match utf8_string(v.as_slice()) {
                Some(s) => Ok(s),
                None => Err(DecodeError::Utf8),
            },
            Err(e) => Err(e),
        }
    }

    /// Reads a `u8` written big-endian.
    pub fn read_u8(&mut self) -> (r: Result<u8, DecodeError>)
        ensures
            !final(self).expecting(),
            fixed_ok(old(self).rest(), old(self).expecting(), 1) ==> (r matches Ok(x)
                && x as nat == fixed_value(
                old(self).rest(),
                old(self).expecting(),
                1,
            )
                && final(self).rest() == old(self).rest().skip(
                fixed_end(old(self).rest(), old(self).expecting(), 1) as int,
            )),
            !fixed_ok(old(self).rest(), old(self).expecting(), 1) ==> (r matches Err(
                DecodeError::UnexpectedEnd,
            ) && final(self).rest() == old(self).rest()),
    {
        match self.read_array::<1>() {
            Ok(a) => {
                let v = be_value(a.as_slice());
                proof {
                    lemma_pow256_values();
                }
                Ok(v as u8)
            },
            Err(e) => Err(e),
        }
    }

    /// Reads an `i8` written big-endian with its sign bit flipped.
    pub fn read_i8(&mut self) -> (r: Result<i8, DecodeError>)
        ensures
            !final(self).expecting(),
            fixed_ok(old(self).rest(), old(self).expecting(), 1) ==> (r matches Ok(x)
                && x as int == fixed_signed(
                old(self).rest(),
                old(self).expecting(),
                1,
            )
                && final(self).rest() == old(self).rest().skip(
                fixed_end(old(self).rest(), old(self).expecting(), 1) as int,
            )),
            !fixed_ok(old(self).rest(), old(self).expecting(), 1) ==> (r matches Err(
                DecodeError::UnexpectedEnd,
            ) && final(self).rest() == old(self).rest()),
    {
        match self.read_array::<1>() {
            Ok(a) => {
                let v = be_value(a.as_slice());
                proof {
                    lemma_pow256_values();
                }
                Ok((v as i128 - 0x80) as i8)
            },
            Err(e) => Err(e),
        }
    }

    /// Reads a `u16` written big-endian.
    pub fn read_u16(&mut self) -> (r: Result<u16, DecodeError>)
        ensures
            !final(self).expecting(),
            fixed_ok(old(self).rest(), old(self).expecting(), 2) ==> (r matches Ok(x)
                && x as nat == fixed_value(
                old(self).rest(),
                old(self).expecting(),
                2,
            )
                && final(self).rest() == old(self).rest().skip(
                fixed_end(old(self).rest(), old(self).expecting(), 2) as int,
            )),
            !fixed_ok(old(self).rest(), old(self).expecting(), 2) ==> (r matches Err(
                DecodeError::UnexpectedEnd,
            ) && final(self).rest() == old(self).rest()),
    {
        match self.read_array::<2>() {
            Ok(a) => {
                let v = be_value(a.as_slice());
                proof {
                    lemma_pow256_values();
                }
                Ok(v as u16)
            },
            Err(e) => Err(e),
        }
    }

    /// Reads an `i16` written big-endian with its sign bit flipped.
    pub fn read_i16(&mut self) -> (r: Result<i16, DecodeError>)
        ensures
            !final(self).expecting(),
            fixed_ok(old(self).rest(), old(self).expecting(), 2) ==> (r matches Ok(x)
                && x as int == fixed_signed(
                old(self).rest(),
                old(self).expecting(),
                2,
            )
                && final(self).rest() == old(self).rest().skip(
                fixed_end(old(self).rest(), old(self).expecting(), 2) as int,
            )),
            !fixed_ok(old(self).rest(), old(self).expecting(), 2) ==> (r matches Err(
                DecodeError::UnexpectedEnd,
            ) && final(self).rest() == old(self).rest()),
    {
        match self.read_array::<2>() {
            Ok(a) => {
                let v = be_value(a.as_slice());
                proof {
                    lemma_pow256_values();
                }
                Ok((v as i128 - 0x8000) as i16)
            },
            Err(e) => Err(e),
        }
    }

    /// Reads a `u32` written big-endian.
    pub fn read_u32(&mut self) -> (r: Result<u32, DecodeError>)
        ensures
            !final(self).expecting(),
            fixed_ok(old(self).rest(), old(self).expecting(), 4) ==> (r matches Ok(x)
                && x as nat == fixed_value(
                old(self).rest(),
                old(self).expecting(),
                4,
            )
                && final(self).rest() == old(self).rest().skip(
                fixed_end(old(self).rest(), old(self).expecting(), 4) as int,
            )),
            !fixed_ok(old(self).rest(), old(self).expecting(), 4) ==> (r matches Err(
                DecodeError::UnexpectedEnd,
            ) && final(self).rest() == old(self).rest()),
    {
        match self.read_array::<4>() {
            Ok(a) => {
                let v = be_value(a.as_slice());
                proof {
                    lemma_pow256_values();
                }
                Ok(v as u32)
            },
            Err(e) => Err(e),
        }
    }

    /// Reads an `i32` written big-endian with its sign bit flipped.
    pub fn read_i32(&mut self) -> (r: Result<i32, DecodeError>)
        ensures
            !final(self).expecting(),
            fixed_ok(old(self).rest(), old(self).expecting(), 4) ==> (r matches Ok(x)
                && x as int == fixed_signed(
                old(self).rest(),
                old(self).expecting(),
                4,
            )
                && final(self).rest() == old(self).rest().skip(
                fixed_end(old(self).rest(), old(self).expecting(), 4) as int,
            )),
            !fixed_ok(old(self).rest(), old(self).expecting(), 4) ==> (r matches Err(
                DecodeError::UnexpectedEnd,
            ) && final(self).rest() == old(self).rest()),
    {
        match self.read_array::<4>() {
            Ok(a) => {
                let v = be_value(a.as_slice());
                proof {
                    lemma_pow256_values();
                }
                Ok((v as i128 - 0x8000_0000) as i32)
            },
            Err(e) => Err(e),
        }
    }

    /// Reads a `u64` written big-endian.
    pub fn read_u64(&mut self) -> (r: Result<u64, DecodeError>)
        ensures
            !final(self).expecting(),
            fixed_ok(old(self).rest(), old(self).expecting(), 8) ==> (r matches Ok(x)
                && x as nat == fixed_value(
                old(self).rest(),
                old(self).expecting(),
                8,
            )
                && final(self).rest() == old(self).rest().skip(
                fixed_end(old(self).rest(), old(self).expecting(), 8) as int,
            )),
            !fixed_ok(old(self).rest(), old(self).expecting(), 8) ==> (r matches Err(
                DecodeError::UnexpectedEnd,
            ) && final(self).rest() == old(self).rest()),
    {
        match self.read_array::<8>() {
            Ok(a) => {
                let v = be_value(a.as_slice());
                proof {
                    lemma_pow256_values();
                }
                Ok(v as u64)
            },
            Err(e) => Err(e),
        }
    }

    /// Reads an `i64` written big-endian with its sign bit flipped.
    pub fn read_i64(&mut self) -> (r: Result<i64, DecodeError>)
        ensures
            !final(self).expecting(),
            fixed_ok(old(self).rest(), old(self).expecting(), 8) ==> (r matches Ok(x)
                && x as int == fixed_signed(
                old(self).rest(),
                old(self).expecting(),
                8,
            )
                && final(self).rest() == old(self).rest().skip(
                fixed_end(old(self).rest(), old(self).expecting(), 8) as int,
            )),
            !fixed_ok(old(self).rest(), old(self).expecting(), 8) ==> (r matches Err(
                DecodeError::UnexpectedEnd,
            ) && final(self).rest() == old(self).rest()),
    {
        match self.read_array::<8>() {
            Ok(a) => {
                let v = be_value(a.as_slice());
                proof {
                    lemma_pow256_values();
                }
                Ok((v as i128 - 0x8000_0000_0000_0000) as i64)
            },
            Err(e) => Err(e),
        }
    }

    /// Reads a `u128` written big-endian.
    pub fn read_u128(&mut self) -> (r: Result<u128, DecodeError>)
        ensures
            !final(self).expecting(),
            fixed_ok(old(self).rest(), old(self).expecting(), 16) ==> (r matches Ok(x)
                && x as nat == fixed_value(
                old(self).rest(),
                old(self).expecting(),
                16,
            )
                && final(self).rest() == old(self).rest().skip(
                fixed_end(old(self).rest(), old(self).expecting(), 16) as int,
            )),
            !fixed_ok(old(self).rest(), old(self).expecting(), 16) ==> (r matches Err(
                DecodeError::UnexpectedEnd,
            ) && final(self).rest() == old(self).rest()),
    {
        match self.read_array::<16>() {
            Ok(a) => {
                let v = be_value(a.as_slice());
                proof {
                    lemma_pow256_values();
                }
                Ok(v as u128)
            },
            Err(e) => Err(e),
        }
    }

    /// Reads an `i128` written big-endian with its sign bit flipped.
    pub fn read_i128(&mut self) -> (r: Result<i128, DecodeError>)
        ensures
            !final(self).expecting(),
            fixed_ok(old(self).rest(), old(self).expecting(), 16) ==> (r matches Ok(x)
                && x as int == fixed_signed(
                old(self).rest(),
                old(self).expecting(),
                16,
            )
                && final(self).rest() == old(self).rest().skip(
                fixed_end(old(self).rest(), old(self).expecting(), 16) as int,
            )),
            !fixed_ok(old(self).rest(), old(self).expecting(), 16) ==> (r matches Err(
                DecodeError::UnexpectedEnd,
            ) && final(self).rest() == old(self).rest()),
    {
        match self.read_array::<16>() {
            Ok(a) => {
                let v = be_value(a.as_slice());
                proof {
                    lemma_pow256_values();
                }
                let x: i128 = if v >= 0x8000_0000_0000_0000_0000_0000_0000_0000 {
                    (v - 0x8000_0000_0000_0000_0000_0000_0000_0000) as i128
                } else {
                    v as i128 + i128::MIN
                };
                Ok(x)
            },
            Err(e) => Err(e),
        }
    }
}

/// Reads encoded values from a byte slice, unescaping as it goes; some reads
/// hand out parts of the slice itself.
pub struct BorrowReader<'de> {
    inner: &'de [u8],
    expect_escaped: bool,
}

impl<'de> BorrowReader<'de> {
    /// The input not read yet.
    pub closed spec fn rest(&self) -> Seq<u8> {
        self.inner@
    }

    /// Whether the next fixed-width read takes a leading escape prefix.
    pub closed spec fn expecting(&self) -> bool {
        self.expect_escaped
    }

    /// A reader over `slice`, with no escape expected.
    pub fn new(slice: &'de [u8]) -> (r: Self)
        ensures
            r.rest() == slice@,
            !r.expecting(),
    {
        BorrowReader { inner: slice, expect_escaped: false }
    }

    /// Whether all the input has been read.
    pub fn is_empty(&self) -> (r: bool)
        ensures
            r == (self.rest().len() == 0),
    {
        self.inner.len() == 0
    }

    pub(crate) fn remaining_len(&self) -> (r: usize)
        ensures
            r == self.rest().len(),
    {
        self.inner.len()
    }

    fn advance(&mut self, s: usize)
        requires
            s <= old(self).rest().len(),
        ensures
            final(self).rest() == old(self).rest().skip(s as int),
            final(self).expecting() == old(self).expecting(),
    {
        self.inner = vstd::slice::slice_subrange(self.inner, s, self.inner.len());
    }

    /// Marks the next byte as possibly escaped.
    pub fn expect_escaped(&mut self)
        ensures
            final(self).rest() == old(self).rest(),
            final(self).expecting(),
    {
        self.expect_escaped = true;
    }

    /// Reads a terminator if one comes next: `true` and the terminator taken, or
    /// `false` and nothing taken. Either way an escape is expected next.
    pub fn read_terminal(&mut self) -> (r: Result<bool, DecodeError>)
        ensures
            final(self).expecting(),
            old(self).rest().len() == 0 ==> (r matches Err(DecodeError::UnexpectedEnd)
                && final(self).rest() == old(self).rest()),
            old(self).rest().len() > 0 && old(self).rest()[0] == 0 ==> (r matches Ok(true)
                && final(self).rest() == old(self).rest().drop_first()),
            old(self).rest().len() > 0 && old(self).rest()[0] != 0 ==> (r matches Ok(false)
                && final(self).rest() == old(self).rest()),
    {
        self.expect_escaped = true;
        if self.inner.len() == 0 {
            return Err(DecodeError::UnexpectedEnd);
        }
        if self.inner[0] == 0 {
            self.advance(1);
            assert(old(self).rest().skip(1) =~= old(self).rest().drop_first());
            Ok(true)
        } else {
            Ok(false)
        }
    }

    /// Reads `SIZE` bytes, first taking an escape prefix if an escape is expected;
    /// no escape is expected afterwards.
    pub fn read_array<const SIZE: usize>(&mut self) -> (r: Result<[u8; SIZE], DecodeError>)
        ensures
            !final(self).expecting(),
            fixed_ok(old(self).rest(), old(self).expecting(), SIZE as nat) ==> (r matches Ok(a)
                && a@ == fixed_data(old(self).rest(), old(self).expecting(), SIZE as nat)
                && final(self).rest() == old(self).rest().skip(
                fixed_end(old(self).rest(), old(self).expecting(), SIZE as nat) as int,
            )),
            !fixed_ok(old(self).rest(), old(self).expecting(), SIZE as nat) ==> (r matches Err(
                DecodeError::UnexpectedEnd,
            ) && final(self).rest() == old(self).rest()),
    {
        let e = self.expect_escaped;
        self.expect_escaped = false;
        match fixed_read::<SIZE>(self.inner, e) {
            Some((a, k)) => {
                self.advance(k);
                Ok(a)
            },
            None => Err(DecodeError::UnexpectedEnd),
        }
    }

    fn read_into_vec(&mut self, buffer: &mut Vec<u8>) -> (r: Result<(), DecodeError>)
        ensures
            !final(self).expecting(),
            match unescape(old(self).rest()) {
                Some((v, n)) => r is Ok && final(buffer)@ == old(buffer)@ + v && final(self).rest()
                    == old(self).rest().skip(n as int),
                None => r matches Err(DecodeError::UnexpectedEnd) && final(self).rest() == old(
                    self,
                ).rest(),
            },
    {
        self.expect_escaped = false;
        match unescape_into(self.inner, buffer) {
            Some(n) => {
                self.advance(n);
                Ok(())
            },
            None => Err(DecodeError::UnexpectedEnd),
        }
    }

    /// Reads an escaped, terminated byte sequence: in place when it holds no
    /// escape before its terminator, copied out otherwise.
    pub fn read_cow(&mut self) -> (r: Result<Reference<'de>, DecodeError>)
        ensures
            !final(self).expecting(),
            match unescape(old(self).rest()) {
                Some((v, n)) => r matches Ok(c) && c.bytes() == v && (c is Borrowed <==> borrowable(
                    old(self).rest(),
                )) && final(self).rest() == old(self).rest().skip(n as int),
                None => r matches Err(DecodeError::UnexpectedEnd) && final(self).rest() == old(
                    self,
                ).rest(),
            },
    {
        self.expect_escaped = false;
        let s = self.inner;
        let mut i: usize = 0;
        loop
            invariant
                i <= s@.len(),
                s@ == old(self).rest(),
                self.inner@ == s@,
                !self.expect_escaped,
                forall|j: int| 0 <= j < i ==> s@[j] > 1,
            decreases s@.len() - i,
        {
            proof {
                lemma_unescape_plain(s@, i as int);
            }
            if i >= s.len() {
                assert(s@.skip(i as int).len() == 0);
                return Err(DecodeError::UnexpectedEnd);
            }
            let b = s[i];
            proof {
                lemma_unescape_at(s@, i as int);
                assert(s@.skip(i as int)[0] == b);
            }
            if b == 0 {
                assert(s@.take(i as int) + Seq::<u8>::empty() =~= s@.take(i as int));
                let slice = vstd::slice::slice_subrange(s, 0, i);
                self.advance(i + 1);
                return Ok(Reference::Borrowed(slice));
            }
            if b == 1 {
                let mut buffer = vstd::slice::slice_to_vec(vstd::slice::slice_subrange(s, 0, i));
                let t = vstd::slice::slice_subrange(s, i, s.len());
                assert(t@ =~= s@.skip(i as int));
                match unescape_into(t, &mut buffer) {
                    Some(k) => {
                        self.advance(i + k);
                        return Ok(Reference::Copied(buffer));
                    },
                    None => {
                        return Err(DecodeError::UnexpectedEnd);
                    },
                }
            }
            i = i + 1;
        }
    }

    /// Reads an escaped, terminated byte sequence into a new buffer.
    pub fn read_vec(&mut self) -> (r: Result<Vec<u8>, DecodeError>)
        ensures
            !final(self).expecting(),
            match unescape(old(self).rest()) {
                Some((v, n)) => r matches Ok(b) && b@ == v && final(self).rest() == old(
                    self,
                ).rest().skip(n as int),
                None => r matches Err(DecodeError::UnexpectedEnd) && final(self).rest() == old(
                    self,
                ).rest(),
            },
    {
        self.expect_escaped = false;
        let mut buffer = Vec::new();
        match self.read_into_vec(&mut buffer) {
            Ok(()) => {
                assert(Seq::<u8>::empty() + buffer@ =~= buffer@);
                Ok(buffer)
            },
            Err(e) => Err(e),
        }
    }

    /// Reads an escaped, terminated string: in place when it holds no escape
    /// before its terminator, copied out otherwise; it must be UTF-8.
    pub fn read_str_cow(&mut self) -> (r: Result<StrReference<'de>, DecodeError>)
        ensures
            !final(self).expecting(),
            match unescape(old(self).rest()) {
                Some((v, n)) => final(self).rest() == old(self).rest().skip(n as int) && if valid_utf8(
                    v,
                ) {
                    r matches Ok(c) && encode_utf8(c.chars()) == v && (c is Borrowed <==> borrowable(
                        old(self).rest(),
                    ))
                } else {
                    r matches Err(DecodeError::Utf8)
                },
                None => r matches Err(DecodeError::UnexpectedEnd) && final(self).rest() == old(
                    self,
                ).rest(),
            },
    {
        match self.read_cow() {
            Ok(Reference::Borrowed(x)) => match utf8_str(x) {
                Some(s) => Ok(StrReference::Borrowed(s)),
                None => Err(DecodeError::Utf8),
            },
            Ok(Reference::Copied(x)) => match utf8_string(x.as_slice()) {
                Some(s) => Ok(StrReference::Copied(s)),
                None => Err(DecodeError::Utf8),
            },
            Err(e) => Err(e),
        }
    }

    /// Reads an escaped, terminated byte sequence as a string; it must be UTF-8.
    pub fn read_string(&mut self) -> (r: Result<String, DecodeError>)
        ensures
            !final(self).expecting(),
            match unescape(old(self).rest()) {
                Some((v, n)) => final(self).rest() == old(self).rest().skip(n as int) && if valid_utf8(
                    v,
                ) {
                    r matches Ok(s) && encode_utf8(s@) == v
                } else {
                    r matches Err(DecodeError::Utf8)
                },
                None => r matches Err(DecodeError::UnexpectedEnd) && final(self).rest() == old(
                    self,
                ).rest(),
            },
    {
        match self.read_vec() {
            Ok(v) => match utf8_string(v.as_slice()) {
                Some(s) => Ok(s),
                None => Err(DecodeError::Utf8),
            },
            Err(e) => Err(e),
        }
    }

    /// Reads an escaped, terminated sequence without unescaping it: a view of
    /// its raw bytes in place, terminator included.
    pub fn read_escaped_slice(&mut self) -> (r: Result<EscapedSlice<'de>, DecodeError>)
        ensures
            !final(self).expecting(),
            match unescape(old(self).rest()) {
                Some((v, n)) => r matches Ok(e) && e.raw() == old(self).rest().take(n as int)
                    && final(self).rest() == old(self).rest().skip(n as int),
                None => r matches Err(DecodeError::UnexpectedEnd) && final(self).rest() == old(
                    self,
                ).rest(),
            },
    {
        self.expect_escaped = false;
        let s = self.inner;
        match escaped_len(s) {
            Some(n) => {
                proof {
                    lemma_unescape_prefix(s@, n as int);
                }
                let e = EscapedSlice::from_slice(vstd::slice::slice_subrange(s, 0, n));
                self.advance(n);
                Ok(e)
            },
            None => Err(DecodeError::UnexpectedEnd),
        }
    }

    /// Reads an escaped, terminated string without unescaping it: a view of its
    /// raw text in place, terminator included; it must be UTF-8.
    pub fn read_escaped_str(&mut self) -> (r: Result<EscapedStr<'de>, DecodeError>)
        ensures
            !final(self).expecting(),
            match unescape(old(self).rest()) {
                Some((v, n)) => final(self).rest() == old(self).rest().skip(n as int) && if valid_utf8(
                    old(self).rest().take(n as int),
                ) {
                    r matches Ok(e) && e.raw() == old(self).rest().take(n as int)
                } else {
                    r matches Err(DecodeError::Utf8)
                },
                None => r matches Err(DecodeError::UnexpectedEnd) && final(self).rest() == old(
                    self,
                ).rest(),
            },
    {
        match self.read_escaped_slice() {
            Ok(e) => {
                let raw = e.as_bytes();
                match utf8_str(raw) {
                    Some(s) => {
                        proof {
                            if s@.len() == 0 {
                                assert(encode_utf8(s@) =~= Seq::<u8>::empty());
                            }
                        }
                        Ok(EscapedStr::from_str(s))
                    },
                    None => Err(DecodeError::Utf8),
                }
            },
            Err(e) => Err(e),
        }
    }

    /// Reads a `u8` written big-endian.
    pub fn read_u8(&mut self) -> (r: Result<u8, DecodeError>)
        ensures
            !final(self).expecting(),
            fixed_ok(old(self).rest(), old(self).expecting(), 1) ==> (r matches Ok(x)
                && x as nat == fixed_value(
                old(self).rest(),
                old(self).expecting(),
                1,
            )
                && final(self).rest() == old(self).rest().skip(
                fixed_end(old(self).rest(), old(self).expecting(), 1) as int,
            )),
            !fixed_ok(old(self).rest(), old(self).expecting(), 1) ==> (r matches Err(
                DecodeError::UnexpectedEnd,
            ) && final(self).rest() == old(self).rest()),
    {
        match self.read_array::<1>() {
            Ok(a) => {
                let v = be_value(a.as_slice());
                proof {
                    lemma_pow256_values();
                }
                Ok(v as u8)
            },
            Err(e) => Err(e),
        }
    }

    /// Reads an `i8` written big-endian with its sign bit flipped.
    pub fn read_i8(&mut self) -> (r: Result<i8, DecodeError>)
        ensures
            !final(self).expecting(),
            fixed_ok(old(self).rest(), old(self).expecting(), 1) ==> (r matches Ok(x)
                && x as int == fixed_signed(
                old(self).rest(),
                old(self).expecting(),
                1,
            )
                && final(self).rest() == old(self).rest().skip(
                fixed_end(old(self).rest(), old(self).expecting(), 1) as int,
            )),
            !fixed_ok(old(self).rest(), old(self).expecting(), 1) ==> (r matches Err(
                DecodeError::UnexpectedEnd,
            ) && final(self).rest() == old(self).rest()),
    {
        match self.read_array::<1>() {
            Ok(a) => {
                let v = be_value(a.as_slice());
                proof {
                    lemma_pow256_values();
                }
                Ok((v as i128 - 0x80) as i8)
            },
            Err(e) => Err(e),
        }
    }

    /// Reads a `u16` written big-endian.
    pub fn read_u16(&mut self) -> (r: Result<u16, DecodeError>)
        ensures
            !final(self).expecting(),
            fixed_ok(old(self).rest(), old(self).expecting(), 2) ==> (r matches Ok(x)
                && x as nat == fixed_value(
                old(self).rest(),
                old(self).expecting(),
                2,
            )
                && final(self).rest() == old(self).rest().skip(
                fixed_end(old(self).rest(), old(self).expecting(), 2) as int,
            )),
            !fixed_ok(old(self).rest(), old(self).expecting(), 2) ==> (r matches Err(
                DecodeError::UnexpectedEnd,
            ) && final(self).rest() == old(self).rest()),
    {
        match self.read_array::<2>() {
            Ok(a) => {
                let v = be_value(a.as_slice());
                proof {
                    lemma_pow256_values();
                }
                Ok(v as u16)
            },
            Err(e) => Err(e),
        }
    }

    /// Reads an `i16` written big-endian with its sign bit flipped.
    pub fn read_i16(&mut self) -> (r: Result<i16, DecodeError>)
        ensures
            !final(self).expecting(),
            fixed_ok(old(self).rest(), old(self).expecting(), 2) ==> (r matches Ok(x)
                && x as int == fixed_signed(
                old(self).rest(),
                old(self).expecting(),
                2,
            )
                && final(self).rest() == old(self).rest().skip(
                fixed_end(old(self).rest(), old(self).expecting(), 2) as int,
            )),
            !fixed_ok(old(self).rest(), old(self).expecting(), 2) ==> (r matches Err(
                DecodeError::UnexpectedEnd,
            ) && final(self).rest() == old(self).rest()),
    {
        match self.read_array::<2>() {
            Ok(a) => {
                let v = be_value(a.as_slice());
                proof {
                    lemma_pow256_values();
                }
                Ok((v as i128 - 0x8000) as i16)
            },
            Err(e) => Err(e),
        }
    }

    /// Reads a `u32` written big-endian.
    pub fn read_u32(&mut self) -> (r: Result<u32, DecodeError>)
        ensures
            !final(self).expecting(),
            fixed_ok(old(self).rest(), old(self).expecting(), 4) ==> (r matches Ok(x)
                && x as nat == fixed_value(
                old(self).rest(),
                old(self).expecting(),
                4,
            )
                && final(self).rest() == old(self).rest().skip(
                fixed_end(old(self).rest(), old(self).expecting(), 4) as int,
            )),
            !fixed_ok(old(self).rest(), old(self).expecting(), 4) ==> (r matches Err(
                DecodeError::UnexpectedEnd,
            ) && final(self).rest() == old(self).rest()),
    {
        match self.read_array::<4>() {
            Ok(a) => {
                let v = be_value(a.as_slice());
                proof {
                    lemma_pow256_values();
                }
                Ok(v as u32)
            },
            Err(e) => Err(e),
        }
    }

    /// Reads an `i32` written big-endian with its sign bit flipped.
    pub fn read_i32(&mut self) -> (r: Result<i32, DecodeError>)
        ensures
            !final(self).expecting(),
            fixed_ok(old(self).rest(), old(self).expecting(), 4) ==> (r matches Ok(x)
                && x as int == fixed_signed(
                old(self).rest(),
                old(self).expecting(),
                4,
            )
                && final(self).rest() == old(self).rest().skip(
                fixed_end(old(self).rest(), old(self).expecting(), 4) as int,
            )),
            !fixed_ok(old(self).rest(), old(self).expecting(), 4) ==> (r matches Err(
                DecodeError::UnexpectedEnd,
            ) && final(self).rest() == old(self).rest()),
    {
        match self.read_array::<4>() {
            Ok(a) => {
                let v = be_value(a.as_slice());
                proof {
                    lemma_pow256_values();
                }
                Ok((v as i128 - 0x8000_0000) as i32)
            },
            Err(e) => Err(e),
        }
    }

    /// Reads a `u64` written big-endian.
    pub fn read_u64(&mut self) -> (r: Result<u64, DecodeError>)
        ensures
            !final(self).expecting(),
            fixed_ok(old(self).rest(), old(self).expecting(), 8) ==> (r matches Ok(x)
                && x as nat == fixed_value(
                old(self).rest(),
                old(self).expecting(),
                8,
            )
                && final(self).rest() == old(self).rest().skip(
                fixed_end(old(self).rest(), old(self).expecting(), 8) as int,
            )),
            !fixed_ok(old(self).rest(), old(self).expecting(), 8) ==> (r matches Err(
                DecodeError::UnexpectedEnd,
            ) && final(self).rest() == old(self).rest()),
    {
        match self.read_array::<8>() {
            Ok(a) => {
                let v = be_value(a.as_slice());
                proof {
                    lemma_pow256_values();
                }
                Ok(v as u64)
            },
            Err(e) => Err(e),
        }
    }

    /// Reads an `i64` written big-endian with its sign bit flipped.
    pub fn read_i64(&mut self) -> (r: Result<i64, DecodeError>)
        ensures
            !final(self).expecting(),
            fixed_ok(old(self).rest(), old(self).expecting(), 8) ==> (r matches Ok(x)
                && x as int == fixed_signed(
                old(self).rest(),
                old(self).expecting(),
                8,
            )
                && final(self).rest() == old(self).rest().skip(
                fixed_end(old(self).rest(), old(self).expecting(), 8) as int,
            )),
            !fixed_ok(old(self).rest(), old(self).expecting(), 8) ==> (r matches Err(
                DecodeError::UnexpectedEnd,
            ) && final(self).rest() == old(self).rest()),
    {
        match self.read_array::<8>() {
            Ok(a) => {
                let v = be_value(a.as_slice());
                proof {
                    lemma_pow256_values();
                }
                Ok((v as i128 - 0x8000_0000_0000_0000) as i64)
            },
            Err(e) => Err(e),
        }
    }

    /// Reads a `u128` written big-endian.
    pub fn read_u128(&mut self) -> (r: Result<u128, DecodeError>)
        ensures
            !final(self).expecting(),
            fixed_ok(old(self).rest(), old(self).expecting(), 16) ==> (r matches Ok(x)
                && x as nat == fixed_value(
                old(self).rest(),
                old(self).expecting(),
                16,
            )
                && final(self).rest() == old(self).rest().skip(
                fixed_end(old(self).rest(), old(self).expecting(), 16) as int,
            )),
            !fixed_ok(old(self).rest(), old(self).expecting(), 16) ==> (r matches Err(
                DecodeError::UnexpectedEnd,
            ) && final(self).rest() == old(self).rest()),
    {
        match self.read_array::<16>() {
            Ok(a) => {
                let v = be_value(a.as_slice());
                proof {
                    lemma_pow256_values();
                }
                Ok(v as u128)
            },
            Err(e) => Err(e),
        }
    }

    /// Reads an `i128` written big-endian with its sign bit flipped.
    pub fn read_i128(&mut self) -> (r: Result<i128, DecodeError>)
        ensures
            !final(self).expecting(),
            fixed_ok(old(self).rest(), old(self).expecting(), 16) ==> (r matches Ok(x)
                && x as int == fixed_signed(
                old(self).rest(),
                old(self).expecting(),
                16,
            )
                && final(self).rest() == old(self).rest().skip(
                fixed_end(old(self).rest(), old(self).expecting(), 16) as int,
            )),
            !fixed_ok(old(self).rest(), old(self).expecting(), 16) ==> (r matches Err(
                DecodeError::UnexpectedEnd,
            ) && final(self).rest() == old(self).rest()),
    {
        match self.read_array::<16>() {
            Ok(a) => {
                let v = be_value(a.as_slice());
                proof {
                    lemma_pow256_values();
                }
                let x: i128 = if v >= 0x8000_0000_0000_0000_0000_0000_0000_0000 {
                    (v - 0x8000_0000_0000_0000_0000_0000_0000_0000) as i128
                } else {
                    v as i128 + i128::MIN
                };
                Ok(x)
            },
            Err(e) => Err(e),
        }
    }
}

} // verus!
