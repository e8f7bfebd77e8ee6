//! The writer: an in-memory byte sink and the pending-escape flag.
use vstd::prelude::*;

use crate::error::EncodeError;
use crate::format::{be, escape, escape_byte, fixed_out, fixed_pending_after, signed_be};
use crate::prim::{be_bytes, lemma_pow256_values};
use crate::types::EscapedSlice;

verus! {

/// Writes encoded values into a byte buffer, escaping a byte only where it
/// could be read as a terminator: at positions marked by `mark_terminator`.
pub struct Writer {
    inner: Vec<u8>,
    escape_zero: bool,
}

impl Writer {
    /// The bytes written so far.
    pub closed spec fn bytes(&self) -> Seq<u8> {
        self.inner@
    }

    /// Whether the next fixed-width write must escape a leading byte `<= 1`.
    pub closed spec fn pending(&self) -> bool {
        self.escape_zero
    }

    /// A writer that appends to `w`, with no escape pending.
    pub fn new(w: Vec<u8>) -> (r: Self)
        ensures
            r.bytes() == w@,
            !r.pending(),
    {
        Writer { inner: w, escape_zero: false }
    }

    /// The buffer with everything written.
    pub fn into_inner(self) -> (r: Vec<u8>)
        ensures
            r@ == self.bytes(),
    {
        self.inner
    }

    /// Marks the next position as one where a zero byte would read as a terminator.
    pub fn mark_terminator(&mut self)
        ensures
            final(self).bytes() == old(self).bytes(),
            final(self).pending(),
    {
        self.escape_zero = true;
    }

    /// Writes a sequence that is already escaped and terminated, as it stands.
    pub fn write_escaped_slice(&mut self, slice: &EscapedSlice) -> (r: Result<(), EncodeError>)
        ensures
            r is Ok,
            final(self).bytes() == old(self).bytes() + slice.raw(),
            !final(self).pending(),
    {
        self.escape_zero = false;
        self.inner.extend_from_slice(slice.as_bytes());
        Ok(())
    }

    /// Writes a variable-length byte sequence: each byte `<= 1` behind the escape
    /// prefix, then the terminator.
    pub fn write_slice(&mut self, slice: &[u8]) -> (r: Result<(), EncodeError>)
        ensures
            r is Ok,
            final(self).bytes() == old(self).bytes() + escape(slice@).push(0u8),
            !final(self).pending(),
    {
        self.escape_zero = false;
        let mut i: usize = 0;
        proof {
            assert(slice@.take(0) =~= Seq::<u8>::empty());
            assert(old(self).bytes() + escape(Seq::<u8>::empty()) =~= old(self).bytes());
        }
        while i < slice.len()
            invariant
                i <= slice@.len(),
                !self.escape_zero,
                self.inner@ == old(self).bytes() + escape(slice@.take(i as int)),
            decreases slice@.len() - i,
        {
            let b = slice[i];
            if b <= 1 {
                self.inner.push(1);
            }
            self.inner.push(b);
            proof {
                let t = slice@.take(i + 1);
                assert(t.drop_last() =~= slice@.take(i as int));
                assert(t.last() == b);
                assert(escape(t) == escape(slice@.take(i as int)) + escape_byte(b));
            }
            i = i + 1;
        }
        self.inner.push(0);
        proof {
            assert(slice@.take(i as int) =~= slice@);
        }
        Ok(())
    }

    fn write_fixed(&mut self, b: &[u8])
        ensures
            final(self).bytes() == old(self).bytes() + fixed_out(old(self).pending(), b@),
            final(self).pending() == fixed_pending_after(old(self).pending(), b@.len()),
    {
        if b.len() == 0 {
            assert(old(self).bytes() + b@ =~= old(self).bytes());
            return ;
        }
        if self.escape_zero {
            self.escape_zero = false;
            if b[0] <= 1 {
                self.inner.push(1);
            }
        }
        self.inner.extend_from_slice(b);
    }

    /// Writes a fixed-size array, with no terminator; its first byte is escaped
    /// if an escape is pending and it is `<= 1`.
    pub fn write_array<const LEN: usize>(&mut self, array: [u8; LEN]) -> (r: Result<
        (),
        EncodeError,
    >)
        ensures
            r is Ok,
            final(self).bytes() == old(self).bytes() + fixed_out(old(self).pending(), array@),
            final(self).pending() == fixed_pending_after(old(self).pending(), LEN as nat),
    {
        self.write_fixed(array.as_slice());
        Ok(())
    }

    /// Writes a lone terminator; the pending flag is left as it is.
    pub fn write_terminator(&mut self) -> (r: Result<(), EncodeError>)
        ensures
            r is Ok,
            final(self).bytes() == old(self).bytes().push(0u8),
            final(self).pending() == old(self).pending(),
    {
        self.inner.push(0);
        Ok(())
    }

    /// Writes a `u8` big-endian, escaping its first byte if an escape is pending.
    pub fn write_u8(&mut self, v: u8) -> (r: Result<(), EncodeError>)
        ensures
            r is Ok,
            final(self).bytes() == old(self).bytes() + fixed_out(old(self).pending(), be(v as nat, 1)),
            !final(self).pending(),
    {
        self.write_fixed(be_bytes(v as u128, 1).as_slice());
        Ok(())
    }

    /// Writes a `u16` big-endian, escaping its first byte if an escape is pending.
    pub fn write_u16(&mut self, v: u16) -> (r: Result<(), EncodeError>)
        ensures
            r is Ok,
            final(self).bytes() == old(self).bytes() + fixed_out(old(self).pending(), be(v as nat, 2)),
            !final(self).pending(),
    {
        self.write_fixed(be_bytes(v as u128, 2).as_slice());
        Ok(())
    }

    /// Writes a `u32` big-endian, escaping its first byte if an escape is pending.
    pub fn write_u32(&mut self, v: u32) -> (r: Result<(), EncodeError>)
        ensures
            r is Ok,
            final(self).bytes() == old(self).bytes() + fixed_out(old(self).pending(), be(v as nat, 4)),
            !final(self).pending(),
    {
        self.write_fixed(be_bytes(v as u128, 4).as_slice());
        Ok(())
    }

    /// Writes a `u64` big-endian, escaping its first byte if an escape is pending.
    pub fn write_u64(&mut self, v: u64) -> (r: Result<(), EncodeError>)
        ensures
            r is Ok,
            final(self).bytes() == old(self).bytes() + fixed_out(old(self).pending(), be(v as nat, 8)),
            !final(self).pending(),
    {
        self.write_fixed(be_bytes(v as u128, 8).as_slice());
        Ok(())
    }

    /// Writes a `u128` big-endian, escaping its first byte if an escape is pending.
    pub fn write_u128(&mut self, v: u128) -> (r: Result<(), EncodeError>)
        ensures
            r is Ok,
            final(self).bytes() == old(self).bytes() + fixed_out(old(self).pending(), be(v as nat, 16)),
            !final(self).pending(),
    {
        self.write_fixed(be_bytes(v, 16).as_slice());
        Ok(())
    }

    /// Writes an `i8` big-endian with its sign bit flipped, escaping its first
    /// byte if an escape is pending.
    pub fn write_i8(&mut self, v: i8) -> (r: Result<(), EncodeError>)
        ensures
            r is Ok,
            final(self).bytes() == old(self).bytes() + fixed_out(
                old(self).pending(),
                signed_be(v as int, 1),
            ),
            !final(self).pending(),
    {
        proof {
            lemma_pow256_values();
        }
        let u = (v as i128 + 0x80) as u128;
        self.write_fixed(be_bytes(u, 1).as_slice());
        Ok(())
    }

    /// Writes an `i16` big-endian with its sign bit flipped, escaping its first
    /// byte if an escape is pending.
    pub fn write_i16(&mut self, v: i16) -> (r: Result<(), EncodeError>)
        ensures
            r is Ok,
            final(self).bytes() == old(self).bytes() + fixed_out(
                old(self).pending(),
                signed_be(v as int, 2),
            ),
            !final(self).pending(),
    {
        proof {
            lemma_pow256_values();
        }
        let u = (v as i128 + 0x8000) as u128;
        self.write_fixed(be_bytes(u, 2).as_slice());
        Ok(())
    }

    /// Writes an `i32` big-endian with its sign bit flipped, escaping its first
    /// byte if an escape is pending.
    pub fn write_i32(&mut self, v: i32) -> (r: Result<(), EncodeError>)
        ensures
            r is Ok,
            final(self).bytes() == old(self).bytes() + fixed_out(
                old(self).pending(),
                signed_be(v as int, 4),
            ),
            !final(self).pending(),
    {
        proof {
            lemma_pow256_values();
        }
        let u = (v as i128 + 0x8000_0000) as u128;
        self.write_fixed(be_bytes(u, 4).as_slice());
        Ok(())
    }

    /// Writes an `i64` big-endian with its sign bit flipped, escaping its first
    /// byte if an escape is pending.
    pub fn write_i64(&mut self, v: i64) -> (r: Result<(), EncodeError>)
        ensures
            r is Ok,
            final(self).bytes() == old(self).bytes() + fixed_out(
                old(self).pending(),
                signed_be(v as int, 8),
            ),
            !final(self).pending(),
    {
        proof {
            lemma_pow256_values();
        }
        let u = (v as i128 + 0x8000_0000_0000_0000) as u128;
        self.write_fixed(be_bytes(u, 8).as_slice());
        Ok(())
    }

    /// Writes an `i128` big-endian with its sign bit flipped, escaping its first
    /// byte if an escape is pending.
    pub fn write_i128(&mut self, v: i128) -> (r: Result<(), EncodeError>)
        ensures
            r is Ok,
            final(self).bytes() == old(self).bytes() + fixed_out(
                old(self).pending(),
                signed_be(v as int, 16),
            ),
            !final(self).pending(),
    {
        proof {
            lemma_pow256_values();
        }
        let u: u128 = if v >= 0 {
            v as u128 + 0x8000_0000_0000_0000_0000_0000_0000_0000
        } else {
            (v - i128::MIN) as u128
        };
        self.write_fixed(be_bytes(u, 16).as_slice());
        Ok(())
    }
}

} // verus!
