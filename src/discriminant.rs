//! The discriminant of a tagged union: its width chosen by the number of
//! variants, small unions keeping clear of the terminator and escape bytes.
use vstd::prelude::*;

use crate::error::{DecodeError, EncodeError};
use crate::format::{be, fixed_end, fixed_ok, fixed_out, fixed_value, lemma_be_order};
use crate::prim::lemma_pow256_values;
use crate::reader::{BorrowReader, Reader};
use crate::writer::Writer;

verus! {

/// The width in bytes of the discriminant of a union of `count` variants.
pub open spec fn tag_width(count: nat) -> nat {
    if count <= 253 {
        1
    } else if count <= 0xFFFF {
        2
    } else {
        4
    }
}

/// The discriminant of variant `index` of `count`: shifted by two in one byte,
/// or big-endian as it stands in two or four bytes.
pub open spec fn tag_bytes(index: nat, count: nat) -> Seq<u8> {
    if count <= 253 {
        be(index + 2, 1)
    } else {
        be(index, tag_width(count))
    }
}

/// The variant a discriminant read as `value` names, if it names one of `count`.
pub open spec fn tag_index(value: nat, count: nat) -> Option<nat> {
    if count <= 253 {
        if 2 <= value && value - 2 < count {
            Some((value - 2) as nat)
        } else {
            None
        }
    } else if value < count {
        Some(value)
    } else {
        None
    }
}

/// What reading a discriminant of a union of `count` variants from `s` gives:
/// the variant, or the error.
pub open spec fn tag_read(s: Seq<u8>, expect: bool, count: nat) -> Result<nat, DecodeError> {
    if fixed_ok(s, expect, tag_width(count)) {
        match tag_index(fixed_value(s, expect, tag_width(count)), count) {
            Some(i) => Ok(i),
            None => Err(DecodeError::InvalidFormat),
        }
    } else {
        Err(DecodeError::UnexpectedEnd)
    }
}

/// The width in bytes of the discriminant of a union of `count` variants;
/// `None` for a union without variants, which cannot be encoded.
pub fn discriminant_width(count: u32) -> (r: Option<u32>)
    ensures
        count == 0 ==> r is None,
        count > 0 ==> r == Some(tag_width(count as nat) as u32),
{
    if count == 0 {
        None
    } else if count <= 253 {
        Some(1)
    } else if count <= 0xFFFF {
        Some(2)
    } else {
        Some(4)
    }
}

/// The number written, in the width above, as the discriminant of variant
/// `index` of `count`: shifted by two in a one-byte discriminant.
pub fn discriminant_value(index: u32, count: u32) -> (r: u32)
    requires
        index < count,
    ensures
        r == (if count <= 253 {
            index + 2
        } else {
            index as int
        }),
        be(r as nat, tag_width(count as nat)) == tag_bytes(index as nat, count as nat),
{
    if count <= 253 {
        index + 2
    } else {
        index
    }
}

/// Writes the discriminant of variant `index` of a union of `count` variants.
pub fn write_discriminant(w: &mut Writer, index: u32, count: u32) -> (r: Result<(), EncodeError>)
    requires
        index < count,
    ensures
        r is Ok,
        final(w).bytes() == old(w).bytes() + fixed_out(
            old(w).pending(),
            tag_bytes(index as nat, count as nat),
        ),
        !final(w).pending(),
{
    if count <= 253 {
        w.write_u8((index + 2) as u8)
    } else if count <= 0xFFFF {
        w.write_u16(index as u16)
    } else {
        w.write_u32(index)
    }
}

/// Reads the discriminant of a union of `count` variants from an owned reader.
pub fn read_discriminant(r: &mut Reader, count: u32) -> (res: Result<u32, DecodeError>)
    ensures
        !final(r).expecting(),
        match tag_read(old(r).rest(), old(r).expecting(), count as nat) {
            Ok(i) => res matches Ok(x) && x as nat == i && final(r).rest() == old(r).rest().skip(
                fixed_end(old(r).rest(), old(r).expecting(), tag_width(count as nat)) as int,
            ),
            Err(DecodeError::InvalidFormat) => res matches Err(DecodeError::InvalidFormat),
            Err(_) => res matches Err(DecodeError::UnexpectedEnd) && final(r).rest() == old(
                r,
            ).rest(),
        },
{
    proof {
        lemma_pow256_values();
    }
    if count <= 253 {
        match r.read_u8() {
            Ok(v) => if 2 <= v && ((v - 2) as u32) < count {
                Ok((v - 2) as u32)
            } else {
                Err(DecodeError::InvalidFormat)
            },
            Err(e) => Err(e),
        }
    } else if count <= 0xFFFF {
        match r.read_u16() {
            Ok(v) => if (v as u32) < count {
                Ok(v as u32)
            } else {
                Err(DecodeError::InvalidFormat)
            },
            Err(e) => Err(e),
        }
    } else {
        match r.read_u32() {
            Ok(v) => if v < count {
                Ok(v)
            } else {
                Err(DecodeError::InvalidFormat)
            },
            Err(e) => Err(e),
        }
    }
}

/// Reads the discriminant of a union of `count` variants from a borrowing reader.
pub fn borrow_read_discriminant(r: &mut BorrowReader, count: u32) -> (res: Result<
    u32,
    DecodeError,
>)
    ensures
        !final(r).expecting(),
        match tag_read(old(r).rest(), old(r).expecting(), count as nat) {
            Ok(i) => res matches Ok(x) && x as nat == i && final(r).rest() == old(r).rest().skip(
                fixed_end(old(r).rest(), old(r).expecting(), tag_width(count as nat)) as int,
            ),
            Err(DecodeError::InvalidFormat) => res matches Err(DecodeError::InvalidFormat),
            Err(_) => res matches Err(DecodeError::UnexpectedEnd) && final(r).rest() == old(
                r,
            ).rest(),
        },
{
    proof {
        lemma_pow256_values();
    }
    if count <= 253 {
        match r.read_u8() {
            Ok(v) => if 2 <= v && ((v - 2) as u32) < count {
                Ok((v - 2) as u32)
            } else {
                Err(DecodeError::InvalidFormat)
            },
            Err(e) => Err(e),
        }
    } else if count <= 0xFFFF {
        match r.read_u16() {
            Ok(v) => if (v as u32) < count {
                Ok(v as u32)
            } else {
                Err(DecodeError::InvalidFormat)
            },
            Err(e) => Err(e),
        }
    } else {
        match r.read_u32() {
            Ok(v) => if v < count {
                Ok(v)
            } else {
                Err(DecodeError::InvalidFormat)
            },
            Err(e) => Err(e),
        }
    }
}

/// Discriminants order variants by their index, so a variant appended at the
/// end sorts after every earlier one.
pub proof fn lemma_tag_order(i: nat, j: nat, count: nat)
    requires
        i < count,
        j < count,
        count <= 0xFFFF_FFFF,
    ensures
        crate::format::lex_lt(tag_bytes(i, count), tag_bytes(j, count)) == (i < j),
{
    lemma_pow256_values();
    if count <= 253 {
        lemma_be_order(i + 2, j + 2, 1);
    } else if count <= 0xFFFF {
        lemma_be_order(i, j, 2);
    } else {
        lemma_be_order(i, j, 4);
    }
}

} // verus!
