//! The order-preserving key of an IEEE-754 bit pattern: positive values get
//! their sign bit set, negative values have every bit flipped. Writing the key
//! as an unsigned integer orders floats (NaN aside) as numbers.
use vstd::prelude::*;

verus! {

/// The key of the bits of an `f32`.
pub open spec fn f32_key_spec(bits: u32) -> u32 {
    if bits & 0x8000_0000 != 0 {
        !bits
    } else {
        bits | 0x8000_0000
    }
}

/// The bits of an `f32` back from its key.
pub open spec fn f32_bits_spec(key: u32) -> u32 {
    if key & 0x8000_0000 != 0 {
        key & 0x7FFF_FFFF
    } else {
        !key
    }
}

/// The key of the bits of an `f64`.
pub open spec fn f64_key_spec(bits: u64) -> u64 {
    if bits & 0x8000_0000_0000_0000 != 0 {
        !bits
    } else {
        bits | 0x8000_0000_0000_0000
    }
}

/// The bits of an `f64` back from its key.
pub open spec fn f64_bits_spec(key: u64) -> u64 {
    if key & 0x8000_0000_0000_0000 != 0 {
        key & 0x7FFF_FFFF_FFFF_FFFF
    } else {
        !key
    }
}

/// The key under which the `f32` with bits `bits` is written.
pub fn f32_key(bits: u32) -> (r: u32)
    ensures
        r == f32_key_spec(bits),
        f32_bits_spec(r) == bits,
{
    assert(f32_bits_spec(f32_key_spec(bits)) == bits) by (bit_vector);
    if bits & 0x8000_0000 != 0 {
        !bits
    } else {
        bits | 0x8000_0000
    }
}

/// The bits of the `f32` written under `key`.
pub fn f32_bits(key: u32) -> (r: u32)
    ensures
        r == f32_bits_spec(key),
        f32_key_spec(r) == key,
{
    assert(f32_key_spec(f32_bits_spec(key)) == key) by (bit_vector);
    if key & 0x8000_0000 != 0 {
        key & 0x7FFF_FFFF
    } else {
        !key
    }
}

/// The key under which the `f64` with bits `bits` is written.
pub fn f64_key(bits: u64) -> (r: u64)
    ensures
        r == f64_key_spec(bits),
        f64_bits_spec(r) == bits,
{
    assert(f64_bits_spec(f64_key_spec(bits)) == bits) by (bit_vector);
    if bits & 0x8000_0000_0000_0000 != 0 {
        !bits
    } else {
        bits | 0x8000_0000_0000_0000
    }
}

/// The bits of the `f64` written under `key`.
pub fn f64_bits(key: u64) -> (r: u64)
    ensures
        r == f64_bits_spec(key),
        f64_key_spec(r) == key,
{
    assert(f64_key_spec(f64_bits_spec(key)) == key) by (bit_vector);
    if key & 0x8000_0000_0000_0000 != 0 {
        key & 0x7FFF_FFFF_FFFF_FFFF
    } else {
        !key
    }
}

} // verus!
