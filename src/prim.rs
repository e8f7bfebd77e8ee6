//! Big-endian layout of fixed-width integers, executable side.
use vstd::prelude::*;

use crate::format::{be, from_be, lemma_be_len, pow256};

verus! {

/// `256^n` for the widths the codec uses.
pub proof fn lemma_pow256_values()
    ensures
        pow256(0) == 1,
        pow256(1) == 0x100,
        pow256(2) == 0x1_0000,
        pow256(4) == 0x1_0000_0000,
        pow256(8) == 0x1_0000_0000_0000_0000,
        pow256(16) == 0x1_0000_0000_0000_0000_0000_0000_0000_0000,
{
    reveal_with_fuel(pow256, 17);
}

/// Powers of 256 grow with the exponent.
pub proof fn lemma_pow256_mono(a: nat, b: nat)
    requires
        a <= b,
    ensures
        pow256(a) <= pow256(b),
    decreases b,
{
    if a < b {
        lemma_pow256_mono(a, (b - 1) as nat);
        crate::format::lemma_pow256_pos((b - 1) as nat);
    }
}

/// The `n` big-endian bytes of `x` modulo `256^n`.
pub fn be_bytes(x: u128, n: usize) -> (r: Vec<u8>)
    ensures
        r@ == be(x as nat, n as nat),
        r@.len() == n,
    decreases n,
{
    proof {
        lemma_be_len(x as nat, n as nat);
    }
    if n == 0 {
        Vec::new()
    } else {
        let mut v = be_bytes(x / 256, n - 1);
        v.push((x % 256) as u8);
        v
    }
}

/// The number that big-endian bytes stand for.
pub fn be_value(s: &[u8]) -> (r: u128)
    requires
        s@.len() <= 16,
    ensures
        r as nat == from_be(s@),
        (r as nat) < pow256(s@.len()),
{
    let mut acc: u128 = 0;
    let mut i: usize = 0;
    proof {
        assert(s@.take(0) =~= Seq::<u8>::empty());
    }
    while i < s.len()
        invariant
            i <= s@.len(),
            s@.len() <= 16,
            acc as nat == from_be(s@.take(i as int)),
            (acc as nat) < pow256(i as nat),
        decreases s@.len() - i,
    {
        let b = s[i];
        proof {
            lemma_pow256_mono((i + 1) as nat, 16);
            lemma_pow256_values();
            let p = pow256(i as nat);
            assert(acc * 256 + b < 256 * p) by (nonlinear_arith)
                requires
                    acc < p,
                    b < 256,
            ;
            assert(s@.take(i + 1).drop_last() =~= s@.take(i as int));
        }
        acc = acc * 256 + b as u128;
        i = i + 1;
    }
    proof {
        assert(s@.take(i as int) =~= s@);
    }
    acc
}

} // verus!
