use vstd::prelude::*;
use crate::math::{gcd, lemma_gcd_commutative};

verus! {

/// Greatest common divisor of two `u8` values by the Euclidean algorithm:
/// the pair is replaced by the smaller value and the remainder of the larger
/// by it until the remainder is zero.
pub fn euclid_u8(a: u8, b: u8) -> (r: u8)
    ensures
        r as nat == gcd(a as nat, b as nat),
{
    let (mut a, mut b) = if a > b {
        (a, b)
    } else {
        proof {
            lemma_gcd_commutative(a as nat, b as nat);
        }
        (b, a)
    };
    let ghost g = gcd(a as nat, b as nat);
    while b != 0
        invariant
            gcd(a as nat, b as nat) == g,
        decreases b,
    {
        let temp = a;
        a = b;
        b = temp;
        b %= a;
    }
    a
}

/// Greatest common divisor of two `u16` values by the Euclidean algorithm:
/// the pair is replaced by the smaller value and the remainder of the larger
/// by it until the remainder is zero.
pub fn euclid_u16(a: u16, b: u16) -> (r: u16)
    ensures
        r as nat == gcd(a as nat, b as nat),
{
    let (mut a, mut b) = if a > b {
        (a, b)
    } else {
        proof {
            lemma_gcd_commutative(a as nat, b as nat);
        }
        (b, a)
    };
    let ghost g = gcd(a as nat, b as nat);
    while b != 0
        invariant
            gcd(a as nat, b as nat) == g,
        decreases b,
    {
        let temp = a;
        a = b;
        b = temp;
        b %= a;
    }
    a
}

/// Greatest common divisor of two `u32` values by the Euclidean algorithm:
/// the pair is replaced by the smaller value and the remainder of the larger
/// by it until the remainder is zero.
pub fn euclid_u32(a: u32, b: u32) -> (r: u32)
    ensures
        r as nat == gcd(a as nat, b as nat),
{
    let (mut a, mut b) = if a > b {
        (a, b)
    } else {
        proof {
            lemma_gcd_commutative(a as nat, b as nat);
        }
        (b, a)
    };
    let ghost g = gcd(a as nat, b as nat);
    while b != 0
        invariant
            gcd(a as nat, b as nat) == g,
        decreases b,
    {
        let temp = a;
        a = b;
        b = temp;
        b %= a;
    }
    a
}

/// Greatest common divisor of two `u64` values by the Euclidean algorithm:
/// the pair is replaced by the smaller value and the remainder of the larger
/// by it until the remainder is zero.
pub fn euclid_u64(a: u64, b: u64) -> (r: u64)
    ensures
        r as nat == gcd(a as nat, b as nat),
{
    let (mut a, mut b) = if a > b {
        (a, b)
    } else {
        proof {
            lemma_gcd_commutative(a as nat, b as nat);
        }
        (b, a)
    };
    let ghost g = gcd(a as nat, b as nat);
    while b != 0
        invariant
            gcd(a as nat, b as nat) == g,
        decreases b,
    {
        let temp = a;
        a = b;
        b = temp;
        b %= a;
    }
    a
}

} // verus!
