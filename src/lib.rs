pub mod binary;
pub mod euclid;
pub mod math;

use vstd::prelude::*;

pub use binary::{binary_u16, binary_u32, binary_u64, binary_u8};
pub use euclid::{euclid_u16, euclid_u32, euclid_u64, euclid_u8};

verus! {

/// Greatest common divisor of two unsigned integers of one width.
pub trait Gcd: Sized {
    /// The integer as a natural number.
    spec fn value(self) -> nat;

    /// Determine the greatest common divisor using the binary algorithm.
    fn gcd(self, other: Self) -> (r: Self)
        ensures
            r.value() == math::gcd(self.value(), other.value()),
    ;

    /// Determine the greatest common divisor using the binary GCD algorithm.
    fn gcd_binary(self, other: Self) -> (r: Self)
        ensures
            r.value() == math::gcd(self.value(), other.value()),
    ;

    /// Determine the greatest common divisor using the Euclidean algorithm.
    fn gcd_euclid(self, other: Self) -> (r: Self)
        ensures
            r.value() == math::gcd(self.value(), other.value()),
    ;
}

impl Gcd for u8 {
    open spec fn value(self) -> nat {
        self as nat
    }

    #[inline]
    fn gcd(self, other: u8) -> (r: u8) {
        self.gcd_binary(other)
    }

    #[inline]
    fn gcd_binary(self, v: u8) -> (r: u8) {
        binary_u8(self, v)
    }

    #[inline]
    fn gcd_euclid(self, other: u8) -> (r: u8) {
        euclid_u8(self, other)
    }
}

impl Gcd for u16 {
    open spec fn value(self) -> nat {
        self as nat
    }

    #[inline]
    fn gcd(self, other: u16) -> (r: u16) {
        self.gcd_binary(other)
    }

    #[inline]
    fn gcd_binary(self, v: u16) -> (r: u16) {
        binary_u16(self, v)
    }

    #[inline]
    fn gcd_euclid(self, other: u16) -> (r: u16) {
        euclid_u16(self, other)
    }
}

impl Gcd for u32 {
    open spec fn value(self) -> nat {
        self as nat
    }

    #[inline]
    fn gcd(self, other: u32) -> (r: u32) {
        self.gcd_binary(other)
    }

    #[inline]
    fn gcd_binary(self, v: u32) -> (r: u32) {
        binary_u32(self, v)
    }

    #[inline]
    fn gcd_euclid(self, other: u32) -> (r: u32) {
        euclid_u32(self, other)
    }
}

impl Gcd for u64 {
    open spec fn value(self) -> nat {
        self as nat
    }

    #[inline]
    fn gcd(self, other: u64) -> (r: u64) {
        self.gcd_binary(other)
    }

    #[inline]
    fn gcd_binary(self, v: u64) -> (r: u64) {
        binary_u64(self, v)
    }

    #[inline]
    fn gcd_euclid(self, other: u64) -> (r: u64) {
        euclid_u64(self, other)
    }
}

} // verus!
