use vstd::prelude::*;
use vstd::arithmetic::div_mod::lemma_fundamental_div_mod;
use vstd::arithmetic::power2::{lemma_pow2_pos, pow2};
use vstd::bits::{
    lemma_u16_shl_is_mul, lemma_u16_shr_is_div, lemma_u32_shl_is_mul, lemma_u32_shr_is_div,
    lemma_u64_shl_is_mul, lemma_u64_shr_is_div, lemma_u8_shl_is_mul, lemma_u8_shr_is_div,
};
use vstd::std_specs::bits::{
    axiom_u16_trailing_zeros, axiom_u32_trailing_zeros, axiom_u64_trailing_zeros,
    axiom_u8_trailing_zeros,
};
use crate::math::{
    gcd, lemma_divisor_bounded, lemma_gcd_commutative, lemma_gcd_divides, lemma_gcd_odd_pow2,
    lemma_gcd_scale, lemma_gcd_self, lemma_gcd_subtract, lemma_gcd_zero,
};

verus! {

/// When shifting `x` right by `s` and back loses no bits, `x` is the
/// shifted value times two to the `s`.
proof fn lemma_exact_shift_u8(x: u8, s: u32)
    requires
        s < 8,
        (x >> s) << s == x,
    ensures
        x as nat == (x >> s) as nat * pow2(s as nat),
        (x >> s) <= x,
{
    let k = s as u8;
    assert(x >> s == x >> k && (x >> s) << s == (x >> k) << k) by (bit_vector)
        requires
            s < 8,
            k == s as u8,
    ;
    lemma_u8_shr_is_div(x, k);
    lemma_pow2_pos(k as nat);
    lemma_fundamental_div_mod(x as int, pow2(k as nat) as int);
    assert((x as nat / pow2(k as nat)) * pow2(k as nat) <= x) by (nonlinear_arith)
        requires
            x == pow2(k as nat) * (x as nat / pow2(k as nat)) + x as nat % pow2(k as nat),
            x as nat % pow2(k as nat) >= 0,
    ;
    lemma_u8_shl_is_mul(x >> k, k);
    assert((x >> s) <= x) by (nonlinear_arith)
        requires
            x as nat == (x >> s) as nat * pow2(s as nat),
            pow2(s as nat) > 0,
    ;
}

/// Shifting a nonzero value right by its count of trailing zero bits leaves
/// an odd value, which times that power of two gives the value back.
proof fn lemma_strip_trailing_zeros_u8(x: u8)
    requires
        x != 0,
    ensures
        x.trailing_zeros() < 8,
        (x >> x.trailing_zeros()) % 2 == 1,
        x as nat == (x >> x.trailing_zeros()) as nat * pow2(x.trailing_zeros() as nat),
        (x >> x.trailing_zeros()) <= x,
        x % 2 == 1 ==> x.trailing_zeros() == 0 && x >> x.trailing_zeros() == x,
{
    axiom_u8_trailing_zeros(x);
    let t = x.trailing_zeros();
    let s = t as u8;
    assert(x >> t == x >> s && (x >> t) << t == (x >> s) << s) by (bit_vector)
        requires
            t < 8,
            s == t as u8,
    ;
    assert(s < 8 && x << vstd::prelude::sub(8u8, s) == 0 ==> (x >> s) << s == x) by (bit_vector);
    assert((x >> s) & 1 == 1 ==> (x >> s) % 2 == 1) by (bit_vector);
    lemma_exact_shift_u8(x, t);
    if x % 2 == 1 && t > 0 {
        assert(x % 2 == 1 ==> (x >> 0u8) & 1u8 == 1u8) by (bit_vector);
    }
    assert(x >> 0u32 == x) by (bit_vector);
}

/// The trailing zero bits of `u | v` are a power of two that divides both
/// values exactly, and after it is removed at least one of them is odd.
proof fn lemma_common_trailing_zeros_u8(u: u8, v: u8)
    requires
        u != 0,
    ensures
        (u | v).trailing_zeros() < 8,
        u as nat == (u >> (u | v).trailing_zeros()) as nat * pow2((u | v).trailing_zeros() as nat),
        v as nat == (v >> (u | v).trailing_zeros()) as nat * pow2((u | v).trailing_zeros() as nat),
        (u >> (u | v).trailing_zeros()) % 2 == 1 || (v >> (u | v).trailing_zeros()) % 2 == 1,
{
    let w = u | v;
    assert(u != 0 ==> u | v != 0) by (bit_vector);
    axiom_u8_trailing_zeros(w);
    let t = w.trailing_zeros();
    let s = t as u8;
    assert((u >> t) << t == u && (v >> t) << t == v && ((u >> t) % 2 == 1 || (v >> t) % 2 == 1))
        by (bit_vector)
        requires
            t < 8,
            s == t as u8,
            (u | v) << vstd::prelude::sub(8u8, s) == 0,
            ((u | v) >> s) & 1u8 == 1u8,
    ;
    lemma_exact_shift_u8(u, t);
    lemma_exact_shift_u8(v, t);
}

/// Greatest common divisor of two `u8` values by the binary (Stein's)
/// algorithm, which needs only shifts, comparisons and subtraction.
pub fn binary_u8(u: u8, v: u8) -> (r: u8)
    ensures
        r as nat == gcd(u as nat, v as nat),
{
    let ghost u0 = u as nat;
    let ghost v0 = v as nat;
    let mut u = u;
    let mut v = v;
    if u == 0 {
        proof {
            lemma_gcd_zero(v as nat);
        }
        return v;
    }
    if v == 0 {
        proof {
            lemma_gcd_zero(u as nat);
        }
        return u;
    }
    let shift = (u | v).trailing_zeros();
    proof {
        lemma_common_trailing_zeros_u8(u, v);
    }
    u >>= shift;
    v >>= shift;
    let ghost p = pow2(shift as nat);
    proof {
        lemma_gcd_scale(p, u as nat, v as nat);
        assert(p * u == u0 && p * v == v0) by (nonlinear_arith)
            requires
                u0 == u as nat * p,
                v0 == v as nat * p,
        ;
        assert(u != 0 && v != 0) by (nonlinear_arith)
            requires
                u0 == u as nat * p,
                v0 == v as nat * p,
                u0 != 0,
                v0 != 0,
        ;
        lemma_strip_trailing_zeros_u8(u);
        lemma_strip_trailing_zeros_u8(v);
        let tu = u.trailing_zeros() as nat;
        let tv = v.trailing_zeros() as nat;
        let u2 = (u >> u.trailing_zeros()) as nat;
        let v2 = (v >> v.trailing_zeros()) as nat;
        if u % 2 == 1 {
            lemma_gcd_odd_pow2(u as nat, v2, tv);
        } else {
            lemma_gcd_commutative(u as nat, v as nat);
            lemma_gcd_odd_pow2(v as nat, u2, tu);
            lemma_gcd_commutative(v2, u2);
        }
        assert(gcd(u as nat, v as nat) == gcd(u2, v2));
    }
    u >>= u.trailing_zeros();
    v >>= v.trailing_zeros();
    let ghost g = gcd(u as nat, v as nat);
    while u != v
        invariant
            u % 2 == 1,
            v % 2 == 1,
            gcd(u as nat, v as nat) == g,
            p * g == gcd(u0, v0),
            p == pow2(shift as nat),
            shift < 8,
            u0 != 0,
            u0 <= 255,
        decreases u + v,
    {
        if u > v {
            proof {
                lemma_gcd_commutative(u as nat, v as nat);
            }
            let temp = u;
            u = v;
            v = temp;
        }
        proof {
            lemma_gcd_subtract(u as nat, v as nat);
        }
        v -= u;
        proof {
            lemma_strip_trailing_zeros_u8(v);
            lemma_gcd_odd_pow2(u as nat, (v >> v.trailing_zeros()) as nat, v.trailing_zeros() as nat);
        }
        v >>= v.trailing_zeros();
    }
    proof {
        lemma_gcd_self(u as nat);
        lemma_gcd_divides(u0, v0);
        lemma_divisor_bounded(gcd(u0, v0), u0);
        let k = shift as u8;
        assert(u << shift == u << k) by (bit_vector)
            requires
                shift < 8,
                k == shift as u8,
        ;
        assert(u as nat * p <= 255) by (nonlinear_arith)
            requires
                p * u == gcd(u0, v0),
                gcd(u0, v0) <= u0,
                u0 <= 255,
        ;
        lemma_u8_shl_is_mul(u, k);
    }
    u << shift
}

/// When shifting `x` right by `s` and back loses no bits, `x` is the
/// shifted value times two to the `s`.
proof fn lemma_exact_shift_u16(x: u16, s: u32)
    requires
        s < 16,
        (x >> s) << s == x,
    ensures
        x as nat == (x >> s) as nat * pow2(s as nat),
        (x >> s) <= x,
{
    let k = s as u16;
    assert(x >> s == x >> k && (x >> s) << s == (x >> k) << k) by (bit_vector)
        requires
            s < 16,
            k == s as u16,
    ;
    lemma_u16_shr_is_div(x, k);
    lemma_pow2_pos(k as nat);
    lemma_fundamental_div_mod(x as int, pow2(k as nat) as int);
    assert((x as nat / pow2(k as nat)) * pow2(k as nat) <= x) by (nonlinear_arith)
        requires
            x == pow2(k as nat) * (x as nat / pow2(k as nat)) + x as nat % pow2(k as nat),
            x as nat % pow2(k as nat) >= 0,
    ;
    lemma_u16_shl_is_mul(x >> k, k);
    assert((x >> s) <= x) by (nonlinear_arith)
        requires
            x as nat == (x >> s) as nat * pow2(s as nat),
            pow2(s as nat) > 0,
    ;
}

/// Shifting a nonzero value right by its count of trailing zero bits leaves
/// an odd value, which times that power of two gives the value back.
proof fn lemma_strip_trailing_zeros_u16(x: u16)
    requires
        x != 0,
    ensures
        x.trailing_zeros() < 16,
        (x >> x.trailing_zeros()) % 2 == 1,
        x as nat == (x >> x.trailing_zeros()) as nat * pow2(x.trailing_zeros() as nat),
        (x >> x.trailing_zeros()) <= x,
        x % 2 == 1 ==> x.trailing_zeros() == 0 && x >> x.trailing_zeros() == x,
{
    axiom_u16_trailing_zeros(x);
    let t = x.trailing_zeros();
    let s = t as u16;
    assert(x >> t == x >> s && (x >> t) << t == (x >> s) << s) by (bit_vector)
        requires
            t < 16,
            s == t as u16,
    ;
    assert(s < 16 && x << vstd::prelude::sub(16u16, s) == 0 ==> (x >> s) << s == x) by (bit_vector);
    assert((x >> s) & 1 == 1 ==> (x >> s) % 2 == 1) by (bit_vector);
    lemma_exact_shift_u16(x, t);
    if x % 2 == 1 && t > 0 {
        assert(x % 2 == 1 ==> (x >> 0u16) & 1u16 == 1u16) by (bit_vector);
    }
    assert(x >> 0u32 == x) by (bit_vector);
}

/// The trailing zero bits of `u | v` are a power of two that divides both
/// values exactly, and after it is removed at least one of them is odd.
proof fn lemma_common_trailing_zeros_u16(u: u16, v: u16)
    requires
        u != 0,
    ensures
        (u | v).trailing_zeros() < 16,
        u as nat == (u >> (u | v).trailing_zeros()) as nat * pow2((u | v).trailing_zeros() as nat),
        v as nat == (v >> (u | v).trailing_zeros()) as nat * pow2((u | v).trailing_zeros() as nat),
        (u >> (u | v).trailing_zeros()) % 2 == 1 || (v >> (u | v).trailing_zeros()) % 2 == 1,
{
    let w = u | v;
    assert(u != 0 ==> u | v != 0) by (bit_vector);
    axiom_u16_trailing_zeros(w);
    let t = w.trailing_zeros();
    let s = t as u16;
    assert((u >> t) << t == u && (v >> t) << t == v && ((u >> t) % 2 == 1 || (v >> t) % 2 == 1))
        by (bit_vector)
        requires
            t < 16,
            s == t as u16,
            (u | v) << vstd::prelude::sub(16u16, s) == 0,
            ((u | v) >> s) & 1u16 == 1u16,
    ;
    lemma_exact_shift_u16(u, t);
    lemma_exact_shift_u16(v, t);
}

/// Greatest common divisor of two `u16` values by the binary (Stein's)
/// algorithm, which needs only shifts, comparisons and subtraction.
pub fn binary_u16(u: u16, v: u16) -> (r: u16)
    ensures
        r as nat == gcd(u as nat, v as nat),
{
    let ghost u0 = u as nat;
    let ghost v0 = v as nat;
    let mut u = u;
    let mut v = v;
    if u == 0 {
        proof {
            lemma_gcd_zero(v as nat);
        }
        return v;
    }
    if v == 0 {
        proof {
            lemma_gcd_zero(u as nat);
        }
        return u;
    }
    let shift = (u | v).trailing_zeros();
    proof {
        lemma_common_trailing_zeros_u16(u, v);
    }
    u >>= shift;
    v >>= shift;
    let ghost p = pow2(shift as nat);
    proof {
        lemma_gcd_scale(p, u as nat, v as nat);
        assert(p * u == u0 && p * v == v0) by (nonlinear_arith)
            requires
                u0 == u as nat * p,
                v0 == v as nat * p,
        ;
        assert(u != 0 && v != 0) by (nonlinear_arith)
            requires
                u0 == u as nat * p,
                v0 == v as nat * p,
                u0 != 0,
                v0 != 0,
        ;
        lemma_strip_trailing_zeros_u16(u);
        lemma_strip_trailing_zeros_u16(v);
        let tu = u.trailing_zeros() as nat;
        let tv = v.trailing_zeros() as nat;
        let u2 = (u >> u.trailing_zeros()) as nat;
        let v2 = (v >> v.trailing_zeros()) as nat;
        if u % 2 == 1 {
            lemma_gcd_odd_pow2(u as nat, v2, tv);
        } else {
            lemma_gcd_commutative(u as nat, v as nat);
            lemma_gcd_odd_pow2(v as nat, u2, tu);
            lemma_gcd_commutative(v2, u2);
        }
        assert(gcd(u as nat, v as nat) == gcd(u2, v2));
    }
    u >>= u.trailing_zeros();
    v >>= v.trailing_zeros();
    let ghost g = gcd(u as nat, v as nat);
    while u != v
        invariant
            u % 2 == 1,
            v % 2 == 1,
            gcd(u as nat, v as nat) == g,
            p * g == gcd(u0, v0),
            p == pow2(shift as nat),
            shift < 16,
            u0 != 0,
            u0 <= 65535,
        decreases u + v,
    {
        if u > v {
            proof {
                lemma_gcd_commutative(u as nat, v as nat);
            }
            let temp = u;
            u = v;
            v = temp;
        }
        proof {
            lemma_gcd_subtract(u as nat, v as nat);
        }
        v -= u;
        proof {
            lemma_strip_trailing_zeros_u16(v);
            lemma_gcd_odd_pow2(u as nat, (v >> v.trailing_zeros()) as nat, v.trailing_zeros() as nat);
        }
        v >>= v.trailing_zeros();
    }
    proof {
        lemma_gcd_self(u as nat);
        lemma_gcd_divides(u0, v0);
        lemma_divisor_bounded(gcd(u0, v0), u0);
        let k = shift as u16;
        assert(u << shift == u << k) by (bit_vector)
            requires
                shift < 16,
                k == shift as u16,
        ;
        assert(u as nat * p <= 65535) by (nonlinear_arith)
            requires
                p * u == gcd(u0, v0),
                gcd(u0, v0) <= u0,
                u0 <= 65535,
        ;
        lemma_u16_shl_is_mul(u, k);
    }
    u << shift
}

/// When shifting `x` right by `s` and back loses no bits, `x` is the
/// shifted value times two to the `s`.
proof fn lemma_exact_shift_u32(x: u32, s: u32)
    requires
        s < 32,
        (x >> s) << s == x,
    ensures
        x as nat == (x >> s) as nat * pow2(s as nat),
        (x >> s) <= x,
{
    let k = s as u32;
    assert(x >> s == x >> k && (x >> s) << s == (x >> k) << k) by (bit_vector)
        requires
            s < 32,
            k == s as u32,
    ;
    lemma_u32_shr_is_div(x, k);
    lemma_pow2_pos(k as nat);
    lemma_fundamental_div_mod(x as int, pow2(k as nat) as int);
    assert((x as nat / pow2(k as nat)) * pow2(k as nat) <= x) by (nonlinear_arith)
        requires
            x == pow2(k as nat) * (x as nat / pow2(k as nat)) + x as nat % pow2(k as nat),
            x as nat % pow2(k as nat) >= 0,
    ;
    lemma_u32_shl_is_mul(x >> k, k);
    assert((x >> s) <= x) by (nonlinear_arith)
        requires
            x as nat == (x >> s) as nat * pow2(s as nat),
            pow2(s as nat) > 0,
    ;
}

/// Shifting a nonzero value right by its count of trailing zero bits leaves
/// an odd value, which times that power of two gives the value back.
proof fn lemma_strip_trailing_zeros_u32(x: u32)
    requires
        x != 0,
    ensures
        x.trailing_zeros() < 32,
        (x >> x.trailing_zeros()) % 2 == 1,
        x as nat == (x >> x.trailing_zeros()) as nat * pow2(x.trailing_zeros() as nat),
        (x >> x.trailing_zeros()) <= x,
        x % 2 == 1 ==> x.trailing_zeros() == 0 && x >> x.trailing_zeros() == x,
{
    axiom_u32_trailing_zeros(x);
    let t = x.trailing_zeros();
    let s = t as u32;
    assert(x >> t == x >> s && (x >> t) << t == (x >> s) << s) by (bit_vector)
        requires
            t < 32,
            s == t as u32,
    ;
    assert(s < 32 && x << vstd::prelude::sub(32u32, s) == 0 ==> (x >> s) << s == x) by (bit_vector);
    assert((x >> s) & 1 == 1 ==> (x >> s) % 2 == 1) by (bit_vector);
    lemma_exact_shift_u32(x, t);
    if x % 2 == 1 && t > 0 {
        assert(x % 2 == 1 ==> (x >> 0u32) & 1u32 == 1u32) by (bit_vector);
    }
    assert(x >> 0u32 == x) by (bit_vector);
}

/// The trailing zero bits of `u | v` are a power of two that divides both
/// values exactly, and after it is removed at least one of them is odd.
proof fn lemma_common_trailing_zeros_u32(u: u32, v: u32)
    requires
        u != 0,
    ensures
        (u | v).trailing_zeros() < 32,
        u as nat == (u >> (u | v).trailing_zeros()) as nat * pow2((u | v).trailing_zeros() as nat),
        v as nat == (v >> (u | v).trailing_zeros()) as nat * pow2((u | v).trailing_zeros() as nat),
        (u >> (u | v).trailing_zeros()) % 2 == 1 || (v >> (u | v).trailing_zeros()) % 2 == 1,
{
    let w = u | v;
    assert(u != 0 ==> u | v != 0) by (bit_vector);
    axiom_u32_trailing_zeros(w);
    let t = w.trailing_zeros();
    let s = t as u32;
    assert((u >> t) << t == u && (v >> t) << t == v && ((u >> t) % 2 == 1 || (v >> t) % 2 == 1))
        by (bit_vector)
        requires
            t < 32,
            s == t as u32,
            (u | v) << vstd::prelude::sub(32u32, s) == 0,
            ((u | v) >> s) & 1u32 == 1u32,
    ;
    lemma_exact_shift_u32(u, t);
    lemma_exact_shift_u32(v, t);
}

/// Greatest common divisor of two `u32` values by the binary (Stein's)
/// algorithm, which needs only shifts, comparisons and subtraction.
pub fn binary_u32(u: u32, v: u32) -> (r: u32)
    ensures
        r as nat == gcd(u as nat, v as nat),
{
    let ghost u0 = u as nat;
    let ghost v0 = v as nat;
    let mut u = u;
    let mut v = v;
    if u == 0 {
        proof {
            lemma_gcd_zero(v as nat);
        }
        return v;
    }
    if v == 0 {
        proof {
            lemma_gcd_zero(u as nat);
        }
        return u;
    }
    let shift = (u | v).trailing_zeros();
    proof {
        lemma_common_trailing_zeros_u32(u, v);
    }
    u >>= shift;
    v >>= shift;
    let ghost p = pow2(shift as nat);
    proof {
        lemma_gcd_scale(p, u as nat, v as nat);
        assert(p * u == u0 && p * v == v0) by (nonlinear_arith)
            requires
                u0 == u as nat * p,
                v0 == v as nat * p,
        ;
        assert(u != 0 && v != 0) by (nonlinear_arith)
            requires
                u0 == u as nat * p,
                v0 == v as nat * p,
                u0 != 0,
                v0 != 0,
        ;
        lemma_strip_trailing_zeros_u32(u);
        lemma_strip_trailing_zeros_u32(v);
        let tu = u.trailing_zeros() as nat;
        let tv = v.trailing_zeros() as nat;
        let u2 = (u >> u.trailing_zeros()) as nat;
        let v2 = (v >> v.trailing_zeros()) as nat;
        if u % 2 == 1 {
            lemma_gcd_odd_pow2(u as nat, v2, tv);
        } else {
            lemma_gcd_commutative(u as nat, v as nat);
            lemma_gcd_odd_pow2(v as nat, u2, tu);
            lemma_gcd_commutative(v2, u2);
        }
        assert(gcd(u as nat, v as nat) == gcd(u2, v2));
    }
    u >>= u.trailing_zeros();
    v >>= v.trailing_zeros();
    let ghost g = gcd(u as nat, v as nat);
    while u != v
        invariant
            u % 2 == 1,
            v % 2 == 1,
            gcd(u as nat, v as nat) == g,
            p * g == gcd(u0, v0),
            p == pow2(shift as nat),
            shift < 32,
            u0 != 0,
            u0 <= 4294967295,
        decreases u + v,
    {
        if u > v {
            proof {
                lemma_gcd_commutative(u as nat, v as nat);
            }
            let temp = u;
            u = v;
            v = temp;
        }
        proof {
            lemma_gcd_subtract(u as nat, v as nat);
        }
        v -= u;
        proof {
            lemma_strip_trailing_zeros_u32(v);
            lemma_gcd_odd_pow2(u as nat, (v >> v.trailing_zeros()) as nat, v.trailing_zeros() as nat);
        }
        v >>= v.trailing_zeros();
    }
    proof {
        lemma_gcd_self(u as nat);
        lemma_gcd_divides(u0, v0);
        lemma_divisor_bounded(gcd(u0, v0), u0);
        let k = shift as u32;
        assert(u << shift == u << k) by (bit_vector)
            requires
                shift < 32,
                k == shift as u32,
        ;
        assert(u as nat * p <= 4294967295) by (nonlinear_arith)
            requires
                p * u == gcd(u0, v0),
                gcd(u0, v0) <= u0,
                u0 <= 4294967295,
        ;
        lemma_u32_shl_is_mul(u, k);
    }
    u << shift
}

/// When shifting `x` right by `s` and back loses no bits, `x` is the
/// shifted value times two to the `s`.
proof fn lemma_exact_shift_u64(x: u64, s: u32)
    requires
        s < 64,
        (x >> s) << s == x,
    ensures
        x as nat == (x >> s) as nat * pow2(s as nat),
        (x >> s) <= x,
{
    let k = s as u64;
    assert(x >> s == x >> k && (x >> s) << s == (x >> k) << k) by (bit_vector)
        requires
            s < 64,
            k == s as u64,
    ;
    lemma_u64_shr_is_div(x, k);
    lemma_pow2_pos(k as nat);
    lemma_fundamental_div_mod(x as int, pow2(k as nat) as int);
    assert((x as nat / pow2(k as nat)) * pow2(k as nat) <= x) by (nonlinear_arith)
        requires
            x == pow2(k as nat) * (x as nat / pow2(k as nat)) + x as nat % pow2(k as nat),
            x as nat % pow2(k as nat) >= 0,
    ;
    lemma_u64_shl_is_mul(x >> k, k);
    assert((x >> s) <= x) by (nonlinear_arith)
        requires
            x as nat == (x >> s) as nat * pow2(s as nat),
            pow2(s as nat) > 0,
    ;
}

/// Shifting a nonzero value right by its count of trailing zero bits leaves
/// an odd value, which times that power of two gives the value back.
proof fn lemma_strip_trailing_zeros_u64(x: u64)
    requires
        x != 0,
    ensures
        x.trailing_zeros() < 64,
        (x >> x.trailing_zeros()) % 2 == 1,
        x as nat == (x >> x.trailing_zeros()) as nat * pow2(x.trailing_zeros() as nat),
        (x >> x.trailing_zeros()) <= x,
        x % 2 == 1 ==> x.trailing_zeros() == 0 && x >> x.trailing_zeros() == x,
{
    axiom_u64_trailing_zeros(x);
    let t = x.trailing_zeros();
    let s = t as u64;
    assert(x >> t == x >> s && (x >> t) << t == (x >> s) << s) by (bit_vector)
        requires
            t < 64,
            s == t as u64,
    ;
    assert(s < 64 && x << vstd::prelude::sub(64u64, s) == 0 ==> (x >> s) << s == x) by (bit_vector);
    assert((x >> s) & 1 == 1 ==> (x >> s) % 2 == 1) by (bit_vector);
    lemma_exact_shift_u64(x, t);
    if x % 2 == 1 && t > 0 {
        assert(x % 2 == 1 ==> (x >> 0u64) & 1u64 == 1u64) by (bit_vector);
    }
    assert(x >> 0u32 == x) by (bit_vector);
}

/// The trailing zero bits of `u | v` are a power of two that divides both
/// values exactly, and after it is removed at least one of them is odd.
proof fn lemma_common_trailing_zeros_u64(u: u64, v: u64)
    requires
        u != 0,
    ensures
        (u | v).trailing_zeros() < 64,
        u as nat == (u >> (u | v).trailing_zeros()) as nat * pow2((u | v).trailing_zeros() as nat),
        v as nat == (v >> (u | v).trailing_zeros()) as nat * pow2((u | v).trailing_zeros() as nat),
        (u >> (u | v).trailing_zeros()) % 2 == 1 || (v >> (u | v).trailing_zeros()) % 2 == 1,
{
    let w = u | v;
    assert(u != 0 ==> u | v != 0) by (bit_vector);
    axiom_u64_trailing_zeros(w);
    let t = w.trailing_zeros();
    let s = t as u64;
    assert((u >> t) << t == u && (v >> t) << t == v && ((u >> t) % 2 == 1 || (v >> t) % 2 == 1))
        by (bit_vector)
        requires
            t < 64,
            s == t as u64,
            (u | v) << vstd::prelude::sub(64u64, s) == 0,
            ((u | v) >> s) & 1u64 == 1u64,
    ;
    lemma_exact_shift_u64(u, t);
    lemma_exact_shift_u64(v, t);
}

/// Greatest common divisor of two `u64` values by the binary (Stein's)
/// algorithm, which needs only shifts, comparisons and subtraction.
pub fn binary_u64(u: u64, v: u64) -> (r: u64)
    ensures
        r as nat == gcd(u as nat, v as nat),
{
    let ghost u0 = u as nat;
    let ghost v0 = v as nat;
    let mut u = u;
    let mut v = v;
    if u == 0 {
        proof {
            lemma_gcd_zero(v as nat);
        }
        return v;
    }
    if v == 0 {
        proof {
            lemma_gcd_zero(u as nat);
        }
        return u;
    }
    let shift = (u | v).trailing_zeros();
    proof {
        lemma_common_trailing_zeros_u64(u, v);
    }
    u >>= shift;
    v >>= shift;
    let ghost p = pow2(shift as nat);
    proof {
        lemma_gcd_scale(p, u as nat, v as nat);
        assert(p * u == u0 && p * v == v0) by (nonlinear_arith)
            requires
                u0 == u as nat * p,
                v0 == v as nat * p,
        ;
        assert(u != 0 && v != 0) by (nonlinear_arith)
            requires
                u0 == u as nat * p,
                v0 == v as nat * p,
                u0 != 0,
                v0 != 0,
        ;
        lemma_strip_trailing_zeros_u64(u);
        lemma_strip_trailing_zeros_u64(v);
        let tu = u.trailing_zeros() as nat;
        let tv = v.trailing_zeros() as nat;
        let u2 = (u >> u.trailing_zeros()) as nat;
        let v2 = (v >> v.trailing_zeros()) as nat;
        if u % 2 == 1 {
            lemma_gcd_odd_pow2(u as nat, v2, tv);
        } else {
            lemma_gcd_commutative(u as nat, v as nat);
            lemma_gcd_odd_pow2(v as nat, u2, tu);
            lemma_gcd_commutative(v2, u2);
        }
        assert(gcd(u as nat, v as nat) == gcd(u2, v2));
    }
    u >>= u.trailing_zeros();
    v >>= v.trailing_zeros();
    let ghost g = gcd(u as nat, v as nat);
    while u != v
        invariant
            u % 2 == 1,
            v % 2 == 1,
            gcd(u as nat, v as nat) == g,
            p * g == gcd(u0, v0),
            p == pow2(shift as nat),
            shift < 64,
            u0 != 0,
            u0 <= 18446744073709551615,
        decreases u + v,
    {
        if u > v {
            proof {
                lemma_gcd_commutative(u as nat, v as nat);
            }
            let temp = u;
            u = v;
            v = temp;
        }
        proof {
            lemma_gcd_subtract(u as nat, v as nat);
        }
        v -= u;
        proof {
            lemma_strip_trailing_zeros_u64(v);
            lemma_gcd_odd_pow2(u as nat, (v >> v.trailing_zeros()) as nat, v.trailing_zeros() as nat);
        }
        v >>= v.trailing_zeros();
    }
    proof {
        lemma_gcd_self(u as nat);
        lemma_gcd_divides(u0, v0);
        lemma_divisor_bounded(gcd(u0, v0), u0);
        let k = shift as u64;
        assert(u << shift == u << k) by (bit_vector)
            requires
                shift < 64,
                k == shift as u64,
        ;
        assert(u as nat * p <= 18446744073709551615) by (nonlinear_arith)
            requires
                p * u == gcd(u0, v0),
                gcd(u0, v0) <= u0,
                u0 <= 18446744073709551615,
        ;
        lemma_u64_shl_is_mul(u, k);
    }
    u << shift
}

} // verus!
