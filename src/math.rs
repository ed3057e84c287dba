use vstd::prelude::*;
use vstd::arithmetic::div_mod::{lemma_fundamental_div_mod, lemma_fundamental_div_mod_converse};
use vstd::arithmetic::power2::{lemma2_to64, lemma_pow2_unfold, pow2};

verus! {

/// `d` divides `n`: some natural multiple of `d` is `n`.
pub open spec fn divides(d: nat, n: nat) -> bool {
    exists|k: nat| #[trigger] (k * d) == n
}

/// The greatest common divisor, by the Euclidean recursion.
pub open spec fn gcd(a: nat, b: nat) -> nat
    decreases b,
{
    if b == 0 {
        a
    } else {
        gcd(b, a % b)
    }
}

/// `g` divides both `a` and `b`, and every common divisor of `a` and `b` divides `g`.
pub open spec fn is_greatest_common_divisor(a: nat, b: nat, g: nat) -> bool {
    &&& divides(g, a)
    &&& divides(g, b)
    &&& forall|d: nat| divides(d, a) && divides(d, b) ==> #[trigger] divides(d, g)
}

proof fn lemma_divides_by_witness(d: nat, n: nat, k: nat)
    requires
        k * d == n,
    ensures
        divides(d, n),
{
}

proof fn lemma_divides_sum(d: nat, x: nat, y: nat)
    requires
        divides(d, x),
        divides(d, y),
    ensures
        divides(d, x + y),
{
    let i = choose|i: nat| #[trigger] (i * d) == x;
    let j = choose|j: nat| #[trigger] (j * d) == y;
    assert((i + j) * d == x + y) by (nonlinear_arith)
        requires
            i * d == x,
            j * d == y,
    ;
    lemma_divides_by_witness(d, x + y, i + j);
}

proof fn lemma_divides_difference(d: nat, x: nat, y: nat)
    requires
        divides(d, x),
        divides(d, y),
        y <= x,
    ensures
        divides(d, (x - y) as nat),
{
    let i = choose|i: nat| #[trigger] (i * d) == x;
    let j = choose|j: nat| #[trigger] (j * d) == y;
    if d == 0 {
        assert(x == 0 && y == 0) by (nonlinear_arith)
            requires
                i * d == x,
                j * d == y,
                d == 0,
        ;
        lemma_divides_by_witness(d, 0, 0);
    } else {
        assert(j <= i) by (nonlinear_arith)
            requires
                i * d == x,
                j * d == y,
                y <= x,
                d > 0,
        ;
        assert(((i - j) as nat) * d == x - y) by (nonlinear_arith)
            requires
                i * d == x,
                j * d == y,
                j <= i,
        ;
        lemma_divides_by_witness(d, (x - y) as nat, (i - j) as nat);
    }
}

proof fn lemma_divides_multiple(d: nat, x: nat, m: nat)
    requires
        divides(d, x),
    ensures
        divides(d, m * x),
{
    let i = choose|i: nat| #[trigger] (i * d) == x;
    assert((m * i) * d == m * x) by (nonlinear_arith)
        requires
            i * d == x,
    ;
    lemma_divides_by_witness(d, m * x, m * i);
}

/// A nonzero number has no divisor larger than itself.
pub proof fn lemma_divisor_bounded(d: nat, n: nat)
    requires
        divides(d, n),
        n > 0,
    ensures
        d <= n,
{
    let k = choose|k: nat| #[trigger] (k * d) == n;
    assert(d <= n) by (nonlinear_arith)
        requires
            k * d == n,
            n > 0,
    ;
}

proof fn lemma_divides_antisymmetric(x: nat, y: nat)
    requires
        divides(x, y),
        divides(y, x),
    ensures
        x == y,
{
    if x == 0 {
        let k = choose|k: nat| #[trigger] (k * x) == y;
        assert(y == 0) by (nonlinear_arith)
            requires
                k * x == y,
                x == 0,
        ;
    } else if y == 0 {
        let k = choose|k: nat| #[trigger] (k * y) == x;
        assert(x == 0) by (nonlinear_arith)
            requires
                k * y == x,
                y == 0,
        ;
    } else {
        lemma_divisor_bounded(x, y);
        lemma_divisor_bounded(y, x);
    }
}

/// The Euclidean gcd divides both of its arguments.
pub proof fn lemma_gcd_divides(a: nat, b: nat)
    ensures
        divides(gcd(a, b), a),
        divides(gcd(a, b), b),
    decreases b,
{
    if b == 0 {
        lemma_divides_by_witness(a, a, 1);
        lemma_divides_by_witness(a, 0, 0);
    } else {
        let g = gcd(b, a % b);
        lemma_gcd_divides(b, a % b);
        lemma_fundamental_div_mod(a as int, b as int);
        assert(a == (a / b) * b + a % b) by (nonlinear_arith)
            requires
                a == b * (a / b) + a % b,
        ;
        lemma_divides_multiple(g, b, a / b);
        lemma_divides_sum(g, (a / b) * b, a % b);
    }
}

/// Every common divisor of `a` and `b` divides their Euclidean gcd.
pub proof fn lemma_gcd_greatest(a: nat, b: nat, d: nat)
    requires
        divides(d, a),
        divides(d, b),
    ensures
        divides(d, gcd(a, b)),
    decreases b,
{
    if b != 0 {
        lemma_fundamental_div_mod(a as int, b as int);
        assert(a == (a / b) * b + a % b) by (nonlinear_arith)
            requires
                a == b * (a / b) + a % b,
        ;
        lemma_divides_multiple(d, b, a / b);
        lemma_divides_difference(d, a, (a / b) * b);
        assert((a - (a / b) * b) as nat == a % b);
        lemma_gcd_greatest(b, a % b, d);
    }
}

/// A nonzero gcd leaves no remainder when it divides either argument.
pub proof fn lemma_gcd_divides_evenly(a: nat, b: nat)
    ensures
        gcd(a, b) != 0 ==> a % gcd(a, b) == 0 && b % gcd(a, b) == 0,
{
    let g = gcd(a, b);
    lemma_gcd_divides(a, b);
    if g != 0 {
        lemma_divides_leaves_no_remainder(g, a);
        lemma_divides_leaves_no_remainder(g, b);
    }
}

proof fn lemma_divides_leaves_no_remainder(d: nat, n: nat)
    requires
        divides(d, n),
        d != 0,
    ensures
        n % d == 0,
{
    let k = choose|k: nat| #[trigger] (k * d) == n;
    lemma_fundamental_div_mod_converse(n as int, d as int, k as int, 0);
}

/// The Euclidean gcd is a greatest common divisor in the divisibility order.
pub proof fn lemma_gcd_is_greatest_common_divisor(a: nat, b: nat)
    ensures
        is_greatest_common_divisor(a, b, gcd(a, b)),
{
    lemma_gcd_divides(a, b);
    assert forall|d: nat| divides(d, a) && divides(d, b) implies #[trigger] divides(d, gcd(a, b)) by {
        lemma_gcd_greatest(a, b, d);
    }
}

/// A greatest common divisor is unique: any procedure that finds one,
/// by whatever algorithm, returns exactly the Euclidean gcd.
pub proof fn lemma_greatest_common_divisor_unique(a: nat, b: nat, g: nat)
    requires
        is_greatest_common_divisor(a, b, g),
    ensures
        g == gcd(a, b),
{
    lemma_gcd_divides(a, b);
    lemma_gcd_greatest(a, b, g);
    assert(divides(gcd(a, b), g));
    lemma_divides_antisymmetric(g, gcd(a, b));
}

/// The gcd does not depend on the order of its arguments.
pub proof fn lemma_gcd_commutative(a: nat, b: nat)
    ensures
        gcd(a, b) == gcd(b, a),
{
    lemma_gcd_is_greatest_common_divisor(b, a);
    lemma_greatest_common_divisor_unique(a, b, gcd(b, a));
}

/// Zero is the gcd of zero and zero.
pub proof fn lemma_gcd_zero_zero()
    ensures
        gcd(0, 0) == 0,
{
}

/// Zero is neutral on either side: the gcd of `n` and zero is `n`.
pub proof fn lemma_gcd_zero(n: nat)
    ensures
        gcd(n, 0) == n,
        gcd(0, n) == n,
{
    lemma_gcd_commutative(0, n);
}

/// The gcd of a number with itself is that number.
pub proof fn lemma_gcd_self(a: nat)
    ensures
        gcd(a, a) == a,
{
    if a > 0 {
        assert(a % a == 0) by (nonlinear_arith)
            requires
                a > 0,
        ;
        assert(gcd(a, a) == gcd(a, 0));
    }
}

/// Subtracting the smaller argument from the larger keeps the gcd.
pub proof fn lemma_gcd_subtract(a: nat, b: nat)
    requires
        a <= b,
    ensures
        gcd(a, b) == gcd(a, (b - a) as nat),
{
    let g = gcd(a, (b - a) as nat);
    lemma_gcd_is_greatest_common_divisor(a, (b - a) as nat);
    lemma_divides_sum(g, a, (b - a) as nat);
    assert forall|d: nat| divides(d, a) && divides(d, b) implies #[trigger] divides(d, g) by {
        lemma_divides_difference(d, b, a);
    }
    lemma_greatest_common_divisor_unique(a, b, g);
}

proof fn lemma_odd_divisor_of_double(d: nat, c: nat)
    requires
        d % 2 == 1,
        divides(d, 2 * c),
    ensures
        divides(d, c),
{
    let k = choose|k: nat| #[trigger] (k * d) == 2 * c;
    lemma_fundamental_div_mod(k as int, 2);
    lemma_fundamental_div_mod(d as int, 2);
    if k % 2 == 1 {
        let i = k / 2;
        let j = d / 2;
        assert(k * d == 2 * (2 * i * j + i + j) + 1) by (nonlinear_arith)
            requires
                k == 2 * i + 1,
                d == 2 * j + 1,
        ;
        assert(false);
    }
    lemma_fundamental_div_mod(k as int, 2);
    let h: nat = k / 2;
    assert(h * d == c) by (nonlinear_arith)
        requires
            k == 2 * h,
            k * d == 2 * c,
    ;
    lemma_divides_by_witness(d, c, h);
}

proof fn lemma_odd_divides_odd(d: nat, a: nat)
    requires
        a % 2 == 1,
        divides(d, a),
    ensures
        d % 2 == 1,
{
    let k = choose|k: nat| #[trigger] (k * d) == a;
    if d % 2 == 0 {
        lemma_fundamental_div_mod(d as int, 2);
        let j = d / 2;
        assert(a == 2 * (k * j)) by (nonlinear_arith)
            requires
                d == 2 * j,
                k * d == a,
        ;
        assert(false);
    }
}

/// Halving an even argument keeps the gcd when the other argument is odd.
pub proof fn lemma_gcd_odd_double(a: nat, c: nat)
    requires
        a % 2 == 1,
    ensures
        gcd(a, 2 * c) == gcd(a, c),
{
    let g = gcd(a, c);
    lemma_gcd_is_greatest_common_divisor(a, c);
    lemma_divides_multiple(g, c, 2);
    assert forall|d: nat| divides(d, a) && divides(d, 2 * c) implies #[trigger] divides(d, g) by {
        lemma_odd_divides_odd(d, a);
        lemma_odd_divisor_of_double(d, c);
    }
    lemma_greatest_common_divisor_unique(a, 2 * c, g);
}

/// Removing a power of two from one argument keeps the gcd when the other is odd.
pub proof fn lemma_gcd_odd_pow2(a: nat, c: nat, e: nat)
    requires
        a % 2 == 1,
    ensures
        gcd(a, c * pow2(e)) == gcd(a, c),
    decreases e,
{
    if e == 0 {
        lemma2_to64();
    } else {
        lemma_pow2_unfold(e);
        assert(c * pow2(e) == 2 * (c * pow2((e - 1) as nat))) by (nonlinear_arith)
            requires
                pow2(e) == 2 * pow2((e - 1) as nat),
        ;
        lemma_gcd_odd_double(a, c * pow2((e - 1) as nat));
        lemma_gcd_odd_pow2(a, c, (e - 1) as nat);
    }
}

/// A common factor of both arguments comes out of the gcd.
pub proof fn lemma_gcd_scale(k: nat, a: nat, b: nat)
    ensures
        gcd(k * a, k * b) == k * gcd(a, b),
    decreases b,
{
    if b == 0 {
        assert(k * b == 0) by (nonlinear_arith)
            requires
                b == 0,
        ;
    } else if k == 0 {
        assert(k * a == 0 && k * b == 0 && k * gcd(a, b) == 0) by (nonlinear_arith)
            requires
                k == 0,
        ;
    } else {
        lemma_fundamental_div_mod(a as int, b as int);
        let q = a / b;
        let r = a % b;
        assert(k * a == q * (k * b) + k * r && k * r < k * b && k * b != 0) by (nonlinear_arith)
            requires
                a == b * q + r,
                r < b,
                k > 0,
        ;
        lemma_fundamental_div_mod_converse((k * a) as int, (k * b) as int, q as int, (k * r) as int);
        assert((k * a) % (k * b) == k * r);
        lemma_gcd_scale(k, b, r);
    }
}

} // verus!
