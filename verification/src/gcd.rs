//! Greatest common divisors, exact division, and the uniqueness of fractions
//! in lowest terms. This is the arithmetic bedrock for the quantity algebra:
//! it is what makes the reduced numerator/denominator pair a canonical form,
//! so that equal rationals have equal representations.

use vstd::prelude::*;
use vstd::arithmetic::div_mod::{
    lemma_fundamental_div_mod, lemma_fundamental_div_mod_converse, lemma_mod_breakdown,
    lemma_mod_multiples_basic, lemma_mod_self_0, lemma_small_mod,
};

verus! {

/// Greatest common divisor by Euclid's recursion.
pub open spec fn gcd(a: nat, b: nat) -> nat
    decreases b,
{
    if b == 0 {
        a
    } else {
        gcd(b, a % b)
    }
}

/// `d` divides `x` exactly.
pub open spec fn divides(d: nat, x: nat) -> bool {
    d != 0 && x % d == 0
}

/// The gcd of two numbers, not both zero, is positive and divides both.
pub proof fn lemma_gcd_divides(a: nat, b: nat)
    requires
        a > 0 || b > 0,
    ensures
        gcd(a, b) > 0,
        divides(gcd(a, b), a),
        divides(gcd(a, b), b),
    decreases b,
{
    if b == 0 {
        lemma_mod_self_0(a as int);
        lemma_small_mod(0, a);
    } else {
        lemma_gcd_divides(b, a % b);
        let g = gcd(b, a % b);
        lemma_fundamental_div_mod(a as int, b as int);
        lemma_fundamental_div_mod(b as int, g as int);
        lemma_fundamental_div_mod((a % b) as int, g as int);
        let kb = b as int / g as int;
        let kr = (a % b) as int / g as int;
        let q = a as int / b as int;
        assert(a as int == (q * kb + kr) * g as int) by (nonlinear_arith)
            requires
                a as int == b as int * q + (a % b) as int,
                b as int == g as int * kb,
                (a % b) as int == g as int * kr,
        ;
        lemma_mod_multiples_basic(q * kb + kr, g as int);
    }
}

/// Scaling both arguments scales the gcd: `gcd(k*a, k*b) == k * gcd(a, b)`.
pub proof fn lemma_gcd_scale(k: nat, a: nat, b: nat)
    requires
        k > 0,
    ensures
        gcd(k * a, k * b) == k * gcd(a, b),
    decreases b,
{
    if b == 0 {
        assert(k * b == 0);
    } else {
        assert(k * b > 0) by (nonlinear_arith)
            requires
                k > 0,
                b > 0,
        ;
        lemma_mod_breakdown(k as int * a as int, k as int, b as int);
        lemma_mod_multiples_basic(a as int, k as int);
        assert(k as int * a as int == a as int * k as int) by (nonlinear_arith);
        vstd::arithmetic::div_mod::lemma_div_multiples_vanish(a as int, k as int);
        assert((k * a) % (k * b) == k * (a % b)) by {
            assert(k as int * a as int % (k as int * b as int) == k as int * ((k as int * a as int
                / k as int) % b as int) + (k as int * a as int) % k as int);
        }
        lemma_gcd_scale(k, b, a % b);
        assert(gcd(k * a, k * b) == gcd(k * b, (k * a) % (k * b)));
    }
}

/// Dividing out the gcd leaves a coprime pair.
pub proof fn lemma_gcd_reduce_coprime(a: nat, b: nat)
    requires
        a > 0 || b > 0,
    ensures
        gcd(a / gcd(a, b), b / gcd(a, b)) == 1,
{
    let g = gcd(a, b);
    lemma_gcd_divides(a, b);
    lemma_exact_div(a, g);
    lemma_exact_div(b, g);
    lemma_gcd_scale(g, a / g, b / g);
    let c = gcd(a / g, b / g);
    assert(g == g * c);
    assert(c == 1) by (nonlinear_arith)
        requires
            g > 0,
            g == g * c,
    ;
}

/// For an exact division, quotient times divisor gives back the dividend.
pub proof fn lemma_exact_div(x: nat, d: nat)
    requires
        divides(d, x),
    ensures
        d * (x / d) == x,
        x / d <= x,
{
    lemma_fundamental_div_mod(x as int, d as int);
    assert(x / d <= x) by (nonlinear_arith)
        requires
            d >= 1,
            x as int == d as int * (x as int / d as int),
            x as int / d as int >= 0,
    ;
}

/// A fraction in lowest terms is unique: two coprime pairs with positive
/// denominators that stand for the same rational are equal componentwise.
pub proof fn lemma_lowest_terms_unique(n1: nat, d1: nat, n2: nat, d2: nat)
    requires
        d1 > 0,
        d2 > 0,
        gcd(n1, d1) == 1,
        gcd(n2, d2) == 1,
        n1 * d2 == n2 * d1,
    ensures
        n1 == n2,
        d1 == d2,
{
    lemma_gcd_scale(d2, n1, d1);
    lemma_gcd_scale(d1, n2, d2);
    assert(d2 * n1 == n1 * d2 && d2 * d1 == d1 * d2 && d1 * n2 == n2 * d1) by (nonlinear_arith);
    assert(gcd(n1 * d2, d1 * d2) == d2 * 1);
    assert(gcd(n2 * d1, d1 * d2) == d1 * 1);
    assert(d1 == d2);
    assert(n1 == n2) by (nonlinear_arith)
        requires
            n1 * d2 == n2 * d1,
            d1 == d2,
            d2 > 0,
    ;
}

/// Euclid's algorithm, executable. The arguments may be as wide as the
/// products formed by quantity arithmetic, hence 128 bits.
pub fn gcd_u128(a: u128, b: u128) -> (g: u128)
    requires
        a > 0 || b > 0,
    ensures
        g == gcd(a as nat, b as nat),
        g > 0,
{
    let mut x: u128 = a;
    let mut y: u128 = b;
    while y != 0
        invariant
            gcd(x as nat, y as nat) == gcd(a as nat, b as nat),
            x > 0 || y > 0,
        decreases y,
    {
        let r = x % y;
        x = y;
        y = r;
    }
    proof {
        lemma_gcd_divides(a as nat, b as nat);
    }
    x
}

} // verus!
