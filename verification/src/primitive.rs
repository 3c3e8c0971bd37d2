//! `2` generates the multiplicative group of GF(256): its powers `2^0 .. 2^254` are distinct.

use vstd::prelude::*;
use crate::galois::{
    gf_div, gf_mul, gf_pow, lemma_div_mul_cancel, lemma_inverse, lemma_mul_associative, lemma_mul_commutative,
    lemma_mul_identity_zero, lemma_pow_255, lemma_pow_add, lemma_pow_mul, lemma_pow_nonzero, lemma_pow_of_one,
};

verus! {

/// Greatest common divisor.
pub open spec fn gcd(a: nat, b: nat) -> nat
    decreases b,
{
    if b == 0 {
        a
    } else {
        gcd(b, a % b)
    }
}

/// `g * k`.
pub open spec fn times(g: nat, k: nat) -> nat {
    g * k
}

/// `g` divides `a`.
pub open spec fn divides(g: nat, a: nat) -> bool {
    exists|k: nat| a == #[trigger] times(g, k)
}

/// The greatest common divisor divides both arguments.
proof fn lemma_gcd_divides(a: nat, b: nat)
    ensures
        divides(gcd(a, b), a),
        divides(gcd(a, b), b),
    decreases b,
{
    if b == 0 {
        assert(a == times(a, 1));
        assert(0 == times(a, 0));
    } else {
        let r = a % b;
        let q = a / b;
        lemma_gcd_divides(b, r);
        let g = gcd(b, r);
        let k1 = choose|k: nat| b == #[trigger] times(g, k);
        let k2 = choose|k: nat| r == #[trigger] times(g, k);
        vstd::arithmetic::div_mod::lemma_fundamental_div_mod(a as int, b as int);
        assert(a == g * (k1 * q + k2)) by (nonlinear_arith)
            requires
                a == b * q + r,
                b == g * k1,
                r == g * k2,
        ;
        assert(a == times(g, (k1 * q + k2) as nat));
    }
}

/// Multiplication by a non-zero element can be cancelled.
proof fn lemma_mul_cancel(x: u8, y: u8, z: u8)
    requires
        x != 0u8,
        gf_mul(x, y) == gf_mul(x, z),
    ensures
        y == z,
{
    lemma_mul_commutative(x, y);
    lemma_mul_commutative(x, z);
    lemma_div_mul_cancel(y, x);
    lemma_div_mul_cancel(z, x);
}

/// If `x^m` and `x^n` are one, so is `x^(m mod n)`.
proof fn lemma_pow_one_mod(x: u8, m: nat, n: nat)
    requires
        n > 0,
        gf_pow(x, m) == 1u8,
        gf_pow(x, n) == 1u8,
    ensures
        gf_pow(x, m % n) == 1u8,
{
    let q = m / n;
    let r = m % n;
    vstd::arithmetic::div_mod::lemma_fundamental_div_mod(m as int, n as int);
    assert(m == n * q + r);
    lemma_pow_add(x, n * q, r);
    lemma_pow_mul(x, n, q);
    lemma_pow_of_one(q);
    lemma_mul_identity_zero(gf_pow(x, r));
}

/// If `x^a` and `x^b` are one, so is `x^gcd(a, b)`.
proof fn lemma_pow_gcd(x: u8, a: nat, b: nat)
    requires
        gf_pow(x, a) == 1u8,
        gf_pow(x, b) == 1u8,
    ensures
        gf_pow(x, gcd(a, b)) == 1u8,
    decreases b,
{
    if b > 0 {
        lemma_pow_one_mod(x, a, b);
        lemma_pow_gcd(x, b, a % b);
    }
}

/// A power of one is one at every multiple of its exponent.
proof fn lemma_pow_one_multiple(x: u8, g: nat, k: nat)
    requires
        gf_pow(x, g) == 1u8,
    ensures
        gf_pow(x, g * k) == 1u8,
{
    lemma_pow_mul(x, g, k);
    lemma_pow_of_one(k);
}

/// No power `2^d` with `0 < d < 255` is one.
pub proof fn lemma_two_has_order_255(d: nat)
    requires
        0 < d < 255,
    ensures
        gf_pow(2u8, d) != 1u8,
{
    if gf_pow(2u8, d) == 1u8 {
        lemma_pow_255(2u8);
        lemma_pow_gcd(2u8, d, 255);
        let g = gcd(d, 255);
        lemma_gcd_divides(d, 255);
        let kd = choose|k: nat| d == #[trigger] times(g, k);
        let m = choose|k: nat| 255 == #[trigger] times(g, k);
        assert(g > 0 && kd >= 1) by {
            assert(d == g * kd);
            if g == 0 {
                assert(d == 0 * kd);
            }
            if kd == 0 {
                assert(d == g * 0);
            }
        }
        assert(g <= d) by (nonlinear_arith)
            requires
                d == g * kd,
                kd >= 1,
        ;
        assert(255 == g * m);
        assert(m >= 2 && m <= 255) by (nonlinear_arith)
            requires
                255 == g * m,
                g >= 1,
                g < 255,
        ;
        let mb = m as u8;
        assert(255u8 % mb == 0) by {
            vstd::arithmetic::div_mod::lemma_mod_multiples_basic(g as int, m as int);
            assert(((g * m) as int) % (m as int) == 0);
        }
        assert(mb % 3 == 0 || mb % 5 == 0 || mb % 17 == 0) by (bit_vector)
            requires
                mb >= 2,
                255u8 % mb == 0,
        ;
        assert(gf_pow(2u8, 85) == 0xd6u8) by (bit_vector);
        assert(gf_pow(2u8, 51) == 0x0au8) by (bit_vector);
        assert(gf_pow(2u8, 15) == 0x26u8) by (bit_vector);
        if mb % 3 == 0 {
            let m3 = (m / 3) as nat;
            assert(g * m3 == 85) by (nonlinear_arith)
                requires
                    255 == g * m,
                    m == 3 * m3,
            ;
            lemma_pow_one_multiple(2u8, g, m3);
        } else if mb % 5 == 0 {
            let m5 = (m / 5) as nat;
            assert(g * m5 == 51) by (nonlinear_arith)
                requires
                    255 == g * m,
                    m == 5 * m5,
            ;
            lemma_pow_one_multiple(2u8, g, m5);
        } else {
            let m17 = (m / 17) as nat;
            assert(g * m17 == 15) by (nonlinear_arith)
                requires
                    255 == g * m,
                    m == 17 * m17,
            ;
            lemma_pow_one_multiple(2u8, g, m17);
        }
    }
}

/// The powers `2^0 .. 2^254` are distinct.
pub proof fn lemma_powers_of_two_distinct(a: nat, b: nat)
    requires
        a < 255,
        b < 255,
        gf_pow(2u8, a) == gf_pow(2u8, b),
    ensures
        a == b,
{
    if a != b {
        let (lo, hi) = if a < b {
            (a, b)
        } else {
            (b, a)
        };
        let d = (hi - lo) as nat;
        lemma_pow_add(2u8, lo, d);
        lemma_pow_nonzero(2u8, lo);
        lemma_mul_identity_zero(gf_pow(2u8, lo));
        assert(gf_mul(gf_pow(2u8, lo), gf_pow(2u8, d)) == gf_mul(gf_pow(2u8, lo), 1u8));
        lemma_mul_cancel(gf_pow(2u8, lo), gf_pow(2u8, d), 1u8);
        lemma_two_has_order_255(d);
    }
}

} // verus!
