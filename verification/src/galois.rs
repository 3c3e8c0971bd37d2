//! The mathematics of GF(2^8) with reduction polynomial x^8 + x^4 + x^3 + x^2 + 1 (0x11D):
//! multiplication as a spec function and the field laws it obeys.

use vstd::prelude::*;

verus! {

/// Multiplication by x, reduced by 0x11D.
pub open spec fn xtime(a: u8) -> u8 {
    if a & 0x80u8 != 0u8 {
        ((a << 1u8) ^ 0x1du8) as u8
    } else {
        (a << 1u8) as u8
    }
}

/// `m` if bit `k` of `b` is set, else zero.
pub open spec fn pick(b: u8, bit: u8, m: u8) -> u8 {
    if b & bit != 0u8 {
        m
    } else {
        0u8
    }
}

/// XOR of the multiples `a0 .. a7` selected by the bits of `b`.
pub open spec fn select_sum(b: u8, a0: u8, a1: u8, a2: u8, a3: u8, a4: u8, a5: u8, a6: u8, a7: u8) -> u8 {
    (pick(b, 1u8, a0) ^ pick(b, 2u8, a1) ^ pick(b, 4u8, a2) ^ pick(b, 8u8, a3) ^ pick(b, 16u8, a4)
        ^ pick(b, 32u8, a5) ^ pick(b, 64u8, a6) ^ pick(b, 128u8, a7)) as u8
}

/// Carry-less product of `a` and `b` reduced modulo 0x11D.
pub open spec fn gf_mul(a: u8, b: u8) -> u8 {
    let a1 = xtime(a);
    let a2 = xtime(a1);
    let a3 = xtime(a2);
    let a4 = xtime(a3);
    let a5 = xtime(a4);
    let a6 = xtime(a5);
    let a7 = xtime(a6);
    select_sum(b, a, a1, a2, a3, a4, a5, a6, a7)
}

proof fn lemma_xtime_linear(a: u8, c: u8)
    ensures
        xtime(a ^ c) == xtime(a) ^ xtime(c),
{
    assert(xtime(a ^ c) == xtime(a) ^ xtime(c)) by (bit_vector);
}

proof fn lemma_select_sum_linear(
    b: u8,
    a0: u8, a1: u8, a2: u8, a3: u8, a4: u8, a5: u8, a6: u8, a7: u8,
    c0: u8, c1: u8, c2: u8, c3: u8, c4: u8, c5: u8, c6: u8, c7: u8,
)
    ensures
        select_sum(b, a0 ^ c0, a1 ^ c1, a2 ^ c2, a3 ^ c3, a4 ^ c4, a5 ^ c5, a6 ^ c6, a7 ^ c7)
            == select_sum(b, a0, a1, a2, a3, a4, a5, a6, a7) ^ select_sum(b, c0, c1, c2, c3, c4, c5, c6, c7),
{
    assert(select_sum(b, a0 ^ c0, a1 ^ c1, a2 ^ c2, a3 ^ c3, a4 ^ c4, a5 ^ c5, a6 ^ c6, a7 ^ c7)
        == select_sum(b, a0, a1, a2, a3, a4, a5, a6, a7) ^ select_sum(b, c0, c1, c2, c3, c4, c5, c6, c7))
        by (bit_vector);
}

/// Multiplication distributes over addition in its first argument.
pub proof fn lemma_mul_linear_left(a: u8, c: u8, b: u8)
    ensures
        gf_mul(a ^ c, b) == gf_mul(a, b) ^ gf_mul(c, b),
{
    let a1 = xtime(a);
    let a2 = xtime(a1);
    let a3 = xtime(a2);
    let a4 = xtime(a3);
    let a5 = xtime(a4);
    let a6 = xtime(a5);
    let c1 = xtime(c);
    let c2 = xtime(c1);
    let c3 = xtime(c2);
    let c4 = xtime(c3);
    let c5 = xtime(c4);
    let c6 = xtime(c5);
    lemma_xtime_linear(a, c);
    lemma_xtime_linear(a1, c1);
    lemma_xtime_linear(a2, c2);
    lemma_xtime_linear(a3, c3);
    lemma_xtime_linear(a4, c4);
    lemma_xtime_linear(a5, c5);
    lemma_xtime_linear(a6, c6);
    lemma_select_sum_linear(b, a, a1, a2, a3, a4, a5, a6, xtime(a6), c, c1, c2, c3, c4, c5, c6, xtime(c6));
}

/// Multiplication distributes over addition in its second argument.
pub proof fn lemma_mul_linear_right(a: u8, b: u8, c: u8)
    ensures
        gf_mul(a, b ^ c) == gf_mul(a, b) ^ gf_mul(a, c),
{
    let a1 = xtime(a);
    let a2 = xtime(a1);
    let a3 = xtime(a2);
    let a4 = xtime(a3);
    let a5 = xtime(a4);
    let a6 = xtime(a5);
    let a7 = xtime(a6);
    assert(select_sum(b ^ c, a, a1, a2, a3, a4, a5, a6, a7) == select_sum(b, a, a1, a2, a3, a4, a5, a6, a7)
        ^ select_sum(c, a, a1, a2, a3, a4, a5, a6, a7)) by (bit_vector);
}


/// Every byte is the sum of its low and high nibbles.
proof fn lemma_nibble_split(a: u8)
    ensures
        a == (a & 0x0fu8) ^ (a & 0xf0u8),
        (a & 0x0fu8) & 0xf0u8 == 0u8,
        (a & 0xf0u8) & 0x0fu8 == 0u8,
{
    assert(a == (a & 0x0fu8) ^ (a & 0xf0u8)) by (bit_vector);
    assert((a & 0x0fu8) & 0xf0u8 == 0u8) by (bit_vector);
    assert((a & 0xf0u8) & 0x0fu8 == 0u8) by (bit_vector);
}

proof fn lemma_xor_swap4(w: u8, x: u8, y: u8, z: u8)
    ensures
        (w ^ x) ^ (y ^ z) == (w ^ y) ^ (x ^ z),
{
    assert((w ^ x) ^ (y ^ z) == (w ^ y) ^ (x ^ z)) by (bit_vector);
}

proof fn lemma_xor_swap8(x1: u8, x2: u8, x3: u8, x4: u8, y1: u8, y2: u8, y3: u8, y4: u8)
    ensures
        ((x1 ^ x2) ^ (x3 ^ x4)) ^ ((y1 ^ y2) ^ (y3 ^ y4)) == ((x1 ^ y1) ^ (x2 ^ y2)) ^ ((x3 ^ y3) ^ (x4 ^ y4)),
{
    assert(((x1 ^ x2) ^ (x3 ^ x4)) ^ ((y1 ^ y2) ^ (y3 ^ y4)) == ((x1 ^ y1) ^ (x2 ^ y2)) ^ ((x3 ^ y3) ^ (x4
        ^ y4))) by (bit_vector);
}

proof fn lemma_commutative_ll(a: u8, b: u8)
    requires
        a & 0xf0u8 == 0u8,
        b & 0xf0u8 == 0u8,
    ensures
        gf_mul(a, b) == gf_mul(b, a),
{
    assert(gf_mul(a, b) == gf_mul(b, a)) by (bit_vector)
        requires
            a & 0xf0u8 == 0u8,
            b & 0xf0u8 == 0u8,
    ;
}

proof fn lemma_commutative_lh(a: u8, b: u8)
    requires
        a & 0xf0u8 == 0u8,
        b & 0x0fu8 == 0u8,
    ensures
        gf_mul(a, b) == gf_mul(b, a),
{
    assert(gf_mul(a, b) == gf_mul(b, a)) by (bit_vector)
        requires
            a & 0xf0u8 == 0u8,
            b & 0x0fu8 == 0u8,
    ;
}

proof fn lemma_commutative_hh(a: u8, b: u8)
    requires
        a & 0x0fu8 == 0u8,
        b & 0x0fu8 == 0u8,
    ensures
        gf_mul(a, b) == gf_mul(b, a),
{
    assert(gf_mul(a, b) == gf_mul(b, a)) by (bit_vector)
        requires
            a & 0x0fu8 == 0u8,
            b & 0x0fu8 == 0u8,
    ;
}

proof fn lemma_associative_lll(a: u8, b: u8, c: u8, ab: u8, bc: u8)
    requires
        a & 0xf0u8 == 0u8,
        b & 0xf0u8 == 0u8,
        c & 0xf0u8 == 0u8,
        ab == gf_mul(a, b),
        bc == gf_mul(b, c),
    ensures
        gf_mul(a, bc) == gf_mul(ab, c),
{
    assert(gf_mul(a, bc) == gf_mul(ab, c)) by (bit_vector)
        requires
            a & 0xf0u8 == 0u8,
            b & 0xf0u8 == 0u8,
            c & 0xf0u8 == 0u8,
            ab == gf_mul(a, b),
            bc == gf_mul(b, c),
    ;
}

proof fn lemma_associative_llh(a: u8, b: u8, c: u8, ab: u8, bc: u8)
    requires
        a & 0xf0u8 == 0u8,
        b & 0xf0u8 == 0u8,
        c & 0x0fu8 == 0u8,
        ab == gf_mul(a, b),
        bc == gf_mul(b, c),
    ensures
        gf_mul(a, bc) == gf_mul(ab, c),
{
    assert(gf_mul(a, bc) == gf_mul(ab, c)) by (bit_vector)
        requires
            a & 0xf0u8 == 0u8,
            b & 0xf0u8 == 0u8,
            c & 0x0fu8 == 0u8,
            ab == gf_mul(a, b),
            bc == gf_mul(b, c),
    ;
}

proof fn lemma_associative_lhl(a: u8, b: u8, c: u8, ab: u8, bc: u8)
    requires
        a & 0xf0u8 == 0u8,
        b & 0x0fu8 == 0u8,
        c & 0xf0u8 == 0u8,
        ab == gf_mul(a, b),
        bc == gf_mul(b, c),
    ensures
        gf_mul(a, bc) == gf_mul(ab, c),
{
    assert(gf_mul(a, bc) == gf_mul(ab, c)) by (bit_vector)
        requires
            a & 0xf0u8 == 0u8,
            b & 0x0fu8 == 0u8,
            c & 0xf0u8 == 0u8,
            ab == gf_mul(a, b),
            bc == gf_mul(b, c),
    ;
}

proof fn lemma_associative_lhh(a: u8, b: u8, c: u8, ab: u8, bc: u8)
    requires
        a & 0xf0u8 == 0u8,
        b & 0x0fu8 == 0u8,
        c & 0x0fu8 == 0u8,
        ab == gf_mul(a, b),
        bc == gf_mul(b, c),
    ensures
        gf_mul(a, bc) == gf_mul(ab, c),
{
    assert(gf_mul(a, bc) == gf_mul(ab, c)) by (bit_vector)
        requires
            a & 0xf0u8 == 0u8,
            b & 0x0fu8 == 0u8,
            c & 0x0fu8 == 0u8,
            ab == gf_mul(a, b),
            bc == gf_mul(b, c),
    ;
}

proof fn lemma_associative_hll(a: u8, b: u8, c: u8, ab: u8, bc: u8)
    requires
        a & 0x0fu8 == 0u8,
        b & 0xf0u8 == 0u8,
        c & 0xf0u8 == 0u8,
        ab == gf_mul(a, b),
        bc == gf_mul(b, c),
    ensures
        gf_mul(a, bc) == gf_mul(ab, c),
{
    assert(gf_mul(a, bc) == gf_mul(ab, c)) by (bit_vector)
        requires
            a & 0x0fu8 == 0u8,
            b & 0xf0u8 == 0u8,
            c & 0xf0u8 == 0u8,
            ab == gf_mul(a, b),
            bc == gf_mul(b, c),
    ;
}

proof fn lemma_associative_hlh(a: u8, b: u8, c: u8, ab: u8, bc: u8)
    requires
        a & 0x0fu8 == 0u8,
        b & 0xf0u8 == 0u8,
        c & 0x0fu8 == 0u8,
        ab == gf_mul(a, b),
        bc == gf_mul(b, c),
    ensures
        gf_mul(a, bc) == gf_mul(ab, c),
{
    assert(gf_mul(a, bc) == gf_mul(ab, c)) by (bit_vector)
        requires
            a & 0x0fu8 == 0u8,
            b & 0xf0u8 == 0u8,
            c & 0x0fu8 == 0u8,
            ab == gf_mul(a, b),
            bc == gf_mul(b, c),
    ;
}

proof fn lemma_associative_hhl(a: u8, b: u8, c: u8, ab: u8, bc: u8)
    requires
        a & 0x0fu8 == 0u8,
        b & 0x0fu8 == 0u8,
        c & 0xf0u8 == 0u8,
        ab == gf_mul(a, b),
        bc == gf_mul(b, c),
    ensures
        gf_mul(a, bc) == gf_mul(ab, c),
{
    assert(gf_mul(a, bc) == gf_mul(ab, c)) by (bit_vector)
        requires
            a & 0x0fu8 == 0u8,
            b & 0x0fu8 == 0u8,
            c & 0xf0u8 == 0u8,
            ab == gf_mul(a, b),
            bc == gf_mul(b, c),
    ;
}

proof fn lemma_associative_hhh(a: u8, b: u8, c: u8, ab: u8, bc: u8)
    requires
        a & 0x0fu8 == 0u8,
        b & 0x0fu8 == 0u8,
        c & 0x0fu8 == 0u8,
        ab == gf_mul(a, b),
        bc == gf_mul(b, c),
    ensures
        gf_mul(a, bc) == gf_mul(ab, c),
{
    assert(gf_mul(a, bc) == gf_mul(ab, c)) by (bit_vector)
        requires
            a & 0x0fu8 == 0u8,
            b & 0x0fu8 == 0u8,
            c & 0x0fu8 == 0u8,
            ab == gf_mul(a, b),
            bc == gf_mul(b, c),
    ;
}

/// Multiplication is commutative.
pub proof fn lemma_mul_commutative(a: u8, b: u8)
    ensures
        gf_mul(a, b) == gf_mul(b, a),
{
    let al = a & 0x0fu8;
    let ah = a & 0xf0u8;
    let bl = b & 0x0fu8;
    let bh = b & 0xf0u8;
    lemma_nibble_split(a);
    lemma_nibble_split(b);
    lemma_mul_linear_right(a, bl, bh);
    lemma_mul_linear_left(al, ah, bl);
    lemma_mul_linear_left(al, ah, bh);
    lemma_mul_linear_right(b, al, ah);
    lemma_mul_linear_left(bl, bh, al);
    lemma_mul_linear_left(bl, bh, ah);
    lemma_commutative_ll(al, bl);
    lemma_commutative_lh(al, bh);
    lemma_commutative_lh(bl, ah);
    lemma_commutative_hh(ah, bh);
    lemma_xor_swap4(gf_mul(al, bl), gf_mul(ah, bl), gf_mul(al, bh), gf_mul(ah, bh));
}

/// Multiplication is associative.
pub proof fn lemma_mul_associative(a: u8, b: u8, c: u8)
    ensures
        gf_mul(a, gf_mul(b, c)) == gf_mul(gf_mul(a, b), c),
{
    let al = a & 0x0fu8;
    let ah = a & 0xf0u8;
    let bl = b & 0x0fu8;
    let bh = b & 0xf0u8;
    let cl = c & 0x0fu8;
    let ch = c & 0xf0u8;
    lemma_nibble_split(a);
    lemma_nibble_split(b);
    lemma_nibble_split(c);
    let p1 = gf_mul(bl, cl);
    let p2 = gf_mul(bh, cl);
    let p3 = gf_mul(bl, ch);
    let p4 = gf_mul(bh, ch);
    let q1 = gf_mul(al, bl);
    let q2 = gf_mul(ah, bl);
    let q3 = gf_mul(al, bh);
    let q4 = gf_mul(ah, bh);
    // gf_mul(b, c) == (p1 ^ p2) ^ (p3 ^ p4)
    lemma_mul_linear_right(b, cl, ch);
    lemma_mul_linear_left(bl, bh, cl);
    lemma_mul_linear_left(bl, bh, ch);
    // gf_mul(a, b) == (q1 ^ q2) ^ (q3 ^ q4)
    lemma_mul_linear_right(a, bl, bh);
    lemma_mul_linear_left(al, ah, bl);
    lemma_mul_linear_left(al, ah, bh);
    // expand the left-hand side
    lemma_mul_linear_right(a, p1 ^ p2, p3 ^ p4);
    lemma_mul_linear_right(a, p1, p2);
    lemma_mul_linear_right(a, p3, p4);
    lemma_mul_linear_left(al, ah, p1);
    lemma_mul_linear_left(al, ah, p2);
    lemma_mul_linear_left(al, ah, p3);
    lemma_mul_linear_left(al, ah, p4);
    // expand the right-hand side
    lemma_mul_linear_left(q1 ^ q2, q3 ^ q4, c);
    lemma_mul_linear_left(q1, q2, c);
    lemma_mul_linear_left(q3, q4, c);
    lemma_mul_linear_right(q1, cl, ch);
    lemma_mul_linear_right(q2, cl, ch);
    lemma_mul_linear_right(q3, cl, ch);
    lemma_mul_linear_right(q4, cl, ch);
    // the nibble products agree term by term
    lemma_associative_lll(al, bl, cl, q1, p1);
    lemma_associative_hll(ah, bl, cl, q2, p1);
    lemma_associative_lhl(al, bh, cl, q3, p2);
    lemma_associative_hhl(ah, bh, cl, q4, p2);
    lemma_associative_llh(al, bl, ch, q1, p3);
    lemma_associative_hlh(ah, bl, ch, q2, p3);
    lemma_associative_lhh(al, bh, ch, q3, p4);
    lemma_associative_hhh(ah, bh, ch, q4, p4);
    lemma_xor_swap8(
        gf_mul(q1, cl), gf_mul(q2, cl), gf_mul(q3, cl), gf_mul(q4, cl),
        gf_mul(q1, ch), gf_mul(q2, ch), gf_mul(q3, ch), gf_mul(q4, ch),
    );
}

/// One is the multiplicative identity and zero annihilates.
pub proof fn lemma_mul_identity_zero(a: u8)
    ensures
        gf_mul(a, 1u8) == a,
        gf_mul(1u8, a) == a,
        gf_mul(a, 0u8) == 0u8,
        gf_mul(0u8, a) == 0u8,
{
    assert(gf_mul(a, 1u8) == a) by (bit_vector);
    assert(gf_mul(a, 0u8) == 0u8) by (bit_vector);
    lemma_mul_commutative(a, 1u8);
    lemma_mul_commutative(a, 0u8);
}

/// `a` raised to the `n`-th power.
pub open spec fn gf_pow(a: u8, n: nat) -> u8
    decreases n,
{
    if n == 0 {
        1u8
    } else {
        gf_mul(a, gf_pow(a, (n - 1) as nat))
    }
}

/// The multiplicative inverse of a non-zero element: `a^254`.
pub open spec fn gf_inv(a: u8) -> u8 {
    gf_pow(a, 254)
}

/// Division: multiplication by the inverse.
pub open spec fn gf_div(a: u8, b: u8) -> u8 {
    gf_mul(a, gf_inv(b))
}

/// Exponents add under multiplication.
pub proof fn lemma_pow_add(a: u8, m: nat, n: nat)
    ensures
        gf_pow(a, m + n) == gf_mul(gf_pow(a, m), gf_pow(a, n)),
    decreases m,
{
    if m == 0 {
        lemma_mul_identity_zero(gf_pow(a, n));
    } else {
        let m1 = (m - 1) as nat;
        lemma_pow_add(a, m1, n);
        assert(gf_pow(a, m + n) == gf_mul(a, gf_pow(a, m1 + n)));
        lemma_mul_associative(a, gf_pow(a, m1), gf_pow(a, n));
    }
}

/// Powers of one are one.
pub proof fn lemma_pow_of_one(n: nat)
    ensures
        gf_pow(1u8, n) == 1u8,
    decreases n,
{
    if n > 0 {
        lemma_pow_of_one((n - 1) as nat);
        lemma_mul_identity_zero(1u8);
    }
}

/// Positive powers of zero are zero.
pub proof fn lemma_pow_of_zero(n: nat)
    requires
        n > 0,
    ensures
        gf_pow(0u8, n) == 0u8,
{
    lemma_mul_identity_zero(gf_pow(0u8, (n - 1) as nat));
}

/// Squaring the base halves the exponent.
pub proof fn lemma_pow_square(a: u8, k: nat)
    ensures
        gf_pow(a, 2 * k) == gf_pow(gf_mul(a, a), k),
    decreases k,
{
    if k > 0 {
        let k1 = (k - 1) as nat;
        lemma_pow_square(a, k1);
        lemma_pow_add(a, 2, 2 * k1);
        assert(2 * k == 2 + 2 * k1);
        reveal_with_fuel(gf_pow, 3);
        assert(gf_pow(a, 2) == gf_mul(a, gf_mul(a, 1u8)));
        lemma_mul_identity_zero(a);
    }
}

/// Exponents multiply under repeated powering.
pub proof fn lemma_pow_mul(a: u8, m: nat, n: nat)
    ensures
        gf_pow(a, m * n) == gf_pow(gf_pow(a, m), n),
    decreases n,
{
    if n == 0 {
        assert(m * 0 == 0) by (nonlinear_arith);
    } else {
        let n1 = (n - 1) as nat;
        lemma_pow_mul(a, m, n1);
        assert(m * n == m + m * n1) by (nonlinear_arith)
            requires
                n1 + 1 == n,
        ;
        lemma_pow_add(a, m, m * n1);
    }
}

proof fn lemma_fermat_chain(
    a: u8,
    s1: u8, s2: u8, s3: u8, s4: u8, s5: u8, s6: u8, s7: u8,
    p1: u8, p2: u8, p3: u8, p4: u8, p5: u8, p6: u8, p7: u8,
)
    requires
        a != 0u8,
        s1 == gf_mul(a, a),
        s2 == gf_mul(s1, s1),
        s3 == gf_mul(s2, s2),
        s4 == gf_mul(s3, s3),
        s5 == gf_mul(s4, s4),
        s6 == gf_mul(s5, s5),
        s7 == gf_mul(s6, s6),
        p1 == gf_mul(a, s1),
        p2 == gf_mul(p1, s2),
        p3 == gf_mul(p2, s3),
        p4 == gf_mul(p3, s4),
        p5 == gf_mul(p4, s5),
        p6 == gf_mul(p5, s6),
        p7 == gf_mul(p6, s7),
    ensures
        p7 == 1u8,
{
    assert(p7 == 1u8) by (bit_vector)
        requires
            a != 0u8,
            s1 == gf_mul(a, a),
            s2 == gf_mul(s1, s1),
            s3 == gf_mul(s2, s2),
            s4 == gf_mul(s3, s3),
            s5 == gf_mul(s4, s4),
            s6 == gf_mul(s5, s5),
            s7 == gf_mul(s6, s6),
            p1 == gf_mul(a, s1),
            p2 == gf_mul(p1, s2),
            p3 == gf_mul(p2, s3),
            p4 == gf_mul(p3, s4),
            p5 == gf_mul(p4, s5),
            p6 == gf_mul(p5, s6),
            p7 == gf_mul(p6, s7),
    ;
}

/// The multiplicative group has order 255: every non-zero element satisfies `a^255 == 1`.
pub proof fn lemma_pow_255(a: u8)
    requires
        a != 0u8,
    ensures
        gf_pow(a, 255) == 1u8,
{
    lemma_mul_identity_zero(a);
    reveal_with_fuel(gf_pow, 2);
    assert(gf_pow(a, 1) == a);
    lemma_pow_add(a, 1, 1);
    lemma_pow_add(a, 2, 2);
    lemma_pow_add(a, 4, 4);
    lemma_pow_add(a, 8, 8);
    lemma_pow_add(a, 16, 16);
    lemma_pow_add(a, 32, 32);
    lemma_pow_add(a, 64, 64);
    lemma_pow_add(a, 1, 2);
    lemma_pow_add(a, 3, 4);
    lemma_pow_add(a, 7, 8);
    lemma_pow_add(a, 15, 16);
    lemma_pow_add(a, 31, 32);
    lemma_pow_add(a, 63, 64);
    lemma_pow_add(a, 127, 128);
    lemma_fermat_chain(
        a,
        gf_pow(a, 2), gf_pow(a, 4), gf_pow(a, 8), gf_pow(a, 16), gf_pow(a, 32), gf_pow(a, 64), gf_pow(a, 128),
        gf_pow(a, 3), gf_pow(a, 7), gf_pow(a, 15), gf_pow(a, 31), gf_pow(a, 63), gf_pow(a, 127), gf_pow(a, 255),
    );
}

/// A non-zero element times its inverse is one.
pub proof fn lemma_inverse(a: u8)
    requires
        a != 0u8,
    ensures
        gf_mul(a, gf_inv(a)) == 1u8,
        gf_mul(gf_inv(a), a) == 1u8,
        gf_inv(a) != 0u8,
{
    lemma_pow_255(a);
    assert(gf_pow(a, 255) == gf_mul(a, gf_pow(a, 254)));
    lemma_mul_commutative(a, gf_inv(a));
    if gf_inv(a) == 0u8 {
        lemma_mul_identity_zero(a);
    }
}

/// Dividing a product by a non-zero factor gives back the other factor.
pub proof fn lemma_div_mul_cancel(a: u8, b: u8)
    requires
        b != 0u8,
    ensures
        gf_mul(gf_div(a, b), b) == a,
        gf_div(gf_mul(a, b), b) == a,
{
    lemma_inverse(b);
    lemma_mul_associative(a, gf_inv(b), b);
    lemma_mul_associative(a, b, gf_inv(b));
    lemma_mul_identity_zero(a);
}

/// A product is zero only when a factor is zero.
pub proof fn lemma_no_zero_divisors(a: u8, b: u8)
    requires
        a != 0u8,
        b != 0u8,
    ensures
        gf_mul(a, b) != 0u8,
{
    if gf_mul(a, b) == 0u8 {
        lemma_div_mul_cancel(a, b);
        lemma_mul_identity_zero(gf_inv(b));
        lemma_mul_commutative(0u8, gf_inv(b));
    }
}

/// Addition (exclusive or) forms a commutative group with identity zero in which every element is its own inverse.
pub proof fn lemma_xor_facts(x: u8, y: u8, z: u8)
    ensures
        x ^ 0u8 == x,
        0u8 ^ x == x,
        x ^ x == 0u8,
        x ^ y == y ^ x,
        (x ^ y) ^ z == x ^ (y ^ z),
{
    assert(x ^ 0u8 == x) by (bit_vector);
    assert(0u8 ^ x == x) by (bit_vector);
    assert(x ^ x == 0u8) by (bit_vector);
    assert(x ^ y == y ^ x) by (bit_vector);
    assert((x ^ y) ^ z == x ^ (y ^ z)) by (bit_vector);
}

/// Addition can be cancelled.
pub proof fn lemma_xor_cancel(x: u8, y: u8, z: u8)
    ensures
        (x ^ y == x ^ z) ==> y == z,
        (x ^ y == 0u8) ==> x == y,
{
    assert((x ^ y == x ^ z) ==> y == z) by (bit_vector);
    assert((x ^ y == 0u8) ==> x == y) by (bit_vector);
}

/// Powers of a non-zero element are non-zero.
pub proof fn lemma_pow_nonzero(a: u8, n: nat)
    requires
        a != 0u8,
    ensures
        gf_pow(a, n) != 0u8,
    decreases n,
{
    if n > 0 {
        lemma_pow_nonzero(a, (n - 1) as nat);
        lemma_no_zero_divisors(a, gf_pow(a, (n - 1) as nat));
    }
}
} // verus!
