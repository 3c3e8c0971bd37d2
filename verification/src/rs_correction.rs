//! What the Reed-Solomon decoder repairs: a single corrupted symbol of a codeword is located by
//! Berlekamp-Massey and the Chien search, valued by Forney's formula, and removed.

use vstd::prelude::*;
use crate::galois::{
    gf_div, gf_inv, gf_mul, gf_pow, lemma_div_mul_cancel, lemma_inverse, lemma_mul_associative,
    lemma_mul_commutative, lemma_mul_identity_zero, lemma_mul_linear_left, lemma_no_zero_divisors,
    lemma_pow_nonzero, lemma_xor_facts,
};
use crate::gf256::{
    conv_partial, conv_term, lemma_conv_partial_upto, lemma_eval_leading_zeros, poly_eval, poly_product, zero_poly,
    GF256,
};
use crate::primitive::lemma_powers_of_two_distinct;
use crate::reed_solomon::{
    alpha_at, bm_adjust, bm_discrepancy, bm_run, bm_start, bm_step, chien_positions, error_evaluator, error_locator,
    eval_low_first, forney_corrections, forney_magnitude, locator_derivative, position_root, BmState,
};
use crate::rs_laws::{lemma_eval_linear, lemma_rs_codeword_roots};
use crate::reed_solomon::{alpha_pow, apply_corrections, rs_decoded, rs_parity, rs_syndromes};
use crate::gf256::{lemma_eval_xor, poly_xor};
use crate::symbols::{all_zero, bytes_to_field, field_to_bytes};

verus! {

/// Syndromes `e * X^i` of a single error of value `e` with locator `X`.
pub open spec fn single_error_syndromes(e: u8, x: u8, p: nat) -> Seq<GF256> {
    Seq::new(p, |i: int| GF256(gf_mul(e, gf_pow(x, i as nat))))
}

/// `X * (e * X^(n-1)) == e * X^n`.
proof fn lemma_shift_power(e: u8, x: u8, n: nat)
    requires
        n >= 1,
    ensures
        gf_mul(x, gf_mul(e, gf_pow(x, (n - 1) as nat))) == gf_mul(e, gf_pow(x, n)),
{
    let q = gf_pow(x, (n - 1) as nat);
    lemma_mul_associative(x, e, q);
    lemma_mul_commutative(x, e);
    lemma_mul_associative(e, x, q);
}

/// The first Berlekamp-Massey step on a single error's syndromes.
proof fn lemma_bm_first(e: u8, x: u8, p: nat)
    requires
        e != 0u8,
        p >= 2,
    ensures
        bm_run(single_error_syndromes(e, x, p), 1) == (seq![GF256(1u8), GF256(e)], seq![GF256(1u8)], 1nat, 1nat, e),
{
    let s = single_error_syndromes(e, x, p);
    reveal_with_fuel(bm_run, 2);
    lemma_mul_identity_zero(e);
    assert(gf_pow(x, 0) == 1u8);
    assert(s[0].0 == e);
    let st0 = bm_start();
    let d0 = bm_discrepancy(st0.0, s, 0, 1);
    reveal_with_fuel(bm_discrepancy, 3);
    lemma_mul_identity_zero(s[0].0);
    lemma_xor_facts(e, 0u8, 0u8);
    assert(d0 == e);
    crate::galois::lemma_pow_of_one(254);
    assert(gf_inv(1u8) == 1u8);
    assert(gf_mul(d0, gf_inv(1u8)) == e);
    let c1 = bm_adjust(st0.0, st0.1, 1, e);
    assert(c1 =~= seq![GF256(1u8), GF256(e)]) by {
        lemma_xor_facts(1u8, 0u8, 0u8);
        lemma_xor_facts(e, 0u8, 0u8);
        lemma_mul_identity_zero(e);
    }
}

/// `(e x + e e) / e == x + e`, zero only when `x == e`.
proof fn lemma_second_coeff(e: u8, x: u8)
    requires
        e != 0u8,
    ensures
        gf_mul(gf_mul(e, x) ^ gf_mul(e, e), gf_inv(e)) == x ^ e,
        gf_mul(e, x) ^ gf_mul(e, e) == 0u8 ==> x == e,
{
    let ex = gf_mul(e, x);
    let ee = gf_mul(e, e);
    lemma_inverse(e);
    lemma_mul_linear_left(ex, ee, gf_inv(e));
    lemma_mul_commutative(e, x);
    lemma_mul_associative(x, e, gf_inv(e));
    lemma_mul_associative(e, e, gf_inv(e));
    lemma_mul_identity_zero(x);
    lemma_mul_identity_zero(e);
    assert(gf_mul(ex, gf_inv(e)) == x);
    assert(gf_mul(ee, gf_inv(e)) == e);
    if ex ^ ee == 0u8 {
        crate::galois::lemma_xor_cancel(ex, ee, 0u8);
    }
}

/// The second Berlekamp-Massey step replaces the trial locator by `1 + X x`.
proof fn lemma_bm_second(e: u8, x: u8, p: nat)
    requires
        e != 0u8,
        x != 0u8,
        p >= 2,
    ensures
        bm_run(single_error_syndromes(e, x, p), 2) == (seq![GF256(1u8), GF256(x)], seq![GF256(1u8)], 1nat, 2nat, e),
{
    let s = single_error_syndromes(e, x, p);
    lemma_bm_first(e, x, p);
    let st1: BmState = (seq![GF256(1u8), GF256(e)], seq![GF256(1u8)], 1nat, 1nat, e);
    assert(bm_run(s, 2) == bm_step(st1, s, 1)) by {
        reveal(bm_run);
    }
    lemma_mul_identity_zero(e);
    lemma_mul_identity_zero(x);
    assert(gf_pow(x, 0) == 1u8);
    assert(gf_pow(x, 1) == gf_mul(x, 1u8));
    let ex = gf_mul(e, x);
    let ee = gf_mul(e, e);
    assert(s[0].0 == e);
    assert(s[1].0 == ex);
    let d1 = bm_discrepancy(st1.0, s, 1, 2);
    reveal_with_fuel(bm_discrepancy, 3);
    lemma_mul_identity_zero(ex);
    lemma_xor_facts(ex, 0u8, 0u8);
    assert(d1 == ex ^ ee);
    lemma_second_coeff(e, x);
    if d1 == 0u8 {
        assert(x == e);
    } else {
        let coeff = gf_mul(d1, gf_inv(e));
        assert(coeff == x ^ e);
        let c2 = bm_adjust(st1.0, st1.1, 1, coeff);
        lemma_mul_identity_zero(coeff);
        assert(e ^ (x ^ e) == x) by (bit_vector);
        lemma_xor_facts(1u8, 0u8, 0u8);
        assert(c2 =~= seq![GF256(1u8), GF256(x)]);
    }
}

/// Berlekamp-Massey on the syndromes of a single error settles after two steps on the locator
/// `1 + X x` and keeps it.
proof fn lemma_bm_single(e: u8, x: u8, p: nat, n: nat)
    requires
        e != 0u8,
        x != 0u8,
        2 <= n <= p,
    ensures
        bm_run(single_error_syndromes(e, x, p), n) == (seq![GF256(1u8), GF256(x)], seq![GF256(1u8)], 1nat, n, e),
    decreases n,
{
    let s = single_error_syndromes(e, x, p);
    if n == 2 {
        lemma_bm_second(e, x, p);
    } else {
        lemma_bm_single(e, x, p, (n - 1) as nat);
        let c = seq![GF256(1u8), GF256(x)];
        let m = (n - 1) as nat;
        assert(bm_run(s, n) == bm_step(bm_run(s, m), s, m)) by {
            reveal(bm_run);
        }
        let d = bm_discrepancy(c, s, m as int, 2);
        reveal_with_fuel(bm_discrepancy, 3);
        lemma_mul_identity_zero(s[m as int].0);
        lemma_shift_power(e, x, m);
        let v = gf_mul(e, gf_pow(x, m));
        lemma_xor_facts(v, 0u8, 0u8);
        lemma_xor_facts(v, v, 0u8);
        assert(d == 0u8);
    }
}

/// The locator found for a single error with at least two syndromes is `1 + X x`.
pub proof fn lemma_single_error_locator(e: u8, x: u8, p: nat)
    requires
        e != 0u8,
        x != 0u8,
        p >= 2,
    ensures
        error_locator(single_error_syndromes(e, x, p)) == seq![GF256(1u8), GF256(x)],
{
    lemma_bm_single(e, x, p, p);
}

/// Terms of `a` more than `b.len() - 1` places below `k` do not reach coefficient `k`.
proof fn lemma_conv_far(a: Seq<GF256>, b: Seq<GF256>, m: nat, k: int)
    requires
        m + b.len() <= k + 1,
    ensures
        conv_partial(a, b, m, k) == 0u8,
    decreases m,
{
    if m > 0 {
        lemma_conv_far(a, b, (m - 1) as nat, k);
        lemma_xor_facts(0u8, 0u8, 0u8);
    }
}

/// The error evaluator of a single error is the constant `e`.
proof fn lemma_single_error_evaluator(e: u8, x: u8, p: nat)
    requires
        p >= 2,
    ensures
        error_evaluator(single_error_syndromes(e, x, p), seq![GF256(1u8), GF256(x)], p) == seq![GF256(e)] + zero_poly(
            (p - 1) as nat,
        ),
{
    let a = single_error_syndromes(e, x, p);
    let b = seq![GF256(1u8), GF256(x)];
    let prod = poly_product(a, b);
    assert(prod.len() == p + 1);
    let om = error_evaluator(a, b, p);
    assert(om =~= prod.subrange(0, p as int));
    assert forall|k: int| 0 <= k < p implies #[trigger] om[k] == (seq![GF256(e)] + zero_poly((p - 1) as nat))[k] by {
        lemma_conv_partial_upto(a, b, p, k);
        lemma_mul_identity_zero(a[k].0);
        assert(conv_term(a, b, k, k) == a[k].0);
        if k == 0 {
            lemma_xor_facts(a[0].0, 0u8, 0u8);
            assert(gf_pow(x, 0) == 1u8);
            lemma_mul_identity_zero(e);
            assert(om[0].0 == e);
        } else {
            lemma_conv_far(a, b, (k - 1) as nat, k);
            assert(conv_partial(a, b, k as nat, k) == 0u8 ^ conv_term(a, b, k - 1, k));
            let prev = a[k - 1].0;
            lemma_mul_commutative(prev, x);
            lemma_shift_power(e, x, k as nat);
            let v = gf_mul(e, gf_pow(x, k as nat));
            lemma_xor_facts(v, 0u8, 0u8);
            lemma_xor_facts(v, v, 0u8);
            assert(om[k].0 == 0u8);
        }
    }
    assert(om =~= seq![GF256(e)] + zero_poly((p - 1) as nat));
}

/// Forney's formula gives the value of a single error back.
proof fn lemma_single_error_magnitude(e: u8, x: u8, p: nat)
    requires
        p >= 2,
        x != 0u8,
    ensures
        forney_magnitude(
            error_evaluator(single_error_syndromes(e, x, p), seq![GF256(1u8), GF256(x)], p),
            locator_derivative(seq![GF256(1u8), GF256(x)]),
            x,
        ) == e,
{
    lemma_single_error_evaluator(e, x, p);
    let om = seq![GF256(e)] + zero_poly((p - 1) as nat);
    let xi = gf_inv(x);
    assert(om.reverse() =~= zero_poly((p - 1) as nat) + seq![GF256(e)]);
    lemma_eval_leading_zeros((p - 1) as nat, seq![GF256(e)], xi);
    let one = seq![GF256(e)];
    assert(one.drop_last() =~= Seq::<GF256>::empty());
    lemma_mul_identity_zero(xi);
    lemma_xor_facts(e, 0u8, 0u8);
    assert(poly_eval(one.drop_last(), xi) == 0u8);
    assert(one.last() == GF256(e));
    assert(poly_eval(one, xi) == e);
    assert(eval_low_first(om, xi) == e);
    let sp = locator_derivative(seq![GF256(1u8), GF256(x)]);
    assert(sp =~= seq![GF256(x)]);
    assert(sp.reverse() =~= seq![GF256(x)]);
    let sx = seq![GF256(x)];
    assert(sx.drop_last() =~= Seq::<GF256>::empty());
    lemma_xor_facts(x, 0u8, 0u8);
    assert(poly_eval(sx.drop_last(), xi) == 0u8);
    assert(sx.last() == GF256(x));
    assert(poly_eval(sx, xi) == x);
    assert(eval_low_first(sp, xi) == x);
    lemma_mul_commutative(x, e);
    lemma_div_mul_cancel(e, x);
}

/// `alpha^e` as the exponent is written, for small exponents.
proof fn lemma_alpha_at(e: int)
    requires
        0 <= e < 255,
    ensures
        alpha_at(e) == gf_pow(2u8, e as nat),
{
}

/// The Chien search finds exactly the position whose locator is the locator's root.
proof fn lemma_single_error_positions(n: nat, j: int, m: nat)
    requires
        n <= 255,
        0 <= j < n,
        m <= n,
    ensures
        chien_positions(seq![GF256(1u8), GF256(position_root(n, j))], n, m) == (if j < m {
            seq![j as usize]
        } else {
            Seq::<usize>::empty()
        }),
    decreases m,
{
    reveal(chien_positions);
    if m > 0 {
        lemma_single_error_positions(n, j, (m - 1) as nat);
        let q = m - 1;
        let x = position_root(n, j);
        let y = position_root(n, q);
        lemma_eval_linear(x, y);
        lemma_alpha_at(n - 1 - j);
        lemma_alpha_at(n - 1 - q);
        if q == j {
            lemma_xor_facts(x, 0u8, 0u8);
        } else {
            if y ^ x == 0u8 {
                crate::galois::lemma_xor_cancel(y, x, 0u8);
                lemma_powers_of_two_distinct((n - 1 - q) as nat, (n - 1 - j) as nat);
            }
            assert(poly_eval(seq![GF256(1u8), GF256(x)], y) != 0u8);
        }
    }
}

/// The value at `y` of the monomial `e x^m`, written highest degree first.
proof fn lemma_eval_monomial(e: u8, m: nat, y: u8)
    ensures
        poly_eval(seq![GF256(e)] + zero_poly(m), y) == gf_mul(e, gf_pow(y, m)),
    decreases m,
{
    let s = seq![GF256(e)] + zero_poly(m);
    if m == 0 {
        assert(s =~= seq![GF256(e)]);
        assert(s.drop_last() =~= Seq::<GF256>::empty());
        assert(poly_eval(s.drop_last(), y) == 0u8);
        lemma_mul_identity_zero(y);
        lemma_mul_identity_zero(e);
        lemma_xor_facts(e, 0u8, 0u8);
    } else {
        let m1 = (m - 1) as nat;
        lemma_eval_monomial(e, m1, y);
        assert(s.drop_last() =~= seq![GF256(e)] + zero_poly(m1));
        let q = gf_pow(y, m1);
        lemma_mul_associative(e, q, y);
        lemma_mul_commutative(q, y);
        lemma_xor_facts(gf_mul(gf_mul(e, q), y), 0u8, 0u8);
    }
}

/// The syndromes of a codeword with one symbol changed by `e` at index `j` are those of a single
/// error with locator `alpha^(n-1-j)`.
proof fn lemma_corrupted_syndromes(data: Seq<u8>, p: nat, j: int, e: u8)
    requires
        data.len() + p <= 255,
        0 <= j < data.len() + p,
    ensures
        rs_syndromes(
            bytes_to_field((data + rs_parity(data, p)).update(j, (data + rs_parity(data, p))[j] ^ e)),
            p,
        ) == single_error_syndromes(e, position_root((data.len() + p) as nat, j), p),
{
    let cw = data + rs_parity(data, p);
    let n = cw.len();
    assert(n == data.len() + p);
    let m = (n - 1 - j) as nat;
    let ev = seq![GF256(e)] + zero_poly(m);
    let err = zero_poly(j as nat) + ev;
    let rx = bytes_to_field(cw);
    let rx2 = bytes_to_field(cw.update(j, cw[j] ^ e));
    assert(rx2 =~= poly_xor(rx, err)) by {
        assert forall|i: int| 0 <= i < n implies #[trigger] rx2[i] == poly_xor(rx, err)[i] by {
            if i != j {
                lemma_xor_facts(cw[i], 0u8, 0u8);
            }
        }
    }
    let x = position_root(n, j);
    lemma_alpha_at(m as int);
    reveal(rs_syndromes);
    assert forall|i: int| 0 <= i < p implies #[trigger] rs_syndromes(rx2, p)[i] == single_error_syndromes(e, x, p)[i] by {
        let y = alpha_pow(i);
        assert(y == gf_pow(2u8, i as nat));
        lemma_rs_codeword_roots(data, p, i as nat);
        lemma_eval_xor(rx, err, y);
        lemma_eval_leading_zeros(j as nat, ev, y);
        lemma_eval_monomial(e, m, y);
        crate::galois::lemma_pow_mul(2u8, i as nat, m);
        crate::galois::lemma_pow_mul(2u8, m, i as nat);
        assert((i as nat) * m == m * (i as nat)) by (nonlinear_arith);
        lemma_xor_facts(gf_mul(e, gf_pow(y, m)), 0u8, 0u8);
    }
    assert(rs_syndromes(rx2, p) =~= single_error_syndromes(e, x, p));
}

/// One corrupted symbol of a codeword is repaired: with at least two parity symbols and a
/// codeword of at most 255 symbols, decoding gives back the data.
pub proof fn lemma_rs_corrects_single_error(k: nat, p: nat, data: Seq<u8>, j: int, e: u8)
    requires
        data.len() == k,
        p >= 2,
        k + p <= 255,
        0 <= j < k + p,
        e != 0u8,
    ensures
        rs_decoded(k, p, (data + rs_parity(data, p)).update(j, (data + rs_parity(data, p))[j] ^ e))
            == Ok::<Seq<u8>, Seq<char>>(data),
{
    let cw = data + rs_parity(data, p);
    let n = (k + p) as nat;
    assert(cw.len() == n);
    let r2 = cw.update(j, cw[j] ^ e);
    let rx2 = bytes_to_field(r2);
    let x = position_root(n, j);
    lemma_alpha_at(n - 1 - j);
    lemma_pow_nonzero(2u8, (n - 1 - j) as nat);
    lemma_corrupted_syndromes(data, p, j, e);
    let synd = rs_syndromes(rx2, p);
    assert(synd == single_error_syndromes(e, x, p));
    lemma_mul_identity_zero(e);
    assert(gf_pow(x, 0) == 1u8);
    assert(synd[0].0 == e);
    assert(!all_zero(synd));
    lemma_single_error_locator(e, x, p);
    let loc = seq![GF256(1u8), GF256(x)];
    lemma_single_error_positions(n, j, n);
    let positions = chien_positions(loc, rx2.len(), rx2.len());
    assert(positions == seq![j as usize]);
    lemma_single_error_magnitude(e, x, p);
    let corr = forney_corrections(synd, loc, positions, p, rx2.len());
    assert(corr =~= seq![GF256(e)]) by {
        reveal(forney_corrections);
    }
    let fixed = apply_corrections(rx2, positions, corr, 1);
    assert(fixed =~= bytes_to_field(cw)) by {
        reveal_with_fuel(apply_corrections, 2);
        let b = cw[j];
        assert((b ^ e) ^ e == b) by (bit_vector);
    }
    assert(all_zero(rs_syndromes(fixed, p))) by {
        reveal(rs_syndromes);
        assert forall|i: int| 0 <= i < p implies #[trigger] rs_syndromes(fixed, p)[i].0 == 0u8 by {
            lemma_rs_codeword_roots(data, p, i as nat);
        }
    }
    assert(field_to_bytes(fixed.subrange(0, k as int)) =~= data);
}

/// The number of positions among the first `m` where `a` and `b` differ.
pub open spec fn differing(a: Seq<u8>, b: Seq<u8>, m: nat) -> nat
    decreases m,
{
    if m == 0 {
        0
    } else {
        differing(a, b, (m - 1) as nat) + (if a[m - 1] != b[m - 1] {
            1nat
        } else {
            0nat
        })
    }
}

/// No difference means equal prefixes; one difference is at a single position.
proof fn lemma_differing_small(a: Seq<u8>, b: Seq<u8>, m: nat)
    requires
        m <= a.len(),
        m <= b.len(),
    ensures
        differing(a, b, m) == 0 ==> forall|i: int| 0 <= i < m ==> a[i] == b[i],
        differing(a, b, m) == 1 ==> exists|j: int|
            0 <= j < m && a[j] != b[j] && forall|i: int| 0 <= i < m && i != j ==> a[i] == b[i],
    decreases m,
{
    if m > 0 {
        lemma_differing_small(a, b, (m - 1) as nat);
        if differing(a, b, m) == 1 && a[m - 1] == b[m - 1] {
            let j = choose|j: int|
                0 <= j < m - 1 && a[j] != b[j] && forall|i: int| 0 <= i < m - 1 && i != j ==> a[i] == b[i];
            assert(forall|i: int| 0 <= i < m && i != j ==> a[i] == b[i]);
        }
    }
}

/// With at most three parity symbols (so that `t = parity / 2` is at most one), every received
/// word within `t` symbols of a codeword decodes to the data.
pub proof fn lemma_rs_corrects_within_t(k: nat, p: nat, data: Seq<u8>, received: Seq<u8>)
    requires
        data.len() == k,
        p <= 3,
        k + p <= 255,
        received.len() == k + p,
        differing(received, data + rs_parity(data, p), k + p) <= p / 2,
    ensures
        rs_decoded(k, p, received) == Ok::<Seq<u8>, Seq<char>>(data),
{
    let cw = data + rs_parity(data, p);
    assert(cw.len() == k + p);
    lemma_differing_small(received, cw, k + p);
    if differing(received, cw, k + p) == 0 {
        assert(received =~= cw);
        crate::rs_laws::lemma_rs_roundtrip(k, p, data);
    } else {
        let j = choose|j: int|
            0 <= j < k + p && received[j] != cw[j] && forall|i: int| 0 <= i < k + p && i != j ==> received[i] == cw[i];
        let e = received[j] ^ cw[j];
        let r0 = received[j];
        let c0 = cw[j];
        assert(e != 0u8 && c0 ^ e == r0) by (bit_vector)
            requires
                r0 != c0,
                e == r0 ^ c0,
        ;
        assert(received =~= cw.update(j, cw[j] ^ e));
        lemma_rs_corrects_single_error(k, p, data, j, e);
    }
}

} // verus!
