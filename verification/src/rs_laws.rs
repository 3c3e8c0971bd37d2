//! Laws of the Reed-Solomon code: the generator's roots, exact long division, and decoding
//! of unaltered codewords.

use vstd::prelude::*;
use crate::galois::{gf_div, lemma_div_mul_cancel, lemma_mul_identity_zero, lemma_xor_facts};
use crate::gf256::{
    conv_partial, conv_term, is_poly_quotient, lemma_conv_partial_prefix, lemma_eval_product, lemma_eval_zero_poly,
    is_zero_poly, lemma_quotient_unique, poly_eval, poly_product, poly_quotient, poly_rem_full, poly_remainder, quotient_len,
    zero_poly, GF256,
};
use crate::reed_solomon::{
    alpha_pow, lemma_generator_shape, rs_decoded, rs_generator, rs_parity, rs_remainder, rs_syndromes,
};
use crate::symbols::{all_zero, bytes_to_field, field_to_bytes};

verus! {

/// The linear factor `x + a` evaluated at `x`.
pub(crate) proof fn lemma_eval_linear(a: u8, x: u8)
    ensures
        poly_eval(seq![GF256(1u8), GF256(a)], x) == x ^ a,
{
    let f = seq![GF256(1u8), GF256(a)];
    let one = seq![GF256(1u8)];
    assert(f.drop_last() =~= one);
    assert(one.drop_last() =~= Seq::<GF256>::empty());
    lemma_mul_identity_zero(x);
    lemma_xor_facts(1u8, 0u8, 0u8);
    assert(poly_eval(one.drop_last(), x) == 0u8);
    assert(one.last() == GF256(1u8));
    assert(poly_eval(one, x) == 1u8);
}

/// Every `alpha^i` with `i < k` is a root of the generator.
pub proof fn lemma_generator_roots(k: nat, i: nat)
    requires
        i < k,
    ensures
        poly_eval(rs_generator(k), alpha_pow(i as int)) == 0u8,
    decreases k,
{
    let x = alpha_pow(i as int);
    let g1 = rs_generator((k - 1) as nat);
    let a = alpha_pow(k - 1);
    let f = seq![GF256(1u8), GF256(a)];
    assert(rs_generator(k) == poly_product(g1, f));
    lemma_eval_product(g1, f, x);
    lemma_eval_linear(a, x);
    if i == k - 1 {
        lemma_xor_facts(x, 0u8, 0u8);
        lemma_mul_identity_zero(poly_eval(g1, x));
    } else {
        lemma_generator_roots((k - 1) as nat, i);
        lemma_mul_identity_zero(x ^ a);
    }
}

/// The first `n` quotient coefficients found by long division.
pub open spec fn long_division(dividend: Seq<GF256>, divisor: Seq<GF256>, n: nat) -> Seq<GF256>
    decreases n,
{
    if n == 0 {
        seq![]
    } else {
        let q = long_division(dividend, divisor, (n - 1) as nat);
        let carried = conv_partial(q, divisor, (n - 1) as nat, n - 1);
        q.push(GF256(gf_div(dividend[n - 1].0 ^ carried, divisor[0].0)))
    }
}

/// Long division matches the dividend on the leading coefficients it has produced.
proof fn lemma_long_division(dividend: Seq<GF256>, divisor: Seq<GF256>, n: nat)
    requires
        divisor.len() > 0,
        divisor[0].0 != 0u8,
    ensures
        long_division(dividend, divisor, n).len() == n,
        forall|k: int| 0 <= k < n ==> #[trigger] conv_partial(long_division(dividend, divisor, n), divisor, n, k)
            == dividend[k].0,
    decreases n,
{
    if n > 0 {
        let q1 = long_division(dividend, divisor, (n - 1) as nat);
        let q = long_division(dividend, divisor, n);
        lemma_long_division(dividend, divisor, (n - 1) as nat);
        assert forall|k: int| 0 <= k < n implies #[trigger] conv_partial(q, divisor, n, k) == dividend[k].0 by {
            lemma_conv_partial_prefix(q, q1, divisor, (n - 1) as nat, k);
            if k < n - 1 {
                assert(conv_term(q, divisor, n - 1, k) == 0u8);
                lemma_xor_facts(conv_partial(q1, divisor, (n - 1) as nat, k), 0u8, 0u8);
            } else {
                let carried = conv_partial(q1, divisor, (n - 1) as nat, n - 1);
                let d = dividend[n - 1].0;
                lemma_div_mul_cancel(d ^ carried, divisor[0].0);
                assert(conv_term(q, divisor, n - 1, k) == d ^ carried);
                lemma_xor_facts(carried, d, carried);
                lemma_xor_facts(carried, carried, d);
                lemma_xor_facts(d, carried, 0u8);
                lemma_xor_facts(carried, 0u8, 0u8);
            }
        }
    }
}

/// A divisor with non-zero leading coefficient divides every dividend.
pub proof fn lemma_quotient_exists(dividend: Seq<GF256>, divisor: Seq<GF256>)
    requires
        divisor.len() > 0,
        divisor[0].0 != 0u8,
    ensures
        is_poly_quotient(dividend, divisor, poly_quotient(dividend, divisor)),
        poly_quotient(dividend, divisor) == long_division(
            dividend,
            divisor,
            quotient_len(dividend.len(), divisor.len()),
        ),
{
    let n = quotient_len(dividend.len(), divisor.len());
    lemma_long_division(dividend, divisor, n);
    let q = long_division(dividend, divisor, n);
    assert(is_poly_quotient(dividend, divisor, q));
    lemma_quotient_unique(dividend, divisor, q, poly_quotient(dividend, divisor));
}

/// Every codeword the encoder produces vanishes at `alpha^0 .. alpha^(p-1)`: it is the data
/// shifted by `p` minus its remainder by the generator, so a multiple of the generator.
pub proof fn lemma_rs_codeword_roots(data: Seq<u8>, p: nat, i: nat)
    requires
        i < p,
    ensures
        poly_eval(bytes_to_field(data + rs_parity(data, p)), alpha_pow(i as int)) == 0u8,
{
    let k = data.len();
    let padded = bytes_to_field(data) + zero_poly(p);
    let g = rs_generator(p);
    lemma_generator_shape(p);
    lemma_mul_identity_zero(1u8);
    lemma_quotient_exists(padded, g);
    let q = poly_quotient(padded, g);
    let full = poly_rem_full(padded, g, q);
    let r = rs_remainder(data, p);
    let padded = bytes_to_field(data) + zero_poly(p);
    let g = rs_generator(p);
    lemma_generator_shape(p);
    lemma_mul_identity_zero(1u8);
    lemma_quotient_exists(padded, g);
    let q = poly_quotient(padded, g);
    let full = poly_rem_full(padded, g, q);
    let r = rs_remainder(data, p);
    let cw = data + rs_parity(data, p);
    let rx = bytes_to_field(cw);
    assert(rx =~= bytes_to_field(data) + r);
    lemma_generator_roots(p, i);
    if k == 0 {
        assert(q.len() == 0);
        assert forall|j: int| 0 <= j < rx.len() implies #[trigger] rx[j].0 == 0u8 by {
            assert(rx[j] == r[j]);
            assert(r[j] == full[j]);
            assert(padded[j].0 == 0u8);
            lemma_xor_facts(0u8, 0u8, 0u8);
        }
        lemma_eval_zero_poly(rx, alpha_pow(i as int));
    } else {
        assert(q.len() == k);
        assert(g.len() == p + 1);
        assert(poly_product(q, g).len() == rx.len());
        assert(rx =~= poly_product(q, g)) by {
            assert forall|j: int| 0 <= j < rx.len() implies rx[j] == poly_product(q, g)[j] by {
                if j < k {
                    assert(conv_partial(q, g, q.len(), j) == padded[j].0);
                    assert(padded[j] == GF256(data[j]));
                    assert(rx[j] == GF256(data[j]));
                } else {
                    assert(full.len() == k + p);
                    assert(rx[j] == r[j - k]);
                    assert(r[j - k] == full[j]);
                    assert(padded[j].0 == 0u8);
                    lemma_xor_facts(conv_partial(q, g, q.len(), j), 0u8, 0u8);
                    assert(full[j].0 == conv_partial(q, g, q.len(), j));
                    assert(poly_product(q, g)[j] == GF256(conv_partial(q, g, q.len(), j)));
                }
            }
        }
        lemma_eval_product(q, g, alpha_pow(i as int));
        lemma_mul_identity_zero(poly_eval(q, alpha_pow(i as int)));
    }
}

/// A codeword produced by the encoder decodes to the data it carries.
pub proof fn lemma_rs_roundtrip(k: nat, p: nat, data: Seq<u8>)
    requires
        data.len() == k,
    ensures
        rs_decoded(k, p, data + rs_parity(data, p)) == Ok::<Seq<u8>, Seq<char>>(data),
{
    let cw = data + rs_parity(data, p);
    let rx = bytes_to_field(cw);
    assert forall|i: int| 0 <= i < p implies #[trigger] poly_eval(rx, alpha_pow(i)) == 0u8 by {
        lemma_rs_codeword_roots(data, p, i as nat);
    }
    assert(all_zero(rs_syndromes(rx, p))) by {
        reveal(rs_syndromes);
    }
    assert(cw.subrange(0, k as int) =~= data);
}

/// Dividing a product by one of its factors gives the other factor back, with the zero
/// remainder.
pub proof fn lemma_exact_division(a: Seq<GF256>, b: Seq<GF256>)
    requires
        a.len() >= 1,
        b.len() >= 1,
        b[0].0 != 0u8,
    ensures
        poly_quotient(poly_product(a, b), b) == a,
        poly_remainder(poly_product(a, b), b) == seq![GF256(0u8)],
{
    let prod = poly_product(a, b);
    assert(is_poly_quotient(prod, b, a));
    lemma_quotient_exists(prod, b);
    lemma_quotient_unique(prod, b, a, poly_quotient(prod, b));
    let full = poly_rem_full(prod, b, a);
    assert forall|i: int| 0 <= i < full.len() implies #[trigger] full[i].0 == 0u8 by {
        lemma_xor_facts(prod[i].0, 0u8, 0u8);
    }
    assert(is_zero_poly(full));
}

} // verus!
