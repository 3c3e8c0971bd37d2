//! What the chemical parity of `PhytoCode` can repair: one corrupted symbol anywhere in a codeword.

use vstd::prelude::*;
use crate::galois::{
    gf_div, gf_inv, gf_mul, gf_pow, lemma_div_mul_cancel, lemma_inverse, lemma_mul_associative,
    lemma_mul_commutative, lemma_mul_linear_left, lemma_no_zero_divisors, lemma_pow_add,
    lemma_pow_nonzero, lemma_xor_facts,
};
use crate::phyto_code::{
    corrected_at, data_fix_ok, first_data_fix, leading_path, lemma_first_data_fix_skip, lemma_parity_sum_prefix,
    lemma_path_transform_inverse, lemma_phyto_roundtrip, lone_parity_error, parity_sum, path_column, path_result,
    path_shift, path_support,
    phyto_coeff, phyto_decoded, phyto_multipath_decoded, phyto_parity, phyto_syndrome, single_error_value,
    support, syndromes_clear, transformed_path, untransformed_path,
};
use crate::primitive::lemma_powers_of_two_distinct;
use crate::symbols::{count_of, is_smallest_mode, lemma_majority_is_smallest_mode, lemma_majority_of_constant};

verus! {

/// Changing one symbol `j` of `data` by `e` changes each parity sum over the first `n` symbols by
/// `e` times the coefficient of `j`, when `j` is among them.
proof fn lemma_parity_sum_single_change(data: Seq<u8>, r: Seq<u8>, p: int, n: nat, j: int, e: u8)
    requires
        n <= data.len(),
        n <= r.len(),
        0 <= j,
        forall|i: int| 0 <= i < n && i != j ==> r[i] == data[i],
        j < n ==> r[j] == data[j] ^ e,
    ensures
        parity_sum(r, p, n) == parity_sum(data, p, n) ^ (if j < n {
            gf_mul(e, phyto_coeff(p, j))
        } else {
            0u8
        }),
    decreases n,
{
    if n == 0 {
        lemma_xor_facts(0u8, 0u8, 0u8);
    } else {
        let m = (n - 1) as nat;
        lemma_parity_sum_single_change(data, r, p, m, j, e);
        let a = parity_sum(data, p, m);
        let g = gf_mul(data[m as int], phyto_coeff(p, m as int));
        if m == j {
            let c = gf_mul(e, phyto_coeff(p, j));
            lemma_mul_linear_left(data[m as int], e, phyto_coeff(p, m as int));
            lemma_xor_facts(a, g, c);
        } else {
            assert(r[m as int] == data[m as int]);
            let x = if j < m {
                gf_mul(e, phyto_coeff(p, j))
            } else {
                0u8
            };
            lemma_xor_facts(a, x, g);
            lemma_xor_facts(x, g, 0u8);
            lemma_xor_facts(a, g, x);
        }
    }
}

/// The coefficients of the first two parity rows at a position below 255 are the powers
/// `2^i` and `2^(2i)`.
proof fn lemma_low_coefficients(i: int)
    requires
        0 <= i < 255,
    ensures
        phyto_coeff(0, i) == gf_pow(2u8, i as nat),
        phyto_coeff(1, i) == gf_pow(2u8, (2 * i) as nat),
        phyto_coeff(1, i) == gf_mul(gf_pow(2u8, i as nat), gf_pow(2u8, i as nat)),
        phyto_coeff(0, i) != 0u8,
{
    lemma_pow_add(2u8, i as nat, i as nat);
    lemma_pow_nonzero(2u8, i as nat);
    assert((0 + 1) * i == i && (1 + 1) * i == 2 * i) by (nonlinear_arith);
    assert(i as u32 == i);
    assert((2 * i) as u32 == 2 * i);
}

/// A coefficient of the first parity row is never zero.
proof fn lemma_first_row_nonzero(i: int)
    ensures
        phyto_coeff(0, i) != 0u8,
{
    if i != 0 {
        lemma_pow_nonzero(2u8, (((0 + 1) * i) as u32) as nat);
    }
}

/// With the syndromes of a single error of value `e` at data position `j < 255`, no single-error
/// correction succeeds at an earlier position `i`.
proof fn lemma_no_earlier_fix(k: nat, parity: nat, r: Seq<u8>, i: int, j: int, e: u8)
    requires
        parity >= 2,
        0 <= i < j < 255,
        e != 0u8,
        phyto_syndrome(k, r, 0) == gf_mul(e, phyto_coeff(0, j)),
        phyto_syndrome(k, r, 1) == gf_mul(e, phyto_coeff(1, j)),
    ensures
        !data_fix_ok(k, parity, r, i),
{
    if data_fix_ok(k, parity, r, i) {
        let x = gf_pow(2u8, i as nat);
        let y = gf_pow(2u8, j as nat);
        lemma_low_coefficients(i);
        lemma_low_coefficients(j);
        let s0 = phyto_syndrome(k, r, 0);
        let s1 = phyto_syndrome(k, r, 1);
        let ei = single_error_value(k, r, i);
        assert(gf_mul(ei, phyto_coeff(1, i)) == s1);
        lemma_div_mul_cancel(s0, x);
        assert(gf_mul(ei, x) == s0);
        lemma_mul_associative(ei, x, x);
        lemma_mul_associative(e, y, y);
        assert(gf_mul(s0, x) == gf_mul(s0, y));
        lemma_no_zero_divisors(e, y);
        lemma_mul_commutative(s0, x);
        lemma_mul_commutative(s0, y);
        lemma_div_mul_cancel(x, s0);
        lemma_div_mul_cancel(y, s0);
        lemma_powers_of_two_distinct(i as nat, j as nat);
    }
}

/// One corrupted data symbol is found and repaired.
proof fn lemma_corrects_data_error(k: nat, parity: nat, data: Seq<u8>, j: int, e: u8)
    requires
        data.len() == k,
        parity >= 2 || parity == 1 && j == 0,
        0 <= j < k,
        j < 255,
        e != 0u8,
    ensures
        phyto_decoded(k, parity, corrected_at(data + phyto_parity(data, parity), j, e))
            == Ok::<Seq<u8>, Seq<char>>(data),
{
    let cw = data + phyto_parity(data, parity);
    let r = corrected_at(cw, j, e);
    assert forall|p: int| 0 <= p < parity implies #[trigger] phyto_syndrome(k, r, p) == gf_mul(
        e,
        phyto_coeff(p, j),
    ) by {
        lemma_parity_sum_single_change(data, r, p, k, j, e);
        let a = parity_sum(data, p, k);
        let c = gf_mul(e, phyto_coeff(p, j));
        assert(r[k + p] == cw[k + p]);
        lemma_xor_facts(a, c, a);
        lemma_xor_facts(c, a, 0u8);
        lemma_xor_facts(a, a, c);
        lemma_xor_facts(c, 0u8, 0u8);
    }
    lemma_first_row_nonzero(j);
    lemma_no_zero_divisors(e, phyto_coeff(0, j));
    assert(phyto_syndrome(k, r, 0) != 0u8);
    assert(!syndromes_clear(k, parity, r));
    lemma_div_mul_cancel(e, phyto_coeff(0, j));
    assert(single_error_value(k, r, j) == e);
    let fixed = corrected_at(r, j, e);
    assert(r[j] ^ e == cw[j]) by {
        let d = cw[j];
        lemma_xor_facts(d, e, e);
        lemma_xor_facts(e, 0u8, 0u8);
        lemma_xor_facts(d, 0u8, 0u8);
    }
    assert(fixed =~= cw);
    assert forall|p: int| 0 <= p < parity implies #[trigger] phyto_syndrome(k, cw, p) == 0u8 by {
        lemma_parity_sum_prefix(cw, data, p, k);
        lemma_xor_facts(parity_sum(data, p, k), 0u8, 0u8);
    }
    assert(syndromes_clear(k, parity, fixed));
    assert forall|p: int| 1 <= p < parity implies #[trigger] gf_mul(
        single_error_value(k, r, j),
        phyto_coeff(p, j),
    ) == phyto_syndrome(k, r, p) by {}
    assert(data_fix_ok(k, parity, r, j));
    assert forall|i: int| 0 <= i < j implies !data_fix_ok(k, parity, r, i) by {
        assert(phyto_syndrome(k, r, 0) == gf_mul(e, phyto_coeff(0, j)));
        assert(phyto_syndrome(k, r, 1) == gf_mul(e, phyto_coeff(1, j)));
        lemma_no_earlier_fix(k, parity, r, i, j, e);
    }
    lemma_first_data_fix_skip(k, parity, r, j as nat);
    assert(first_data_fix(k, parity, r, 0) == Some(j as nat));
    assert(fixed.subrange(0, k as int) =~= data);
}

/// One corrupted parity symbol is recognised as such and the data comes back untouched.
proof fn lemma_corrects_parity_error(k: nat, parity: nat, data: Seq<u8>, q: int, e: u8)
    requires
        data.len() == k,
        parity >= 2 || k == 0,
        0 <= q < parity,
        e != 0u8,
    ensures
        phyto_decoded(k, parity, corrected_at(data + phyto_parity(data, parity), k + q, e))
            == Ok::<Seq<u8>, Seq<char>>(data),
{
    let cw = data + phyto_parity(data, parity);
    let r = corrected_at(cw, k + q, e);
    assert forall|p: int| 0 <= p < parity implies #[trigger] phyto_syndrome(k, r, p) == (if p == q {
        e
    } else {
        0u8
    }) by {
        lemma_parity_sum_prefix(r, data, p, k);
        let a = parity_sum(data, p, k);
        lemma_xor_facts(a, a, e);
        lemma_xor_facts(e, 0u8, 0u8);
        lemma_xor_facts(a, 0u8, 0u8);
    }
    assert(!syndromes_clear(k, parity, r)) by {
        assert(phyto_syndrome(k, r, q) == e);
    }
    assert forall|i: int| 0 <= i < k implies !data_fix_ok(k, parity, r, i) by {
        if q != 0 {
            assert(phyto_syndrome(k, r, 0) == 0u8);
        } else {
            let ei = single_error_value(k, r, i);
            lemma_first_row_nonzero(i);
            lemma_inverse(phyto_coeff(0, i));
            lemma_no_zero_divisors(e, gf_inv(phyto_coeff(0, i)));
            assert(ei != 0u8);
            assert(phyto_syndrome(k, r, 1) == 0u8);
            if i == 0 {
                lemma_no_zero_divisors(ei, 1u8);
            } else {
                lemma_pow_nonzero(2u8, (((1 + 1) * i) as u32) as nat);
                lemma_no_zero_divisors(ei, phyto_coeff(1, i));
            }
            assert(gf_mul(ei, phyto_coeff(1, i)) != phyto_syndrome(k, r, 1));
        }
    }
    lemma_first_data_fix_skip(k, parity, r, k);
    assert(first_data_fix(k, parity, r, 0).is_none());
    assert(lone_parity_error(k, parity, r, q));
    assert(r.subrange(0, k as int) =~= data);
}

/// With at least two parity symbols, one corrupted symbol anywhere in a codeword is repaired:
/// decoding gives back the data. A data symbol must lie below position 255, where the powers of
/// the primitive element that locate it start to repeat.
pub proof fn lemma_phyto_corrects_single_error(k: nat, parity: nat, data: Seq<u8>, j: int, e: u8)
    requires
        data.len() == k,
        parity >= 2 || parity == 1 && j == 0,
        0 <= j < k + parity,
        j < 255 || j >= k,
        e != 0u8,
    ensures
        phyto_decoded(k, parity, corrected_at(data + phyto_parity(data, parity), j, e))
            == Ok::<Seq<u8>, Seq<char>>(data),
{
    if j < k {
        lemma_corrects_data_error(k, parity, data, j, e);
    } else {
        lemma_corrects_parity_error(k, parity, data, j - k, e);
    }
}

/// What path `p` carries when nothing goes wrong: the codeword, transformed for its place when
/// `p >= 1`.
pub open spec fn sent_path(data: Seq<u8>, parity: nat, p: int) -> Seq<u8> {
    if p == 0 {
        data + phyto_parity(data, parity)
    } else {
        transformed_path(data + phyto_parity(data, parity), p)
    }
}

/// What the leading path is: the earliest path that decodes and is supported by the most paths.
#[verifier::spinoff_prover]
proof fn lemma_leading_path(k: nat, parity: nat, paths: Seq<Seq<u8>>, m: nat)
    ensures
        leading_path(k, parity, paths, m) is None <==> forall|t: int| 0 <= t < m ==> #[trigger] path_result(
            k,
            parity,
            paths,
            t,
        ) is Err,
        leading_path(k, parity, paths, m) matches Some(b) ==> {
            &&& b < m
            &&& path_result(k, parity, paths, b as int) is Ok
            &&& forall|t: int| 0 <= t < m && #[trigger] path_result(k, parity, paths, t) is Ok ==> path_support(
                k,
                parity,
                paths,
                t,
            ) <= path_support(k, parity, paths, b as int)
            &&& forall|t: int| 0 <= t < b && #[trigger] path_result(k, parity, paths, t) is Ok ==> path_support(
                k,
                parity,
                paths,
                t,
            ) < path_support(k, parity, paths, b as int)
        },
    decreases m,
{
    if m > 0 {
        let m1 = (m - 1) as nat;
        lemma_leading_path(k, parity, paths, m1);
        let q = m1 as int;
        let prev = leading_path(k, parity, paths, m1);
        if path_result(k, parity, paths, q) is Err {
            assert(leading_path(k, parity, paths, m) == prev);
        } else {
            match prev {
                None => {
                    assert(leading_path(k, parity, paths, m) == Some(m1));
                },
                Some(b) => {
                    if path_support(k, parity, paths, q) > path_support(k, parity, paths, b as int) {
                        assert(leading_path(k, parity, paths, m) == Some(m1));
                    } else {
                        assert(leading_path(k, parity, paths, m) == prev);
                    }
                },
            }
        }
    }
}

/// Paths other than `j` that arrive intact all decode to the data.
proof fn lemma_support_counts(k: nat, parity: nat, data: Seq<u8>, paths: Seq<Seq<u8>>, j: int, d: Seq<u8>, m: nat)
    requires
        data.len() == k,
        m <= paths.len(),
        forall|q: int| 0 <= q < paths.len() && q != j ==> #[trigger] paths[q] == sent_path(data, parity, q),
    ensures
        d == data ==> support(k, parity, paths, d, m) + (if 0 <= j < m {
            1nat
        } else {
            0nat
        }) >= m,
        d != data ==> support(k, parity, paths, d, m) <= (if 0 <= j < m {
            1nat
        } else {
            0nat
        }),
    decreases m,
{
    if m > 0 {
        lemma_support_counts(k, parity, data, paths, j, d, (m - 1) as nat);
        let q = m - 1;
        if q != j {
            lemma_phyto_roundtrip(k, parity, data);
            if q >= 1 {
                lemma_path_transform_inverse(data + phyto_parity(data, parity), q);
            }
            reveal(path_result);
            assert(path_result(k, parity, paths, q) == Ok::<Seq<u8>, Seq<char>>(data));
        }
    }
}

/// Multi-path decoding survives the failure of any one path: when every path but one arrives
/// intact and there are at least three paths (or the failed one is not the first), the data
/// comes back, whatever the failed path holds.
pub proof fn lemma_multipath_survives_one_failure(
    k: nat,
    parity: nat,
    data: Seq<u8>,
    paths: Seq<Seq<u8>>,
    j: int,
)
    requires
        data.len() == k,
        0 <= j < paths.len(),
        paths.len() >= 3 || j > 0,
        forall|q: int| 0 <= q < paths.len() && q != j ==> #[trigger] paths[q] == sent_path(data, parity, q),
    ensures
        phyto_multipath_decoded(k, parity, paths) == Ok::<Seq<u8>, Seq<char>>(data),
{
    let n = paths.len();
    let q0: int = if j == 0 {
        1
    } else {
        0
    };
    lemma_support_counts(k, parity, data, paths, j, data, n);
    lemma_phyto_roundtrip(k, parity, data);
    if q0 >= 1 {
        lemma_path_transform_inverse(data + phyto_parity(data, parity), q0);
    }
    assert(path_result(k, parity, paths, q0) == Ok::<Seq<u8>, Seq<char>>(data)) by {
        reveal(path_result);
    }
    lemma_leading_path(k, parity, paths, n);
    let b = leading_path(k, parity, paths, n).unwrap();
    let d = match path_result(k, parity, paths, b as int) {
        Ok(v) => v,
        Err(_) => data,
    };
    if d != data {
        lemma_support_counts(k, parity, data, paths, j, d, n);
        assert(path_support(k, parity, paths, q0) == support(k, parity, paths, data, n));
        assert(path_support(k, parity, paths, b as int) == support(k, parity, paths, d, n));
        if n >= 3 {
            assert(path_support(k, parity, paths, q0) <= path_support(k, parity, paths, b as int));
        } else {
            if b > 0 {
                assert(path_support(k, parity, paths, 0) < path_support(k, parity, paths, b as int));
            }
        }
    }
}

/// When no path decodes, no path leads.
proof fn lemma_no_leading_path(k: nat, parity: nat, paths: Seq<Seq<u8>>, m: nat)
    requires
        m <= paths.len(),
        forall|p: int| 0 <= p < paths.len() ==> #[trigger] path_result(k, parity, paths, p) is Err,
    ensures
        leading_path(k, parity, paths, m) is None,
    decreases m,
{
    if m > 0 {
        lemma_no_leading_path(k, parity, paths, (m - 1) as nat);
        assert(path_result(k, parity, paths, m - 1) is Err);
    }
}

/// The recovered values at `pos` are all `v` when every long-enough path carries `v` there,
/// scaled by its multiplier on the redundant paths, and there is one at least when some path
/// is long enough.
#[verifier::spinoff_prover]
proof fn lemma_agreed_column(paths: Seq<Seq<u8>>, pos: int, v: u8, n: nat)
    requires
        n <= paths.len(),
        0 <= pos,
        forall|p: int| 0 <= p < paths.len() && pos < paths[p].len() ==> #[trigger] paths[p][pos] == (if p == 0 {
            v
        } else {
            gf_mul(v, path_shift(p, pos))
        }),
    ensures
        forall|i: int| 0 <= i < path_column(paths, pos, n).len() ==> #[trigger] path_column(paths, pos, n)[i] == v,
        (exists|p: int| 0 <= p < n && pos < paths[p].len()) ==> path_column(paths, pos, n).len() > 0,
    decreases n,
{
    if n > 0 {
        let q = n - 1;
        lemma_agreed_column(paths, pos, v, (n - 1) as nat);
        if pos < paths[q].len() {
            assert(paths[q][pos] == (if q == 0 { v } else { gf_mul(v, path_shift(q, pos)) }));
            if q > 0 {
                lemma_div_mul_cancel(v, path_shift(q, pos));
            }
            assert(untransformed_path(paths[q], q)[pos] == v);
            let prev = path_column(paths, pos, (n - 1) as nat);
            let col = path_column(paths, pos, n);
            assert(col == prev.push(v));
            assert forall|i: int| 0 <= i < col.len() implies #[trigger] col[i] == v by {
                if i < prev.len() {
                    assert(col[i] == prev[i]);
                }
            }
        } else {
            assert(path_column(paths, pos, n) == path_column(paths, pos, (n - 1) as nat));
            if exists|p: int| 0 <= p < n && pos < paths[p].len() {
                let p = choose|p: int| 0 <= p < n && pos < paths[p].len();
                assert(p < n - 1);
            }
        }
    }
}

/// When no path decodes on its own, the vote recovers each data symbol that the paths agree on:
/// if every path long enough carries `v` at position `pos`, multiplied by that path's shift on
/// the redundant paths, the decoded symbol at `pos` is `v`.
pub proof fn lemma_vote_recovers_agreed_symbol(k: nat, parity: nat, paths: Seq<Seq<u8>>, pos: int, v: u8)
    requires
        forall|p: int| 0 <= p < paths.len() ==> #[trigger] path_result(k, parity, paths, p) is Err,
        0 <= pos < k,
        exists|p: int| 0 <= p < paths.len() && pos < paths[p].len(),
        forall|p: int| 0 <= p < paths.len() && pos < paths[p].len() ==> #[trigger] paths[p][pos] == (if p == 0 {
            v
        } else {
            gf_mul(v, path_shift(p, pos))
        }),
    ensures
        (phyto_multipath_decoded(k, parity, paths) is Ok),
        phyto_multipath_decoded(k, parity, paths)->Ok_0.len() == k,
        phyto_multipath_decoded(k, parity, paths)->Ok_0[pos] == v,
{
    lemma_no_leading_path(k, parity, paths, paths.len());
    lemma_agreed_column(paths, pos, v, paths.len());
    lemma_majority_of_constant(path_column(paths, pos, paths.len()), v);
}

/// Path `p` carries the data value `u` at position `pos`: it holds `u` there, multiplied by the
/// path's shift on the redundant paths.
pub open spec fn carries(paths: Seq<Seq<u8>>, p: int, pos: int, u: u8) -> bool {
    &&& pos < paths[p].len()
    &&& paths[p][pos] == (if p == 0 {
        u
    } else {
        gf_mul(u, path_shift(p, pos))
    })
}

/// How many of the first `n` paths carry `u` at position `pos`.
pub open spec fn carriers(paths: Seq<Seq<u8>>, pos: int, u: u8, n: nat) -> nat
    decreases n,
{
    if n == 0 {
        0
    } else {
        carriers(paths, pos, u, (n - 1) as nat) + (if carries(paths, n - 1, pos, u) {
            1nat
        } else {
            0nat
        })
    }
}

/// A value occurs in the recovered column as often as paths carry it.
proof fn lemma_column_counts_carriers(paths: Seq<Seq<u8>>, pos: int, u: u8, n: nat)
    requires
        n <= paths.len(),
        0 <= pos,
    ensures
        count_of(path_column(paths, pos, n), u) == carriers(paths, pos, u, n),
    decreases n,
{
    if n > 0 {
        let q = n - 1;
        lemma_column_counts_carriers(paths, pos, u, (n - 1) as nat);
        let prev = path_column(paths, pos, (n - 1) as nat);
        if pos < paths[q].len() {
            let x = untransformed_path(paths[q], q)[pos];
            let col = path_column(paths, pos, n);
            assert(col == prev.push(x));
            assert(col.drop_last() =~= prev);
            assert(col.last() == x);
            if q > 0 {
                let y = paths[q][pos];
                let sh = path_shift(q, pos);
                assert(x == gf_div(y, sh));
                lemma_div_mul_cancel(y, sh);
                lemma_div_mul_cancel(u, sh);
                assert((x == u) <==> (y == gf_mul(u, sh)));
            }
            assert((x == u) <==> carries(paths, q, pos, u));
        } else {
            assert(path_column(paths, pos, n) == prev);
            assert(!carries(paths, q, pos, u));
        }
    }
}

/// When no path decodes on its own, each decoded symbol is the value that the most paths carry
/// at its position, the smallest such value among ties.
pub proof fn lemma_vote_takes_most_carried(k: nat, parity: nat, paths: Seq<Seq<u8>>, pos: int)
    requires
        paths.len() > 0,
        forall|p: int| 0 <= p < paths.len() ==> #[trigger] path_result(k, parity, paths, p) is Err,
        0 <= pos < k,
    ensures
        (phyto_multipath_decoded(k, parity, paths) is Ok),
        phyto_multipath_decoded(k, parity, paths)->Ok_0.len() == k,
        forall|u: u8| #[trigger] carriers(paths, pos, u, paths.len()) <= carriers(
            paths,
            pos,
            phyto_multipath_decoded(k, parity, paths)->Ok_0[pos],
            paths.len(),
        ),
        forall|u: u8| u < phyto_multipath_decoded(k, parity, paths)->Ok_0[pos] ==> #[trigger] carriers(
            paths,
            pos,
            u,
            paths.len(),
        ) < carriers(paths, pos, phyto_multipath_decoded(k, parity, paths)->Ok_0[pos], paths.len()),
{
    lemma_no_leading_path(k, parity, paths, paths.len());
    let col = path_column(paths, pos, paths.len());
    let r = phyto_multipath_decoded(k, parity, paths)->Ok_0[pos];
    lemma_majority_is_smallest_mode(col);
    assert(r == crate::symbols::majority_of(col));
    assert forall|u: u8| #[trigger] carriers(paths, pos, u, paths.len()) == count_of(col, u) by {
        lemma_column_counts_carriers(paths, pos, u, paths.len());
    }
    lemma_column_counts_carriers(paths, pos, r, paths.len());
    assert(is_smallest_mode(col, r));
    assert forall|u: u8| u < r implies #[trigger] carriers(paths, pos, u, paths.len()) < carriers(paths, pos, r, paths.len()) by {
        assert(count_of(col, u) < count_of(col, r));
    }
}

} // verus!
