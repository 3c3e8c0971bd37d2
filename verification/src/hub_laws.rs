//! Laws of hub-tree syndrome decoding: a single corrupted spoke is always noticed, and with at
//! least two parity symbols per hub it is located and restored.

use vstd::prelude::*;
use crate::galois::{
    gf_mul, gf_pow, lemma_div_mul_cancel, lemma_mul_associative, lemma_mul_commutative, lemma_mul_identity_zero,
    lemma_mul_linear_left, lemma_no_zero_divisors, lemma_pow_255, lemma_pow_add, lemma_pow_mul, lemma_pow_nonzero,
    lemma_pow_of_one, lemma_xor_cancel, lemma_xor_facts,
};
use crate::primitive::lemma_powers_of_two_distinct;
use crate::hub_tree::{group_parity, hub_coeff, hub_groups, lemma_failed_hubs_below, HubTree, Ratio, SyndromeResult};

verus! {

/// `s` is one of the first `m` spokes of `group`.
pub open spec fn lists_spoke(group: Seq<usize>, s: int, m: nat) -> bool {
    exists|t: int| 0 <= t < m && group[t] as int == s
}

/// Changing the value of spoke `s` to `v` changes a parity symbol by `(v - data[s])` times the
/// spoke's coefficient when the group lists the spoke (once), and not at all otherwise.
proof fn lemma_group_parity_change(group: Seq<usize>, data: Seq<u8>, s: int, v: u8, p: int, m: nat)
    requires
        m <= group.len(),
        group.no_duplicates(),
        0 <= s < data.len(),
    ensures
        group_parity(group, data.update(s, v), p, m) == group_parity(group, data, p, m) ^ (if lists_spoke(
            group,
            s,
            m,
        ) {
            gf_mul(v ^ data[s], hub_coeff(p, s))
        } else {
            0u8
        }),
    decreases m,
{
    let d2 = data.update(s, v);
    if m == 0 {
        lemma_xor_facts(0u8, 0u8, 0u8);
    } else {
        lemma_group_parity_change(group, data, s, v, p, (m - 1) as nat);
        let x = group[m - 1] as int;
        let old_rest = group_parity(group, data, p, (m - 1) as nat);
        let new_rest = group_parity(group, d2, p, (m - 1) as nat);
        let c = hub_coeff(p, s);
        let delta = gf_mul(v ^ data[s], c);
        if x == s {
            assert(lists_spoke(group, s, m));
            assert(!lists_spoke(group, s, (m - 1) as nat)) by {
                if lists_spoke(group, s, (m - 1) as nat) {
                    let t = choose|t: int| 0 <= t < m - 1 && group[t] as int == s;
                    assert(group[t] == group[m - 1]);
                }
            }
            lemma_xor_facts(old_rest, 0u8, 0u8);
            lemma_mul_linear_left(v, data[s], c);
            lemma_xor_facts(v, data[s], 0u8);
            let tv = gf_mul(v, c);
            let td = gf_mul(data[s], c);
            assert(delta == tv ^ td) by {
                lemma_mul_linear_left(v, data[s], c);
            }
            lemma_xor_facts(old_rest, td, delta);
            lemma_xor_facts(td, td, tv);
            lemma_xor_facts(td, tv, 0u8);
            lemma_xor_facts(tv, 0u8, 0u8);
            lemma_xor_facts(0u8, tv, 0u8);
            assert(td ^ (tv ^ td) == tv) by {
                lemma_xor_facts(tv, td, td);
                lemma_xor_facts(td, tv, td);
                lemma_xor_facts(td, td, tv);
            }
        } else {
            assert(lists_spoke(group, s, m) == lists_spoke(group, s, (m - 1) as nat)) by {
                if lists_spoke(group, s, m) {
                    let t = choose|t: int| 0 <= t < m && group[t] as int == s;
                    assert(t != m - 1);
                }
            }
            let e: u8 = if lists_spoke(group, s, (m - 1) as nat) {
                delta
            } else {
                0u8
            };
            if x < data.len() {
                assert(d2[x] == data[x]);
                let term = gf_mul(data[x], hub_coeff(p, x));
                lemma_xor_facts(old_rest, e, term);
                lemma_xor_facts(old_rest, term, e);
                lemma_xor_facts(e, term, 0u8);
            }
        }
    }
}

/// Group `h` of a network built with groups of `g` consecutive spokes lists only spokes of the
/// network, and lists spoke `s` exactly when `h` is `s / g`.
proof fn lemma_group_lists(spokes: nat, hub_parity: nat, h: int, s: int)
    requires
        0 <= h < hub_groups(spokes, hub_parity).len(),
        0 <= s,
        spokes <= usize::MAX,
    ensures
        hub_groups(spokes, hub_parity)[h].no_duplicates(),
        forall|i: int| 0 <= i < hub_groups(spokes, hub_parity)[h].len() ==> (#[trigger] hub_groups(spokes, hub_parity)[h][i] as int) < spokes,
        s < spokes ==> (lists_spoke(hub_groups(spokes, hub_parity)[h], s, hub_groups(spokes, hub_parity)[h].len()) <==> h == s / (
        hub_parity + 1) as int),
{
    let g: int = (hub_parity + 1) as int;
    let group = hub_groups(spokes, hub_parity)[h];
    let end = if (h + 1) * g <= spokes {
        (h + 1) * g
    } else {
        spokes as int
    };
    assert(h * g >= 0) by (nonlinear_arith)
        requires
            h >= 0,
            g >= 1,
    ;
    assert(h * g < end) by {
        let nh = (spokes as int + g - 1) / g;
        vstd::arithmetic::div_mod::lemma_fundamental_div_mod(spokes as int + g - 1, g);
        let r = (spokes as int + g - 1) % g;
        assert(nh * g + r == spokes + g - 1) by (nonlinear_arith)
            requires
                spokes + g - 1 == g * nh + r,
        ;
        assert(h + 1 <= nh);
        assert((h + 1) * g <= nh * g) by (nonlinear_arith)
            requires
                h + 1 <= nh,
                g >= 1,
        ;
        assert(h * g + g == (h + 1) * g) by (nonlinear_arith);
    }
    assert(group.len() == end - h * g);
    assert forall|i: int| 0 <= i < group.len() implies #[trigger] group[i] as int == h * g + i by {
        assert(group[i] == (h * g + i) as usize);
        assert(0 <= h * g + i < end <= spokes);
    }
    assert forall|i: int, j: int| 0 <= i < group.len() && 0 <= j < group.len() && i != j implies group[i] != group[j] by {
        assert(group[i] as int == h * g + i);
        assert(group[j] as int == h * g + j);
    }
    assert(h * g + g == (h + 1) * g) by (nonlinear_arith);
    if s < spokes && h == s / g {
        let t = s - h * g;
        vstd::arithmetic::div_mod::lemma_fundamental_div_mod(s, g);
        assert(s == h * g + s % g) by (nonlinear_arith)
            requires
                s == g * (s / g) + s % g,
                h == s / g,
        ;
        assert(0 <= t < g);
        assert(t < group.len()) by {
            assert(s < end);
        }
        assert(group[t] as int == s);
    }
    if lists_spoke(group, s, group.len()) {
        let t = choose|t: int| 0 <= t < group.len() && group[t] as int == s;
        assert(group[t] as int == h * g + t);
        vstd::arithmetic::div_mod::lemma_fundamental_div_mod_converse(s, g, h, t);
    }
}

/// The failed hubs of a network in which only hub `hs` has failed, among the first `n`.
proof fn lemma_one_failed(tree: HubTree, data: Seq<u8>, stored: Seq<Seq<u8>>, hs: int, n: nat)
    requires
        forall|h: int| 0 <= h < n ==> (#[trigger] tree.hub_failed(h, data, stored) <==> h == hs),
        n <= usize::MAX,
    ensures
        tree.failed_hubs(data, stored, n).len() == (if 0 <= hs < n {
            1nat
        } else {
            0nat
        }),
        0 <= hs < n ==> tree.failed_hubs(data, stored, n)[0] == hs,
    decreases n,
{
    if n > 0 {
        lemma_one_failed(tree, data, stored, hs, (n - 1) as nat);
        assert(tree.hub_failed(n - 1, data, stored) <==> n - 1 == hs);
    }
}

/// With one spoke `s` changed to `v` after the parity was stored, only the hub of `s` fails,
/// and its syndrome is the change times the spoke's coefficients.
proof fn lemma_single_fault_picture(tree: HubTree, data: Seq<u8>, s: int, v: u8)
    requires
        tree.connectivity@.map_values(|g: Vec<usize>| g@) == hub_groups(tree.spokes as nat, tree.hub_parity as nat),
        tree.hub_parity >= 1,
        tree.connectivity@.len() <= usize::MAX,
        data.len() == tree.spokes,
        0 <= s < data.len(),
        v != data[s],
    ensures
        0 <= s / ((tree.hub_parity + 1) as int) < tree.connectivity@.len(),
        tree.failed_hubs(
            data.update(s, v),
            Seq::new(tree.connectivity@.len(), |h: int| tree.hub_parity_of(h, data)),
            tree.connectivity@.len(),
        ) == seq![(s / (tree.hub_parity + 1) as int) as usize],
        tree.syndrome_of(
            s / (tree.hub_parity + 1) as int,
            data.update(s, v),
            Seq::new(tree.connectivity@.len(), |h: int| tree.hub_parity_of(h, data)),
        ) == fault_syndrome(tree.hub_parity as nat, data, s, v),
{
    let groups = hub_groups(tree.spokes as nat, tree.hub_parity as nat);
    let nh = tree.connectivity@.len();
    let g: int = (tree.hub_parity + 1) as int;
    let hs = s / g;
    let d2 = data.update(s, v);
    lemma_pow_nonzero(2u8, (((0 + 1) * (s + 1)) % 255) as nat);
    let stored = Seq::new(nh, |h: int| tree.hub_parity_of(h, data));
    assert(groups.len() == nh);
    assert(0 <= hs < nh) by {
        vstd::arithmetic::div_mod::lemma_fundamental_div_mod(s, g);
        vstd::arithmetic::div_mod::lemma_fundamental_div_mod(tree.spokes as int + g - 1, g);
        let q = (tree.spokes as int + g - 1) / g;
        let r = (tree.spokes as int + g - 1) % g;
        assert(hs >= 0) by {
            vstd::arithmetic::div_mod::lemma_div_pos_is_pos(s, g);
        }
        assert(hs < q) by (nonlinear_arith)
            requires
                s == g * hs + s % g,
                0 <= s % g < g,
                tree.spokes + g - 1 == g * q + r,
                0 <= r < g,
                s < tree.spokes,
                g >= 1,
        ;
    }
    assert forall|h: int| 0 <= h < nh implies (#[trigger] tree.hub_failed(h, d2, stored) <==> h == hs) by {
        let group = tree.group_of(h);
        assert(group == groups[h]);
        lemma_group_lists(tree.spokes as nat, tree.hub_parity as nat, h, s);
        let syn = tree.syndrome_of(h, d2, stored);
        assert(syn.len() == tree.hub_parity);
        assert forall|p: int| 0 <= p < syn.len() implies #[trigger] syn[p] == (if h == hs {
            gf_mul(v ^ data[s], hub_coeff(p, s))
        } else {
            0u8
        }) by {
            lemma_group_parity_change(group, data, s, v, p, group.len());
            let a = group_parity(group, data, p, group.len());
            let e: u8 = if h == hs {
                gf_mul(v ^ data[s], hub_coeff(p, s))
            } else {
                0u8
            };
            lemma_xor_facts(a, e, a);
            lemma_xor_facts(a, a, e);
            lemma_xor_facts(e, a, 0u8);
            lemma_xor_facts(e, 0u8, 0u8);
        }
        if h == hs {
            lemma_xor_facts(v, data[s], 0u8);
            lemma_xor_cancel(v, data[s], 0u8);
            lemma_no_zero_divisors(v ^ data[s], hub_coeff(0, s));
            assert(syn[0] != 0u8);
        } else {
            if tree.hub_failed(h, d2, stored) {
                let p = choose|p: int| 0 <= p < syn.len() && #[trigger] syn[p] != 0u8;
            }
        }
    }
    lemma_one_failed(tree, d2, stored, hs, nh);
    assert(tree.failed_hubs(d2, stored, nh) =~= seq![hs as usize]);
    let syn = tree.syndrome_of(hs, d2, stored);
    assert(syn =~= fault_syndrome(tree.hub_parity as nat, data, s, v)) by {
        assert(tree.group_of(hs) == groups[hs]);
        lemma_group_lists(tree.spokes as nat, tree.hub_parity as nat, hs, s);
        assert forall|p: int| 0 <= p < syn.len() implies #[trigger] syn[p] == fault_syndrome(
            tree.hub_parity as nat,
            data,
            s,
            v,
        )[p] by {
            let group = tree.group_of(hs);
            lemma_group_parity_change(group, data, s, v, p, group.len());
            let a = group_parity(group, data, p, group.len());
            let e = gf_mul(v ^ data[s], hub_coeff(p, s));
            lemma_xor_facts(a, e, a);
            lemma_xor_facts(a, a, e);
            lemma_xor_facts(e, 0u8, 0u8);
        }
    }
}


/// The syndrome left by changing spoke `s` of `data` to `v`: the change times each of the
/// spoke's coefficients.
pub open spec fn fault_syndrome(hub_parity: nat, data: Seq<u8>, s: int, v: u8) -> Seq<u8> {
    Seq::new(hub_parity, |p: int| gf_mul(v ^ data[s], hub_coeff(p, s)))
}

/// Syndrome decoding always reports a single corrupted spoke: when the stored parity was
/// computed from the original data of a network as built, with at least one parity symbol per
/// hub, the result names an error position.
pub proof fn lemma_hub_single_fault_detected(tree: HubTree, data: Seq<u8>, s: int, v: u8)
    requires
        tree.connectivity@.map_values(|g: Vec<usize>| g@) == hub_groups(tree.spokes as nat, tree.hub_parity as nat),
        tree.hub_parity >= 1,
        tree.connectivity@.len() <= usize::MAX,
        data.len() == tree.spokes,
        0 <= s < data.len(),
        v != data[s],
    ensures
        tree.detection(
            data.update(s, v),
            Seq::new(tree.connectivity@.len(), |h: int| tree.hub_parity_of(h, data)),
        ).error_position is Some,
{
    lemma_single_fault_picture(tree, data, s, v);
}

/// Skipping group members that do not explain the syndrome does not change the search.
proof fn lemma_first_explaining_skip(group: Seq<usize>, syn: Seq<u8>, data: Seq<u8>, j: nat)
    requires
        j <= group.len(),
        forall|i: int| 0 <= i < j ==> !HubTree::spoke_explains(syn, data, #[trigger] group[i] as int),
    ensures
        HubTree::first_explaining(group, syn, data, 0) == HubTree::first_explaining(group, syn, data, j),
    decreases j,
{
    if j > 0 {
        lemma_first_explaining_skip(group, syn, data, (j - 1) as nat);
    }
}

/// A power of the primitive element depends on its exponent modulo 255 only.
proof fn lemma_pow2_mod(n: nat)
    ensures
        gf_pow(2u8, n) == gf_pow(2u8, n % 255),
{
    let q = n / 255;
    let r = n % 255;
    vstd::arithmetic::div_mod::lemma_fundamental_div_mod(n as int, 255);
    assert(n == 255 * q + r);
    lemma_pow_add(2u8, 255 * q, r);
    lemma_pow_mul(2u8, 255, q);
    lemma_pow_255(2u8);
    lemma_pow_of_one(q);
    lemma_mul_identity_zero(gf_pow(2u8, r));
}

/// `hub_coeff(p, s)` is `alpha^((p + 1) * (s + 1))` without the reduction of the exponent.
proof fn lemma_hub_coeff_power(p: int, s: int)
    requires
        p >= 0,
        s >= 0,
    ensures
        hub_coeff(p, s) == gf_pow(2u8, ((p + 1) * (s + 1)) as nat),
{
    assert((p + 1) * (s + 1) >= 0) by (nonlinear_arith)
        requires
            p >= 0,
            s >= 0,
    ;
    lemma_pow2_mod(((p + 1) * (s + 1)) as nat);
}

/// A spoke `t` less than 255 places before the corrupted spoke `s` does not explain the syndrome
/// that `s` leaves when there are at least two parity symbols.
proof fn lemma_no_earlier_spoke(hp: nat, data: Seq<u8>, s: int, v: u8, t: int)
    requires
        hp >= 2,
        0 <= t < s < data.len(),
        s - t < 255,
        v != data[s],
    ensures
        !HubTree::spoke_explains(fault_syndrome(hp, data, s, v), data.update(s, v), t),
{
    let syn = fault_syndrome(hp, data, s, v);
    let d2 = data.update(s, v);
    if HubTree::spoke_explains(syn, d2, t) {
        let ev = v ^ data[s];
        lemma_xor_facts(v, data[s], 0u8);
        lemma_xor_cancel(v, data[s], 0u8);
        assert(ev != 0u8);
        let x = gf_pow(2u8, (t + 1) as nat);
        let y = gf_pow(2u8, (s + 1) as nat);
        lemma_hub_coeff_power(0, t);
        lemma_hub_coeff_power(1, t);
        lemma_hub_coeff_power(0, s);
        lemma_hub_coeff_power(1, s);
        assert((0 + 1) * (t + 1) == t + 1 && (1 + 1) * (t + 1) == (t + 1) + (t + 1)) by (nonlinear_arith);
        assert((0 + 1) * (s + 1) == s + 1 && (1 + 1) * (s + 1) == (s + 1) + (s + 1)) by (nonlinear_arith);
        lemma_pow_add(2u8, (t + 1) as nat, (t + 1) as nat);
        lemma_pow_add(2u8, (s + 1) as nat, (s + 1) as nat);
        lemma_pow_nonzero(2u8, (t + 1) as nat);
        lemma_pow_nonzero(2u8, (s + 1) as nat);
        let s0 = syn[0];
        let et = HubTree::spoke_error_value(syn, t);
        assert(gf_mul(et, hub_coeff(1, t)) == syn[1]);
        assert(s0 == gf_mul(ev, y));
        lemma_div_mul_cancel(s0, x);
        lemma_mul_associative(et, x, x);
        lemma_mul_associative(ev, y, y);
        assert(gf_mul(s0, x) == gf_mul(s0, y));
        lemma_no_zero_divisors(ev, y);
        lemma_mul_commutative(s0, x);
        lemma_mul_commutative(s0, y);
        lemma_div_mul_cancel(x, s0);
        lemma_div_mul_cancel(y, s0);
        assert(x == y);
        lemma_pow2_mod((t + 1) as nat);
        lemma_pow2_mod((s + 1) as nat);
        vstd::arithmetic::div_mod::lemma_mod_bound(t + 1, 255);
        vstd::arithmetic::div_mod::lemma_mod_bound(s + 1, 255);
        lemma_powers_of_two_distinct(((t + 1) % 255) as nat, ((s + 1) % 255) as nat);
        vstd::arithmetic::div_mod::lemma_mod_equivalence(s + 1, t + 1, 255);
        vstd::arithmetic::div_mod::lemma_small_mod((s - t) as nat, 255);
    }
}

/// With at least two parity symbols per hub, and either groups of at most 255 spokes or at most
/// 255 spokes in all, a single corrupted spoke is located exactly and its value restored: the
/// ratio `alpha^(s + 1)` of its first two syndrome symbols differs from that of every other spoke
/// of its group.
pub proof fn lemma_hub_single_fault_located(tree: HubTree, data: Seq<u8>, s: int, v: u8)
    requires
        tree.connectivity@.map_values(|g: Vec<usize>| g@) == hub_groups(tree.spokes as nat, tree.hub_parity as nat),
        tree.hub_parity >= 2,
        tree.hub_parity < 255 || tree.spokes <= 255,
        tree.connectivity@.len() <= usize::MAX,
        data.len() == tree.spokes,
        0 <= s < data.len(),
        v != data[s],
    ensures
        ({
            let r = tree.detection(
                data.update(s, v),
                Seq::new(tree.connectivity@.len(), |h: int| tree.hub_parity_of(h, data)),
            );
            &&& r.error_position == Some(s as usize)
            &&& r.corrected
            &&& r.corrected_value == Some(data[s])
        }),
{
    lemma_single_fault_picture(tree, data, s, v);
    let g: int = (tree.hub_parity + 1) as int;
    let hs = s / g;
    let d2 = data.update(s, v);
    let syn = fault_syndrome(tree.hub_parity as nat, data, s, v);
    let groups = hub_groups(tree.spokes as nat, tree.hub_parity as nat);
    assert(groups.len() == tree.connectivity@.len()) by {
        assert(tree.connectivity@.map_values(|g: Vec<usize>| g@).len() == tree.connectivity@.len());
    }
    assert(0 <= hs < groups.len());
    let group = tree.connectivity@[hs]@;
    assert(group == groups[hs]);
    let idx = s - hs * g;
    assert(0 <= idx < g && hs * g + idx == s) by {
        vstd::arithmetic::div_mod::lemma_fundamental_div_mod(s, g);
        assert(s == hs * g + s % g) by (nonlinear_arith)
            requires
                s == g * (s / g) + s % g,
                hs == s / g,
        ;
    }
    lemma_group_lists(tree.spokes as nat, tree.hub_parity as nat, hs, s);
    let t0 = choose|t: int| 0 <= t < group.len() && group[t] as int == s;
    assert(hs * g >= 0) by (nonlinear_arith)
        requires
            hs >= 0,
            g >= 1,
    ;
    let end = if (hs + 1) * g <= tree.spokes {
        (hs + 1) * g
    } else {
        tree.spokes as int
    };
    assert((hs + 1) * g == hs * g + g) by (nonlinear_arith);
    assert(hs * g <= s < end);
    assert(group.len() == end - hs * g);
    assert forall|i: int| 0 <= i < group.len() implies #[trigger] group[i] as int == hs * g + i by {
        assert(groups[hs][i] == (hs * g + i) as usize);
        assert(0 <= hs * g + i < end <= tree.spokes);
    }
    assert(t0 == idx);
    assert forall|i: int| 0 <= i < idx implies !HubTree::spoke_explains(syn, d2, #[trigger] group[i] as int) by {
        assert(group[i] as int == hs * g + i);
        assert(s - (hs * g + i) < 255) by {
            if tree.hub_parity < 255 {
                assert(idx < g <= 255);
            } else {
                assert(s < tree.spokes <= 255);
                assert(hs * g + i >= 0);
            }
        }
        lemma_no_earlier_spoke(tree.hub_parity as nat, data, s, v, hs * g + i);
    }
    lemma_first_explaining_skip(group, syn, d2, idx as nat);
    let ev = v ^ data[s];
    lemma_pow_nonzero(2u8, (((0 + 1) * (s + 1)) % 255) as nat);
    lemma_div_mul_cancel(ev, hub_coeff(0, s));
    assert(HubTree::spoke_error_value(syn, s) == ev);
    assert(HubTree::spoke_explains(syn, d2, s));
    assert(HubTree::first_explaining(group, syn, d2, 0) == Some(idx as nat));
    let dv = data[s];
    lemma_xor_facts(v, v, dv);
    lemma_xor_facts(dv, 0u8, 0u8);
}

/// The failed hubs listed among the first `n` are exactly the hubs below `n` that failed.
proof fn lemma_failed_hubs_members(tree: HubTree, data: Seq<u8>, stored: Seq<Seq<u8>>, n: nat, h: int)
    requires
        0 <= h < n,
        n <= usize::MAX,
    ensures
        tree.hub_failed(h, data, stored) <==> tree.failed_hubs(data, stored, n).contains(h as usize),
    decreases n,
{
    let f = tree.failed_hubs(data, stored, n);
    if h < n - 1 {
        lemma_failed_hubs_members(tree, data, stored, (n - 1) as nat, h);
        let f1 = tree.failed_hubs(data, stored, (n - 1) as nat);
        lemma_failed_hubs_below(tree, data, stored, (n - 1) as nat);
        if tree.hub_failed(n - 1, data, stored) {
            assert(f == f1.push((n - 1) as usize));
            if f.contains(h as usize) && !f1.contains(h as usize) {
                let q = choose|q: int| 0 <= q < f.len() && f[q] == h as usize;
                assert(q == f1.len());
            }
            if f1.contains(h as usize) {
                let q = choose|q: int| 0 <= q < f1.len() && f1[q] == h as usize;
                assert(f[q] == h as usize);
            }
        }
    } else {
        lemma_failed_hubs_below(tree, data, stored, (n - 1) as nat);
        let f1 = tree.failed_hubs(data, stored, (n - 1) as nat);
        if tree.hub_failed(h, data, stored) {
            assert(f == f1.push(h as usize));
            assert(f[f1.len() as int] == h as usize);
        } else {
            assert(f == f1);
            if f.contains(h as usize) {
                let q = choose|q: int| 0 <= q < f1.len() && f1[q] == h as usize;
            }
        }
    }
}

/// A report of clean data: no position named and the data taken as correct.
pub open spec fn clean_report(r: SyndromeResult) -> bool {
    r.error_position is None && r.corrected
}

/// Every syndrome symbol of every hub of `tree` is zero for `data` against `stored`.
pub open spec fn all_syndromes_zero(tree: HubTree, data: Seq<u8>, stored: Seq<Seq<u8>>) -> bool {
    forall|h: int, p: int|
        0 <= h < tree.connectivity@.len() && 0 <= p < tree.syndrome_of(h, data, stored).len()
            ==> #[trigger] tree.syndrome_of(h, data, stored)[p] == 0u8
}

/// Syndrome decoding reports no position and the data corrected exactly when every syndrome
/// symbol of every hub is zero, and then it reports no corrected value and full confidence.
pub proof fn lemma_hub_clean_iff_zero_syndromes(tree: HubTree, data: Seq<u8>, stored: Seq<Seq<u8>>)
    requires
        tree.connectivity@.len() <= usize::MAX,
    ensures
        clean_report(tree.detection(data, stored)) <==> all_syndromes_zero(tree, data, stored),
        clean_report(tree.detection(data, stored)) ==> tree.detection(data, stored).corrected_value == Option::<u8>::None,
        clean_report(tree.detection(data, stored)) ==> tree.detection(data, stored).confidence == (Ratio { numerator: 1, denominator: 1 }),
{
    let nh = tree.connectivity@.len();
    let r = tree.detection(data, stored);
    let failed = tree.failed_hubs(data, stored, nh);
    lemma_failed_hubs_below(tree, data, stored, nh);
    if failed.len() == 0 {
        assert forall|h: int, p: int|
            0 <= h < nh && 0 <= p < tree.syndrome_of(h, data, stored).len() implies #[trigger] tree.syndrome_of(
            h,
            data,
            stored,
        )[p] == 0u8 by {
            lemma_failed_hubs_members(tree, data, stored, nh, h);
        }
    } else {
        let h0 = failed[0] as int;
        assert(0 <= h0 < nh);
        assert(tree.hub_failed(h0, data, stored));
        let p0 = choose|p: int|
            0 <= p < tree.syndrome_of(h0, data, stored).len() && #[trigger] tree.syndrome_of(h0, data, stored)[p]
                != 0u8;
        assert(tree.syndrome_of(h0, data, stored)[p0] != 0u8);
        assert(!(r.error_position is None && r.corrected));
    }
}

/// The search returns an index whose spoke explains the syndrome.
proof fn lemma_first_explaining_found(group: Seq<usize>, syn: Seq<u8>, data: Seq<u8>, j: nat)
    ensures
        HubTree::first_explaining(group, syn, data, j) matches Some(i) ==> j <= i < group.len()
            && HubTree::spoke_explains(syn, data, group[i as int] as int),
    decreases group.len() - j,
{
    if j < group.len() && !HubTree::spoke_explains(syn, data, group[j as int] as int) {
        lemma_first_explaining_found(group, syn, data, j + 1);
    }
}

/// The data as syndrome decoding leaves it: the reported spoke set to its corrected value.
pub open spec fn decoded_spokes(data: Seq<u8>, r: SyndromeResult) -> Seq<u8> {
    match (r.error_position, r.corrected_value) {
        (Some(pos), Some(val)) => if pos < data.len() {
            data.update(pos as int, val)
        } else {
            data
        },
        _ => data,
    }
}

/// Whenever syndrome decoding of a network as built reports the data corrected, every syndrome
/// of the decoded data against the stored parity is zero.
pub proof fn lemma_hub_correction_clears_syndromes(tree: HubTree, data: Seq<u8>, stored: Seq<Seq<u8>>)
    requires
        tree.connectivity@.map_values(|g: Vec<usize>| g@) == hub_groups(tree.spokes as nat, tree.hub_parity as nat),
        tree.connectivity@.len() <= usize::MAX,
    ensures
        tree.detection(data, stored).corrected ==> forall|h: int, p: int|
            0 <= h < tree.connectivity@.len() && 0 <= p < tree.syndrome_of(
                h,
                decoded_spokes(data, tree.detection(data, stored)),
                stored,
            ).len() ==> #[trigger] tree.syndrome_of(h, decoded_spokes(data, tree.detection(data, stored)), stored)[p]
                == 0u8,
{
    let nh = tree.connectivity@.len();
    let r = tree.detection(data, stored);
    let failed = tree.failed_hubs(data, stored, nh);
    let groups = hub_groups(tree.spokes as nat, tree.hub_parity as nat);
    assert(groups.len() == nh) by {
        assert(tree.connectivity@.map_values(|g: Vec<usize>| g@).len() == nh);
    }
    if r.corrected {
        let fixed = decoded_spokes(data, r);
        if failed.len() == 0 {
            assert(fixed == data);
            assert forall|h: int, p: int|
                0 <= h < nh && 0 <= p < tree.syndrome_of(h, fixed, stored).len() implies #[trigger] tree.syndrome_of(
                h,
                fixed,
                stored,
            )[p] == 0u8 by {
                lemma_failed_hubs_members(tree, data, stored, nh, h);
            }
        } else {
            assert(failed.len() == 1);
            lemma_failed_hubs_below(tree, data, stored, nh);
            let h0 = failed[0] as int;
            assert(0 <= h0 < nh);
            let group = tree.connectivity@[h0]@;
            assert(group == groups[h0]);
            let syn = tree.syndrome_of(h0, data, stored);
            lemma_first_explaining_found(group, syn, data, 0);
            let i = HubTree::first_explaining(group, syn, data, 0)->0;
            let s = group[i as int] as int;
            lemma_group_lists(tree.spokes as nat, tree.hub_parity as nat, h0, 0);
            assert(s < tree.spokes);
            let ev = HubTree::spoke_error_value(syn, s);
            let val = data[s] ^ ev;
            assert(fixed == data.update(s, val));
            lemma_group_lists(tree.spokes as nat, tree.hub_parity as nat, h0, s);
            assert(lists_spoke(group, s, group.len()));
            lemma_xor_facts(data[s], ev, data[s]);
            lemma_xor_facts(data[s], data[s], ev);
            lemma_xor_facts(ev, 0u8, 0u8);
            assert(val ^ data[s] == ev);
            assert forall|h: int, p: int|
                0 <= h < nh && 0 <= p < tree.syndrome_of(h, fixed, stored).len() implies #[trigger] tree.syndrome_of(
                h,
                fixed,
                stored,
            )[p] == 0u8 by {
                let g = tree.group_of(h);
                assert(g == groups[h]);
                lemma_group_lists(tree.spokes as nat, tree.hub_parity as nat, h, s);
                lemma_group_parity_change(g, data, s, val, p, g.len());
                let a = group_parity(g, data, p, g.len());
                let st = if h < stored.len() {
                    stored[h]
                } else {
                    seq![]
                };
                if h == h0 {
                    assert(syn[p] == a ^ st[p]);
                    assert(gf_mul(ev, hub_coeff(p, s)) == syn[p]);
                    let x = syn[p];
                    let b = st[p];
                    lemma_xor_facts(a, x, b);
                    lemma_xor_facts(x, b, 0u8);
                    lemma_xor_facts(a, b, x);
                    lemma_xor_facts(a ^ b, a ^ b, 0u8);
                    assert((a ^ x) ^ b == (a ^ b) ^ x);
                } else {
                    lemma_failed_hubs_members(tree, data, stored, nh, h);
                    if failed.contains(h as usize) {
                        let q = choose|q: int| 0 <= q < failed.len() && failed[q] == h as usize;
                    }
                    lemma_xor_facts(a, 0u8, 0u8);
                    assert(tree.syndrome_of(h, data, stored)[p] == 0u8);
                }
            }
        }
    }
}

} // verus!
