//! Syndrome decoding on hub-and-spoke networks: mother trees act as parity nodes for groups of
//! spoke trees, and their syndromes locate a compromised tree.

use vstd::prelude::*;
use crate::galois::{gf_div, gf_mul, gf_pow, lemma_pow_nonzero, lemma_xor_facts};
use crate::gf256::GF256;
use crate::symbols::prefix_copy;

verus! {

/// A fraction `numerator / denominator`.
#[derive(Clone, Copy, Debug, PartialEq, Eq, Structural)]
pub struct Ratio {
    pub numerator: u128,
    pub denominator: u128,
}

/// `2^128`.
pub open spec fn two_128() -> int {
    0x1_0000_0000_0000_0000_0000_0000_0000_0000int
}

/// `a * b` as a high and a low 128-bit half.
fn wide_mul(a: u128, b: u128) -> (r: (u128, u128))
    ensures
        r.0 * two_128() + r.1 == a * b,
{
    let m: u128 = 0xffff_ffff_ffff_ffffu128;
    let a0 = a & m;
    let a1 = a >> 64u128;
    let b0 = b & m;
    let b1 = b >> 64u128;
    assert(a == a1 * 0x1_0000_0000_0000_0000u128 + a0 && a0 <= m && a1 <= m) by (bit_vector)
        requires
            a0 == a & m,
            a1 == a >> 64u128,
            m == 0xffff_ffff_ffff_ffffu128,
    ;
    assert(b == b1 * 0x1_0000_0000_0000_0000u128 + b0 && b0 <= m && b1 <= m) by (bit_vector)
        requires
            b0 == b & m,
            b1 == b >> 64u128,
            m == 0xffff_ffff_ffff_ffffu128,
    ;
    assert(a0 * b0 <= m * m && a0 * b1 <= m * m && a1 * b0 <= m * m && a1 * b1 <= m * m) by (nonlinear_arith)
        requires
            a0 <= m,
            a1 <= m,
            b0 <= m,
            b1 <= m,
    ;
    let p00 = a0 * b0;
    let p01 = a0 * b1;
    let p10 = a1 * b0;
    let p11 = a1 * b1;
    let l00 = p00 & m;
    let h00 = p00 >> 64u128;
    let l01 = p01 & m;
    let h01 = p01 >> 64u128;
    let l10 = p10 & m;
    let h10 = p10 >> 64u128;
    assert(p00 == h00 * 0x1_0000_0000_0000_0000u128 + l00 && l00 <= m && h00 <= m) by (bit_vector)
        requires
            l00 == p00 & m,
            h00 == p00 >> 64u128,
            m == 0xffff_ffff_ffff_ffffu128,
    ;
    assert(p01 == h01 * 0x1_0000_0000_0000_0000u128 + l01 && l01 <= m && h01 <= m) by (bit_vector)
        requires
            l01 == p01 & m,
            h01 == p01 >> 64u128,
            m == 0xffff_ffff_ffff_ffffu128,
    ;
    assert(p10 == h10 * 0x1_0000_0000_0000_0000u128 + l10 && l10 <= m && h10 <= m) by (bit_vector)
        requires
            l10 == p10 & m,
            h10 == p10 >> 64u128,
            m == 0xffff_ffff_ffff_ffffu128,
    ;
    let mid = h00 + l01 + l10;
    let lm = mid & m;
    let hm = mid >> 64u128;
    assert(mid == hm * 0x1_0000_0000_0000_0000u128 + lm && lm <= m && hm <= 2) by (bit_vector)
        requires
            lm == mid & m,
            hm == mid >> 64u128,
            mid <= 3 * m,
            m == 0xffff_ffff_ffff_ffffu128,
    ;
    let lo = l00 + lm * 0x1_0000_0000_0000_0000u128;
    assert(p11 <= m * m);
    let hi = p11 + h01 + h10 + hm;
    assert(hi * two_128() + lo == a * b) by (nonlinear_arith)
        requires
            a == a1 * 0x1_0000_0000_0000_0000u128 + a0,
            b == b1 * 0x1_0000_0000_0000_0000u128 + b0,
            p00 == a0 * b0,
            p01 == a0 * b1,
            p10 == a1 * b0,
            p11 == a1 * b1,
            p00 == h00 * 0x1_0000_0000_0000_0000u128 + l00,
            p01 == h01 * 0x1_0000_0000_0000_0000u128 + l01,
            p10 == h10 * 0x1_0000_0000_0000_0000u128 + l10,
            mid == h00 + l01 + l10,
            mid == hm * 0x1_0000_0000_0000_0000u128 + lm,
            lo == l00 + lm * 0x1_0000_0000_0000_0000u128,
            hi == p11 + h01 + h10 + hm,
            two_128() == 0x1_0000_0000_0000_0000u128 * 0x1_0000_0000_0000_0000u128,
    ;
    (hi, lo)
}

impl Ratio {
    /// Whether this fraction is at least `other` (cross-multiplied exactly).
    pub fn at_least(&self, other: &Ratio) -> (r: bool)
        ensures
            r == (self.numerator * other.denominator >= other.numerator * self.denominator),
    {
        let (h1, l1) = wide_mul(self.numerator, other.denominator);
        let (h2, l2) = wide_mul(other.numerator, self.denominator);
        proof {
            assert(l1 < two_128() && l2 < two_128());
            if h1 > h2 {
                assert(h1 * two_128() >= (h2 + 1) * two_128()) by (nonlinear_arith)
                    requires
                        h1 >= h2 + 1,
                        two_128() > 0,
                ;
            } else if h1 < h2 {
                assert(h2 * two_128() >= (h1 + 1) * two_128()) by (nonlinear_arith)
                    requires
                        h2 >= h1 + 1,
                        two_128() > 0,
                ;
            }
        }
        h1 > h2 || (h1 == h2 && l1 >= l2)
    }
}

/// Result of syndrome decoding.
#[derive(Clone, Debug)]
pub struct SyndromeResult {
    /// Position of the detected error (`None` if no error was located).
    pub error_position: Option<usize>,
    /// Whether correction was successful.
    pub corrected: bool,
    /// The corrected value at the error position.
    pub corrected_value: Option<u8>,
    /// Confidence in the detection, between zero and one.
    pub confidence: Ratio,
}

/// Hub-and-spoke network with mother trees as parity nodes.
#[derive(Clone, Debug)]
pub struct HubTree {
    /// Number of spoke (data) nodes.
    pub spokes: usize,
    /// Parity symbols per hub.
    pub hub_parity: usize,
    /// For each hub, the spokes it covers.
    pub connectivity: Vec<Vec<usize>>,
    /// Health of every node (spokes first, then hubs): `true` while it is healthy.
    pub node_health: Vec<bool>,
}

/// The coefficient for parity symbol `p` of spoke `s`: `alpha^((p + 1) * (s + 1))`, so that the
/// ratio of consecutive parity symbols of one fault, `alpha^(s + 1)`, tells the spokes of a
/// group apart.
pub open spec fn hub_coeff(p: int, s: int) -> u8 {
    gf_pow(2u8, (((p + 1) * (s + 1)) % 255) as nat)
}

/// The coefficient of spoke `s` in parity symbol `p`.
fn coeff_of(p: usize, s: usize) -> (c: GF256)
    requires
        p < usize::MAX,
        s < usize::MAX,
    ensures
        c.0 == hub_coeff(p as int, s as int),
        c.0 != 0u8,
{
    let a: usize = (p + 1) % 255;
    let b: usize = (s + 1) % 255;
    proof {
        assert(a * b < 255 * 255) by (nonlinear_arith)
            requires
                a < 255,
                b < 255,
        ;
    }
    let e: usize = (a * b) % 255;
    proof {
        vstd::arithmetic::div_mod::lemma_mul_mod_noop((p + 1) as int, (s + 1) as int, 255);
        lemma_pow_nonzero(2u8, e as nat);
    }
    GF256(2u8).pow(e as u32)
}

/// Parity symbol `p` over the first `m` spokes of `group` that carry data.
pub open spec fn group_parity(group: Seq<usize>, data: Seq<u8>, p: int, m: nat) -> u8
    decreases m,
{
    if m == 0 {
        0u8
    } else {
        let s = group[m - 1] as int;
        let rest = group_parity(group, data, p, (m - 1) as nat);
        if s < data.len() {
            rest ^ gf_mul(data[s], hub_coeff(p, s))
        } else {
            rest
        }
    }
}

/// The spoke groups of a network with `spokes` spokes and `hub_parity` parity symbols per hub:
/// consecutive blocks of `hub_parity + 1` spokes.
pub open spec fn hub_groups(spokes: nat, hub_parity: nat) -> Seq<Seq<usize>> {
    let g: int = hub_parity as int + 1;
    let num_hubs: int = (spokes as int + g - 1) / g;
    Seq::new(
        num_hubs as nat,
        |h: int|
            {
                let end = if (h + 1) * g <= spokes {
                    (h + 1) * g
                } else {
                    spokes as int
                };
                Seq::new((end - h * g) as nat, |s: int| (h * g + s) as usize)
            },
    )
}

/// Checking data against the parity it was encoded with finds every syndrome zero, so nothing
/// is reported as failed.
pub proof fn lemma_hub_clean_data(tree: HubTree, data: Seq<u8>)
    requires
        tree.connectivity@.len() <= usize::MAX,
    ensures
        tree.detection(
            data,
            Seq::new(tree.connectivity@.len(), |h: int| tree.hub_parity_of(h, data)),
        ) == (SyndromeResult {
            error_position: None,
            corrected: true,
            corrected_value: None,
            confidence: Ratio { numerator: 1, denominator: 1 },
        }),
{
    let stored = Seq::new(tree.connectivity@.len(), |h: int| tree.hub_parity_of(h, data));
    assert forall|h: int| 0 <= h < tree.connectivity@.len() implies !#[trigger] tree.hub_failed(h, data, stored) by {
        let syn = tree.syndrome_of(h, data, stored);
        assert forall|p: int| 0 <= p < syn.len() implies #[trigger] syn[p] == 0u8 by {
            lemma_xor_facts(tree.hub_parity_of(h, data)[p], 0u8, 0u8);
        }
    }
    lemma_no_failed_hubs(tree, data, stored, tree.connectivity@.len());
}

proof fn lemma_no_failed_hubs(tree: HubTree, data: Seq<u8>, stored: Seq<Seq<u8>>, n: nat)
    requires
        forall|h: int| 0 <= h < n ==> !#[trigger] tree.hub_failed(h, data, stored),
    ensures
        tree.failed_hubs(data, stored, n).len() == 0,
    decreases n,
{
    if n > 0 {
        lemma_no_failed_hubs(tree, data, stored, (n - 1) as nat);
    }
}

/// Whether some entry of `s` is non-zero.
fn has_nonzero(s: &[u8]) -> (r: bool)
    ensures
        r == exists|p: int| 0 <= p < s@.len() && #[trigger] s@[p] != 0u8,
{
    let mut i: usize = 0;
    while i < s.len()
        invariant
            i <= s@.len(),
            forall|p: int| 0 <= p < i ==> #[trigger] s@[p] == 0u8,
        decreases s@.len() - i,
    {
        if s[i] != 0u8 {
            return true;
        }
        i = i + 1;
    }
    false
}

/// Failed hubs are listed below `n`, in increasing order.
pub(crate) proof fn lemma_failed_hubs_below(tree: HubTree, data: Seq<u8>, stored: Seq<Seq<u8>>, n: nat)
    requires
        n <= usize::MAX,
    ensures
        forall|i: int| 0 <= i < tree.failed_hubs(data, stored, n).len() ==> #[trigger] tree.failed_hubs(data, stored, n)[i] < n,
        forall|i: int| 0 <= i < tree.failed_hubs(data, stored, n).len() ==> tree.hub_failed(
            #[trigger] tree.failed_hubs(data, stored, n)[i] as int,
            data,
            stored,
        ),
    decreases n,
{
    if n > 0 {
        let prev = tree.failed_hubs(data, stored, (n - 1) as nat);
        lemma_failed_hubs_below(tree, data, stored, (n - 1) as nat);
        let cur = tree.failed_hubs(data, stored, n);
        assert forall|i: int| 0 <= i < cur.len() implies #[trigger] cur[i] < n && tree.hub_failed(
            cur[i] as int,
            data,
            stored,
        ) by {
            if i < prev.len() {
                assert(cur[i] == prev[i]);
            }
        }
    }
}

impl HubTree {
    /// The group that hub `h` computes parity over (the last one for larger `h`).
    pub open spec fn group_of(self, h: int) -> Seq<usize> {
        let last = self.connectivity@.len() - 1;
        self.connectivity@[if h <= last {
            h
        } else {
            last
        }]@
    }

    /// The parity symbols of hub `h` for the given spoke data.
    pub open spec fn hub_parity_of(self, h: int, data: Seq<u8>) -> Seq<u8> {
        Seq::new(
            self.hub_parity as nat,
            |p: int| group_parity(self.group_of(h), data, p, self.group_of(h).len()),
        )
    }

    /// The syndrome of hub `h`: recomputed minus stored parity, as far as both go.
    pub open spec fn syndrome_of(self, h: int, data: Seq<u8>, stored: Seq<Seq<u8>>) -> Seq<u8> {
        let current = self.hub_parity_of(h, data);
        let st = if h < stored.len() {
            stored[h]
        } else {
            seq![]
        };
        let len = if current.len() <= st.len() {
            current.len()
        } else {
            st.len()
        };
        Seq::new(len, |p: int| current[p] ^ st[p])
    }

    /// Hub `h`'s syndrome has a non-zero entry.
    pub open spec fn hub_failed(self, h: int, data: Seq<u8>, stored: Seq<Seq<u8>>) -> bool {
        exists|p: int| 0 <= p < self.syndrome_of(h, data, stored).len() && #[trigger] self.syndrome_of(h, data, stored)[p] != 0u8
    }

    /// The error value a single fault at spoke `s` would have, given syndrome `syn`.
    pub open spec fn spoke_error_value(syn: Seq<u8>, s: int) -> u8 {
        gf_div(syn[0], hub_coeff(0, s))
    }

    /// A single fault at spoke `s` explains the whole syndrome `syn`.
    pub open spec fn spoke_explains(syn: Seq<u8>, data: Seq<u8>, s: int) -> bool {
        &&& s < data.len()
        &&& hub_coeff(0, s) != 0u8
        &&& syn.len() > 0
        &&& forall|p: int| 0 <= p < syn.len() ==> #[trigger] gf_mul(Self::spoke_error_value(syn, s), hub_coeff(p, s)) == syn[p]
    }

    /// The first index `i >= j` into `group` whose spoke explains the syndrome.
    pub open spec fn first_explaining(group: Seq<usize>, syn: Seq<u8>, data: Seq<u8>, j: nat) -> Option<nat>
        decreases group.len() - j,
    {
        if j >= group.len() {
            None
        } else if Self::spoke_explains(syn, data, group[j as int] as int) {
            Some(j)
        } else {
            Self::first_explaining(group, syn, data, j + 1)
        }
    }

    /// What syndrome decoding reports when exactly hub `h` has failed.
    pub open spec fn single_group_outcome(self, h: int, data: Seq<u8>, stored: Seq<Seq<u8>>) -> SyndromeResult {
        let group = self.connectivity@[h]@;
        let syn = self.syndrome_of(h, data, stored);
        match Self::first_explaining(group, syn, data, 0) {
            Some(i) => {
                let s = group[i as int] as int;
                SyndromeResult {
                    error_position: Some(s as usize),
                    corrected: true,
                    corrected_value: Some(data[s] ^ Self::spoke_error_value(syn, s)),
                    confidence: Ratio { numerator: 1, denominator: group.len() as u128 },
                }
            },
            None => SyndromeResult {
                error_position: Some((self.spokes + h) as usize),
                corrected: false,
                corrected_value: None,
                confidence: Ratio { numerator: 1, denominator: 2 },
            },
        }
    }

    /// The failed hubs among the first `n`, in increasing order.
    pub open spec fn failed_hubs(self, data: Seq<u8>, stored: Seq<Seq<u8>>, n: nat) -> Seq<usize>
        decreases n,
    {
        if n == 0 {
            seq![]
        } else if self.hub_failed(n - 1, data, stored) {
            self.failed_hubs(data, stored, (n - 1) as nat).push((n - 1) as usize)
        } else {
            self.failed_hubs(data, stored, (n - 1) as nat)
        }
    }

    /// What syndrome decoding reports: no failed hub, exactly one, or several.
    pub open spec fn detection(self, data: Seq<u8>, stored: Seq<Seq<u8>>) -> SyndromeResult {
        let failed = self.failed_hubs(data, stored, self.connectivity@.len());
        if failed.len() == 0 {
            SyndromeResult {
                error_position: None,
                corrected: true,
                corrected_value: None,
                confidence: Ratio { numerator: 1, denominator: 1 },
            }
        } else if failed.len() == 1 {
            self.single_group_outcome(failed[0] as int, data, stored)
        } else {
            SyndromeResult {
                error_position: None,
                corrected: false,
                corrected_value: None,
                confidence: Ratio { numerator: 1, denominator: 10 },
            }
        }
    }

    /// The spoke coefficients used with data of length `len` fit in a word.
    pub open spec fn sized_for(self, len: nat) -> bool {
        self.hub_parity * len <= usize::MAX
    }

    /// Create a network of `spokes` spokes grouped in blocks of `hub_parity + 1`, one hub per block.
    pub fn new(spokes: usize, hub_parity: usize) -> (r: Self)
        requires
            spokes + hub_parity + 1 <= usize::MAX,
            spokes + (spokes + hub_parity) / (hub_parity + 1) <= usize::MAX,
        ensures
            r.spokes == spokes,
            r.hub_parity == hub_parity,
            r.connectivity@.map_values(|g: Vec<usize>| g@) == hub_groups(spokes as nat, hub_parity as nat),
            r.node_health@ == Seq::new(
                (spokes + (spokes + hub_parity) / (hub_parity + 1)) as nat,
                |i: int| true,
            ),
    {
        let group_size = hub_parity + 1;
        let num_hubs = (spokes + group_size - 1) / group_size;
        let ghost target = hub_groups(spokes as nat, hub_parity as nat);
        let mut connectivity: Vec<Vec<usize>> = Vec::new();
        let mut h: usize = 0;
        while h < num_hubs
            invariant
                h <= num_hubs,
                num_hubs as int == (spokes + group_size - 1) as int / group_size as int,
                group_size == hub_parity + 1,
                spokes + hub_parity + 1 <= usize::MAX,
                target == hub_groups(spokes as nat, hub_parity as nat),
                target.len() == num_hubs,
                connectivity@.len() == h,
                forall|i: int| 0 <= i < h ==> #[trigger] connectivity@[i]@ == target[i],
            decreases num_hubs - h,
        {
            proof {
                let q: int = (spokes + group_size - 1) as int / group_size as int;
                assert(h * group_size < spokes) by (nonlinear_arith)
                    requires
                        h < q,
                        q == (spokes + group_size - 1) as int / group_size as int,
                        group_size >= 1,
                ;
            }
            let base = h * group_size;
            let ghost end: int = if (h + 1) * group_size <= spokes {
                (h + 1) * group_size
            } else {
                spokes as int
            };
            proof {
                assert(base + group_size == (h + 1) * group_size) by (nonlinear_arith)
                    requires
                        base == h * group_size,
                ;
            }
            let mut group: Vec<usize> = Vec::new();
            let mut s: usize = 0;
            while s <= hub_parity
                invariant
                    s <= hub_parity + 1,
                    group_size == hub_parity + 1,
                    spokes + hub_parity + 1 <= usize::MAX,
                    base == h * group_size < spokes,
                    base + group_size == (h + 1) * group_size,
                    end == if (h + 1) * group_size <= spokes {
                        (h + 1) * group_size
                    } else {
                        spokes as int
                    },
                    group@ =~= Seq::new(
                        (if base + s <= end {
                            s as int
                        } else {
                            end - base
                        }) as nat,
                        |t: int| (base + t) as usize,
                    ),
                decreases hub_parity + 1 - s,
            {
                let spoke_idx = base + s;
                if spoke_idx < spokes {
                    group.push(spoke_idx);
                }
                s = s + 1;
            }
            proof {
                assert(group@ =~= target[h as int]);
            }
            connectivity.push(group);
            h = h + 1;
        }
        proof {
            assert(connectivity@.map_values(|g: Vec<usize>| g@) =~= target);
        }
        let total = spokes + num_hubs;
        let mut node_health: Vec<bool> = Vec::new();
        while node_health.len() < total
            invariant
                node_health@.len() <= total,
                forall|i: int| 0 <= i < node_health@.len() ==> #[trigger] node_health@[i],
            decreases total - node_health@.len(),
        {
            node_health.push(true);
        }
        proof {
            assert(node_health@ =~= Seq::new(total as nat, |i: int| true));
        }
        HubTree { spokes, hub_parity, connectivity, node_health }
    }

    /// Number of hub (parity) nodes.
    pub fn num_hubs(&self) -> (r: usize)
        ensures
            r == self.connectivity@.len(),
    {
        self.connectivity.len()
    }

    /// Total nodes (spokes and hubs).
    pub fn total_nodes(&self) -> (r: usize)
        requires
            self.spokes + self.connectivity@.len() <= usize::MAX,
        ensures
            r == self.spokes + self.connectivity@.len(),
    {
        self.spokes + self.num_hubs()
    }

    /// The parity symbols of hub `hub_idx` (the last hub for larger indices).
    pub fn compute_hub_parity(&self, hub_idx: usize, spoke_data: &[u8]) -> (parity: Vec<u8>)
        requires
            self.connectivity@.len() > 0,
            self.sized_for(spoke_data@.len()),
        ensures
            parity@ == self.hub_parity_of(hub_idx as int, spoke_data@),
    {
        let last = self.connectivity.len() - 1;
        let idx = if hub_idx <= last {
            hub_idx
        } else {
            last
        };
        let group = &self.connectivity[idx];
        let ghost g = group@;
        proof {
            assert(g == self.group_of(hub_idx as int));
        }
        let mut parity: Vec<u8> = Vec::new();
        let mut p: usize = 0;
        while p < self.hub_parity
            invariant
                p <= self.hub_parity,
                self.sized_for(spoke_data@.len()),
                g == self.group_of(hub_idx as int),
                g == group@,
                parity@ =~= self.hub_parity_of(hub_idx as int, spoke_data@).subrange(0, p as int),
            decreases self.hub_parity - p,
        {
            let mut s = GF256(0u8);
            let mut i: usize = 0;
            while i < group.len()
                invariant
                    i <= g.len(),
                    g == group@,
                    p < self.hub_parity,
                    self.sized_for(spoke_data@.len()),
                    s.0 == group_parity(g, spoke_data@, p as int, i as nat),
                decreases g.len() - i,
            {
                let spoke_idx = group[i];
                if spoke_idx < spoke_data.len() {
                    proof {
                        assert((p + 1) * (spoke_idx + 1) <= self.hub_parity * spoke_data@.len()) by (nonlinear_arith)
                            requires
                                p < self.hub_parity,
                                spoke_idx < spoke_data@.len(),
                        ;
                    }
                    let coeff = coeff_of(p, spoke_idx);
                    s = s.add(GF256(spoke_data[spoke_idx]).mul(coeff));
                }
                i = i + 1;
            }
            parity.push(s.0);
            p = p + 1;
        }
        parity
    }

    /// Full encoding: the parity symbols of every hub.
    pub fn encode(&self, spoke_data: &[u8]) -> (parity: Vec<Vec<u8>>)
        requires
            self.sized_for(spoke_data@.len()),
        ensures
            parity@.len() == self.connectivity@.len(),
            forall|h: int| 0 <= h < parity@.len() ==> #[trigger] parity@[h]@ == self.hub_parity_of(h, spoke_data@),
    {
        let mut out: Vec<Vec<u8>> = Vec::new();
        let mut h: usize = 0;
        while h < self.num_hubs()
            invariant
                h <= self.connectivity@.len(),
                self.sized_for(spoke_data@.len()),
                out@.len() == h,
                forall|i: int| 0 <= i < h ==> #[trigger] out@[i]@ == self.hub_parity_of(i, spoke_data@),
            decreases self.connectivity@.len() - h,
        {
            out.push(self.compute_hub_parity(h, spoke_data));
            h = h + 1;
        }
        out
    }

    /// The syndromes of all hubs: recomputed parity minus stored parity. A non-zero entry means an
    /// error in that hub's group.
    pub fn compute_syndromes(&self, spoke_data: &[u8], stored_parity: &[Vec<u8>]) -> (syndromes: Vec<Vec<u8>>)
        requires
            self.sized_for(spoke_data@.len()),
        ensures
            syndromes@.len() == self.connectivity@.len(),
            forall|h: int| 0 <= h < syndromes@.len() ==> #[trigger] syndromes@[h]@ == self.syndrome_of(
                h,
                spoke_data@,
                stored_parity@.map_values(|v: Vec<u8>| v@),
            ),
    {
        let ghost stored = stored_parity@.map_values(|v: Vec<u8>| v@);
        let mut out: Vec<Vec<u8>> = Vec::new();
        let mut h: usize = 0;
        while h < self.num_hubs()
            invariant
                h <= self.connectivity@.len(),
                self.sized_for(spoke_data@.len()),
                stored == stored_parity@.map_values(|v: Vec<u8>| v@),
                out@.len() == h,
                forall|i: int| 0 <= i < h ==> #[trigger] out@[i]@ == self.syndrome_of(i, spoke_data@, stored),
            decreases self.connectivity@.len() - h,
        {
            let current = self.compute_hub_parity(h, spoke_data);
            let empty: Vec<u8> = Vec::new();
            let st: &Vec<u8> = if h < stored_parity.len() {
                &stored_parity[h]
            } else {
                &empty
            };
            let ghost target = self.syndrome_of(h as int, spoke_data@, stored);
            let mut syndrome: Vec<u8> = Vec::new();
            let mut p: usize = 0;
            while p < current.len() && p < st.len()
                invariant
                    p <= current@.len(),
                    p <= st@.len(),
                    current@ == self.hub_parity_of(h as int, spoke_data@),
                    st@ == (if h < stored.len() {
                        stored[h as int]
                    } else {
                        seq![]
                    }),
                    target == self.syndrome_of(h as int, spoke_data@, stored),
                    syndrome@ =~= target.subrange(0, p as int),
                decreases current@.len() - p,
            {
                syndrome.push(current[p] ^ st[p]);
                p = p + 1;
            }
            proof {
                assert(syndrome@ =~= target);
            }
            out.push(syndrome);
            h = h + 1;
        }
        out
    }

    /// Whether a single fault at spoke `s` explains the syndrome.
    fn explains(&self, syndrome: &[u8], spoke_data: &[u8], s: usize) -> (r: bool)
        requires
            syndrome@.len() <= self.hub_parity,
            self.sized_for(spoke_data@.len()),
        ensures
            r == Self::spoke_explains(syndrome@, spoke_data@, s as int),
    {
        let dl = spoke_data.len();
        if s >= dl {
            return false;
        }
        let coeff_0 = coeff_of(0, s);
        if coeff_0.0 == 0u8 || syndrome.len() == 0 {
            return false;
        }
        let error_val = GF256(syndrome[0]).div(coeff_0);
        let mut p: usize = 0;
        while p < syndrome.len()
            invariant
                p <= syndrome@.len() <= self.hub_parity,
                s < dl == spoke_data@.len(),
                self.sized_for(spoke_data@.len()),
                error_val.0 == Self::spoke_error_value(syndrome@, s as int),
                forall|q: int| 0 <= q < p ==> #[trigger] gf_mul(error_val.0, hub_coeff(q, s as int)) == syndrome@[q],
            decreases syndrome@.len() - p,
        {
            proof {
                assert((p + 1) * (s + 1) <= self.hub_parity * spoke_data@.len()) by (nonlinear_arith)
                    requires
                        p < self.hub_parity,
                        s < spoke_data@.len(),
                ;
            }
            let coeff = coeff_of(p, s);
            let expected = error_val.mul(coeff);
            if expected.0 != syndrome[p] {
                proof {
                    assert(gf_mul(Self::spoke_error_value(syndrome@, s as int), hub_coeff(p as int, s as int))
                        != syndrome@[p as int]);
                }
                return false;
            }
            p = p + 1;
        }
        true
    }

    /// Locate a compromised node from the hub syndromes: no failed hub means no error; a single
    /// failed hub is searched for a spoke whose fault explains its syndrome (the hub itself is
    /// reported when none does); several failed hubs cannot be resolved.
    pub fn detect_failed_node(&self, spoke_data: &[u8], stored_parity: &[Vec<u8>]) -> (r: SyndromeResult)
        requires
            self.sized_for(spoke_data@.len()),
            self.spokes + self.connectivity@.len() <= usize::MAX,
        ensures
            r == self.detection(spoke_data@, stored_parity@.map_values(|v: Vec<u8>| v@)),
    {
        let ghost stored = stored_parity@.map_values(|v: Vec<u8>| v@);
        let ghost data = spoke_data@;
        let syndromes = self.compute_syndromes(spoke_data, stored_parity);
        let mut failed_groups: Vec<usize> = Vec::new();
        let mut h: usize = 0;
        while h < syndromes.len()
            invariant
                h <= syndromes@.len() == self.connectivity@.len(),
                forall|i: int| 0 <= i < syndromes@.len() ==> #[trigger] syndromes@[i]@ == self.syndrome_of(i, data, stored),
                failed_groups@ == self.failed_hubs(data, stored, h as nat),
            decreases syndromes@.len() - h,
        {
            if has_nonzero(syndromes[h].as_slice()) {
                failed_groups.push(h);
            }
            h = h + 1;
        }
        if failed_groups.len() == 0 {
            return SyndromeResult {
                error_position: None,
                corrected: true,
                corrected_value: None,
                confidence: Ratio { numerator: 1, denominator: 1 },
            };
        }
        if failed_groups.len() == 1 {
            let group_idx = failed_groups[0];
            proof {
                lemma_failed_hubs_below(*self, data, stored, self.connectivity@.len());
            }
            let group = &self.connectivity[group_idx];
            let syndrome = &syndromes[group_idx];
            let ghost syn = syndrome@;
            let dl = spoke_data.len();
            let mut i: usize = 0;
            while i < group.len()
                invariant
                    i <= group@.len(),
                    group@ == self.connectivity@[group_idx as int]@,
                    syn == syndrome@,
                    syn == self.syndrome_of(group_idx as int, data, stored),
                    syn.len() <= self.hub_parity,
                    self.sized_for(spoke_data@.len()),
                    data == spoke_data@,
                    dl == spoke_data@.len(),
                    stored == stored_parity@.map_values(|v: Vec<u8>| v@),
                    failed_groups@ == self.failed_hubs(data, stored, self.connectivity@.len()),
                    failed_groups@.len() == 1,
                    group_idx == failed_groups@[0],
                    Self::first_explaining(group@, syn, data, 0) == Self::first_explaining(group@, syn, data, i as nat),
                decreases group@.len() - i,
            {
                let s = group[i];
                if self.explains(syndrome.as_slice(), spoke_data, s) {
                    proof {
                        assert(Self::first_explaining(group@, syn, data, i as nat) == Some(i as nat));
                    }
                    let error_val = GF256(syndrome[0]).div(coeff_of(0, s));
                    let corrected_val = GF256(spoke_data[s]).sub(error_val).0;
                    let found = SyndromeResult {
                        error_position: Some(s),
                        corrected: true,
                        corrected_value: Some(corrected_val),
                        confidence: Ratio { numerator: 1, denominator: group.len() as u128 },
                    };
                    proof {
                        assert(error_val.0 == Self::spoke_error_value(syn, s as int));
                        assert(found == self.single_group_outcome(group_idx as int, data, stored));
                    }
                    return found;
                }
                i = i + 1;
            }
            return SyndromeResult {
                error_position: Some(self.spokes + group_idx),
                corrected: false,
                corrected_value: None,
                confidence: Ratio { numerator: 1, denominator: 2 },
            };
        }
        SyndromeResult {
            error_position: None,
            corrected: false,
            corrected_value: None,
            confidence: Ratio { numerator: 1, denominator: 10 },
        }
    }

    /// Detect and correct a single-node failure: the spoke data with the located spoke set to its
    /// corrected value, and the detection result.
    pub fn decode(&self, spoke_data: &[u8], stored_parity: &[Vec<u8>]) -> (r: (Vec<u8>, SyndromeResult))
        requires
            self.sized_for(spoke_data@.len()),
            self.spokes + self.connectivity@.len() <= usize::MAX,
        ensures
            r.1 == self.detection(spoke_data@, stored_parity@.map_values(|v: Vec<u8>| v@)),
            r.0@ == (match (r.1.error_position, r.1.corrected_value) {
                (Some(pos), Some(val)) => if pos < spoke_data@.len() {
                    spoke_data@.update(pos as int, val)
                } else {
                    spoke_data@
                },
                _ => spoke_data@,
            }),
    {
        let result = self.detect_failed_node(spoke_data, stored_parity);
        let mut corrected_data = prefix_copy(spoke_data, spoke_data.len());
        proof {
            assert(spoke_data@.subrange(0, spoke_data@.len() as int) =~= spoke_data@);
        }
        match (result.error_position, result.corrected_value) {
            (Some(pos), Some(val)) => {
                if pos < corrected_data.len() {
                    corrected_data.set(pos, val);
                }
            },
            _ => {},
        }
        (corrected_data, result)
    }

    /// Mark the nodes at the given positions as failed.
    pub fn simulate_failures(&mut self, positions: &[usize])
        ensures
            final(self).spokes == old(self).spokes,
            final(self).hub_parity == old(self).hub_parity,
            final(self).connectivity@ == old(self).connectivity@,
            final(self).node_health@.len() == old(self).node_health@.len(),
            forall|i: int| 0 <= i < old(self).node_health@.len() ==> #[trigger] final(self).node_health@[i] == (
            old(self).node_health@[i] && !(exists|k: int| 0 <= k < positions@.len() && #[trigger] positions@[k] == i)),
    {
        let ghost before = self.node_health@;
        let mut j: usize = 0;
        while j < positions.len()
            invariant
                j <= positions@.len(),
                self.spokes == old(self).spokes,
                self.hub_parity == old(self).hub_parity,
                self.connectivity@ == old(self).connectivity@,
                before == old(self).node_health@,
                self.node_health@.len() == before.len(),
                forall|i: int| 0 <= i < before.len() ==> #[trigger] self.node_health@[i] == (before[i]
                    && !(exists|k: int| 0 <= k < j && #[trigger] positions@[k] == i)),
            decreases positions@.len() - j,
        {
            let pos = positions[j];
            if pos < self.node_health.len() {
                self.node_health.set(pos, false);
            }
            proof {
                assert forall|i: int| 0 <= i < before.len() implies #[trigger] self.node_health@[i] == (
                before[i] && !(exists|k: int| 0 <= k < j + 1 && #[trigger] positions@[k] == i)) by {
                    if i == pos {
                        assert(positions@[j as int] == i);
                    }
                }
            }
            j = j + 1;
        }
    }
}

} // verus!
