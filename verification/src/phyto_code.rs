//! Error-correcting codes derived from plant signalling: Vandermonde-style chemical parity and
//! multi-path redundancy.

use vstd::prelude::*;
use crate::galois::{
    gf_div, gf_inv, gf_mul, gf_pow, lemma_div_mul_cancel, lemma_mul_identity_zero, lemma_pow_nonzero,
    lemma_xor_cancel, lemma_xor_facts,
};
use crate::gf256::{poly_eval, GF256};
use crate::reed_solomon::{alpha_at, error_evaluator, error_locator, eval_low_first, locator_derivative, ReedSolomon};
use crate::mycorrhizal_channel::{mismatch_count, NoiseModel, seeded, transmitted, xorshift_iter, MycorrhizalChannel, SimpleRng};
use crate::runs::common_len;
use crate::symbols::{decoded_view, majority_of, majority_value, prefix_copy};

verus! {

/// Vandermonde coefficient for parity `p` at data position `i`: `alpha^((p + 1) * i)`,
/// the exponent taken as a `u32`.
pub open spec fn phyto_coeff(p: int, i: int) -> u8 {
    if i == 0 {
        1u8
    } else {
        gf_pow(2u8, (((p + 1) * i) as u32) as nat)
    }
}

/// `sum_{i < n} data[i] * coeff(p, i)`.
pub open spec fn parity_sum(data: Seq<u8>, p: int, n: nat) -> u8
    decreases n,
{
    if n == 0 {
        0u8
    } else {
        parity_sum(data, p, (n - 1) as nat) ^ gf_mul(data[n - 1], phyto_coeff(p, n - 1))
    }
}

/// The parity symbols of `data`.
pub open spec fn phyto_parity(data: Seq<u8>, parity: nat) -> Seq<u8> {
    Seq::new(parity, |p: int| parity_sum(data, p, data.len()))
}

/// Syndrome `p` of a received word with `k` data symbols: the parity recomputed from the data
/// minus the stored parity (when it was received).
pub open spec fn phyto_syndrome(k: nat, r: Seq<u8>, p: int) -> u8 {
    if k + p < r.len() {
        parity_sum(r, p, k) ^ r[k + p]
    } else {
        parity_sum(r, p, k)
    }
}

/// Every syndrome is zero.
pub open spec fn syndromes_clear(k: nat, parity: nat, r: Seq<u8>) -> bool {
    forall|p: int| 0 <= p < parity ==> #[trigger] phyto_syndrome(k, r, p) == 0u8
}

/// The error value that a single error at data position `j` would have.
pub open spec fn single_error_value(k: nat, r: Seq<u8>, j: int) -> u8 {
    gf_div(phyto_syndrome(k, r, 0), phyto_coeff(0, j))
}

/// `r` with position `j` corrected by `e`.
pub open spec fn corrected_at(r: Seq<u8>, j: int, e: u8) -> Seq<u8> {
    r.update(j, r[j] ^ e)
}

/// A single error at data position `j` explains every syndrome, and removing it clears them.
pub open spec fn data_fix_ok(k: nat, parity: nat, r: Seq<u8>, j: int) -> bool {
    let e = single_error_value(k, r, j);
    &&& phyto_syndrome(k, r, 0) != 0u8
    &&& forall|p: int| 1 <= p < parity ==> #[trigger] gf_mul(e, phyto_coeff(p, j)) == phyto_syndrome(k, r, p)
    &&& syndromes_clear(k, parity, corrected_at(r, j, e))
}

/// The first data position at or after `j` where a single-error correction succeeds.
pub open spec fn first_data_fix(k: nat, parity: nat, r: Seq<u8>, j: nat) -> Option<nat>
    decreases k - j,
{
    if j >= k {
        None
    } else if data_fix_ok(k, parity, r, j as int) {
        Some(j)
    } else {
        first_data_fix(k, parity, r, j + 1)
    }
}

/// Exactly one syndrome, `j`, is non-zero and the parity symbol it checks was received.
pub open spec fn lone_parity_error(k: nat, parity: nat, r: Seq<u8>, j: int) -> bool {
    &&& 0 <= j < parity
    &&& k + j < r.len()
    &&& phyto_syndrome(k, r, j) != 0u8
    &&& forall|p: int| 0 <= p < parity && p != j ==> #[trigger] phyto_syndrome(k, r, p) == 0u8
}

/// The syndromes as field elements.
pub open spec fn phyto_syndrome_seq(k: nat, parity: nat, r: Seq<u8>) -> Seq<GF256> {
    Seq::new(parity, |p: int| GF256(phyto_syndrome(k, r, p)))
}

/// The data positions `i < m` whose locator `alpha^i` is a root of the reversed error locator,
/// in increasing order. Syndrome `p` of errors `e_i` confined to the data is
/// `sum_i (e_i alpha^i) (alpha^i)^p`, a Reed-Solomon syndrome with locators `alpha^i`.
pub open spec fn phyto_roots(loc: Seq<GF256>, m: nat) -> Seq<usize>
    decreases m,
{
    if m == 0 {
        seq![]
    } else if poly_eval(loc, alpha_at(m - 1)) == 0u8 {
        phyto_roots(loc, (m - 1) as nat).push((m - 1) as usize)
    } else {
        phyto_roots(loc, (m - 1) as nat)
    }
}

/// The error value at the data position with locator `x`: `omega(x^-1) / sigma'(x^-1)`
/// (Forney's magnitude divided by the locator), zero when the denominator vanishes.
pub open spec fn phyto_magnitude(omega: Seq<GF256>, sp: Seq<GF256>, x: u8) -> u8 {
    let xi = gf_inv(x);
    let d = eval_low_first(sp, xi);
    if d == 0u8 {
        0u8
    } else {
        gf_div(eval_low_first(omega, xi), d)
    }
}

/// `r` with the first `j` error values added at their positions.
pub open spec fn apply_byte_fixes(r: Seq<u8>, positions: Seq<usize>, values: Seq<u8>, j: nat) -> Seq<u8>
    decreases j,
{
    if j == 0 {
        r
    } else {
        let prev = apply_byte_fixes(r, positions, values, (j - 1) as nat);
        let pos = positions[j - 1] as int;
        prev.update(pos, prev[pos] ^ values[j - 1])
    }
}

/// Correction of several data symbols: locate the errors from the syndromes (Berlekamp-Massey
/// and a root search over the data positions), find their values (Forney), and keep the result
/// when every syndrome of the corrected word is zero.
pub open spec fn phyto_multi_fix(k: nat, parity: nat, r: Seq<u8>) -> Result<Seq<u8>, Seq<char>> {
    let synd = phyto_syndrome_seq(k, parity, r);
    let loc = error_locator(synd);
    let positions = phyto_roots(loc, k);
    if positions.len() + 1 != loc.len() {
        Err("could not correct errors"@)
    } else {
        let omega = error_evaluator(synd, loc, parity);
        let sp = locator_derivative(loc);
        let values = Seq::new(positions.len(), |j: int| phyto_magnitude(omega, sp, alpha_at(positions[j] as int)));
        let fixed = apply_byte_fixes(r, positions, values, positions.len());
        if syndromes_clear(k, parity, fixed) {
            Ok(fixed.subrange(0, k as int))
        } else {
            Err("could not correct errors"@)
        }
    }
}

/// What decoding a single received codeword gives.
pub open spec fn phyto_decoded(k: nat, parity: nat, r: Seq<u8>) -> Result<Seq<u8>, Seq<char>> {
    if r.len() < k {
        Err("received data too short"@)
    } else if syndromes_clear(k, parity, r) {
        Ok(r.subrange(0, k as int))
    } else {
        match first_data_fix(k, parity, r, 0) {
            Some(j) => Ok(corrected_at(r, j as int, single_error_value(k, r, j as int)).subrange(0, k as int)),
            None => if exists|j: int| lone_parity_error(k, parity, r, j) {
                Ok(r.subrange(0, k as int))
            } else {
                phyto_multi_fix(k, parity, r)
            },
        }
    }
}

/// The multiplier applied to symbol `i` on redundant path `p`: a byte in `1..=254`.
pub open spec fn path_shift(p: int, i: int) -> u8 {
    ((p * 7 + i * 13) % 254 + 1) as u8
}

/// Redundant path `p` of a codeword.
pub open spec fn transformed_path(base: Seq<u8>, p: int) -> Seq<u8> {
    Seq::new(base.len(), |i: int| gf_mul(base[i], path_shift(p, i)))
}

/// The codeword as recovered from path `p` (path zero is sent as is).
pub open spec fn untransformed_path(path: Seq<u8>, p: int) -> Seq<u8> {
    if p == 0 {
        path
    } else {
        Seq::new(path.len(), |i: int| gf_div(path[i], path_shift(p, i)))
    }
}

/// What decoding path `p` on its own gives (after undoing its transformation).
#[verifier::opaque]
pub open spec fn path_result(k: nat, parity: nat, paths: Seq<Seq<u8>>, p: int) -> Result<Seq<u8>, Seq<char>> {
    phyto_decoded(k, parity, untransformed_path(paths[p], p))
}

/// How many of the first `m` paths decode to `d`.
pub open spec fn support(k: nat, parity: nat, paths: Seq<Seq<u8>>, d: Seq<u8>, m: nat) -> nat
    decreases m,
{
    if m == 0 {
        0
    } else {
        support(k, parity, paths, d, (m - 1) as nat) + (if path_result(k, parity, paths, m - 1) == Ok::<
            Seq<u8>,
            Seq<char>,
        >(d) {
            1nat
        } else {
            0nat
        })
    }
}

/// How many paths decode to what path `p` decodes to (zero when it does not decode).
pub open spec fn path_support(k: nat, parity: nat, paths: Seq<Seq<u8>>, p: int) -> nat {
    match path_result(k, parity, paths, p) {
        Ok(d) => support(k, parity, paths, d, paths.len()),
        Err(_) => 0,
    }
}

/// Among the first `m` paths, the earliest one that decodes and whose result is shared by the
/// most paths.
pub open spec fn leading_path(k: nat, parity: nat, paths: Seq<Seq<u8>>, m: nat) -> Option<nat>
    decreases m,
{
    if m == 0 {
        None
    } else {
        let prev = leading_path(k, parity, paths, (m - 1) as nat);
        let q = (m - 1) as nat;
        if path_result(k, parity, paths, q as int) is Err {
            prev
        } else {
            match prev {
                None => Some(q),
                Some(b) => if path_support(k, parity, paths, q as int) > path_support(k, parity, paths, b as int) {
                    Some(q)
                } else {
                    prev
                },
            }
        }
    }
}

/// The recovered values at position `pos` over the first `n` paths that are long enough.
pub open spec fn path_column(paths: Seq<Seq<u8>>, pos: int, n: nat) -> Seq<u8>
    decreases n,
{
    if n == 0 {
        seq![]
    } else if pos < paths[n - 1].len() {
        path_column(paths, pos, (n - 1) as nat).push(untransformed_path(paths[n - 1], n - 1)[pos])
    } else {
        path_column(paths, pos, (n - 1) as nat)
    }
}

/// What multi-path decoding gives.
pub open spec fn phyto_multipath_decoded(k: nat, parity: nat, paths: Seq<Seq<u8>>) -> Result<Seq<u8>, Seq<char>> {
    if paths.len() == 0 {
        Err("no received paths"@)
    } else {
        match leading_path(k, parity, paths, paths.len()) {
            Some(b) => path_result(k, parity, paths, b as int),
            None => Ok(Seq::new(k, |pos: int| majority_of(path_column(paths, pos, paths.len())))),
        }
    }
}

/// Coefficient indices used by a code with `parity` parity and `k` data symbols fit in a word.
proof fn lemma_coeff_index_bound(p: int, i: int, parity: int, k: int)
    requires
        0 <= p < parity,
        0 <= i < k,
        parity * k <= usize::MAX,
    ensures
        p + 1 <= usize::MAX,
        (p + 1) * i <= usize::MAX,
{
    assert((p + 1) * i <= parity * k) by (nonlinear_arith)
        requires
            0 <= p < parity,
            0 <= i < k,
    ;
    assert(parity <= parity * k) by (nonlinear_arith)
        requires
            0 <= p < parity,
            0 <= i < k,
    ;
}

/// Only the first `n` entries of `data` enter `parity_sum(data, p, n)`.
pub(crate) proof fn lemma_parity_sum_prefix(a: Seq<u8>, b: Seq<u8>, p: int, n: nat)
    requires
        n <= a.len(),
        n <= b.len(),
        forall|i: int| 0 <= i < n ==> a[i] == b[i],
    ensures
        parity_sum(a, p, n) == parity_sum(b, p, n),
    decreases n,
{
    if n > 0 {
        lemma_parity_sum_prefix(a, b, p, (n - 1) as nat);
    }
}

/// Skipping positions where no single-error correction succeeds does not change the search.
pub(crate) proof fn lemma_first_data_fix_skip(k: nat, parity: nat, r: Seq<u8>, j: nat)
    requires
        j <= k,
        forall|i: int| 0 <= i < j ==> !data_fix_ok(k, parity, r, i),
    ensures
        first_data_fix(k, parity, r, 0) == first_data_fix(k, parity, r, j),
    decreases j,
{
    if j > 0 {
        lemma_first_data_fix_skip(k, parity, r, (j - 1) as nat);
    }
}

/// The multiplier for symbol `i` on redundant path `p`.
fn shift_of(p: usize, i: usize) -> (r: GF256)
    requires
        p * 7 + i * 13 <= usize::MAX,
    ensures
        r.0 == path_shift(p as int, i as int),
        r.0 != 0u8,
{
    GF256(((p * 7 + i * 13) % 254 + 1) as u8)
}

/// Undo the transformation of path `p`.
fn untransform(path: &[u8], p: usize) -> (r: Vec<u8>)
    requires
        p * 7 + path@.len() * 13 <= usize::MAX,
    ensures
        r@ == untransformed_path(path@, p as int),
{
    let mut r: Vec<u8> = Vec::new();
    let mut i: usize = 0;
    while i < path.len()
        invariant
            i <= path@.len(),
            p * 7 + path@.len() * 13 <= usize::MAX,
            p == 0 ==> r@ =~= path@.subrange(0, i as int),
            p != 0 ==> r@ =~= untransformed_path(path@, p as int).subrange(0, i as int),
        decreases path@.len() - i,
    {
        if p == 0 {
            r.push(path[i]);
        } else {
            r.push(GF256(path[i]).div(shift_of(p, i)).0);
        }
        i = i + 1;
    }
    proof {
        if p == 0 {
            assert(r@ =~= path@);
        } else {
            assert(r@ =~= untransformed_path(path@, p as int));
        }
    }
    r
}

/// Whether two byte strings are equal.
fn same_bytes(a: &[u8], b: &[u8]) -> (r: bool)
    ensures
        r == (a@ == b@),
{
    if a.len() != b.len() {
        return false;
    }
    let mut i: usize = 0;
    while i < a.len()
        invariant
            i <= a@.len() == b@.len(),
            forall|k: int| 0 <= k < i ==> a@[k] == b@[k],
        decreases a@.len() - i,
    {
        if a[i] != b[i] {
            return false;
        }
        i = i + 1;
    }
    proof {
        assert(a@ =~= b@);
    }
    true
}

/// Decoding an unaltered codeword gives back the data.
pub proof fn lemma_phyto_roundtrip(k: nat, parity: nat, data: Seq<u8>)
    requires
        data.len() == k,
    ensures
        phyto_decoded(k, parity, data + phyto_parity(data, parity)) == Ok::<Seq<u8>, Seq<char>>(data),
{
    let cw = data + phyto_parity(data, parity);
    assert forall|p: int| 0 <= p < parity implies #[trigger] phyto_syndrome(k, cw, p) == 0u8 by {
        lemma_parity_sum_prefix(cw, data, p, k);
        lemma_xor_facts(parity_sum(data, p, k), 0u8, 0u8);
    }
    assert(cw.subrange(0, k as int) =~= data);
}

/// Each redundant path can be turned back into the codeword.
pub proof fn lemma_path_transform_inverse(base: Seq<u8>, p: int)
    requires
        p >= 1,
    ensures
        untransformed_path(transformed_path(base, p), p) == base,
{
    let t = transformed_path(base, p);
    assert forall|i: int| 0 <= i < base.len() implies #[trigger] untransformed_path(t, p)[i] == base[i] by {
        lemma_div_mul_cancel(base[i], path_shift(p, i));
    }
    assert(untransformed_path(t, p) =~= base);
}


/// Data symbols lost when a codeword of `data` goes through the channel with seed `seed` and is
/// decoded: the differing positions of the decoded data, or all of them when decoding fails.
pub open spec fn phyto_trial_errors(k: nat, parity: nat, data: Seq<u8>, noise: NoiseModel, seed: u64) -> nat {
    let received = transmitted(noise, data + phyto_parity(data, parity), seed);
    match phyto_decoded(k, parity, received) {
        Ok(d) => mismatch_count(data, d, common_len(data, d)),
        Err(_) => data.len(),
    }
}

/// The seed of repetition copy `c`: the `c + 1`-th draw of a generator seeded with `seed + 1`.
pub open spec fn repetition_seed(seed: u64, c: nat) -> u64 {
    xorshift_iter(seeded((seed + 1) as u64), c + 1)
}

/// The word voted from `copies` repetitions of `data` through the channel.
pub open spec fn repetition_word(noise: NoiseModel, data: Seq<u8>, seed: u64, copies: nat) -> Seq<u8> {
    Seq::new(
        data.len(),
        |pos: int| majority_of(Seq::new(copies, |c: int| transmitted(noise, data, repetition_seed(seed, c as nat))[pos])),
    )
}

/// Number of positions, over the common length, where `a` and `b` differ.
fn count_mismatches(a: &[u8], b: &[u8]) -> (r: usize)
    ensures
        r == mismatch_count(a@, b@, common_len(a@, b@)),
{
    let n: usize = if a.len() <= b.len() {
        a.len()
    } else {
        b.len()
    };
    let mut r: usize = 0;
    let mut i: usize = 0;
    while i < n
        invariant
            i <= n == common_len(a@, b@),
            n <= a@.len(),
            n <= b@.len(),
            r == mismatch_count(a@, b@, i as nat),
            r <= i,
        decreases n - i,
    {
        if a[i] != b[i] {
            r = r + 1;
        }
        i = i + 1;
    }
    r
}

/// An error-correcting code inspired by plant phytochemical signalling.
#[derive(Clone, Debug)]
pub struct PhytoCode {
    /// Number of data symbols per codeword.
    pub data_symbols: usize,
    /// Number of parity symbols.
    pub parity_symbols: usize,
    /// Number of redundant transmission paths.
    pub redundancy_paths: usize,
}

impl PhytoCode {
    /// The arithmetic of this code stays within machine words.
    pub open spec fn sized(&self) -> bool {
        &&& self.data_symbols + self.parity_symbols <= usize::MAX
        &&& self.parity_symbols * self.data_symbols <= usize::MAX
        &&& self.parity_symbols + self.parity_symbols + 3 <= usize::MAX
    }

    pub fn new(data_symbols: usize, parity_symbols: usize, redundancy_paths: usize) -> (r: Self)
        ensures
            r.data_symbols == data_symbols,
            r.parity_symbols == parity_symbols,
            r.redundancy_paths == redundancy_paths,
    {
        PhytoCode { data_symbols, parity_symbols, redundancy_paths }
    }

    /// Total codeword length.
    pub fn codeword_len(&self) -> (r: usize)
        requires
            self.data_symbols + self.parity_symbols <= usize::MAX,
        ensures
            r == self.data_symbols + self.parity_symbols,
    {
        self.data_symbols + self.parity_symbols
    }

    /// Maximum correctable errors (parity-based).
    pub fn max_correctable(&self) -> (r: usize)
        ensures
            r == self.parity_symbols / 2,
    {
        self.parity_symbols / 2
    }

    /// Vandermonde coefficient for parity `p` at data position `i`.
    fn coeff(p: usize, i: usize) -> (r: GF256)
        requires
            p + 1 <= usize::MAX,
            (p + 1) * i <= usize::MAX,
        ensures
            r.0 == phyto_coeff(p as int, i as int),
            r.0 != 0u8,
    {
        if i == 0 {
            GF256(1u8)
        } else {
            proof {
                lemma_pow_nonzero(2u8, (((p + 1) * i) as u32) as nat);
            }
            GF256(2u8).pow(#[verifier::truncate] (((p + 1) * i) as u32))
        }
    }

    /// Encode data: the data followed by its Vandermonde parity symbols.
    pub fn encode(&self, data: &[u8]) -> (codeword: Vec<u8>)
        requires
            data@.len() == self.data_symbols,
            self.sized(),
        ensures
            codeword@ == data@ + phyto_parity(data@, self.parity_symbols as nat),
    {
        let k = self.data_symbols;
        let mut parity: Vec<u8> = Vec::new();
        let mut p: usize = 0;
        while p < self.parity_symbols
            invariant
                p <= self.parity_symbols,
                k == self.data_symbols == data@.len(),
                self.sized(),
                parity@ =~= phyto_parity(data@, self.parity_symbols as nat).subrange(0, p as int),
            decreases self.parity_symbols - p,
        {
            let mut symbol = GF256(0u8);
            let mut i: usize = 0;
            while i < k
                invariant
                    i <= k == data@.len() == self.data_symbols,
                    p < self.parity_symbols,
                    self.sized(),
                    symbol.0 == parity_sum(data@, p as int, i as nat),
                decreases k - i,
            {
                proof {
                    lemma_coeff_index_bound(p as int, i as int, self.parity_symbols as int, k as int);
                }
                symbol = symbol.add(GF256(data[i]).mul(Self::coeff(p, i)));
                i = i + 1;
            }
            parity.push(symbol.0);
            p = p + 1;
        }
        let mut codeword = prefix_copy(data, k);
        let mut c: usize = 0;
        while c < parity.len()
            invariant
                c <= parity@.len(),
                codeword@ =~= data@ + parity@.subrange(0, c as int),
            decreases parity@.len() - c,
        {
            codeword.push(parity[c]);
            c = c + 1;
        }
        proof {
            assert(codeword@ =~= data@ + phyto_parity(data@, self.parity_symbols as nat));
        }
        codeword
    }

    /// Encode with multi-path redundancy: the codeword followed by `redundancy_paths` copies, each
    /// multiplied symbol by symbol by a different non-zero factor.
    pub fn encode_multipath(&self, data: &[u8]) -> (paths: Vec<Vec<u8>>)
        requires
            data@.len() == self.data_symbols,
            self.sized(),
            self.redundancy_paths < usize::MAX,
            self.redundancy_paths * 7 + (self.data_symbols + self.parity_symbols) * 13 <= usize::MAX,
        ensures
            paths@.len() == self.redundancy_paths + 1,
            paths@[0]@ == data@ + phyto_parity(data@, self.parity_symbols as nat),
            forall|p: int| 1 <= p <= self.redundancy_paths ==> #[trigger] paths@[p]@ == transformed_path(
                paths@[0]@,
                p,
            ),
    {
        let base = self.encode(data);
        let mut paths: Vec<Vec<u8>> = Vec::new();
        paths.push(prefix_copy(base.as_slice(), base.len()));
        proof {
            assert(base@.subrange(0, base@.len() as int) =~= base@);
        }
        let mut p: usize = 1;
        while p <= self.redundancy_paths
            invariant
                1 <= p <= self.redundancy_paths + 1,
                self.redundancy_paths < usize::MAX,
                self.redundancy_paths * 7 + base@.len() * 13 <= usize::MAX,
                paths@.len() == p,
                paths@[0]@ == base@,
                forall|q: int| 1 <= q < p ==> #[trigger] paths@[q]@ == transformed_path(base@, q),
            decreases self.redundancy_paths + 1 - p,
        {
            let mut transformed: Vec<u8> = Vec::new();
            let mut i: usize = 0;
            while i < base.len()
                invariant
                    i <= base@.len(),
                    p <= self.redundancy_paths,
                    self.redundancy_paths * 7 + base@.len() * 13 <= usize::MAX,
                    transformed@ =~= transformed_path(base@, p as int).subrange(0, i as int),
                decreases base@.len() - i,
            {
                transformed.push(GF256(base[i]).mul(shift_of(p, i)).0);
                i = i + 1;
            }
            proof {
                assert(transformed@ =~= transformed_path(base@, p as int));
            }
            paths.push(transformed);
            p = p + 1;
        }
        paths
    }

    /// Syndrome `p`: recomputed parity minus stored parity.
    fn compute_syndrome(&self, received: &[u8], p: usize) -> (s: GF256)
        requires
            received@.len() >= self.data_symbols,
            p < self.parity_symbols,
            self.sized(),
        ensures
            s.0 == phyto_syndrome(self.data_symbols as nat, received@, p as int),
    {
        let k = self.data_symbols;
        let mut s = GF256(0u8);
        let mut i: usize = 0;
        while i < k
            invariant
                i <= k == self.data_symbols <= received@.len(),
                p < self.parity_symbols,
                self.sized(),
                s.0 == parity_sum(received@, p as int, i as nat),
            decreases k - i,
        {
            proof {
                lemma_coeff_index_bound(p as int, i as int, self.parity_symbols as int, k as int);
            }
            s = s.add(GF256(received[i]).mul(Self::coeff(p, i)));
            i = i + 1;
        }
        if k + p < received.len() {
            s = s.sub(GF256(received[k + p]));
        }
        s
    }

    /// All syndromes of a received word.
    fn all_syndromes(&self, received: &[u8]) -> (synd: Vec<GF256>)
        requires
            received@.len() >= self.data_symbols,
            self.sized(),
        ensures
            synd@.len() == self.parity_symbols,
            forall|p: int| 0 <= p < self.parity_symbols ==> #[trigger] synd@[p].0 == phyto_syndrome(
                self.data_symbols as nat,
                received@,
                p,
            ),
    {
        let mut synd: Vec<GF256> = Vec::new();
        let mut p: usize = 0;
        while p < self.parity_symbols
            invariant
                p <= self.parity_symbols,
                received@.len() >= self.data_symbols,
                self.sized(),
                synd@.len() == p,
                forall|q: int| 0 <= q < p ==> #[trigger] synd@[q].0 == phyto_syndrome(
                    self.data_symbols as nat,
                    received@,
                    q,
                ),
            decreases self.parity_symbols - p,
        {
            synd.push(self.compute_syndrome(received, p));
            p = p + 1;
        }
        synd
    }

    /// Whether every syndrome of a received word is zero.
    fn syndromes_zero(&self, received: &[u8]) -> (r: bool)
        requires
            received@.len() >= self.data_symbols,
            self.sized(),
        ensures
            r == syndromes_clear(self.data_symbols as nat, self.parity_symbols as nat, received@),
    {
        let mut p: usize = 0;
        while p < self.parity_symbols
            invariant
                p <= self.parity_symbols,
                received@.len() >= self.data_symbols,
                self.sized(),
                forall|q: int| 0 <= q < p ==> #[trigger] phyto_syndrome(self.data_symbols as nat, received@, q)
                    == 0u8,
            decreases self.parity_symbols - p,
        {
            if self.compute_syndrome(received, p) != GF256(0u8) {
                return false;
            }
            p = p + 1;
        }
        true
    }

    /// Whether an error of value `error_val` at data position `j` explains syndromes `1..`.
    fn explains_syndromes(&self, syndromes: &[GF256], error_val: GF256, j: usize, ghost_r: Ghost<Seq<u8>>) -> (r: bool)
        requires
            j < self.data_symbols,
            self.sized(),
            syndromes@.len() == self.parity_symbols,
            forall|q: int| 0 <= q < self.parity_symbols ==> #[trigger] syndromes@[q].0 == phyto_syndrome(
                self.data_symbols as nat,
                ghost_r@,
                q,
            ),
        ensures
            r == (forall|q: int| 1 <= q < self.parity_symbols ==> #[trigger] gf_mul(
                error_val.0,
                phyto_coeff(q, j as int),
            ) == phyto_syndrome(self.data_symbols as nat, ghost_r@, q)),
    {
        let np = self.parity_symbols;
        let mut consistent = true;
        let mut p: usize = 1;
        while p < np
            invariant
                1 <= p,
                p <= np || p == 1,
                np == self.parity_symbols,
                j < self.data_symbols,
                self.sized(),
                syndromes@.len() == np,
                forall|q: int| 0 <= q < np ==> #[trigger] syndromes@[q].0 == phyto_syndrome(
                    self.data_symbols as nat,
                    ghost_r@,
                    q,
                ),
                consistent == (forall|q: int| 1 <= q < p ==> #[trigger] gf_mul(
                    error_val.0,
                    phyto_coeff(q, j as int),
                ) == phyto_syndrome(self.data_symbols as nat, ghost_r@, q)),
            decreases np - p,
        {
            proof {
                lemma_coeff_index_bound(p as int, j as int, np as int, self.data_symbols as int);
            }
            let expected = error_val.mul(Self::coeff(p, j));
            let same = expected.0 == syndromes[p].0;
            proof {
                assert(same == (gf_mul(error_val.0, phyto_coeff(p as int, j as int)) == phyto_syndrome(
                    self.data_symbols as nat,
                    ghost_r@,
                    p as int,
                )));
            }
            if !same {
                consistent = false;
            }
            p = p + 1;
        }
        proof {
            if np == 0 {
                assert forall|q: int| 1 <= q < np implies #[trigger] gf_mul(
                    error_val.0,
                    phyto_coeff(q, j as int),
                ) == phyto_syndrome(self.data_symbols as nat, ghost_r@, q) by {}
                assert forall|q: int| 1 <= q < p implies #[trigger] gf_mul(
                    error_val.0,
                    phyto_coeff(q, j as int),
                ) == phyto_syndrome(self.data_symbols as nat, ghost_r@, q) by {}
            } else {
                assert(p == np);
            }
        }
        consistent
    }

    /// The corrected data when a single error at data position `j` explains the syndromes.
    fn try_data_fix(&self, received: &[u8], syndromes: &[GF256], j: usize) -> (r: Option<Vec<u8>>)
        requires
            j < self.data_symbols <= received@.len(),
            self.sized(),
            syndromes@.len() == self.parity_symbols,
            self.parity_symbols > 0,
            forall|q: int| 0 <= q < self.parity_symbols ==> #[trigger] syndromes@[q].0 == phyto_syndrome(
                self.data_symbols as nat,
                received@,
                q,
            ),
        ensures
            r is Some <==> data_fix_ok(self.data_symbols as nat, self.parity_symbols as nat, received@, j as int),
            r matches Some(v) ==> v@ == corrected_at(
                received@,
                j as int,
                single_error_value(self.data_symbols as nat, received@, j as int),
            ).subrange(0, self.data_symbols as int),
    {
        let k = self.data_symbols;
        proof {
            lemma_coeff_index_bound(0, j as int, self.parity_symbols as int, k as int);
        }
        let c0 = Self::coeff(0, j);
        if c0.0 == 0u8 || syndromes[0].0 == 0u8 {
            return None;
        }
        let error_val = syndromes[0].div(c0);
        if !self.explains_syndromes(syndromes, error_val, j, Ghost(received@)) {
            return None;
        }
        let mut corrected = prefix_copy(received, received.len());
        let v = GF256(corrected[j]).sub(error_val).0;
        corrected.set(j, v);
        proof {
            assert(received@.subrange(0, received@.len() as int) =~= received@);
            assert(corrected@ =~= corrected_at(received@, j as int, error_val.0));
        }
        if self.syndromes_zero(corrected.as_slice()) {
            Some(prefix_copy(corrected.as_slice(), k))
        } else {
            None
        }
    }

    /// Whether syndrome `j` alone is non-zero and the parity symbol it checks was received.
    fn is_lone_parity_error(&self, received: &[u8], syndromes: &[GF256], j: usize) -> (r: bool)
        requires
            j < self.parity_symbols,
            self.data_symbols <= received@.len(),
            self.sized(),
            syndromes@.len() == self.parity_symbols,
            forall|q: int| 0 <= q < self.parity_symbols ==> #[trigger] syndromes@[q].0 == phyto_syndrome(
                self.data_symbols as nat,
                received@,
                q,
            ),
        ensures
            r == lone_parity_error(self.data_symbols as nat, self.parity_symbols as nat, received@, j as int),
    {
        let np = self.parity_symbols;
        if self.data_symbols + j >= received.len() {
            return false;
        }
        let mut all_others_zero = true;
        let mut q: usize = 0;
        while q < np
            invariant
                q <= np == self.parity_symbols,
                j < np,
                syndromes@.len() == np,
                all_others_zero == (forall|p: int| 0 <= p < q && p != j ==> #[trigger] syndromes@[p].0 == 0u8),
            decreases np - q,
        {
            let nonzero = syndromes[q].0 != 0u8;
            proof {
                assert(nonzero == (syndromes@[q as int].0 != 0u8));
            }
            if q != j && nonzero {
                all_others_zero = false;
            }
            q = q + 1;
        }
        let r = all_others_zero && syndromes[j].0 != 0u8;
        proof {
            if r {
                assert forall|p: int| 0 <= p < np && p != j implies #[trigger] phyto_syndrome(
                    self.data_symbols as nat,
                    received@,
                    p,
                ) == 0u8 by {
                    assert(syndromes@[p].0 == 0u8);
                }
                assert(syndromes@[j as int].0 != 0u8);
            } else if lone_parity_error(self.data_symbols as nat, np as nat, received@, j as int) {
                assert forall|p: int| 0 <= p < np && p != j implies #[trigger] syndromes@[p].0 == 0u8 by {
                    assert(phyto_syndrome(self.data_symbols as nat, received@, p) == 0u8);
                }
                assert(syndromes@[j as int].0 != 0u8);
            }
        }
        r
    }

    /// Decode one (possibly corrupted) codeword, correcting a single error in the data when the
    /// syndromes allow it.
    pub fn decode(&self, received: &[u8]) -> (r: Result<Vec<u8>, String>)
        requires
            self.sized(),
        ensures
            decoded_view(r) == phyto_decoded(self.data_symbols as nat, self.parity_symbols as nat, received@),
    {
        let k = self.data_symbols;
        let np = self.parity_symbols;
        if received.len() < k {
            return Err("received data too short".to_owned());
        }
        let ghost kk = k as nat;
        let ghost pp = np as nat;
        let ghost rr = received@;
        let syndromes = self.all_syndromes(received);
        if self.syndromes_zero(received) {
            return Ok(prefix_copy(received, k));
        }
        let mut j: usize = 0;
        while j < k
            invariant
                j <= k == self.data_symbols <= received@.len(),
                np == self.parity_symbols > 0,
                self.sized(),
                kk == k,
                pp == np,
                rr == received@,
                syndromes@.len() == np,
                forall|p: int| 0 <= p < np ==> #[trigger] syndromes@[p].0 == phyto_syndrome(kk, rr, p),
                forall|i: int| 0 <= i < j ==> !data_fix_ok(kk, pp, rr, i),
            decreases k - j,
        {
            match self.try_data_fix(received, syndromes.as_slice(), j) {
                Some(v) => {
                    proof {
                        lemma_first_data_fix_skip(kk, pp, rr, j as nat);
                    }
                    return Ok(v);
                },
                None => {},
            }
            j = j + 1;
        }
        proof {
            lemma_first_data_fix_skip(kk, pp, rr, kk);
        }
        let mut j: usize = 0;
        while j < np
            invariant
                j <= np == self.parity_symbols,
                k == self.data_symbols <= received@.len(),
                self.sized(),
                kk == k,
                pp == np,
                rr == received@,
                syndromes@.len() == np,
                forall|p: int| 0 <= p < np ==> #[trigger] syndromes@[p].0 == phyto_syndrome(kk, rr, p),
                forall|i: int| 0 <= i < j ==> !lone_parity_error(kk, pp, rr, i),
                first_data_fix(kk, pp, rr, 0) is None,
            decreases np - j,
        {
            if self.is_lone_parity_error(received, syndromes.as_slice(), j) {
                proof {
                    assert(lone_parity_error(kk, pp, rr, j as int));
                }
                return Ok(prefix_copy(received, k));
            }
            j = j + 1;
        }
        proof {
            assert(!exists|i: int| lone_parity_error(kk, pp, rr, i));
        }
        self.multi_fix(received, syndromes.as_slice())
    }

    /// Correct several data symbols (see `phyto_multi_fix`).
    fn multi_fix(&self, received: &[u8], syndromes: &[GF256]) -> (r: Result<Vec<u8>, String>)
        requires
            self.sized(),
            received@.len() >= self.data_symbols,
            syndromes@.len() == self.parity_symbols,
            forall|p: int| 0 <= p < self.parity_symbols ==> #[trigger] syndromes@[p].0 == phyto_syndrome(
                self.data_symbols as nat,
                received@,
                p,
            ),
        ensures
            decoded_view(r) == phyto_multi_fix(self.data_symbols as nat, self.parity_symbols as nat, received@),
    {
        let k = self.data_symbols;
        let np = self.parity_symbols;
        let ghost kk = k as nat;
        let ghost pp = np as nat;
        proof {
            assert forall|p: int| 0 <= p < pp implies #[trigger] syndromes@[p] == phyto_syndrome_seq(kk, pp, received@)[p] by {
                assert(syndromes@[p].0 == phyto_syndrome(kk, received@, p));
            }
            assert(syndromes@ =~= phyto_syndrome_seq(kk, pp, received@));
        }
        let rs = ReedSolomon::new(k, np);
        let loc = rs.berlekamp_massey(syndromes);
        let mut positions: Vec<usize> = Vec::new();
        let mut i: usize = 0;
        while i < k
            invariant
                i <= k,
                positions@ == phyto_roots(loc@, i as nat),
                positions@.len() <= i,
                forall|q: int| 0 <= q < positions@.len() ==> #[trigger] positions@[q] < i,
            decreases k - i,
        {
            let x = if i == 0 {
                GF256(1u8)
            } else {
                GF256(2u8).pow(#[verifier::truncate] (i as u32))
            };
            if GF256::eval_poly(loc.as_slice(), x) == GF256(0u8) {
                positions.push(i);
            }
            i = i + 1;
        }
        if positions.len() != loc.len() - 1 {
            return Err("could not correct errors".to_owned());
        }
        let product = GF256::poly_mul(syndromes, loc.as_slice());
        let omega = if product.len() > np {
            let mut o: Vec<GF256> = Vec::new();
            let mut t: usize = 0;
            while t < np
                invariant
                    t <= np < product@.len(),
                    o@ =~= product@.subrange(0, t as int),
                decreases np - t,
            {
                o.push(product[t]);
                t = t + 1;
            }
            o
        } else {
            product
        };
        proof {
            assert(omega@ =~= error_evaluator(syndromes@, loc@, pp));
        }
        let sp = ReedSolomon::derivative(loc.as_slice());
        let omega_rev = ReedSolomon::reversed(omega.as_slice());
        let sp_rev = ReedSolomon::reversed(sp.as_slice());
        let ghost values = Seq::new(
            positions@.len(),
            |j: int| phyto_magnitude(omega@, sp@, alpha_at(positions@[j] as int)),
        );
        let mut fixed = prefix_copy(received, received.len());
        proof {
            assert(received@.subrange(0, received@.len() as int) =~= received@);
        }
        let mut j: usize = 0;
        while j < positions.len()
            invariant
                j <= positions@.len(),
                forall|q: int| 0 <= q < positions@.len() ==> #[trigger] positions@[q] < k,
                k <= received@.len(),
                fixed@.len() == received@.len(),
                fixed@ == apply_byte_fixes(received@, positions@, values, j as nat),
                omega_rev@ == omega@.reverse(),
                sp_rev@ == sp@.reverse(),
                values == Seq::new(
                    positions@.len(),
                    |j: int| phyto_magnitude(omega@, sp@, alpha_at(positions@[j] as int)),
                ),
            decreases positions@.len() - j,
        {
            let pos = positions[j];
            let x = if pos == 0 {
                GF256(1u8)
            } else {
                GF256(2u8).pow(#[verifier::truncate] (pos as u32))
            };
            proof {
                lemma_pow_nonzero(2u8, (#[verifier::truncate] (pos as u32)) as nat);
            }
            let xi = x.inv();
            let d = GF256::eval_poly(sp_rev.as_slice(), xi);
            let e = if d == GF256(0u8) {
                GF256(0u8)
            } else {
                GF256::eval_poly(omega_rev.as_slice(), xi).div(d)
            };
            proof {
                assert(e.0 == values[j as int]);
            }
            let cur = fixed[pos];
            fixed.set(pos, cur ^ e.0);
            j = j + 1;
        }
        if self.syndromes_zero(fixed.as_slice()) {
            Ok(prefix_copy(fixed.as_slice(), k))
        } else {
            Err("could not correct errors".to_owned())
        }
    }

    /// Decode every path on its own: whether it decoded, and what it gave.
    fn decode_each_path(&self, received_paths: &[Vec<u8>]) -> (r: (Vec<bool>, Vec<Vec<u8>>))
        requires
            self.sized(),
            forall|p: int| 0 <= p < received_paths@.len() ==> received_paths@.len() * 7 + (
            #[trigger] received_paths@[p])@.len() * 13 <= usize::MAX,
        ensures
            r.0@.len() == received_paths@.len(),
            r.1@.len() == received_paths@.len(),
            forall|i: int| 0 <= i < received_paths@.len() ==> (#[trigger] r.0@[i] <==> path_result(
                self.data_symbols as nat,
                self.parity_symbols as nat,
                received_paths@.map_values(|v: Vec<u8>| v@),
                i,
            ) is Ok),
            forall|i: int| 0 <= i < received_paths@.len() && #[trigger] r.0@[i] ==> path_result(
                self.data_symbols as nat,
                self.parity_symbols as nat,
                received_paths@.map_values(|v: Vec<u8>| v@),
                i,
            ) == Ok::<Seq<u8>, Seq<char>>(r.1@[i]@),
    {
        let ghost paths = received_paths@.map_values(|v: Vec<u8>| v@);
        let ghost kk = self.data_symbols as nat;
        let ghost pp = self.parity_symbols as nat;
        let np = received_paths.len();
        let mut ok: Vec<bool> = Vec::new();
        let mut decs: Vec<Vec<u8>> = Vec::new();
        let mut p: usize = 0;
        while p < np
            invariant
                p <= np == received_paths@.len(),
                self.sized(),
                paths == received_paths@.map_values(|v: Vec<u8>| v@),
                kk == self.data_symbols,
                pp == self.parity_symbols,
                forall|q: int| 0 <= q < received_paths@.len() ==> received_paths@.len() * 7 + (
                #[trigger] received_paths@[q])@.len() * 13 <= usize::MAX,
                ok@.len() == p,
                decs@.len() == p,
                forall|i: int| 0 <= i < p ==> (#[trigger] ok@[i] <==> path_result(kk, pp, paths, i) is Ok),
                forall|i: int| 0 <= i < p && #[trigger] ok@[i] ==> path_result(kk, pp, paths, i) == Ok::<
                    Seq<u8>,
                    Seq<char>,
                >(decs@[i]@),
            decreases np - p,
        {
            let path = &received_paths[p];
            let u = untransform(path.as_slice(), p);
            proof {
                assert(paths[p as int] == received_paths@[p as int]@);
                reveal(path_result);
            }
            match self.decode(u.as_slice()) {
                Ok(data) => {
                    ok.push(true);
                    decs.push(data);
                },
                Err(_) => {
                    ok.push(false);
                    decs.push(Vec::new());
                },
            }
            p = p + 1;
        }
        (ok, decs)
    }

    /// For every path, how many paths decoded to what it decoded to.
    fn supports(Ghost(kk): Ghost<nat>, Ghost(pp): Ghost<nat>, Ghost(paths): Ghost<Seq<Seq<u8>>>, ok: &Vec<bool>, decs: &Vec<Vec<u8>>) -> (sup: Vec<usize>)
        requires
            ok@.len() == decs@.len() == paths.len(),
            forall|q: int| 0 <= q < paths.len() ==> (#[trigger] ok@[q] <==> path_result(kk, pp, paths, q) is Ok),
            forall|q: int| 0 <= q < paths.len() && #[trigger] ok@[q] ==> path_result(kk, pp, paths, q) == Ok::<
                Seq<u8>,
                Seq<char>,
            >(decs@[q]@),
        ensures
            sup@.len() == paths.len(),
            forall|q: int| 0 <= q < paths.len() ==> #[trigger] sup@[q] == path_support(kk, pp, paths, q),
    {
        let np = ok.len();
        let mut sup: Vec<usize> = Vec::new();
        let mut i: usize = 0;
        while i < np
            invariant
                i <= np == paths.len() == ok@.len() == decs@.len(),
                forall|q: int| 0 <= q < np ==> (#[trigger] ok@[q] <==> path_result(kk, pp, paths, q) is Ok),
                forall|q: int| 0 <= q < np && #[trigger] ok@[q] ==> path_result(kk, pp, paths, q) == Ok::<
                    Seq<u8>,
                    Seq<char>,
                >(decs@[q]@),
                sup@.len() == i,
                forall|q: int| 0 <= q < i ==> #[trigger] sup@[q] == path_support(kk, pp, paths, q),
            decreases np - i,
        {
            let mut c: usize = 0;
            if ok[i] {
                let mut j: usize = 0;
                while j < np
                    invariant
                        i < np == paths.len() == ok@.len() == decs@.len(),
                        ok@[i as int],
                        forall|q: int| 0 <= q < np ==> (#[trigger] ok@[q] <==> path_result(kk, pp, paths, q) is Ok),
                        forall|q: int| 0 <= q < np && #[trigger] ok@[q] ==> path_result(kk, pp, paths, q) == Ok::<
                            Seq<u8>,
                            Seq<char>,
                        >(decs@[q]@),
                        j <= np,
                        c <= j,
                        c == support(kk, pp, paths, decs@[i as int]@, j as nat),
                    decreases np - j,
                {
                    if ok[j] && same_bytes(decs[j].as_slice(), decs[i].as_slice()) {
                        c = c + 1;
                    }
                    j = j + 1;
                }
            }
            sup.push(c);
            i = i + 1;
        }
        sup
    }

    /// The leading path: the earliest that decoded among those with the most support.
    fn leading(Ghost(kk): Ghost<nat>, Ghost(pp): Ghost<nat>, Ghost(paths): Ghost<Seq<Seq<u8>>>, ok: &Vec<bool>, sup: &Vec<usize>) -> (r: Option<usize>)
        requires
            ok@.len() == sup@.len() == paths.len(),
            forall|t: int| 0 <= t < paths.len() ==> (#[trigger] ok@[t] <==> path_result(kk, pp, paths, t) is Ok),
            forall|t: int| 0 <= t < paths.len() ==> #[trigger] sup@[t] == path_support(kk, pp, paths, t),
        ensures
            leading_path(kk, pp, paths, paths.len()) == (match r {
                Some(b) => Some(b as nat),
                None => None::<nat>,
            }),
            r matches Some(b) ==> b < paths.len() && ok@[b as int],
    {
        let np = ok.len();
        let mut found = false;
        let mut best: usize = 0;
        let mut best_sup: usize = 0;
        let mut q: usize = 0;
        while q < np
            invariant
                q <= np == paths.len() == ok@.len() == sup@.len(),
                forall|t: int| 0 <= t < np ==> (#[trigger] ok@[t] <==> path_result(kk, pp, paths, t) is Ok),
                forall|t: int| 0 <= t < np ==> #[trigger] sup@[t] == path_support(kk, pp, paths, t),
                leading_path(kk, pp, paths, q as nat) == (if found {
                    Some(best as nat)
                } else {
                    None::<nat>
                }),
                found ==> best < q && best_sup == path_support(kk, pp, paths, best as int) && ok@[best as int],
            decreases np - q,
        {
            if ok[q] {
                if !found || sup[q] > best_sup {
                    best = q;
                    best_sup = sup[q];
                    found = true;
                }
            }
            q = q + 1;
        }
        if found {
            Some(best)
        } else {
            None
        }
    }

    /// The symbol-by-symbol majority vote over the recovered paths.
    fn vote_paths(&self, received_paths: &[Vec<u8>]) -> (result: Vec<u8>)
        requires
            forall|p: int| 0 <= p < received_paths@.len() ==> received_paths@.len() * 7 + (
            #[trigger] received_paths@[p])@.len() * 13 <= usize::MAX,
        ensures
            result@ == Seq::new(
                self.data_symbols as nat,
                |i: int| majority_of(path_column(received_paths@.map_values(|v: Vec<u8>| v@), i, received_paths@.len())),
            ),
    {
        let ghost paths = received_paths@.map_values(|v: Vec<u8>| v@);
        let ghost kk = self.data_symbols as nat;
        let n = self.data_symbols;
        let mut result: Vec<u8> = Vec::new();
        let mut pos: usize = 0;
        while pos < n
            invariant
                pos <= n == self.data_symbols,
                paths == received_paths@.map_values(|v: Vec<u8>| v@),
                forall|q: int| 0 <= q < received_paths@.len() ==> received_paths@.len() * 7 + (
                #[trigger] received_paths@[q])@.len() * 13 <= usize::MAX,
                result@.len() == pos,
                forall|i: int| 0 <= i < pos ==> #[trigger] result@[i] == majority_of(
                    path_column(paths, i, paths.len()),
                ),
            decreases n - pos,
        {
            let mut column: Vec<u8> = Vec::new();
            let mut q: usize = 0;
            while q < received_paths.len()
                invariant
                    q <= received_paths@.len(),
                    paths == received_paths@.map_values(|v: Vec<u8>| v@),
                    forall|i: int| 0 <= i < received_paths@.len() ==> received_paths@.len() * 7 + (
                    #[trigger] received_paths@[i])@.len() * 13 <= usize::MAX,
                    column@ == path_column(paths, pos as int, q as nat),
                decreases received_paths@.len() - q,
            {
                let path = &received_paths[q];
                if pos < path.len() {
                    let val = if q == 0 {
                        path[pos]
                    } else {
                        GF256(path[pos]).div(shift_of(q, pos)).0
                    };
                    column.push(val);
                }
                q = q + 1;
            }
            result.push(majority_value(column.as_slice()));
            pos = pos + 1;
        }
        proof {
            assert(result@ =~= Seq::new(kk, |i: int| majority_of(path_column(paths, i, paths.len()))));
        }
        result
    }

    /// Decode from several received paths: each path is decoded on its own, and the result that
    /// the most paths agree on wins (the earliest such path among ties); when no path decodes,
    /// a symbol-by-symbol majority vote over the recovered paths.
    pub fn decode_multipath(&self, received_paths: &[Vec<u8>]) -> (r: Result<Vec<u8>, String>)
        requires
            self.sized(),
            forall|p: int| 0 <= p < received_paths@.len() ==> received_paths@.len() * 7 + (
            #[trigger] received_paths@[p])@.len() * 13 <= usize::MAX,
        ensures
            decoded_view(r) == phyto_multipath_decoded(
                self.data_symbols as nat,
                self.parity_symbols as nat,
                received_paths@.map_values(|v: Vec<u8>| v@),
            ),
    {
        let ghost paths = received_paths@.map_values(|v: Vec<u8>| v@);
        let ghost kk = self.data_symbols as nat;
        let ghost pp = self.parity_symbols as nat;
        if received_paths.len() == 0 {
            return Err("no received paths".to_owned());
        }
        let (ok, decs) = self.decode_each_path(received_paths);
        let sup = Self::supports(Ghost(kk), Ghost(pp), Ghost(paths), &ok, &decs);
        let lead = Self::leading(Ghost(kk), Ghost(pp), Ghost(paths), &ok, &sup);
        if let Some(best) = lead {
            proof {
                assert(ok@[best as int]);
                assert(path_result(kk, pp, paths, best as int) == Ok::<Seq<u8>, Seq<char>>(decs@[best as int]@));
            }
            let d = &decs[best];
            let out = prefix_copy(d.as_slice(), d.len());
            proof {
                assert(d@.subrange(0, d@.len() as int) =~= d@);
            }
            return Ok(out);
        }
        let result = self.vote_paths(received_paths);
        Ok(result)
    }

    /// Send `data` once as a codeword and, separately, as `redundancy_paths + 1` plain copies
    /// voted symbol by symbol; return how many data symbols each scheme got wrong.
    pub fn compare_to_repetition(&self, data: &[u8], channel: &MycorrhizalChannel, seed: u64) -> (r: (usize, usize))
        requires
            self.sized(),
            data@.len() == self.data_symbols,
            channel.noise.wf(),
            seed < u64::MAX,
            self.redundancy_paths < usize::MAX,
        ensures
            r.0 == phyto_trial_errors(
                self.data_symbols as nat,
                self.parity_symbols as nat,
                data@,
                channel.noise,
                seed,
            ),
            r.1 == mismatch_count(
                data@,
                repetition_word(channel.noise, data@, seed, (self.redundancy_paths + 1) as nat),
                data@.len(),
            ),
    {
        let codeword = self.encode(data);
        let received = channel.transmit(&codeword, seed);
        let phyto_errors = match self.decode(&received) {
            Ok(decoded) => count_mismatches(data, &decoded),
            Err(_) => data.len(),
        };
        let copies = self.redundancy_paths + 1;
        let n = data.len();
        let ghost noise = channel.noise;
        let mut rng = SimpleRng::new(seed + 1);
        let mut votes: Vec<Vec<u8>> = Vec::new();
        let mut c: usize = 0;
        while c < copies
            invariant
                noise == channel.noise,
                noise.wf(),
                c <= copies,
                n == data@.len(),
                rng.state() == xorshift_iter(seeded((seed + 1) as u64), c as nat),
                votes@.len() == c,
                forall|q: int| 0 <= q < c ==> (#[trigger] votes@[q])@ == transmitted(noise, data@, repetition_seed(seed, q as nat)),
                forall|q: int| 0 <= q < c ==> (#[trigger] votes@[q])@.len() == n,
            decreases copies - c,
        {
            let s = rng.next_u64();
            let vote = channel.transmit(data, s);
            votes.push(vote);
            c = c + 1;
        }
        let ghost word = repetition_word(noise, data@, seed, copies as nat);
        let mut rep_errors: usize = 0;
        let mut pos: usize = 0;
        while pos < n
            invariant
                noise == channel.noise,
                pos <= n == data@.len(),
                copies == self.redundancy_paths + 1,
                votes@.len() == copies,
                word == repetition_word(noise, data@, seed, copies as nat),
                forall|q: int| 0 <= q < copies ==> (#[trigger] votes@[q])@ == transmitted(noise, data@, repetition_seed(seed, q as nat)),
                forall|q: int| 0 <= q < copies ==> (#[trigger] votes@[q])@.len() == n,
                rep_errors == mismatch_count(data@, word, pos as nat),
                rep_errors <= pos,
            decreases n - pos,
        {
            let mut column: Vec<u8> = Vec::new();
            let mut q: usize = 0;
            while q < votes.len()
                invariant
                    pos < n,
                    q <= votes@.len() == copies,
                    forall|q2: int| 0 <= q2 < copies ==> (#[trigger] votes@[q2])@.len() == n,
                    column@ =~= Seq::new(q as nat, |c2: int| votes@[c2]@[pos as int]),
                decreases votes@.len() - q,
            {
                if pos < votes[q].len() {
                    column.push(votes[q][pos]);
                }
                q = q + 1;
            }
            let v = majority_value(&column);
            proof {
                assert(column@ =~= Seq::new(
                    copies as nat,
                    |c2: int| transmitted(noise, data@, repetition_seed(seed, c2 as nat))[pos as int],
                ));
                assert(word[pos as int] == v);
            }
            if data[pos] != v {
                rep_errors = rep_errors + 1;
            }
            pos = pos + 1;
        }
        (phyto_errors, rep_errors)
    }
}

} // verus!
