//! Burst-error correction from ecological redundancy: parity plus interleaved copies sent over
//! several paths, decoded by a per-symbol majority vote.

use vstd::prelude::*;
use crate::galois::gf_mul;
use crate::gf256::GF256;
use crate::mycorrhizal_channel::{
    lemma_classification_counts_every_error, lemma_long_runs_are_starts, lemma_long_runs_total, long_run_starts,
    lemma_long_runs_len, lemma_mismatch_count_bound, long_runs, mismatch_count, seeded, transmitted, xorshift_iter,
    MycorrhizalChannel, NoiseModel, SimpleRng,
};
use crate::runs::{
    bit_difference, count_ones, find_mismatch_runs, lemma_bit_difference_bound, lemma_runs_count, lemma_runs_within,
    mismatch_runs, popcount, common_len,
};
use crate::symbols::{lemma_majority_of_constant, majority_of, majority_value, prefix_copy};

verus! {

/// Outcome of a burst-error correction.
#[derive(Clone, Debug)]
pub struct BurstCorrectionResult {
    pub original_errors: usize,
    pub corrected_errors: usize,
    pub remaining_errors: usize,
    pub burst_count: usize,
    pub correction_success: bool,
}

/// A classified burst error pattern.
#[derive(Clone, Debug)]
pub struct BurstPattern {
    pub start: usize,
    pub length: usize,
    pub severity: u32,
    pub pattern_type: String,
}

/// Ecological burst-error corrector using multi-path redundancy.
#[derive(Clone, Debug)]
pub struct BurstEcology {
    /// Number of data symbols.
    pub data_symbols: usize,
    /// Number of parity check symbols.
    pub parity_symbols: usize,
    /// Number of redundant transmission paths.
    pub num_paths: usize,
}

/// The parity coefficient for check `p` at data position `i`: the byte `(p + 1) * (i + 1)`
/// (reduced modulo 256).
pub open spec fn burst_coeff(p: int, i: int) -> u8 {
    ((p + 1) * (i + 1)) as u8
}

/// `sum_{i < n} data[i] * burst_coeff(p, i)`.
pub open spec fn burst_check(data: Seq<u8>, p: int, n: nat) -> u8
    decreases n,
{
    if n == 0 {
        0u8
    } else {
        burst_check(data, p, (n - 1) as nat) ^ gf_mul(data[n - 1], burst_coeff(p, n - 1))
    }
}

/// The data followed by its `parity` check symbols.
pub open spec fn burst_codeword(data: Seq<u8>, parity: nat) -> Seq<u8> {
    data + Seq::new(parity, |p: int| burst_check(data, p, data.len()))
}

/// Where stride `r` and offset `p` put symbol `i` of a word of length `n`.
pub open spec fn burst_position(i: int, r: int, p: int, n: int) -> int {
    (i * r + p) % n
}

/// Stride `r` with offset `p` sends the `n` symbols of a word to `n` distinct places, so the
/// interleaving is a permutation.
pub open spec fn spreads(r: int, p: int, n: nat) -> bool {
    forall|i: int, j: int|
        0 <= i < j < n ==> #[trigger] burst_position(i, r, p, n as int) != #[trigger] burst_position(j, r, p, n as int)
}

/// The first stride `(p + 2 + c) mod n`, from `c` on, that spreads; `1` (a rotation) when none does.
pub open spec fn first_spreading(p: int, n: nat, c: nat) -> int
    decreases n - c,
{
    if c >= n {
        1
    } else if spreads((p + 2 + c) % (n as int), p, n) {
        (p + 2 + c) % (n as int)
    } else {
        first_spreading(p, n, c + 1)
    }
}

/// The stride of path `p`: `p + 2` (modulo `n`) when that spreads the word, else the next
/// stride that does.
pub open spec fn path_stride(p: int, n: nat) -> int {
    first_spreading(p, n, 0)
}

/// Where path `p` puts symbol `i` of a word of length `n`.
pub open spec fn interleave_position(i: int, p: int, n: int) -> int {
    burst_position(i, path_stride(p, n as nat), p, n)
}

/// The first `m` symbols of `w` written, one after another, at their interleaved positions on
/// path `p` into a zeroed word of length `n`.
pub open spec fn scatter(w: Seq<u8>, p: int, n: nat, m: nat) -> Seq<u8>
    decreases m,
{
    if m == 0 {
        Seq::new(n, |k: int| 0u8)
    } else {
        scatter(w, p, n, (m - 1) as nat).update(interleave_position(m - 1, p, n as int), w[m - 1])
    }
}

/// The word sent on path `p`.
pub open spec fn interleaved(w: Seq<u8>, p: int) -> Seq<u8> {
    scatter(w, p, w.len(), w.len())
}

/// A received path read back in codeword order: symbol `i` is what arrived at the place path
/// `p` gave it, zero when the path is too short to hold it.
pub open spec fn deinterleaved(path: Seq<u8>, p: int, n: nat) -> Seq<u8> {
    Seq::new(
        n,
        |i: int|
            {
                let k = interleave_position(i, p, n as int);
                if k < path.len() {
                    path[k]
                } else {
                    0u8
                }
            },
    )
}

/// The values at `pos` across the de-interleaved paths.
pub open spec fn burst_column(paths: Seq<Seq<u8>>, n: nat, pos: int) -> Seq<u8> {
    Seq::new(paths.len(), |q: int| deinterleaved(paths[q], q, n)[pos])
}

/// The word voted from the paths, symbol by symbol.
pub open spec fn voted_word(paths: Seq<Seq<u8>>, n: nat) -> Seq<u8> {
    Seq::new(n, |pos: int| majority_of(burst_column(paths, n, pos)))
}

/// Every check symbol of `w` matches its data symbols.
pub open spec fn checks_hold(w: Seq<u8>, k: nat, parity: nat) -> bool {
    forall|p: int| 0 <= p < parity ==> #[trigger] w[k + p] == burst_check(w, p, k)
}

/// The name of a burst of the given length.
pub open spec fn pattern_name(length: nat) -> Seq<char> {
    if length <= 2 {
        "isolated"@
    } else if length <= 5 {
        "short_burst"@
    } else {
        "long_burst"@
    }
}

/// What path `p` delivers when the interleaved codeword of `data` is sent through the channel
/// with the `p + 1`-th draw of a generator seeded with `seed`.
pub open spec fn trial_received(data: Seq<u8>, parity: nat, noise: NoiseModel, seed: u64, paths: nat) -> Seq<Seq<u8>> {
    Seq::new(
        paths,
        |p: int| transmitted(noise, interleaved(burst_codeword(data, parity), p), xorshift_iter(seeded(seed), (p + 1) as nat)),
    )
}

/// Differing symbols between what the first `m` paths sent and what they delivered.
pub open spec fn trial_symbol_errors(data: Seq<u8>, parity: nat, received: Seq<Seq<u8>>, m: nat) -> nat
    decreases m,
{
    if m == 0 {
        0
    } else {
        let sent = interleaved(burst_codeword(data, parity), m - 1);
        trial_symbol_errors(data, parity, received, (m - 1) as nat) + mismatch_count(
            sent,
            received[m - 1],
            common_len(sent, received[m - 1]),
        )
    }
}

/// Bursts (runs of three or more differing symbols) over the first `m` paths.
pub open spec fn trial_bursts(data: Seq<u8>, parity: nat, received: Seq<Seq<u8>>, m: nat) -> nat
    decreases m,
{
    if m == 0 {
        0
    } else {
        let sent = interleaved(burst_codeword(data, parity), m - 1);
        trial_bursts(data, parity, received, (m - 1) as nat) + long_runs(mismatch_runs(sent, received[m - 1])).len()
    }
}

/// Over the first `m` paths, how many positions begin a stretch of at least three symbols that
/// arrived different from what was sent on that path.
pub open spec fn long_stretch_starts(data: Seq<u8>, parity: nat, received: Seq<Seq<u8>>, m: nat) -> nat
    decreases m,
{
    if m == 0 {
        0
    } else {
        let sent = interleaved(burst_codeword(data, parity), m - 1);
        long_stretch_starts(data, parity, received, (m - 1) as nat) + long_run_starts(
            sent,
            received[m - 1],
            common_len(sent, received[m - 1]),
            0,
        )
    }
}

/// The bursts counted over a trial are exactly the stretches of at least three consecutive
/// differing symbols on each path: one or two differing symbols in a row count as no burst.
pub proof fn lemma_bursts_are_long_stretches(data: Seq<u8>, parity: nat, received: Seq<Seq<u8>>, m: nat)
    ensures
        trial_bursts(data, parity, received, m) == long_stretch_starts(data, parity, received, m),
    decreases m,
{
    if m > 0 {
        lemma_bursts_are_long_stretches(data, parity, received, (m - 1) as nat);
        let sent = interleaved(burst_codeword(data, parity), m - 1);
        lemma_long_runs_are_starts(sent, received[m - 1], common_len(sent, received[m - 1]), 0);
    }
}

/// Every burst counted over a trial takes at least three of the symbol errors counted.
pub proof fn lemma_bursts_take_three_errors(data: Seq<u8>, parity: nat, received: Seq<Seq<u8>>, m: nat)
    ensures
        3 * trial_bursts(data, parity, received, m) <= trial_symbol_errors(data, parity, received, m),
    decreases m,
{
    if m > 0 {
        lemma_bursts_take_three_errors(data, parity, received, (m - 1) as nat);
        let sent = interleaved(burst_codeword(data, parity), m - 1);
        let runs = mismatch_runs(sent, received[m - 1]);
        lemma_long_runs_total(runs);
        lemma_classification_counts_every_error(sent, received[m - 1]);
    }
}

impl BurstEcology {
    /// The arithmetic of this corrector stays within machine words.
    pub open spec fn sized(&self) -> bool {
        &&& self.data_symbols + self.parity_symbols <= usize::MAX
        &&& self.parity_symbols * self.data_symbols <= usize::MAX
        &&& (self.data_symbols + self.parity_symbols) * (self.num_paths + 2) <= usize::MAX
    }

    pub fn new(data_symbols: usize, parity_symbols: usize, num_paths: usize) -> (r: Self)
        ensures
            r.data_symbols == data_symbols,
            r.parity_symbols == parity_symbols,
            r.num_paths == num_paths,
    {
        BurstEcology { data_symbols, parity_symbols, num_paths }
    }

    /// Check symbol `p` of the first `data_symbols` symbols of `w`.
    fn check_symbol(&self, w: &[u8], p: usize) -> (s: u8)
        requires
            p < self.parity_symbols,
            self.data_symbols <= w@.len(),
            self.sized(),
        ensures
            s == burst_check(w@, p as int, self.data_symbols as nat),
    {
        let k = self.data_symbols;
        let mut s = GF256(0u8);
        let mut i: usize = 0;
        while i < k
            invariant
                i <= k == self.data_symbols <= w@.len(),
                p < self.parity_symbols,
                self.sized(),
                s.0 == burst_check(w@, p as int, i as nat),
            decreases k - i,
        {
            proof {
                assert((p + 1) * (i + 1) <= self.parity_symbols * self.data_symbols) by (nonlinear_arith)
                    requires
                        p < self.parity_symbols,
                        i < self.data_symbols,
                ;
            }
            let coeff = GF256(#[verifier::truncate] (((p + 1) * (i + 1)) as u8));
            s = s.add(GF256(w[i]).mul(coeff));
            i = i + 1;
        }
        s.0
    }

    /// Whether stride `r` with offset `p` sends the `n` symbols of a word to distinct places.
    fn stride_spreads(r: usize, p: usize, n: usize) -> (b: bool)
        requires
            0 < n,
            r <= n,
            2 * n <= usize::MAX,
        ensures
            b == spreads(r as int, p as int, n as nat),
    {
        let mut seen: Vec<bool> = Vec::new();
        while seen.len() < n
            invariant
                seen@.len() <= n,
                forall|k: int| 0 <= k < seen@.len() ==> !#[trigger] seen@[k],
            decreases n - seen@.len(),
        {
            seen.push(false);
        }
        let mut pos: usize = p % n;
        proof {
            assert(0 * (r as int) + p == p);
        }
        let mut i: usize = 0;
        while i < n
            invariant
                0 < n == seen@.len(),
                r <= n,
                2 * n <= usize::MAX,
                i <= n,
                pos == burst_position(i as int, r as int, p as int, n as int),
                forall|x: int| 0 <= x < n ==> (#[trigger] seen@[x] <==> exists|j: int| 0 <= j < i && burst_position(
                    j,
                    r as int,
                    p as int,
                    n as int,
                ) == x),
                forall|j: int, k: int| 0 <= j < k < i ==> #[trigger] burst_position(j, r as int, p as int, n as int)
                    != #[trigger] burst_position(k, r as int, p as int, n as int),
            decreases n - i,
        {
            proof {
                lemma_next_position(i as int, r as int, p as int, n as int);
            }
            if seen[pos] {
                proof {
                    let j = choose|j: int| 0 <= j < i && burst_position(j, r as int, p as int, n as int) == pos;
                    assert(burst_position(j, r as int, p as int, n as int) == burst_position(
                        i as int,
                        r as int,
                        p as int,
                        n as int,
                    ));
                }
                return false;
            }
            proof {
                assert forall|j: int, k: int| 0 <= j < k < i + 1 implies #[trigger] burst_position(
                    j,
                    r as int,
                    p as int,
                    n as int,
                ) != #[trigger] burst_position(k, r as int, p as int, n as int) by {
                    if k == i {
                        if burst_position(j, r as int, p as int, n as int) == pos {
                            assert(seen@[pos as int]);
                        }
                    }
                }
            }
            seen.set(pos, true);
            pos = (pos + r) % n;
            i = i + 1;
        }
        true
    }

    /// The stride path `p` uses for a word of length `n`.
    fn stride_of(p: usize, n: usize) -> (r: usize)
        requires
            0 < n,
            n * (p + 2) <= usize::MAX,
        ensures
            r == path_stride(p as int, n as nat),
            r <= n,
    {
        proof {
            assert(2 * n <= n * (p + 2)) by (nonlinear_arith);
        }
        let mut c: usize = 0;
        while c < n
            invariant
                0 < n,
                n * (p + 2) <= usize::MAX,
                2 * n <= usize::MAX,
                c <= n,
                first_spreading(p as int, n as nat, 0) == first_spreading(p as int, n as nat, c as nat),
            decreases n - c,
        {
            proof {
                assert(p + 2 + c <= n * (p + 2)) by (nonlinear_arith)
                    requires
                        c < n,
                        0 < n,
                ;
            }
            let cand = (p + 2 + c) % n;
            if Self::stride_spreads(cand, p, n) {
                return cand;
            }
            c = c + 1;
        }
        1
    }

    /// Write `w` to path `p` at its interleaved positions.
    fn interleave(w: &[u8], p: usize) -> (r: Vec<u8>)
        requires
            w@.len() * (p + 2) <= usize::MAX,
        ensures
            r@ == interleaved(w@, p as int),
    {
        let n = w.len();
        let mut out = prefix_copy(w, 0);
        while out.len() < n
            invariant
                out@.len() <= n,
                forall|k: int| 0 <= k < out@.len() ==> #[trigger] out@[k] == 0u8,
            decreases n - out@.len(),
        {
            out.push(0u8);
        }
        proof {
            assert(out@ =~= scatter(w@, p as int, n as nat, 0));
        }
        if n == 0 {
            return out;
        }
        let r = Self::stride_of(p, n);
        proof {
            assert(2 * n <= n * (p + 2)) by (nonlinear_arith);
        }
        let mut pos: usize = p % n;
        proof {
            assert(0 * (r as int) + p == p);
        }
        let mut i: usize = 0;
        while i < n
            invariant
                0 < n == w@.len(),
                r == path_stride(p as int, n as nat),
                r <= n,
                2 * n <= usize::MAX,
                i <= n,
                pos == interleave_position(i as int, p as int, n as int),
                out@ == scatter(w@, p as int, n as nat, i as nat),
            decreases n - i,
        {
            proof {
                lemma_next_position(i as int, r as int, p as int, n as int);
                lemma_scatter_len(w@, p as int, n as nat, i as nat);
            }
            out.set(pos, w[i]);
            pos = (pos + r) % n;
            i = i + 1;
        }
        out
    }

    /// Encode data: the codeword (data and check symbols) sent interleaved on each path.
    pub fn encode(&self, data: &[u8]) -> (paths: Vec<Vec<u8>>)
        requires
            data@.len() == self.data_symbols,
            self.sized(),
        ensures
            paths@.len() == self.num_paths,
            forall|p: int| 0 <= p < self.num_paths ==> #[trigger] paths@[p]@ == interleaved(
                burst_codeword(data@, self.parity_symbols as nat),
                p,
            ),
    {
        let mut codeword = prefix_copy(data, data.len());
        proof {
            assert(data@.subrange(0, data@.len() as int) =~= data@);
        }
        let mut p: usize = 0;
        while p < self.parity_symbols
            invariant
                p <= self.parity_symbols,
                data@.len() == self.data_symbols,
                self.sized(),
                codeword@ =~= burst_codeword(data@, self.parity_symbols as nat).subrange(
                    0,
                    data@.len() + p,
                ),
            decreases self.parity_symbols - p,
        {
            codeword.push(self.check_symbol(data, p));
            p = p + 1;
        }
        proof {
            assert(codeword@ =~= burst_codeword(data@, self.parity_symbols as nat));
        }
        let mut paths: Vec<Vec<u8>> = Vec::new();
        let mut q: usize = 0;
        while q < self.num_paths
            invariant
                q <= self.num_paths,
                self.sized(),
                codeword@ == burst_codeword(data@, self.parity_symbols as nat),
                codeword@.len() == self.data_symbols + self.parity_symbols,
                paths@.len() == q,
                forall|i: int| 0 <= i < q ==> #[trigger] paths@[i]@ == interleaved(codeword@, i),
            decreases self.num_paths - q,
        {
            proof {
                assert(codeword@.len() * (q + 2) <= (self.data_symbols + self.parity_symbols) * (
                self.num_paths + 2)) by (nonlinear_arith)
                    requires
                        q < self.num_paths,
                        codeword@.len() == self.data_symbols + self.parity_symbols,
                ;
            }
            paths.push(Self::interleave(codeword.as_slice(), q));
            q = q + 1;
        }
        paths
    }

    /// Read a received path back in codeword order, as a word of length `n`.
    fn deinterleave(path: &[u8], p: usize, n: usize) -> (r: Vec<u8>)
        requires
            n * (p + 2) <= usize::MAX,
        ensures
            r@ == deinterleaved(path@, p as int, n as nat),
    {
        let mut out: Vec<u8> = Vec::new();
        if n == 0 {
            proof {
                assert(out@ =~= deinterleaved(path@, p as int, n as nat));
            }
            return out;
        }
        let r = Self::stride_of(p, n);
        proof {
            assert(2 * n <= n * (p + 2)) by (nonlinear_arith);
        }
        let mut pos: usize = p % n;
        proof {
            assert(0 * (r as int) + p == p);
        }
        let mut i: usize = 0;
        while i < n
            invariant
                0 < n,
                r == path_stride(p as int, n as nat),
                r <= n,
                2 * n <= usize::MAX,
                i <= n,
                pos == interleave_position(i as int, p as int, n as int),
                out@ =~= deinterleaved(path@, p as int, n as nat).subrange(0, i as int),
            decreases n - i,
        {
            proof {
                lemma_next_position(i as int, r as int, p as int, n as int);
            }
            if pos < path.len() {
                out.push(path[pos]);
            } else {
                out.push(0u8);
            }
            pos = (pos + r) % n;
            i = i + 1;
        }
        proof {
            assert(out@ =~= deinterleaved(path@, p as int, n as nat));
        }
        out
    }

    /// Decode from the received paths: de-interleave each, vote symbol by symbol, and report
    /// whether the voted word's check symbols hold.
    pub fn decode(&self, received_paths: &[Vec<u8>]) -> (r: BurstCorrectionResult)
        requires
            self.sized(),
            (self.data_symbols + self.parity_symbols) * (received_paths@.len() + 2) <= usize::MAX,
        ensures
            received_paths@.len() == 0 ==> r == (BurstCorrectionResult {
                original_errors: self.data_symbols,
                corrected_errors: 0,
                remaining_errors: self.data_symbols,
                burst_count: 0,
                correction_success: false,
            }),
            received_paths@.len() > 0 ==> {
                let ok = checks_hold(
                    voted_word(
                        received_paths@.map_values(|v: Vec<u8>| v@),
                        (self.data_symbols + self.parity_symbols) as nat,
                    ),
                    self.data_symbols as nat,
                    self.parity_symbols as nat,
                );
                r == (BurstCorrectionResult {
                    original_errors: 0,
                    corrected_errors: 0,
                    remaining_errors: if ok {
                        0
                    } else {
                        1
                    },
                    burst_count: 0,
                    correction_success: ok,
                })
            },
    {
        if received_paths.len() == 0 {
            return BurstCorrectionResult {
                original_errors: self.data_symbols,
                corrected_errors: 0,
                remaining_errors: self.data_symbols,
                burst_count: 0,
                correction_success: false,
            };
        }
        let ghost paths = received_paths@.map_values(|v: Vec<u8>| v@);
        let n = self.data_symbols + self.parity_symbols;
        let mut deints: Vec<Vec<u8>> = Vec::new();
        let mut q: usize = 0;
        while q < received_paths.len()
            invariant
                q <= received_paths@.len(),
                n == self.data_symbols + self.parity_symbols,
                n * (received_paths@.len() + 2) <= usize::MAX,
                paths == received_paths@.map_values(|v: Vec<u8>| v@),
                deints@.len() == q,
                forall|i: int| 0 <= i < q ==> #[trigger] deints@[i]@ == deinterleaved(paths[i], i, n as nat),
            decreases received_paths@.len() - q,
        {
            proof {
                assert(n * (q + 2) <= n * (received_paths@.len() + 2)) by (nonlinear_arith)
                    requires
                        q < received_paths@.len(),
                ;
            }
            deints.push(Self::deinterleave(received_paths[q].as_slice(), q, n));
            q = q + 1;
        }
        let mut codeword: Vec<u8> = Vec::new();
        let mut pos: usize = 0;
        while pos < n
            invariant
                pos <= n,
                deints@.len() == paths.len(),
                forall|i: int| 0 <= i < paths.len() ==> #[trigger] deints@[i]@ == deinterleaved(paths[i], i, n as nat),
                codeword@ =~= voted_word(paths, n as nat).subrange(0, pos as int),
            decreases n - pos,
        {
            let mut column: Vec<u8> = Vec::new();
            let mut i: usize = 0;
            while i < deints.len()
                invariant
                    i <= deints@.len() == paths.len(),
                    pos < n,
                    forall|j: int| 0 <= j < paths.len() ==> #[trigger] deints@[j]@ == deinterleaved(
                        paths[j],
                        j,
                        n as nat,
                    ),
                    column@ =~= burst_column(paths, n as nat, pos as int).subrange(0, i as int),
                decreases deints@.len() - i,
            {
                proof {
                    lemma_scatter_len(paths[i as int], i as int, n as nat, if paths[i as int].len() <= n {
                        paths[i as int].len()
                    } else {
                        n as nat
                    });
                }
                column.push(deints[i][pos]);
                i = i + 1;
            }
            proof {
                assert(column@ =~= burst_column(paths, n as nat, pos as int));
            }
            codeword.push(majority_value(column.as_slice()));
            pos = pos + 1;
        }
        proof {
            assert(codeword@ =~= voted_word(paths, n as nat));
        }
        let mut parity_ok = true;
        let mut p: usize = 0;
        while p < self.parity_symbols
            invariant
                p <= self.parity_symbols,
                self.sized(),
                n == self.data_symbols + self.parity_symbols,
                codeword@ == voted_word(paths, n as nat),
                codeword@.len() == n,
                parity_ok == (forall|t: int| 0 <= t < p ==> #[trigger] codeword@[self.data_symbols + t]
                    == burst_check(codeword@, t, self.data_symbols as nat)),
            decreases self.parity_symbols - p,
        {
            let s = self.check_symbol(codeword.as_slice(), p);
            if self.data_symbols + p < n && codeword[self.data_symbols + p] != s {
                parity_ok = false;
            }
            p = p + 1;
        }
        BurstCorrectionResult {
            original_errors: 0,
            corrected_errors: 0,
            remaining_errors: if parity_ok {
                0
            } else {
                1
            },
            burst_count: 0,
            correction_success: parity_ok,
        }
    }

    /// Encode `data`, send each path through the channel with its own seed drawn from `seed`,
    /// count the symbol errors and bursts the channel caused, and decode what arrived.
    pub fn transmit_and_decode(&self, data: &[u8], channel: &MycorrhizalChannel, seed: u64) -> (r:
        BurstCorrectionResult)
        requires
            data@.len() == self.data_symbols,
            self.sized(),
            channel.noise.wf(),
            8 * (self.data_symbols + self.parity_symbols) <= usize::MAX,
        ensures
            ({
                let k = self.data_symbols as nat;
                let parity = self.parity_symbols as nat;
                let received = trial_received(data@, parity, channel.noise, seed, self.num_paths as nat);
                let errors = trial_symbol_errors(data@, parity, received, self.num_paths as nat);
                let ok = self.num_paths > 0 && checks_hold(voted_word(received, k + parity), k, parity);
                r == BurstCorrectionResult {
                    original_errors: errors as usize,
                    corrected_errors: errors as usize,
                    remaining_errors: if ok {
                        0
                    } else {
                        errors as usize
                    },
                    burst_count: trial_bursts(data@, parity, received, self.num_paths as nat) as usize,
                    correction_success: ok,
                }
            }),
    {
        let ghost k = self.data_symbols as nat;
        let ghost parity = self.parity_symbols as nat;
        let ghost noise = channel.noise;
        let ghost w = burst_codeword(data@, parity);
        let n = self.data_symbols + self.parity_symbols;
        let np = self.num_paths;
        let encoded = self.encode(data);
        proof {
            assert(w.len() == n);
        }
        let mut rng = SimpleRng::new(seed);
        let mut received_paths: Vec<Vec<u8>> = Vec::new();
        let mut p: usize = 0;
        while p < encoded.len()
            invariant
                noise == channel.noise,
                noise.wf(),
                w == burst_codeword(data@, parity),
                encoded@.len() == np,
                forall|q: int| 0 <= q < np ==> #[trigger] encoded@[q]@ == interleaved(w, q),
                p <= np,
                rng.state() == xorshift_iter(seeded(seed), p as nat),
                received_paths@.len() == p,
                forall|q: int| 0 <= q < p ==> (#[trigger] received_paths@[q])@ == trial_received(data@, parity, noise, seed, np as nat)[q],
            decreases np - p,
        {
            let s = rng.next_u64();
            let rec = channel.transmit(&encoded[p], s);
            let ghost before = received_paths@;
            received_paths.push(rec);
            proof {
                assert(encoded@[p as int]@ == interleaved(w, p as int));
                assert(s == xorshift_iter(seeded(seed), (p + 1) as nat));
                assert(received_paths@[p as int]@ == trial_received(data@, parity, noise, seed, np as nat)[p as int]);
                assert forall|q: int| 0 <= q < p + 1 implies (#[trigger] received_paths@[q])@ == trial_received(
                    data@,
                    parity,
                    noise,
                    seed,
                    np as nat,
                )[q] by {
                    if q < p {
                        assert(received_paths@[q] == before[q]);
                    }
                }
            }
            p = p + 1;
        }
        let ghost received = trial_received(data@, parity, noise, seed, np as nat);
        proof {
            assert(received_paths@.map_values(|v: Vec<u8>| v@) =~= received);
        }
        let mut total_errors: usize = 0;
        let mut burst_count: usize = 0;
        let mut i: usize = 0;
        while i < received_paths.len()
            invariant
                self.sized(),
                w == burst_codeword(data@, parity),
                n == self.data_symbols + self.parity_symbols == w.len(),
                8 * n <= usize::MAX,
                encoded@.len() == np == self.num_paths,
                forall|q: int| 0 <= q < np ==> #[trigger] encoded@[q]@ == interleaved(w, q),
                received_paths@.len() == np,
                forall|q: int| 0 <= q < np ==> (#[trigger] received_paths@[q])@ == received[q],
                received.len() == np,
                i <= np,
                total_errors == trial_symbol_errors(data@, parity, received, i as nat),
                burst_count == trial_bursts(data@, parity, received, i as nat),
                total_errors <= i * n,
                burst_count <= i * n,
            decreases np - i,
        {
            let ghost sent = interleaved(w, i as int);
            proof {
                lemma_scatter_len(w, i as int, w.len(), w.len());
                let m = common_len(sent, received[i as int]);
                lemma_bit_difference_bound(sent, received[i as int], 0, m);
                lemma_mismatch_count_bound(sent, received[i as int], m);
                lemma_runs_count(sent, received[i as int], m, 0);
                lemma_long_runs_len(mismatch_runs(sent, received[i as int]));
                assert((i + 1) * n == i * n + n) by (nonlinear_arith);
                assert((i + 1) * n <= np * n) by (nonlinear_arith)
                    requires
                        i < np,
                ;
                assert(np * n <= (self.num_paths + 2) * n) by (nonlinear_arith)
                    requires
                        np == self.num_paths,
                ;
                assert((self.num_paths + 2) * n == (self.data_symbols + self.parity_symbols) * (self.num_paths + 2))
                    by (nonlinear_arith)
                    requires
                        n == self.data_symbols + self.parity_symbols,
                ;
            }
            proof {
                assert(encoded@[i as int]@ == sent);
                assert(received_paths@[i as int]@ == received[i as int]);
            }
            let (_, byte_err) = MycorrhizalChannel::count_errors(&encoded[i], &received_paths[i]);
            total_errors = total_errors + byte_err;
            let classification = MycorrhizalChannel::classify_errors(&encoded[i], &received_paths[i]);
            burst_count = burst_count + classification.bursts.len();
            proof {
                assert(trial_symbol_errors(data@, parity, received, (i + 1) as nat) == trial_symbol_errors(
                    data@,
                    parity,
                    received,
                    i as nat,
                ) + mismatch_count(sent, received[i as int], common_len(sent, received[i as int])));
                assert(trial_bursts(data@, parity, received, (i + 1) as nat) == trial_bursts(data@, parity, received, i as nat)
                    + long_runs(mismatch_runs(sent, received[i as int])).len());
            }
            i = i + 1;
        }
        let result = self.decode(&received_paths);
        BurstCorrectionResult {
            original_errors: total_errors,
            corrected_errors: total_errors,
            remaining_errors: if result.correction_success {
                0
            } else {
                total_errors
            },
            burst_count,
            correction_success: result.correction_success,
        }
    }

    /// Classify the maximal runs of differing bytes between `data` and `reference`.
    pub fn classify_burst_patterns(data: &[u8], reference: &[u8]) -> (patterns: Vec<BurstPattern>)
        requires
            forall|r: int| 0 <= r < mismatch_runs(data@, reference@).len() ==> bit_difference(
                data@,
                reference@,
                (#[trigger] mismatch_runs(data@, reference@)[r]).0 as int,
                mismatch_runs(data@, reference@)[r].1,
            ) <= u32::MAX,
        ensures
            patterns@.len() == mismatch_runs(data@, reference@).len(),
            forall|r: int| 0 <= r < patterns@.len() ==> {
                let run = mismatch_runs(data@, reference@)[r];
                &&& (#[trigger] patterns@[r]).start == run.0
                &&& patterns@[r].length == run.1
                &&& patterns@[r].severity == bit_difference(data@, reference@, run.0 as int, run.1)
                &&& patterns@[r].pattern_type@ == pattern_name(run.1)
            },
    {
        let runs = find_mismatch_runs(data, reference);
        let ghost all = mismatch_runs(data@, reference@);
        proof {
            lemma_runs_within(data@, reference@, common_len(data@, reference@), 0);
        }
        let mut patterns: Vec<BurstPattern> = Vec::new();
        let mut r: usize = 0;
        while r < runs.len()
            invariant
                r <= runs@.len() == all.len(),
                all == mismatch_runs(data@, reference@),
                forall|q: int| 0 <= q < runs@.len() ==> (#[trigger] runs@[q]).0 == all[q].0 && runs@[q].1
                    == all[q].1,
                forall|q: int| 0 <= q < all.len() ==> {
                    let run = #[trigger] all[q];
                    &&& run.1 >= 1
                    &&& run.0 + run.1 <= common_len(data@, reference@)
                },
                forall|q: int| 0 <= q < all.len() ==> bit_difference(
                    data@,
                    reference@,
                    (#[trigger] all[q]).0 as int,
                    all[q].1,
                ) <= u32::MAX,
                patterns@.len() == r,
                forall|q: int| 0 <= q < r ==> {
                    let run = all[q];
                    &&& (#[trigger] patterns@[q]).start == run.0
                    &&& patterns@[q].length == run.1
                    &&& patterns@[q].severity == bit_difference(data@, reference@, run.0 as int, run.1)
                    &&& patterns@[q].pattern_type@ == pattern_name(run.1)
                },
            decreases runs@.len() - r,
        {
            let (start, length) = runs[r];
            let ghost run = all[r as int];
            let dl = data.len();
            let mut severity: u32 = 0;
            let mut i: usize = 0;
            while i < length
                invariant
                    i <= length == run.1,
                    start == run.0,
                    start + length <= common_len(data@, reference@),
                    start + length <= data@.len(),
                    dl == data@.len(),
                    start + length <= dl,
                    start + length <= reference@.len(),
                    bit_difference(data@, reference@, start as int, length as nat) <= u32::MAX,
                    severity == bit_difference(data@, reference@, start as int, i as nat),
                decreases length - i,
            {
                proof {
                    lemma_bit_difference_monotone(data@, reference@, start as int, (i + 1) as nat, length as nat);
                }
                severity = severity + count_ones(data[start + i] ^ reference[start + i]);
                i = i + 1;
            }
            let pattern_type = if length <= 2 {
                "isolated".to_owned()
            } else if length <= 5 {
                "short_burst".to_owned()
            } else {
                "long_burst".to_owned()
            };
            patterns.push(BurstPattern { start, length, severity, pattern_type });
            r = r + 1;
        }
        patterns
    }
}

/// Scattering keeps the length of the target word.
proof fn lemma_scatter_len(w: Seq<u8>, p: int, n: nat, m: nat)
    requires
        p >= 0,
        n > 0 || m == 0,
    ensures
        scatter(w, p, n, m).len() == n,
    decreases m,
{
    if m > 0 {
        lemma_scatter_len(w, p, n, (m - 1) as nat);
    }
}

/// Consecutive positions of a stride differ by the stride, modulo the length.
proof fn lemma_next_position(i: int, r: int, p: int, n: int)
    requires
        n > 0,
        i >= 0,
        r >= 0,
        p >= 0,
    ensures
        burst_position(i + 1, r, p, n) == (burst_position(i, r, p, n) + r) % n,
        0 <= burst_position(i, r, p, n) < n,
{
    let x = i * r + p;
    assert((i + 1) * r + p == (i * r + p) + r) by (nonlinear_arith);
    vstd::arithmetic::div_mod::lemma_add_mod_noop(x, r, n);
    vstd::arithmetic::div_mod::lemma_add_mod_noop(x % n, r, n);
    vstd::arithmetic::div_mod::lemma_mod_twice(x, n);
    vstd::arithmetic::div_mod::lemma_mod_bound(x, n);
}

/// A rotation (stride one) spreads any word.
proof fn lemma_rotation_spreads(p: int, n: nat)
    requires
        p >= 0,
    ensures
        spreads(1, p, n),
{
    assert forall|i: int, j: int| 0 <= i < j < n implies #[trigger] burst_position(i, 1, p, n as int)
        != #[trigger] burst_position(j, 1, p, n as int) by {
        assert(i * 1 + p == i + p && j * 1 + p == j + p);
        if burst_position(i, 1, p, n as int) == burst_position(j, 1, p, n as int) {
            vstd::arithmetic::div_mod::lemma_mod_equivalence(j + p, i + p, n as int);
            vstd::arithmetic::div_mod::lemma_small_mod((j - i) as nat, n);
        }
    }
}

/// The stride chosen for every path spreads the word, and lies in `0..=n` (`1` when `n` is zero).
proof fn lemma_first_spreading(p: int, n: nat, c: nat)
    requires
        p >= 0,
    ensures
        spreads(first_spreading(p, n, c), p, n),
        0 <= first_spreading(p, n, c),
        first_spreading(p, n, c) <= n || first_spreading(p, n, c) == 1,
    decreases n - c,
{
    if c >= n {
        lemma_rotation_spreads(p, n);
    } else if spreads((p + 2 + c) % (n as int), p, n) {
    } else {
        lemma_first_spreading(p, n, c + 1);
    }
}

/// Writing the first `m` symbols at distinct places leaves each of them where it was put.
proof fn lemma_scatter_reads(w: Seq<u8>, p: int, n: nat, m: nat, i: int)
    requires
        p >= 0,
        n > 0,
        m <= n,
        m <= w.len(),
        0 <= i < m,
        spreads(path_stride(p, n), p, n),
    ensures
        scatter(w, p, n, m)[interleave_position(i, p, n as int)] == w[i],
    decreases m,
{
    lemma_first_spreading(p, n, 0);
    lemma_next_position(i, path_stride(p, n), p, n as int);
    lemma_scatter_len(w, p, n, (m - 1) as nat);
    if i < m - 1 {
        lemma_scatter_reads(w, p, n, (m - 1) as nat, i);
        assert(burst_position(i, path_stride(p, n), p, n as int) != burst_position(
            m - 1,
            path_stride(p, n),
            p,
            n as int,
        ));
    }
}

/// Every path is a permutation of the word: symbol `i` sits at `interleave_position(i, p, n)`,
/// and distinct symbols sit at distinct places inside the word.
pub proof fn lemma_interleave_is_permutation(w: Seq<u8>, p: int, i: int, j: int)
    requires
        p >= 0,
        0 <= i < w.len(),
        0 <= j < w.len(),
    ensures
        interleaved(w, p).len() == w.len(),
        0 <= interleave_position(i, p, w.len() as int) < w.len(),
        interleaved(w, p)[interleave_position(i, p, w.len() as int)] == w[i],
        i != j ==> interleave_position(i, p, w.len() as int) != interleave_position(j, p, w.len() as int),
{
    let n = w.len();
    lemma_first_spreading(p, n, 0);
    lemma_scatter_len(w, p, n, n);
    lemma_next_position(i, path_stride(p, n), p, n as int);
    lemma_scatter_reads(w, p, n, n, i);
    if i < j {
        assert(burst_position(i, path_stride(p, n), p, n as int) != burst_position(j, path_stride(p, n), p, n as int));
    } else if j < i {
        assert(burst_position(j, path_stride(p, n), p, n as int) != burst_position(i, path_stride(p, n), p, n as int));
    }
}

/// Reading an unaltered path back gives the word that was sent.
pub proof fn lemma_deinterleave_inverts(w: Seq<u8>, p: int)
    requires
        p >= 0,
    ensures
        deinterleaved(interleaved(w, p), p, w.len()) == w,
{
    let n = w.len();
    assert forall|i: int| 0 <= i < n implies #[trigger] deinterleaved(interleaved(w, p), p, n)[i] == w[i] by {
        lemma_interleave_is_permutation(w, p, i, i);
    }
    assert(deinterleaved(interleaved(w, p), p, n) =~= w);
}

/// The check sums over the first `n` symbols depend on those symbols only.
proof fn lemma_burst_check_prefix(a: Seq<u8>, b: Seq<u8>, p: int, n: nat)
    requires
        n <= a.len(),
        n <= b.len(),
        forall|i: int| 0 <= i < n ==> a[i] == b[i],
    ensures
        burst_check(a, p, n) == burst_check(b, p, n),
    decreases n,
{
    if n > 0 {
        lemma_burst_check_prefix(a, b, p, (n - 1) as nat);
    }
}

/// Decoding unaltered paths succeeds: every path reads back to the codeword, the vote gives
/// the codeword, and its check symbols hold.
pub proof fn lemma_burst_clean_decode(data: Seq<u8>, parity: nat, num_paths: nat)
    requires
        num_paths >= 1,
    ensures
        ({
            let cw = burst_codeword(data, parity);
            let paths = Seq::new(num_paths, |q: int| interleaved(cw, q));
            &&& voted_word(paths, cw.len()) == cw
            &&& checks_hold(voted_word(paths, cw.len()), data.len(), parity)
        }),
{
    let cw = burst_codeword(data, parity);
    let n = cw.len();
    let paths = Seq::new(num_paths, |q: int| interleaved(cw, q));
    assert forall|pos: int| 0 <= pos < n implies #[trigger] voted_word(paths, n)[pos] == cw[pos] by {
        let col = burst_column(paths, n, pos);
        assert forall|q: int| 0 <= q < col.len() implies #[trigger] col[q] == cw[pos] by {
            lemma_deinterleave_inverts(cw, q);
        }
        lemma_majority_of_constant(col, cw[pos]);
    }
    assert(voted_word(paths, n) =~= cw);
    assert forall|p: int| 0 <= p < parity implies #[trigger] cw[data.len() + p] == burst_check(cw, p, data.len()) by {
        lemma_burst_check_prefix(cw, data, p, data.len());
    }
}

/// Bit differences only grow as the range extends.
proof fn lemma_bit_difference_monotone(a: Seq<u8>, b: Seq<u8>, start: int, m: nat, n: nat)
    requires
        m <= n,
    ensures
        bit_difference(a, b, start, m) <= bit_difference(a, b, start, n),
    decreases n,
{
    if m < n {
        lemma_bit_difference_monotone(a, b, start, m, (n - 1) as nat);
    }
}

} // verus!
