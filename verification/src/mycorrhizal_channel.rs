//! Noisy multi-path channels modelled on mycorrhizal networks: burst errors, random errors and
//! attenuation driven by a reproducible xorshift generator, plus error measurement.

use vstd::prelude::*;
use crate::runs::{
    bit_difference, common_len, count_ones, find_mismatch_runs, lemma_popcount_self_xor, lemma_run_end_bounds,
    lemma_runs_total, lemma_runs_within, mismatch_runs, popcount, run_end, run_total, runs_from,
};
use crate::symbols::prefix_copy;

verus! {

/// One step of the xorshift64 generator.
pub open spec fn xorshift64(s: u64) -> u64 {
    let a = s ^ (s << 13u64);
    let b = a ^ (a >> 7u64);
    b ^ (b << 17u64)
}

/// The generator never reaches the all-zero state from a non-zero one.
pub proof fn lemma_xorshift_nonzero(s: u64)
    requires
        s != 0,
    ensures
        xorshift64(s) != 0,
{
    assert(s != 0 ==> xorshift64(s) != 0) by (bit_vector);
}

/// The generator state after `n` steps from `s`.
pub open spec fn xorshift_iter(s: u64, n: nat) -> u64
    decreases n,
{
    if n == 0 {
        s
    } else {
        xorshift64(xorshift_iter(s, (n - 1) as nat))
    }
}

/// Mask of the 21 bits a unit draw uses.
pub open spec fn unit_mask() -> u64 {
    0x1fffffu64
}

/// Simple deterministic generator (xorshift64) for reproducible noise.
#[derive(Debug)]
pub struct SimpleRng {
    state: u64,
}

impl Clone for SimpleRng {
    fn clone(&self) -> (r: Self)
        ensures
            r.state() == self.state(),
    {
        proof {
            use_type_invariant(self);
        }
        SimpleRng { state: self.state }
    }
}

impl SimpleRng {
    /// The current state.
    pub closed spec fn state(self) -> u64 {
        self.state
    }

    #[verifier::type_invariant]
    closed spec fn state_nonzero(self) -> bool {
        self.state != 0
    }

    /// A generator seeded with `seed` (a zero seed is replaced by one).
    pub fn new(seed: u64) -> (r: Self)
        ensures
            r.state() == if seed == 0 {
                1u64
            } else {
                seed
            },
    {
        SimpleRng { state: if seed == 0 { 1 } else { seed } }
    }

    /// Advance the state and return it.
    pub fn next_u64(&mut self) -> (r: u64)
        ensures
            r == xorshift64(old(self).state()),
            final(self).state() == r,
            r != 0,
    {
        proof {
            use_type_invariant(&*self);
            lemma_xorshift_nonzero(self.state);
        }
        let s = self.state;
        let a = s ^ (s << 13u64);
        let b = a ^ (a >> 7u64);
        let c = b ^ (b << 17u64);
        self.state = c;
        c
    }

    /// Advance the state and return its low byte.
    pub fn next_u8(&mut self) -> (r: u8)
        ensures
            final(self).state() == xorshift64(old(self).state()),
            r == xorshift64(old(self).state()) as u8,
    {
        let v = self.next_u64();
        #[verifier::truncate] (v as u8)
    }

    /// Advance the state and return its low 21 bits: the numerator of a draw in `[0, 1]` with
    /// denominator `0x1FFFFF`.
    pub fn next_unit_bits(&mut self) -> (r: u64)
        ensures
            final(self).state() == xorshift64(old(self).state()),
            r == xorshift64(old(self).state()) & unit_mask(),
            r <= unit_mask(),
    {
        let v = self.next_u64();
        let r = v & 0x1fffffu64;
        assert(v & 0x1fffffu64 <= 0x1fffffu64) by (bit_vector);
        r
    }
}


/// How a channel corrupts what it carries, in integer form: a symbol's 21-bit draw (numerator
/// over `0x1FFFFF`) below a threshold triggers the error.
#[derive(Clone, Debug)]
pub struct NoiseModel {
    /// A burst starts at a symbol whose draw is below this.
    pub burst_threshold: u64,
    /// Length of a burst (consecutive corrupted symbols).
    pub burst_length: usize,
    /// A symbol suffers a random error when its draw is below this.
    pub random_threshold: u64,
    /// The attenuated value of each byte (256 entries), when the channel attenuates.
    pub attenuation: Option<Vec<u8>>,
}

impl NoiseModel {
    /// Some draw escapes a burst of length zero, and an attenuation table covers every byte.
    pub open spec fn wf(&self) -> bool {
        &&& self.burst_length > 0 || self.burst_threshold <= unit_mask()
        &&& match self.attenuation {
            Some(t) => t@.len() == 256,
            None => true,
        }
    }
}

/// The generator state for a seed.
pub open spec fn seeded(seed: u64) -> u64 {
    if seed == 0 {
        1u64
    } else {
        seed
    }
}

/// Flip positions `[j, end)` of `acc`, each by the low byte of the next draw.
pub open spec fn burst_flip(acc: Seq<u8>, j: nat, end: nat, st: u64) -> (Seq<u8>, u64)
    decreases end - j,
{
    if j >= end {
        (acc, st)
    } else {
        let s1 = xorshift64(st);
        burst_flip(acc.update(j as int, acc[j as int] ^ (s1 as u8)), j + 1, end, s1)
    }
}

/// The most draws made at one position after a burst of length zero started there.
pub open spec fn redraw_budget() -> nat {
    0xffff_ffff_ffff_ffffnat
}

/// The generator state after drawing from `st` until a draw is not below the burst threshold,
/// making at most `budget` draws. A burst of length zero leaves its position where it is, so the
/// burst pass draws again there until a draw misses. The generator's period is `2^64 - 1`, so
/// the budget of `redraw_budget()` draws runs out only where no draw escapes the threshold;
/// that fact about the generator is not proved here.
pub open spec fn skip_burst_draws(noise: NoiseModel, st: u64, budget: nat) -> u64
    decreases budget,
{
    if budget == 0 {
        st
    } else {
        let s1 = xorshift64(st);
        if s1 & unit_mask() < noise.burst_threshold {
            skip_burst_draws(noise, s1, (budget - 1) as nat)
        } else {
            s1
        }
    }
}

/// The burst pass from position `i` of a word of length `n` with generator state `st`.
pub open spec fn burst_pass(noise: NoiseModel, n: nat, acc: Seq<u8>, i: nat, st: u64) -> (Seq<u8>, u64)
    decreases n - i,
{
    if i >= n {
        (acc, st)
    } else {
        let s1 = xorshift64(st);
        if s1 & unit_mask() < noise.burst_threshold && noise.burst_length == 0 {
            burst_pass(noise, n, acc, i + 1, skip_burst_draws(noise, s1, redraw_budget()))
        } else if s1 & unit_mask() < noise.burst_threshold {
            let end: nat = if i + noise.burst_length <= n {
                i + noise.burst_length as nat
            } else {
                n
            };
            let (acc2, st2) = burst_flip(acc, i, end, s1);
            burst_pass(noise, n, acc2, end, st2)
        } else {
            burst_pass(noise, n, acc, i + 1, s1)
        }
    }
}

/// The random-error pass from position `k` of a word of length `n` with generator state `st`.
pub open spec fn random_pass(noise: NoiseModel, n: nat, acc: Seq<u8>, k: nat, st: u64) -> (Seq<u8>, u64)
    decreases n - k,
{
    if k >= n {
        (acc, st)
    } else {
        let s1 = xorshift64(st);
        if s1 & unit_mask() < noise.random_threshold {
            let s2 = xorshift64(s1);
            random_pass(noise, n, acc.update(k as int, acc[k as int] ^ (s2 as u8)), k + 1, s2)
        } else {
            random_pass(noise, n, acc, k + 1, s1)
        }
    }
}

/// Every byte scaled by the attenuation table, if any.
pub open spec fn attenuated(noise: NoiseModel, acc: Seq<u8>) -> Seq<u8> {
    match noise.attenuation {
        Some(t) => Seq::new(acc.len(), |i: int| t@[acc[i] as int]),
        None => acc,
    }
}

/// What the channel delivers for `data` sent with generator seed `seed`: bursts, then random
/// errors, then attenuation.
pub open spec fn transmitted(noise: NoiseModel, data: Seq<u8>, seed: u64) -> Seq<u8> {
    let (a1, s1) = burst_pass(noise, data.len(), data, 0, seeded(seed));
    let (a2, s2) = random_pass(noise, data.len(), a1, 0, s1);
    attenuated(noise, a2)
}

/// The same channel with its attenuation switched off.
pub open spec fn without_attenuation(noise: NoiseModel) -> NoiseModel {
    NoiseModel {
        burst_threshold: noise.burst_threshold,
        burst_length: noise.burst_length,
        random_threshold: noise.random_threshold,
        attenuation: None,
    }
}

/// The burst pass reads only the burst threshold and length.
proof fn lemma_burst_pass_ignores_attenuation(a: NoiseModel, b: NoiseModel, n: nat, acc: Seq<u8>, i: nat, st: u64)
    requires
        a.burst_threshold == b.burst_threshold,
        a.burst_length == b.burst_length,
    ensures
        burst_pass(a, n, acc, i, st) == burst_pass(b, n, acc, i, st),
    decreases n - i,
{
    if i < n {
        let s1 = xorshift64(st);
        assert(skip_burst_draws(a, s1, redraw_budget()) == skip_burst_draws(b, s1, redraw_budget())) by {
            lemma_skip_draws_ignores_attenuation(a, b, s1, redraw_budget());
        }
        if s1 & unit_mask() < a.burst_threshold && a.burst_length == 0 {
            lemma_burst_pass_ignores_attenuation(a, b, n, acc, i + 1, skip_burst_draws(a, s1, redraw_budget()));
        } else if s1 & unit_mask() < a.burst_threshold {
            let end: nat = if i + a.burst_length <= n {
                i + a.burst_length as nat
            } else {
                n
            };
            let (acc2, st2) = burst_flip(acc, i, end, s1);
            lemma_burst_pass_ignores_attenuation(a, b, n, acc2, end, st2);
        } else {
            lemma_burst_pass_ignores_attenuation(a, b, n, acc, i + 1, s1);
        }
    }
}

/// Redrawing reads only the burst threshold.
proof fn lemma_skip_draws_ignores_attenuation(a: NoiseModel, b: NoiseModel, st: u64, budget: nat)
    requires
        a.burst_threshold == b.burst_threshold,
    ensures
        skip_burst_draws(a, st, budget) == skip_burst_draws(b, st, budget),
    decreases budget,
{
    if budget > 0 {
        lemma_skip_draws_ignores_attenuation(a, b, xorshift64(st), (budget - 1) as nat);
    }
}

/// The random-error pass reads only the random-error threshold.
proof fn lemma_random_pass_ignores_attenuation(a: NoiseModel, b: NoiseModel, n: nat, acc: Seq<u8>, k: nat, st: u64)
    requires
        a.random_threshold == b.random_threshold,
    ensures
        random_pass(a, n, acc, k, st) == random_pass(b, n, acc, k, st),
    decreases n - k,
{
    if k < n {
        let s1 = xorshift64(st);
        let s2 = xorshift64(s1);
        lemma_random_pass_ignores_attenuation(a, b, n, acc.update(k as int, acc[k as int] ^ (s2 as u8)), k + 1, s2);
        lemma_random_pass_ignores_attenuation(a, b, n, acc, k + 1, s1);
    }
}

/// The burst and random-error passes keep the word's length.
proof fn lemma_passes_keep_length(noise: NoiseModel, n: nat, acc: Seq<u8>, i: nat, st: u64)
    requires
        acc.len() == n,
    ensures
        burst_pass(noise, n, acc, i, st).0.len() == n,
        random_pass(noise, n, acc, i, st).0.len() == n,
    decreases n - i,
{
    if i < n {
        let s1 = xorshift64(st);
        let s2 = xorshift64(s1);
        lemma_passes_keep_length(noise, n, acc.update(i as int, acc[i as int] ^ (s2 as u8)), i + 1, s2);
        lemma_passes_keep_length(noise, n, acc, i + 1, s1);
        lemma_passes_keep_length(noise, n, acc, i + 1, skip_burst_draws(noise, s1, redraw_budget()));
        if s1 & unit_mask() < noise.burst_threshold && noise.burst_length > 0 {
            let end: nat = if i + noise.burst_length <= n {
                i + noise.burst_length as nat
            } else {
                n
            };
            lemma_burst_flip_keeps_length(acc, i, end, s1);
            let (acc2, st2) = burst_flip(acc, i, end, s1);
            lemma_passes_keep_length(noise, n, acc2, end, st2);
        }
    }
}

/// Flipping a stretch keeps the word's length.
proof fn lemma_burst_flip_keeps_length(acc: Seq<u8>, j: nat, end: nat, st: u64)
    requires
        end <= acc.len(),
    ensures
        burst_flip(acc, j, end, st).0.len() == acc.len(),
    decreases end - j,
{
    if j < end {
        let s1 = xorshift64(st);
        lemma_burst_flip_keeps_length(acc.update(j as int, acc[j as int] ^ (s1 as u8)), j + 1, end, s1);
    }
}

/// Attenuation is applied last: what an attenuating channel delivers is, byte for byte, the
/// attenuation table applied to what the same channel without attenuation delivers for the same
/// data and seed. In particular every delivered byte is a value of the table.
pub proof fn lemma_attenuation_applies_last(noise: NoiseModel, data: Seq<u8>, seed: u64)
    requires
        noise.wf(),
        noise.attenuation is Some,
    ensures
        transmitted(noise, data, seed).len() == data.len(),
        transmitted(without_attenuation(noise), data, seed).len() == data.len(),
        forall|i: int|
            0 <= i < data.len() ==> #[trigger] transmitted(noise, data, seed)[i] == noise.attenuation.unwrap()@[
                transmitted(without_attenuation(noise), data, seed)[i] as int],
{
    let plain = without_attenuation(noise);
    let n = data.len();
    lemma_burst_pass_ignores_attenuation(noise, plain, n, data, 0, seeded(seed));
    let (a1, s1) = burst_pass(noise, n, data, 0, seeded(seed));
    lemma_passes_keep_length(noise, n, data, 0, seeded(seed));
    lemma_random_pass_ignores_attenuation(noise, plain, n, a1, 0, s1);
    lemma_passes_keep_length(noise, n, a1, 0, s1);
}

/// Number of differing positions among the first `n`.
pub open spec fn mismatch_count(a: Seq<u8>, b: Seq<u8>, n: nat) -> nat
    decreases n,
{
    if n == 0 {
        0
    } else {
        mismatch_count(a, b, (n - 1) as nat) + (if a[n - 1] != b[n - 1] {
            1nat
        } else {
            0nat
        })
    }
}

/// At most `n` of the first `n` positions differ.
pub proof fn lemma_mismatch_count_bound(a: Seq<u8>, b: Seq<u8>, n: nat)
    ensures
        mismatch_count(a, b, n) <= n,
    decreases n,
{
    if n > 0 {
        lemma_mismatch_count_bound(a, b, (n - 1) as nat);
    }
}

/// A byte that differs differs in at least one bit.
proof fn lemma_popcount_positive(x: u8, y: u8)
    requires
        x != y,
    ensures
        popcount(x ^ y) >= 1,
{
    assert(popcount(x ^ y) >= 1) by (bit_vector)
        requires
            x != y,
    ;
}

/// There are at least as many differing bits as differing bytes.
pub proof fn lemma_bits_at_least_bytes(a: Seq<u8>, b: Seq<u8>, n: nat)
    requires
        n <= a.len(),
        n <= b.len(),
    ensures
        bit_difference(a, b, 0, n) >= mismatch_count(a, b, n),
    decreases n,
{
    if n > 0 {
        lemma_bits_at_least_bytes(a, b, (n - 1) as nat);
        if a[n - 1] != b[n - 1] {
            lemma_popcount_positive(a[n - 1], b[n - 1]);
        }
    }
}

/// Every position of a run differs, so a run adds its length to the count of differences.
proof fn lemma_count_over_run(a: Seq<u8>, b: Seq<u8>, n: nat, i: nat)
    requires
        i <= n,
        n <= a.len(),
        n <= b.len(),
    ensures
        mismatch_count(a, b, run_end(a, b, n, i)) == mismatch_count(a, b, i) + (run_end(a, b, n, i) - i),
    decreases n - i,
{
    if i < n && a[i as int] != b[i as int] {
        lemma_count_over_run(a, b, n, i + 1);
        lemma_run_end_bounds(a, b, n, i + 1);
    }
}

/// The runs found in `[i, n)` cover exactly the differing positions there.
proof fn lemma_runs_cover_differences(a: Seq<u8>, b: Seq<u8>, n: nat, i: nat)
    requires
        i <= n,
        n <= a.len(),
        n <= b.len(),
    ensures
        run_total(runs_from(a, b, n, i)) + mismatch_count(a, b, i) == mismatch_count(a, b, n),
    decreases n - i,
{
    if i < n {
        if a[i as int] == b[i as int] {
            lemma_runs_cover_differences(a, b, n, i + 1);
            assert(runs_from(a, b, n, i) == runs_from(a, b, n, i + 1));
        } else {
            let e = run_end(a, b, n, i);
            lemma_run_end_bounds(a, b, n, i);
            lemma_runs_cover_differences(a, b, n, e);
            lemma_count_over_run(a, b, n, i);
            let all = runs_from(a, b, n, i);
            assert(all == seq![(i, (e - i) as nat)] + runs_from(a, b, n, e));
            assert(all.drop_first() =~= runs_from(a, b, n, e));
        }
    }
}

/// Classifying errors accounts for every differing byte once: bursts and random errors
/// together are the byte errors that counting finds.
pub proof fn lemma_classification_counts_every_error(a: Seq<u8>, b: Seq<u8>)
    ensures
        long_run_total(mismatch_runs(a, b)) + short_run_total(mismatch_runs(a, b)) == mismatch_count(
            a,
            b,
            common_len(a, b),
        ),
{
    lemma_runs_cover_differences(a, b, common_len(a, b), 0);
    lemma_run_totals_split(mismatch_runs(a, b));
}

/// The runs of length at least three, in order.
pub open spec fn long_runs(runs: Seq<(nat, nat)>) -> Seq<(nat, nat)>
    decreases runs.len(),
{
    if runs.len() == 0 {
        seq![]
    } else if runs[0].1 >= 3 {
        seq![runs[0]] + long_runs(runs.drop_first())
    } else {
        long_runs(runs.drop_first())
    }
}

/// Position `j` begins a stretch of at least three differing positions below `n` that no
/// differing position precedes.
pub open spec fn starts_long_run(a: Seq<u8>, b: Seq<u8>, n: nat, j: int) -> bool {
    &&& 0 <= j
    &&& j + 2 < n
    &&& a[j] != b[j]
    &&& a[j + 1] != b[j + 1]
    &&& a[j + 2] != b[j + 2]
    &&& (j == 0 || a[j - 1] == b[j - 1])
}

/// How many positions in `[i, n)` begin a stretch of at least three differing positions.
pub open spec fn long_run_starts(a: Seq<u8>, b: Seq<u8>, n: nat, i: nat) -> nat
    decreases n - i,
{
    if i >= n {
        0
    } else {
        long_run_starts(a, b, n, i + 1) + (if starts_long_run(a, b, n, i as int) {
            1nat
        } else {
            0nat
        })
    }
}

/// Every position of a run differs, and the position after it, if below `n`, does not.
proof fn lemma_run_end_facts(a: Seq<u8>, b: Seq<u8>, n: nat, i: nat)
    requires
        i <= n,
    ensures
        forall|x: int| i <= x < run_end(a, b, n, i) ==> a[x] != b[x],
        run_end(a, b, n, i) < n ==> a[run_end(a, b, n, i) as int] == b[run_end(a, b, n, i) as int],
    decreases n - i,
{
    if i < n && a[i as int] != b[i as int] {
        lemma_run_end_facts(a, b, n, i + 1);
    }
}

/// Inside a run no position but the first can begin a long run.
proof fn lemma_no_starts_inside_run(a: Seq<u8>, b: Seq<u8>, n: nat, j: nat, e: nat)
    requires
        1 <= j <= e <= n,
        forall|x: int| j - 1 <= x < e ==> a[x] != b[x],
    ensures
        long_run_starts(a, b, n, j) == long_run_starts(a, b, n, e),
    decreases e - j,
{
    if j < e {
        lemma_no_starts_inside_run(a, b, n, j + 1, e);
        assert(!starts_long_run(a, b, n, j as int));
    }
}

/// The long runs found from `i` on are the positions from `i` on that begin a long run, when no
/// differing position precedes `i`.
pub proof fn lemma_long_runs_are_starts(a: Seq<u8>, b: Seq<u8>, n: nat, i: nat)
    requires
        i <= n,
        i == 0 || a[i - 1] == b[i - 1],
    ensures
        long_runs(runs_from(a, b, n, i)).len() == long_run_starts(a, b, n, i),
    decreases n - i,
{
    if i < n {
        if a[i as int] == b[i as int] {
            lemma_long_runs_are_starts(a, b, n, i + 1);
            assert(!starts_long_run(a, b, n, i as int));
        } else {
            let e = run_end(a, b, n, i);
            lemma_run_end_bounds(a, b, n, i);
            lemma_run_end_facts(a, b, n, i);
            let rest = runs_from(a, b, n, e);
            let all = runs_from(a, b, n, i);
            assert(all == seq![(i, (e - i) as nat)] + rest);
            assert(all.drop_first() =~= rest);
            assert(all[0] == (i, (e - i) as nat));
            assert(starts_long_run(a, b, n, i as int) <==> e - i >= 3) by {
                if e - i >= 3 {
                    assert(a[i + 1int] != b[i + 1int]);
                    assert(a[i + 2int] != b[i + 2int]);
                }
                if starts_long_run(a, b, n, i as int) {
                    if e <= i + 2 {
                        assert(a[e as int] == b[e as int]);
                    }
                }
            }
            if i + 1 <= e {
                lemma_no_starts_inside_run(a, b, n, i + 1, e);
            }
            if e < n {
                assert(a[e as int] == b[e as int]);
                lemma_long_runs_are_starts(a, b, n, e + 1);
                assert(runs_from(a, b, n, e) == runs_from(a, b, n, e + 1));
                assert(!starts_long_run(a, b, n, e as int));
                assert(long_run_starts(a, b, n, e) == long_run_starts(a, b, n, e + 1));
            } else {
                assert(rest == Seq::<(nat, nat)>::empty());
                assert(long_run_starts(a, b, n, e) == 0);
            }
            assert(long_run_starts(a, b, n, i + 1) == long_run_starts(a, b, n, e));
            assert(long_runs(all).len() == (if e - i >= 3 { 1nat } else { 0nat }) + long_runs(rest).len());
            assert(long_runs(rest).len() == long_run_starts(a, b, n, e));
        }
    }
}

/// Every long run holds at least three positions.
pub proof fn lemma_long_runs_total(runs: Seq<(nat, nat)>)
    ensures
        3 * long_runs(runs).len() <= long_run_total(runs),
    decreases runs.len(),
{
    if runs.len() > 0 {
        lemma_long_runs_total(runs.drop_first());
    }
}

/// Keeping the long runs keeps at most all of them.
pub proof fn lemma_long_runs_len(runs: Seq<(nat, nat)>)
    ensures
        long_runs(runs).len() <= runs.len(),
    decreases runs.len(),
{
    if runs.len() > 0 {
        lemma_long_runs_len(runs.drop_first());
    }
}

/// Total length of the runs shorter than three.
pub open spec fn short_run_total(runs: Seq<(nat, nat)>) -> nat
    decreases runs.len(),
{
    if runs.len() == 0 {
        0
    } else {
        (if runs[0].1 < 3 {
            runs[0].1
        } else {
            0nat
        }) + short_run_total(runs.drop_first())
    }
}

/// Total length of the runs of length at least three.
pub open spec fn long_run_total(runs: Seq<(nat, nat)>) -> nat
    decreases runs.len(),
{
    if runs.len() == 0 {
        0
    } else {
        (if runs[0].1 >= 3 {
            runs[0].1
        } else {
            0nat
        }) + long_run_total(runs.drop_first())
    }
}

/// A burst error descriptor.
#[derive(Clone, Debug)]
pub struct BurstError {
    pub start: usize,
    pub length: usize,
}

/// Classification of error patterns.
#[derive(Clone, Debug)]
pub struct ErrorClassification {
    pub bursts: Vec<BurstError>,
    pub random_errors: usize,
    pub total_errors: usize,
}

/// The links of a freshly built network of `nodes` nodes, for the first `i` nodes: each node to
/// its successor (cyclically) and, where it exists, to the node two further on.
pub open spec fn initial_links(nodes: nat, i: nat) -> Seq<Seq<usize>>
    decreases i,
{
    if i == 0 {
        seq![]
    } else {
        let k = (i - 1) as nat;
        let base = initial_links(nodes, k).push(seq![k as usize, ((k + 1) % nodes) as usize]);
        if k + 2 < nodes {
            base.push(seq![k as usize, (k + 2) as usize])
        } else {
            base
        }
    }
}

/// The node lists of a channel's paths.
pub open spec fn link_lists(paths: Seq<Vec<usize>>) -> Seq<Seq<usize>> {
    paths.map_values(|p: Vec<usize>| p@)
}

/// Nodes `u` and `v` are consecutive, in either order, on one of the paths.
pub open spec fn linked(links: Seq<Seq<usize>>, u: usize, v: usize) -> bool {
    exists|p: int, w: int|
        0 <= p < links.len() && 0 <= w && w + 1 < links[p].len() && ((#[trigger] links[p][w] == u
            && links[p][w + 1] == v) || (links[p][w] == v && links[p][w + 1] == u))
}

/// Every node named on a path of two or more nodes is below `nodes`.
pub open spec fn links_within(links: Seq<Seq<usize>>, nodes: nat) -> bool {
    forall|p: int, w: int|
        0 <= p < links.len() && 0 <= w < links[p].len() && links[p].len() >= 2 ==> #[trigger] links[p][w] < nodes
}

/// `route` starts at `source`, visits no node twice and steps only between linked nodes.
pub open spec fn is_walk_from(links: Seq<Seq<usize>>, source: usize, route: Seq<usize>) -> bool {
    &&& route.len() >= 1
    &&& route[0] == source
    &&& route.no_duplicates()
    &&& forall|i: int| 0 <= i < route.len() - 1 ==> #[trigger] linked(links, route[i], route[i + 1])
}

/// `route` is a simple path from `source` to `dest` along the links.
pub open spec fn is_route(links: Seq<Seq<usize>>, source: usize, dest: usize, route: Seq<usize>) -> bool {
    &&& is_walk_from(links, source, route)
    &&& route[route.len() - 1] == dest
}

/// `p` is an initial part of `route`.
pub open spec fn starts_route(p: Seq<usize>, route: Seq<usize>) -> bool {
    p.len() <= route.len() && forall|i: int| 0 <= i < p.len() ==> #[trigger] p[i] == route[i]
}

/// A sequence of distinct integers in `[0, k)` has at most `k` elements.
pub proof fn lemma_distinct_below(s: Seq<int>, k: int)
    requires
        k >= 0,
        s.no_duplicates(),
        forall|i: int| 0 <= i < s.len() ==> 0 <= #[trigger] s[i] < k,
    ensures
        s.len() <= k,
    decreases s.len(),
{
    if s.len() > 0 {
        let x = s[s.len() - 1];
        let t = Seq::new((s.len() - 1) as nat, |i: int| if s[i] > x { s[i] - 1 } else { s[i] });
        assert forall|i: int, j: int| 0 <= i < t.len() && 0 <= j < t.len() && i != j implies t[i] != t[j] by {
            assert(s[i] != s[j]);
            assert(s[i] != x && s[j] != x);
        }
        assert forall|i: int| 0 <= i < t.len() implies 0 <= #[trigger] t[i] < k - 1 by {
            assert(s[i] != x);
        }
        lemma_distinct_below(t, k - 1);
    }
}

/// The nodes of a simple route that starts inside the network all lie inside it, so the
/// route has at most `nodes` of them.
proof fn lemma_route_within(links: Seq<Seq<usize>>, nodes: nat, source: usize, route: Seq<usize>)
    requires
        links_within(links, nodes),
        is_walk_from(links, source, route),
        source < nodes,
    ensures
        forall|i: int| 0 <= i < route.len() ==> #[trigger] route[i] < nodes,
        route.len() <= nodes,
{
    assert forall|i: int| 0 <= i < route.len() implies #[trigger] route[i] < nodes by {
        if i > 0 {
            assert(linked(links, route[i - 1], route[i - 1 + 1]));
            let (q, w) = choose|q: int, w: int|
                0 <= q < links.len() && 0 <= w && w + 1 < links[q].len() && ((#[trigger] links[q][w] == route[i - 1]
                    && links[q][w + 1] == route[i]) || (links[q][w] == route[i] && links[q][w + 1] == route[i - 1]));
            assert(links[q][w] < nodes && links[q][w + 1] < nodes);
        }
    }
    let s = route.map_values(|v: usize| v as int);
    assert forall|i: int, j: int| 0 <= i < s.len() && 0 <= j < s.len() && i != j implies s[i] != s[j] by {
        assert(route[i] != route[j]);
    }
    lemma_distinct_below(s, nodes as int);
}

/// A start of a simple route that already ends where the route ends is the whole route.
proof fn lemma_start_at_end(p: Seq<usize>, route: Seq<usize>, dest: usize)
    requires
        p.len() >= 1,
        starts_route(p, route),
        route.no_duplicates(),
        p[p.len() - 1] == dest,
        route[route.len() - 1] == dest,
    ensures
        p =~= route,
{
    assert(route[p.len() - 1] == dest);
}

/// Bound on the number of partial routes a search can still expand from one of length `len`,
/// when no node has more than `d` neighbours.
pub open spec fn search_weight(len: nat, nodes: nat, d: nat) -> nat
    decreases nodes + 1 - len,
{
    if len > nodes {
        1
    } else {
        1 + d * search_weight(len + 1, nodes, d)
    }
}

/// Total search weight of a stack of partial routes.
pub open spec fn stack_weight(s: Seq<Vec<usize>>, nodes: nat, d: nat) -> nat
    decreases s.len(),
{
    if s.len() == 0 {
        0
    } else {
        stack_weight(s.drop_last(), nodes, d) + search_weight(s.last()@.len(), nodes, d)
    }
}

/// Whether `v` occurs in `p`.
fn has_node(p: &Vec<usize>, v: usize) -> (r: bool)
    ensures
        r == p@.contains(v),
{
    let mut i: usize = 0;
    while i < p.len()
        invariant
            i <= p@.len(),
            forall|k: int| 0 <= k < i ==> p@[k] != v,
        decreases p@.len() - i,
    {
        if p[i] == v {
            return true;
        }
        i = i + 1;
    }
    false
}

/// Whether two node lists are equal.
fn same_route(a: &Vec<usize>, b: &Vec<usize>) -> (r: bool)
    ensures
        r == (a@ == b@),
{
    if a.len() != b.len() {
        return false;
    }
    let mut i: usize = 0;
    while i < a.len()
        invariant
            i <= a@.len() == b@.len(),
            forall|k: int| 0 <= k < i ==> a@[k] == b@[k],
        decreases a@.len() - i,
    {
        if a[i] != b[i] {
            return false;
        }
        i = i + 1;
    }
    assert(a@ =~= b@);
    true
}

/// Whether `p` is among `routes`.
fn has_route(routes: &Vec<Vec<usize>>, p: &Vec<usize>) -> (r: bool)
    ensures
        r == exists|i: int| 0 <= i < routes@.len() && (#[trigger] routes@[i])@ == p@,
{
    let mut i: usize = 0;
    while i < routes.len()
        invariant
            i <= routes@.len(),
            forall|k: int| 0 <= k < i ==> (#[trigger] routes@[k])@ != p@,
        decreases routes@.len() - i,
    {
        if same_route(&routes[i], p) {
            return true;
        }
        i = i + 1;
    }
    false
}

/// `p` followed by `v`.
fn extended(p: &Vec<usize>, v: usize) -> (r: Vec<usize>)
    ensures
        r@ == p@.push(v),
{
    let mut r: Vec<usize> = Vec::new();
    let mut i: usize = 0;
    while i < p.len()
        invariant
            i <= p@.len(),
            r@ =~= p@.subrange(0, i as int),
        decreases p@.len() - i,
    {
        r.push(p[i]);
        i = i + 1;
    }
    r.push(v);
    assert(r@ =~= p@.push(v));
    r
}

/// Add `v` to the neighbour list of `u`, unless it is there already.
fn add_neighbour(adj: &mut Vec<Vec<usize>>, u: usize, v: usize)
    requires
        u < old(adj)@.len(),
        old(adj)@[u as int]@.no_duplicates(),
    ensures
        final(adj)@.len() == old(adj)@.len(),
        forall|x: usize| #[trigger] final(adj)@[u as int]@.contains(x) == (old(adj)@[u as int]@.contains(x) || x == v),
        final(adj)@[u as int]@.no_duplicates(),
        forall|w: int| 0 <= w < old(adj)@.len() && w != u ==> #[trigger] final(adj)@[w] == old(adj)@[w],
{
    if !has_node(&adj[u], v) {
        let ghost before = adj@[u as int]@;
        adj[u].push(v);
        proof {
            assert(adj@[u as int]@ == before.push(v));
            assert forall|x: usize| #[trigger] adj@[u as int]@.contains(x) == (before.contains(x) || x == v) by {
                if adj@[u as int]@.contains(x) {
                    let k = choose|k: int| 0 <= k < adj@[u as int]@.len() && adj@[u as int]@[k] == x;
                    if k < before.len() {
                        assert(before[k] == x);
                    }
                }
                if before.contains(x) {
                    let k = choose|k: int| 0 <= k < before.len() && before[k] == x;
                    assert(adj@[u as int]@[k] == x);
                }
                if x == v {
                    assert(adj@[u as int]@[before.len() as int] == x);
                }
            }
        }
    }
}

/// A multi-path biological channel modelling a mycorrhizal network.
#[derive(Clone, Debug)]
pub struct MycorrhizalChannel {
    pub nodes: usize,
    pub paths: Vec<Vec<usize>>,
    pub noise: NoiseModel,
}

impl MycorrhizalChannel {
    /// A channel over `nodes` nodes, each linked to its neighbour and the node two further on.
    pub fn new(nodes: usize, noise: NoiseModel) -> (r: Self)
        ensures
            r.nodes == nodes,
            r.paths@.map_values(|p: Vec<usize>| p@) == initial_links(nodes as nat, nodes as nat),
            r.noise == noise,
    {
        let mut paths: Vec<Vec<usize>> = Vec::new();
        let mut i: usize = 0;
        while i < nodes
            invariant
                i <= nodes,
                paths@.map_values(|p: Vec<usize>| p@) =~= initial_links(nodes as nat, i as nat),
            decreases nodes - i,
        {
            let j = (i + 1) % nodes;
            let mut first: Vec<usize> = Vec::new();
            first.push(i);
            first.push(j);
            paths.push(first);
            let ghost k = i as nat;
            let ghost base = initial_links(nodes as nat, k).push(seq![k as usize, ((k + 1) % (nodes as nat)) as usize]);
            proof {
                assert(first@ =~= seq![k as usize, ((k + 1) % (nodes as nat)) as usize]);
                assert(paths@.map_values(|p: Vec<usize>| p@) =~= base);
            }
            if nodes >= 2 && i < nodes - 2 {
                let mut second: Vec<usize> = Vec::new();
                second.push(i);
                second.push(i + 2);
                paths.push(second);
                proof {
                    assert(second@ =~= seq![k as usize, (k + 2) as usize]);
                    assert(paths@.map_values(|p: Vec<usize>| p@) =~= base.push(seq![k as usize, (k + 2) as usize]));
                }
            }
            i = i + 1;
        }
        MycorrhizalChannel { nodes, paths, noise }
    }

    /// Add a path between nodes.
    pub fn add_path(&mut self, path: Vec<usize>)
        ensures
            final(self).nodes == old(self).nodes,
            final(self).noise == old(self).noise,
            final(self).paths@ == old(self).paths@.push(path),
    {
        self.paths.push(path);
    }

    /// The neighbour list of every node: the nodes it is linked to, each once.
    fn adjacency(&self) -> (adj: Vec<Vec<usize>>)
        requires
            links_within(link_lists(self.paths@), self.nodes as nat),
        ensures
            adj@.len() == self.nodes,
            forall|u: int, v: usize|
                0 <= u < self.nodes ==> (#[trigger] adj@[u]@.contains(v) == linked(link_lists(self.paths@), u as usize, v)),
            forall|u: int| 0 <= u < self.nodes ==> (#[trigger] adj@[u])@.no_duplicates(),
    {
        let ghost links = link_lists(self.paths@);
        let nodes = self.nodes;
        let mut adj: Vec<Vec<usize>> = Vec::new();
        let mut u: usize = 0;
        while u < nodes
            invariant
                u <= nodes,
                adj@.len() == u,
                forall|x: int| 0 <= x < u ==> (#[trigger] adj@[x])@.len() == 0,
            decreases nodes - u,
        {
            adj.push(Vec::new());
            u = u + 1;
        }
        let mut p: usize = 0;
        while p < self.paths.len()
            invariant
                nodes == self.nodes,
                links == link_lists(self.paths@),
                links_within(links, nodes as nat),
                p <= self.paths@.len(),
                adj@.len() == nodes,
                forall|x: int| 0 <= x < nodes ==> (#[trigger] adj@[x])@.no_duplicates(),
                forall|x: int, v: usize| 0 <= x < nodes && #[trigger] adj@[x]@.contains(v) ==> linked(links, x as usize, v),
                forall|q: int, w: int|
                    0 <= q < p && 0 <= w && w + 1 < links[q].len() ==> adj@[links[q][w] as int]@.contains(
                        #[trigger] links[q][w + 1],
                    ) && adj@[links[q][w + 1] as int]@.contains(links[q][w]),
            decreases self.paths@.len() - p,
        {
            let path = &self.paths[p];
            proof {
                assert(links[p as int] == path@);
            }
            let mut w: usize = 0;
            while w < path.len() && w + 1 < path.len()
                invariant
                    nodes == self.nodes,
                    links == link_lists(self.paths@),
                    links_within(links, nodes as nat),
                    p < self.paths@.len(),
                    links[p as int] == path@,
                    adj@.len() == nodes,
                    forall|x: int| 0 <= x < nodes ==> (#[trigger] adj@[x])@.no_duplicates(),
                    forall|x: int, v: usize| 0 <= x < nodes && #[trigger] adj@[x]@.contains(v) ==> linked(links, x as usize, v),
                    forall|q: int, w2: int|
                        (0 <= q < p || (q == p && w2 < w)) && 0 <= w2 && w2 + 1 < links[q].len() ==> adj@[links[q][w2] as int]@.contains(
                            #[trigger] links[q][w2 + 1],
                        ) && adj@[links[q][w2 + 1] as int]@.contains(links[q][w2]),
                decreases path@.len() - w,
            {
                let a = path[w];
                let b = path[w + 1];
                proof {
                    assert(links[p as int][w as int] == a);
                    assert(links[p as int][w + 1] == b);
                    assert(a < nodes && b < nodes);
                    assert(linked(links, a, b));
                    assert(linked(links, b, a));
                }
                let ghost before = adj@;
                add_neighbour(&mut adj, a, b);
                let ghost mid = adj@;
                add_neighbour(&mut adj, b, a);
                proof {
                    assert forall|x: int, v: usize| 0 <= x < nodes && #[trigger] adj@[x]@.contains(v) implies linked(
                        links,
                        x as usize,
                        v,
                    ) by {
                        if x == b {
                            if v != a {
                                assert(mid[x]@.contains(v));
                                if x == a {
                                    assert(before[x]@.contains(v) || v == b);
                                } else {
                                    assert(before[x]@.contains(v));
                                }
                            }
                        } else if x == a {
                            assert(mid[x]@.contains(v));
                            assert(before[x]@.contains(v) || v == b);
                        } else {
                            assert(before[x]@.contains(v));
                        }
                    }
                    assert forall|q: int, w2: int|
                        (0 <= q < p || (q == p && w2 < w + 1)) && 0 <= w2 && w2 + 1 < links[q].len() implies adj@[links[q][w2] as int]@.contains(
                            #[trigger] links[q][w2 + 1],
                        ) && adj@[links[q][w2 + 1] as int]@.contains(links[q][w2]) by {
                        let c = links[q][w2];
                        let e = links[q][w2 + 1];
                        assert(c < nodes && e < nodes);
                        if q == p && w2 == w {
                            assert(mid[a as int]@.contains(b));
                        } else {
                            assert(before[c as int]@.contains(e) && before[e as int]@.contains(c));
                            assert(mid[c as int]@.contains(e));
                            assert(mid[e as int]@.contains(c));
                        }
                    }
                }
                w = w + 1;
            }
            p = p + 1;
        }
        proof {
            assert forall|u: int, v: usize|
                0 <= u < self.nodes implies (#[trigger] adj@[u]@.contains(v) == linked(links, u as usize, v)) by {
                if linked(links, u as usize, v) {
                    let (q, w) = choose|q: int, w: int|
                        0 <= q < links.len() && 0 <= w && w + 1 < links[q].len() && ((#[trigger] links[q][w] == u as usize
                            && links[q][w + 1] == v) || (links[q][w] == v && links[q][w + 1] == u as usize));
                    assert(adj@[links[q][w] as int]@.contains(links[q][w + 1]));
                }
            }
        }
        adj
    }

    /// Simple routes from `source` to `dest` along the channel's links, found by depth-first
    /// search: at most `max_paths` of them, none twice; fewer only when there are no more.
    pub fn find_paths(&self, source: usize, dest: usize, max_paths: usize) -> (r: Vec<Vec<usize>>)
        requires
            links_within(link_lists(self.paths@), self.nodes as nat),
            source < self.nodes || source == dest || max_paths == 0,
        ensures
            r@.len() <= max_paths,
            forall|i: int| 0 <= i < r@.len() ==> is_route(link_lists(self.paths@), source, dest, #[trigger] r@[i]@),
            forall|i: int, j: int| 0 <= i < j < r@.len() ==> (#[trigger] r@[i])@ != (#[trigger] r@[j])@,
            r@.len() < max_paths ==> forall|route: Seq<usize>| #[trigger] is_route(link_lists(self.paths@), source, dest, route)
                ==> exists|i: int| 0 <= i < r@.len() && (#[trigger] r@[i])@ == route,
    {
        let ghost links = link_lists(self.paths@);
        let nodes = self.nodes;
        let adjacency = self.adjacency();
        let mut d: usize = 0;
        let mut u: usize = 0;
        while u < nodes
            invariant
                u <= nodes == adjacency@.len(),
                forall|x: int| 0 <= x < u ==> (#[trigger] adjacency@[x])@.len() <= d,
            decreases nodes - u,
        {
            if adjacency[u].len() > d {
                d = adjacency[u].len();
            }
            u = u + 1;
        }
        let ghost dn = d as nat;
        let ghost nn = nodes as nat;
        let mut results: Vec<Vec<usize>> = Vec::new();
        let mut stack: Vec<Vec<usize>> = Vec::new();
        let mut first: Vec<usize> = Vec::new();
        first.push(source);
        stack.push(first);
        proof {
            assert(first@ =~= seq![source]);
            assert(first@.no_duplicates());
            assert forall|route: Seq<usize>| #[trigger] is_route(links, source, dest, route) implies (exists|i: int|
                0 <= i < results@.len() && (#[trigger] results@[i])@ == route) || (exists|k: int|
                0 <= k < stack@.len() && starts_route((#[trigger] stack@[k])@, route)) by {
                assert(starts_route(stack@[0]@, route));
            }
        }
        while stack.len() > 0
            invariant
                nodes == self.nodes == nn,
                links == link_lists(self.paths@),
                links_within(links, nn),
                adjacency@.len() == nodes,
                forall|x: int, v: usize|
                    0 <= x < nodes ==> (#[trigger] adjacency@[x]@.contains(v) == linked(links, x as usize, v)),
                forall|x: int| 0 <= x < nodes ==> (#[trigger] adjacency@[x])@.no_duplicates(),
                forall|x: int| 0 <= x < nodes ==> (#[trigger] adjacency@[x])@.len() <= dn,
                dn == d,
                source < nodes || source == dest || max_paths == 0,
                results@.len() <= max_paths,
                forall|i: int| 0 <= i < results@.len() ==> is_route(links, source, dest, #[trigger] results@[i]@),
                forall|i: int, j: int| 0 <= i < j < results@.len() ==> (#[trigger] results@[i])@ != (#[trigger] results@[j])@,
                forall|k: int| 0 <= k < stack@.len() ==> is_walk_from(links, source, #[trigger] stack@[k]@),
                forall|k: int|
                    0 <= k < stack@.len() ==> {
                        let q = #[trigger] stack@[k]@;
                        q[q.len() - 1] < nodes || q[q.len() - 1] == dest || max_paths == 0
                    },
                forall|route: Seq<usize>| #[trigger] is_route(links, source, dest, route) ==> (exists|i: int|
                    0 <= i < results@.len() && (#[trigger] results@[i])@ == route) || (exists|k: int|
                    0 <= k < stack@.len() && starts_route((#[trigger] stack@[k])@, route)),
            ensures
                stack@.len() == 0 || results@.len() >= max_paths,
            decreases stack_weight(stack@, nn, dn),
        {
            if results.len() >= max_paths {
                break;
            }
            let ghost s0 = stack@;
            let ghost r0 = results@;
            let current = stack.pop().unwrap();
            proof {
                assert(s0.last() == current);
                assert(s0[s0.len() - 1] == current);
                assert(stack@ == s0.drop_last());
            }
            let last = current[current.len() - 1];
            if last == dest {
                if !has_route(&results, &current) {
                    results.push(current);
                }
                proof {
                    assert forall|route: Seq<usize>| #[trigger] is_route(links, source, dest, route) implies (exists|i: int|
                        0 <= i < results@.len() && (#[trigger] results@[i])@ == route) || (exists|k: int|
                        0 <= k < stack@.len() && starts_route((#[trigger] stack@[k])@, route)) by {
                        if exists|i: int| 0 <= i < r0.len() && (#[trigger] r0[i])@ == route {
                            let i = choose|i: int| 0 <= i < r0.len() && (#[trigger] r0[i])@ == route;
                            assert(results@[i] == r0[i]);
                        } else {
                            let k = choose|k: int| 0 <= k < s0.len() && starts_route((#[trigger] s0[k])@, route);
                            if k < s0.len() - 1 {
                                assert(stack@[k] == s0[k]);
                            } else {
                                lemma_start_at_end(current@, route, dest);
                                if results@.len() > r0.len() {
                                    assert(results@[r0.len() as int] == current);
                                }
                            }
                        }
                    }
                }
            } else if current.len() <= nodes {
                let ghost s1 = stack@;
                let ghost len = current@.len();
                let nbrs = &adjacency[last];
                let mut t: usize = 0;
                while t < nbrs.len()
                    invariant
                        nodes == self.nodes == nn,
                        links == link_lists(self.paths@),
                        links_within(links, nn),
                        last < nodes,
                        nbrs@ == adjacency@[last as int]@,
                        forall|v: usize| #[trigger] nbrs@.contains(v) == linked(links, last, v),
                        nbrs@.len() <= dn,
                        t <= nbrs@.len(),
                        is_walk_from(links, source, current@),
                        current@[current@.len() - 1] == last,
                        len == current@.len(),
                        len <= nn,
                        forall|k: int| 0 <= k < stack@.len() ==> is_walk_from(links, source, #[trigger] stack@[k]@),
                        forall|k: int|
                            0 <= k < stack@.len() ==> {
                                let q = #[trigger] stack@[k]@;
                                q[q.len() - 1] < nodes || q[q.len() - 1] == dest || max_paths == 0
                            },
                        stack@.len() >= s1.len(),
                        forall|k: int| 0 <= k < s1.len() ==> #[trigger] stack@[k] == s1[k],
                        forall|t2: int|
                            0 <= t2 < t && !current@.contains(#[trigger] nbrs@[t2]) ==> exists|k: int|
                                0 <= k < stack@.len() && (#[trigger] stack@[k])@ == current@.push(nbrs@[t2]),
                        stack_weight(stack@, nn, dn) <= stack_weight(s1, nn, dn) + t * search_weight(len + 1, nn, dn),
                    decreases nbrs@.len() - t,
                {
                    let v = nbrs[t];
                    proof {
                        assert(nbrs@.contains(v));
                        assert(linked(links, last, v));
                        let (q, w) = choose|q: int, w: int|
                            0 <= q < links.len() && 0 <= w && w + 1 < links[q].len() && ((#[trigger] links[q][w] == last
                                && links[q][w + 1] == v) || (links[q][w] == v && links[q][w + 1] == last));
                        assert(links[q][w] < nn && links[q][w + 1] < nn);
                    }
                    if !has_node(&current, v) {
                        let np = extended(&current, v);
                        let ghost sb = stack@;
                        stack.push(np);
                        proof {
                            let c = current@;
                            assert(np@[0] == source);
                            assert(np@.no_duplicates()) by {
                                assert forall|i: int, j: int| 0 <= i < np@.len() && 0 <= j < np@.len() && i != j implies np@[i]
                                    != np@[j] by {
                                    if i < c.len() && j < c.len() {
                                        assert(c[i] != c[j]);
                                    } else if i < c.len() {
                                        assert(c.contains(c[i]));
                                    } else if j < c.len() {
                                        assert(c.contains(c[j]));
                                    }
                                }
                            }
                            assert forall|i: int| 0 <= i < np@.len() - 1 implies #[trigger] linked(links, np@[i], np@[i + 1]) by {
                                if i < c.len() - 1 {
                                    assert(linked(links, c[i], c[i + 1]));
                                }
                            }
                            assert(stack@.drop_last() =~= sb);
                            assert((t + 1) * search_weight(len + 1, nn, dn) == t * search_weight(len + 1, nn, dn)
                                + search_weight(len + 1, nn, dn)) by (nonlinear_arith);
                            assert forall|t2: int|
                                0 <= t2 < t + 1 && !current@.contains(#[trigger] nbrs@[t2]) implies exists|k: int|
                                    0 <= k < stack@.len() && (#[trigger] stack@[k])@ == current@.push(nbrs@[t2]) by {
                                if t2 < t {
                                    let k = choose|k: int| 0 <= k < sb.len() && (#[trigger] sb[k])@ == current@.push(nbrs@[t2]);
                                    assert(stack@[k] == sb[k]);
                                } else {
                                    assert(stack@[sb.len() as int] == np);
                                }
                            }
                        }
                    } else {
                        proof {
                            assert(t * search_weight(len + 1, nn, dn) <= (t + 1) * search_weight(len + 1, nn, dn))
                                by (nonlinear_arith);
                        }
                    }
                    t = t + 1;
                }
                proof {
                    let wn = search_weight(len + 1, nn, dn);
                    assert(nbrs@.len() * wn <= dn * wn) by (nonlinear_arith)
                        requires
                            nbrs@.len() <= dn,
                    ;
                    assert(search_weight(len, nn, dn) == 1 + dn * wn);
                    assert forall|route: Seq<usize>| #[trigger] is_route(links, source, dest, route) implies (exists|i: int|
                        0 <= i < results@.len() && (#[trigger] results@[i])@ == route) || (exists|k: int|
                        0 <= k < stack@.len() && starts_route((#[trigger] stack@[k])@, route)) by {
                        if !(exists|i: int| 0 <= i < r0.len() && (#[trigger] r0[i])@ == route) {
                            let k = choose|k: int| 0 <= k < s0.len() && starts_route((#[trigger] s0[k])@, route);
                            if k < s0.len() - 1 {
                                assert(stack@[k] == s1[k]);
                            } else {
                                let c = current@;
                                assert(route[len - 1] == last);
                                let v = route[len as int];
                                assert(linked(links, route[len - 1], route[len - 1 + 1]));
                                assert(nbrs@.contains(v));
                                let t2 = choose|t2: int| 0 <= t2 < nbrs@.len() && nbrs@[t2] == v;
                                assert(!c.contains(v)) by {
                                    if c.contains(v) {
                                        let j = choose|j: int| 0 <= j < c.len() && c[j] == v;
                                        assert(route[j] == v);
                                    }
                                }
                                let k2 = choose|k2: int| 0 <= k2 < stack@.len() && (#[trigger] stack@[k2])@ == c.push(nbrs@[t2]);
                                assert(starts_route(stack@[k2]@, route));
                            }
                        }
                    }
                }
            } else {
                proof {
                    assert forall|route: Seq<usize>| #[trigger] is_route(links, source, dest, route) implies (exists|i: int|
                        0 <= i < results@.len() && (#[trigger] results@[i])@ == route) || (exists|k: int|
                        0 <= k < stack@.len() && starts_route((#[trigger] stack@[k])@, route)) by {
                        if !(exists|i: int| 0 <= i < r0.len() && (#[trigger] r0[i])@ == route) {
                            let k = choose|k: int| 0 <= k < s0.len() && starts_route((#[trigger] s0[k])@, route);
                            if k < s0.len() - 1 {
                                assert(stack@[k] == s0[k]);
                            } else {
                                assert(route[current@.len() - 1] == last);
                                if source < nodes {
                                    lemma_route_within(links, nn, source, route);
                                } else {
                                    assert(route[0] == dest);
                                }
                            }
                        }
                    }
                }
            }
        }
        results
    }

    /// Send `data` through the channel with generator seed `seed`: bursts of flipped bytes, then
    /// random byte errors, then attenuation.
    pub fn transmit(&self, data: &[u8], seed: u64) -> (r: Vec<u8>)
        requires
            self.noise.wf(),
        ensures
            r@ == transmitted(self.noise, data@, seed),
            r@.len() == data@.len(),
    {
        let n = data.len();
        let mut result = prefix_copy(data, n);
        let mut rng = SimpleRng::new(seed);
        let ghost noise = self.noise;
        let ghost nn = n as nat;
        proof {
            assert(result@ =~= data@);
        }
        let mut i: usize = 0;
        while i < n
            invariant
                noise == self.noise,
                noise.wf(),
                nn == n == data@.len(),
                i <= n,
                result@.len() == n,
                burst_pass(noise, nn, result@, i as nat, rng.state()) == burst_pass(noise, nn, data@, 0, seeded(seed)),
            decreases n - i,
        {
            let ghost acc0 = result@;
            let ghost st0 = rng.state();
            let d = rng.next_unit_bits();
            if d < self.noise.burst_threshold && self.noise.burst_length == 0 {
                let ghost s1 = rng.state();
                let mut budget: u64 = 0xffff_ffff_ffff_ffffu64;
                while budget > 0
                    invariant_except_break
                        skip_burst_draws(noise, rng.state(), budget as nat) == skip_burst_draws(noise, s1, redraw_budget()),
                    invariant
                        noise == self.noise,
                    ensures
                        rng.state() == skip_burst_draws(noise, s1, redraw_budget()),
                    decreases budget,
                {
                    let d2 = rng.next_unit_bits();
                    if d2 >= self.noise.burst_threshold {
                        break;
                    }
                    budget = budget - 1;
                }
                i = i + 1;
            } else if d < self.noise.burst_threshold {
                let end: usize = if self.noise.burst_length <= n - i {
                    i + self.noise.burst_length
                } else {
                    n
                };
                let ghost s1 = rng.state();
                let mut j: usize = i;
                while j < end
                    invariant
                        i <= j <= end <= n,
                        result@.len() == n,
                        burst_flip(result@, j as nat, end as nat, rng.state()) == burst_flip(acc0, i as nat, end as nat, s1),
                    decreases end - j,
                {
                    let x = rng.next_u8();
                    let v = result[j] ^ x;
                    result.set(j, v);
                    j = j + 1;
                }
                i = end;
            } else {
                i = i + 1;
            }
        }
        let ghost a1 = result@;
        let ghost st1 = rng.state();
        proof {
            assert(burst_pass(noise, nn, a1, nn, st1) == (a1, st1));
        }
        let mut k: usize = 0;
        while k < n
            invariant
                noise == self.noise,
                k <= n == nn,
                result@.len() == n,
                random_pass(noise, nn, result@, k as nat, rng.state()) == random_pass(noise, nn, a1, 0, st1),
            decreases n - k,
        {
            let d = rng.next_unit_bits();
            if d < self.noise.random_threshold {
                let x = rng.next_u8();
                let v = result[k] ^ x;
                result.set(k, v);
            }
            k = k + 1;
        }
        let ghost a2 = result@;
        proof {
            assert(random_pass(noise, nn, a2, nn, rng.state()) == (a2, rng.state()));
        }
        match &self.noise.attenuation {
            Some(table) => {
                let mut m: usize = 0;
                while m < n
                    invariant
                        noise == self.noise,
                        noise.attenuation == Some(*table),
                        table@.len() == 256,
                        m <= n == a2.len(),
                        result@.len() == n,
                        forall|q: int| 0 <= q < m ==> #[trigger] result@[q] == table@[a2[q] as int],
                        forall|q: int| m <= q < n ==> #[trigger] result@[q] == a2[q],
                    decreases n - m,
                {
                    let v = table[result[m] as usize];
                    result.set(m, v);
                    m = m + 1;
                }
                proof {
                    assert(result@ =~= attenuated(noise, a2));
                }
            },
            None => {},
        }
        result
    }

    /// Count bit errors and byte errors between the original and the received data, over their
    /// common length.
    pub fn count_errors(original: &[u8], received: &[u8]) -> (r: (usize, usize))
        requires
            bit_difference(original@, received@, 0, common_len(original@, received@)) <= usize::MAX,
        ensures
            r.0 == bit_difference(original@, received@, 0, common_len(original@, received@)),
            r.1 == mismatch_count(original@, received@, common_len(original@, received@)),
    {
        let n: usize = if original.len() <= received.len() {
            original.len()
        } else {
            received.len()
        };
        let mut bit_errors: usize = 0;
        let mut byte_errors: usize = 0;
        let mut i: usize = 0;
        while i < n
            invariant
                i <= n == common_len(original@, received@),
                n <= original@.len(),
                n <= received@.len(),
                bit_difference(original@, received@, 0, n as nat) <= usize::MAX,
                bit_errors == bit_difference(original@, received@, 0, i as nat),
                byte_errors == mismatch_count(original@, received@, i as nat),
                byte_errors <= i,
            decreases n - i,
        {
            if original[i] != received[i] {
                proof {
                    lemma_bit_difference_grows(original@, received@, (i + 1) as nat, n as nat);
                }
                byte_errors = byte_errors + 1;
                bit_errors = bit_errors + count_ones(original[i] ^ received[i]) as usize;
            } else {
                proof {
                    lemma_popcount_self_xor(original@[i as int]);
                }
            }
            i = i + 1;
        }
        (bit_errors, byte_errors)
    }

    /// Split the differing positions into bursts (runs of three or more) and random errors.
    pub fn classify_errors(original: &[u8], received: &[u8]) -> (c: ErrorClassification)
        ensures
            c.bursts@.len() == long_runs(mismatch_runs(original@, received@)).len(),
            forall|i: int| 0 <= i < c.bursts@.len() ==> {
                let run = long_runs(mismatch_runs(original@, received@))[i];
                (#[trigger] c.bursts@[i]).start == run.0 && c.bursts@[i].length == run.1
            },
            c.random_errors == short_run_total(mismatch_runs(original@, received@)),
            c.total_errors == long_run_total(mismatch_runs(original@, received@)) + c.random_errors,
    {
        let runs = find_mismatch_runs(original, received);
        let ghost all = mismatch_runs(original@, received@);
        let ghost n = common_len(original@, received@);
        let ol = original.len();
        proof {
            lemma_runs_total(original@, received@, n, 0);
            lemma_run_totals_split(all);
        }
        let mut bursts: Vec<BurstError> = Vec::new();
        proof {
            assert(all.skip(0) =~= all);
        }
        let mut random_errors: usize = 0;
        let mut burst_total: usize = 0;
        let mut r: usize = 0;
        while r < runs.len()
            invariant
                r <= runs@.len() == all.len(),
                all == mismatch_runs(original@, received@),
                forall|q: int| 0 <= q < runs@.len() ==> (#[trigger] runs@[q]).0 == all[q].0 && runs@[q].1
                    == all[q].1,
                run_total(all) <= n,
                n <= ol,
                run_total(all) == long_run_total(all) + short_run_total(all),
                bursts@.len() + long_runs(all.skip(r as int)).len() == long_runs(all).len(),
                forall|i: int| 0 <= i < bursts@.len() ==> (#[trigger] bursts@[i]).start == long_runs(all)[i].0
                    && bursts@[i].length == long_runs(all)[i].1,
                forall|i: int| 0 <= i < long_runs(all.skip(r as int)).len() ==> #[trigger] long_runs(all.skip(r as int))[i]
                    == long_runs(all)[bursts@.len() + i],
                random_errors + short_run_total(all.skip(r as int)) == short_run_total(all),
                burst_total + long_run_total(all.skip(r as int)) == long_run_total(all),
            decreases runs@.len() - r,
        {
            let ghost rest = all.skip(r as int);
            proof {
                assert(rest.drop_first() =~= all.skip(r + 1));
                assert(rest[0] == all[r as int]);
                lemma_run_totals_split(all.skip(r + 1));
            }
            let (start, length) = runs[r];
            let ghost rest2 = all.skip(r + 1);
            if length >= 3 {
                proof {
                    assert(long_runs(rest) == seq![rest[0]] + long_runs(rest2));
                    assert(long_runs(rest)[0] == all[r as int]);
                    assert forall|i: int| 0 <= i < long_runs(rest2).len() implies #[trigger] long_runs(rest2)[i]
                        == long_runs(all)[bursts@.len() + 1 + i] by {
                        assert(long_runs(rest)[i + 1] == long_runs(rest2)[i]);
                    }
                }
                bursts.push(BurstError { start, length });
                burst_total = burst_total + length;
            } else {
                proof {
                    assert(long_runs(rest) == long_runs(rest2));
                }
                random_errors = random_errors + length;
            }
            r = r + 1;
        }
        ErrorClassification { bursts, random_errors, total_errors: burst_total + random_errors }
    }
}

/// The run total splits into long and short runs.
proof fn lemma_run_totals_split(runs: Seq<(nat, nat)>)
    ensures
        run_total(runs) == long_run_total(runs) + short_run_total(runs),
    decreases runs.len(),
{
    if runs.len() > 0 {
        lemma_run_totals_split(runs.drop_first());
    }
}

/// Bit differences only grow as the range extends.
proof fn lemma_bit_difference_grows(a: Seq<u8>, b: Seq<u8>, m: nat, n: nat)
    requires
        m <= n,
    ensures
        bit_difference(a, b, 0, m) <= bit_difference(a, b, 0, n),
    decreases n,
{
    if m < n {
        lemma_bit_difference_grows(a, b, m, (n - 1) as nat);
    }
}
} // verus!
