//! Measuring a channel by simulation: random 16-byte messages sent through it, counting the
//! bits that arrive flipped.

use vstd::prelude::*;
use crate::mycorrhizal_channel::{seeded, transmitted, xorshift_iter, MycorrhizalChannel, NoiseModel, SimpleRng};
use crate::runs::{bit_difference, lemma_bit_difference_bound, popcount};

verus! {

/// Bytes per simulated message.
pub open spec fn trial_len() -> nat {
    16
}

/// The message drawn from generator state `st`: the low bytes of the next sixteen states.
pub open spec fn trial_message(st: u64) -> Seq<u8> {
    Seq::new(trial_len(), |i: int| xorshift_iter(st, (i + 1) as nat) as u8)
}

/// Generator state before trial `t` of a simulation seeded with `seed` (each trial draws
/// seventeen values: sixteen message bytes and the channel's seed).
pub open spec fn trial_state(seed: u64, t: nat) -> u64 {
    xorshift_iter(seeded(seed), 17 * t)
}

/// Bits flipped in the trial that starts from generator state `st`.
pub open spec fn trial_bit_errors(noise: NoiseModel, st: u64) -> nat {
    let msg = trial_message(st);
    bit_difference(msg, transmitted(noise, msg, xorshift_iter(st, 17)), 0, trial_len())
}

/// Bits flipped over the first `t` trials.
pub open spec fn simulated_bit_errors(noise: NoiseModel, seed: u64, t: nat) -> nat
    decreases t,
{
    if t == 0 {
        0
    } else {
        simulated_bit_errors(noise, seed, (t - 1) as nat) + trial_bit_errors(noise, trial_state(seed, (t - 1) as nat))
    }
}

/// Bit `k` of `x` and bit `k` of `y` differ.
pub open spec fn bit_differs(x: u8, y: u8, k: u8) -> bool {
    (x >> k) & 1u8 != (y >> k) & 1u8
}

/// How many of the low `k` bit positions of `x` and `y` hold different bits.
pub open spec fn differing_bits_in_byte(x: u8, y: u8, k: nat) -> nat
    decreases k,
{
    if k == 0 {
        0
    } else {
        differing_bits_in_byte(x, y, (k - 1) as nat) + (if bit_differs(x, y, (k - 1) as u8) {
            1nat
        } else {
            0nat
        })
    }
}

/// How many bit positions, over the first `n` bytes, hold different bits in `a` and `b`.
pub open spec fn differing_bits(a: Seq<u8>, b: Seq<u8>, n: nat) -> nat
    decreases n,
{
    if n == 0 {
        0
    } else {
        differing_bits(a, b, (n - 1) as nat) + differing_bits_in_byte(a[n - 1], b[n - 1], 8)
    }
}

/// The one bits of `x ^ y` are the positions where `x` and `y` differ.
proof fn lemma_popcount_xor(x: u8, y: u8)
    ensures
        popcount(x ^ y) == differing_bits_in_byte(x, y, 8),
{
    reveal_with_fuel(differing_bits_in_byte, 9);
    assert(((x ^ y) & 1u8) == (if (x >> 0u8) & 1u8 != (y >> 0u8) & 1u8 { 1u8 } else { 0u8 })
        && (((x ^ y) >> 1u8) & 1u8) == (if (x >> 1u8) & 1u8 != (y >> 1u8) & 1u8 { 1u8 } else { 0u8 })
        && (((x ^ y) >> 2u8) & 1u8) == (if (x >> 2u8) & 1u8 != (y >> 2u8) & 1u8 { 1u8 } else { 0u8 })
        && (((x ^ y) >> 3u8) & 1u8) == (if (x >> 3u8) & 1u8 != (y >> 3u8) & 1u8 { 1u8 } else { 0u8 })
        && (((x ^ y) >> 4u8) & 1u8) == (if (x >> 4u8) & 1u8 != (y >> 4u8) & 1u8 { 1u8 } else { 0u8 })
        && (((x ^ y) >> 5u8) & 1u8) == (if (x >> 5u8) & 1u8 != (y >> 5u8) & 1u8 { 1u8 } else { 0u8 })
        && (((x ^ y) >> 6u8) & 1u8) == (if (x >> 6u8) & 1u8 != (y >> 6u8) & 1u8 { 1u8 } else { 0u8 })
        && (((x ^ y) >> 7u8) & 1u8) == (if (x >> 7u8) & 1u8 != (y >> 7u8) & 1u8 { 1u8 } else { 0u8 }))
        by (bit_vector);
}

/// Counting differing bits byte by byte through the XOR agrees with counting bit positions.
proof fn lemma_bit_difference_counts_bits(a: Seq<u8>, b: Seq<u8>, n: nat)
    ensures
        bit_difference(a, b, 0, n) == differing_bits(a, b, n),
    decreases n,
{
    if n > 0 {
        lemma_bit_difference_counts_bits(a, b, (n - 1) as nat);
        lemma_popcount_xor(a[n - 1], b[n - 1]);
    }
}

/// A trial counts flipped bits, not flipped bytes: its count is the number of bit positions of
/// the sixteen-byte message that arrive different.
pub proof fn lemma_trial_counts_flipped_bits(noise: NoiseModel, st: u64)
    ensures
        trial_bit_errors(noise, st) == differing_bits(
            trial_message(st),
            transmitted(noise, trial_message(st), xorshift_iter(st, 17)),
            16,
        ),
{
    let msg = trial_message(st);
    lemma_bit_difference_counts_bits(msg, transmitted(noise, msg, xorshift_iter(st, 17)), 16);
}

/// Bits flipped over the first `t` trials, counted bit position by bit position.
pub open spec fn flipped_bits_over_trials(noise: NoiseModel, seed: u64, t: nat) -> nat
    decreases t,
{
    if t == 0 {
        0
    } else {
        let st = trial_state(seed, (t - 1) as nat);
        flipped_bits_over_trials(noise, seed, (t - 1) as nat) + differing_bits(
            trial_message(st),
            transmitted(noise, trial_message(st), xorshift_iter(st, 17)),
            16,
        )
    }
}

/// The simulation's error count is the total, over its trials, of the bit positions of each
/// message that arrive different.
pub proof fn lemma_simulation_counts_flipped_bits(noise: NoiseModel, seed: u64, t: nat)
    ensures
        simulated_bit_errors(noise, seed, t) == flipped_bits_over_trials(noise, seed, t),
    decreases t,
{
    if t > 0 {
        lemma_simulation_counts_flipped_bits(noise, seed, (t - 1) as nat);
        lemma_trial_counts_flipped_bits(noise, trial_state(seed, (t - 1) as nat));
    }
}

/// Stepping the generator `a` times and then `b` times is stepping it `a + b` times.
pub proof fn lemma_xorshift_iter_add(s: u64, a: nat, b: nat)
    ensures
        xorshift_iter(xorshift_iter(s, a), b) == xorshift_iter(s, a + b),
    decreases b,
{
    if b > 0 {
        lemma_xorshift_iter_add(s, a, (b - 1) as nat);
    }
}

/// Send `num_trials` random 16-byte messages through the channel, drawing messages and
/// channel seeds from a generator seeded with `seed`; return the bits that arrived flipped and
/// the bits sent.
pub fn simulate_bit_errors(channel: &MycorrhizalChannel, num_trials: usize, seed: u64) -> (r: (usize, usize))
    requires
        channel.noise.wf(),
        num_trials * 128 <= usize::MAX,
    ensures
        r.0 == simulated_bit_errors(channel.noise, seed, num_trials as nat),
        r.1 == num_trials * 128,
        r.0 <= r.1,
{
    let mut rng = SimpleRng::new(seed);
    let ghost noise = channel.noise;
    let mut total_bits: usize = 0;
    let mut error_bits: usize = 0;
    let mut t: usize = 0;
    while t < num_trials
        invariant
            noise == channel.noise,
            noise.wf(),
            t <= num_trials,
            num_trials * 128 <= usize::MAX,
            rng.state() == trial_state(seed, t as nat),
            total_bits == t * 128,
            error_bits == simulated_bit_errors(noise, seed, t as nat),
            error_bits <= total_bits,
        decreases num_trials - t,
    {
        let ghost st = rng.state();
        let mut data: Vec<u8> = Vec::new();
        let mut i: usize = 0;
        while i < 16
            invariant
                i <= 16,
                data@.len() == i,
                rng.state() == xorshift_iter(st, i as nat),
                forall|j: int| 0 <= j < i ==> #[trigger] data@[j] == xorshift_iter(st, (j + 1) as nat) as u8,
            decreases 16 - i,
        {
            let b = rng.next_u8();
            data.push(b);
            i = i + 1;
        }
        let trial_seed = rng.next_u64();
        proof {
            assert(data@ =~= trial_message(st));
            assert(trial_seed == xorshift_iter(st, 17));
            lemma_xorshift_iter_add(seeded(seed), 17 * t as nat, 17);
            assert(17 * t as nat + 17 == 17 * (t + 1) as nat);
        }
        let received = channel.transmit(&data, trial_seed);
        proof {
            lemma_bit_difference_bound(data@, received@, 0, 16);
            assert(t * 128 + 128 == (t + 1) * 128);
            assert((t + 1) * 128 <= num_trials * 128) by (nonlinear_arith)
                requires
                    t < num_trials,
            ;
        }
        let (bit_err, _) = MycorrhizalChannel::count_errors(&data, &received);
        total_bits = total_bits + 128;
        error_bits = error_bits + bit_err;
        t = t + 1;
    }
    (error_bits, total_bits)
}

} // verus!
