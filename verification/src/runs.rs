//! Maximal runs of positions at which two byte strings differ.

use vstd::prelude::*;

verus! {

/// The end of the run of differing positions that starts at `i` (the first position at or
/// after `i`, below `n`, where the strings agree; `n` if there is none).
pub open spec fn run_end(a: Seq<u8>, b: Seq<u8>, n: nat, i: nat) -> nat
    decreases n - i,
{
    if i >= n || a[i as int] == b[i as int] {
        i
    } else {
        run_end(a, b, n, i + 1)
    }
}

/// A run ends at or after its start and at or before `n`.
pub proof fn lemma_run_end_bounds(a: Seq<u8>, b: Seq<u8>, n: nat, i: nat)
    ensures
        i <= n ==> i <= run_end(a, b, n, i) <= n,
        i < n && a[i as int] != b[i as int] ==> run_end(a, b, n, i) > i,
        i > n ==> run_end(a, b, n, i) == i,
    decreases n - i,
{
    if i < n && a[i as int] != b[i as int] {
        lemma_run_end_bounds(a, b, n, i + 1);
    }
}

/// The maximal runs `(start, length)` of differing positions in `[i, n)`, in order.
pub open spec fn runs_from(a: Seq<u8>, b: Seq<u8>, n: nat, i: nat) -> Seq<(nat, nat)>
    decreases n - i,
{
    if i >= n {
        seq![]
    } else if a[i as int] == b[i as int] {
        runs_from(a, b, n, i + 1)
    } else {
        let e = run_end(a, b, n, i);
        proof {
            lemma_run_end_bounds(a, b, n, i);
        }
        seq![(i, (e - i) as nat)] + runs_from(a, b, n, e)
    }
}

/// Every run found in `[i, n)` starts at or after `i`, is non-empty and ends by `n`.
pub proof fn lemma_runs_within(a: Seq<u8>, b: Seq<u8>, n: nat, i: nat)
    ensures
        forall|r: int| 0 <= r < runs_from(a, b, n, i).len() ==> {
            let run = #[trigger] runs_from(a, b, n, i)[r];
            &&& i <= run.0
            &&& run.1 >= 1
            &&& run.0 + run.1 <= n
        },
    decreases n - i,
{
    if i < n {
        if a[i as int] == b[i as int] {
            lemma_runs_within(a, b, n, i + 1);
            assert(runs_from(a, b, n, i) == runs_from(a, b, n, i + 1));
        } else {
            let e = run_end(a, b, n, i);
            lemma_run_end_bounds(a, b, n, i);
            lemma_runs_within(a, b, n, e);
            let rest = runs_from(a, b, n, e);
            let all = runs_from(a, b, n, i);
            assert(all == seq![(i, (e - i) as nat)] + rest);
            assert forall|r: int| 0 <= r < all.len() implies {
                let run = #[trigger] all[r];
                &&& i <= run.0
                &&& run.1 >= 1
                &&& run.0 + run.1 <= n
            } by {
                if r > 0 {
                    assert(all[r] == rest[r - 1]);
                }
            }
        }
    }
}

/// Total length of a list of runs.
pub open spec fn run_total(runs: Seq<(nat, nat)>) -> nat
    decreases runs.len(),
{
    if runs.len() == 0 {
        0
    } else {
        runs[0].1 + run_total(runs.drop_first())
    }
}

/// The runs found in `[i, n)` cover at most `n - i` positions.
pub proof fn lemma_runs_total(a: Seq<u8>, b: Seq<u8>, n: nat, i: nat)
    ensures
        i <= n ==> run_total(runs_from(a, b, n, i)) <= n - i,
    decreases n - i,
{
    if i < n {
        if a[i as int] == b[i as int] {
            lemma_runs_total(a, b, n, i + 1);
        } else {
            let e = run_end(a, b, n, i);
            lemma_run_end_bounds(a, b, n, i);
            lemma_runs_total(a, b, n, e);
            assert(runs_from(a, b, n, i).drop_first() =~= runs_from(a, b, n, e));
        }
    }
}

/// There are at most as many runs in `[i, n)` as positions.
pub proof fn lemma_runs_count(a: Seq<u8>, b: Seq<u8>, n: nat, i: nat)
    ensures
        i <= n ==> runs_from(a, b, n, i).len() <= n - i,
    decreases n - i,
{
    if i < n {
        if a[i as int] == b[i as int] {
            lemma_runs_count(a, b, n, i + 1);
        } else {
            let e = run_end(a, b, n, i);
            lemma_run_end_bounds(a, b, n, i);
            lemma_runs_count(a, b, n, e);
        }
    }
}

/// The number of positions the strings are compared on.
pub open spec fn common_len(a: Seq<u8>, b: Seq<u8>) -> nat {
    if a.len() <= b.len() {
        a.len()
    } else {
        b.len()
    }
}

/// The maximal runs of differing positions over the common length, in order.
pub open spec fn mismatch_runs(a: Seq<u8>, b: Seq<u8>) -> Seq<(nat, nat)> {
    runs_from(a, b, common_len(a, b), 0)
}

/// Number of one bits in a byte.
pub open spec fn popcount(x: u8) -> nat {
    ((x & 1u8) + ((x >> 1u8) & 1u8) + ((x >> 2u8) & 1u8) + ((x >> 3u8) & 1u8) + ((x >> 4u8) & 1u8) + ((x
        >> 5u8) & 1u8) + ((x >> 6u8) & 1u8) + ((x >> 7u8) & 1u8)) as nat
}

/// Total number of differing bits over positions `[start, start + len)`.
pub open spec fn bit_difference(a: Seq<u8>, b: Seq<u8>, start: int, len: nat) -> nat
    decreases len,
{
    if len == 0 {
        0
    } else {
        bit_difference(a, b, start, (len - 1) as nat) + popcount(a[start + len - 1] ^ b[start + len - 1])
    }
}

/// A byte has at most eight one bits.
pub proof fn lemma_popcount_bound(x: u8)
    ensures
        popcount(x) <= 8,
{
    assert((x & 1u8) <= 1u8 && ((x >> 1u8) & 1u8) <= 1u8 && ((x >> 2u8) & 1u8) <= 1u8 && ((x >> 3u8) & 1u8)
        <= 1u8 && ((x >> 4u8) & 1u8) <= 1u8 && ((x >> 5u8) & 1u8) <= 1u8 && ((x >> 6u8) & 1u8) <= 1u8 && ((x
        >> 7u8) & 1u8) <= 1u8) by (bit_vector);
}

/// At most eight bits differ per position.
pub proof fn lemma_bit_difference_bound(a: Seq<u8>, b: Seq<u8>, start: int, len: nat)
    ensures
        bit_difference(a, b, start, len) <= 8 * len,
    decreases len,
{
    if len > 0 {
        lemma_bit_difference_bound(a, b, start, (len - 1) as nat);
        lemma_popcount_bound(a[start + len - 1] ^ b[start + len - 1]);
    }
}

/// A byte combined with itself has no one bits.
pub proof fn lemma_popcount_self_xor(x: u8)
    ensures
        popcount(x ^ x) == 0,
{
    assert(x ^ x == 0u8) by (bit_vector);
    assert(((0u8 & 1u8) + ((0u8 >> 1u8) & 1u8) + ((0u8 >> 2u8) & 1u8) + ((0u8 >> 3u8) & 1u8) + ((0u8 >> 4u8) & 1u8)
        + ((0u8 >> 5u8) & 1u8) + ((0u8 >> 6u8) & 1u8) + ((0u8 >> 7u8) & 1u8)) == 0) by (bit_vector);
}

/// Number of one bits in a byte.
pub fn count_ones(x: u8) -> (r: u32)
    ensures
        r == popcount(x),
        r <= 8,
{
    assert((x & 1u8) <= 1u8 && ((x >> 1u8) & 1u8) <= 1u8 && ((x >> 2u8) & 1u8) <= 1u8 && ((x >> 3u8) & 1u8)
        <= 1u8 && ((x >> 4u8) & 1u8) <= 1u8 && ((x >> 5u8) & 1u8) <= 1u8 && ((x >> 6u8) & 1u8) <= 1u8 && ((x
        >> 7u8) & 1u8) <= 1u8) by (bit_vector);
    let r = (x & 1u8) + ((x >> 1u8) & 1u8) + ((x >> 2u8) & 1u8) + ((x >> 3u8) & 1u8) + ((x >> 4u8) & 1u8)
        + ((x >> 5u8) & 1u8) + ((x >> 6u8) & 1u8) + ((x >> 7u8) & 1u8);
    r as u32
}

/// The maximal runs of differing positions, as `(start, length)` pairs in increasing order.
pub fn find_mismatch_runs(a: &[u8], b: &[u8]) -> (runs: Vec<(usize, usize)>)
    ensures
        runs@.len() == mismatch_runs(a@, b@).len(),
        forall|r: int| 0 <= r < runs@.len() ==> (#[trigger] runs@[r]).0 == mismatch_runs(a@, b@)[r].0
            && runs@[r].1 == mismatch_runs(a@, b@)[r].1,
{
    let n: usize = if a.len() <= b.len() {
        a.len()
    } else {
        b.len()
    };
    let ghost nn = n as nat;
    let mut runs: Vec<(usize, usize)> = Vec::new();
    let ghost mut acc: Seq<(nat, nat)> = seq![];
    let mut i: usize = 0;
    while i < n
        invariant
            i <= n <= a@.len(),
            n <= b@.len(),
            nn == n,
            nn == common_len(a@, b@),
            acc + runs_from(a@, b@, nn, i as nat) == mismatch_runs(a@, b@),
            runs@.len() == acc.len(),
            forall|r: int| 0 <= r < runs@.len() ==> (#[trigger] runs@[r]).0 == acc[r].0 && runs@[r].1
                == acc[r].1,
        decreases n - i,
    {
        if a[i] != b[i] {
            let start = i;
            while i < n && a[i] != b[i]
                invariant
                    start <= i <= n <= a@.len(),
                    n <= b@.len(),
                    nn == n,
                    run_end(a@, b@, nn, start as nat) == run_end(a@, b@, nn, i as nat),
                decreases n - i,
            {
                proof {
                    assert(run_end(a@, b@, nn, i as nat) == run_end(a@, b@, nn, (i + 1) as nat));
                }
                i = i + 1;
            }
            proof {
                lemma_run_end_bounds(a@, b@, nn, start as nat);
                assert(runs_from(a@, b@, nn, start as nat) == seq![(start as nat, (i - start) as nat)]
                    + runs_from(a@, b@, nn, i as nat));
                assert(acc + runs_from(a@, b@, nn, start as nat) == (acc.push((start as nat, (i - start) as nat)))
                    + runs_from(a@, b@, nn, i as nat));
                acc = acc.push((start as nat, (i - start) as nat));
            }
            runs.push((start, i - start));
        } else {
            i = i + 1;
        }
    }
    proof {
        assert(acc =~= mismatch_runs(a@, b@));
    }
    runs
}

} // verus!
