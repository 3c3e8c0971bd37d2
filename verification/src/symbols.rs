//! Views shared by the codes: bytes as field elements and decoding outcomes.

use vstd::prelude::*;
use crate::gf256::GF256;

verus! {

/// The bytes of a message read as field elements.
pub open spec fn bytes_to_field(s: Seq<u8>) -> Seq<GF256> {
    s.map_values(|b: u8| GF256(b))
}

/// Field elements written back as bytes.
pub open spec fn field_to_bytes(s: Seq<GF256>) -> Seq<u8> {
    s.map_values(|g: GF256| g.0)
}

/// Every element is zero.
pub open spec fn all_zero(s: Seq<GF256>) -> bool {
    forall|i: int| 0 <= i < s.len() ==> #[trigger] s[i].0 == 0u8
}

/// The mathematical content of a decoding outcome.
pub open spec fn decoded_view(r: Result<Vec<u8>, String>) -> Result<Seq<u8>, Seq<char>> {
    match r {
        Ok(v) => Ok(v@),
        Err(e) => Err(e@),
    }
}

/// Read a byte slice as field elements.
pub fn to_field(s: &[u8]) -> (r: Vec<GF256>)
    ensures
        r@ == bytes_to_field(s@),
{
    let mut r: Vec<GF256> = Vec::new();
    let mut i: usize = 0;
    while i < s.len()
        invariant
            i <= s@.len(),
            r@ =~= bytes_to_field(s@).subrange(0, i as int),
        decreases s@.len() - i,
    {
        r.push(GF256(s[i]));
        i = i + 1;
    }
    proof {
        assert(r@ =~= bytes_to_field(s@));
    }
    r
}

/// The first `n` elements of `s`, written as bytes.
pub fn prefix_bytes(s: &[GF256], n: usize) -> (r: Vec<u8>)
    requires
        n <= s@.len(),
    ensures
        r@ == field_to_bytes(s@.subrange(0, n as int)),
{
    let mut r: Vec<u8> = Vec::new();
    let mut i: usize = 0;
    while i < n
        invariant
            i <= n <= s@.len(),
            r@ =~= field_to_bytes(s@.subrange(0, i as int)),
        decreases n - i,
    {
        r.push(s[i].0);
        i = i + 1;
    }
    r
}

/// A copy of the first `n` bytes of `s`.
pub fn prefix_copy(s: &[u8], n: usize) -> (r: Vec<u8>)
    requires
        n <= s@.len(),
    ensures
        r@ == s@.subrange(0, n as int),
{
    let mut r: Vec<u8> = Vec::new();
    let mut i: usize = 0;
    while i < n
        invariant
            i <= n <= s@.len(),
            r@ =~= s@.subrange(0, i as int),
        decreases n - i,
    {
        r.push(s[i]);
        i = i + 1;
    }
    r
}

/// Whether every element is zero.
pub fn is_all_zero(s: &[GF256]) -> (r: bool)
    ensures
        r == all_zero(s@),
{
    let mut i: usize = 0;
    while i < s.len()
        invariant
            i <= s@.len(),
            forall|k: int| 0 <= k < i ==> #[trigger] s@[k].0 == 0u8,
        decreases s@.len() - i,
    {
        if s[i].0 != 0u8 {
            return false;
        }
        i = i + 1;
    }
    true
}

/// How many times `v` occurs in `s`.
pub open spec fn count_of(s: Seq<u8>, v: u8) -> nat
    decreases s.len(),
{
    if s.len() == 0 {
        0
    } else {
        count_of(s.drop_last(), v) + (if s.last() == v {
            1nat
        } else {
            0nat
        })
    }
}

/// `r` occurs at least as often in `s` as any other byte, and strictly more often than every
/// smaller byte.
pub open spec fn is_smallest_mode(s: Seq<u8>, r: u8) -> bool {
    &&& forall|v: u8| #[trigger] count_of(s, v) <= count_of(s, r)
    &&& forall|v: u8| v < r ==> #[trigger] count_of(s, v) < count_of(s, r)
}

/// The most frequent byte of `s`, the smallest one among ties (zero for an empty sequence).
pub open spec fn majority_of(s: Seq<u8>) -> u8 {
    choose|r: u8| is_smallest_mode(s, r)
}

proof fn lemma_smallest_mode_unique(s: Seq<u8>, r1: u8, r2: u8)
    requires
        is_smallest_mode(s, r1),
        is_smallest_mode(s, r2),
    ensures
        r1 == r2,
{
    assert(count_of(s, r1) <= count_of(s, r2));
    assert(count_of(s, r2) <= count_of(s, r1));
}

/// The most frequent byte (smallest among ties; zero when `s` is empty).
pub fn majority_value(s: &[u8]) -> (r: u8)
    ensures
        r == majority_of(s@),
        is_smallest_mode(s@, r),
{
    let mut counts: Vec<usize> = Vec::new();
    while counts.len() < 256
        invariant
            counts@.len() <= 256,
            forall|v: int| 0 <= v < counts@.len() ==> #[trigger] counts@[v] == 0,
        decreases 256 - counts@.len(),
    {
        counts.push(0);
    }
    let mut i: usize = 0;
    while i < s.len()
        invariant
            i <= s@.len(),
            counts@.len() == 256,
            forall|v: u8| #[trigger] counts@[v as int] == count_of(s@.subrange(0, i as int), v),
        decreases s@.len() - i,
    {
        proof {
            assert(s@.subrange(0, i + 1).drop_last() =~= s@.subrange(0, i as int));
            assert(count_of(s@.subrange(0, i as int), s@[i as int]) <= i) by {
                lemma_count_bound(s@.subrange(0, i as int), s@[i as int]);
            }
        }
        let x = s[i] as usize;
        let c = counts[x];
        counts.set(x, c + 1);
        i = i + 1;
    }
    proof {
        assert(s@.subrange(0, i as int) =~= s@);
    }
    let mut best: u8 = 0;
    let mut best_count: usize = counts[0];
    let mut v: usize = 1;
    while v < 256
        invariant
            1 <= v <= 256,
            best < v,
            counts@.len() == 256,
            forall|w: u8| #[trigger] counts@[w as int] == count_of(s@, w),
            best_count == count_of(s@, best),
            forall|w: u8| w < v ==> #[trigger] count_of(s@, w) <= best_count,
            forall|w: u8| w < best ==> #[trigger] count_of(s@, w) < best_count,
        decreases 256 - v,
    {
        let c = counts[v];
        if c > best_count {
            best = v as u8;
            best_count = c;
        }
        v = v + 1;
    }
    proof {
        assert(is_smallest_mode(s@, best));
        lemma_smallest_mode_unique(s@, best, majority_of(s@));
    }
    best
}

/// The values at `pos` of those received words that reach it, among the first `m`.
pub open spec fn received_column(received: Seq<Seq<u8>>, pos: int, m: nat) -> Seq<u8>
    decreases m,
{
    if m == 0 {
        seq![]
    } else if pos < received[m - 1].len() {
        received_column(received, pos, (m - 1) as nat).push(received[m - 1][pos])
    } else {
        received_column(received, pos, (m - 1) as nat)
    }
}

/// Merge received copies of a word of length `n` by a majority vote at every position, over
/// the copies long enough to reach it.
pub fn vote_received(received: &[Vec<u8>], n: usize) -> (r: Vec<u8>)
    ensures
        r@ == Seq::new(
            n as nat,
            |pos: int| majority_of(received_column(received@.map_values(|v: Vec<u8>| v@), pos, received@.len())),
        ),
{
    let ghost rs = received@.map_values(|v: Vec<u8>| v@);
    let mut out: Vec<u8> = Vec::new();
    let mut pos: usize = 0;
    while pos < n
        invariant
            pos <= n,
            rs == received@.map_values(|v: Vec<u8>| v@),
            out@ =~= Seq::new(n as nat, |p: int| majority_of(received_column(rs, p, received@.len()))).subrange(
                0,
                pos as int,
            ),
        decreases n - pos,
    {
        let mut column: Vec<u8> = Vec::new();
        let mut q: usize = 0;
        while q < received.len()
            invariant
                q <= received@.len(),
                rs == received@.map_values(|v: Vec<u8>| v@),
                column@ == received_column(rs, pos as int, q as nat),
            decreases received@.len() - q,
        {
            proof {
                assert(rs[q as int] == received@[q as int]@);
            }
            if pos < received[q].len() {
                column.push(received[q][pos]);
            }
            q = q + 1;
        }
        out.push(majority_value(column.as_slice()));
        pos = pos + 1;
    }
    out
}

/// Among the bytes below `m`, the smallest one occurring most often in `s`.
pub open spec fn most_frequent_below(s: Seq<u8>, m: nat) -> u8
    decreases m,
{
    if m <= 1 {
        0u8
    } else {
        let b = most_frequent_below(s, (m - 1) as nat);
        if count_of(s, (m - 1) as u8) > count_of(s, b) {
            (m - 1) as u8
        } else {
            b
        }
    }
}

proof fn lemma_most_frequent_below(s: Seq<u8>, m: nat)
    requires
        1 <= m <= 256,
    ensures
        (most_frequent_below(s, m) as nat) < m,
        forall|v: u8| (v as nat) < m ==> #[trigger] count_of(s, v) <= count_of(s, most_frequent_below(s, m)),
        forall|v: u8| v < most_frequent_below(s, m) ==> #[trigger] count_of(s, v) < count_of(s, most_frequent_below(s, m)),
    decreases m,
{
    if m > 1 {
        lemma_most_frequent_below(s, (m - 1) as nat);
        let b = most_frequent_below(s, (m - 1) as nat);
        let c = (m - 1) as u8;
        assert(c as nat == m - 1);
        assert forall|v: u8| (v as nat) < m implies #[trigger] count_of(s, v) <= count_of(s, most_frequent_below(s, m)) by {
            if (v as nat) < m - 1 {
            } else {
                assert(v == c);
            }
        }
    }
}

/// The majority of a sequence is its smallest most frequent byte.
pub proof fn lemma_majority_is_smallest_mode(s: Seq<u8>)
    ensures
        is_smallest_mode(s, majority_of(s)),
{
    lemma_most_frequent_below(s, 256);
    let r = most_frequent_below(s, 256);
    assert(is_smallest_mode(s, r));
}

/// In a non-empty sequence whose entries all equal `v`, `v` is the majority.
pub proof fn lemma_majority_of_constant(s: Seq<u8>, v: u8)
    requires
        s.len() > 0,
        forall|i: int| 0 <= i < s.len() ==> #[trigger] s[i] == v,
    ensures
        majority_of(s) == v,
{
    assert forall|u: u8| #[trigger] count_of(s, u) == (if u == v {
        s.len()
    } else {
        0nat
    }) by {
        lemma_count_constant(s, v, u);
    }
    assert(is_smallest_mode(s, v));
    lemma_smallest_mode_unique(s, v, majority_of(s));
}

proof fn lemma_count_constant(s: Seq<u8>, v: u8, u: u8)
    requires
        forall|i: int| 0 <= i < s.len() ==> #[trigger] s[i] == v,
    ensures
        count_of(s, u) == (if u == v {
            s.len()
        } else {
            0nat
        }),
    decreases s.len(),
{
    if s.len() > 0 {
        lemma_count_constant(s.drop_last(), v, u);
    }
}

/// A count never exceeds the length.
pub proof fn lemma_count_bound(s: Seq<u8>, v: u8)
    ensures
        count_of(s, v) <= s.len(),
    decreases s.len(),
{
    if s.len() > 0 {
        lemma_count_bound(s.drop_last(), v);
    }
}

} // verus!
