//! Gossip dissemination modelled on spore dispersal: each spore walks the network, visiting
//! unvisited neighbours of its current node, until its time-to-live runs out.

use vstd::prelude::*;
use std::collections::HashMap;
use std::collections::HashSet;
use crate::hub_tree::Ratio;
use crate::mycorrhizal_channel::{seeded, xorshift64};
use crate::symbols::prefix_copy;

verus! {

broadcast use vstd::std_specs::hash::group_hash_axioms;

/// Parameters of the gossip protocol.
#[derive(Clone, Copy, Debug)]
pub struct SporeConfig {
    /// Number of peers a spore is forwarded to per round.
    pub fanout: usize,
    /// Hops a spore may still make.
    pub ttl: usize,
    /// Fraction of (node, datum) pairs that counts as converged.
    pub convergence_target: Ratio,
}

impl Default for SporeConfig {
    /// Three peers per round, ten hops, and 99% convergence.
    fn default() -> (r: Self)
        ensures
            r.fanout == 3,
            r.ttl == 10,
            r.convergence_target == (Ratio { numerator: 99, denominator: 100 }),
    {
        SporeConfig { fanout: 3, ttl: 10, convergence_target: Ratio { numerator: 99, denominator: 100 } }
    }
}

/// A spore carrying data through the network.
#[derive(Debug)]
pub struct Spore {
    pub id: u64,
    pub source: usize,
    pub data: Vec<u8>,
    pub ttl: usize,
    pub visited: HashSet<usize>,
    pub generation: usize,
}

/// State of one node of the gossip network.
#[derive(Debug)]
pub struct NodeState {
    pub id: usize,
    pub data: HashMap<u64, Vec<u8>>,
    pub received_generations: HashMap<u64, usize>,
    pub neighbors: Vec<usize>,
}

/// The spore gossip network.
#[derive(Debug)]
pub struct SporeNetwork {
    pub config: SporeConfig,
    pub nodes: Vec<NodeState>,
    pub total_spores_originated: u64,
}

/// `v` is reached from `id` by stepping `f` places forward (cyclically, never onto `id` itself)
/// or backward (without wrapping), for some `f` in `1..=fanout`.
pub open spec fn is_neighbour(id: nat, v: nat, n: nat, fanout: nat) -> bool {
    exists|f: nat| 1 <= f <= fanout && #[trigger] steps_to(id, v, n, f)
}

/// Stepping `f` places from `id` reaches `v`, forward (cyclically, not onto `id`) or backward.
pub open spec fn steps_to(id: nat, v: nat, n: nat, f: nat) -> bool {
    (v == (id + f) % n && v != id) || (f <= id && v == id - f)
}

/// The neighbour list built for node `id`: exactly its neighbours, in increasing order.
pub open spec fn neighbour_list_ok(list: Seq<usize>, id: nat, n: nat, fanout: nat) -> bool {
    &&& forall|i: int, j: int| 0 <= i < j < list.len() ==> list[i] < list[j]
    &&& forall|v: usize| #[trigger] list.contains(v) <==> (v < n && is_neighbour(id, v as nat, n, fanout))
}

/// Whether `v` is a neighbour of `id` (both below `n`).
fn neighbour_test(id: usize, v: usize, n: usize, fanout: usize) -> (r: bool)
    requires
        id < n,
        v < n,
    ensures
        r == is_neighbour(id as nat, v as nat, n as nat, fanout as nat),
{
    let backward = v < id && id - v <= fanout;
    let forward = if v == id {
        false
    } else {
        let d: usize = if v > id {
            v - id
        } else {
            n - (id - v)
        };
        d <= fanout
    };
    proof {
        let (idn, vn, nn, fan) = (id as nat, v as nat, n as nat, fanout as nat);
        if backward {
            let f = (idn - vn) as nat;
            assert(1 <= f <= fan && steps_to(idn, vn, nn, f));
        } else if forward {
            let f: nat = if v > id {
                (vn - idn) as nat
            } else {
                (nn - (idn - vn)) as nat
            };
            if v > id {
                assert((idn + f) % nn == vn) by {
                    vstd::arithmetic::div_mod::lemma_small_mod(vn, nn);
                }
            } else {
                assert((idn + f) % nn == vn) by {
                    assert(idn + f == vn + nn);
                    vstd::arithmetic::div_mod::lemma_mod_add_multiples_vanish(vn as int, nn as int);
                    vstd::arithmetic::div_mod::lemma_small_mod(vn, nn);
                }
            }
            assert(1 <= f <= fan && steps_to(idn, vn, nn, f));
        }
        if is_neighbour(idn, vn, nn, fan) {
            let f = choose|f: nat| 1 <= f <= fan && #[trigger] steps_to(idn, vn, nn, f);
            if !(f <= idn && vn == idn - f) {
                assert(vn == (idn + f) % nn && vn != idn);
                let q = ((idn + f) / nn) as int;
                vstd::arithmetic::div_mod::lemma_fundamental_div_mod((idn + f) as int, nn as int);
                assert(idn + f == nn * q + vn);
                if v > id {
                    assert(q >= 0) by {
                        vstd::arithmetic::div_mod::lemma_div_pos_is_pos((idn + f) as int, nn as int);
                    }
                    assert(nn * q >= 0) by (nonlinear_arith)
                        requires
                            q >= 0,
                            nn >= 0,
                    ;
                    assert(f >= vn - idn);
                } else {
                    assert(q >= 1) by {
                        if q <= 0 {
                            assert(nn * q <= 0) by (nonlinear_arith)
                                requires
                                    q <= 0,
                                    nn >= 0,
                            ;
                        }
                    }
                    assert(nn * q >= nn) by (nonlinear_arith)
                        requires
                            q >= 1,
                            nn >= 0,
                    ;
                    assert(f >= nn - (idn - vn));
                }
            }
        }
    }
    backward || forward
}

/// The neighbour list of node `id` in a network of `n` nodes.
fn neighbour_list(id: usize, n: usize, fanout: usize) -> (list: Vec<usize>)
    requires
        id < n,
    ensures
        neighbour_list_ok(list@, id as nat, n as nat, fanout as nat),
{
    let mut list: Vec<usize> = Vec::new();
    let mut v: usize = 0;
    while v < n
        invariant
            id < n,
            v <= n,
            forall|i: int, j: int| 0 <= i < j < list@.len() ==> list@[i] < list@[j],
            forall|i: int| 0 <= i < list@.len() ==> list@[i] < v,
            forall|x: usize| #[trigger] list@.contains(x) <==> (x < v && is_neighbour(id as nat, x as nat, n as nat, fanout as nat)),
        decreases n - v,
    {
        if neighbour_test(id, v, n, fanout) {
            let ghost before = list@;
            list.push(v);
            proof {
                assert forall|x: usize| #[trigger] list@.contains(x) <==> (x < v + 1 && is_neighbour(
                    id as nat,
                    x as nat,
                    n as nat,
                    fanout as nat,
                )) by {
                    if x == v {
                        assert(list@[before.len() as int] == v);
                    } else if list@.contains(x) {
                        let k = choose|k: int| 0 <= k < list@.len() && list@[k] == x;
                        assert(before[k] == x);
                        assert(before.contains(x));
                    } else if x < v && is_neighbour(id as nat, x as nat, n as nat, fanout as nat) {
                        assert(before.contains(x));
                        let k = choose|k: int| 0 <= k < before.len() && before[k] == x;
                        assert(list@[k] == x);
                    }
                }
            }
        } else {
            proof {
                assert forall|x: usize| #[trigger] list@.contains(x) <==> (x < v + 1 && is_neighbour(
                    id as nat,
                    x as nat,
                    n as nat,
                    fanout as nat,
                )) by {
                    if list@.contains(x) {
                        let k = choose|k: int| 0 <= k < list@.len() && list@[k] == x;
                        assert(list@[k] < v);
                    }
                }
            }
        }
        v = v + 1;
    }
    list
}

/// Deterministic generator used to pick gossip targets (xorshift64).
struct SimpleRng2 {
    state: u64,
}

impl SimpleRng2 {
    fn new(seed: u64) -> (r: Self)
        ensures
            r.state == seeded(seed),
    {
        SimpleRng2 { state: if seed == 0 { 1 } else { seed } }
    }

    fn next(&mut self) -> (r: u64)
        ensures
            r == xorshift64(old(self).state),
            final(self).state == r,
    {
        let s = self.state;
        let a = s ^ (s << 13u64);
        let b = a ^ (a >> 7u64);
        let c = b ^ (b << 17u64);
        self.state = c;
        c
    }
}

/// The node a spore currently sits on: the last of its visited nodes in the set's walk
/// order, or its source when it has visited none.
fn current_node(spore: &Spore) -> (c: usize)
    ensures
        c == spore.source || spore.visited@.contains(c),
        (exists|v: usize| spore.visited@.contains(v)) ==> spore.visited@.contains(c),
{
    let mut current = spore.source;
    let mut found = false;
    let ghost m = spore.visited@;
    let ghost nonempty = exists|v: usize| m.contains(v);
    for x in it: spore.visited.iter()
        invariant
            m == spore.visited@,
            it.seq().unref().to_set() == m,
            nonempty == exists|v: usize| m.contains(v),
            nonempty ==> it.seq().len() > 0,
            found ==> m.contains(current),
            !found ==> current == spore.source,
            found == (it.index() > 0),
    {
        proof {
            assert(it.seq().unref()[it.index() as int] == *x);
            assert(it.seq().unref().contains(*x));
        }
        current = *x;
        found = true;
    }
    proof {
        assert(nonempty ==> found);
    }
    current
}

/// The neighbours not yet visited, in order, among the first `m` of `neighbors`.
pub open spec fn unvisited(neighbors: Seq<usize>, visited: Set<usize>, m: nat) -> Seq<usize>
    decreases m,
{
    if m == 0 {
        seq![]
    } else {
        let rest = unvisited(neighbors, visited, (m - 1) as nat);
        if visited.contains(neighbors[m - 1]) {
            rest
        } else {
            rest.push(neighbors[m - 1])
        }
    }
}

/// The Fisher-Yates shuffle of `s` over positions `i` down to 1, drawing from generator state
/// `st`: position `i` is swapped with position `draw % (i + 1)`.
pub open spec fn shuffled(s: Seq<usize>, i: nat, st: u64) -> Seq<usize>
    decreases i,
{
    if i == 0 || i >= s.len() {
        s
    } else {
        let st1 = xorshift64(st);
        let j = ((st1 as usize) as nat % (i + 1)) as int;
        shuffled(s.update(i as int, s[j]).update(j, s[i as int]), (i - 1) as nat, st1)
    }
}

/// The nodes a spore is forwarded to: every unvisited neighbour when there are at most
/// `fanout` of them, else the first `fanout` after a shuffle seeded by the spore's id and
/// generation.
pub open spec fn gossip_targets(neighbors: Seq<usize>, visited: Set<usize>, fanout: nat, id: u64, generation: usize) -> Seq<
    usize,
> {
    let cands = unvisited(neighbors, visited, neighbors.len());
    if cands.len() <= fanout {
        cands
    } else {
        shuffled(cands, (cands.len() - 1) as nat, seeded(id.wrapping_add(generation as u64))).take(fanout as int)
    }
}

/// Pick the nodes a spore is forwarded to.
fn select_targets(neighbors: &Vec<usize>, visited: &HashSet<usize>, fanout: usize, id: u64, generation: usize) -> (sel: Vec<
    usize,
>)
    ensures
        sel@ == gossip_targets(neighbors@, visited@, fanout as nat, id, generation),
{
    let mut cands: Vec<usize> = Vec::new();
    let mut i: usize = 0;
    while i < neighbors.len()
        invariant
            i <= neighbors@.len(),
            cands@ == unvisited(neighbors@, visited@, i as nat),
        decreases neighbors@.len() - i,
    {
        if !visited.contains(&neighbors[i]) {
            cands.push(neighbors[i]);
        }
        i = i + 1;
    }
    let ghost c0 = cands@;
    if cands.len() <= fanout {
        return cands;
    }
    let mut rng = SimpleRng2::new(id.wrapping_add(generation as u64));
    let mut k: usize = cands.len() - 1;
    let ghost top = k as nat;
    while k >= 1
        invariant
            cands@.len() == c0.len(),
            k < c0.len(),
            k < cands.len(),
            top == c0.len() - 1,
            shuffled(cands@, k as nat, rng.state) == shuffled(c0, top, seeded(id.wrapping_add(generation as u64))),
        decreases k,
    {
        let x = rng.next();
        let j = (#[verifier::truncate] (x as usize)) % (k + 1);
        let a = cands[k];
        let b = cands[j];
        cands.set(k, b);
        cands.set(j, a);
        k = k - 1;
    }
    let mut sel: Vec<usize> = Vec::new();
    let mut t: usize = 0;
    while t < fanout
        invariant
            fanout < cands@.len(),
            t <= fanout,
            sel@ == cands@.take(t as int),
        decreases fanout - t,
    {
        sel.push(cands[t]);
        proof {
            assert(cands@.take(t + 1) == cands@.take(t as int).push(cands@[t as int]));
        }
        t = t + 1;
    }
    sel
}

/// The shuffle only rearranges: its length is kept and each of its elements comes from `s`.
proof fn lemma_shuffled_elements(s: Seq<usize>, i: nat, st: u64)
    ensures
        shuffled(s, i, st).len() == s.len(),
        forall|x: usize| #[trigger] shuffled(s, i, st).contains(x) ==> s.contains(x),
    decreases i,
{
    if !(i == 0 || i >= s.len()) {
        let st1 = xorshift64(st);
        let j = ((st1 as usize) as nat % (i + 1)) as int;
        let t = s.update(i as int, s[j]).update(j, s[i as int]);
        lemma_shuffled_elements(t, (i - 1) as nat, st1);
        assert forall|x: usize| #[trigger] t.contains(x) implies s.contains(x) by {
            let q = choose|q: int| 0 <= q < t.len() && t[q] == x;
            if q == j {
                assert(s[i as int] == x);
            } else if q == i {
                assert(s[j] == x);
            } else {
                assert(s[q] == x);
            }
        }
    }
}

/// The unvisited neighbours are neighbours, not visited, and no more numerous.
proof fn lemma_unvisited(neighbors: Seq<usize>, visited: Set<usize>, m: nat)
    requires
        m <= neighbors.len(),
    ensures
        unvisited(neighbors, visited, m).len() <= m,
        forall|x: usize| #[trigger] unvisited(neighbors, visited, m).contains(x) ==> neighbors.contains(x) && !visited.contains(x),
    decreases m,
{
    if m > 0 {
        let rest = unvisited(neighbors, visited, (m - 1) as nat);
        lemma_unvisited(neighbors, visited, (m - 1) as nat);
        assert forall|x: usize| #[trigger] unvisited(neighbors, visited, m).contains(x) implies neighbors.contains(x)
            && !visited.contains(x) by {
            if !visited.contains(neighbors[m - 1]) {
                let u = rest.push(neighbors[m - 1]);
                let q = choose|q: int| 0 <= q < u.len() && u[q] == x;
                if q < rest.len() {
                    assert(rest[q] == x);
                    assert(rest.contains(x));
                } else {
                    assert(neighbors[m - 1] == x);
                }
            }
        }
    }
}

/// The targets are unvisited neighbours, no more numerous than the neighbours.
proof fn lemma_gossip_targets(neighbors: Seq<usize>, visited: Set<usize>, fanout: nat, id: u64, generation: usize)
    ensures
        gossip_targets(neighbors, visited, fanout, id, generation).len() <= neighbors.len(),
        gossip_targets(neighbors, visited, fanout, id, generation).len() <= fanout,
        forall|x: usize| #[trigger] gossip_targets(neighbors, visited, fanout, id, generation).contains(x) ==> neighbors.contains(x)
            && !visited.contains(x),
{
    let cands = unvisited(neighbors, visited, neighbors.len());
    lemma_unvisited(neighbors, visited, neighbors.len());
    if cands.len() > fanout {
        let sh = shuffled(cands, (cands.len() - 1) as nat, seeded(id.wrapping_add(generation as u64)));
        lemma_shuffled_elements(cands, (cands.len() - 1) as nat, seeded(id.wrapping_add(generation as u64)));
        assert forall|x: usize| #[trigger] sh.take(fanout as int).contains(x) implies neighbors.contains(x) && !visited.contains(
            x,
        ) by {
            let q = choose|q: int| 0 <= q < sh.take(fanout as int).len() && sh.take(fanout as int)[q] == x;
            assert(sh[q] == x);
            assert(sh.contains(x));
        }
    }
}

/// Every spore sits on some node.
proof fn lemma_some_seat(s: Spore) -> (c: usize)
    ensures
        sits_on(s, c),
{
    if exists|v: usize| s.visited@.contains(v) {
        choose|v: usize| s.visited@.contains(v)
    } else {
        s.source
    }
}

/// The message count of the first `m` spores depends on their seats only.
proof fn lemma_targets_total_prefix(
    spores: Seq<Spore>,
    nodes: Seq<NodeState>,
    cs1: Seq<usize>,
    cs2: Seq<usize>,
    fanout: nat,
    m: nat,
)
    requires
        m <= cs1.len(),
        m <= cs2.len(),
        forall|k: int| 0 <= k < m ==> cs1[k] == cs2[k],
    ensures
        targets_total(spores, nodes, cs1, fanout, m) == targets_total(spores, nodes, cs2, fanout, m),
    decreases m,
{
    if m > 0 {
        lemma_targets_total_prefix(spores, nodes, cs1, cs2, fanout, (m - 1) as nat);
    }
}

/// At most `fanout` messages go out per spore.
proof fn lemma_targets_total_bound(spores: Seq<Spore>, nodes: Seq<NodeState>, cs: Seq<usize>, fanout: nat, m: nat)
    requires
        m <= spores.len(),
        m <= cs.len(),
    ensures
        targets_total(spores, nodes, cs, fanout, m) <= m * fanout,
    decreases m,
{
    if m > 0 {
        lemma_targets_total_bound(spores, nodes, cs, fanout, (m - 1) as nat);
        let s = spores[m - 1];
        let c = cs[m - 1];
        if s.ttl > 0 && c < nodes.len() {
            lemma_gossip_targets(nodes[c as int].neighbors@, s.visited@, fanout, s.id, s.generation);
        }
        assert((m - 1) * fanout + fanout == m * fanout) by (nonlinear_arith);
    }
}

/// The deliveries of the first `m` spores depend on their seats only.
proof fn lemma_round_events_prefix(
    spores: Seq<Spore>,
    nodes: Seq<NodeState>,
    cs1: Seq<usize>,
    cs2: Seq<usize>,
    fanout: nat,
    m: nat,
)
    requires
        m <= cs1.len(),
        m <= cs2.len(),
        forall|k: int| 0 <= k < m ==> cs1[k] == cs2[k],
    ensures
        round_events(spores, nodes, cs1, fanout, m) == round_events(spores, nodes, cs2, fanout, m),
    decreases m,
{
    if m > 0 {
        lemma_round_events_prefix(spores, nodes, cs1, cs2, fanout, (m - 1) as nat);
    }
}

/// There is one delivery per message.
proof fn lemma_round_events_len(spores: Seq<Spore>, nodes: Seq<NodeState>, cs: Seq<usize>, fanout: nat, m: nat)
    ensures
        round_events(spores, nodes, cs, fanout, m).len() == targets_total(spores, nodes, cs, fanout, m),
    decreases m,
{
    if m > 0 {
        lemma_round_events_len(spores, nodes, cs, fanout, (m - 1) as nat);
    }
}

/// The count of accepted deliveries depends on the deliveries and states before it only.
proof fn lemma_accepted_count_prefix(
    spores: Seq<Spore>,
    evs1: Seq<(int, usize)>,
    st1: Seq<Seq<NodeState>>,
    evs2: Seq<(int, usize)>,
    st2: Seq<Seq<NodeState>>,
    i: nat,
)
    requires
        i <= evs1.len(),
        i <= evs2.len(),
        i <= st1.len(),
        i <= st2.len(),
        forall|j: int| 0 <= j < i ==> evs1[j] == evs2[j] && st1[j] == st2[j],
    ensures
        accepted_count(spores, evs1, st1, i) == accepted_count(spores, evs2, st2, i),
    decreases i,
{
    if i > 0 {
        lemma_accepted_count_prefix(spores, evs1, st1, evs2, st2, (i - 1) as nat);
    }
}

/// The count of accepted deliveries only grows.
proof fn lemma_accepted_count_grows(spores: Seq<Spore>, evs: Seq<(int, usize)>, st: Seq<Seq<NodeState>>, i: nat, n: nat)
    requires
        i <= n,
    ensures
        accepted_count(spores, evs, st, i) <= accepted_count(spores, evs, st, n),
    decreases n,
{
    if i < n {
        lemma_accepted_count_grows(spores, evs, st, i, (n - 1) as nat);
    }
}

/// One more delivery made: the accepted spore, if any, is carried on at the end.
proof fn lemma_deliveries_extend(
    spores: Seq<Spore>,
    evs: Seq<(int, usize)>,
    st: Seq<Seq<NodeState>>,
    out: Seq<Spore>,
    ev: (int, usize),
    b: Seq<NodeState>,
    out2: Seq<Spore>,
)
    requires
        deliveries_made(spores, evs, st, out),
        delivery(st[evs.len() as int], b, spores[ev.0], ev.1),
        accepts(st[evs.len() as int][ev.1 as int], spores[ev.0].id, (spores[ev.0].generation + 1) as nat) ==> {
            &&& out2.len() == out.len() + 1
            &&& out2.drop_last() == out
            &&& forwarded(spores[ev.0], out2.last(), ev.1)
        },
        !accepts(st[evs.len() as int][ev.1 as int], spores[ev.0].id, (spores[ev.0].generation + 1) as nat) ==> out2
            == out,
    ensures
        deliveries_made(spores, evs.push(ev), st.push(b), out2),
{
    let n = evs.len();
    let evs2 = evs.push(ev);
    let st2 = st.push(b);
    lemma_accepted_count_prefix(spores, evs, st, evs2, st2, n);
    assert(accepted_at(spores, evs2, st2, n as int) == accepts(
        st[n as int][ev.1 as int],
        spores[ev.0].id,
        (spores[ev.0].generation + 1) as nat,
    ));
    assert forall|i: int| 0 <= i < evs2.len() implies #[trigger] delivery(st2[i], st2[i + 1], spores[evs2[i].0], evs2[i].1) by {
        if i < n {
            assert(delivery(st[i], st[i + 1], spores[evs[i].0], evs[i].1));
        }
    }
    assert forall|i: int| 0 <= i < evs2.len() && #[trigger] accepted_at(spores, evs2, st2, i) implies forwarded(
        spores[evs2[i].0],
        out2[accepted_count(spores, evs2, st2, i as nat) as int],
        evs2[i].1,
    ) by {
        if i < n {
            lemma_accepted_count_prefix(spores, evs, st, evs2, st2, i as nat);
            lemma_accepted_count_prefix(spores, evs, st, evs2, st2, (i + 1) as nat);
            assert(accepted_at(spores, evs, st, i));
            lemma_accepted_count_grows(spores, evs, st, (i + 1) as nat, n);
            let idx = accepted_count(spores, evs, st, i as nat);
            assert(idx < out.len());
            if accepted_at(spores, evs2, st2, n as int) {
                assert(out2[idx as int] == out2.drop_last()[idx as int]);
            }
        }
    }
}

/// A copy of a set of nodes.
fn copy_visited(s: &HashSet<usize>) -> (r: HashSet<usize>)
    ensures
        r@ == s@,
{
    let mut r: HashSet<usize> = HashSet::new();
    let ghost m = s@;
    for x in it: s.iter()
        invariant
            m == s@,
            it.seq().unref().to_set() == m,
            forall|v: usize| #[trigger] r@.contains(v) ==> m.contains(v),
            forall|v: usize|
                #[trigger] m.contains(v) ==> r@.contains(v) || exists|i: int|
                    it.index() <= i < it.seq().len() && it.seq().unref()[i] == v,
    {
        proof {
            assert(it.seq().unref()[it.index() as int] == *x);
            assert(it.seq().unref().contains(*x));
        }
        let ghost before = r@;
        r.insert(*x);
        proof {
            assert forall|v: usize|
                #[trigger] m.contains(v) implies r@.contains(v) || exists|i: int|
                    it.index() + 1 <= i < it.seq().len() && it.seq().unref()[i] == v by {
                if !before.contains(v) && v != *x {
                    let i = choose|i: int| it.index() <= i < it.seq().len() && it.seq().unref()[i] == v;
                    assert(i != it.index());
                }
            }
        }
    }
    proof {
        assert(r@ =~= m);
    }
    r
}

/// Node `node` accepts a spore of `id` arriving with generation `next`: it holds no copy,
/// or holds one received at a later generation.
pub open spec fn accepts(node: NodeState, id: u64, next: nat) -> bool {
    ||| (match node.received_generations@.contains_key(id) {
        true => node.received_generations@[id] > next,
        false => usize::MAX > next,
    })
    ||| !node.data@.contains_key(id)
}

/// `t` is `s` moved one hop: from a node `c` it had reached (or its source) to an unvisited
/// neighbour `nb` of `c`.
pub open spec fn hop(s: Spore, t: Spore, nodes: Seq<NodeState>, c: usize, nb: usize) -> bool {
    &&& c == s.source || s.visited@.contains(c)
    &&& c < nodes.len()
    &&& nodes[c as int].neighbors@.contains(nb)
    &&& nb < nodes.len()
    &&& !s.visited@.contains(nb)
    &&& t.visited@ == s.visited@.insert(nb)
}

/// `t` continues the walk of `s`: same spore, one hop further, one generation older and with
/// one hop less to live.
pub open spec fn descends(s: Spore, t: Spore, nodes: Seq<NodeState>) -> bool {
    &&& s.ttl > 0
    &&& t.id == s.id
    &&& t.source == s.source
    &&& t.data@ == s.data@
    &&& t.ttl == s.ttl - 1
    &&& t.generation == s.generation + 1
    &&& exists|c: usize, nb: usize| #[trigger] hop(s, t, nodes, c, nb)
}

/// Each spore of `after` continues the walk of one of `before`.
pub open spec fn all_descend(before: Seq<Spore>, after: Seq<Spore>, nodes: Seq<NodeState>) -> bool {
    forall|j: int| 0 <= j < after.len() ==> #[trigger] descends_from(before, after[j], nodes)
}

/// `t` continues the walk of one of `before`.
pub open spec fn descends_from(before: Seq<Spore>, t: Spore, nodes: Seq<NodeState>) -> bool {
    exists|k: int| 0 <= k < before.len() && #[trigger] descends(before[k], t, nodes)
}

/// Between `before` and `after` the nodes and their links stay, no node loses a datum, and
/// every datum that appeared or changed is the data of one of `spores` with that id.
pub open spec fn gossip_step(before: Seq<NodeState>, after: Seq<NodeState>, spores: Seq<Spore>) -> bool {
    &&& after.len() == before.len()
    &&& forall|i: int| 0 <= i < before.len() ==> (#[trigger] after[i]).id == before[i].id && after[i].neighbors
        == before[i].neighbors
    &&& forall|i: int, key: u64|
        0 <= i < before.len() && #[trigger] before[i].data@.contains_key(key) ==> after[i].data@.contains_key(key)
    &&& forall|i: int, key: u64|
        0 <= i < before.len() && #[trigger] after[i].data@.contains_key(key) ==> (before[i].data@.contains_key(key)
            && after[i].data@[key] == before[i].data@[key]) || exists|k: int|
            0 <= k < spores.len() && (#[trigger] spores[k]).id == key && spores[k].data@ == after[i].data@[key]@
}

/// The nodes spore `s` is sent to in a round when it sits on node `c`: its gossip targets
/// there, or none when it has no hops left or `c` is not a node.
pub open spec fn round_targets(s: Spore, nodes: Seq<NodeState>, c: usize, fanout: nat) -> Seq<usize> {
    if s.ttl > 0 && c < nodes.len() {
        gossip_targets(nodes[c as int].neighbors@, s.visited@, fanout, s.id, s.generation)
    } else {
        seq![]
    }
}

/// A node spore `s` may sit on: one it has reached (its source when it has reached none). Which
/// of its reached nodes is taken depends on the walk order of its visited set.
pub open spec fn sits_on(s: Spore, c: usize) -> bool {
    &&& c == s.source || s.visited@.contains(c)
    &&& (exists|v: usize| s.visited@.contains(v)) ==> s.visited@.contains(c)
}

/// Messages sent for the first `m` spores when spore `k` sits on `cs[k]`.
pub open spec fn targets_total(spores: Seq<Spore>, nodes: Seq<NodeState>, cs: Seq<usize>, fanout: nat, m: nat) -> nat
    decreases m,
{
    if m == 0 {
        0
    } else {
        targets_total(spores, nodes, cs, fanout, (m - 1) as nat) + round_targets(
            spores[m - 1],
            nodes,
            cs[m - 1],
            fanout,
        ).len()
    }
}

/// `x`, capped at the largest `usize`.
pub open spec fn saturated(x: nat) -> nat {
    if x > usize::MAX {
        usize::MAX as nat
    } else {
        x
    }
}

/// The first `t` of `targets` are nodes that hold `id`.
pub open spec fn targets_hold(nodes: Seq<NodeState>, targets: Seq<usize>, t: nat, id: u64) -> bool {
    forall|u: int| #![trigger targets[u]] 0 <= u < t ==> targets[u] < nodes.len() && nodes[targets[u] as int].data@.contains_key(id)
}

/// A round that placed spore `k` of `spores` on node `cs[k]`: it sent `messages` messages (one
/// per target, saturating), and afterwards every target holds the id of the spore sent to it.
pub open spec fn round_plan(
    before: Seq<NodeState>,
    after: Seq<NodeState>,
    spores: Seq<Spore>,
    cs: Seq<usize>,
    fanout: nat,
    messages: nat,
) -> bool {
    &&& cs.len() == spores.len()
    &&& forall|k: int| 0 <= k < spores.len() ==> #[trigger] sits_on(spores[k], cs[k])
    &&& messages == saturated(targets_total(spores, before, cs, fanout, spores.len()))
    &&& forall|k: int, x: usize|
        0 <= k < spores.len() && #[trigger] round_targets(spores[k], before, cs[k], fanout).contains(x)
            ==> x < after.len() && after[x as int].data@.contains_key(spores[k].id)
}

/// The deliveries of a round, in the order they are made: for each spore in turn (sitting on
/// `cs[k]`), one delivery to each of its targets.
pub open spec fn round_events(spores: Seq<Spore>, nodes: Seq<NodeState>, cs: Seq<usize>, fanout: nat, m: nat) -> Seq<
    (int, usize),
>
    decreases m,
{
    if m == 0 {
        seq![]
    } else {
        round_events(spores, nodes, cs, fanout, (m - 1) as nat) + round_targets(
            spores[m - 1],
            nodes,
            cs[m - 1],
            fanout,
        ).map_values(|x: usize| (m - 1, x))
    }
}

/// Node states `a` becoming `b` as spore `s` is offered to node `x`: when `x` accepts it, `x`
/// stores its data and records the generation it arrives with; otherwise nothing changes.
pub open spec fn delivery(a: Seq<NodeState>, b: Seq<NodeState>, s: Spore, x: usize) -> bool {
    &&& b.len() == a.len()
    &&& x < a.len()
    &&& forall|y: int| 0 <= y < a.len() && y != x ==> #[trigger] b[y] == a[y]
    &&& b[x as int].id == a[x as int].id
    &&& b[x as int].neighbors == a[x as int].neighbors
    &&& accepts(a[x as int], s.id, (s.generation + 1) as nat) ==> {
        &&& b[x as int].data@.dom() == a[x as int].data@.dom().insert(s.id)
        &&& b[x as int].data@[s.id]@ == s.data@
        &&& forall|key: u64| key != s.id ==> #[trigger] b[x as int].data@[key] == a[x as int].data@[key]
        &&& b[x as int].received_generations@ == a[x as int].received_generations@.insert(
            s.id,
            (s.generation + 1) as usize,
        )
    }
    &&& !accepts(a[x as int], s.id, (s.generation + 1) as nat) ==> b[x as int] == a[x as int]
}

/// `t` is spore `s` carried on from node `x`: one hop further, one generation older.
pub open spec fn forwarded(s: Spore, t: Spore, x: usize) -> bool {
    &&& t.id == s.id
    &&& t.source == s.source
    &&& t.data@ == s.data@
    &&& t.ttl == s.ttl - 1
    &&& t.generation == s.generation + 1
    &&& t.visited@ == s.visited@.insert(x)
}

/// Delivery `i` of `evs` was accepted, given the node states `states` before each delivery.
pub open spec fn accepted_at(spores: Seq<Spore>, evs: Seq<(int, usize)>, states: Seq<Seq<NodeState>>, i: int) -> bool {
    accepts(states[i][evs[i].1 as int], spores[evs[i].0].id, (spores[evs[i].0].generation + 1) as nat)
}

/// How many of the first `i` deliveries were accepted.
pub open spec fn accepted_count(spores: Seq<Spore>, evs: Seq<(int, usize)>, states: Seq<Seq<NodeState>>, i: nat) -> nat
    decreases i,
{
    if i == 0 {
        0
    } else {
        accepted_count(spores, evs, states, (i - 1) as nat) + (if accepted_at(spores, evs, states, i - 1) {
            1nat
        } else {
            0nat
        })
    }
}

/// The deliveries `evs` made one after another through the states `states` (from `states[0]`),
/// and `out` is exactly the accepted ones carried on, in order.
pub open spec fn deliveries_made(
    spores: Seq<Spore>,
    evs: Seq<(int, usize)>,
    states: Seq<Seq<NodeState>>,
    out: Seq<Spore>,
) -> bool {
    &&& states.len() == evs.len() + 1
    &&& forall|i: int|
        0 <= i < evs.len() ==> #[trigger] delivery(states[i], states[i + 1], spores[evs[i].0], evs[i].1)
    &&& out.len() == accepted_count(spores, evs, states, evs.len())
    &&& forall|i: int|
        0 <= i < evs.len() && #[trigger] accepted_at(spores, evs, states, i) ==> forwarded(
            spores[evs[i].0],
            out[accepted_count(spores, evs, states, i as nat) as int],
            evs[i].1,
        )
}

/// A whole round: with spore `k` sitting on `cs[k]` (see `round_plan`), its deliveries lead from
/// `before` to `after`, and `out` is exactly the spores accepted on the way, carried on.
pub open spec fn round_exact(
    before: Seq<NodeState>,
    after: Seq<NodeState>,
    spores: Seq<Spore>,
    cs: Seq<usize>,
    fanout: nat,
    states: Seq<Seq<NodeState>>,
    out: Seq<Spore>,
) -> bool {
    let evs = round_events(spores, before, cs, fanout, spores.len());
    &&& deliveries_made(spores, evs, states, out)
    &&& states[0] == before
    &&& states[evs.len() as int] == after
}

/// What `gossip_round` does: for some seats `cs` and intermediate states, the round's plan and
/// its exact deliveries.
pub open spec fn round_done(
    before: Seq<NodeState>,
    after: Seq<NodeState>,
    spores: Seq<Spore>,
    out: Seq<Spore>,
    fanout: nat,
    messages: nat,
) -> bool {
    exists|cs: Seq<usize>, states: Seq<Seq<NodeState>>| #[trigger] round_plan(before, after, spores, cs, fanout, messages)
        && #[trigger] round_exact(before, after, spores, cs, fanout, states, out)
}

/// One gossip round as `gossip_round` performs it: from `nodes` and `pending` to `nodes2` and
/// `pending2`, sending `messages`.
pub open spec fn round_step(
    nodes: Seq<NodeState>,
    nodes2: Seq<NodeState>,
    pending: Seq<Spore>,
    pending2: Seq<Spore>,
    fanout: nat,
    messages: nat,
) -> bool {
    &&& gossip_step(nodes, nodes2, pending)
    &&& messages <= pending.len() * fanout
    &&& round_done(nodes, nodes2, pending, pending2, fanout, messages)
    &&& pending2.len() <= messages
    &&& all_descend(pending, pending2, nodes)
}

/// The sum of `s`.
pub open spec fn sum_of(s: Seq<nat>) -> nat
    decreases s.len(),
{
    if s.len() == 0 {
        0
    } else {
        sum_of(s.drop_last()) + s.last()
    }
}

/// A run of `rounds` gossip rounds: the node states and pending spores before and after each
/// round, and the messages of each; a round runs only while some spore is pending.
pub open spec fn gossip_run(
    nodes_tr: Seq<Seq<NodeState>>,
    pend_tr: Seq<Seq<Spore>>,
    msgs: Seq<nat>,
    rounds: nat,
    fanout: nat,
) -> bool {
    &&& nodes_tr.len() == rounds + 1
    &&& pend_tr.len() == rounds + 1
    &&& msgs.len() == rounds
    &&& forall|q: int|
        0 <= q < rounds ==> #[trigger] pend_tr[q].len() > 0 && round_step(
            nodes_tr[q],
            nodes_tr[q + 1],
            pend_tr[q],
            pend_tr[q + 1],
            fanout,
            msgs[q],
        )
}

/// What `run_until_convergence` did, as a run of gossip rounds from `nodes0` and `spores` to
/// `nodes_end`: the result counts its rounds, sums its messages (saturating), records the
/// convergence after each round, and stops early only on convergence or with nothing pending.
pub open spec fn run_record(
    nodes_tr: Seq<Seq<NodeState>>,
    pend_tr: Seq<Seq<Spore>>,
    msgs: Seq<nat>,
    r: ConvergenceResult,
    nodes0: Seq<NodeState>,
    spores: Seq<Spore>,
    nodes_end: Seq<NodeState>,
    fanout: nat,
    max_rounds: nat,
) -> bool {
    &&& gossip_run(nodes_tr, pend_tr, msgs, r.rounds as nat, fanout)
    &&& nodes_tr[0] == nodes0
    &&& pend_tr[0] == spores
    &&& nodes_tr[r.rounds as int] == nodes_end
    &&& r.messages_sent == saturated(sum_of(msgs))
    &&& forall|q: int| 0 <= q < r.rounds ==> #[trigger] r.convergence_history@[q] == convergence_of(nodes_tr[q + 1])
    &&& r.rounds < max_rounds ==> r.converged || pend_tr[r.rounds as int].len() == 0
}

/// Outcome of running gossip towards convergence.
#[derive(Debug)]
pub struct ConvergenceResult {
    /// Rounds run.
    pub rounds: usize,
    /// Convergence reached at the end.
    pub convergence_ratio: Ratio,
    /// Messages sent in all (saturating at the largest `usize`).
    pub messages_sent: usize,
    /// Whether the target was reached.
    pub converged: bool,
    /// Convergence after each round.
    pub convergence_history: Vec<Ratio>,
}

/// The spore ids held by the first `m` nodes.
pub open spec fn ids_held(nodes: Seq<NodeState>, m: nat) -> Set<u64>
    decreases m,
{
    if m == 0 {
        Set::empty()
    } else {
        ids_held(nodes, (m - 1) as nat).union(nodes[m - 1].data@.dom())
    }
}

/// The (node, id) pairs held by the first `m` nodes.
pub open spec fn pairs_held(nodes: Seq<NodeState>, m: nat) -> nat
    decreases m,
{
    if m == 0 {
        0
    } else {
        pairs_held(nodes, (m - 1) as nat) + nodes[m - 1].data@.dom().len()
    }
}

/// The fraction of (node, id) pairs held, over all nodes and every id held anywhere; one when
/// there is no node or no id.
pub open spec fn convergence_of(nodes: Seq<NodeState>) -> Ratio {
    let ids = ids_held(nodes, nodes.len());
    if nodes.len() == 0 || ids.len() == 0 {
        Ratio { numerator: 1, denominator: 1 }
    } else {
        Ratio { numerator: pairs_held(nodes, nodes.len()) as u128, denominator: (nodes.len() * ids.len()) as u128 }
    }
}

/// `a` is at least `b`.
pub open spec fn reaches(a: Ratio, b: Ratio) -> bool {
    a.numerator * b.denominator >= b.numerator * a.denominator
}

/// The ids held by the first `m` nodes form a finite set, no larger than the pair count.
proof fn lemma_ids_held(nodes: Seq<NodeState>, m: nat)
    requires
        m <= nodes.len(),
    ensures
        ids_held(nodes, m).finite(),
        ids_held(nodes, m).len() <= pairs_held(nodes, m),
    decreases m,
{
    if m > 0 {
        lemma_ids_held(nodes, (m - 1) as nat);
        let prev = ids_held(nodes, (m - 1) as nat);
        let dom = nodes[m - 1].data@.dom();
        assert(dom.finite());
        vstd::set_lib::lemma_len_union(prev, dom);
    }
}

/// Over a gossip step, the first `m` nodes keep every id and pair they held, and any id they
/// newly hold is one of the spores' ids.
proof fn lemma_held_grows(before: Seq<NodeState>, after: Seq<NodeState>, spores: Seq<Spore>, m: nat)
    requires
        gossip_step(before, after, spores),
        m <= before.len(),
    ensures
        ids_held(before, m).subset_of(ids_held(after, m)),
        forall|id: u64| #[trigger] ids_held(after, m).contains(id) ==> ids_held(before, m).contains(id) || exists|k: int|
            0 <= k < spores.len() && (#[trigger] spores[k]).id == id,
        pairs_held(after, m) >= pairs_held(before, m),
    decreases m,
{
    if m > 0 {
        lemma_held_grows(before, after, spores, (m - 1) as nat);
        let i = m - 1;
        let bd = before[i].data@.dom();
        let ad = after[i].data@.dom();
        assert(bd.subset_of(ad)) by {
            assert forall|key: u64| bd.contains(key) implies ad.contains(key) by {
                assert(before[i].data@.contains_key(key));
            }
        }
        assert(ad.finite());
        vstd::set_lib::lemma_len_subset(bd, ad);
        assert forall|id: u64| #[trigger] ids_held(after, m).contains(id) implies ids_held(before, m).contains(id) || exists|
            k: int,
        | 0 <= k < spores.len() && (#[trigger] spores[k]).id == id by {
            if ad.contains(id) && !bd.contains(id) {
                assert(after[i].data@.contains_key(id));
            }
        }
    }
}

/// A round of gossip never lowers the convergence, provided every spore it carries is
/// already held somewhere (as it is for spores that were originated): the ids stay the same
/// and no node loses one.
pub proof fn lemma_gossip_never_lowers_convergence(before: Seq<NodeState>, after: Seq<NodeState>, spores: Seq<Spore>)
    requires
        gossip_step(before, after, spores),
        forall|k: int| 0 <= k < spores.len() ==> ids_held(before, before.len()).contains(#[trigger] spores[k].id),
        pairs_held(after, after.len()) <= u128::MAX,
        after.len() * ids_held(after, after.len()).len() <= u128::MAX,
    ensures
        reaches(convergence_of(after), convergence_of(before)),
{
    let n = before.len();
    lemma_held_grows(before, after, spores, n);
    let bi = ids_held(before, n);
    let ai = ids_held(after, n);
    assert(ai =~= bi) by {
        assert forall|id: u64| ai.contains(id) implies bi.contains(id) by {
            if !bi.contains(id) {
                let k = choose|k: int| 0 <= k < spores.len() && (#[trigger] spores[k]).id == id;
                assert(bi.contains(spores[k].id));
            }
        }
    }
    lemma_ids_held(before, n);
    lemma_ids_held(after, n);
    if n > 0 && ai.len() > 0 {
        let d = (n * ai.len()) as u128;
        let a = pairs_held(after, n) as u128;
        let b = pairs_held(before, n) as u128;
        assert(a >= b);
        assert(a * d >= b * d) by (nonlinear_arith)
            requires
                a >= b,
        ;
    }
}

/// Gossip never alters data: when every datum held and every spore carried matches what
/// was originated under its id, the same holds after a round, for the data held and for the
/// spores carried on.
pub proof fn lemma_gossip_keeps_data_faithful(
    before: Seq<NodeState>,
    after: Seq<NodeState>,
    spores: Seq<Spore>,
    next: Seq<Spore>,
    originals: Map<u64, Seq<u8>>,
)
    requires
        gossip_step(before, after, spores),
        all_descend(spores, next, before),
        forall|i: int, key: u64|
            0 <= i < before.len() && #[trigger] before[i].data@.contains_key(key) ==> originals.contains_key(key)
                && before[i].data@[key]@ == originals[key],
        forall|k: int| 0 <= k < spores.len() ==> originals.contains_key((#[trigger] spores[k]).id) && spores[k].data@
            == originals[spores[k].id],
    ensures
        forall|i: int, key: u64|
            0 <= i < after.len() && #[trigger] after[i].data@.contains_key(key) ==> originals.contains_key(key)
                && after[i].data@[key]@ == originals[key],
        forall|j: int| 0 <= j < next.len() ==> originals.contains_key((#[trigger] next[j]).id) && next[j].data@
            == originals[next[j].id],
{
    assert forall|i: int, key: u64|
        0 <= i < after.len() && #[trigger] after[i].data@.contains_key(key) implies originals.contains_key(key)
            && after[i].data@[key]@ == originals[key] by {
        if !(before[i].data@.contains_key(key) && after[i].data@[key] == before[i].data@[key]) {
            let k = choose|k: int| 0 <= k < spores.len() && (#[trigger] spores[k]).id == key && spores[k].data@
                == after[i].data@[key]@;
        }
    }
    assert forall|j: int| 0 <= j < next.len() implies originals.contains_key((#[trigger] next[j]).id) && next[j].data@
        == originals[next[j].id] by {
        assert(descends_from(spores, next[j], before));
        let k = choose|k: int| 0 <= k < spores.len() && #[trigger] descends(spores[k], next[j], before);
    }
}

/// Every round takes a hop off each spore's time-to-live: after a round, spores that had at
/// most `t` hops left have fewer, and none remain once `t` is zero.
pub proof fn lemma_gossip_uses_up_ttl(before: Seq<Spore>, after: Seq<Spore>, nodes: Seq<NodeState>, t: nat)
    requires
        all_descend(before, after, nodes),
        forall|k: int| 0 <= k < before.len() ==> (#[trigger] before[k]).ttl <= t,
    ensures
        forall|j: int| 0 <= j < after.len() ==> (#[trigger] after[j]).ttl < t,
        t == 0 ==> after.len() == 0,
{
    assert forall|j: int| 0 <= j < after.len() implies (#[trigger] after[j]).ttl < t by {
        assert(descends_from(before, after[j], nodes));
        let k = choose|k: int| 0 <= k < before.len() && #[trigger] descends(before[k], after[j], nodes);
        assert(before[k].ttl <= t);
    }
    if t == 0 && after.len() > 0 {
        assert(after[0].ttl < t);
    }
}

impl SporeNetwork {
    /// Every neighbour named by a node is a node of the network.
    pub open spec fn wf(&self) -> bool {
        forall|i: int, k: int|
            0 <= i < self.nodes@.len() && 0 <= k < self.nodes@[i].neighbors@.len() ==> #[trigger] self.nodes@[i].neighbors@[k]
                < self.nodes@.len()
    }

    /// A network of `num_nodes` nodes, each holding nothing yet and linked to the nodes up to
    /// `fanout` places before it and (cyclically) after it.
    pub fn new(num_nodes: usize, config: SporeConfig) -> (r: Self)
        requires
            num_nodes == 0 || num_nodes - 1 + config.fanout <= usize::MAX,
        ensures
            r.wf(),
            r.config == config,
            r.total_spores_originated == 0,
            r.nodes@.len() == num_nodes,
            forall|i: int|
                0 <= i < num_nodes ==> {
                    let node = #[trigger] r.nodes@[i];
                    &&& node.id == i
                    &&& node.data@ == Map::<u64, Vec<u8>>::empty()
                    &&& node.received_generations@ == Map::<u64, usize>::empty()
                    &&& neighbour_list_ok(node.neighbors@, i as nat, num_nodes as nat, config.fanout as nat)
                },
    {
        let mut nodes: Vec<NodeState> = Vec::new();
        let mut id: usize = 0;
        while id < num_nodes
            invariant
                id <= num_nodes,
                nodes@.len() == id,
                forall|i: int|
                    0 <= i < id ==> {
                        let node = #[trigger] nodes@[i];
                        &&& node.id == i
                        &&& node.data@ == Map::<u64, Vec<u8>>::empty()
                        &&& node.received_generations@ == Map::<u64, usize>::empty()
                        &&& neighbour_list_ok(node.neighbors@, i as nat, num_nodes as nat, config.fanout as nat)
                    },
            decreases num_nodes - id,
        {
            let neighbors = neighbour_list(id, num_nodes, config.fanout);
            nodes.push(NodeState { id, data: HashMap::new(), received_generations: HashMap::new(), neighbors });
            id = id + 1;
        }
        let r = SporeNetwork { config, nodes, total_spores_originated: 0 };
        proof {
            assert forall|i: int, k: int|
                0 <= i < r.nodes@.len() && 0 <= k < r.nodes@[i].neighbors@.len() implies #[trigger] r.nodes@[i].neighbors@[k]
                    < r.nodes@.len() by {
                assert(r.nodes@[i].neighbors@.contains(r.nodes@[i].neighbors@[k]));
            }
        }
        r
    }

    /// Start a spore carrying `data` at node `source`, which stores it at once.
    pub fn originate(&mut self, source: usize, data: Vec<u8>) -> (s: Spore)
        requires
            source < old(self).nodes@.len(),
            old(self).total_spores_originated < u64::MAX,
        ensures
            s.id == old(self).total_spores_originated,
            s.source == source,
            s.data@ == data@,
            s.ttl == old(self).config.ttl,
            s.visited@ == set![source],
            s.generation == 0,
            final(self).total_spores_originated == old(self).total_spores_originated + 1,
            final(self).config == old(self).config,
            final(self).nodes@.len() == old(self).nodes@.len(),
            forall|i: int| 0 <= i < old(self).nodes@.len() && i != source ==> #[trigger] final(self).nodes@[i] == old(self).nodes@[i],
            final(self).nodes@[source as int].id == old(self).nodes@[source as int].id,
            final(self).nodes@[source as int].neighbors == old(self).nodes@[source as int].neighbors,
            final(self).nodes@[source as int].data@.dom() == old(self).nodes@[source as int].data@.dom().insert(s.id),
            final(self).nodes@[source as int].data@[s.id]@ == data@,
            forall|k: u64| k != s.id ==> #[trigger] final(self).nodes@[source as int].data@[k] == old(self).nodes@[source as int].data@[k],
            final(self).nodes@[source as int].received_generations@ == old(self).nodes@[source as int].received_generations@.insert(s.id, 0),
    {
        let id = self.total_spores_originated;
        self.total_spores_originated = id + 1;
        let stored = prefix_copy(&data, data.len());
        self.nodes[source].data.insert(id, stored);
        self.nodes[source].received_generations.insert(id, 0);
        let mut visited: HashSet<usize> = HashSet::new();
        visited.insert(source);
        Spore { id, source, data, ttl: self.config.ttl, visited, generation: 0 }
    }

    /// Offer `spore` to node `nb`, one hop further. The node takes it when it holds no copy or
    /// holds one from a later generation; the spore then continues from there.
    fn deliver(&mut self, spore: &Spore, nb: usize) -> (r: Option<Spore>)
        requires
            nb < old(self).nodes@.len(),
            spore.ttl > 0,
            spore.generation < usize::MAX,
        ensures
            final(self).config == old(self).config,
            final(self).total_spores_originated == old(self).total_spores_originated,
            final(self).nodes@.len() == old(self).nodes@.len(),
            forall|i: int| 0 <= i < old(self).nodes@.len() && i != nb ==> #[trigger] final(self).nodes@[i] == old(self).nodes@[i],
            final(self).nodes@[nb as int].id == old(self).nodes@[nb as int].id,
            final(self).nodes@[nb as int].neighbors == old(self).nodes@[nb as int].neighbors,
            accepts(old(self).nodes@[nb as int], spore.id, (spore.generation + 1) as nat) ==> {
                &&& final(self).nodes@[nb as int].data@.dom() == old(self).nodes@[nb as int].data@.dom().insert(spore.id)
                &&& final(self).nodes@[nb as int].data@[spore.id]@ == spore.data@
                &&& forall|k: u64| k != spore.id ==> #[trigger] final(self).nodes@[nb as int].data@[k] == old(
                    self,
                ).nodes@[nb as int].data@[k]
                &&& final(self).nodes@[nb as int].received_generations@ == old(self).nodes@[nb as int].received_generations@.insert(
                    spore.id,
                    (spore.generation + 1) as usize,
                )
                &&& r matches Some(t) && t.id == spore.id && t.source == spore.source && t.data@ == spore.data@ && t.ttl
                    == spore.ttl - 1 && t.generation == spore.generation + 1 && t.visited@ == spore.visited@.insert(nb)
            },
            !accepts(old(self).nodes@[nb as int], spore.id, (spore.generation + 1) as nat) ==> final(self).nodes@[nb as int]
                == old(self).nodes@[nb as int] && r is None,
            delivery(old(self).nodes@, final(self).nodes@, *spore, nb),
            accepts(old(self).nodes@[nb as int], spore.id, (spore.generation + 1) as nat) ==> (r matches Some(t)
                && forwarded(*spore, t, nb)),
    {
        let ghost before = self.nodes@;
        let next_gen = spore.generation + 1;
        let prev: usize = match self.nodes[nb].received_generations.get(&spore.id) {
            Some(g) => *g,
            None => usize::MAX,
        };
        if prev > next_gen || !self.nodes[nb].data.contains_key(&spore.id) {
            let stored = prefix_copy(&spore.data, spore.data.len());
            self.nodes[nb].data.insert(spore.id, stored);
            self.nodes[nb].received_generations.insert(spore.id, next_gen);
            let mut visited = copy_visited(&spore.visited);
            visited.insert(nb);
            let t = Spore {
                id: spore.id,
                source: spore.source,
                data: prefix_copy(&spore.data, spore.data.len()),
                ttl: spore.ttl - 1,
                visited,
                generation: next_gen,
            };
            proof {
                assert(self.nodes@[nb as int].data@.dom() =~= before[nb as int].data@.dom().insert(spore.id));
                assert(spore.data@.subrange(0, spore.data@.len() as int) =~= spore.data@);
                assert(t.visited@ =~= spore.visited@.insert(nb));
                assert(forwarded(*spore, t, nb));
                assert(delivery(before, self.nodes@, *spore, nb));
            }
            Some(t)
        } else {
            proof {
                assert(self.nodes@ =~= before);
                assert(delivery(before, self.nodes@, *spore, nb));
            }
            None
        }
    }

    /// One round of dissemination: every pending spore with hops left moves from its current
    /// node to up to `fanout` unvisited neighbours; those that accept it store its data and
    /// carry it on in the next round. Returns the number of messages sent.
    pub fn gossip_round(&mut self, pending: &mut Vec<Spore>) -> (messages: usize)
        requires
            old(self).wf(),
            forall|k: int| 0 <= k < old(pending)@.len() && (#[trigger] old(pending)@[k]).ttl > 0 ==> old(pending)@[k].generation
                < usize::MAX,
        ensures
            final(self).wf(),
            final(self).config == old(self).config,
            final(self).total_spores_originated == old(self).total_spores_originated,
            gossip_step(old(self).nodes@, final(self).nodes@, old(pending)@),
            messages <= old(pending)@.len() * old(self).config.fanout,
            exists|cs: Seq<usize>| round_plan(
                old(self).nodes@,
                final(self).nodes@,
                old(pending)@,
                cs,
                old(self).config.fanout as nat,
                messages as nat,
            ),
            final(pending)@.len() <= messages,
            all_descend(old(pending)@, final(pending)@, old(self).nodes@),
            round_done(
                old(self).nodes@,
                final(self).nodes@,
                old(pending)@,
                final(pending)@,
                old(self).config.fanout as nat,
                messages as nat,
            ),
    {
        let ghost n0 = self.nodes@;
        let ghost pend = pending@;
        let mut work: Vec<Spore> = Vec::new();
        std::mem::swap(pending, &mut work);
        let n = self.nodes.len();
        let mut new_pending: Vec<Spore> = Vec::new();
        let mut messages: usize = 0;
        let mut k: usize = 0;
        let ghost fan = self.config.fanout as nat;
        let ghost mut cs: Seq<usize> = seq![];
        let ghost mut evs: Seq<(int, usize)> = seq![];
        let ghost mut states: Seq<Seq<NodeState>> = seq![self.nodes@];
        proof {
            assert(gossip_step(n0, self.nodes@, pend));
        }
        while k < work.len()
            invariant
                self.wf(),
                self.config == old(self).config,
                self.total_spores_originated == old(self).total_spores_originated,
                n == n0.len() == self.nodes@.len(),
                pend == work@,
                forall|q: int| 0 <= q < pend.len() && (#[trigger] pend[q]).ttl > 0 ==> pend[q].generation < usize::MAX,
                k <= pend.len(),
                gossip_step(n0, self.nodes@, pend),
                fan == self.config.fanout,
                cs.len() == k,
                forall|q: int| 0 <= q < k ==> #[trigger] sits_on(pend[q], cs[q]),
                evs == round_events(pend, n0, cs, fan, k as nat),
                deliveries_made(pend, evs, states, new_pending@),
                states[0] == n0,
                states[evs.len() as int] == self.nodes@,
                messages == saturated(targets_total(pend, n0, cs, fan, k as nat)),
                forall|q: int, x: usize|
                    0 <= q < k && #[trigger] round_targets(pend[q], n0, cs[q], fan).contains(x) ==> x < n
                        && self.nodes@[x as int].data@.contains_key(pend[q].id),
                new_pending@.len() <= messages,
                forall|j: int| 0 <= j < new_pending@.len() ==> exists|q: int|
                    0 <= q < k && descends(#[trigger] pend[q], #[trigger] new_pending@[j], self.nodes@),
            decreases pend.len() - k,
        {
            let spore = &work[k];
            let ghost mut seat: usize = lemma_some_seat(*spore);
            let ghost total0 = targets_total(pend, n0, cs, fan, k as nat);
            if spore.ttl > 0 {
                let current = current_node(spore);
                proof {
                    seat = current;
                }
                if current < n {
                    let sel = select_targets(
                        &self.nodes[current].neighbors,
                        &spore.visited,
                        self.config.fanout,
                        spore.id,
                        spore.generation,
                    );
                    let ghost nbrs = self.nodes@[current as int].neighbors@;
                    proof {
                        lemma_gossip_targets(nbrs, spore.visited@, self.config.fanout as nat, spore.id, spore.generation);
                        assert(self.nodes@[current as int].neighbors == n0[current as int].neighbors);
                        assert(round_targets(pend[k as int], n0, current, fan) == sel@);
                    }
                    let mut t: usize = 0;
                    while t < sel.len()
                        invariant
                            self.wf(),
                            self.config == old(self).config,
                            self.total_spores_originated == old(self).total_spores_originated,
                            n == n0.len() == self.nodes@.len(),
                            pend == work@,
                            k < pend.len(),
                            *spore == pend[k as int],
                            spore.ttl > 0,
                            spore.generation < usize::MAX,
                            current == spore.source || spore.visited@.contains(current),
                            current < n,
                            nbrs == self.nodes@[current as int].neighbors@,
                            nbrs == n0[current as int].neighbors@,
                            forall|x: usize| #[trigger] sel@.contains(x) ==> nbrs.contains(x) && !spore.visited@.contains(x),
                            t <= sel@.len(),
                            gossip_step(n0, self.nodes@, pend),
                            fan == self.config.fanout,
                            cs.len() == k,
                            seat == current,
                            sel@ == round_targets(pend[k as int], n0, current, fan),
                            evs == round_events(pend, n0, cs, fan, k as nat) + sel@.take(t as int).map_values(
                                |x: usize| (k as int, x),
                            ),
                            deliveries_made(pend, evs, states, new_pending@),
                            states[0] == n0,
                            states[evs.len() as int] == self.nodes@,
                            total0 == targets_total(pend, n0, cs, fan, k as nat),
                            messages == saturated((total0 + t) as nat),
                            forall|q: int, x: usize|
                                0 <= q < k && #[trigger] round_targets(pend[q], n0, cs[q], fan).contains(x) ==> x < n
                                    && self.nodes@[x as int].data@.contains_key(pend[q].id),
                            targets_hold(self.nodes@, sel@, t as nat, spore.id),
                            new_pending@.len() <= messages,
                            forall|j: int| 0 <= j < new_pending@.len() ==> exists|q: int|
                                0 <= q < k + 1 && descends(#[trigger] pend[q], #[trigger] new_pending@[j], self.nodes@),
                        decreases sel@.len() - t,
                    {
                        messages = messages.saturating_add(1);
                        let nb = sel[t];
                        proof {
                            assert(sel@.contains(nb));
                            let ix = choose|ix: int| 0 <= ix < nbrs.len() && nbrs[ix] == nb;
                            assert(self.nodes@[current as int].neighbors@[ix] < n);
                        }
                        let ghost before = self.nodes@;
                        let outcome = self.deliver(spore, nb);
                        proof {
                            assert forall|x: int, key: u64|
                                0 <= x < n && #[trigger] before[x].data@.contains_key(key) implies self.nodes@[x].data@.contains_key(
                                    key,
                                ) by {
                                if x != nb {
                                    assert(self.nodes@[x] == before[x]);
                                }
                            }
                            assert(self.nodes@[nb as int].data@.contains_key(spore.id));
                            assert forall|q: int, x: usize|
                                0 <= q < k && #[trigger] round_targets(pend[q], n0, cs[q], fan).contains(x) implies x < n
                                    && self.nodes@[x as int].data@.contains_key(pend[q].id) by {
                                assert(before[x as int].data@.contains_key(pend[q].id));
                            }
                            assert forall|i: int| 0 <= i < n0.len() implies (#[trigger] self.nodes@[i]).id == n0[i].id
                                && self.nodes@[i].neighbors == n0[i].neighbors by {
                                if i != nb {
                                    assert(self.nodes@[i] == before[i]);
                                }
                            }
                            assert forall|i: int, key: u64|
                                0 <= i < n0.len() && #[trigger] n0[i].data@.contains_key(key) implies self.nodes@[i].data@.contains_key(
                                    key,
                                ) by {
                                assert(before[i].data@.contains_key(key));
                                if i != nb {
                                    assert(self.nodes@[i] == before[i]);
                                }
                            }
                            assert forall|i: int, key: u64|
                                0 <= i < n0.len() && #[trigger] self.nodes@[i].data@.contains_key(key) implies (
                                n0[i].data@.contains_key(key) && self.nodes@[i].data@[key] == n0[i].data@[key]) || exists|q: int|
                                0 <= q < pend.len() && (#[trigger] pend[q]).id == key && pend[q].data@ == self.nodes@[i].data@[key]@ by {
                                if i != nb {
                                    assert(self.nodes@[i] == before[i]);
                                    assert(before[i].data@.contains_key(key));
                                } else if key == spore.id && accepts(before[nb as int], spore.id, (spore.generation + 1) as nat) {
                                    assert(pend[k as int].id == key);
                                } else {
                                    if accepts(before[nb as int], spore.id, (spore.generation + 1) as nat) {
                                        assert(self.nodes@[i].data@[key] == before[i].data@[key]);
                                    }
                                    assert(before[i].data@.contains_key(key));
                                }
                            }
                            assert(self.wf()) by {
                                assert forall|i: int, j2: int|
                                    0 <= i < self.nodes@.len() && 0 <= j2 < self.nodes@[i].neighbors@.len() implies #[trigger] self.nodes@[i].neighbors@[j2]
                                        < self.nodes@.len() by {
                                    assert(self.nodes@[i].neighbors == n0[i].neighbors);
                                    assert(before[i].neighbors == n0[i].neighbors);
                                    assert(before[i].neighbors@[j2] < n);
                                }
                            }
                            assert forall|q: int, j: int|
                                0 <= q < pend.len() && 0 <= j < new_pending@.len() && #[trigger] descends(pend[q], #[trigger] new_pending@[j], before)
                                    implies descends(pend[q], new_pending@[j], self.nodes@) by {
                                let (c, x) = choose|c: usize, x: usize| #[trigger] hop(pend[q], new_pending@[j], before, c, x);
                                assert(self.nodes@[c as int].neighbors == n0[c as int].neighbors);
                                assert(before[c as int].neighbors == n0[c as int].neighbors);
                                assert(hop(pend[q], new_pending@[j], self.nodes@, c, x));
                            }
                        }
                        let ghost np_before = new_pending@;
                        match outcome {
                            Some(next) => {
                                let ghost np0 = new_pending@;
                                new_pending.push(next);
                                proof {
                                    assert(new_pending@.len() == new_pending.len());
                                    assert(self.nodes@[current as int].neighbors@ == nbrs) by {
                                        assert(self.nodes@[current as int].neighbors == n0[current as int].neighbors);
                                    }
                                    assert(hop(pend[k as int], new_pending@[np0.len() as int], self.nodes@, current, nb));
                                    assert(descends(pend[k as int], new_pending@[np0.len() as int], self.nodes@));
                                    assert forall|j: int| 0 <= j < new_pending@.len() implies exists|q: int|
                                        0 <= q < k + 1 && descends(#[trigger] pend[q], #[trigger] new_pending@[j], self.nodes@) by {
                                        if j < np0.len() {
                                            assert(new_pending@[j] == np0[j]);
                                        }
                                    }
                                }
                            },
                            None => {},
                        }
                        proof {
                            assert(self.nodes@.len() == n);
                            assert forall|u: int| #![trigger sel@[u]] 0 <= u < t + 1 implies sel@[u] < self.nodes@.len()
                                && self.nodes@[sel@[u] as int].data@.contains_key(spore.id) by {
                                if u < t {
                                    let x = sel@[u];
                                    assert(sel@.contains(x));
                                    let ix = choose|ix: int| 0 <= ix < nbrs.len() && nbrs[ix] == x;
                                    assert(before[current as int].neighbors@[ix] < n);
                                    assert(x < n && before[x as int].data@.contains_key(spore.id));
                                    assert(self.nodes@[x as int].data@.contains_key(spore.id));
                                } else {
                                    assert(sel@[u] == nb);
                                    assert(sel@.contains(nb));
                                    let ix = choose|ix: int| 0 <= ix < nbrs.len() && nbrs[ix] == nb;
                                    assert(before[current as int].neighbors@[ix] < n);
                                }
                            }
                            assert(self.nodes@.len() == n);
                            assert(targets_hold(self.nodes@, sel@, (t + 1) as nat, spore.id));
                        }
                        proof {
                            assert(states[evs.len() as int] == before);
                            assert(pend[k as int] == *spore);
                            if accepts(before[nb as int], spore.id, (spore.generation + 1) as nat) {
                                assert(outcome is Some);
                                assert(new_pending@.drop_last() =~= np_before);
                                assert(new_pending@.last() == outcome->0);
                                assert(forwarded(*spore, new_pending@.last(), nb));
                            } else {
                                assert(outcome is None);
                                assert(new_pending@ == np_before);
                            }
                            lemma_deliveries_extend(pend, evs, states, np_before, (k as int, nb), self.nodes@, new_pending@);
                            let ev0 = evs;
                            evs = evs.push((k as int, nb));
                            states = states.push(self.nodes@);
                            assert(sel@.take(t + 1).map_values(|x: usize| (k as int, x)) =~= sel@.take(t as int).map_values(
                                |x: usize| (k as int, x),
                            ).push((k as int, nb)));
                            assert(evs =~= round_events(pend, n0, cs, fan, k as nat) + sel@.take(t + 1).map_values(
                                |x: usize| (k as int, x),
                            ));
                        }
                        t = t + 1;
                    }
                }
            }
            proof {
                let cs1 = cs.push(seat);
                lemma_targets_total_prefix(pend, n0, cs, cs1, fan, k as nat);
                assert(sits_on(pend[k as int], seat));
                assert forall|q: int, x: usize|
                    0 <= q < k + 1 && #[trigger] round_targets(pend[q], n0, cs1[q], fan).contains(x) implies x < n
                        && self.nodes@[x as int].data@.contains_key(pend[q].id) by {
                    if q < k {
                        assert(cs1[q] == cs[q]);
                    } else {
                        let rt = round_targets(pend[q], n0, cs1[q], fan);
                        let u = choose|u: int| 0 <= u < rt.len() && rt[u] == x;
                    }
                }
                lemma_round_events_prefix(pend, n0, cs, cs1, fan, k as nat);
                assert(evs =~= round_events(pend, n0, cs1, fan, (k + 1) as nat));
                cs = cs1;
            }
            k = k + 1;
        }
        let ghost fresh = new_pending@;
        *pending = new_pending;
        proof {
            lemma_targets_total_bound(pend, n0, cs, fan, pend.len());
            assert(round_exact(n0, self.nodes@, pend, cs, fan, states, fresh));
            assert(pend.len() * fan == pend.len() * self.config.fanout);
            assert(round_plan(n0, self.nodes@, pend, cs, fan, messages as nat));
            assert(pending@ == fresh);
            assert(pend == old(pending)@);
            assert(all_descend(pend, pending@, n0)) by {
                assert forall|j: int| 0 <= j < pending@.len() implies #[trigger] descends_from(pend, pending@[j], n0) by {
                    assert(fresh[j] == pending@[j]);
                    let q = choose|q: int| 0 <= q < pend.len() && descends(#[trigger] pend[q], #[trigger] fresh[j], self.nodes@);
                    let (c, x) = choose|c: usize, x: usize| #[trigger] hop(pend[q], fresh[j], self.nodes@, c, x);
                    assert(self.nodes@[c as int].neighbors == n0[c as int].neighbors);
                    assert(hop(pend[q], pending@[j], n0, c, x));
                    assert(descends(pend[q], pending@[j], n0));
                }
            }
        }
        messages
    }

    /// The current convergence: the fraction of (node, id) pairs held, over all nodes and
    /// every id held anywhere (one when there is no node or no id).
    pub fn compute_convergence(&self) -> (r: Ratio)
        ensures
            r == convergence_of(self.nodes@),
    {
        let n = self.nodes.len();
        if n == 0 {
            return Ratio { numerator: 1, denominator: 1 };
        }
        let mut ids: HashSet<u64> = HashSet::new();
        let mut have: u128 = 0;
        let mut i: usize = 0;
        while i < n
            invariant
                n == self.nodes@.len(),
                i <= n,
                ids@ == ids_held(self.nodes@, i as nat),
                have == pairs_held(self.nodes@, i as nat),
                have <= i * 0xffff_ffff_ffff_ffffu128,
            decreases n - i,
        {
            let node = &self.nodes[i];
            let held = node.data.len();
            proof {
                assert(held <= 0xffff_ffff_ffff_ffffu128);
                assert(have + held <= (i + 1) * 0xffff_ffff_ffff_ffffu128) by (nonlinear_arith)
                    requires
                        have <= i * 0xffff_ffff_ffff_ffffu128,
                        held <= 0xffff_ffff_ffff_ffffu128,
                ;
            }
            have = have + held as u128;
            let ghost before = ids@;
            let ghost dom = node.data@.dom();
            for key in it: node.data.keys()
                invariant
                    dom == node.data@.dom(),
                    it.seq().unref().to_set() == dom,
                    forall|v: u64| #[trigger] ids@.contains(v) ==> before.contains(v) || dom.contains(v),
                    forall|v: u64| #[trigger] before.contains(v) ==> ids@.contains(v),
                    forall|v: u64|
                        #[trigger] dom.contains(v) ==> ids@.contains(v) || exists|q: int|
                            it.index() <= q < it.seq().len() && it.seq().unref()[q] == v,
            {
                proof {
                    assert(it.seq().unref()[it.index() as int] == *key);
                    assert(it.seq().unref().contains(*key));
                }
                let ghost prev = ids@;
                ids.insert(*key);
                proof {
                    assert forall|v: u64|
                        #[trigger] dom.contains(v) implies ids@.contains(v) || exists|q: int|
                            it.index() + 1 <= q < it.seq().len() && it.seq().unref()[q] == v by {
                        if !prev.contains(v) && v != *key {
                            let q = choose|q: int| it.index() <= q < it.seq().len() && it.seq().unref()[q] == v;
                            assert(q != it.index());
                        }
                    }
                }
            }
            proof {
                assert(ids@ =~= before.union(dom));
            }
            i = i + 1;
        }
        let count = ids.len();
        if count == 0 {
            return Ratio { numerator: 1, denominator: 1 };
        }
        proof {
            assert(n * count <= 0xffff_ffff_ffff_ffffu128 * 0xffff_ffff_ffff_ffffu128) by (nonlinear_arith)
                requires
                    n <= 0xffff_ffff_ffff_ffffu128,
                    count <= 0xffff_ffff_ffff_ffffu128,
            ;
        }
        Ratio { numerator: have, denominator: (n as u128) * (count as u128) }
    }

    /// Run gossip rounds from `spores` until the convergence target is reached, no spore is
    /// left pending, or `max_rounds` rounds have run.
    pub fn run_until_convergence(&mut self, spores: Vec<Spore>, max_rounds: usize) -> (r: ConvergenceResult)
        requires
            old(self).wf(),
            forall|k: int| 0 <= k < spores@.len() ==> (#[trigger] spores@[k]).generation + spores@[k].ttl <= usize::MAX,
        ensures
            final(self).wf(),
            final(self).config == old(self).config,
            final(self).total_spores_originated == old(self).total_spores_originated,
            final(self).nodes@.len() == old(self).nodes@.len(),
            r.rounds <= max_rounds,
            r.convergence_history@.len() == r.rounds,
            r.convergence_ratio == convergence_of(final(self).nodes@),
            r.converged == reaches(r.convergence_ratio, old(self).config.convergence_target),
            forall|q: int| 0 <= q < r.rounds - 1 ==> !reaches(#[trigger] r.convergence_history@[q], old(self).config.convergence_target),
            r.rounds > 0 ==> r.convergence_history@[r.rounds - 1] == r.convergence_ratio,
            exists|nodes_tr: Seq<Seq<NodeState>>, pend_tr: Seq<Seq<Spore>>, msgs: Seq<nat>| #[trigger] run_record(
                nodes_tr,
                pend_tr,
                msgs,
                r,
                old(self).nodes@,
                spores@,
                final(self).nodes@,
                old(self).config.fanout as nat,
                max_rounds as nat,
            ),
    {
        let ghost sp0 = spores@;
        let ghost n00 = self.nodes@;
        let mut pending = spores;
        let mut rounds: usize = 0;
        let mut messages_sent: usize = 0;
        let mut history: Vec<Ratio> = Vec::new();
        let target = self.config.convergence_target;
        let ghost fan = self.config.fanout as nat;
        let ghost mut nodes_tr: Seq<Seq<NodeState>> = seq![self.nodes@];
        let ghost mut pend_tr: Seq<Seq<Spore>> = seq![pending@];
        let ghost mut msgs: Seq<nat> = seq![];
        let mut round: usize = 0;
        while round < max_rounds
            invariant
                fan == self.config.fanout,
                n00 == old(self).nodes@,
                sp0 == spores@,
                gossip_run(nodes_tr, pend_tr, msgs, rounds as nat, fan),
                nodes_tr[0] == n00,
                pend_tr[0] == sp0,
                nodes_tr[rounds as int] == self.nodes@,
                pend_tr[rounds as int] == pending@,
                messages_sent == saturated(sum_of(msgs)),
                forall|q: int| 0 <= q < rounds ==> #[trigger] history@[q] == convergence_of(nodes_tr[q + 1]),
                self.wf(),
                self.config == old(self).config,
                self.total_spores_originated == old(self).total_spores_originated,
                self.nodes@.len() == old(self).nodes@.len(),
                target == old(self).config.convergence_target,
                forall|k: int| 0 <= k < pending@.len() ==> (#[trigger] pending@[k]).generation + pending@[k].ttl <= usize::MAX,
                round <= max_rounds,
                rounds == round,
                history@.len() == rounds,
                forall|q: int| 0 <= q < rounds ==> !reaches(#[trigger] history@[q], target),
                rounds > 0 ==> history@[rounds - 1] == convergence_of(self.nodes@),
            ensures
                rounds == max_rounds || pending@.len() == 0,
                fan == self.config.fanout,
                gossip_run(nodes_tr, pend_tr, msgs, rounds as nat, fan),
                nodes_tr[0] == n00,
                pend_tr[0] == sp0,
                nodes_tr[rounds as int] == self.nodes@,
                pend_tr[rounds as int] == pending@,
                messages_sent == saturated(sum_of(msgs)),
                forall|q: int| 0 <= q < rounds ==> #[trigger] history@[q] == convergence_of(nodes_tr[q + 1]),
                self.wf(),
                self.config == old(self).config,
                self.total_spores_originated == old(self).total_spores_originated,
                self.nodes@.len() == old(self).nodes@.len(),
                target == old(self).config.convergence_target,
                rounds <= max_rounds,
                history@.len() == rounds,
                forall|q: int| 0 <= q < rounds ==> !reaches(#[trigger] history@[q], target),
                rounds > 0 ==> history@[rounds - 1] == convergence_of(self.nodes@),
            decreases max_rounds - round,
        {
            if pending.len() == 0 {
                break;
            }
            let ghost rounds_before = rounds;
            let ghost before = pending@;
            let ghost nodes_before = self.nodes@;
            let msg = self.gossip_round(&mut pending);
            proof {
                assert forall|k: int| 0 <= k < pending@.len() implies (#[trigger] pending@[k]).generation + pending@[k].ttl
                    <= usize::MAX by {
                    assert(descends_from(before, pending@[k], nodes_before));
                    let q = choose|q: int| 0 <= q < before.len() && #[trigger] descends(before[q], pending@[k], nodes_before);
                    assert(before[q].generation + before[q].ttl <= usize::MAX);
                }
            }
            let ghost nt0 = nodes_tr;
            let ghost pt0 = pend_tr;
            let ghost ms0 = msgs;
            proof {
                nodes_tr = nodes_tr.push(self.nodes@);
                pend_tr = pend_tr.push(pending@);
                msgs = msgs.push(msg as nat);
                assert(msgs.drop_last() =~= ms0);
                assert(round_step(nodes_before, self.nodes@, before, pending@, fan, msg as nat));
                assert forall|q: int| 0 <= q < rounds + 1 implies #[trigger] pend_tr[q].len() > 0 && round_step(
                    nodes_tr[q],
                    nodes_tr[q + 1],
                    pend_tr[q],
                    pend_tr[q + 1],
                    fan,
                    msgs[q],
                ) by {
                    if q < rounds {
                        assert(pt0[q].len() > 0 && round_step(nt0[q], nt0[q + 1], pt0[q], pt0[q + 1], fan, ms0[q]));
                        assert(nodes_tr[q] == nt0[q] && nodes_tr[q + 1] == nt0[q + 1]);
                        assert(pend_tr[q] == pt0[q] && pend_tr[q + 1] == pt0[q + 1] && msgs[q] == ms0[q]);
                    } else {
                        assert(nodes_tr[q] == nodes_before && pend_tr[q] == before);
                    }
                }
            }
            messages_sent = messages_sent.saturating_add(msg);
            rounds = round + 1;
            let convergence = self.compute_convergence();
            let ghost h0 = history@;
            history.push(convergence);
            proof {
                assert forall|q: int| 0 <= q < rounds implies #[trigger] history@[q] == convergence_of(nodes_tr[q + 1]) by {
                    if q < rounds - 1 {
                        assert(history@[q] == h0[q]);
                        assert(nodes_tr[q + 1] == nt0[q + 1]);
                    }
                }
            }
            if convergence.at_least(&target) {
                let res = ConvergenceResult {
                    rounds,
                    convergence_ratio: convergence,
                    messages_sent,
                    converged: true,
                    convergence_history: history,
                };
                proof {
                    assert(run_record(nodes_tr, pend_tr, msgs, res, n00, sp0, self.nodes@, fan, max_rounds as nat));
                }
                return res;
            }
            round = round + 1;
        }
        let convergence = self.compute_convergence();
        let converged = convergence.at_least(&target);
        let res = ConvergenceResult { rounds, convergence_ratio: convergence, messages_sent, converged, convergence_history: history };
        proof {
            assert(run_record(nodes_tr, pend_tr, msgs, res, n00, sp0, self.nodes@, fan, max_rounds as nat));
        }
        res
    }
}

} // verus!
