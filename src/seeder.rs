//! Single-source shortest paths over the complete graph on a working set of
//! table nodes, used to seed tour construction.
use crate::frontier::Frontier;
use crate::matrix::{DistanceMatrix, INFINITY};
use vstd::prelude::*;
use vstd::set_lib::{lemma_int_range, lemma_len_subset, set_int_range};

verus! {

/// A node of one route computation: its row in the distance table and its
/// slot in the working set.
#[derive(PartialEq, Eq, Structural, Hash, Debug, Clone, Copy)]
pub struct Node {
    pub dm_index: usize,
    pub graph_index: usize,
}

/// The placeholder predecessor of nodes that have none.
pub open spec fn empty_node() -> Node {
    Node { dm_index: 0, graph_index: 0 }
}

impl Node {
    pub fn new(dm_index: usize, graph_index: usize) -> (n: Node)
        ensures
            n.dm_index == dm_index,
            n.graph_index == graph_index,
    {
        Node { dm_index, graph_index }
    }
}

/// Addition that stops at the largest cost instead of wrapping.
pub open spec fn sat_add(a: u8, b: u8) -> u8 {
    if a + b > 255 {
        255
    } else {
        (a + b) as u8
    }
}

/// Cost between working-set slots `a` and `b`.
pub open spec fn slot_cost(m: DistanceMatrix, inds: Seq<u8>, a: int, b: int) -> u8 {
    m.spec_cost(inds[a] as int, inds[b] as int)
}

/// What the seeder returns for the working set `inds`, the source being
/// slot 0: `dist` is closed under every edge (no edge shortens any
/// distance, sums saturating), every finite distance but the source's is
/// reached through its recorded predecessor, and the predecessor links lead
/// back to the source. Unreached slots keep the largest cost and the
/// placeholder predecessor.
pub open spec fn seeded(m: DistanceMatrix, inds: Seq<u8>, dist: Seq<u8>, prev: Seq<Node>) -> bool {
    let n = inds.len() as int;
    &&& dist.len() == n
    &&& prev.len() == n
    &&& dist[0] == 0
    &&& prev[0] == empty_node()
    &&& forall|a: int, b: int|
        0 <= a < n && 0 <= b < n && a != b ==> #[trigger] dist[b] <= sat_add(
            #[trigger] dist[a],
            slot_cost(m, inds, a, b),
        )
    &&& forall|b: int|
        0 < b < n && dist[b] < INFINITY ==> #[trigger] reached_through(m, inds, dist, prev, b)
    &&& forall|b: int| 0 <= b < n && #[trigger] dist[b] == INFINITY ==> prev[b] == empty_node()
    &&& exists|rank: Seq<nat>| #[trigger] ranked(n, dist, prev, rank)
}

/// `rank` orders the predecessor links: following them from any slot with a
/// finite distance strictly lowers the rank, so it ends at the source.
pub open spec fn ranked(n: int, dist: Seq<u8>, prev: Seq<Node>, rank: Seq<nat>) -> bool {
    &&& rank.len() == n
    &&& forall|b: int|
        0 < b < n && dist[b] < INFINITY ==> rank[(#[trigger] prev[b]).graph_index as int]
            < rank[b]
}

/// Slot `b` is reached from its predecessor `p`, a different slot, along one
/// edge.
pub open spec fn reached_through(
    m: DistanceMatrix,
    inds: Seq<u8>,
    dist: Seq<u8>,
    prev: Seq<Node>,
    b: int,
) -> bool {
    let p = prev[b].graph_index as int;
    &&& 0 <= p < inds.len()
    &&& p != b
    &&& prev[b].dm_index == inds[p]
    &&& dist[b] == dist[p] + slot_cost(m, inds, p, b)
}

/// A walk over working-set slots that starts at the source, slot 0.
pub open spec fn is_walk(n: int, w: Seq<int>) -> bool {
    &&& w.len() >= 1
    &&& w[0] == 0
    &&& forall|k: int| 0 <= k < w.len() ==> 0 <= #[trigger] w[k] < n
}

/// Cost of a walk: the sum of the costs of its steps.
pub open spec fn walk_cost(m: DistanceMatrix, inds: Seq<u8>, w: Seq<int>) -> int
    decreases w.len(),
{
    if w.len() <= 1 {
        0
    } else {
        walk_cost(m, inds, w.drop_last()) + slot_cost(m, inds, w[w.len() - 2], w.last()) as int
    }
}

/// No walk from the source reaches a slot for less than its seeded
/// distance.
pub proof fn lemma_no_shorter_walk(
    m: DistanceMatrix,
    inds: Seq<u8>,
    dist: Seq<u8>,
    prev: Seq<Node>,
    w: Seq<int>,
)
    requires
        seeded(m, inds, dist, prev),
        is_walk(inds.len() as int, w),
    ensures
        dist[w.last()] <= walk_cost(m, inds, w),
    decreases w.len(),
{
    if w.len() > 1 {
        let init = w.drop_last();
        assert(is_walk(inds.len() as int, init));
        lemma_no_shorter_walk(m, inds, dist, prev, init);
        let a = w[w.len() - 2];
        let b = w.last();
        assert(init.last() == a);
        if a != b {
            assert(dist[b] <= sat_add(dist[a], slot_cost(m, inds, a, b)));
        }
    }
}

proof fn lemma_walk_to(
    m: DistanceMatrix,
    inds: Seq<u8>,
    dist: Seq<u8>,
    prev: Seq<Node>,
    rank: Seq<nat>,
    b: int,
)
    requires
        seeded(m, inds, dist, prev),
        ranked(inds.len() as int, dist, prev, rank),
        0 <= b < inds.len(),
        dist[b] < INFINITY,
    ensures
        exists|w: Seq<int>|
            is_walk(inds.len() as int, w) && w.last() == b && walk_cost(m, inds, w) == dist[b],
    decreases rank[b],
{
    let n = inds.len() as int;
    if b == 0 {
        let w = seq![0int];
        assert(is_walk(n, w) && w.last() == b && walk_cost(m, inds, w) == dist[b]);
    } else {
        assert(reached_through(m, inds, dist, prev, b));
        let p = prev[b].graph_index as int;
        lemma_walk_to(m, inds, dist, prev, rank, p);
        let w0 = choose|w: Seq<int>|
            is_walk(n, w) && w.last() == p && walk_cost(m, inds, w) == dist[p];
        let w = w0.push(b);
        assert(w.drop_last() =~= w0);
        assert(is_walk(n, w) && w.last() == b && walk_cost(m, inds, w) == dist[b]);
    }
}

/// Every finite seeded distance is the cost of a walk from the source;
/// with the walk bound above, it is the least such cost.
pub proof fn lemma_distance_is_walk_cost(
    m: DistanceMatrix,
    inds: Seq<u8>,
    dist: Seq<u8>,
    prev: Seq<Node>,
    b: int,
)
    requires
        seeded(m, inds, dist, prev),
        0 <= b < inds.len(),
        dist[b] < INFINITY,
    ensures
        exists|w: Seq<int>|
            is_walk(inds.len() as int, w) && w.last() == b && walk_cost(m, inds, w) == dist[b],
{
    let rank = choose|rank: Seq<nat>| ranked(inds.len() as int, dist, prev, rank);
    lemma_walk_to(m, inds, dist, prev, rank, b);
}

/// Relaxes an edge: the distance through it, when that is strictly smaller
/// than `dist_v`. The sum saturates, so an unreachable node never improves
/// anything.
pub fn relax(dist_u: u8, cost: u8, dist_v: u8) -> (r: Option<u8>)
    ensures
        r == (if sat_add(dist_u, cost) < dist_v {
            Some(sat_add(dist_u, cost))
        } else {
            None::<u8>
        }),
{
    let alt = dist_u.saturating_add(cost);
    if alt < dist_v {
        Some(alt)
    } else {
        None
    }
}

/// An edge from a node at the largest distance is never an improvement.
pub proof fn lemma_saturated_never_improves(cost: u8, dist_v: u8)
    ensures
        sat_add(INFINITY, cost) == INFINITY,
        !(sat_add(INFINITY, cost) < dist_v),
{
}

/// Dijkstra's algorithm from slot 0 over the working set `inds` (rows of the
/// table). Returns the distance of each slot and its predecessor node.
pub fn k_dijkstra(dm: &DistanceMatrix, inds: Vec<u8>) -> (r: (Vec<u8>, Vec<Node>))
    requires
        dm.wf(),
        inds.len() >= 1,
        forall|k: int| 0 <= k < inds.len() ==> #[trigger] inds[k] < dm.dim(),
    ensures
        seeded(*dm, inds@, r.0@, r.1@),
{
    let glen = inds.len();
    let mut dist: Vec<u8> = Vec::with_capacity(glen);
    let mut prev: Vec<Node> = Vec::with_capacity(glen);
    let mut frontier = Frontier::new(glen);
    let mut i: usize = 0;
    while i < glen
        invariant
            0 <= i <= glen,
            dist.len() == i,
            prev.len() == i,
            frontier.wf(),
            forall|k: int| 0 <= k < i ==> #[trigger] dist[k] == (if k == 0 {
                0u8
            } else {
                INFINITY
            }),
            forall|k: int| 0 <= k < i ==> #[trigger] prev[k] == empty_node(),
            forall|v: usize| #[trigger] frontier@.contains_key(v) <==> v < i,
            forall|v: usize| #[trigger] frontier@.contains_key(v) ==> frontier@[v] == dist[v as int],
        decreases glen - i,
    {
        let d: u8 = if i == 0 {
            0
        } else {
            INFINITY
        };
        dist.push(d);
        prev.push(Node::new(0, 0));
        frontier.insert(i, d);
        i = i + 1;
    }
    let ghost mut settled: Set<int> = Set::empty();
    let ghost mut rank: Seq<nat> = Seq::new(glen as nat, |k: int| 0nat);
    loop
        invariant
            dm.wf(),
            glen == inds.len(),
            glen >= 1,
            forall|k: int| 0 <= k < inds.len() ==> #[trigger] inds[k] < dm.dim(),
            dist.len() == glen,
            prev.len() == glen,
            frontier.wf(),
            settled.finite(),
            forall|x: int| #[trigger] settled.contains(x) ==> 0 <= x < glen,
            forall|v: usize| #[trigger]
                frontier@.contains_key(v) <==> (v < glen && !settled.contains(v as int)),
            forall|v: usize| #[trigger] frontier@.contains_key(v) ==> frontier@[v] == dist[v as int],
            dist[0] == 0,
            prev[0] == empty_node(),
            forall|a: int, b: int|
                #[trigger] settled.contains(a) && 0 <= b < glen && a != b ==> #[trigger] dist[b]
                    <= sat_add(dist[a], slot_cost(*dm, inds@, a, b)),
            forall|a: int, v: usize|
                #[trigger] settled.contains(a) && #[trigger] frontier@.contains_key(v) ==> dist[a]
                    <= dist[v as int],
            forall|b: int|
                0 < b < glen && dist[b] < INFINITY ==> settled.contains(
                    (#[trigger] prev[b]).graph_index as int,
                ) && reached_through(*dm, inds@, dist@, prev@, b),
            forall|b: int| 0 <= b < glen && #[trigger] dist[b] == INFINITY ==> prev[b] == empty_node(),
            rank.len() == glen,
            forall|a: int| #[trigger] settled.contains(a) ==> rank[a] < settled.len(),
            forall|b: int|
                0 < b < glen && dist[b] < INFINITY && #[trigger] settled.contains(b) ==> rank[prev[
                    b
                ].graph_index as int] < rank[b],
        ensures
            frontier@ == Map::<usize, u8>::empty(),
            settled.finite(),
            forall|v: int| 0 <= v < glen ==> #[trigger] settled.contains(v),
        decreases glen - settled.len(),
    {
        match frontier.extract_min() {
            None => {
                assert forall|v: int| 0 <= v < glen implies #[trigger] settled.contains(v) by {
                    assert(!frontier@.contains_key(v as usize));
                }
                break ;
            },
            Some((u, du)) => {
                proof {
                    lemma_int_range(0, glen as int);
                    lemma_len_subset(settled.insert(u as int), set_int_range(0, glen as int));
                    rank = rank.update(u as int, settled.len());
                    settled = settled.insert(u as int);
                }
                let mut v: usize = 0;
                while v < glen
                    invariant
                        dm.wf(),
                        glen == inds.len(),
                        glen >= 1,
                        forall|k: int| 0 <= k < inds.len() ==> #[trigger] inds[k] < dm.dim(),
                        dist.len() == glen,
                        prev.len() == glen,
                        frontier.wf(),
                        u < glen,
                        settled.contains(u as int),
                        dist[u as int] == du,
                        0 <= v <= glen,
                        settled.finite(),
                        forall|x: int| #[trigger] settled.contains(x) ==> 0 <= x < glen,
                        forall|w: usize| #[trigger]
                            frontier@.contains_key(w) <==> (w < glen && !settled.contains(w as int)),
                        forall|w: usize| #[trigger]
                            frontier@.contains_key(w) ==> frontier@[w] == dist[w as int],
                        dist[0] == 0,
                        prev[0] == empty_node(),
                        forall|a: int, b: int|
                            #[trigger] settled.contains(a) && a != u && 0 <= b < glen && a != b
                                ==> #[trigger] dist[b] <= sat_add(
                                dist[a],
                                slot_cost(*dm, inds@, a, b),
                            ),
                        forall|b: int|
                            0 <= b < v && b != u ==> #[trigger] dist[b] <= sat_add(
                                du,
                                slot_cost(*dm, inds@, u as int, b),
                            ),
                        forall|a: int| #[trigger] settled.contains(a) ==> dist[a] <= du,
                        forall|w: usize| #[trigger] frontier@.contains_key(w) ==> du <= dist[w as int],
                        forall|b: int|
                            0 < b < glen && dist[b] < INFINITY ==> settled.contains(
                                (#[trigger] prev[b]).graph_index as int,
                            ) && reached_through(*dm, inds@, dist@, prev@, b),
                        forall|b: int|
                            0 <= b < glen && #[trigger] dist[b] == INFINITY ==> prev[b]
                                == empty_node(),
                        rank.len() == glen,
                        forall|a: int| #[trigger] settled.contains(a) ==> rank[a] < settled.len(),
                        forall|b: int|
                            0 < b < glen && dist[b] < INFINITY && #[trigger] settled.contains(b)
                                ==> rank[prev[b].graph_index as int] < rank[b],
                    decreases glen - v,
                {
                    if v != u {
                        let c = dm.cost(inds[u] as usize, inds[v] as usize);
                        match relax(dist[u], c, dist[v]) {
                            Some(alt) => {
                                assert(!settled.contains(v as int));
                                dist.set(v, alt);
                                prev.set(v, Node::new(inds[u] as usize, u));
                                frontier.decrease_key(v, alt);
                            },
                            None => {},
                        }
                    }
                    v = v + 1;
                }
            },
        }
    }
    assert forall|a: int, b: int| 0 <= a < glen && 0 <= b < glen && a != b implies #[trigger] dist[b]
        <= sat_add(#[trigger] dist[a], slot_cost(*dm, inds@, a, b)) by {
        assert(settled.contains(a));
    }
    assert forall|b: int| 0 < b < glen && dist[b] < INFINITY implies #[trigger] reached_through(
        *dm,
        inds@,
        dist@,
        prev@,
        b,
    ) by {
        assert(settled.contains(prev[b].graph_index as int));
    }
    assert(ranked(glen as int, dist@, prev@, rank)) by {
        assert forall|b: int| 0 < b < glen && dist[b] < INFINITY implies rank[(
        #[trigger] prev[b]).graph_index as int] < rank[b] by {
            assert(settled.contains(b));
        }
    }
    (dist, prev)
}

} // verus!
