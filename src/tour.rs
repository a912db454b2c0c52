//! Cyclic tour cost and 2-opt tour improvement over a [`DistanceMatrix`].
use crate::matrix::DistanceMatrix;
use vstd::prelude::*;
use vstd::arithmetic::div_mod::lemma_small_mod;
use vstd::set_lib::{lemma_int_range, lemma_len_subset, set_int_range};

verus! {

/// A tour names each node of the table at most once.
pub open spec fn valid_tour(m: DistanceMatrix, t: Seq<usize>) -> bool {
    &&& t.no_duplicates()
    &&& forall|k: int| 0 <= k < t.len() ==> #[trigger] t[k] < m.dim()
}

/// Cost of the `k` first edges of the cycle, edge `i` going from `t[i]` to
/// `t[(i + 1) % len]`.
pub open spec fn cyclic_sum(m: DistanceMatrix, t: Seq<usize>, k: int) -> int
    decreases k,
{
    if k <= 0 {
        0
    } else {
        cyclic_sum(m, t, k - 1) + m.spec_cost(t[k - 1] as int, t[k % (t.len() as int)] as int)
    }
}

/// Total cost of a tour, including the edge back to its start.
pub open spec fn tour_cost(m: DistanceMatrix, t: Seq<usize>) -> int {
    cyclic_sum(m, t, t.len() as int)
}

/// Cost of the open path through `s`.
pub open spec fn path_cost(m: DistanceMatrix, s: Seq<usize>) -> int
    decreases s.len(),
{
    if s.len() <= 1 {
        0
    } else {
        path_cost(m, s.drop_last()) + m.spec_cost(s[s.len() - 2] as int, s.last() as int)
    }
}

/// Change of the tour cost when edges `(i, i+1)` and `(j, j+1)` are replaced
/// by `(i, j)` and `(i+1, j+1)`, positions taken around the cycle.
pub open spec fn swap_delta(m: DistanceMatrix, t: Seq<usize>, i: int, j: int) -> int {
    let n = t.len() as int;
    m.spec_cost(t[i] as int, t[j] as int) + m.spec_cost(t[i + 1] as int, t[(j + 1) % n] as int)
        - m.spec_cost(t[i] as int, t[i + 1] as int) - m.spec_cost(
        t[j] as int,
        t[(j + 1) % n] as int,
    )
}

/// Where position `k` reads from after the segment `i+1 ..= j` is reversed.
pub open spec fn reflect(i: int, j: int, k: int) -> int {
    if i < k <= j {
        i + 1 + j - k
    } else {
        k
    }
}

/// `t` with the segment `i+1 ..= j` reversed.
pub open spec fn swapped(t: Seq<usize>, i: int, j: int) -> Seq<usize> {
    Seq::new(t.len(), |k: int| t[reflect(i, j, k)])
}

/// No 2-opt exchange lowers the cost of the tour.
pub open spec fn two_opt_optimal(m: DistanceMatrix, t: Seq<usize>) -> bool {
    forall|i: int, j: int|
        0 <= i && i + 2 <= j < t.len() ==> #[trigger] swap_delta(m, t, i, j) >= 0
}

/// What one run of [`two_opt`] with budget `max_iters` guarantees of the
/// tour `after` it leaves, given the tour `before`.
pub open spec fn improved_from(
    m: DistanceMatrix,
    before: Seq<usize>,
    max_iters: nat,
    after: Seq<usize>,
) -> bool {
    &&& after.len() == before.len()
    &&& valid_tour(m, after)
    &&& after.to_set() == before.to_set()
    &&& tour_cost(m, after) <= tour_cost(m, before)
    &&& (two_opt_optimal(m, before) ==> after == before)
    &&& (max_iters == 0 ==> after == before)
    &&& (!two_opt_optimal(m, after) ==> tour_cost(m, after) + max_iters <= tour_cost(m, before))
}

proof fn lemma_tour_len(m: DistanceMatrix, t: Seq<usize>)
    requires
        m.wf(),
        valid_tour(m, t),
    ensures
        t.len() <= m.dim(),
{
    let ti = t.map_values(|x: usize| x as int);
    assert(ti.no_duplicates()) by {
        assert forall|a: int, b: int| 0 <= a < ti.len() && 0 <= b < ti.len() && a != b implies ti[a]
            != ti[b] by {
            assert(t[a] != t[b]);
        }
    }
    ti.unique_seq_to_set();
    lemma_int_range(0, m.dim() as int);
    assert(ti.to_set().subset_of(set_int_range(0, m.dim() as int))) by {
        assert forall|x: int| ti.to_set().contains(x) implies set_int_range(
            0,
            m.dim() as int,
        ).contains(x) by {
            let k = choose|k: int| 0 <= k < ti.len() && ti[k] == x;
            assert(t[k] < m.dim());
        }
    }
    lemma_len_subset(ti.to_set(), set_int_range(0, m.dim() as int));
}

proof fn lemma_cyclic_sum_bound(m: DistanceMatrix, t: Seq<usize>, k: int)
    requires
        0 <= k,
    ensures
        0 <= cyclic_sum(m, t, k) <= 255 * k,
    decreases k,
{
    if k > 0 {
        lemma_cyclic_sum_bound(m, t, k - 1);
    }
}

/// The cyclic sum over a prefix is the open path cost of one more node.
proof fn lemma_cyclic_prefix(m: DistanceMatrix, t: Seq<usize>, k: int)
    requires
        0 <= k < t.len(),
    ensures
        cyclic_sum(m, t, k) == path_cost(m, t.take(k + 1)),
    decreases k,
{
    if k > 0 {
        lemma_cyclic_prefix(m, t, k - 1);
        lemma_small_mod(k as nat, t.len());
        assert(t.take(k + 1).drop_last() =~= t.take(k));
    }
}

/// The tour cost counts the edge from the last node back to the first: it
/// is the cost of the open path plus that closing edge.
pub proof fn lemma_tour_as_path(m: DistanceMatrix, t: Seq<usize>)
    requires
        t.len() >= 1,
    ensures
        tour_cost(m, t) == path_cost(m, t) + m.spec_cost(t.last() as int, t[0] as int),
{
    let n = t.len() as int;
    lemma_cyclic_prefix(m, t, n - 1);
    assert(t.take(n) =~= t);
    assert(n % n == 0) by (nonlinear_arith)
        requires
            n >= 1,
    ;
}

proof fn lemma_path_concat(m: DistanceMatrix, a: Seq<usize>, b: Seq<usize>)
    requires
        a.len() >= 1,
        b.len() >= 1,
    ensures
        path_cost(m, a + b) == path_cost(m, a) + m.spec_cost(a.last() as int, b[0] as int)
            + path_cost(m, b),
    decreases b.len(),
{
    if b.len() == 1 {
        assert((a + b).drop_last() =~= a);
    } else {
        lemma_path_concat(m, a, b.drop_last());
        assert((a + b).drop_last() =~= a + b.drop_last());
    }
}

proof fn lemma_path_reverse(m: DistanceMatrix, s: Seq<usize>)
    ensures
        path_cost(m, s.reverse()) == path_cost(m, s),
    decreases s.len(),
{
    if s.len() >= 2 {
        let init = s.drop_last();
        lemma_path_reverse(m, init);
        assert(s.reverse() =~= seq![s.last()] + init.reverse());
        lemma_path_concat(m, seq![s.last()], init.reverse());
    }
}

/// Reversing the segment `i+1 ..= j` changes the tour cost by exactly
/// [`swap_delta`].
pub proof fn lemma_swap_delta(m: DistanceMatrix, t: Seq<usize>, i: int, j: int)
    requires
        0 <= i,
        i + 2 <= j < t.len(),
    ensures
        tour_cost(m, swapped(t, i, j)) == tour_cost(m, t) + swap_delta(m, t, i, j),
{
    let n = t.len() as int;
    let p = t.subrange(0, i + 1);
    let s = t.subrange(i + 1, j + 1);
    let q = t.subrange(j + 1, n);
    let u = swapped(t, i, j);
    lemma_tour_as_path(m, t);
    lemma_tour_as_path(m, u);
    lemma_path_reverse(m, s);
    lemma_path_concat(m, p, s);
    lemma_path_concat(m, p, s.reverse());
    if j + 1 < n {
        assert(t =~= p + s + q);
        assert(u =~= p + s.reverse() + q);
        lemma_path_concat(m, p + s, q);
        lemma_path_concat(m, p + s.reverse(), q);
        lemma_small_mod((j + 1) as nat, n as nat);
    } else {
        assert(t =~= p + s);
        assert(u =~= p + s.reverse());
        assert((j + 1) % n == 0);
    }
}

/// Total cost of the cyclic tour, the edge back to the start included.
pub fn calc_tour_cost(dm: &DistanceMatrix, tour: &Vec<usize>) -> (c: u64)
    requires
        dm.wf(),
        valid_tour(*dm, tour@),
    ensures
        c == tour_cost(*dm, tour@),
{
    let n = tour.len();
    proof {
        lemma_tour_len(*dm, tour@);
        assert(dm.dim() * dm.dim() <= usize::MAX);
        assert(n <= 0x1_0000_0000) by (nonlinear_arith)
            requires
                n <= dm.dim(),
                dm.dim() * dm.dim() <= usize::MAX,
                usize::MAX <= 0xffff_ffff_ffff_ffff,
        ;
    }
    let mut cost: u64 = 0;
    let mut u: usize = 0;
    while u < n
        invariant
            n == tour@.len(),
            n <= 0x1_0000_0000,
            dm.wf(),
            valid_tour(*dm, tour@),
            0 <= u <= n,
            cost == cyclic_sum(*dm, tour@, u as int),
        decreases n - u,
    {
        let v = (u + 1) % n;
        proof {
            lemma_cyclic_sum_bound(*dm, tour@, u + 1);
        }
        cost = cost + dm.cost(tour[u], tour[v]) as u64;
        u = u + 1;
    }
    cost
}

/// Reverses the segment `i+1 ..= j` of the tour, which replaces edges
/// `(i, i+1)` and `(j, j+1)` by `(i, j)` and `(i+1, j+1)`.
pub fn swap_edges(tour: &mut Vec<usize>, i: usize, j: usize)
    requires
        i < j < old(tour).len(),
    ensures
        final(tour)@ == swapped(old(tour)@, i as int, j as int),
{
    let ghost t = tour@;
    let mut lo = i + 1;
    let mut hi = j;
    while lo < hi
        invariant
            tour@.len() == t.len(),
            i < lo <= hi + 1,
            hi <= j < t.len(),
            lo - (i + 1) == j - hi,
            forall|k: int|
                0 <= k < t.len() ==> #[trigger] tour@[k] == if lo <= k <= hi {
                    t[k]
                } else {
                    t[reflect(i as int, j as int, k)]
                },
        decreases hi + 1 - lo,
    {
        let a = tour[lo];
        let b = tour[hi];
        tour.set(lo, b);
        tour.set(hi, a);
        lo = lo + 1;
        hi = hi - 1;
    }
    assert(tour@ =~= swapped(t, i as int, j as int));
}

proof fn lemma_swapped_keeps_tour(m: DistanceMatrix, t: Seq<usize>, i: int, j: int)
    requires
        valid_tour(m, t),
        0 <= i < j < t.len(),
    ensures
        valid_tour(m, swapped(t, i, j)),
        swapped(t, i, j).to_set() == t.to_set(),
{
    let u = swapped(t, i, j);
    assert forall|a: int, b: int| 0 <= a < u.len() && 0 <= b < u.len() && a != b implies u[a]
        != u[b] by {
        assert(t[reflect(i, j, a)] != t[reflect(i, j, b)]);
    }
    assert forall|k: int| 0 <= k < u.len() implies #[trigger] u[k] < m.dim() by {
        assert(t[reflect(i, j, k)] < m.dim());
    }
    assert forall|x: usize| u.to_set().contains(x) <==> t.to_set().contains(x) by {
        if u.to_set().contains(x) {
            let k = choose|k: int| 0 <= k < u.len() && u[k] == x;
            assert(t[reflect(i, j, k)] == x);
        }
        if t.to_set().contains(x) {
            let k = choose|k: int| 0 <= k < t.len() && t[k] == x;
            assert(u[reflect(i, j, k)] == x);
        }
    }
    assert(u.to_set() =~= t.to_set());
}

/// 2-opt local search: repeatedly replaces two edges by the two that
/// reconnect the tour the other way whenever that lowers its cost. Stops
/// after a pass without such a change, or after `max_iters` passes.
pub fn two_opt(dm: &DistanceMatrix, tour: &mut Vec<usize>, max_iters: usize)
    requires
        dm.wf(),
        valid_tour(*dm, old(tour)@),
        old(tour)@.len() >= 1,
    ensures
        improved_from(*dm, old(tour)@, max_iters as nat, final(tour)@),
{
    let ghost t0 = tour@;
    let n = tour.len();
    let mut improved = true;
    let mut iters: usize = 0;
    let mut cost: u64 = calc_tour_cost(dm, tour);
    proof {
        lemma_cyclic_sum_bound(*dm, t0, n as int);
    }
    while improved && iters < max_iters
        invariant
            dm.wf(),
            n == t0.len(),
            n >= 1,
            valid_tour(*dm, t0),
            tour@.len() == n,
            valid_tour(*dm, tour@),
            tour@.to_set() == t0.to_set(),
            cost == tour_cost(*dm, tour@),
            iters <= max_iters,
            improved ==> tour_cost(*dm, tour@) + iters <= tour_cost(*dm, t0),
            !improved ==> tour_cost(*dm, tour@) <= tour_cost(*dm, t0),
            !improved ==> two_opt_optimal(*dm, tour@),
            two_opt_optimal(*dm, t0) ==> tour@ == t0,
            two_opt_optimal(*dm, t0) && iters > 0 ==> !improved,
            iters == 0 ==> tour@ == t0,
        decreases max_iters - iters,
    {
        let ghost start = tour@;
        improved = false;
        let mut i: usize = 0;
        while i + 1 < n
            invariant
                dm.wf(),
                n == t0.len(),
                n >= 1,
                tour@.len() == n,
                valid_tour(*dm, tour@),
                tour@.to_set() == t0.to_set(),
                cost == tour_cost(*dm, tour@),
                i < n,
                two_opt_optimal(*dm, t0) && start == t0 ==> !improved,
                improved ==> tour_cost(*dm, tour@) < tour_cost(*dm, start),
                !improved ==> tour@ == start,
                !improved ==> forall|a: int, b: int|
                    0 <= a < i && a + 2 <= b < n ==> #[trigger] swap_delta(*dm, start, a, b) >= 0,
            decreases n - i,
        {
            let mut j: usize = i + 2;
            while j < n
                invariant
                    dm.wf(),
                    n == t0.len(),
                    n >= 1,
                    i + 1 < n,
                    tour@.len() == n,
                    valid_tour(*dm, tour@),
                    tour@.to_set() == t0.to_set(),
                    cost == tour_cost(*dm, tour@),
                    i + 2 <= j,
                    two_opt_optimal(*dm, t0) && start == t0 ==> !improved,
                    improved ==> tour_cost(*dm, tour@) < tour_cost(*dm, start),
                    !improved ==> tour@ == start,
                    !improved ==> forall|a: int, b: int|
                        0 <= a < i && a + 2 <= b < n ==> #[trigger] swap_delta(*dm, start, a, b)
                            >= 0,
                    !improved ==> forall|b: int|
                        i + 2 <= b < j ==> #[trigger] swap_delta(*dm, start, i as int, b) >= 0,
                decreases n - j,
            {
                let jn = (j + 1) % n;
                let a = dm.cost(tour[i], tour[j]) as i32;
                let b = dm.cost(tour[i + 1], tour[jn]) as i32;
                let c = dm.cost(tour[i], tour[i + 1]) as i32;
                let d = dm.cost(tour[j], tour[jn]) as i32;
                let cost_delta: i32 = a + b - c - d;
                assert(cost_delta == swap_delta(*dm, tour@, i as int, j as int));
                if cost_delta < 0 {
                    proof {
                        lemma_swap_delta(*dm, tour@, i as int, j as int);
                        lemma_swapped_keeps_tour(*dm, tour@, i as int, j as int);
                        lemma_cyclic_sum_bound(*dm, swapped(tour@, i as int, j as int), n as int);
                    }
                    swap_edges(tour, i, j);
                    cost = cost - ((0 - cost_delta) as u64);
                    improved = true;
                }
                j = j + 1;
            }
            i = i + 1;
        }
        iters = iters + 1;
    }
}

/// A 2-opt run never raises the tour cost.
pub proof fn lemma_two_opt_never_worse(
    m: DistanceMatrix,
    before: Seq<usize>,
    max_iters: nat,
    after: Seq<usize>,
)
    requires
        improved_from(m, before, max_iters, after),
    ensures
        tour_cost(m, after) <= tour_cost(m, before),
{
}

/// Running 2-opt a second time with the same budget changes nothing when
/// the first run ended at a 2-opt optimum (or had no budget at all).
pub proof fn lemma_two_opt_idempotent(
    m: DistanceMatrix,
    t0: Seq<usize>,
    max_iters: nat,
    t1: Seq<usize>,
    t2: Seq<usize>,
)
    requires
        improved_from(m, t0, max_iters, t1),
        improved_from(m, t1, max_iters, t2),
        two_opt_optimal(m, t1) || max_iters == 0,
    ensures
        t2 == t1,
{
}

/// A budget larger than the starting cost always suffices to reach a 2-opt
/// optimum, since every pass but the last lowers the cost.
pub proof fn lemma_budget_reaches_optimum(
    m: DistanceMatrix,
    before: Seq<usize>,
    max_iters: nat,
    after: Seq<usize>,
)
    requires
        improved_from(m, before, max_iters, after),
        max_iters > tour_cost(m, before),
    ensures
        two_opt_optimal(m, after),
{
    if !two_opt_optimal(m, after) {
        lemma_cyclic_sum_bound(m, after, after.len() as int);
    }
}

} // verus!
