//! The shortest-path frontier: each live node holds one key, keys only
//! ever go down, and extraction hands out the smallest key, ties going to
//! the smallest node. It is kept in a `priority_queue::PriorityQueue`
//! hashed with [`NaiveXORHasherBuilder`]; the queue ranks entries by
//! `Reverse((key, node))`, so its greatest entry is the wanted one.
use crate::hash::NaiveXORHasherBuilder;
use core::cmp::Reverse;
use priority_queue::PriorityQueue;
use vstd::prelude::*;

verus! {

#[verifier::external_type_specification]
#[verifier::external_body]
#[verifier::reject_recursive_types(I)]
#[verifier::reject_recursive_types(P)]
#[verifier::reject_recursive_types(H)]
pub struct ExPriorityQueue<I, P, H>(PriorityQueue<I, P, H>);

#[verifier::external_type_specification]
#[verifier::external_body]
#[verifier::reject_recursive_types(T)]
pub struct ExReverse<T>(Reverse<T>);

/// The queue type the frontier is built on.
pub type NodeQueue = PriorityQueue<usize, Reverse<(u8, usize)>, NaiveXORHasherBuilder>;

/// What a queue holds: each item with the tuple inside its `Reverse`
/// priority.
pub uninterp spec fn queue_entries(
    q: PriorityQueue<usize, Reverse<(u8, usize)>, NaiveXORHasherBuilder>,
) -> Map<usize, (u8, usize)>;

/// The contents of an empty queue.
pub open spec fn no_entries() -> Map<usize, (u8, usize)> {
    Map::empty()
}

/// Lexicographic order of `(key, node)` tuples, as std orders tuples.
pub open spec fn pair_le(a: (u8, usize), b: (u8, usize)) -> bool {
    a.0 < b.0 || (a.0 == b.0 && a.1 <= b.1)
}

/// Relies on `PriorityQueue::with_capacity_and_default_hasher`: a new queue
/// is empty.
#[verifier::external_body]
fn queue_new(capacity: usize) -> (q: NodeQueue)
    ensures
        queue_entries(q) == no_entries(),
{
    PriorityQueue::with_capacity_and_default_hasher(capacity)
}

/// Relies on `PriorityQueue::push`: the item is inserted, or its priority is
/// replaced when it is already there.
#[verifier::external_body]
fn queue_push(q: &mut NodeQueue, item: usize, prio: (u8, usize))
    ensures
        queue_entries(*final(q)) == queue_entries(*old(q)).insert(item, prio),
{
    q.push(item, Reverse(prio));
}

/// Relies on `PriorityQueue::get_priority`: the item's priority, if the
/// item is there.
#[verifier::external_body]
fn queue_priority(q: &NodeQueue, item: usize) -> (r: Option<(u8, usize)>)
    ensures
        r == (if queue_entries(*q).contains_key(item) {
            Some(queue_entries(*q)[item])
        } else {
            None::<(u8, usize)>
        }),
{
    q.get_priority(&item).map(|p| p.0)
}

/// Relies on `PriorityQueue::pop`: removes and returns an entry of greatest
/// priority, which under `Reverse` is a smallest tuple; `None` when empty.
#[verifier::external_body]
fn queue_pop(q: &mut NodeQueue) -> (r: Option<(usize, (u8, usize))>)
    ensures
        match r {
            None => {
                &&& queue_entries(*old(q)) == no_entries()
                &&& queue_entries(*final(q)) == queue_entries(*old(q))
            },
            Some((item, prio)) => {
                &&& queue_entries(*old(q)).contains_key(item)
                &&& queue_entries(*old(q))[item] == prio
                &&& forall|j: usize| #[trigger]
                    queue_entries(*old(q)).contains_key(j) ==> pair_le(
                        prio,
                        queue_entries(*old(q))[j],
                    )
                &&& queue_entries(*final(q)) == queue_entries(*old(q)).remove(item)
            },
        },
{
    q.pop().map(|(i, p)| (i, p.0))
}

/// Relies on `PriorityQueue::is_empty`.
#[verifier::external_body]
fn queue_is_empty(q: &NodeQueue) -> (r: bool)
    ensures
        r <==> queue_entries(*q) == no_entries(),
{
    q.is_empty()
}

/// The effect of lowering `node` to `key`: only a node that is there, and
/// only to a strictly smaller key.
pub open spec fn decreased(m: Map<usize, u8>, node: usize, key: u8) -> Map<usize, u8> {
    if m.contains_key(node) && key < m[node] {
        m.insert(node, key)
    } else {
        m
    }
}

/// `m` after a run of key decreases, applied in order.
pub open spec fn after_decreases(m: Map<usize, u8>, ops: Seq<(usize, u8)>) -> Map<usize, u8>
    decreases ops.len(),
{
    if ops.len() == 0 {
        m
    } else {
        let last = ops.last();
        decreased(after_decreases(m, ops.drop_last()), last.0, last.1)
    }
}

/// `(node, key)` is an entry of `m` with the smallest key, and the smallest
/// node among entries with that key.
pub open spec fn is_min_entry(m: Map<usize, u8>, node: usize, key: u8) -> bool {
    &&& m.contains_key(node)
    &&& m[node] == key
    &&& forall|j: usize| #[trigger]
        m.contains_key(j) ==> key < m[j] || (key == m[j] && node <= j)
}

pub struct Frontier {
    queue: NodeQueue,
}

impl View for Frontier {
    type V = Map<usize, u8>;

    closed spec fn view(&self) -> Map<usize, u8> {
        Map::new(
            |n: usize| queue_entries(self.queue).contains_key(n),
            |n: usize| queue_entries(self.queue)[n].0,
        )
    }
}

impl Frontier {
    /// Each queued node carries itself as the tie-breaking half of its
    /// priority.
    pub closed spec fn wf(&self) -> bool {
        forall|n: usize| #[trigger]
            queue_entries(self.queue).contains_key(n) ==> queue_entries(self.queue)[n].1 == n
    }

    /// An empty frontier with room for `capacity` nodes.
    pub fn new(capacity: usize) -> (f: Frontier)
        ensures
            f.wf(),
            f@ == Map::<usize, u8>::empty(),
    {
        let f = Frontier { queue: queue_new(capacity) };
        assert(f@ =~= Map::<usize, u8>::empty());
        f
    }

    /// Puts `node` in the frontier with `key`, replacing any key it had.
    pub fn insert(&mut self, node: usize, key: u8)
        requires
            old(self).wf(),
        ensures
            final(self).wf(),
            final(self)@ == old(self)@.insert(node, key),
    {
        queue_push(&mut self.queue, node, (key, node));
        assert(self@ =~= old(self)@.insert(node, key));
    }

    /// Lowers the key of `node` to `key`; does nothing unless `node` is in
    /// the frontier with a larger key.
    pub fn decrease_key(&mut self, node: usize, key: u8)
        requires
            old(self).wf(),
        ensures
            final(self).wf(),
            final(self)@ == decreased(old(self)@, node, key),
    {
        match queue_priority(&self.queue, node) {
            Some(p) => {
                if key < p.0 {
                    queue_push(&mut self.queue, node, (key, node));
                    assert(self@ =~= old(self)@.insert(node, key));
                }
            },
            None => {},
        }
    }

    /// Removes and returns the node with the smallest key, the smallest
    /// node winning a tie; `None` when the frontier is empty.
    pub fn extract_min(&mut self) -> (r: Option<(usize, u8)>)
        requires
            old(self).wf(),
        ensures
            final(self).wf(),
            match r {
                None => old(self)@ == Map::<usize, u8>::empty() && final(self)@ == old(self)@,
                Some((node, key)) => is_min_entry(old(self)@, node, key) && final(self)@ == old(
                    self,
                )@.remove(node),
            },
    {
        match queue_pop(&mut self.queue) {
            None => {
                assert(old(self)@ =~= Map::<usize, u8>::empty());
                None
            },
            Some((node, prio)) => {
                assert(self@ =~= old(self)@.remove(node));
                assert forall|j: usize| #[trigger] old(self)@.contains_key(j) implies prio.0 < old(
                    self,
                )@[j] || (prio.0 == old(self)@[j] && node <= j) by {
                    assert(queue_entries(old(self).queue).contains_key(j));
                }
                Some((node, prio.0))
            },
        }
    }

    /// Whether no node is left.
    pub fn is_empty(&self) -> (r: bool)
        requires
            self.wf(),
        ensures
            r <==> self@ == Map::<usize, u8>::empty(),
    {
        let r = queue_is_empty(&self.queue);
        if !r {
            proof {
                if self@ == Map::<usize, u8>::empty() {
                    assert forall|k: usize| !queue_entries(self.queue).contains_key(k) by {
                        assert(!self@.contains_key(k));
                    }
                    assert(queue_entries(self.queue) =~= no_entries());
                }
            }
        } else {
            assert(self@ =~= Map::<usize, u8>::empty());
        }
        r
    }
}

/// Once extracted, a node does not come back through key decreases: it is
/// absent from the frontier whatever decreases follow.
pub proof fn lemma_extracted_never_returned(m: Map<usize, u8>, node: usize, ops: Seq<(usize, u8)>)
    ensures
        !after_decreases(m.remove(node), ops).contains_key(node),
    decreases ops.len(),
{
    if ops.len() > 0 {
        lemma_extracted_never_returned(m, node, ops.drop_last());
    }
}

/// Key decreases never raise a key, and never add a node.
pub proof fn lemma_decreases_only_lower(m: Map<usize, u8>, ops: Seq<(usize, u8)>)
    ensures
        after_decreases(m, ops).dom() == m.dom(),
        forall|n: usize| #[trigger]
            m.contains_key(n) ==> after_decreases(m, ops)[n] <= m[n],
    decreases ops.len(),
{
    if ops.len() > 0 {
        lemma_decreases_only_lower(m, ops.drop_last());
        let prev = after_decreases(m, ops.drop_last());
        assert(decreased(prev, ops.last().0, ops.last().1).dom() =~= prev.dom());
    }
}

} // verus!
