//! An unbalanced binary search tree with owned subtrees. Taking a tree
//! apart hands out the root value and both subtrees and leaves the slot
//! empty; putting one together consumes the three parts.
use core::cmp::Ordering;
use vstd::prelude::*;

verus! {

/// Values a tree can order: each has an integer rank, distinct values have
/// distinct ranks, and `compare` orders by rank.
pub trait TreeKey: Sized {
    spec fn rank(&self) -> int;

    fn compare(&self, other: &Self) -> (r: Ordering)
        ensures
            (r == Ordering::Less) <==> self.rank() < other.rank(),
            (r == Ordering::Equal) <==> self.rank() == other.rank(),
            (r == Ordering::Greater) <==> self.rank() > other.rank(),
    ;

    proof fn lemma_rank_injective(a: &Self, b: &Self)
        ensures
            a.rank() == b.rank() ==> *a == *b,
    ;
}

impl TreeKey for char {
    open spec fn rank(&self) -> int {
        *self as int
    }

    fn compare(&self, other: &char) -> (r: Ordering) {
        if *self < *other {
            Ordering::Less
        } else if *self == *other {
            Ordering::Equal
        } else {
            Ordering::Greater
        }
    }

    proof fn lemma_rank_injective(a: &char, b: &char) {
    }
}

impl TreeKey for i32 {
    open spec fn rank(&self) -> int {
        *self as int
    }

    fn compare(&self, other: &i32) -> (r: Ordering) {
        if *self < *other {
            Ordering::Less
        } else if *self == *other {
            Ordering::Equal
        } else {
            Ordering::Greater
        }
    }

    proof fn lemma_rank_injective(a: &i32, b: &i32) {
    }
}

impl TreeKey for u8 {
    open spec fn rank(&self) -> int {
        *self as int
    }

    fn compare(&self, other: &u8) -> (r: Ordering) {
        if *self < *other {
            Ordering::Less
        } else if *self == *other {
            Ordering::Equal
        } else {
            Ordering::Greater
        }
    }

    proof fn lemma_rank_injective(a: &u8, b: &u8) {
    }
}

impl TreeKey for u64 {
    open spec fn rank(&self) -> int {
        *self as int
    }

    fn compare(&self, other: &u64) -> (r: Ordering) {
        if *self < *other {
            Ordering::Less
        } else if *self == *other {
            Ordering::Equal
        } else {
            Ordering::Greater
        }
    }

    proof fn lemma_rank_injective(a: &u64, b: &u64) {
    }
}

impl<'a, K: TreeKey> TreeKey for &'a K {
    open spec fn rank(&self) -> int {
        (**self).rank()
    }

    fn compare(&self, other: &&'a K) -> (r: Ordering) {
        (**self).compare(*other)
    }

    proof fn lemma_rank_injective(a: &&'a K, b: &&'a K) {
        K::lemma_rank_injective(*a, *b);
    }
}

pub struct TreeNode<T> {
    pub value: T,
    pub left: Subtree<T>,
    pub right: Subtree<T>,
}

/// A possibly empty subtree.
pub struct Subtree<T>(pub Option<Box<TreeNode<T>>>);

impl<T> TreeNode<T> {
    fn new(value: T) -> (n: TreeNode<T>)
        ensures
            n.value == value,
            n.left.0 is None,
            n.right.0 is None,
    {
        TreeNode { value, left: Subtree(None), right: Subtree(None) }
    }

    fn assemble(value: T, left: Subtree<T>, right: Subtree<T>) -> (n: TreeNode<T>)
        ensures
            n.value == value,
            n.left == left,
            n.right == right,
    {
        TreeNode { value, left, right }
    }
}

impl<T: TreeKey> Subtree<T> {
    /// The values held.
    pub open spec fn contents(self) -> Set<T>
        decreases self,
    {
        match self.0 {
            None => Set::empty(),
            Some(n) => n.left.contents().union(n.right.contents()).insert(n.value),
        }
    }

    /// Every value on the left of a node ranks below it, every value on its
    /// right above it.
    pub open spec fn is_bst(self) -> bool
        decreases self,
    {
        match self.0 {
            None => true,
            Some(n) => {
                &&& forall|x: T| #[trigger]
                    n.left.contents().contains(x) ==> x.rank() < n.value.rank()
                &&& forall|x: T| #[trigger]
                    n.right.contents().contains(x) ==> x.rank() > n.value.rank()
                &&& n.left.is_bst()
                &&& n.right.is_bst()
            },
        }
    }

    /// Number of nodes.
    pub open spec fn size(self) -> nat
        decreases self,
    {
        match self.0 {
            None => 0,
            Some(n) => n.left.size() + n.right.size() + 1,
        }
    }

    /// Number of nodes on the longest path from the root down.
    pub open spec fn depth(self) -> nat
        decreases self,
    {
        match self.0 {
            None => 0,
            Some(n) => {
                let l = n.left.depth();
                let r = n.right.depth();
                (if l >= r {
                    l
                } else {
                    r
                }) + 1
            },
        }
    }

    /// Whether this is a single node without children.
    pub open spec fn is_leaf(self) -> bool {
        self.0 matches Some(n) && n.left.0 is None && n.right.0 is None
    }

    /// The leaves, left to right.
    pub open spec fn leaf_seq(self) -> Seq<T>
        decreases self,
    {
        match self.0 {
            None => Seq::empty(),
            Some(n) => if n.left.0 is None && n.right.0 is None {
                seq![n.value]
            } else {
                n.left.leaf_seq() + n.right.leaf_seq()
            },
        }
    }

    /// The values in order: left subtree, node, right subtree.
    pub open spec fn in_order(self) -> Seq<T>
        decreases self,
    {
        match self.0 {
            None => Seq::empty(),
            Some(n) => n.left.in_order() + seq![n.value] + n.right.in_order(),
        }
    }

    /// The values root first: node, left subtree, right subtree.
    pub open spec fn pre_order(self) -> Seq<T>
        decreases self,
    {
        match self.0 {
            None => Seq::empty(),
            Some(n) => seq![n.value] + n.left.pre_order() + n.right.pre_order(),
        }
    }

    proof fn lemma_depth_le_size(self)
        ensures
            self.depth() <= self.size(),
            self.leaf_seq().len() <= self.size(),
        decreases self,
    {
        if let Some(n) = self.0 {
            n.left.lemma_depth_le_size();
            n.right.lemma_depth_le_size();
        }
    }

    pub fn new() -> (s: Subtree<T>)
        ensures
            s.0 is None,
    {
        Subtree(None)
    }

    /// Adds `value` below the node where a search for it ends; a value of
    /// equal rank already there is kept.
    pub fn insert(&mut self, value: T)
        ensures
            final(self).contents() == old(self).contents().insert(value),
            old(self).is_bst() ==> final(self).is_bst(),
        decreases *old(self),
    {
        match self.0.take() {
            None => {
                *self = Subtree(Some(Box::new(TreeNode::new(value))));
                assert(self.contents() =~= old(self).contents().insert(value));
            },
            Some(b) => {
                let mut n = *b;
                proof {
                    T::lemma_rank_injective(&value, &n.value);
                }
                match value.compare(&n.value) {
                    Ordering::Less => {
                        n.left.insert(value);
                    },
                    Ordering::Equal => {},
                    Ordering::Greater => {
                        n.right.insert(value);
                    },
                }
                *self = Subtree(Some(Box::new(n)));
                assert(self.contents() =~= old(self).contents().insert(value));
            },
        }
    }

    /// Searches for `value` as in a search tree. A value found is in the
    /// tree; in a search tree, every value in it is found.
    pub fn has(&self, value: &T) -> (r: bool)
        ensures
            r ==> self.contents().contains(*value),
            self.is_bst() ==> (r <==> self.contents().contains(*value)),
        decreases self,
    {
        match &self.0 {
            None => false,
            Some(n) => {
                proof {
                    T::lemma_rank_injective(value, &n.value);
                }
                match value.compare(&n.value) {
                    Ordering::Less => {
                        proof {
                            if self.is_bst() {
                                assert(!n.right.contents().contains(*value));
                            }
                        }
                        n.left.has(value)
                    },
                    Ordering::Equal => true,
                    Ordering::Greater => {
                        proof {
                            if self.is_bst() {
                                assert(!n.left.contents().contains(*value));
                            }
                        }
                        n.right.has(value)
                    },
                }
            },
        }
    }

    /// Calls `f` on each value, in order.
    pub fn for_each<F: Fn(&T)>(&self, f: &F)
        requires
            forall|x: &T| #[trigger] f.requires((x,)),
        decreases self,
    {
        match &self.0 {
            None => {},
            Some(n) => {
                n.left.for_each(f);
                f(&n.value);
                n.right.for_each(f);
            },
        }
    }

    /// Appends `func` of each value to `v`, root first.
    pub fn compute<U, F: Fn(&T) -> U>(&self, func: &F, v: &mut Vec<U>)
        requires
            forall|x: &T| #[trigger] func.requires((x,)),
        ensures
            final(v)@.len() == old(v)@.len() + self.pre_order().len(),
            forall|i: int| 0 <= i < old(v)@.len() ==> #[trigger] final(v)@[i] == old(v)@[i],
            forall|i: int|
                0 <= i < self.pre_order().len() ==> func.ensures(
                    (&#[trigger] self.pre_order()[i],),
                    final(v)@[old(v)@.len() + i],
                ),
        decreases self,
    {
        match &self.0 {
            None => {},
            Some(n) => {
                let ghost start = v@;
                v.push(func(&n.value));
                let ghost after_root = v@;
                n.left.compute(func, v);
                let ghost after_left = v@;
                n.right.compute(func, v);
                assert forall|i: int| 0 <= i < self.pre_order().len() implies func.ensures(
                    (&#[trigger] self.pre_order()[i],),
                    v@[start.len() + i],
                ) by {
                    let ll = n.left.pre_order().len() as int;
                    if i == 0 {
                        assert(v@[start.len() as int] == after_root[start.len() as int]);
                    } else if i < 1 + ll {
                        assert(self.pre_order()[i] == n.left.pre_order()[i - 1]);
                        assert(v@[start.len() + i] == after_left[start.len() + i]);
                    } else {
                        assert(self.pre_order()[i] == n.right.pre_order()[i - 1 - ll]);
                    }
                }
            },
        }
    }

    pub fn len(&self) -> (r: usize)
        requires
            self.size() <= usize::MAX,
        ensures
            r == self.size(),
        decreases self,
    {
        match &self.0 {
            None => 0,
            Some(n) => n.left.len() + n.right.len() + 1,
        }
    }

    pub fn height(&self) -> (r: usize)
        requires
            self.size() <= usize::MAX,
        ensures
            r == self.depth(),
        decreases self,
    {
        proof {
            self.lemma_depth_le_size();
        }
        match &self.0 {
            None => 0,
            Some(n) => {
                let l = n.left.height();
                let r = n.right.height();
                (if l >= r {
                    l
                } else {
                    r
                }) + 1
            },
        }
    }

    /// Number of leaves.
    pub fn lum(&self) -> (r: usize)
        requires
            self.size() <= usize::MAX,
        ensures
            r == self.leaf_seq().len(),
        decreases self,
    {
        proof {
            self.lemma_depth_le_size();
        }
        match &self.0 {
            None => 0,
            Some(n) => {
                if n.left.0.is_none() && n.right.0.is_none() {
                    1
                } else {
                    n.left.lum() + n.right.lum()
                }
            },
        }
    }

    /// Appends the leaves to `v`, left to right.
    pub fn leaves<'a>(&'a self, v: &mut Vec<&'a T>)
        ensures
            final(v)@.len() == old(v)@.len() + self.leaf_seq().len(),
            forall|i: int| 0 <= i < old(v)@.len() ==> #[trigger] final(v)@[i] == old(v)@[i],
            forall|i: int|
                0 <= i < self.leaf_seq().len() ==> *final(v)@[old(v)@.len() + i]
                    == #[trigger] self.leaf_seq()[i],
        decreases self,
    {
        match &self.0 {
            None => {},
            Some(n) => {
                if n.left.0.is_none() && n.right.0.is_none() {
                    v.push(&n.value);
                } else {
                    let ghost mid = v@;
                    n.left.leaves(v);
                    let ghost after_left = v@;
                    n.right.leaves(v);
                    assert forall|i: int| 0 <= i < self.leaf_seq().len() implies *v@[old(v)@.len()
                        + i] == #[trigger] self.leaf_seq()[i] by {
                        if i < n.left.leaf_seq().len() {
                            assert(v@[old(v)@.len() + i] == after_left[old(v)@.len() + i]);
                        } else {
                            let k = i - n.left.leaf_seq().len();
                            assert(self.leaf_seq()[i] == n.right.leaf_seq()[k]);
                        }
                    }
                }
            },
        }
    }

    /// Takes the tree apart: its root value and both subtrees. The subtree
    /// is left empty.
    pub fn disassemble(&mut self) -> (r: (T, Subtree<T>, Subtree<T>))
        requires
            old(self).0 is Some,
        ensures
            final(self).0 is None,
            r.0 == old(self).0.unwrap().value,
            r.1 == old(self).0.unwrap().left,
            r.2 == old(self).0.unwrap().right,
    {
        let b = self.0.take().unwrap();
        let n = *b;
        *self = Self::new();
        (n.value, n.left, n.right)
    }

    /// Replaces the tree by a node holding `value` over `left` and `right`.
    pub fn assemble(&mut self, value: T, left: Subtree<T>, right: Subtree<T>)
        ensures
            final(self).0 matches Some(n) && n.value == value && n.left == left && n.right
                == right,
    {
        *self = Subtree(Some(Box::new(TreeNode::assemble(value, left, right))));
    }

    /// The root value, if any.
    pub fn val(&self) -> (r: Option<&T>)
        ensures
            match self.0 {
                None => r is None,
                Some(n) => r matches Some(x) && *x == n.value,
            },
    {
        match &self.0 {
            None => None,
            Some(n) => Some(&n.value),
        }
    }

    /// The left subtree, if the root has one.
    pub fn left(&self) -> (r: Option<&Subtree<T>>)
        ensures
            match self.0 {
                Some(n) if n.left.0 is Some => r matches Some(s) && *s == n.left,
                _ => r is None,
            },
    {
        match &self.0 {
            Some(n) => if n.left.0.is_some() {
                Some(&n.left)
            } else {
                None
            },
            None => None,
        }
    }

    /// The right subtree, if the root has one.
    pub fn right(&self) -> (r: Option<&Subtree<T>>)
        ensures
            match self.0 {
                Some(n) if n.right.0 is Some => r matches Some(s) && *s == n.right,
                _ => r is None,
            },
    {
        match &self.0 {
            Some(n) => if n.right.0.is_some() {
                Some(&n.right)
            } else {
                None
            },
            None => None,
        }
    }
}

pub struct BinaryTree<T> {
    pub root: Subtree<T>,
}

impl<T: TreeKey> BinaryTree<T> {
    pub fn new() -> (t: BinaryTree<T>)
        ensures
            t.root.0 is None,
    {
        BinaryTree { root: Subtree::new() }
    }

    /// A one-node tree.
    pub fn from_val(value: T) -> (t: BinaryTree<T>)
        ensures
            t.root.contents() == Set::<T>::empty().insert(value),
            t.root.is_bst(),
    {
        let mut this = Self::new();
        this.insert(value);
        this
    }

    /// A tree of `value` over the two given trees.
    pub fn from_all(value: T, left: BinaryTree<T>, right: BinaryTree<T>) -> (t: BinaryTree<T>)
        ensures
            t.root.0 matches Some(n) && n.value == value && n.left == left.root && n.right
                == right.root,
    {
        let mut this = Self::new();
        this.assemble(value, left.root, right.root);
        this
    }

    pub fn insert(&mut self, value: T)
        ensures
            final(self).root.contents() == old(self).root.contents().insert(value),
            old(self).root.is_bst() ==> final(self).root.is_bst(),
    {
        self.root.insert(value);
    }

    pub fn has(&self, value: &T) -> (r: bool)
        ensures
            r ==> self.root.contents().contains(*value),
            self.root.is_bst() ==> (r <==> self.root.contents().contains(*value)),
    {
        self.root.has(value)
    }

    pub fn len(&self) -> (r: usize)
        requires
            self.root.size() <= usize::MAX,
        ensures
            r == self.root.size(),
    {
        self.root.len()
    }

    pub fn height(&self) -> (r: usize)
        requires
            self.root.size() <= usize::MAX,
        ensures
            r == self.root.depth(),
    {
        self.root.height()
    }

    /// Number of leaves.
    pub fn lum(&self) -> (r: usize)
        requires
            self.root.size() <= usize::MAX,
        ensures
            r == self.root.leaf_seq().len(),
    {
        self.root.lum()
    }

    pub fn leaves<'a>(&'a self, v: &mut Vec<&'a T>)
        ensures
            final(v)@.len() == old(v)@.len() + self.root.leaf_seq().len(),
            forall|i: int| 0 <= i < old(v)@.len() ==> #[trigger] final(v)@[i] == old(v)@[i],
            forall|i: int|
                0 <= i < self.root.leaf_seq().len() ==> *final(v)@[old(v)@.len() + i]
                    == #[trigger] self.root.leaf_seq()[i],
    {
        self.root.leaves(v)
    }

    pub fn val(&self) -> (r: Option<&T>)
        ensures
            match self.root.0 {
                None => r is None,
                Some(n) => r matches Some(x) && *x == n.value,
            },
    {
        self.root.val()
    }

    pub fn left(&self) -> (r: Option<&Subtree<T>>)
        ensures
            match self.root.0 {
                Some(n) if n.left.0 is Some => r matches Some(s) && *s == n.left,
                _ => r is None,
            },
    {
        self.root.left()
    }

    pub fn right(&self) -> (r: Option<&Subtree<T>>)
        ensures
            match self.root.0 {
                Some(n) if n.right.0 is Some => r matches Some(s) && *s == n.right,
                _ => r is None,
            },
    {
        self.root.right()
    }

    pub fn for_each<F: Fn(&T)>(&self, f: F)
        requires
            forall|x: &T| #[trigger] f.requires((x,)),
    {
        self.root.for_each(&f);
    }

    pub fn assemble(&mut self, value: T, left: Subtree<T>, right: Subtree<T>)
        ensures
            final(self).root.0 matches Some(n) && n.value == value && n.left == left && n.right
                == right,
    {
        self.root.assemble(value, left, right)
    }

    pub fn disassemble(&mut self) -> (r: (T, Subtree<T>, Subtree<T>))
        requires
            old(self).root.0 is Some,
        ensures
            final(self).root.0 is None,
            r.0 == old(self).root.0.unwrap().value,
            r.1 == old(self).root.0.unwrap().left,
            r.2 == old(self).root.0.unwrap().right,
    {
        self.root.disassemble()
    }
}

} // verus!
