//! Small helpers shared by the containers.
use crate::binary_tree::TreeKey;
use core::cmp::Ordering;
use vstd::prelude::*;

verus! {

/// Whether every element of `v` also occurs in `w`.
pub fn vec_matches<T: TreeKey>(v: &Vec<T>, w: &Vec<T>) -> (r: bool)
    ensures
        r <==> forall|i: int| 0 <= i < v.len() ==> #[trigger] w@.contains(v@[i]),
{
    let mut i: usize = 0;
    while i < v.len()
        invariant
            0 <= i <= v.len(),
            forall|k: int| 0 <= k < i ==> #[trigger] w@.contains(v@[k]),
        decreases v.len() - i,
    {
        let mut found = false;
        let mut j: usize = 0;
        while j < w.len()
            invariant
                0 <= i < v.len(),
                0 <= j <= w.len(),
                found <==> exists|k: int| 0 <= k < j && #[trigger] w@[k] == v@[i as int],
            decreases w.len() - j,
        {
            proof {
                T::lemma_rank_injective(&v[i as int], &w[j as int]);
            }
            match v[i].compare(&w[j]) {
                Ordering::Equal => {
                    found = true;
                },
                _ => {},
            }
            j = j + 1;
        }
        if !found {
            assert(!w@.contains(v@[i as int]));
            return false;
        }
        assert(w@.contains(v@[i as int]));
        i = i + 1;
    }
    true
}

} // verus!
