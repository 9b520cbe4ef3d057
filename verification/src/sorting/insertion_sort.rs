//! Insertion sort: grow a sorted prefix, sinking each new item into place.

use crate::sorting::order::{
    comparable, lemma_order_laws, lemma_short_permutation, lemma_swap_keeps_ties,
    lemma_swap_permutation, leq, less, permutation_of, sorted, stable_sort_of, ties_of,
    total_order,
};
use crate::sorting::traits::Sorter;
use vstd::prelude::*;

verus! {

/// The insertion sorter.
pub struct InsertionSort;

impl<T: Ord + Copy> Sorter<T> for InsertionSort {
    /// Insertion sort works for every totally ordered type.
    open spec fn admits() -> bool {
        true
    }

    /// Sorts `arr` in place by insertion. The sort is stable.
    fn sort_inplace(arr: &mut [T])
        ensures
            stable_sort_of(final(arr)@, old(arr)@),
    {
        let n = arr.len();
        let mut i: usize = 1;
        while i < n
            invariant
                total_order::<T>(),
                arr@.len() == n,
                1 <= i,
                forall|a: int, b: int|
                    0 <= a < b < i && b < n ==> leq(#[trigger] arr@[a], #[trigger] arr@[b]),
                permutation_of(arr@, old(arr)@),
                forall|k: T| #[trigger] ties_of(arr@, k) == ties_of(old(arr)@, k),
            decreases n - i,
        {
            let mut j: usize = i;
            proof {
                lemma_order_laws::<T>();
            }
            while j > 0 && arr[j] < arr[j - 1]
                invariant
                    total_order::<T>(),
                    comparable::<T>(),
                    arr@.len() == n,
                    j <= i < n,
                    forall|a: int, b: int|
                        0 <= a < b <= i && a != j && b != j ==> leq(
                            #[trigger] arr@[a],
                            #[trigger] arr@[b],
                        ),
                    forall|b: int| j < b <= i ==> leq(arr@[j as int], #[trigger] arr@[b]),
                    permutation_of(arr@, old(arr)@),
                    forall|k: T| #[trigger] ties_of(arr@, k) == ties_of(old(arr)@, k),
                decreases j,
            {
                let ghost before = arr@;
                let low = arr[j];
                let high = arr[j - 1];
                arr[j] = high;
                arr[j - 1] = low;
                proof {
                    lemma_order_laws::<T>();
                    lemma_swap_permutation(before, j - 1, j as int);
                    assert(arr@ =~= before.update(j as int, high).update(j - 1, low));
                    assert(less(low, high));
                    assert forall|k: T| #[trigger] ties_of(arr@, k) == ties_of(old(arr)@, k) by {
                        lemma_swap_keeps_ties(before, j as int, k);
                        assert(ties_of(before, k) == ties_of(old(arr)@, k));
                    }
                }
                j = j - 1;
            }
            proof {
                lemma_order_laws::<T>();
                assert(j > 0 ==> !less(arr@[j as int], arr@[j - 1]));
                assert(j > 0 ==> leq(arr@[j - 1], arr@[j as int]));
                assert forall|a: int, b: int| 0 <= a < b <= i implies leq(
                    #[trigger] arr@[a],
                    #[trigger] arr@[b],
                ) by {
                    if b == j && a < j - 1 {
                        assert(leq(arr@[a], arr@[j - 1]));
                    }
                }
            }
            i = i + 1;
        }
        proof {
            assert forall|a: int, b: int| 0 <= a < b < arr@.len() implies leq(
                #[trigger] arr@[a],
                #[trigger] arr@[b],
            ) by {}
            if n < 2 {
                lemma_short_permutation(arr@, old(arr)@);
            }
        }
    }
}

} // verus!
