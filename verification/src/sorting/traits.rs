//! The contract that the in-place sorters share.

use crate::sorting::order::{permutation_of, sorted, total_order};
use vstd::prelude::*;

verus! {

/// A sorting algorithm for slices of `T`.
pub trait Sorter<T: Ord + Copy> {
    /// What the algorithm asks of `T` beyond a total order.
    spec fn admits() -> bool;

    /// Sorts `arr` in place: afterwards it is a permutation of what it was,
    /// and no item is greater than a later one. A slice of fewer than two
    /// items is left as it is.
    fn sort_inplace(arr: &mut [T])
        requires
            total_order::<T>(),
            Self::admits(),
        ensures
            sorted(final(arr)@),
            permutation_of(final(arr)@, old(arr)@),
            final(arr)@.len() == old(arr)@.len(),
            old(arr)@.len() < 2 ==> final(arr)@ == old(arr)@,
    ;
}

} // verus!
