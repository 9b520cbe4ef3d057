//! Sorting routines and the vocabulary their contracts share.

pub mod bucket_sort;
pub mod insertion_sort;
pub mod merge_sort;
pub mod order;
pub mod traits;
pub mod tree_sort;

pub use self::bucket_sort::BucketSort;
pub use self::insertion_sort::InsertionSort;
pub use self::merge_sort::merge_sort;
pub use self::traits::Sorter;
pub use self::tree_sort::TreeSort;

use self::order::{comparable, no_descent, steps_down};
use vstd::prelude::*;

verus! {

/// Whether `items` never steps down: no item is smaller than the one just
/// before it. Empty and one-item slices never step down.
pub fn is_sorted<T: PartialOrd>(items: &[T]) -> (ok: bool)
    requires
        comparable::<T>(),
    ensures
        ok <==> no_descent(items@),
{
    if items.len() == 0 {
        return true;
    }
    let mut i: usize = 0;
    while i < items.len() - 1
        invariant
            comparable::<T>(),
            0 < items@.len(),
            i <= items@.len() - 1,
            forall|x: int| 0 <= x < i ==> !steps_down(#[trigger] items@[x], items@[x + 1]),
        decreases items@.len() - i,
    {
        if items[i + 1] < items[i] {
            return false;
        }
        i = i + 1;
    }
    true
}

} // verus!
