//! Merge sort: split at the midpoint, sort each half, merge.

use crate::sorting::order::{
    lemma_order_laws, lemma_ties_concat, lemma_ties_none, lemma_ties_push, leq, less,
    permutation_of, sorted, stable_sort_of, tie, ties_of, total_order,
};
use vstd::prelude::*;
use vstd::seq_lib::*;
use vstd::slice::{slice_subrange, slice_to_vec};

verus! {

/// Sorts `array` into a new vector. The sort is stable: items that tie
/// come out in the order in which they came in. An array of fewer than
/// two items comes back as it is.
pub fn merge_sort<T: Ord + Copy>(array: &[T]) -> (out: Vec<T>)
    requires
        total_order::<T>(),
    ensures
        stable_sort_of(out@, array@),
        array@.len() < 2 ==> out@ == array@,
    decreases array@.len(),
{
    if array.len() < 2 {
        return slice_to_vec(array);
    }
    let middle = array.len() / 2;
    let left = merge_sort(slice_subrange(array, 0, middle));
    let right = merge_sort(slice_subrange(array, middle, array.len()));
    let out = merge(left.as_slice(), right.as_slice());
    proof {
        let front = array@.subrange(0, middle as int);
        let back = array@.subrange(middle as int, array@.len() as int);
        assert(array@ =~= front + back);
        lemma_multiset_commutative(front, back);
        lemma_multiset_commutative(left@, right@);
        assert forall|k: T| #[trigger] ties_of(out@, k) == ties_of(array@, k) by {
            lemma_ties_concat(front, back, k);
            assert(ties_of(left@, k) == ties_of(front, k));
            assert(ties_of(right@, k) == ties_of(back, k));
        }
    }
    out
}

/// Merges two sorted slices into one sorted vector. Where an item of
/// `left` ties with an item of `right`, the one of `left` comes first, so
/// the result is the stable sort of `left` followed by `right`.
pub fn merge<T: Ord + Copy>(left: &[T], right: &[T]) -> (out: Vec<T>)
    requires
        total_order::<T>(),
        sorted(left@),
        sorted(right@),
    ensures
        stable_sort_of(out@, left@ + right@),
        forall|k: T| #[trigger] ties_of(out@, k) == ties_of(left@, k) + ties_of(right@, k),
{
    let mut out: Vec<T> = Vec::new();
    let mut i: usize = 0;
    let mut j: usize = 0;
    proof {
        lemma_order_laws::<T>();
        assert(left@.take(0) =~= Seq::<T>::empty());
        assert(right@.take(0) =~= Seq::<T>::empty());
        assert(left@.take(0) + right@.take(0) =~= Seq::<T>::empty());
        assert forall|k: T|
            #[trigger] ties_of(out@, k) == ties_of(left@.take(0), k) + ties_of(
                right@.take(0),
                k,
            ) by {
            lemma_ties_concat(left@.take(0), right@.take(0), k);
        }
    }
    while i < left.len() || j < right.len()
        invariant
            total_order::<T>(),
            sorted(left@),
            sorted(right@),
            i <= left.len(),
            j <= right.len(),
            sorted(out@),
            i < left.len() ==> forall|x: int|
                0 <= x < out@.len() ==> leq(#[trigger] out@[x], left@[i as int]),
            j < right.len() ==> forall|x: int|
                0 <= x < out@.len() ==> leq(#[trigger] out@[x], right@[j as int]),
            i < left.len() ==> forall|y: int|
                0 <= y < j ==> less(#[trigger] right@[y], left@[i as int]),
            permutation_of(out@, left@.take(i as int) + right@.take(j as int)),
            forall|k: T|
                #[trigger] ties_of(out@, k) == ties_of(left@.take(i as int), k) + ties_of(
                    right@.take(j as int),
                    k,
                ),
        decreases left.len() - i + right.len() - j,
    {
        proof {
            lemma_order_laws::<T>();
        }
        let ghost before = out@;
        let ghost l = left@.take(i as int);
        let ghost r = right@.take(j as int);
        let from_left = if i >= left.len() {
            false
        } else if j >= right.len() {
            true
        } else {
            left[i] <= right[j]
        };
        if from_left {
            let item = left[i];
            out.push(item);
            proof {
                assert(left@.take(i + 1) =~= l.push(item));
                lemma_multiset_commutative(l, r);
                lemma_multiset_commutative(l.push(item), r);
                to_multiset_build(before, item);
                to_multiset_build(l, item);
                assert(out@.to_multiset() =~= (l.push(item) + r).to_multiset());
                assert forall|k: T|
                    #[trigger] ties_of(out@, k) == ties_of(left@.take(i + 1), k) + ties_of(
                        r,
                        k,
                    ) by {
                    lemma_ties_push(before, item, k);
                    lemma_ties_push(l, item, k);
                    assert(ties_of(before, k) == ties_of(l, k) + ties_of(r, k));
                    if tie(item, k) {
                        assert forall|y: int| 0 <= y < r.len() implies !tie(#[trigger] r[y], k) by {
                            assert(less(right@[y], item));
                        }
                        lemma_ties_none(r, k);
                        assert(ties_of(l, k).push(item) + ties_of(r, k) =~= ties_of(l, k).push(
                            item,
                        ));
                        assert(ties_of(l, k) + ties_of(r, k) =~= ties_of(l, k));
                    }
                }
            }
            i = i + 1;
        } else {
            let item = right[j];
            out.push(item);
            proof {
                assert(right@.take(j + 1) =~= r.push(item));
                lemma_multiset_commutative(l, r);
                lemma_multiset_commutative(l, r.push(item));
                to_multiset_build(before, item);
                to_multiset_build(r, item);
                assert(out@.to_multiset() =~= (l + r.push(item)).to_multiset());
                assert forall|k: T|
                    #[trigger] ties_of(out@, k) == ties_of(l, k) + ties_of(
                        right@.take(j + 1),
                        k,
                    ) by {
                    lemma_ties_push(before, item, k);
                    lemma_ties_push(r, item, k);
                    assert(ties_of(before, k) == ties_of(l, k) + ties_of(r, k));
                    if tie(item, k) {
                        assert(ties_of(l, k) + ties_of(r, k).push(item) =~= (ties_of(l, k)
                            + ties_of(r, k)).push(item));
                    }
                }
            }
            j = j + 1;
        }
    }
    proof {
        assert(left@.take(i as int) =~= left@);
        assert(right@.take(j as int) =~= right@);
        assert forall|k: T| #[trigger] ties_of(out@, k) == ties_of(left@ + right@, k) by {
            lemma_ties_concat(left@, right@, k);
        }
    }
    out
}

} // verus!
