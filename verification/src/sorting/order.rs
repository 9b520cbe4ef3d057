//! The vocabulary of the sorting contracts: what it means for an element
//! type to be totally ordered, for a sequence to be sorted, and for one
//! sequence to be a stable rearrangement of another.

use vstd::laws_cmp::*;
use vstd::laws_eq::*;
use vstd::prelude::*;
use vstd::seq_lib::*;
use vstd::std_specs::cmp::*;

verus! {

/// The comparison operators of `T` behave as a total order: any two values
/// are comparable, `<` is transitive, and comparing equal is an equivalence.
/// Every primitive integer type satisfies this.
pub open spec fn total_order<T: Ord>() -> bool {
    obeys_cmp::<T>()
}

/// `a <= b` in the order of `T`.
pub open spec fn leq<T: Ord>(a: T, b: T) -> bool {
    a.is_le(&b)
}

/// `a < b` in the order of `T`.
pub open spec fn less<T: Ord>(a: T, b: T) -> bool {
    a.is_lt(&b)
}

/// `a` and `b` compare equal. For most types this is identity, but a type
/// may order its values by a key and so hold distinct values that tie.
pub open spec fn tie<T: Ord>(a: T, b: T) -> bool {
    a.eq_spec(&b)
}

/// The `<` of `T` computes what its specification says. Nothing is asked of
/// the relation itself: it may be a partial order.
pub open spec fn comparable<T: PartialOrd>() -> bool {
    T::obeys_partial_cmp_spec()
}

/// `after < before` in the order of `T`.
pub open spec fn steps_down<T: PartialOrd>(before: T, after: T) -> bool {
    after.is_lt(&before)
}

/// No item of `s` is smaller than the item just before it.
pub open spec fn no_descent<T: PartialOrd>(s: Seq<T>) -> bool {
    forall|i: int| 0 <= i && i + 1 < s.len() ==> !steps_down(#[trigger] s[i], s[i + 1])
}

/// Values of `T` that compare equal are the same value.
pub open spec fn ties_are_identical<T: Ord>() -> bool {
    forall|a: T, b: T| #[trigger] tie(a, b) ==> a == b
}

/// No item of `s` is greater than a later one.
pub open spec fn sorted<T: Ord>(s: Seq<T>) -> bool {
    forall|i: int, j: int| 0 <= i < j < s.len() ==> leq(#[trigger] s[i], #[trigger] s[j])
}

/// The items of `s` that tie with `k`, in the order in which `s` holds them.
pub open spec fn ties_of<T: Ord>(s: Seq<T>, k: T) -> Seq<T> {
    s.filter(|x: T| tie(x, k))
}

/// `out` holds the items of `input`, each as often as `input` does.
pub open spec fn permutation_of<T>(out: Seq<T>, input: Seq<T>) -> bool {
    out.to_multiset() == input.to_multiset()
}

/// `out` is `input` sorted, with items that tie kept in their input order.
pub open spec fn stable_sort_of<T: Ord>(out: Seq<T>, input: Seq<T>) -> bool {
    &&& sorted(out)
    &&& permutation_of(out, input)
    &&& forall|k: T| #[trigger] ties_of(out, k) == ties_of(input, k)
}

/// What a total order gives: the executable comparisons compute `leq`,
/// `less` and `tie`, and these relate as in any total preorder.
pub proof fn lemma_order_laws<T: Ord>()
    requires
        total_order::<T>(),
    ensures
        comparable::<T>(),
        forall|a: T| #[trigger] leq(a, a),
        forall|a: T| #[trigger] tie(a, a),
        forall|a: T, b: T| #[trigger] leq(a, b) || leq(b, a),
        forall|a: T, b: T| #[trigger] less(a, b) <==> !leq(b, a),
        forall|a: T, b: T| #[trigger] tie(a, b) <==> leq(a, b) && leq(b, a),
        forall|a: T, b: T| #[trigger] tie(a, b) <==> tie(b, a),
        forall|a: T, b: T, c: T| #[trigger] leq(a, b) && #[trigger] leq(b, c) ==> leq(a, c),
        forall|a: T, b: T, c: T| #[trigger] tie(a, b) && #[trigger] tie(b, c) ==> tie(a, c),
{
    reveal(obeys_eq_spec_properties);
    reveal(obeys_partial_cmp_spec_properties);
    reveal(obeys_cmp_partial_ord);
    reveal(obeys_cmp_ord);
}

/// Appending an item to `s` appends it to the ties of `k` exactly when it
/// ties with `k`.
pub proof fn lemma_ties_push<T: Ord>(s: Seq<T>, item: T, k: T)
    ensures
        ties_of(s.push(item), k) == if tie(item, k) {
            ties_of(s, k).push(item)
        } else {
            ties_of(s, k)
        },
{
    s.lemma_filter_push(item, |x: T| tie(x, k));
}

/// The ties of `k` in a concatenation are those of the parts, in turn.
pub proof fn lemma_ties_concat<T: Ord>(a: Seq<T>, b: Seq<T>, k: T)
    ensures
        ties_of(a + b, k) == ties_of(a, k) + ties_of(b, k),
{
    Seq::filter_distributes_over_add(a, b, |x: T| tie(x, k));
}

/// A sequence none of whose items ties with `k` has no ties of `k`.
pub proof fn lemma_ties_none<T: Ord>(s: Seq<T>, k: T)
    requires
        forall|i: int| 0 <= i < s.len() ==> !tie(#[trigger] s[i], k),
    ensures
        ties_of(s, k) == Seq::<T>::empty(),
{
    let pred = |x: T| tie(x, k);
    assert(s.all(|x: T| !pred(x)));
    s.lemma_all_neg_filter_empty(pred);
    assert(ties_of(s, k) =~= Seq::<T>::empty());
}

/// Exchanging two items of a sequence gives a permutation of it.
pub proof fn lemma_swap_permutation<T>(s: Seq<T>, a: int, b: int)
    requires
        0 <= a < s.len(),
        0 <= b < s.len(),
    ensures
        permutation_of(s.update(b, s[a]).update(a, s[b]), s),
{
    broadcast use vstd::multiset::group_multiset_axioms;

    let mid = s.update(b, s[a]);
    to_multiset_update(s, b, s[a]);
    to_multiset_update(mid, a, s[b]);
    s.to_multiset_ensures();
    assert(s.to_multiset().count(s[b]) > 0);
    assert(s.to_multiset().count(s[a]) > 0);
    assert(mid.update(a, s[b]).to_multiset() =~= s.to_multiset());
}

/// The items of `s` that tie with its last item end with that item.
pub proof fn lemma_ties_of_last<T: Ord>(s: Seq<T>, k: T)
    requires
        total_order::<T>(),
        s.len() > 0,
    ensures
        ties_of(s, k) == if tie(s.last(), k) {
            ties_of(s.drop_last(), k).push(s.last())
        } else {
            ties_of(s.drop_last(), k)
        },
{
    assert(s =~= s.drop_last().push(s.last()));
    lemma_ties_push(s.drop_last(), s.last(), k);
}

/// An item among the ties of `k` in `s` is an item of `s` that ties with `k`.
pub proof fn lemma_ties_come_from<T: Ord>(s: Seq<T>, k: T, item: T)
    requires
        ties_of(s, k).contains(item),
    ensures
        s.contains(item),
        tie(item, k),
{
    let pred = |x: T| tie(x, k);
    s.lemma_filter_contains_rev(pred, item);
    let i = choose|i: int| 0 <= i < s.filter(pred).len() && s.filter(pred)[i] == item;
    s.lemma_filter_pred(pred, i);
}

/// Two sorted sequences in which every group of tying items is the same
/// sequence are equal.
pub proof fn lemma_sorted_with_same_ties<T: Ord>(a: Seq<T>, b: Seq<T>)
    requires
        total_order::<T>(),
        sorted(a),
        sorted(b),
        a.len() == b.len(),
        forall|k: T| #[trigger] ties_of(a, k) == ties_of(b, k),
    ensures
        a == b,
    decreases a.len(),
{
    lemma_order_laws::<T>();
    if a.len() == 0 {
        assert(a =~= b);
    } else {
        let x = a.last();
        let y = b.last();
        let a0 = a.drop_last();
        let b0 = b.drop_last();
        lemma_ties_of_last(a, x);
        lemma_ties_of_last(b, x);
        lemma_ties_of_last(a, y);
        lemma_ties_of_last(b, y);
        assert(ties_of(a, x) == ties_of(b, x));
        assert(ties_of(a, y) == ties_of(b, y));
        if !tie(y, x) {
            assert(ties_of(b0, x).push(x).last() == x);
            assert(ties_of(b0, x).contains(x)) by {
                let t = ties_of(b0, x);
                assert(t == ties_of(a0, x).push(x));
                assert(t[t.len() - 1] == x);
            }
            lemma_ties_come_from(b0, x, x);
            let i = choose|i: int| 0 <= i < b0.len() && b0[i] == x;
            assert(leq(b[i], b[b.len() - 1]));
            assert(ties_of(a0, y).contains(y)) by {
                let t = ties_of(a0, y);
                assert(t == ties_of(b0, y).push(y));
                assert(t[t.len() - 1] == y);
            }
            lemma_ties_come_from(a0, y, y);
            let j = choose|j: int| 0 <= j < a0.len() && a0[j] == y;
            assert(leq(a[j], a[a.len() - 1]));
            assert(false);
        }
        assert(x == y) by {
            let ta = ties_of(a0, x).push(x);
            let tb = ties_of(b0, x).push(y);
            assert(ta == tb);
            assert(ta[ta.len() - 1] == x);
            assert(tb[tb.len() - 1] == y);
        }
        assert forall|k: T| #[trigger] ties_of(a0, k) == ties_of(b0, k) by {
            lemma_ties_of_last(a, k);
            lemma_ties_of_last(b, k);
            assert(ties_of(a, k) == ties_of(b, k));
            if tie(x, k) {
                let ta = ties_of(a0, k).push(x);
                let tb = ties_of(b0, k).push(x);
                assert(ta == tb);
                assert(ta.drop_last() =~= ties_of(a0, k));
                assert(tb.drop_last() =~= ties_of(b0, k));
            }
        }
        assert forall|i: int, j: int| 0 <= i < j < a0.len() implies leq(
            #[trigger] a0[i],
            #[trigger] a0[j],
        ) by {
            assert(leq(a[i], a[j]));
        }
        assert forall|i: int, j: int| 0 <= i < j < b0.len() implies leq(
            #[trigger] b0[i],
            #[trigger] b0[j],
        ) by {
            assert(leq(b[i], b[j]));
        }
        lemma_sorted_with_same_ties(a0, b0);
        assert(a =~= a0.push(x));
        assert(b =~= b0.push(y));
    }
}

/// A sequence has one stable sort only.
pub proof fn lemma_stable_sort_unique<T: Ord>(input: Seq<T>, a: Seq<T>, b: Seq<T>)
    requires
        total_order::<T>(),
        stable_sort_of(a, input),
        stable_sort_of(b, input),
    ensures
        a == b,
{
    a.to_multiset_ensures();
    b.to_multiset_ensures();
    input.to_multiset_ensures();
    assert forall|k: T| #[trigger] ties_of(a, k) == ties_of(b, k) by {
        assert(ties_of(a, k) == ties_of(input, k));
        assert(ties_of(b, k) == ties_of(input, k));
    }
    lemma_sorted_with_same_ties(a, b);
}

/// A sorted sequence is its own stable sort, so the stable sort of a
/// sorted sequence is that sequence.
pub proof fn lemma_stable_sort_of_sorted<T: Ord>(input: Seq<T>, out: Seq<T>)
    requires
        total_order::<T>(),
        sorted(input),
        stable_sort_of(out, input),
    ensures
        out == input,
{
    assert(stable_sort_of(input, input));
    lemma_stable_sort_unique(input, out, input);
}

/// Sorting what a stable sorter returned gives the same sequence again:
/// if `once` is the stable sort of `input` and `twice` that of `once`, the
/// two are equal. Merge sort, bucket sort and insertion sort are stable.
pub proof fn lemma_stable_sorting_twice<T: Ord>(input: Seq<T>, once: Seq<T>, twice: Seq<T>)
    requires
        total_order::<T>(),
        stable_sort_of(once, input),
        stable_sort_of(twice, once),
    ensures
        twice == once,
{
    lemma_stable_sort_of_sorted(once, twice);
}

/// A permutation of a sequence of fewer than two items is that sequence.
pub proof fn lemma_short_permutation<T>(out: Seq<T>, input: Seq<T>)
    requires
        permutation_of(out, input),
        input.len() < 2,
    ensures
        out == input,
{
    out.to_multiset_ensures();
    input.to_multiset_ensures();
    if input.len() == 1 {
        assert(out.to_multiset().count(out[0]) > 0);
        assert(input.contains(out[0]));
    }
    assert(out =~= input);
}

/// Where values that tie are identical, a sequence has one sorted
/// permutation only.
pub proof fn lemma_sorted_permutation_unique<T: Ord>(a: Seq<T>, b: Seq<T>)
    requires
        total_order::<T>(),
        ties_are_identical::<T>(),
        sorted(a),
        sorted(b),
        permutation_of(a, b),
    ensures
        a == b,
{
    lemma_order_laws::<T>();
    let below = |x: T, y: T| leq(x, y);
    assert(vstd::relations::sorted_by(a, below));
    assert(vstd::relations::sorted_by(b, below));
    assert(vstd::relations::total_ordering(below)) by {
        assert forall|x: T, y: T| #[trigger] below(x, y) && #[trigger] below(y, x) implies x
            == y by {
            assert(tie(x, y));
        }
        assert forall|x: T, y: T, z: T| #[trigger] below(x, y) && #[trigger] below(y, z) implies below(
            x,
            z,
        ) by {
            assert(leq(x, y) && leq(y, z));
        }
        assert forall|x: T, y: T| #[trigger] below(x, y) || #[trigger] below(y, x) by {
            assert(leq(x, y) || leq(y, x));
        }
        assert forall|x: T| #[trigger] below(x, x) by {
            assert(leq(x, x));
        }
    }
    lemma_sorted_unique(a, b, below);
}

/// Where values that tie are identical, sorting what a sorter returned
/// gives the same sequence again, whichever sorter is used each time: a
/// sorted permutation of a sorted permutation of `input` is the latter.
pub proof fn lemma_sorting_twice<T: Ord>(input: Seq<T>, once: Seq<T>, twice: Seq<T>)
    requires
        total_order::<T>(),
        ties_are_identical::<T>(),
        sorted(once),
        permutation_of(once, input),
        sorted(twice),
        permutation_of(twice, once),
    ensures
        twice == once,
{
    lemma_sorted_permutation_unique(twice, once);
}

/// The primitive integer types are totally ordered, their values tie only
/// with themselves, and `leq` on them is `<=`.
pub proof fn lemma_integer_orders()
    ensures
        total_order::<u8>() && ties_are_identical::<u8>(),
        total_order::<u16>() && ties_are_identical::<u16>(),
        total_order::<u32>() && ties_are_identical::<u32>(),
        total_order::<u64>() && ties_are_identical::<u64>(),
        total_order::<usize>() && ties_are_identical::<usize>(),
        total_order::<i8>() && ties_are_identical::<i8>(),
        total_order::<i16>() && ties_are_identical::<i16>(),
        total_order::<i32>() && ties_are_identical::<i32>(),
        total_order::<i64>() && ties_are_identical::<i64>(),
        total_order::<isize>() && ties_are_identical::<isize>(),
        forall|a: u8, b: u8| #[trigger] leq(a, b) <==> a <= b,
        forall|a: u16, b: u16| #[trigger] leq(a, b) <==> a <= b,
        forall|a: u32, b: u32| #[trigger] leq(a, b) <==> a <= b,
        forall|a: u64, b: u64| #[trigger] leq(a, b) <==> a <= b,
        forall|a: usize, b: usize| #[trigger] leq(a, b) <==> a <= b,
        forall|a: i8, b: i8| #[trigger] leq(a, b) <==> a <= b,
        forall|a: i16, b: i16| #[trigger] leq(a, b) <==> a <= b,
        forall|a: i32, b: i32| #[trigger] leq(a, b) <==> a <= b,
        forall|a: i64, b: i64| #[trigger] leq(a, b) <==> a <= b,
        forall|a: isize, b: isize| #[trigger] leq(a, b) <==> a <= b,
{
    broadcast use group_laws_cmp;

}

/// In a sequence that never steps down, no item is greater than a later
/// one.
pub proof fn lemma_no_descent_between<T: Ord>(s: Seq<T>, i: int, j: int)
    requires
        total_order::<T>(),
        no_descent(s),
        0 <= i < j < s.len(),
    ensures
        leq(s[i], s[j]),
    decreases j - i,
{
    lemma_order_laws::<T>();
    assert(!steps_down(s[j - 1], s[j - 1 + 1]));
    assert(!less(s[j], s[j - 1]));
    if i + 1 < j {
        lemma_no_descent_between(s, i, j - 1);
    }
}

/// For a totally ordered type, what `is_sorted` tests is `sorted`.
pub proof fn lemma_no_descent_is_sorted<T: Ord>(s: Seq<T>)
    requires
        total_order::<T>(),
    ensures
        comparable::<T>(),
        no_descent(s) <==> sorted(s),
{
    lemma_order_laws::<T>();
    if no_descent(s) {
        assert forall|i: int, j: int| 0 <= i < j < s.len() implies leq(
            #[trigger] s[i],
            #[trigger] s[j],
        ) by {
            lemma_no_descent_between(s, i, j);
        }
    }
    if sorted(s) {
        assert forall|i: int| 0 <= i && i + 1 < s.len() implies !steps_down(
            #[trigger] s[i],
            s[i + 1],
        ) by {
            assert(leq(s[i], s[i + 1]));
            assert(!less(s[i + 1], s[i]));
        }
    }
}

/// Exchanging two neighbours that do not tie leaves every group of tying
/// items in its order.
pub proof fn lemma_swap_keeps_ties<T: Ord>(s: Seq<T>, j: int, k: T)
    requires
        total_order::<T>(),
        0 < j < s.len(),
        !tie(s[j - 1], s[j]),
    ensures
        ties_of(s.update(j, s[j - 1]).update(j - 1, s[j]), k) == ties_of(s, k),
{
    lemma_order_laws::<T>();
    let low = s[j - 1];
    let high = s[j];
    let head = s.take(j - 1);
    let tail = s.skip(j + 1);
    let swapped = s.update(j, low).update(j - 1, high);
    assert(s =~= head.push(low).push(high) + tail);
    assert(swapped =~= head.push(high).push(low) + tail);
    lemma_ties_concat(head.push(low).push(high), tail, k);
    lemma_ties_concat(head.push(high).push(low), tail, k);
    lemma_ties_push(head, low, k);
    lemma_ties_push(head.push(low), high, k);
    lemma_ties_push(head, high, k);
    lemma_ties_push(head.push(high), low, k);
    if tie(low, k) && tie(high, k) {
        assert(tie(k, high));
        assert(tie(low, high));
    }
}

} // verus!
