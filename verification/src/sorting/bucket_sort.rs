//! Bucket sort: scatter the items into buckets by the range their key
//! falls in, sort each bucket, and gather the buckets in index order.

use crate::sorting::insertion_sort::InsertionSort;
use crate::sorting::order::{
    comparable, lemma_integer_orders, lemma_order_laws, lemma_short_permutation,
    lemma_ties_concat, lemma_ties_none, lemma_ties_push, leq, less, permutation_of, sorted,
    stable_sort_of, tie, ties_of, total_order,
};
use crate::sorting::traits::Sorter;
use vstd::arithmetic::div_mod::lemma_div_is_ordered;
use vstd::arithmetic::mul::lemma_mul_inequality;
use vstd::prelude::*;
use vstd::seq_lib::*;
use vstd::std_specs::convert::IntoSpec;

verus! {

/// The bucket sorter.
pub struct BucketSort;

impl<T: Ord + Copy + Into<usize>> Sorter<T> for BucketSort {
    /// Bucket sort asks that the keys of the items follow their order.
    open spec fn admits() -> bool {
        keys_follow_order::<T>()
    }

    /// Sorts `arr` in place as `bucket_sort` does. The sort is stable.
    fn sort_inplace(arr: &mut [T])
        ensures
            stable_sort_of(final(arr)@, old(arr)@),
    {
        bucket_sort(arr);
    }
}

/// The key of an item: the index that its conversion gives.
pub open spec fn key_of<T: Into<usize>>(item: T) -> int {
    item.into_spec() as int
}

/// The conversion of `T` to an index computes `key_of`, and a larger item
/// never has a smaller key.
pub open spec fn keys_follow_order<T: Ord + Into<usize>>() -> bool {
    &&& T::obeys_into_spec()
    &&& forall|a: T, b: T| leq(a, b) ==> #[trigger] key_of(a) <= #[trigger] key_of(b)
}

/// The bucket for an item of key `key`, among `len + 1` buckets, where
/// `max` is the largest key: `len * key / max`, and bucket 0 when every
/// key is 0.
pub open spec fn bucket_of(len: int, key: int, max: int) -> int {
    if max == 0 {
        0
    } else {
        len * key / max
    }
}

/// Computes `bucket_of` without overflow.
pub fn bucket_index(len: usize, key: usize, max: usize) -> (index: usize)
    requires
        key <= max,
    ensures
        index == bucket_of(len as int, key as int, max as int),
        index <= len,
{
    if max == 0 {
        0
    } else {
        assert(0 <= len * key <= len * max && len * max <= 0xffff_ffff_ffff_ffff
            * 0xffff_ffff_ffff_ffff) by (nonlinear_arith)
            requires
                0 <= len <= 0xffff_ffff_ffff_ffff,
                0 <= key <= max <= 0xffff_ffff_ffff_ffff,
        ;
        assert((len * key) / (max as int) <= len) by {
            lemma_div_is_ordered(len * key, len * max, max as int);
            assert((len * max) / (max as int) == len) by (nonlinear_arith)
                requires
                    max > 0,
            ;
        }
        let wide: u128 = (len as u128) * (key as u128) / (max as u128);
        wide as usize
    }
}

/// Sorts `arr` in place with `arr.len() + 1` buckets. An empty slice is
/// left as it is. The bucket of an item is `bucket_of` applied to the
/// slice's length, the item's key and the key of the greatest item. Items
/// that tie come out in the order in which they came in.
pub fn bucket_sort<T: Ord + Copy + Into<usize>>(arr: &mut [T])
    requires
        total_order::<T>(),
        keys_follow_order::<T>(),
    ensures
        stable_sort_of(final(arr)@, old(arr)@),
        final(arr)@.len() == old(arr)@.len(),
        old(arr)@.len() < 2 ==> final(arr)@ == old(arr)@,
{
    if arr.len() == 0 {
        return;
    }
    let len = arr.len();
    proof {
        lemma_order_laws::<T>();
    }

    let mut max = arr[0];
    let mut m: usize = 1;
    while m < len
        invariant
            total_order::<T>(),
            comparable::<T>(),
            arr@.len() == len,
            arr@ == old(arr)@,
            1 <= m <= len,
            forall|x: int| 0 <= x < m ==> leq(#[trigger] arr@[x], max),
        decreases len - m,
    {
        proof {
            lemma_order_laws::<T>();
        }
        if max < arr[m] {
            assert(less(max, arr@[m as int]));
            max = arr[m];
        } else {
            assert(!less(max, arr@[m as int]));
        }
        m = m + 1;
    }
    let max_key: usize = max.into();

    let mut buckets: Vec<Vec<T>> = Vec::new();
    let mut made: usize = 0;
    while made < len
        invariant
            made <= len,
            buckets@.len() == made,
            forall|b: int| 0 <= b < buckets@.len() ==> (#[trigger] buckets@[b])@.len() == 0,
        decreases len - made,
    {
        buckets.push(Vec::new());
        made = made + 1;
    }
    buckets.push(Vec::new());
    proof {
        assert(contents(buckets@).flatten() =~= Seq::<T>::empty()) by {
            lemma_flatten_empties(contents(buckets@));
        }
        assert(arr@.take(0) =~= Seq::<T>::empty());
        assert(contents(buckets@).flatten() == arr@.take(0));
    }

    let mut n: usize = 0;
    while n < len
        invariant
            total_order::<T>(),
            keys_follow_order::<T>(),
            arr@.len() == len,
            arr@ == old(arr)@,
            n <= len,
            buckets@.len() == len + 1,
            forall|x: int| 0 <= x < len ==> leq(#[trigger] arr@[x], max),
            max_key == key_of(max),
            permutation_of(contents(buckets@).flatten(), arr@.take(n as int)),
            forall|k: T| #[trigger]
                ties_of(contents(buckets@).flatten(), k) == ties_of(arr@.take(n as int), k),
            well_scattered(contents(buckets@), len as int, max_key as int),
        decreases len - n,
    {
        let ghost before = contents(buckets@);
        let item = arr[n];
        let key: usize = item.into();
        assert(key_of(item) <= key_of(max));
        let index = bucket_index(len, key, max_key);
        buckets[index].push(item);
        proof {
            let after = contents(buckets@);
            assert(after[index as int] == before[index as int].push(item));
            assert forall|i: int| 0 <= i < before.len() && i != index implies after[i]
                == before[i] by {}
            lemma_flatten_pushed(before, after, index as int, item);
            assert forall|k: T| #[trigger]
                ties_of(after.flatten(), k) == ties_of(arr@.take(n + 1), k) by {
                lemma_flatten_ties_pushed(
                    before,
                    after,
                    index as int,
                    item,
                    k,
                    len as int,
                    max_key as int,
                );
                lemma_ties_push(arr@.take(n as int), item, k);
                assert(arr@.take(n + 1) =~= arr@.take(n as int).push(item));
                assert(ties_of(before.flatten(), k) == ties_of(arr@.take(n as int), k));
            }
            to_multiset_build(arr@.take(n as int), item);
            assert(arr@.take(n + 1) =~= arr@.take(n as int).push(item));
            assert forall|b: int, x: int|
                0 <= b < after.len() && 0 <= x < after[b].len() implies bucket_of(
                len as int,
                key_of(#[trigger] after[b][x]),
                max_key as int,
            ) == b by {
                if b == index && x == before[b].len() {
                } else {
                    assert(after[b][x] == before[b][x]);
                }
            }
        }
        n = n + 1;
    }
    assert(arr@.take(len as int) =~= arr@);

    let mut s: usize = 0;
    while s < buckets.len()
        invariant
            total_order::<T>(),
            arr@.len() == len,
            arr@ == old(arr)@,
            s <= buckets@.len(),
            buckets@.len() == len + 1,
            permutation_of(contents(buckets@).flatten(), arr@),
            forall|k: T| #[trigger] ties_of(contents(buckets@).flatten(), k) == ties_of(arr@, k),
            well_scattered(contents(buckets@), len as int, max_key as int),
            forall|b: int| 0 <= b < s ==> sorted(#[trigger] contents(buckets@)[b]),
        decreases buckets@.len() - s,
    {
        let ghost before = contents(buckets@);
        InsertionSort::sort_inplace(buckets[s].as_mut_slice());
        proof {
            let after = contents(buckets@);
            assert(sorted(after[s as int]));
            assert(permutation_of(after[s as int], before[s as int]));
            assert forall|i: int| 0 <= i < before.len() && i != s implies after[i]
                == before[i] by {}
            lemma_flatten_permuted(before, after, s as int);
            assert forall|k: T| #[trigger] ties_of(after.flatten(), k) == ties_of(arr@, k) by {
                assert(ties_of(after[s as int], k) == ties_of(before[s as int], k));
                lemma_flatten_ties_kept(before, after, s as int, k);
                assert(ties_of(before.flatten(), k) == ties_of(arr@, k));
            }
            assert forall|b: int, x: int|
                0 <= b < after.len() && 0 <= x < after[b].len() implies bucket_of(
                len as int,
                key_of(#[trigger] after[b][x]),
                max_key as int,
            ) == b by {
                if b == s {
                    after[b].to_multiset_ensures();
                    before[b].to_multiset_ensures();
                    assert(after[b].contains(after[b][x]));
                    assert(after[b].to_multiset().count(after[b][x]) > 0);
                    assert(before[b].to_multiset().count(after[b][x]) > 0);
                    assert(before[b].contains(after[b][x]));
                    let y = choose|y: int| 0 <= y < before[b].len() && before[b][y] == after[b][x];
                    assert(before[b][y] == after[b][x]);
                } else {
                    assert(after[b][x] == before[b][x]);
                }
            }
        }
        s = s + 1;
    }

    let ghost bins = contents(buckets@);
    proof {
        lemma_order_laws::<T>();
        assert forall|b: int, c: int, x: int, y: int|
            0 <= b < c < bins.len() && 0 <= x < bins[b].len() && 0 <= y < bins[c].len() implies leq(
            #[trigger] bins[b][x],
            #[trigger] bins[c][y],
        ) by {
            let low = bins[b][x];
            let high = bins[c][y];
            if leq(high, low) {
                lemma_bucket_of_monotone(len as int, key_of(high), key_of(low), max_key as int);
            }
        }
        lemma_flatten_sorted(bins);
        bins.flatten().to_multiset_ensures();
        arr@.to_multiset_ensures();
        assert(stable_sort_of(bins.flatten(), old(arr)@));
    }
    let mut i: usize = 0;
    let mut b: usize = 0;
    while b < buckets.len()
        invariant
            arr@.len() == len,
            bins == contents(buckets@),
            bins.flatten().len() == len,
            stable_sort_of(bins.flatten(), old(arr)@),
            b <= buckets@.len(),
            i == bins.take(b as int).flatten().len(),
            i <= len,
            arr@.take(i as int) == bins.take(b as int).flatten(),
        decreases buckets@.len() - b,
    {
        proof {
            lemma_flatten_around(bins, b as int);
        }
        let mut x: usize = 0;
        while x < buckets[b].len()
            invariant
                arr@.len() == len,
                bins == contents(buckets@),
                b < buckets@.len(),
                x <= bins[b as int].len(),
                i == bins.take(b as int).flatten().len() + x,
                i + (bins[b as int].len() - x) <= len,
                arr@.take(i as int) == bins.take(b as int).flatten() + bins[b as int].take(x as int),
            decreases bins[b as int].len() - x,
        {
            let ghost done = arr@.take(i as int);
            let item = buckets[b][x];
            arr[i] = item;
            proof {
                assert(arr@.take(i + 1) =~= done.push(item));
                assert(bins[b as int].take(x + 1) =~= bins[b as int].take(x as int).push(item));
                assert(done.push(item) =~= bins.take(b as int).flatten() + bins[b as int].take(
                    x + 1,
                ));
            }
            i = i + 1;
            x = x + 1;
        }
        proof {
            assert(bins[b as int].take(x as int) =~= bins[b as int]);
            assert(bins.take(b + 1) =~= bins.take(b as int) + seq![bins[b as int]]);
            lemma_flatten_concat(bins.take(b as int), seq![bins[b as int]]);
            seq![bins[b as int]].lemma_flatten_one_element();
        }
        b = b + 1;
    }
    proof {
        assert(bins.take(b as int) =~= bins);
        assert(arr@.take(i as int) =~= arr@);
        if len < 2 {
            lemma_short_permutation(arr@, old(arr)@);
        }
    }
}

/// The unsigned integer types that convert to an index without loss can
/// be bucket-sorted: a larger value never has a smaller key.
pub proof fn lemma_unsigned_keys_follow_order()
    ensures
        keys_follow_order::<u8>(),
        keys_follow_order::<u16>(),
        forall|v: u8| #[trigger] key_of(v) == v,
        forall|v: u16| #[trigger] key_of(v) == v,
{
    lemma_integer_orders();
}

/// Every item of bucket `b` has `b` as its bucket, for each bucket.
pub open spec fn well_scattered<T: Into<usize>>(bins: Seq<Seq<T>>, len: int, max: int) -> bool {
    forall|b: int, x: int|
        0 <= b < bins.len() && 0 <= x < bins[b].len() ==> bucket_of(
            len,
            key_of(#[trigger] bins[b][x]),
            max,
        ) == b
}

/// The contents of the buckets, one sequence for each.
pub open spec fn contents<T>(buckets: Seq<Vec<T>>) -> Seq<Seq<T>> {
    buckets.map_values(|bucket: Vec<T>| bucket@)
}

/// A larger key never lands in an earlier bucket.
pub proof fn lemma_bucket_of_monotone(len: int, low: int, high: int, max: int)
    requires
        0 <= len,
        0 <= low <= high,
        0 <= max,
    ensures
        bucket_of(len, low, max) <= bucket_of(len, high, max),
{
    if max > 0 {
        lemma_mul_inequality(low, high, len);
        assert(len * low == low * len && len * high == high * len) by (nonlinear_arith);
        lemma_div_is_ordered(len * low, len * high, max);
    }
}

/// Items that tie have the same key.
pub proof fn lemma_ties_share_key<T: Ord + Into<usize>>(a: T, b: T)
    requires
        total_order::<T>(),
        keys_follow_order::<T>(),
        tie(a, b),
    ensures
        key_of(a) == key_of(b),
{
    lemma_order_laws::<T>();
    assert(leq(a, b) && leq(b, a));
}

/// A sequence of buckets read in index order is the buckets before `index`,
/// then bucket `index`, then the buckets after it.
pub proof fn lemma_flatten_around<T>(bins: Seq<Seq<T>>, index: int)
    requires
        0 <= index < bins.len(),
    ensures
        bins.flatten() == bins.take(index).flatten() + bins[index] + bins.skip(
            index + 1,
        ).flatten(),
{
    let head = bins.take(index);
    let one = seq![bins[index]];
    let tail = bins.skip(index + 1);
    assert(bins =~= head + one + tail);
    lemma_flatten_concat(head + one, tail);
    lemma_flatten_concat(head, one);
    one.lemma_flatten_one_element();
}

/// Empty buckets hold nothing together.
pub proof fn lemma_flatten_empties<T>(bins: Seq<Seq<T>>)
    requires
        forall|b: int| 0 <= b < bins.len() ==> (#[trigger] bins[b]).len() == 0,
    ensures
        bins.flatten().len() == 0,
    decreases bins.len(),
{
    if bins.len() > 0 {
        lemma_flatten_empties(bins.drop_first());
    }
}

/// Rearranging the items of one bucket rearranges what the buckets hold
/// together.
pub proof fn lemma_flatten_permuted<T>(before: Seq<Seq<T>>, after: Seq<Seq<T>>, index: int)
    requires
        0 <= index < before.len(),
        after.len() == before.len(),
        forall|i: int| 0 <= i < before.len() && i != index ==> after[i] == before[i],
        permutation_of(after[index], before[index]),
    ensures
        permutation_of(after.flatten(), before.flatten()),
{
    lemma_flatten_around(before, index);
    lemma_flatten_around(after, index);
    assert(after.take(index) =~= before.take(index));
    assert(after.skip(index + 1) =~= before.skip(index + 1));
    let head = before.take(index).flatten();
    let tail = before.skip(index + 1).flatten();
    lemma_multiset_commutative(head + before[index], tail);
    lemma_multiset_commutative(head, before[index]);
    lemma_multiset_commutative(head + after[index], tail);
    lemma_multiset_commutative(head, after[index]);
}

/// Appending an item to one bucket adds it to what the buckets hold
/// together.
pub proof fn lemma_flatten_pushed<T>(before: Seq<Seq<T>>, after: Seq<Seq<T>>, index: int, item: T)
    requires
        0 <= index < before.len(),
        after.len() == before.len(),
        forall|i: int| 0 <= i < before.len() && i != index ==> after[i] == before[i],
        after[index] == before[index].push(item),
    ensures
        after.flatten().to_multiset() == before.flatten().to_multiset().insert(item),
{
    broadcast use vstd::multiset::group_multiset_axioms;

    lemma_flatten_around(before, index);
    lemma_flatten_around(after, index);
    assert(after.take(index) =~= before.take(index));
    assert(after.skip(index + 1) =~= before.skip(index + 1));
    let head = before.take(index).flatten();
    let tail = before.skip(index + 1).flatten();
    lemma_multiset_commutative(head + before[index], tail);
    lemma_multiset_commutative(head, before[index]);
    lemma_multiset_commutative(head + after[index], tail);
    lemma_multiset_commutative(head, after[index]);
    to_multiset_build(before[index], item);
    assert(after.flatten().to_multiset() =~= before.flatten().to_multiset().insert(item));
}

/// `item` lies in one of `bins`.
pub open spec fn held_in<T>(bins: Seq<Seq<T>>, item: T) -> bool {
    exists|b: int, x: int|
        0 <= b < bins.len() && 0 <= x < bins[b].len() && #[trigger] bins[b][x] == item
}

/// Every item of the buckets read in index order lies in one of them.
pub proof fn lemma_flatten_items_held<T>(bins: Seq<Seq<T>>)
    ensures
        forall|p: int|
            0 <= p < bins.flatten().len() ==> held_in(bins, #[trigger] bins.flatten()[p]),
    decreases bins.len(),
{
    if bins.len() > 0 {
        let first = bins.first();
        let rest = bins.drop_first();
        let flat = bins.flatten();
        lemma_flatten_items_held(rest);
        assert forall|p: int| 0 <= p < flat.len() implies held_in(bins, #[trigger] flat[p]) by {
            if p < first.len() {
                assert(bins[0][p] == flat[p]);
            } else {
                let q = p - first.len();
                assert(held_in(rest, rest.flatten()[q]));
                let (b, x) = choose|b: int, x: int|
                    0 <= b < rest.len() && 0 <= x < rest[b].len() && #[trigger] rest[b][x]
                        == rest.flatten()[q];
                assert(bins[b + 1][x] == flat[p]);
            }
        }
    }
}

/// Sorted buckets, each holding nothing greater than any item of a later
/// bucket, read in index order give a sorted sequence.
pub proof fn lemma_flatten_sorted<T: Ord>(bins: Seq<Seq<T>>)
    requires
        total_order::<T>(),
        forall|b: int| 0 <= b < bins.len() ==> sorted(#[trigger] bins[b]),
        forall|b: int, c: int, x: int, y: int|
            0 <= b < c < bins.len() && 0 <= x < bins[b].len() && 0 <= y < bins[c].len() ==> leq(
                #[trigger] bins[b][x],
                #[trigger] bins[c][y],
            ),
    ensures
        sorted(bins.flatten()),
    decreases bins.len(),
{
    if bins.len() > 0 {
        let first = bins.first();
        let rest = bins.drop_first();
        let flat = bins.flatten();
        lemma_flatten_sorted(rest);
        lemma_flatten_items_held(rest);
        assert forall|p: int, q: int| 0 <= p < q < flat.len() implies leq(
            #[trigger] flat[p],
            #[trigger] flat[q],
        ) by {
            if q < first.len() {
                assert(leq(first[p], first[q]));
            } else if p < first.len() {
                let r = q - first.len();
                assert(held_in(rest, rest.flatten()[r]));
                let (b, x) = choose|b: int, x: int|
                    0 <= b < rest.len() && 0 <= x < rest[b].len() && #[trigger] rest[b][x]
                        == rest.flatten()[r];
                assert(leq(bins[0][p], bins[b + 1][x]));
            } else {
                assert(leq(rest.flatten()[p - first.len()], rest.flatten()[q - first.len()]));
            }
        }
    }
}

/// Rearranging one bucket without reordering the items that tie with `k`
/// leaves the ties of `k` among all the buckets in their order.
pub proof fn lemma_flatten_ties_kept<T: Ord>(
    before: Seq<Seq<T>>,
    after: Seq<Seq<T>>,
    index: int,
    k: T,
)
    requires
        0 <= index < before.len(),
        after.len() == before.len(),
        forall|i: int| 0 <= i < before.len() && i != index ==> after[i] == before[i],
        ties_of(after[index], k) == ties_of(before[index], k),
    ensures
        ties_of(after.flatten(), k) == ties_of(before.flatten(), k),
{
    lemma_flatten_around(before, index);
    lemma_flatten_around(after, index);
    assert(after.take(index) =~= before.take(index));
    assert(after.skip(index + 1) =~= before.skip(index + 1));
    let head = before.take(index).flatten();
    let tail = before.skip(index + 1).flatten();
    lemma_ties_concat(head + before[index], tail, k);
    lemma_ties_concat(head, before[index], k);
    lemma_ties_concat(head + after[index], tail, k);
    lemma_ties_concat(head, after[index], k);
}

/// Appending an item to its own bucket puts it behind every item that it
/// ties with: such items lie in that bucket or in an earlier one.
pub proof fn lemma_flatten_ties_pushed<T: Ord + Into<usize>>(
    before: Seq<Seq<T>>,
    after: Seq<Seq<T>>,
    index: int,
    item: T,
    k: T,
    len: int,
    max: int,
)
    requires
        total_order::<T>(),
        keys_follow_order::<T>(),
        0 <= index < before.len(),
        after.len() == before.len(),
        forall|i: int| 0 <= i < before.len() && i != index ==> after[i] == before[i],
        after[index] == before[index].push(item),
        well_scattered(before, len, max),
        bucket_of(len, key_of(item), max) == index,
    ensures
        ties_of(after.flatten(), k) == if tie(item, k) {
            ties_of(before.flatten(), k).push(item)
        } else {
            ties_of(before.flatten(), k)
        },
{
    lemma_order_laws::<T>();
    lemma_flatten_around(before, index);
    lemma_flatten_around(after, index);
    assert(after.take(index) =~= before.take(index));
    assert(after.skip(index + 1) =~= before.skip(index + 1));
    let head = before.take(index).flatten();
    let later = before.skip(index + 1);
    let tail = later.flatten();
    lemma_ties_concat(head + before[index], tail, k);
    lemma_ties_concat(head, before[index], k);
    lemma_ties_concat(head + after[index], tail, k);
    lemma_ties_concat(head, after[index], k);
    lemma_ties_push(before[index], item, k);
    if tie(item, k) {
        lemma_flatten_items_held(later);
        assert forall|p: int| 0 <= p < tail.len() implies !tie(#[trigger] tail[p], k) by {
            assert(held_in(later, tail[p]));
            let (b, x) = choose|b: int, x: int|
                0 <= b < later.len() && 0 <= x < later[b].len() && #[trigger] later[b][x]
                    == tail[p];
            assert(before[index + 1 + b][x] == tail[p]);
            if tie(tail[p], k) {
                assert(tie(k, item));
                assert(tie(tail[p], item));
                lemma_ties_share_key(tail[p], item);
            }
        }
        lemma_ties_none(tail, k);
        assert(ties_of(head, k) + ties_of(before[index], k).push(item) + ties_of(tail, k)
            =~= (ties_of(head, k) + ties_of(before[index], k) + ties_of(tail, k)).push(item));
    }
}

} // verus!
