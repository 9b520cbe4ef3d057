//! Tree sort: insert every key into an unbalanced binary search tree, then
//! read the tree in order. A key that is already in the tree is dropped, so
//! the output holds each distinct input key once.

use vstd::prelude::*;

verus! {

/// A node of the search tree. Each child is owned by its parent.
pub struct Node {
    pub key: i32,
    pub left: Option<Box<Node>>,
    pub right: Option<Box<Node>>,
}

/// The tree sorter.
pub struct TreeSort;

/// The keys held in `tree`.
pub open spec fn tree_keys(tree: Option<Box<Node>>) -> Set<i32>
    decreases tree,
{
    match tree {
        None => Set::empty(),
        Some(node) => tree_keys(node.left).union(tree_keys(node.right)).insert(node.key),
    }
}

/// The keys of `tree` in traversal order: left subtree, node, right subtree.
pub open spec fn in_order(tree: Option<Box<Node>>) -> Seq<i32>
    decreases tree,
{
    match tree {
        None => Seq::empty(),
        Some(node) => in_order(node.left).push(node.key) + in_order(node.right),
    }
}

/// The search-tree property: at every node, the keys to the left are
/// smaller than the node's key and the keys to the right are larger.
pub open spec fn is_search_tree(tree: Option<Box<Node>>) -> bool
    decreases tree,
{
    match tree {
        None => true,
        Some(node) => {
            &&& is_search_tree(node.left)
            &&& is_search_tree(node.right)
            &&& forall|k: i32| tree_keys(node.left).contains(k) ==> k < node.key
            &&& forall|k: i32| tree_keys(node.right).contains(k) ==> node.key < k
        },
    }
}

/// The tree that inserting `key` into `tree` gives: the key becomes a new
/// leaf where the search for it ends, and a tree that holds it already
/// stays as it is.
pub open spec fn with_key(tree: Option<Box<Node>>, key: i32) -> Option<Box<Node>>
    decreases tree,
{
    match tree {
        None => Some(Box::new(Node { key, left: None, right: None })),
        Some(node) => if key < node.key {
            Some(
                Box::new(Node { key: node.key, left: with_key(node.left, key), right: node.right }),
            )
        } else if key > node.key {
            Some(
                Box::new(Node { key: node.key, left: node.left, right: with_key(node.right, key) }),
            )
        } else {
            tree
        },
    }
}

/// Every item of `s` is smaller than each later one.
pub open spec fn strictly_increasing(s: Seq<i32>) -> bool {
    forall|i: int, j: int| 0 <= i < j < s.len() ==> s[i] < s[j]
}

/// Reading a search tree in order gives its keys, each once, ascending.
pub proof fn lemma_in_order_of_search_tree(tree: Option<Box<Node>>)
    requires
        is_search_tree(tree),
    ensures
        strictly_increasing(in_order(tree)),
        in_order(tree).to_set() == tree_keys(tree),
    decreases tree,
{
    match tree {
        None => {
            assert(in_order(tree).to_set() =~= tree_keys(tree));
        },
        Some(node) => {
            lemma_in_order_of_search_tree(node.left);
            lemma_in_order_of_search_tree(node.right);
            let l = in_order(node.left);
            let r = in_order(node.right);
            let s = in_order(tree);
            assert(s == l.push(node.key) + r);
            assert forall|i: int| 0 <= i < l.len() implies #[trigger] s[i] < node.key by {
                assert(l.to_set().contains(l[i]));
            }
            assert forall|i: int| l.len() < i < s.len() implies node.key < #[trigger] s[i] by {
                assert(s[i] == r[i - l.len() - 1]);
                assert(r.to_set().contains(r[i - l.len() - 1]));
            }
            assert forall|i: int, j: int| 0 <= i < j < s.len() implies s[i] < s[j] by {
                if j < l.len() {
                    assert(s[i] == l[i] && s[j] == l[j]);
                } else if i > l.len() {
                    assert(s[i] == r[i - l.len() - 1] && s[j] == r[j - l.len() - 1]);
                }
            }
            assert forall|k: i32| s.to_set().contains(k) <==> tree_keys(tree).contains(k) by {
                if s.to_set().contains(k) {
                    let i = choose|i: int| 0 <= i < s.len() && s[i] == k;
                    if i < l.len() {
                        assert(l[i] == k);
                        assert(l.to_set().contains(k));
                    } else if i > l.len() {
                        assert(r[i - l.len() - 1] == k);
                        assert(r.to_set().contains(k));
                    }
                }
                if tree_keys(tree).contains(k) {
                    if k == node.key {
                        assert(s[l.len() as int] == k);
                    } else if tree_keys(node.left).contains(k) {
                        assert(l.to_set().contains(k));
                        let i = choose|i: int| 0 <= i < l.len() && l[i] == k;
                        assert(s[i] == k);
                    } else {
                        assert(r.to_set().contains(k));
                        let i = choose|i: int| 0 <= i < r.len() && r[i] == k;
                        assert(s[l.len() + 1 + i] == k);
                    }
                }
            }
            assert(s.to_set() =~= tree_keys(tree));
        },
    }
}

/// A leaf that holds `key`.
pub fn new_node(key: i32) -> (node: Box<Node>)
    ensures
        node.key == key,
        node.left.is_none(),
        node.right.is_none(),
{
    Box::new(Node { key, left: None, right: None })
}

/// Inserts `key` into the search tree `node` and returns the tree. A key
/// that the tree already holds leaves it as it was.
pub fn insert(node: Option<Box<Node>>, key: i32) -> (out: Option<Box<Node>>)
    requires
        is_search_tree(node),
    ensures
        out == with_key(node, key),
        is_search_tree(out),
        tree_keys(out) == tree_keys(node).insert(key),
        tree_keys(node).contains(key) ==> out == node,
    decreases node,
{
    match node {
        Some(current) => {
            let Node { key: here, left, right } = *current;
            let out = if key < here {
                let grown = insert(left, key);
                assert(tree_keys(node) == tree_keys(left).union(tree_keys(right)).insert(here));
                assert(tree_keys(right).contains(key) ==> here < key);
                assert(tree_keys(node).contains(key) ==> tree_keys(left).contains(key));
                Some(Box::new(Node { key: here, left: grown, right }))
            } else if key > here {
                let grown = insert(right, key);
                assert(tree_keys(node) == tree_keys(left).union(tree_keys(right)).insert(here));
                assert(tree_keys(left).contains(key) ==> key < here);
                assert(tree_keys(node).contains(key) ==> tree_keys(right).contains(key));
                Some(Box::new(Node { key: here, left, right: grown }))
            } else {
                Some(Box::new(Node { key: here, left, right }))
            };
            assert(tree_keys(out) =~= tree_keys(node).insert(key));
            out
        },
        None => {
            let out = Some(new_node(key));
            assert(tree_keys(out) =~= tree_keys(node).insert(key));
            out
        },
    }
}

/// Appends the keys of `node` to `arr` in traversal order.
pub fn store_sorted(node: &Option<Box<Node>>, arr: &mut Vec<i32>)
    ensures
        final(arr)@ == old(arr)@ + in_order(*node),
    decreases *node,
{
    if let Some(current) = node {
        store_sorted(&current.left, arr);
        arr.push(current.key);
        store_sorted(&current.right, arr);
        assert(arr@ =~= old(arr)@ + in_order(*node));
    } else {
        assert(arr@ =~= old(arr)@ + in_order(*node));
    }
}

/// Sorts `arr` in place, keeping one copy of each distinct key: afterwards
/// `arr` is strictly increasing and holds exactly the keys it held before.
/// Where no key was repeated the result is a permutation of the input, and
/// an input of fewer than two keys is left as it is.
pub fn tree_sort(arr: &mut Vec<i32>)
    ensures
        strictly_increasing(final(arr)@),
        final(arr)@.to_set() == old(arr)@.to_set(),
        old(arr)@.no_duplicates() ==> final(arr)@.to_multiset() == old(arr)@.to_multiset(),
        old(arr)@.len() < 2 ==> final(arr)@ == old(arr)@,
{
    let mut root: Option<Box<Node>> = None;
    let n = arr.len();
    let mut i: usize = 0;
    while i < n
        invariant
            i <= n,
            n == arr@.len(),
            arr@ == old(arr)@,
            is_search_tree(root),
            tree_keys(root) == arr@.take(i as int).to_set(),
        decreases n - i,
    {
        let item = arr[i];
        root = insert(root, item);
        proof {
            assert(arr@.take(i + 1) =~= arr@.take(i as int).push(item));
            arr@.take(i as int).lemma_push_to_set_commute(item);
        }
        i = i + 1;
    }
    proof {
        assert(arr@.take(n as int) =~= arr@);
        lemma_in_order_of_search_tree(root);
    }
    arr.clear();
    store_sorted(&root, arr);
    proof {
        assert(arr@ =~= in_order(root));
        if old(arr)@.no_duplicates() {
            lemma_distinct_items_same_set(arr@, old(arr)@);
        }
        if old(arr)@.len() < 2 {
            assert(strictly_increasing(old(arr)@));
            lemma_strictly_increasing_unique(arr@, old(arr)@);
        }
    }
}

/// Two sequences without repeated items that hold the same items hold
/// each item equally often.
pub proof fn lemma_distinct_items_same_set(a: Seq<i32>, b: Seq<i32>)
    requires
        strictly_increasing(a),
        b.no_duplicates(),
        a.to_set() == b.to_set(),
    ensures
        a.to_multiset() == b.to_multiset(),
{
    assert(a.no_duplicates());
    a.lemma_multiset_has_no_duplicates();
    b.lemma_multiset_has_no_duplicates();
    a.to_multiset_ensures();
    b.to_multiset_ensures();
    assert forall|v: i32| a.to_multiset().count(v) == b.to_multiset().count(v) by {
        assert(a.to_set().contains(v) <==> a.contains(v));
        assert(b.to_set().contains(v) <==> b.contains(v));
        assert(a.to_multiset().contains(v) == a.contains(v));
        assert(b.to_multiset().contains(v) == b.contains(v));
    }
    assert(a.to_multiset() =~= b.to_multiset());
}

/// A set of keys has one strictly increasing arrangement only.
pub proof fn lemma_strictly_increasing_unique(a: Seq<i32>, b: Seq<i32>)
    requires
        strictly_increasing(a),
        strictly_increasing(b),
        a.to_set() == b.to_set(),
    ensures
        a == b,
    decreases a.len(),
{
    if a.len() == 0 {
        if b.len() > 0 {
            assert(b.to_set().contains(b[0]));
            assert(a.contains(b[0]));
        }
        assert(a =~= b);
    } else {
        let x = a.last();
        assert(a.to_set().contains(a[a.len() - 1]));
        assert(b.contains(x));
        let y = b.last();
        assert(b.to_set().contains(b[b.len() - 1]));
        assert(a.contains(y));
        let i = choose|i: int| 0 <= i < b.len() && b[i] == x;
        let j = choose|j: int| 0 <= j < a.len() && a[j] == y;
        assert(x == y);
        let a0 = a.drop_last();
        let b0 = b.drop_last();
        assert forall|v: i32| a0.to_set().contains(v) <==> b0.to_set().contains(v) by {
            if a0.to_set().contains(v) {
                let p = choose|p: int| 0 <= p < a0.len() && a0[p] == v;
                assert(a[p] == v);
                assert(a.to_set().contains(v));
                assert(b.contains(v));
                let q = choose|q: int| 0 <= q < b.len() && b[q] == v;
                assert(b0[q] == v);
            }
            if b0.to_set().contains(v) {
                let p = choose|p: int| 0 <= p < b0.len() && b0[p] == v;
                assert(b[p] == v);
                assert(b.to_set().contains(v));
                assert(a.contains(v));
                let q = choose|q: int| 0 <= q < a.len() && a[q] == v;
                assert(a0[q] == v);
            }
        }
        assert(a0.to_set() =~= b0.to_set());
        lemma_strictly_increasing_unique(a0, b0);
        assert(a =~= a0.push(x));
        assert(b =~= b0.push(y));
    }
}

/// Tree-sorting what tree sort returned gives the same sequence again: if
/// `once` is strictly increasing and `twice` is the strictly increasing
/// arrangement of the keys of `once`, the two are equal.
pub proof fn lemma_tree_sort_twice(once: Seq<i32>, twice: Seq<i32>)
    requires
        strictly_increasing(once),
        strictly_increasing(twice),
        twice.to_set() == once.to_set(),
    ensures
        twice == once,
{
    lemma_strictly_increasing_unique(twice, once);
}

} // verus!
