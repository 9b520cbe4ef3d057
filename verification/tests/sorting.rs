use algorithms::sorting::bucket_sort::{bucket_index, bucket_sort};
use algorithms::sorting::merge_sort::merge;
use algorithms::sorting::merge_sort;
use algorithms::sorting::tree_sort::{insert, new_node, store_sorted, tree_sort, Node};
use algorithms::sorting::{BucketSort, InsertionSort, Sorter};
use std::cmp::Ordering;

#[test]
fn is_sorted() {
    let empty: [isize; 0] = [];
    assert!(algorithms::sorting::is_sorted(&empty));
    assert!(algorithms::sorting::is_sorted(&["a"]));
    assert!(algorithms::sorting::is_sorted(&[1, 2, 3]));
    assert!(algorithms::sorting::is_sorted(&[0, 1, 1]));

    assert!(!algorithms::sorting::is_sorted(&[1, 0]));
    assert!(!algorithms::sorting::is_sorted(&[2, 3, 1, -1, 5]));
}

#[test]
fn test_tree_sort() {
    let mut arr: Vec<i32> = vec![5, 4, 7, 2, 11];
    tree_sort(&mut arr);
    assert_eq!(arr, vec![2, 4, 5, 7, 11]);
}

#[test]
fn test_tree_sort_empty() {
    let mut arr: Vec<i32> = vec![];
    tree_sort(&mut arr);
    assert_eq!(arr, vec![]);
}

#[test]
fn test_tree_sort_one() {
    let mut arr: Vec<i32> = vec![1];
    tree_sort(&mut arr);
    assert_eq!(arr, vec![1]);
}

#[test]
fn test_error() {
    let mut arr: Vec<i32> = vec![5, 4, 7, 2, 11];
    tree_sort(&mut arr);
    assert_ne!(arr, vec![4, 2, 5, 7, 12]);
}

#[test]
fn test_many() {
    let mut arr: Vec<i32> = vec![5, 4, 7, 2, 11, 1, 3, 6, 8, 10, 12, 9];
    tree_sort(&mut arr);
    assert_eq!(arr, vec![1, 2, 3, 4, 5, 6, 7, 8, 9, 10, 11, 12]);
}

#[test]
fn test_negative() {
    let mut arr: Vec<i32> = vec![5, 4, 7, 2, 11, -1, -3, -6, -8, -10, -12, -9];
    tree_sort(&mut arr);
    assert_eq!(arr, vec![-12, -10, -9, -8, -6, -3, -1, 2, 4, 5, 7, 11]);
}

#[test]
fn test_big_numbers() {
    let mut arr: Vec<i32> = vec![5, 4, 7, 2, 11, 100, 300, 600, 800, 1000, 1200, 900];
    tree_sort(&mut arr);
    assert_eq!(
        arr,
        vec![2, 4, 5, 7, 11, 100, 300, 600, 800, 900, 1000, 1200]
    );
}

#[test]
fn tree_sort_drops_repeated_keys() {
    let mut arr: Vec<i32> = vec![3, 3];
    tree_sort(&mut arr);
    assert_eq!(arr, vec![3]);

    let mut more: Vec<i32> = vec![2, 9, 2, -4, 9, 9, 0];
    tree_sort(&mut more);
    assert_eq!(more, vec![-4, 0, 2, 9]);
}

#[test]
fn tree_sort_twice_is_tree_sort_once() {
    let mut arr: Vec<i32> = vec![8, -1, 8, 3, i32::MAX, i32::MIN, 3];
    tree_sort(&mut arr);
    let once: Vec<i32> = arr.clone();
    tree_sort(&mut arr);
    assert_eq!(arr, once);
    assert_eq!(once, vec![i32::MIN, -1, 3, 8, i32::MAX]);
}

#[test]
fn tree_insert_and_traversal() {
    let leaf: Box<Node> = new_node(4);
    assert_eq!(leaf.key, 4);
    assert!(leaf.left.is_none());
    assert!(leaf.right.is_none());

    let mut root: Option<Box<Node>> = None;
    for key in [4, 2, 6, 2, 5] {
        root = insert(root, key);
    }
    let top: &Node = root.as_ref().unwrap();
    assert_eq!(top.key, 4);
    assert_eq!(top.left.as_ref().unwrap().key, 2);
    assert_eq!(top.right.as_ref().unwrap().key, 6);
    assert_eq!(top.right.as_ref().unwrap().left.as_ref().unwrap().key, 5);

    let mut out: Vec<i32> = vec![100];
    store_sorted(&root, &mut out);
    assert_eq!(out, vec![100, 2, 4, 5, 6]);
}

#[test]
fn merge_sort_example() {
    let input: [i32; 4] = [5, 3, 5, 1];
    assert_eq!(merge_sort(&input), vec![1, 3, 5, 5]);
}

#[test]
fn merge_sort_keeps_every_item() {
    let input: [i32; 4] = [2, 3, 0, 1];
    assert_eq!(merge_sort(&input), vec![0, 1, 2, 3]);
    let longer: [i64; 9] = [9, -2, 7, 7, 0, 13, -2, 5, 1];
    assert_eq!(merge_sort(&longer), vec![-2, -2, 0, 1, 5, 7, 7, 9, 13]);
}

#[test]
fn merge_sort_short_inputs_unchanged() {
    let empty: [u8; 0] = [];
    assert_eq!(merge_sort(&empty), Vec::<u8>::new());
    let one: [u8; 1] = [42];
    assert_eq!(merge_sort(&one), vec![42]);
}

#[test]
fn merge_sort_twice_is_merge_sort_once() {
    let input: [u16; 7] = [500, 3, 77, 3, 0, 65535, 12];
    let once: Vec<u16> = merge_sort(&input);
    let twice: Vec<u16> = merge_sort(&once);
    assert_eq!(once, vec![0, 3, 3, 12, 77, 500, 65535]);
    assert_eq!(twice, once);
}

#[derive(Clone, Copy, Debug)]
struct Card {
    rank: u8,
    seat: u8,
}

impl PartialEq for Card {
    fn eq(&self, other: &Self) -> bool {
        self.rank == other.rank
    }
}

impl Eq for Card {}

impl PartialOrd for Card {
    fn partial_cmp(&self, other: &Self) -> Option<Ordering> {
        Some(self.cmp(other))
    }
}

impl Ord for Card {
    fn cmp(&self, other: &Self) -> Ordering {
        self.rank.cmp(&other.rank)
    }
}

impl From<Card> for usize {
    fn from(card: Card) -> usize {
        usize::from(card.rank)
    }
}

fn seats(cards: &[Card]) -> Vec<(u8, u8)> {
    cards.iter().map(|c| (c.rank, c.seat)).collect()
}

#[test]
fn merge_sort_is_stable() {
    let input: [Card; 6] = [
        Card { rank: 5, seat: 0 },
        Card { rank: 3, seat: 1 },
        Card { rank: 5, seat: 2 },
        Card { rank: 1, seat: 3 },
        Card { rank: 3, seat: 4 },
        Card { rank: 5, seat: 5 },
    ];
    let out: Vec<Card> = merge_sort(&input);
    assert_eq!(seats(&out), vec![(1, 3), (3, 1), (3, 4), (5, 0), (5, 2), (5, 5)]);
}

#[test]
fn merge_prefers_left_on_ties() {
    let left: [Card; 2] = [Card { rank: 2, seat: 0 }, Card { rank: 4, seat: 1 }];
    let right: [Card; 3] = [
        Card { rank: 2, seat: 7 },
        Card { rank: 4, seat: 8 },
        Card { rank: 9, seat: 9 },
    ];
    let out: Vec<Card> = merge(&left, &right);
    assert_eq!(seats(&out), vec![(2, 0), (2, 7), (4, 1), (4, 8), (9, 9)]);
}

#[test]
fn merge_takes_all_that_is_left_over() {
    let left: [i32; 3] = [1, 2, 3];
    let right: [i32; 1] = [0];
    assert_eq!(merge(&left, &right), vec![0, 1, 2, 3]);
    assert_eq!(merge(&right, &left), vec![0, 1, 2, 3]);
    let none: [i32; 0] = [];
    assert_eq!(merge(&none, &left), vec![1, 2, 3]);
    assert_eq!(merge(&left, &none), vec![1, 2, 3]);
}

#[test]
fn bucket_sort_example() {
    let mut arr: [u8; 4] = [5, 3, 5, 1];
    bucket_sort(&mut arr);
    assert_eq!(arr, [1, 3, 5, 5]);
}

#[test]
fn bucket_sort_through_the_sorter() {
    let mut arr: Vec<u16> = vec![900, 12, 65535, 0, 12, 431, 7];
    BucketSort::sort_inplace(&mut arr);
    assert_eq!(arr, vec![0, 7, 12, 12, 431, 900, 65535]);
    let once: Vec<u16> = arr.clone();
    BucketSort::sort_inplace(&mut arr);
    assert_eq!(arr, once);
}

#[test]
fn bucket_sort_edge_cases() {
    let mut empty: [u8; 0] = [];
    bucket_sort(&mut empty);
    assert_eq!(empty, []);

    let mut one: [u8; 1] = [200];
    bucket_sort(&mut one);
    assert_eq!(one, [200]);

    let mut zeros: [u8; 3] = [0, 0, 0];
    bucket_sort(&mut zeros);
    assert_eq!(zeros, [0, 0, 0]);

    let mut same: [u16; 4] = [9, 9, 9, 9];
    bucket_sort(&mut same);
    assert_eq!(same, [9, 9, 9, 9]);
}

#[test]
fn bucket_index_values() {
    assert_eq!(bucket_index(4, 5, 5), 4);
    assert_eq!(bucket_index(4, 3, 5), 2);
    assert_eq!(bucket_index(4, 1, 5), 0);
    assert_eq!(bucket_index(4, 0, 5), 0);
    assert_eq!(bucket_index(7, 0, 0), 0);
    assert_eq!(bucket_index(10, 99, 100), 9);
    assert_eq!(bucket_index(usize::MAX, usize::MAX - 1, usize::MAX), usize::MAX - 1);
    assert_eq!(bucket_index(usize::MAX, usize::MAX, usize::MAX), usize::MAX);
}

#[test]
fn insertion_sort_sorts() {
    let mut arr: Vec<i32> = vec![4, -1, 4, 0, 17, -30, 2];
    InsertionSort::sort_inplace(&mut arr);
    assert_eq!(arr, vec![-30, -1, 0, 2, 4, 4, 17]);

    let mut empty: Vec<i32> = vec![];
    InsertionSort::sort_inplace(&mut empty);
    assert_eq!(empty, vec![]);

    let mut one: Vec<i32> = vec![6];
    InsertionSort::sort_inplace(&mut one);
    assert_eq!(one, vec![6]);
}

#[test]
fn sorters_agree_and_outputs_are_sorted() {
    let input: Vec<u8> = vec![13, 200, 7, 7, 0, 255, 91, 13, 64, 1];
    let merged: Vec<u8> = merge_sort(&input);
    let mut bucketed: Vec<u8> = input.clone();
    bucket_sort(&mut bucketed);
    let mut inserted: Vec<u8> = input.clone();
    InsertionSort::sort_inplace(&mut inserted);
    assert_eq!(merged, vec![0, 1, 7, 7, 13, 13, 64, 91, 200, 255]);
    assert_eq!(bucketed, merged);
    assert_eq!(inserted, merged);
    assert!(algorithms::sorting::is_sorted(&merged));
    assert!(!algorithms::sorting::is_sorted(&input));
}

fn shuffled_hand() -> Vec<Card> {
    vec![
        Card { rank: 9, seat: 0 },
        Card { rank: 2, seat: 1 },
        Card { rank: 9, seat: 2 },
        Card { rank: 0, seat: 3 },
        Card { rank: 2, seat: 4 },
        Card { rank: 9, seat: 5 },
        Card { rank: 4, seat: 6 },
    ]
}

#[test]
fn bucket_sort_keeps_ties_in_order() {
    let mut hand: Vec<Card> = shuffled_hand();
    bucket_sort(&mut hand);
    assert_eq!(
        seats(&hand),
        vec![(0, 3), (2, 1), (2, 4), (4, 6), (9, 0), (9, 2), (9, 5)]
    );
}

#[test]
fn insertion_sort_keeps_ties_in_order() {
    let mut hand: Vec<Card> = shuffled_hand();
    InsertionSort::sort_inplace(&mut hand);
    assert_eq!(
        seats(&hand),
        vec![(0, 3), (2, 1), (2, 4), (4, 6), (9, 0), (9, 2), (9, 5)]
    );
}

#[test]
fn stable_sorters_agree_on_ties() {
    let hand: Vec<Card> = shuffled_hand();
    let merged: Vec<Card> = merge_sort(&hand);
    let mut bucketed: Vec<Card> = hand.clone();
    BucketSort::sort_inplace(&mut bucketed);
    assert_eq!(seats(&merged), seats(&bucketed));
    let again: Vec<Card> = merge_sort(&merged);
    assert_eq!(seats(&again), seats(&merged));
}

#[test]
fn is_sorted_on_short_and_tied_inputs() {
    let one: [i32; 1] = [7];
    assert!(algorithms::sorting::is_sorted(&one));
    let ties: [u8; 4] = [3, 3, 3, 3];
    assert!(algorithms::sorting::is_sorted(&ties));
    let dip_at_end: [i64; 4] = [1, 2, 3, 2];
    assert!(!algorithms::sorting::is_sorted(&dip_at_end));
}
