use algorithms::data_structures::Queue;

#[test]
fn starts_empty() {
    let mut q: Queue<String> = Queue::new();

    assert!(q.is_empty());
    assert_eq!(q.dequeue(), None);
    assert_eq!(q.len(), 0);
    assert_eq!(q.peek(), None);
}

#[test]
fn fills_and_empties() {
    let mut q: Queue<i32> = Queue::new();

    q.enqueue(1);
    q.enqueue(2);
    q.enqueue(3);

    assert!(!q.is_empty());
    assert_eq!(q.len(), 3);
    assert_eq!(q.peek(), Some(&1));

    q.dequeue();
    q.dequeue();
    q.dequeue();

    assert!(q.is_empty());
    assert_eq!(q.dequeue(), None);
    assert_eq!(q.len(), 0);
    assert_eq!(q.peek(), None);
}

#[test]
fn alternate_mutations() {
    let mut q: Queue<&str> = Queue::new();

    q.enqueue("A");

    assert!(!q.is_empty());
    assert_eq!(q.len(), 1);
    assert_eq!(q.peek(), Some(&"A"));

    q.enqueue("B");

    assert!(!q.is_empty());
    assert_eq!(q.len(), 2);
    assert_eq!(q.peek(), Some(&"A"));

    q.dequeue();

    assert!(!q.is_empty());
    assert_eq!(q.len(), 1);
    assert_eq!(q.peek(), Some(&"B"));

    q.enqueue("C");
    q.enqueue("D");

    assert!(!q.is_empty());
    assert_eq!(q.len(), 3);
    assert_eq!(q.peek(), Some(&"B"));

    q.dequeue();
    q.dequeue();

    assert!(!q.is_empty());
    assert_eq!(q.len(), 1);
    assert_eq!(q.peek(), Some(&"D"));
}

#[test]
fn enqueue_two_dequeue_one() {
    let mut q: Queue<i32> = Queue::new();
    q.enqueue(1);
    q.enqueue(2);
    assert_eq!(q.dequeue(), Some(1));
    assert_eq!(q.peek(), Some(&2));
}

#[test]
fn many_enqueues_keep_the_first_at_the_head() {
    let mut q: Queue<u32> = Queue::new();
    let mut n: u32 = 0;
    while n < 100 {
        q.enqueue(n + 7);
        n += 1;
        assert_eq!(q.len(), usize::try_from(n).unwrap());
        assert_eq!(q.peek(), Some(&7));
    }
}

#[test]
fn interleaving_hands_items_out_in_arrival_order() {
    let mut q: Queue<u32> = Queue::new();
    let mut handed_out: Vec<u32> = Vec::new();
    let mut next: u32 = 0;
    let mut round: u32 = 0;
    while round < 50 {
        q.enqueue(next);
        q.enqueue(next + 1);
        next += 2;
        if let Some(item) = q.dequeue() {
            handed_out.push(item);
        }
        if round % 3 == 0 {
            if let Some(item) = q.dequeue() {
                handed_out.push(item);
            }
        }
        round += 1;
    }
    while let Some(item) = q.dequeue() {
        handed_out.push(item);
    }
    let expected: Vec<u32> = (0..100).collect();
    assert_eq!(handed_out, expected);
    assert_eq!(q.dequeue(), None);
    assert!(q.is_empty());
}

#[test]
fn dequeue_on_empty_changes_nothing() {
    let mut q: Queue<u8> = Queue::new();
    assert_eq!(q.dequeue(), None);
    assert_eq!(q.dequeue(), None);
    assert_eq!(q.len(), 0);
    q.enqueue(9);
    assert_eq!(q.len(), 1);
    assert_eq!(q.peek(), Some(&9));
}
