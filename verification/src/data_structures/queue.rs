//! A first-in, first-out queue of unbounded capacity.

use std::collections::VecDeque;
use vstd::prelude::*;

verus! {

/// A FIFO queue. Its view is the sequence of the items it holds, the head
/// (the item that leaves next) at index 0 and the tail at the end.
pub struct Queue<T> {
    vec: VecDeque<T>,
}

impl<T> View for Queue<T> {
    type V = Seq<T>;

    closed spec fn view(&self) -> Seq<T> {
        self.vec@
    }
}

impl<T> Queue<T> {
    /// An empty queue.
    pub fn new() -> (q: Self)
        ensures
            q@ == Seq::<T>::empty(),
    {
        Queue { vec: VecDeque::new() }
    }

    /// Appends `item` at the tail.
    pub fn enqueue(&mut self, item: T)
        ensures
            final(self)@ == old(self)@.push(item),
            final(self)@ == after_step(old(self)@, Step::Enqueue(item)),
    {
        self.vec.push_back(item);
    }

    /// The number of items held.
    pub fn len(&self) -> (n: usize)
        ensures
            n == self@.len(),
    {
        self.vec.len()
    }

    /// Whether the queue holds no item.
    pub fn is_empty(&self) -> (b: bool)
        ensures
            b <==> self@.len() == 0,
    {
        self.vec.len() == 0
    }

    /// The head, without removing it; `None` exactly when the queue is empty.
    pub fn peek(&self) -> (head: Option<&T>)
        ensures
            self@.len() == 0 ==> head.is_none(),
            self@.len() > 0 ==> head == Some(&self@[0]),
    {
        if self.vec.len() == 0 {
            None
        } else {
            Some(&self.vec[0])
        }
    }

    /// Removes and returns the head; `None` exactly when the queue is empty,
    /// which is then left as it was.
    pub fn dequeue(&mut self) -> (head: Option<T>)
        ensures
            old(self)@.len() == 0 ==> head.is_none() && final(self)@ == old(self)@,
            old(self)@.len() > 0 ==> head == Some(old(self)@[0]) && final(self)@ == old(
                self,
            )@.drop_first(),
            head == handed_out(old(self)@, Step::Dequeue),
            final(self)@ == after_step(old(self)@, Step::Dequeue),
    {
        let head = self.vec.pop_front();
        proof {
            if old(self)@.len() > 0 {
                assert(old(self)@.drop_first() =~= old(self)@.subrange(1, old(self)@.len() as int));
            }
        }
        head
    }
}

/// One operation that changes a queue.
pub enum Step<T> {
    /// `enqueue` of the item.
    Enqueue(T),
    /// `dequeue`.
    Dequeue,
}

/// The contents of a queue that held `q`, after `step`: what `enqueue` and
/// `dequeue` do to the view.
pub open spec fn after_step<T>(q: Seq<T>, step: Step<T>) -> Seq<T> {
    match step {
        Step::Enqueue(item) => q.push(item),
        Step::Dequeue => if q.len() > 0 {
            q.drop_first()
        } else {
            q
        },
    }
}

/// What `step` hands out on a queue that holds `q`: the head for a
/// `dequeue` on a queue that is not empty, and nothing otherwise.
pub open spec fn handed_out<T>(q: Seq<T>, step: Step<T>) -> Option<T> {
    match step {
        Step::Enqueue(_) => None,
        Step::Dequeue => if q.len() > 0 {
            Some(q[0])
        } else {
            None
        },
    }
}

/// The contents of a queue that held `q`, after `steps` in turn.
pub open spec fn after_steps<T>(q: Seq<T>, steps: Seq<Step<T>>) -> Seq<T>
    decreases steps.len(),
{
    if steps.len() == 0 {
        q
    } else {
        after_step(after_steps(q, steps.drop_last()), steps.last())
    }
}

/// The items that `steps` hand out, in turn, on a queue that held `q`.
pub open spec fn all_handed_out<T>(q: Seq<T>, steps: Seq<Step<T>>) -> Seq<T>
    decreases steps.len(),
{
    if steps.len() == 0 {
        Seq::empty()
    } else {
        let earlier = all_handed_out(q, steps.drop_last());
        match handed_out(after_steps(q, steps.drop_last()), steps.last()) {
            Some(item) => earlier.push(item),
            None => earlier,
        }
    }
}

/// The items that `steps` enqueue, in turn.
pub open spec fn all_enqueued<T>(steps: Seq<Step<T>>) -> Seq<T>
    decreases steps.len(),
{
    if steps.len() == 0 {
        Seq::empty()
    } else {
        let earlier = all_enqueued(steps.drop_last());
        match steps.last() {
            Step::Enqueue(item) => earlier.push(item),
            Step::Dequeue => earlier,
        }
    }
}

/// The steps that enqueue `items` in turn, with no dequeue between them.
pub open spec fn enqueues<T>(items: Seq<T>) -> Seq<Step<T>> {
    items.map_values(|item: T| Step::Enqueue(item))
}

/// First in, first out: however enqueues and dequeues interleave, the
/// items handed out so far, followed by the items still held, are the
/// items that were there at the start followed by the items enqueued, in
/// the order of their arrival. A dequeue on an empty queue hands out
/// nothing and changes nothing.
pub proof fn lemma_fifo<T>(q: Seq<T>, steps: Seq<Step<T>>)
    ensures
        all_handed_out(q, steps) + after_steps(q, steps) == q + all_enqueued(steps),
        handed_out(Seq::<T>::empty(), Step::Dequeue).is_none(),
        after_step(Seq::<T>::empty(), Step::Dequeue) == Seq::<T>::empty(),
    decreases steps.len(),
{
    if steps.len() == 0 {
        assert(all_handed_out(q, steps) + after_steps(q, steps) =~= q + all_enqueued(steps));
    } else {
        let earlier = steps.drop_last();
        lemma_fifo(q, earlier);
        let out = all_handed_out(q, earlier);
        let held = after_steps(q, earlier);
        assert(out + held == q + all_enqueued(earlier));
        match steps.last() {
            Step::Enqueue(item) => {
                assert(out + held.push(item) =~= (out + held).push(item));
                assert((q + all_enqueued(earlier)).push(item) =~= q + all_enqueued(earlier).push(
                    item,
                ));
            },
            Step::Dequeue => {
                if held.len() > 0 {
                    assert(out.push(held[0]) + held.drop_first() =~= out + held);
                }
            },
        }
    }
}

/// After `items` are enqueued on an empty queue with no dequeue, the
/// queue holds exactly `items`: its length is their number, and its head
/// is the item that was enqueued first.
pub proof fn lemma_enqueues_only<T>(items: Seq<T>)
    ensures
        after_steps(Seq::<T>::empty(), enqueues(items)) == items,
        after_steps(Seq::<T>::empty(), enqueues(items)).len() == items.len(),
        items.len() > 0 ==> after_steps(Seq::<T>::empty(), enqueues(items))[0] == items[0],
    decreases items.len(),
{
    if items.len() == 0 {
        assert(after_steps(Seq::<T>::empty(), enqueues(items)) =~= items);
    } else {
        lemma_enqueues_only(items.drop_last());
        assert(enqueues(items).drop_last() =~= enqueues(items.drop_last()));
        assert(enqueues(items).last() == Step::Enqueue(items.last()));
        assert(items.drop_last().push(items.last()) =~= items);
    }
}

} // verus!
