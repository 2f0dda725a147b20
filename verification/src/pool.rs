use vstd::prelude::*;

verus! {

/// Outcome of offering one unit of work to the hand-off queue. The rejected
/// item is handed back, so nothing is ever dropped: a `Full` answer tells the
/// submitter to suspend and retry once a worker has drained an item.
#[derive(Debug, PartialEq, Eq)]
pub enum Submit<T> {
    /// The item was placed at the back of the queue.
    Accepted,
    /// The queue is at capacity; the item comes back to the suspended
    /// submitter.
    Full(T),
    /// The queue was closed; the item comes back.
    Closed(T),
}

/// Outcome of one dequeue attempt by a worker.
#[derive(Debug, PartialEq, Eq)]
pub enum Dequeue<T> {
    /// The item that was at the front of the queue.
    Item(T),
    /// Nothing queued yet; the worker suspends and retries.
    Empty,
    /// The queue is closed and drained: the worker's loop exits cleanly.
    Stopped,
}

/// What a worker does after one turn at the queue.
#[derive(Debug, PartialEq, Eq)]
pub enum WorkerAction<T> {
    /// Schedule this item as a new task on the worker's own scheduler, then
    /// come back for more.
    Run(T),
    /// Suspend until the queue has something.
    Sleep,
    /// Leave the loop for good.
    Stop,
}

/// The bounded hand-off queue all workers of a pool share. Items keep the
/// order they were submitted in and are handed to exactly one worker each;
/// backpressure is enforced purely by the capacity bound.
///
/// This is the pool's decision core: the suspension points around it (a
/// submitter waiting out `Full`, a worker waiting out `Empty`, the scheduler
/// each worker runs dequeued items on) are the surrounding runtime's work and
/// stay outside the library.
pub struct HandoffQueue<T> {
    /// Queued items, front at index 0.
    pub items: Vec<T>,
    /// The fixed capacity; small by design, the queue only smooths bursts.
    pub capacity: usize,
    /// Whether the queue was closed; a closed queue accepts nothing and
    /// drains to `Stopped`.
    pub closed: bool,
}

impl<T> HandoffQueue<T> {
    /// Whether one more item fits.
    pub open spec fn can_accept(&self) -> bool {
        !self.closed && self.items@.len() < self.capacity as int
    }

    pub fn new(capacity: usize) -> (r: Self)
        requires
            capacity >= 1,
        ensures
            r.items@ == Seq::<T>::empty(),
            r.capacity == capacity,
            !r.closed,
    {
        HandoffQueue { items: Vec::new(), capacity, closed: false }
    }

    /// Offers one item. A full queue changes nothing and hands the item back:
    /// the submitter suspends on it until a worker dequeues.
    pub fn submit(&mut self, item: T) -> (r: Submit<T>)
        ensures
            final(self).capacity == old(self).capacity,
            final(self).closed == old(self).closed,
            old(self).closed ==> final(self).items == old(self).items && r == (Submit::Closed(
                item,
            )),
            old(self).can_accept() ==> final(self).items@ == old(self).items@.push(item) && r == (
            Submit::Accepted::<T>),
            !old(self).closed && !old(self).can_accept() ==> final(self).items == old(self).items
                && r == (Submit::Full(item)),
    {
        if self.closed {
            return Submit::Closed(item);
        }
        if self.items.len() >= self.capacity {
            return Submit::Full(item);
        }
        self.items.push(item);
        Submit::Accepted
    }

    /// One worker's turn: removes and returns the front item. An empty open
    /// queue suspends the worker; an empty closed queue stops it.
    pub fn dequeue(&mut self) -> (r: Dequeue<T>)
        ensures
            final(self).capacity == old(self).capacity,
            final(self).closed == old(self).closed,
            old(self).items@.len() > 0 ==> (r matches Dequeue::Item(t) && t == old(self).items@[0]
                && final(self).items@ == old(self).items@.skip(1)),
            old(self).items@.len() == 0 ==> final(self).items == old(self).items,
            old(self).items@.len() == 0 && !old(self).closed ==> r is Empty,
            old(self).items@.len() == 0 && old(self).closed ==> r is Stopped,
    {
        if self.items.len() == 0 {
            if self.closed {
                return Dequeue::Stopped;
            }
            return Dequeue::Empty;
        }
        let item = self.items.remove(0);
        proof {
            assert(self.items@ =~= old(self).items@.skip(1));
        }
        Dequeue::Item(item)
    }

    /// Closes the queue: submissions are refused from here on, and workers
    /// stop once the remaining items are drained.
    pub fn close(&mut self)
        ensures
            final(self).items == old(self).items,
            final(self).capacity == old(self).capacity,
            final(self).closed,
    {
        self.closed = true;
    }
}

/// One worker's turn at the shared queue, as the worker loop decides it:
/// dequeue under the (caller-held) exclusive access, then either run the item
/// on the worker's own scheduler, sleep until woken, or stop for good.
pub fn worker_turn<T>(queue: &mut HandoffQueue<T>) -> (r: WorkerAction<T>)
    ensures
        final(queue).capacity == old(queue).capacity,
        final(queue).closed == old(queue).closed,
        old(queue).items@.len() > 0 ==> (r matches WorkerAction::Run(t) && t == old(
            queue,
        ).items@[0] && final(queue).items@ == old(queue).items@.skip(1)),
        old(queue).items@.len() == 0 ==> final(queue).items == old(queue).items,
        old(queue).items@.len() == 0 && !old(queue).closed ==> r is Sleep,
        old(queue).items@.len() == 0 && old(queue).closed ==> r is Stop,
{
    match queue.dequeue() {
        Dequeue::Item(t) => WorkerAction::Run(t),
        Dequeue::Empty => WorkerAction::Sleep,
        Dequeue::Stopped => WorkerAction::Stop,
    }
}

/// Law: hand-off is exactly-once and loss-free. A submission to a full queue
/// changes nothing (the submitter stays suspended holding its item); after
/// any one dequeue the queue has room again, and an accepted item is handed
/// out exactly once, in submission order: `k` dequeues after an accepted
/// submission yield precisely the items that were ahead of it, then the item
/// itself, each exactly once.
pub proof fn lemma_handoff_exactly_once<T>(q: HandoffQueue<T>, item: T)
    requires
        !q.closed,
    ensures
        // a full queue suspends the submitter and loses nothing
        q.items@.len() >= q.capacity as int ==> !q.can_accept(),
        // one dequeue makes room: capacity at least one means a full queue
        // shrinks below the bound
        q.items@.len() >= 1 && q.capacity >= 1 ==> q.items@.skip(1).len() == q.items@.len() - 1,
        // an accepted item sits at a single position: the back of the queue
        q.can_accept() ==> q.items@.push(item).len() == q.items@.len() + 1 && q.items@.push(item)[
            q.items@.len() as int
        ] == item && (forall|j: int|
            0 <= j < q.items@.len() ==> q.items@.push(item)[j] == q.items@[j]),
        // after the items ahead of it are dequeued, the item is at the front,
        // and it appears in the queue exactly once more than before
        q.can_accept() ==> q.items@.push(item).skip(q.items@.len() as int) == seq![item]
            && q.items@.push(item).to_multiset() == q.items@.to_multiset().insert(item),
{
    if q.can_accept() {
        assert(q.items@.push(item).skip(q.items@.len() as int) =~= seq![item]);
        q.items@.to_multiset_ensures();
    }
}

/// Law: the queue is first-in first-out across all workers collectively.
/// Whatever worker takes the next turn receives the item submitted earliest
/// among those still queued.
pub proof fn lemma_handoff_fifo<T>(q: HandoffQueue<T>, k: int)
    requires
        0 <= k < q.items@.len(),
    ensures
        // after k dequeues, the (k+1)-th submitted item is handed out next
        q.items@.skip(k)[0] == q.items@[k],
        q.items@.skip(k).skip(1) == q.items@.skip(k + 1),
{
    assert(q.items@.skip(k).skip(1) =~= q.items@.skip(k + 1));
}

} // verus!
