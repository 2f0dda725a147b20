use dispatch_core::pool::{worker_turn, Dequeue, HandoffQueue, Submit, WorkerAction};

#[test]
fn full_queue_suspends_the_submitter_without_loss() {
    let mut q: HandoffQueue<u32> = HandoffQueue::new(1);
    assert_eq!(q.submit(1), Submit::Accepted);
    // the queue is at capacity: the item comes back, nothing is dropped
    assert_eq!(q.submit(2), Submit::Full(2));
    // a worker drains one item, then the suspended submitter succeeds
    assert_eq!(q.dequeue(), Dequeue::Item(1));
    assert_eq!(q.submit(2), Submit::Accepted);
    assert_eq!(q.dequeue(), Dequeue::Item(2));
    // each item was handed out exactly once
    assert_eq!(q.dequeue(), Dequeue::Empty);
}

#[test]
fn handoff_is_fifo_across_turns() {
    let mut q: HandoffQueue<u32> = HandoffQueue::new(3);
    assert_eq!(q.submit(10), Submit::Accepted);
    assert_eq!(q.submit(20), Submit::Accepted);
    assert_eq!(q.submit(30), Submit::Accepted);
    assert_eq!(q.dequeue(), Dequeue::Item(10));
    assert_eq!(q.dequeue(), Dequeue::Item(20));
    assert_eq!(q.dequeue(), Dequeue::Item(30));
}

#[test]
fn closed_queue_refuses_work_and_stops_workers() {
    let mut q: HandoffQueue<u32> = HandoffQueue::new(2);
    assert_eq!(q.submit(1), Submit::Accepted);
    q.close();
    assert_eq!(q.submit(2), Submit::Closed(2));
    // queued work is still drained before the worker stops
    assert_eq!(q.dequeue(), Dequeue::Item(1));
    assert_eq!(q.dequeue(), Dequeue::Stopped);
}

#[test]
fn worker_turn_dispatches_sleeps_and_stops() {
    let mut q: HandoffQueue<u32> = HandoffQueue::new(1);
    assert_eq!(worker_turn(&mut q), WorkerAction::Sleep);
    assert_eq!(q.submit(5), Submit::Accepted);
    assert_eq!(worker_turn(&mut q), WorkerAction::Run(5));
    q.close();
    assert_eq!(worker_turn(&mut q), WorkerAction::Stop);
}
