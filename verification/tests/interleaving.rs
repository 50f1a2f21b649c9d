use lockfree_queue::{LockFreeQueue, Progress};

fn finish_offer<T>(queue: &mut LockFreeQueue<T>, id: usize) -> usize {
    let mut actions = 0;
    loop {
        actions += 1;
        match queue.step(id) {
            Progress::Pending => {}
            Progress::Offered => return actions,
            Progress::Taken(_) => panic!("an enqueue returned as a dequeue"),
        }
    }
}

fn finish_take<T>(queue: &mut LockFreeQueue<T>, id: usize) -> Option<T> {
    loop {
        match queue.step(id) {
            Progress::Pending => {}
            Progress::Taken(value) => return value,
            Progress::Offered => panic!("a dequeue returned as an enqueue"),
        }
    }
}

#[test]
fn an_undisturbed_enqueue_takes_four_actions() {
    let mut queue = LockFreeQueue::new();
    let id = queue.begin_offer(5);
    assert!(queue.in_flight(id));
    assert!(queue.is_empty());
    assert!(matches!(queue.step(id), Progress::Pending)); // reads the tail pointer
    assert!(matches!(queue.step(id), Progress::Pending)); // reads the link
    assert!(queue.is_empty());
    assert!(matches!(queue.step(id), Progress::Pending)); // links
    assert!(!queue.is_empty());
    assert!(matches!(queue.step(id), Progress::Offered)); // moves the tail pointer
    assert!(!queue.in_flight(id));
    assert_eq!(queue.take(), Some(5));
}

#[test]
fn an_undisturbed_dequeue_takes_three_actions() {
    let mut queue = LockFreeQueue::new();
    queue.offer(9);
    let id = queue.begin_take();
    assert!(matches!(queue.step(id), Progress::Pending)); // reads the head pointer
    assert!(matches!(queue.step(id), Progress::Pending)); // reads the link
    assert!(!queue.is_empty());
    assert!(matches!(queue.step(id), Progress::Taken(Some(9)))); // moves the head pointer
    assert!(queue.is_empty());
    assert!(!queue.in_flight(id));
}

#[test]
fn a_dequeue_on_an_empty_queue_returns_after_two_actions() {
    let mut queue: LockFreeQueue<i32> = LockFreeQueue::new();
    let id = queue.begin_take();
    assert!(matches!(queue.step(id), Progress::Pending));
    assert!(matches!(queue.step(id), Progress::Taken(None)));
    assert!(!queue.in_flight(id));
}

#[test]
fn slots_are_given_first_fit() {
    let mut queue = LockFreeQueue::new();
    let a = queue.begin_offer(1);
    let b = queue.begin_take();
    let c = queue.begin_offer(2);
    assert_eq!((a, b, c), (0, 1, 2));
    assert_eq!(finish_take(&mut queue, b), None);
    assert!(!queue.in_flight(b));
    let d = queue.begin_offer(3);
    assert_eq!(d, 1);
    assert!(!queue.in_flight(17));
}

#[test]
fn the_enqueue_that_links_first_is_served_first() {
    let mut queue = LockFreeQueue::new();
    let a = queue.begin_offer("a");
    let b = queue.begin_offer("b");
    // Both read the tail pointer and find the link of the sentinel empty.
    for id in [a, b] {
        assert!(matches!(queue.step(id), Progress::Pending));
        assert!(matches!(queue.step(id), Progress::Pending));
    }
    // `b` wins the compare-and-swap on the link; `a` loses and starts over.
    assert!(matches!(queue.step(b), Progress::Pending));
    assert!(matches!(queue.step(a), Progress::Pending));
    // `a` reads the link again, finds the node of `b` behind its anchor,
    // helps the tail pointer forward, reads it, reads the link of the node of
    // `b`, links behind it and moves the tail pointer.
    let actions = finish_offer(&mut queue, a);
    assert_eq!(actions, 6);
    // `b` finds the tail pointer already moved.
    assert_eq!(finish_offer(&mut queue, b), 1);
    assert_eq!(queue.take(), Some("b"));
    assert_eq!(queue.take(), Some("a"));
    assert_eq!(queue.take(), None);
}

#[test]
fn only_one_of_two_racing_dequeues_gets_the_value() {
    let mut queue = LockFreeQueue::new();
    queue.offer(1);
    queue.offer(2);
    let a = queue.begin_take();
    let b = queue.begin_take();
    for id in [a, b] {
        assert!(matches!(queue.step(id), Progress::Pending));
        assert!(matches!(queue.step(id), Progress::Pending));
    }
    assert!(matches!(queue.step(b), Progress::Taken(Some(1))));
    // The compare-and-swap of `a` fails: the head pointer has moved.
    assert!(matches!(queue.step(a), Progress::Pending));
    assert_eq!(finish_take(&mut queue, a), Some(2));
    assert!(queue.is_empty());
}

#[test]
fn a_dequeue_may_pass_a_lagging_tail_pointer() {
    let mut queue = LockFreeQueue::new();
    let a = queue.begin_offer(1);
    assert!(matches!(queue.step(a), Progress::Pending));
    assert!(matches!(queue.step(a), Progress::Pending));
    assert!(matches!(queue.step(a), Progress::Pending));
    // The node is linked and the tail pointer still names the old sentinel.
    assert_eq!(queue.take(), Some(1));
    assert!(queue.is_empty());
    // The old sentinel is kept while `a` holds its handle.
    assert_eq!(queue.node_count(), 2);
    // An enqueue that starts now helps the tail pointer forward.
    queue.offer(2);
    assert!(matches!(queue.step(a), Progress::Offered));
    assert_eq!(queue.node_count(), 2);
    assert_eq!(queue.take(), Some(2));
    assert_eq!(queue.take(), None);
    assert_eq!(queue.node_count(), 1);
}

#[test]
fn a_node_is_not_used_again_while_an_operation_holds_its_handle() {
    let mut queue = LockFreeQueue::new();
    queue.offer(1);
    queue.offer(2);
    let slow = queue.begin_take();
    assert!(matches!(queue.step(slow), Progress::Pending));
    assert!(matches!(queue.step(slow), Progress::Pending));
    // `slow` holds the handles of the sentinel and of the node behind it.
    assert_eq!(queue.take(), Some(1));
    assert_eq!(queue.take(), Some(2));
    for value in 3..20 {
        queue.offer(value);
    }
    // Its compare-and-swap fails, and it starts over from the new head.
    assert!(matches!(queue.step(slow), Progress::Pending));
    assert_eq!(finish_take(&mut queue, slow), Some(3));
    for value in 4..20 {
        assert_eq!(queue.take(), Some(value));
    }
    assert_eq!(queue.node_count(), 1);
}

#[test]
fn teardown_with_an_operation_in_flight_counts_the_linked_nodes() {
    let mut queue = LockFreeQueue::new();
    queue.offer(1);
    queue.offer(2);
    let pending = queue.begin_offer(3);
    assert!(matches!(queue.step(pending), Progress::Pending));
    assert_eq!(queue.node_count(), 4);
    assert_eq!(queue.teardown(), 3);
}

/// A small linear congruential generator: the schedules must be the same on
/// every run.
fn next_choice(state: &mut u64, bound: usize) -> usize {
    *state = state.wrapping_mul(6364136223846793005).wrapping_add(1442695040888963407);
    ((*state >> 33) as usize) % bound
}

/// Runs `producers` producers, each enqueuing `per_producer` distinct values
/// in increasing order, against `consumers` consumers, under the schedule that
/// `seed` gives, until everything is drained. Returns what each consumer got.
fn run_schedule(
    producers: usize,
    per_producer: u64,
    consumers: usize,
    seed: u64,
) -> Vec<Vec<u64>> {
    let mut queue: LockFreeQueue<u64> = LockFreeQueue::new();
    let mut state = seed;
    let mut sent = vec![0u64; producers];
    let mut offering: Vec<Option<usize>> = vec![None; producers];
    let mut taking: Vec<Option<usize>> = vec![None; consumers];
    let mut got: Vec<Vec<u64>> = vec![Vec::new(); consumers];
    let total = producers as u64 * per_producer;
    let mut received = 0u64;
    while received < total {
        let actor = next_choice(&mut state, producers + consumers);
        if actor < producers {
            match offering[actor] {
                None => {
                    if sent[actor] < per_producer {
                        let value = actor as u64 * 1_000_000 + sent[actor];
                        offering[actor] = Some(queue.begin_offer(value));
                        sent[actor] += 1;
                    }
                }
                Some(id) => {
                    assert!(queue.in_flight(id));
                    match queue.step(id) {
                        Progress::Pending => {}
                        Progress::Offered => offering[actor] = None,
                        Progress::Taken(_) => panic!("an enqueue returned as a dequeue"),
                    }
                }
            }
        } else {
            let consumer = actor - producers;
            match taking[consumer] {
                None => taking[consumer] = Some(queue.begin_take()),
                Some(id) => {
                    assert!(queue.in_flight(id));
                    match queue.step(id) {
                        Progress::Pending => {}
                        Progress::Taken(Some(value)) => {
                            got[consumer].push(value);
                            received += 1;
                            taking[consumer] = None;
                        }
                        Progress::Taken(None) => taking[consumer] = None,
                        Progress::Offered => panic!("a dequeue returned as an enqueue"),
                    }
                }
            }
        }
    }
    // Let the operations that are still in flight return.
    for slot in offering.iter().flatten() {
        finish_offer(&mut queue, *slot);
    }
    for slot in taking.iter().flatten() {
        assert_eq!(finish_take(&mut queue, *slot), None);
    }
    assert!(queue.is_empty());
    assert_eq!(queue.node_count(), 1);
    assert_eq!(queue.teardown(), 1);
    got
}

#[test]
fn no_value_is_lost_or_doubled_under_any_schedule_tried() {
    for seed in 0..200u64 {
        let got = run_schedule(4, 25, 3, seed);
        let mut all: Vec<u64> = got.into_iter().flatten().collect();
        all.sort();
        let mut expected = Vec::new();
        for producer in 0..4u64 {
            for k in 0..25u64 {
                expected.push(producer * 1_000_000 + k);
            }
        }
        assert_eq!(all, expected);
    }
}

#[test]
fn each_consumer_sees_the_values_of_one_producer_in_order() {
    for seed in 1000..1200u64 {
        let got = run_schedule(3, 40, 4, seed);
        for seen in got {
            for producer in 0..3u64 {
                let of_one: Vec<u64> =
                    seen.iter().copied().filter(|v| v / 1_000_000 == producer).collect();
                for pair in of_one.windows(2) {
                    assert!(pair[0] < pair[1]);
                }
            }
        }
    }
}

#[test]
fn a_single_consumer_sees_the_order_of_linking() {
    let mut queue = LockFreeQueue::new();
    let mut state = 42u64;
    let mut slots: Vec<Option<usize>> = vec![None; 5];
    let mut linked = Vec::new();
    let mut next_value = 0u32;
    let mut was_empty_len = 0usize;
    while linked.len() < 60 {
        let actor = next_choice(&mut state, 5);
        match slots[actor] {
            None => {
                slots[actor] = Some(queue.begin_offer(next_value));
                next_value += 1;
            }
            Some(id) => {
                if let Progress::Offered = queue.step(id) {
                    slots[actor] = None;
                }
            }
        }
        // Whatever was linked since the last look is taken out at once.
        while let Some(value) = queue.take() {
            linked.push(value);
        }
        was_empty_len = linked.len();
    }
    assert_eq!(was_empty_len, linked.len());
    let mut sorted = linked.clone();
    sorted.sort();
    sorted.dedup();
    assert_eq!(sorted.len(), linked.len());
}

#[test]
fn an_action_of_a_vacant_slot_changes_nothing() {
    let mut queue = LockFreeQueue::new();
    queue.offer(1);
    assert!(!queue.in_flight(0));
    assert!(matches!(queue.step(0), Progress::Pending));
    assert!(matches!(queue.step(99), Progress::Pending));
    assert_eq!(queue.node_count(), 2);
    assert_eq!(queue.take(), Some(1));
    assert_eq!(queue.take(), None);
}
