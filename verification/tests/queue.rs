use lockfree_queue::LockFreeQueue;

#[test]
fn test_is_empty() {
    let mut queue = LockFreeQueue::new();

    assert!(queue.is_empty());

    queue.offer(1);
    assert!(!queue.is_empty());

    queue.take();
    assert!(queue.is_empty());
}

#[test]
fn test_take_from_empty_queue() {
    let mut queue: LockFreeQueue<i32> = LockFreeQueue::new();
    assert_eq!(queue.take(), None);
}

#[test]
fn test_offer_take() {
    let mut queue = LockFreeQueue::new();

    queue.offer(1);
    queue.offer(2);

    assert_eq!(queue.take(), Some(1));
    assert_eq!(queue.take(), Some(2));
    assert_eq!(queue.take(), None);
    assert!(queue.is_empty());
}

#[test]
fn new_queue_is_empty_and_gives_nothing() {
    let mut queue: LockFreeQueue<String> = LockFreeQueue::new();
    assert!(queue.is_empty());
    assert_eq!(queue.take(), None);
    assert!(queue.is_empty());
    assert_eq!(queue.node_count(), 1);
}

#[test]
fn one_value_makes_the_queue_non_empty() {
    let mut queue = LockFreeQueue::new();
    queue.offer("x");
    assert!(!queue.is_empty());
}

#[test]
fn first_take_gives_the_first_value_not_a_placeholder() {
    let mut queue: LockFreeQueue<u8> = LockFreeQueue::new();
    queue.offer(0);
    queue.offer(7);
    assert_eq!(queue.take(), Some(0));
    assert_eq!(queue.take(), Some(7));
    assert_eq!(queue.take(), None);
}

#[test]
fn values_leave_in_the_order_of_arrival() {
    let mut queue = LockFreeQueue::new();
    for i in 0..100u32 {
        queue.offer(i);
    }
    for i in 0..100u32 {
        assert_eq!(queue.take(), Some(i));
    }
    assert_eq!(queue.take(), None);
}

#[test]
fn offers_and_takes_may_alternate() {
    let mut queue = LockFreeQueue::new();
    queue.offer(1);
    queue.offer(2);
    assert_eq!(queue.take(), Some(1));
    queue.offer(3);
    assert_eq!(queue.take(), Some(2));
    assert_eq!(queue.take(), Some(3));
    assert_eq!(queue.take(), None);
    queue.offer(4);
    assert_eq!(queue.take(), Some(4));
    assert!(queue.is_empty());
}

#[test]
fn draining_leaves_the_queue_empty() {
    let mut queue = LockFreeQueue::new();
    for i in 0..17u64 {
        queue.offer(i * i);
    }
    let mut drained = Vec::new();
    while let Some(value) = queue.take() {
        drained.push(value);
    }
    assert!(queue.is_empty());
    assert_eq!(drained.len(), 17);
    assert_eq!(drained[16], 256);
    assert_eq!(queue.take(), None);
}

#[test]
fn values_need_neither_default_nor_copy() {
    let mut queue: LockFreeQueue<Vec<String>> = LockFreeQueue::new();
    queue.offer(vec![String::from("a"), String::from("b")]);
    queue.offer(Vec::new());
    assert_eq!(queue.take(), Some(vec![String::from("a"), String::from("b")]));
    assert_eq!(queue.take(), Some(Vec::new()));
    assert_eq!(queue.take(), None);
}

#[test]
fn teardown_releases_one_node_more_than_values() {
    let queue: LockFreeQueue<i32> = LockFreeQueue::new();
    assert_eq!(queue.teardown(), 1);

    let mut queue = LockFreeQueue::new();
    for i in 0..5 {
        queue.offer(i);
    }
    assert_eq!(queue.node_count(), 6);
    assert_eq!(queue.teardown(), 6);

    let mut queue = LockFreeQueue::new();
    for i in 0..5 {
        queue.offer(i);
    }
    assert_eq!(queue.take(), Some(0));
    assert_eq!(queue.take(), Some(1));
    assert_eq!(queue.node_count(), 4);
    assert_eq!(queue.teardown(), 4);
}

#[test]
fn nodes_left_behind_are_used_again() {
    let mut queue = LockFreeQueue::new();
    for round in 0..1000u32 {
        queue.offer(round);
        queue.offer(round + 1);
        assert_eq!(queue.node_count(), 3);
        assert_eq!(queue.take(), Some(round));
        assert_eq!(queue.take(), Some(round + 1));
        assert_eq!(queue.node_count(), 1);
    }
    assert_eq!(queue.teardown(), 1);
}
