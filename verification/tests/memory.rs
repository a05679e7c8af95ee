use stacks::memory::{compare_and_swap, Memory};
use stacks::pool::Pool;

#[test]
fn compare_and_swap_swaps_on_a_match() {
    let mut slot = None;
    assert!(compare_and_swap(&mut slot, None, Some(4)));
    assert_eq!(slot, Some(4));
    assert!(!compare_and_swap(&mut slot, None, Some(5)));
    assert_eq!(slot, Some(4));
    assert!(!compare_and_swap(&mut slot, Some(3), Some(5)));
    assert_eq!(slot, Some(4));
    assert!(compare_and_swap(&mut slot, Some(4), None));
    assert_eq!(slot, None);
}

#[test]
fn a_push_that_lost_the_race_tries_again() {
    let mut memory = Memory::new();
    let first = memory.allocate("first");
    let second = memory.allocate("second");
    assert_ne!(first, second);
    memory.pin();
    memory.pin();
    // Both operations see an empty stack.
    let seen_by_first = memory.load_head();
    memory.set_next(first, seen_by_first);
    let seen_by_second = memory.load_head();
    memory.set_next(second, seen_by_second);
    assert_eq!(seen_by_first, None);
    assert_eq!(seen_by_second, None);
    // The second one wins.
    assert!(memory.install(seen_by_second, second));
    memory.count_up();
    assert!(!memory.install(seen_by_first, first));
    assert_eq!(memory.load_head(), Some(second));
    // The first one starts over with the same node.
    let seen_again = memory.load_head();
    memory.set_next(first, seen_again);
    assert!(memory.install(seen_again, first));
    memory.count_up();
    memory.unpin();
    memory.unpin();
    assert_eq!(memory.count(), 2);
    assert_eq!(memory.load_head(), Some(first));
    assert_eq!(memory.next_of(first), Some(second));
    assert_eq!(memory.next_of(second), None);
    assert_eq!(*memory.data_of(first), Some("first"));
    assert_eq!(*memory.data_of(second), Some("second"));
}

#[test]
fn a_pop_that_lost_the_race_tries_again() {
    let mut memory = Memory::new();
    let bottom = memory.allocate(1);
    memory.set_next(bottom, None);
    assert!(memory.install(None, bottom));
    memory.count_up();
    let top = memory.allocate(2);
    memory.set_next(top, Some(bottom));
    assert!(memory.install(Some(bottom), top));
    memory.count_up();

    memory.pin();
    memory.pin();
    // Two pops see the same top.
    let slow = memory.load_head().unwrap();
    let slow_next = memory.next_of(slow);
    let fast = memory.load_head().unwrap();
    let fast_next = memory.next_of(fast);
    assert_eq!(slow, fast);
    assert!(memory.unlink(fast, fast_next));
    memory.count_down();
    memory.retire(fast);
    assert_eq!(memory.take(fast), Some(2));
    memory.unpin();
    // The slow one still reads the node that it found, and loses.
    assert_eq!(memory.next_of(slow), slow_next);
    assert!(!memory.unlink(slow, slow_next));
    let slow = memory.load_head().unwrap();
    assert_eq!(slow, bottom);
    let slow_next = memory.next_of(slow);
    assert!(memory.unlink(slow, slow_next));
    memory.count_down();
    memory.retire(slow);
    assert_eq!(memory.take(slow), Some(1));
    memory.unpin();
    assert_eq!(memory.load_head(), None);
    assert_eq!(memory.count(), 0);
}

#[test]
fn the_counter_may_lag_behind() {
    let mut memory = Memory::new();
    let node = memory.allocate('x');
    memory.pin();
    let head = memory.load_head();
    memory.set_next(node, head);
    assert!(memory.install(head, node));
    assert_eq!(memory.load_head(), Some(node));
    assert_eq!(memory.count(), 0);
    memory.count_up();
    assert_eq!(memory.count(), 1);
    memory.unpin();
}

#[test]
fn the_counter_wraps_round() {
    let mut memory: Memory<u8> = Memory::new();
    memory.count_down();
    assert_eq!(memory.count(), usize::MAX);
    memory.count_up();
    assert_eq!(memory.count(), 0);
    memory.count_up();
    assert_eq!(memory.count(), 1);
}

#[test]
fn a_retired_slot_waits_for_the_last_guard() {
    let mut pool = Pool::new();
    let node = pool.allocate(String::from("kept"));
    assert_eq!(node, 0);
    pool.pin();
    pool.pin();
    pool.retire(node);
    // Still readable, and not handed out again.
    assert_eq!(*pool.data_of(node), Some(String::from("kept")));
    let other = pool.allocate(String::from("other"));
    assert_eq!(other, 1);
    pool.unpin();
    assert_eq!(*pool.data_of(node), Some(String::from("kept")));
    let third = pool.allocate(String::from("third"));
    assert_eq!(third, 2);
    pool.unpin();
    // The last guard is gone: the slot is free and is taken first.
    let again = pool.allocate(String::from("again"));
    assert_eq!(again, node);
    assert_eq!(*pool.data_of(again), Some(String::from("again")));
    assert_eq!(pool.next_of(again), None);
}

#[test]
fn a_pool_grows_when_nothing_is_free() {
    let mut pool = Pool::new();
    for expected in 0..10usize {
        assert_eq!(pool.allocate(expected), expected);
    }
    pool.set_next(3, Some(7));
    assert_eq!(pool.next_of(3), Some(7));
    assert_eq!(pool.take(3), Some(3));
    assert_eq!(pool.take(3), None);
    assert_eq!(pool.next_of(3), Some(7));
}

#[test]
fn a_stack_reuses_the_slots_of_popped_nodes() {
    let mut memory = Memory::new();
    for round in 0..5 {
        let node = memory.allocate(round);
        assert_eq!(node, 0);
        memory.pin();
        let head = memory.load_head();
        memory.set_next(node, head);
        assert!(memory.install(head, node));
        memory.count_up();
        memory.unpin();

        memory.pin();
        let head = memory.load_head().unwrap();
        let next = memory.next_of(head);
        assert!(memory.unlink(head, next));
        memory.count_down();
        memory.retire(head);
        assert_eq!(memory.take(head), Some(round));
        memory.unpin();
    }
}
