use stacks::memory::Memory;

/// Where an operation stands: the step that it takes next.
#[derive(Clone, Copy, Debug, PartialEq)]
enum At {
    PushAllocate(u32),
    PushPin(usize),
    PushLoad(usize),
    PushLink(usize, Option<usize>),
    PushSwap(usize, Option<usize>),
    PushCount,
    PushUnpin,
    PopPin,
    PopLoad,
    PopRead(usize),
    PopSwap(usize, Option<usize>),
    PopCount(usize),
    PopRetire(usize),
    PopTake(usize),
    PopUnpin(Option<u32>),
    Done(Option<u32>),
}

fn step(memory: &mut Memory<u32>, at: At) -> At {
    match at {
        At::PushAllocate(data) => At::PushPin(memory.allocate(data)),
        At::PushPin(node) => {
            memory.pin();
            At::PushLoad(node)
        }
        At::PushLoad(node) => At::PushLink(node, memory.load_head()),
        At::PushLink(node, seen) => {
            memory.set_next(node, seen);
            At::PushSwap(node, seen)
        }
        At::PushSwap(node, seen) => {
            if memory.install(seen, node) {
                At::PushCount
            } else {
                At::PushLoad(node)
            }
        }
        At::PushCount => {
            memory.count_up();
            At::PushUnpin
        }
        At::PushUnpin => {
            memory.unpin();
            At::Done(None)
        }
        At::PopPin => {
            memory.pin();
            At::PopLoad
        }
        At::PopLoad => match memory.load_head() {
            Some(head) => At::PopRead(head),
            None => At::PopUnpin(None),
        },
        At::PopRead(head) => At::PopSwap(head, memory.next_of(head)),
        At::PopSwap(head, next) => {
            if memory.unlink(head, next) {
                At::PopCount(head)
            } else {
                At::PopLoad
            }
        }
        At::PopCount(head) => {
            memory.count_down();
            At::PopRetire(head)
        }
        At::PopRetire(head) => {
            memory.retire(head);
            At::PopTake(head)
        }
        At::PopTake(head) => At::PopUnpin(memory.take(head)),
        At::PopUnpin(value) => {
            memory.unpin();
            At::Done(value)
        }
        At::Done(value) => At::Done(value),
    }
}

/// A memory that holds `items`, the topmost last, and no operation.
fn memory_with(items: &[u32]) -> Memory<u32> {
    let mut memory = Memory::new();
    for &item in items {
        let mut at = At::PushAllocate(item);
        while at != At::Done(None) {
            at = step(&mut memory, at);
        }
    }
    memory
}

/// The elements from the topmost down, found by a walk from the head.
fn walk(memory: &Memory<u32>) -> Vec<u32> {
    let mut found = Vec::new();
    let mut at = memory.load_head();
    while let Some(node) = at {
        found.push(memory.data_of(node).unwrap());
        at = memory.next_of(node);
    }
    found
}

fn replay(items: &[u32], threads: &[At], schedule: &[usize]) -> (Memory<u32>, Vec<At>) {
    let mut memory = memory_with(items);
    let mut threads = threads.to_vec();
    for &turn in schedule {
        threads[turn] = step(&mut memory, threads[turn]);
    }
    (memory, threads)
}

/// Runs the threads in every order in which their steps can take turns, and
/// returns how many orders there are. At the end of each the values that are
/// left and those that were popped are those that were there and those that
/// were pushed, and the counter is the number of elements.
fn explore(items: &[u32], threads: &[At], schedule: &mut Vec<usize>) -> usize {
    let (memory, now) = replay(items, threads, schedule);
    let mut orders = 0;
    let mut ended = true;
    for turn in 0..now.len() {
        if let At::Done(_) = now[turn] {
            continue;
        }
        ended = false;
        schedule.push(turn);
        orders += explore(items, threads, schedule);
        schedule.pop();
    }
    if ended {
        let mut expected: Vec<u32> = items.to_vec();
        for thread in threads {
            if let At::PushAllocate(data) = thread {
                expected.push(*data);
            }
        }
        let left = walk(&memory);
        assert_eq!(memory.count(), left.len());
        let mut found = left;
        for thread in &now {
            if let At::Done(Some(value)) = thread {
                found.push(*value);
            }
        }
        expected.sort();
        found.sort();
        assert_eq!(found, expected);
        orders = 1;
    }
    orders
}

#[test]
fn two_pushes_in_every_order() {
    let threads = [At::PushAllocate(1), At::PushAllocate(2)];
    let orders = explore(&[], &threads, &mut Vec::new());
    assert!(orders > 3432);
}

#[test]
fn a_push_and_a_pop_in_every_order() {
    let threads = [At::PushAllocate(7), At::PopPin];
    let orders = explore(&[5], &threads, &mut Vec::new());
    assert!(orders > 1000);
}

#[test]
fn two_pops_in_every_order() {
    let threads = [At::PopPin, At::PopPin];
    let orders = explore(&[1, 2, 3], &threads, &mut Vec::new());
    assert!(orders > 1000);
}

#[test]
fn two_pops_of_the_last_element_in_every_order() {
    let threads = [At::PopPin, At::PopPin];
    let orders = explore(&[9], &threads, &mut Vec::new());
    assert!(orders > 100);
}

#[test]
fn a_pop_that_runs_first_finds_nothing() {
    let threads = [At::PushAllocate(4), At::PopPin];
    let (memory, now) = replay(&[], &threads, &[1, 1, 1, 0, 0, 0, 0, 0, 0, 0]);
    assert_eq!(now, vec![At::Done(None), At::Done(None)]);
    assert_eq!(walk(&memory), vec![4]);
    assert_eq!(memory.count(), 1);
}

#[test]
fn the_counter_goes_below_zero_and_comes_back() {
    // The push links its node, the pop unlinks it and counts first.
    let threads = [At::PushAllocate(4), At::PopPin];
    let schedule = [0, 0, 0, 0, 0, 1, 1, 1, 1, 1];
    let (memory, now) = replay(&[], &threads, &schedule);
    assert_eq!(now, vec![At::PushCount, At::PopRetire(0)]);
    assert_eq!(memory.count(), usize::MAX);
    assert_eq!(memory.load_head(), None);
    let (memory, now) = replay(&[], &threads, &[0, 0, 0, 0, 0, 1, 1, 1, 1, 1, 0, 1, 1, 1, 0]);
    assert_eq!(now, vec![At::Done(None), At::Done(Some(4))]);
    assert_eq!(memory.count(), 0);
}
