use stacks::stack::Stack;

#[test]
fn push_three_pop_four() {
    let mut stack = Stack::new();
    stack.push(1);
    stack.push(2);
    stack.push(3);
    assert_eq!(stack.len(), 3);
    assert_eq!(stack.pop(), Some(3));
    assert_eq!(stack.pop(), Some(2));
    assert_eq!(stack.pop(), Some(1));
    assert_eq!(stack.pop(), None);
    assert!(stack.is_empty());
}

#[test]
fn new_stack_is_empty() {
    let mut stack: Stack<String> = Stack::new();
    assert!(stack.is_empty());
    assert_eq!(stack.len(), 0);
    assert_eq!(stack.peek(), None);
    assert_eq!(stack.pop(), None);
    assert_eq!(stack.pop(), None);
    assert!(stack.is_empty());
    assert_eq!(stack.len(), 0);
}

#[test]
fn pops_come_in_reverse_order() {
    let values: Vec<u32> = (0..1000).map(|i| i * 7 + 1).collect();
    let mut stack = Stack::new();
    for value in &values {
        stack.push(*value);
    }
    let mut popped = Vec::new();
    while let Some(value) = stack.pop() {
        popped.push(value);
    }
    let mut expected = values.clone();
    expected.reverse();
    assert_eq!(popped, expected);
    assert_eq!(stack.pop(), None);
}

#[test]
fn drained_stack_pops_nothing() {
    let mut stack = Stack::new();
    for round in 0..3 {
        stack.push(round);
        stack.push(round + 10);
        assert_eq!(stack.pop(), Some(round + 10));
        assert_eq!(stack.pop(), Some(round));
        assert_eq!(stack.pop(), None);
        assert!(stack.is_empty());
    }
}

#[test]
fn len_counts_pushes_less_pops() {
    let mut stack = Stack::new();
    for n in 0..50usize {
        assert_eq!(stack.len(), n);
        stack.push(n);
    }
    for m in 0..=20usize {
        assert_eq!(stack.len(), 50 - m);
        if m < 20 {
            assert!(stack.pop().is_some());
        }
    }
    assert_eq!(stack.len(), 30);
}

#[test]
fn is_empty_foretells_pop() {
    let mut stack = Stack::new();
    for step in 0..40u32 {
        if step % 3 == 2 || step > 30 {
            let empty = stack.is_empty();
            assert_eq!(stack.pop().is_none(), empty);
        } else {
            stack.push(step);
            assert!(!stack.is_empty());
        }
    }
    while !stack.is_empty() {
        assert!(stack.pop().is_some());
    }
    assert_eq!(stack.pop(), None);
}

#[test]
fn peek_clones_the_top_and_leaves_it() {
    let mut stack = Stack::new();
    stack.push(String::from("bottom"));
    stack.push(String::from("top"));
    assert_eq!(stack.peek(), Some(String::from("top")));
    assert_eq!(stack.peek(), Some(String::from("top")));
    assert_eq!(stack.len(), 2);
    assert_eq!(stack.pop(), Some(String::from("top")));
    assert_eq!(stack.peek(), Some(String::from("bottom")));
    assert_eq!(stack.pop(), Some(String::from("bottom")));
    assert_eq!(stack.peek(), None);
}

#[test]
fn push_after_pop_is_on_top() {
    let mut stack = Stack::new();
    stack.push('a');
    stack.push('b');
    assert_eq!(stack.pop(), Some('b'));
    stack.push('c');
    assert_eq!(stack.pop(), Some('c'));
    assert_eq!(stack.pop(), Some('a'));
    assert_eq!(stack.pop(), None);
}

#[test]
fn every_pushed_value_is_popped_once() {
    // The pushes of eight workers take effect in some order; whatever it is,
    // eight pops return the same values.
    let pushed: Vec<u64> = vec![11, 12, 13, 14, 15, 16, 17, 18];
    let order = [5usize, 2, 7, 0, 3, 6, 1, 4];
    let mut stack = Stack::new();
    for &worker in &order {
        stack.push(pushed[worker]);
    }
    let mut popped = Vec::new();
    for _ in 0..pushed.len() {
        popped.push(stack.pop().unwrap());
    }
    assert_eq!(stack.pop(), None);
    popped.sort();
    assert_eq!(popped, pushed);
}

#[test]
fn values_are_moved_not_copied() {
    let mut stack = Stack::new();
    stack.push(vec![1, 2, 3]);
    stack.push(Vec::new());
    assert_eq!(stack.pop(), Some(Vec::new()));
    assert_eq!(stack.pop(), Some(vec![1, 2, 3]));
    assert!(stack.is_empty());
}

#[test]
fn two_stacks_do_not_mix() {
    let mut left = Stack::new();
    let mut right = Stack::new();
    left.push(1);
    right.push(2);
    left.push(3);
    assert_eq!(right.pop(), Some(2));
    assert_eq!(right.pop(), None);
    assert_eq!(left.pop(), Some(3));
    assert_eq!(left.pop(), Some(1));
}

#[test]
fn threads_that_take_turns_lose_nothing() {
    let workers: u64 = 8;
    let shared = std::sync::Mutex::new(Stack::new());
    crossbeam::scope(|scope| {
        for worker in 0..workers {
            let shared = &shared;
            scope.spawn(move || {
                shared.lock().unwrap().push(100 + worker);
            });
        }
    });
    assert_eq!(shared.lock().unwrap().len(), 8);
    let popped = std::sync::Mutex::new(Vec::new());
    crossbeam::scope(|scope| {
        for _ in 0..workers {
            let shared = &shared;
            let popped = &popped;
            scope.spawn(move || {
                let value = shared.lock().unwrap().pop();
                popped.lock().unwrap().push(value.unwrap());
            });
        }
    });
    let mut popped = popped.into_inner().unwrap();
    popped.sort();
    assert_eq!(popped, vec![100, 101, 102, 103, 104, 105, 106, 107]);
    assert!(shared.lock().unwrap().is_empty());
}
