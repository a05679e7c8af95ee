//! A last-in-first-out stack of linked nodes.
//!
//! Each operation is the sequence of steps that the lock-free algorithm
//! takes on shared memory: pin a guard, load the head, swap it by
//! compare-and-swap, count, retire. The stack is held by one owner at a time
//! (`&mut self`), so each operation runs from its first step to its last with
//! nothing in between, and its contract says what it does to the elements.

use crate::memory::Memory;
use crate::threads::{lemma_pop_alone_effect, lemma_push_alone_effect, pop_alone, push_alone};
use vstd::pervasive::cloned;
use vstd::prelude::*;

verus! {

/// What `pop` returns on a stack that holds `items`, the topmost last.
pub open spec fn top<T>(items: Seq<T>) -> Option<T> {
    if items.len() > 0 {
        Some(items.last())
    } else {
        None
    }
}

/// What `pop` leaves of a stack that holds `items`, the topmost last.
pub open spec fn rest<T>(items: Seq<T>) -> Seq<T> {
    if items.len() > 0 {
        items.drop_last()
    } else {
        items
    }
}

/// A last-in-first-out stack. Its view is the sequence of its elements, the
/// topmost last.
pub struct Stack<T> {
    memory: Memory<T>,
}

impl<T> View for Stack<T> {
    type V = Seq<T>;

    closed spec fn view(&self) -> Seq<T> {
        self.memory@.items()
    }
}

impl<T> Stack<T> {
    #[verifier::type_invariant]
    spec fn inv(self) -> bool {
        self.memory.wf() && self.memory@.quiet()
    }

    /// Returns a new, empty stack.
    pub fn new() -> (stack: Stack<T>)
        ensures
            stack@ == Seq::<T>::empty(),
    {
        let stack = Stack { memory: Memory::new() };
        proof {
            assert(stack@ =~= Seq::<T>::empty());
        }
        stack
    }

    /// Checks whether the stack is empty.
    pub fn is_empty(&self) -> (empty: bool)
        ensures
            empty == (self@.len() == 0),
    {
        proof {
            use_type_invariant(self);
            self.memory@.lemma_top();
        }
        self.memory.load_head().is_none()
    }

    /// Returns the number of elements in the stack.
    pub fn len(&self) -> (len: usize)
        ensures
            len == self@.len(),
    {
        proof {
            use_type_invariant(self);
        }
        self.memory.count()
    }

    /// Pushes an element on top of the stack.
    pub fn push(&mut self, data: T)
        ensures
            final(self)@ == old(self)@.push(data),
    {
        proof {
            use_type_invariant(&*self);
        }
        let mut memory = Memory::new();
        std::mem::swap(&mut memory, &mut self.memory);
        let ghost before = memory@;
        proof {
            memory.lemma_chain_bounded();
        }
        let node = memory.allocate(data);
        memory.pin();
        // Nothing else can move the head between a load and the swap that
        // follows it, so no attempt is repeated.
        loop
            invariant_except_break
                memory.wf(),
                before.allocated(node, data).can_link(node),
                memory@ == before.allocated(node, data).pinned(),
            ensures
                memory.wf(),
                memory@.pool.guards > 0,
                memory@.unpinned() == push_alone(before, node, data),
            decreases 0nat,
        {
            let head = memory.load_head();
            memory.set_next(node, head);
            if memory.install(head, node) {
                memory.count_up();
                break ;
            }
        }
        memory.unpin();
        proof {
            lemma_push_alone_effect(before, node, data);
        }
        self.memory = memory;
    }

    /// Removes and returns the top element of the stack, or `None` if it is
    /// empty.
    pub fn pop(&mut self) -> (popped: Option<T>)
        ensures
            popped == top(old(self)@),
            final(self)@ == rest(old(self)@),
    {
        proof {
            use_type_invariant(&*self);
        }
        let mut memory = Memory::new();
        std::mem::swap(&mut memory, &mut self.memory);
        let ghost before = memory@;
        proof {
            memory.lemma_chain_bounded();
        }
        proof {
            before.lemma_top();
        }
        let mut popped: Option<T> = None;
        memory.pin();
        // Nothing else can move the head between a load and the swap that
        // follows it, so no attempt is repeated.
        loop
            invariant_except_break
                memory.wf(),
                before.head == before.top(),
                before.items().len() == before.chain.len(),
                before.head matches Some(node) ==> before.pool.live(node)
                    && before.pool.slots[node as int].data() == Some(before.items().last()),
                popped is None,
                memory@ == before.pinned(),
            ensures
                memory.wf(),
                memory@.pool.guards > 0,
                memory@.unpinned() == pop_alone(before),
                popped == top(before.items()),
            decreases 0nat,
        {
            match memory.load_head() {
                None => {
                    break ;
                },
                Some(head) => {
                    let next = memory.next_of(head);
                    if memory.unlink(head, next) {
                        memory.count_down();
                        memory.retire(head);
                        popped = memory.take(head);
                        break ;
                    }
                },
            }
        }
        memory.unpin();
        proof {
            lemma_pop_alone_effect(before);
        }
        self.memory = memory;
        popped
    }
}

impl<T: Clone> Stack<T> {
    /// Gets a clone of the top element of the stack, if there is one.
    pub fn peek(&self) -> (seen: Option<T>)
        ensures
            seen is Some == (self@.len() > 0),
            seen matches Some(value) ==> cloned(self@.last(), value),
    {
        proof {
            use_type_invariant(self);
            self.memory@.lemma_top();
        }
        match self.memory.load_head() {
            None => None,
            Some(head) => {
                match self.memory.data_of(head) {
                    Some(value) => Some(value.clone()),
                    None => None,
                }
            },
        }
    }
}

} // verus!
