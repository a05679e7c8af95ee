//! Operations whose steps take turns.
//!
//! A stack that several threads share sees the steps of their operations in
//! some order that nobody chose. This module describes every such run: a
//! thread is the place where one operation stands, a system is a memory with
//! its threads, and a step lets one thread take its next step on the memory,
//! as `memory::Memory` defines it. What is proved holds of every order.

use crate::memory::MemoryView;
use crate::stack::{rest, top};
use vstd::multiset::Multiset;
use vstd::prelude::*;

verus! {

/// Where an operation stands: the step that it takes next, and what it has
/// learned so far.
pub enum Thread<T> {
    /// A push of `data` that has not begun: it allocates a node.
    PushAllocate { data: T },
    /// A push that pins a guard.
    PushPin { node: usize },
    /// A push that loads the head.
    PushLoad { node: usize },
    /// A push that makes its node point to the head that it saw.
    PushLink { node: usize, seen: Option<usize> },
    /// A push that tries to swap the head for its node.
    PushSwap { node: usize, seen: Option<usize> },
    /// A push that counts its element.
    PushCount,
    /// A push that drops its guard.
    PushUnpin,
    /// A pop that has not begun: it pins a guard.
    PopPin,
    /// A pop that loads the head.
    PopLoad,
    /// A pop that reads the successor of the head that it saw.
    PopRead { head: usize },
    /// A pop that tries to swap the head for its successor.
    PopSwap { head: usize, next: Option<usize> },
    /// A pop that counts the element out.
    PopCount { head: usize },
    /// A pop that hands back the node that it unlinked.
    PopRetire { head: usize },
    /// A pop that moves the value out of its node.
    PopTake { head: usize },
    /// A pop that drops its guard.
    PopUnpin { value: Option<T> },
    /// A peek that has not begun: it pins a guard.
    PeekPin,
    /// A peek that loads the head.
    PeekLoad,
    /// A peek that reads the value of the head that it saw.
    PeekRead { head: usize },
    /// A peek that drops its guard.
    PeekUnpin { found: Option<T> },
    /// A push or a pop that has ended. A pop returned `value`, a push nothing.
    Done { value: Option<T> },
    /// A peek that has ended. It returned a copy of `found`.
    Peeked { found: Option<T> },
}

impl<T> Thread<T> {
    /// The memory accepts the step that this thread takes next. `choice` is
    /// the node that `allocate` returns, where that is the step.
    pub open spec fn ready(self, memory: MemoryView<T>, choice: usize) -> bool {
        match self {
            Thread::PushAllocate { .. } => memory.can_allocate(choice),
            Thread::PushPin { .. } => memory.pool.guards < usize::MAX,
            Thread::PushLoad { .. } => true,
            Thread::PushLink { node, .. } => memory.can_link(node),
            Thread::PushSwap { node, seen } => memory.can_install(seen, node),
            Thread::PushCount => true,
            Thread::PushUnpin => memory.pool.guards > 0,
            Thread::PopPin => memory.pool.guards < usize::MAX,
            Thread::PopLoad => true,
            Thread::PopRead { head } => memory.pool.in_use(head),
            Thread::PopSwap { head, next } => memory.can_unlink(head, next),
            Thread::PopCount { .. } => true,
            Thread::PopRetire { head } => memory.can_retire(head),
            Thread::PopTake { head } => memory.detached(head),
            Thread::PopUnpin { .. } => memory.pool.guards > 0,
            Thread::PeekPin => memory.pool.guards < usize::MAX,
            Thread::PeekLoad => true,
            Thread::PeekRead { head } => memory.pool.in_use(head),
            Thread::PeekUnpin { .. } => memory.pool.guards > 0,
            Thread::Done { .. } => true,
            Thread::Peeked { .. } => true,
        }
    }

    /// The thread and the memory after the thread's next step.
    pub open spec fn step(self, memory: MemoryView<T>, choice: usize) -> (Thread<T>, MemoryView<T>) {
        match self {
            Thread::PushAllocate { data } => (
                Thread::PushPin { node: choice },
                memory.allocated(choice, data),
            ),
            Thread::PushPin { node } => (Thread::PushLoad { node }, memory.pinned()),
            Thread::PushLoad { node } => (Thread::PushLink { node, seen: memory.head }, memory),
            Thread::PushLink { node, seen } => (
                Thread::PushSwap { node, seen },
                memory.linked_to(node, seen),
            ),
            Thread::PushSwap { node, seen } => (
                if memory.head == seen {
                    Thread::PushCount
                } else {
                    Thread::PushLoad { node }
                },
                memory.installed(seen, node),
            ),
            Thread::PushCount => (Thread::PushUnpin, memory.counted_up()),
            Thread::PushUnpin => (Thread::Done { value: None }, memory.unpinned()),
            Thread::PopPin => (Thread::PopLoad, memory.pinned()),
            Thread::PopLoad => (
                match memory.head {
                    Some(head) => Thread::PopRead { head },
                    None => Thread::PopUnpin { value: None },
                },
                memory,
            ),
            Thread::PopRead { head } => (
                Thread::PopSwap { head, next: memory.pool.slots[head as int].next() },
                memory,
            ),
            Thread::PopSwap { head, next } => (
                if memory.head == Some(head) {
                    Thread::PopCount { head }
                } else {
                    Thread::PopLoad
                },
                memory.unlinked(head, next),
            ),
            Thread::PopCount { head } => (Thread::PopRetire { head }, memory.counted_down()),
            Thread::PopRetire { head } => (Thread::PopTake { head }, memory.retired(head)),
            Thread::PopTake { head } => (
                Thread::PopUnpin { value: memory.pool.slots[head as int].data() },
                memory.emptied(head),
            ),
            Thread::PopUnpin { value } => (Thread::Done { value }, memory.unpinned()),
            Thread::PeekPin => (Thread::PeekLoad, memory.pinned()),
            Thread::PeekLoad => (
                match memory.head {
                    Some(head) => Thread::PeekRead { head },
                    None => Thread::PeekUnpin { found: None },
                },
                memory,
            ),
            Thread::PeekRead { head } => (
                Thread::PeekUnpin { found: memory.pool.slots[head as int].data() },
                memory,
            ),
            Thread::PeekUnpin { found } => (Thread::Peeked { found }, memory.unpinned()),
            Thread::Done { value } => (Thread::Done { value }, memory),
            Thread::Peeked { found } => (Thread::Peeked { found }, memory),
        }
    }

    /// The thread's next step finds a node that it did not know: it
    /// allocates one, loads the head or unlinks the topmost node.
    pub open spec fn finds(self) -> bool {
        self is PushAllocate || self is PopLoad || self is PeekLoad || self is PopSwap
    }

    /// The thread's next step drops its guard.
    pub open spec fn unpins(self) -> bool {
        self is PushUnpin || self is PopUnpin || self is PeekUnpin
    }

    /// The operation has ended.
    pub open spec fn over(self) -> bool {
        self is Done || self is Peeked
    }

    /// The thread holds a guard.
    pub open spec fn pinned(self) -> bool {
        match self {
            Thread::PushAllocate { .. } => false,
            Thread::PushPin { .. } => false,
            Thread::PopPin => false,
            Thread::PeekPin => false,
            Thread::Done { .. } => false,
            Thread::Peeked { .. } => false,
            _ => true,
        }
    }

    /// The node that a push has allocated and not yet linked.
    pub open spec fn private(self) -> Option<usize> {
        match self {
            Thread::PushPin { node } => Some(node),
            Thread::PushLoad { node } => Some(node),
            Thread::PushLink { node, .. } => Some(node),
            Thread::PushSwap { node, .. } => Some(node),
            _ => None,
        }
    }

    /// The node that a pop has unlinked and whose value it has not yet moved out.
    pub open spec fn claimed(self) -> Option<usize> {
        match self {
            Thread::PopCount { head } => Some(head),
            Thread::PopRetire { head } => Some(head),
            Thread::PopTake { head } => Some(head),
            _ => None,
        }
    }

    /// The node that a pop or a peek found at the head and will read or
    /// compare.
    pub open spec fn watched(self) -> Option<usize> {
        match self {
            Thread::PopRead { head } => Some(head),
            Thread::PopSwap { head, .. } => Some(head),
            Thread::PeekRead { head } => Some(head),
            _ => None,
        }
    }

    /// What the thread has learned is true of the memory.
    pub open spec fn fits(self, memory: MemoryView<T>) -> bool {
        match self {
            Thread::PushPin { node } => memory.holds_apart(node),
            Thread::PushLoad { node } => memory.holds_apart(node),
            Thread::PushLink { node, .. } => memory.holds_apart(node),
            Thread::PushSwap { node, seen } => memory.can_install(seen, node),
            Thread::PopRead { head } => memory.pool.in_use(head),
            Thread::PeekRead { head } => memory.pool.in_use(head),
            Thread::PopSwap { head, next } => memory.can_unlink(head, next),
            Thread::PopCount { head } => memory.holds_apart(head),
            Thread::PopRetire { head } => memory.holds_apart(head),
            Thread::PopTake { head } => memory.detached(head)
                && memory.pool.slots[head as int] is Retired
                && memory.pool.slots[head as int].data() is Some,
            _ => true,
        }
    }

    /// The thread owns `node`: it has allocated and not yet linked it, or
    /// unlinked it and not yet moved its value out.
    pub open spec fn owns(self, node: usize) -> bool {
        self.private() == Some(node) || self.claimed() == Some(node)
    }

    /// This thread's node is its own: `other` neither owns nor watches it.
    pub open spec fn apart(self, other: Thread<T>) -> bool {
        &&& self.private() is Some ==> self.private() != other.private() && self.private()
            != other.claimed() && self.private() != other.watched()
        &&& self.claimed() is Some ==> self.claimed() != other.claimed()
    }

    /// What the thread owes the counter: a push that has linked its node
    /// will add one, a pop that has unlinked a node will take one.
    pub open spec fn owes(self) -> int {
        match self {
            Thread::PushCount => -1,
            Thread::PopCount { .. } => 1,
            _ => 0,
        }
    }

    /// The values that the thread is answerable for: the one that it will
    /// push, the one in its node, or the one that it popped.
    pub open spec fn kept(self, memory: MemoryView<T>) -> Multiset<T> {
        match self {
            Thread::PushAllocate { data } => Multiset::singleton(data),
            Thread::PopUnpin { value } => some(value),
            Thread::Done { value } => some(value),
            _ => if self.private() is Some {
                Multiset::singleton(memory.pool.slots[self.private()->0 as int].data()->0)
            } else if self.claimed() is Some {
                Multiset::singleton(memory.pool.slots[self.claimed()->0 as int].data()->0)
            } else {
                Multiset::empty()
            },
        }
    }
}

/// The value of `value` as a multiset: one element or none.
pub open spec fn some<T>(value: Option<T>) -> Multiset<T> {
    match value {
        Some(v) => Multiset::singleton(v),
        None => Multiset::empty(),
    }
}

/// How many of `threads` hold a guard.
pub open spec fn guards_held<T>(threads: Seq<Thread<T>>) -> nat
    decreases threads.len(),
{
    if threads.len() == 0 {
        0
    } else {
        guards_held(threads.drop_last()) + if threads.last().pinned() {
            1nat
        } else {
            0nat
        }
    }
}

/// The values that `threads` are answerable for.
pub open spec fn kept_by<T>(threads: Seq<Thread<T>>, memory: MemoryView<T>) -> Multiset<T>
    decreases threads.len(),
{
    if threads.len() == 0 {
        Multiset::empty()
    } else {
        kept_by(threads.drop_last(), memory).add(threads.last().kept(memory))
    }
}

/// How far the counter is ahead: the pops that have unlinked a node and not
/// yet counted it out, less the pushes that have linked one and not yet
/// counted it.
pub open spec fn uncounted<T>(threads: Seq<Thread<T>>) -> int
    decreases threads.len(),
{
    if threads.len() == 0 {
        0
    } else {
        uncounted(threads.drop_last()) + threads.last().owes()
    }
}

/// A memory and the operations in progress on it.
pub struct System<T> {
    pub memory: MemoryView<T>,
    pub threads: Seq<Thread<T>>,
}

impl<T> System<T> {
    /// The system after thread `i` took its next step. Where that step is
    /// `allocate`, it returns `choice`; a choice that `allocate` cannot make,
    /// and a thread that is not there, leave the system as it is.
    pub open spec fn step(self, i: int, choice: usize) -> System<T> {
        if 0 <= i < self.threads.len() && (self.threads[i] is PushAllocate
            ==> self.memory.can_allocate(choice)) {
            System {
                memory: self.threads[i].step(self.memory, choice).1,
                threads: self.threads.update(i, self.threads[i].step(self.memory, choice).0),
            }
        } else {
            self
        }
    }

    /// The system after the steps of `schedule`, each a thread and a choice.
    pub open spec fn run(self, schedule: Seq<(int, usize)>) -> System<T>
        decreases schedule.len(),
    {
        if schedule.len() == 0 {
            self
        } else {
            self.run(schedule.drop_last()).step(schedule.last().0, schedule.last().1)
        }
    }

    /// Every value in the system: those of the linked nodes and those that
    /// the threads are answerable for.
    pub open spec fn values(self) -> Multiset<T> {
        self.memory.items().to_multiset().add(kept_by(self.threads, self.memory))
    }

    /// Every operation has ended.
    pub open spec fn ended(self) -> bool {
        forall|i: int| 0 <= i < self.threads.len() ==> (#[trigger] self.threads[i]).over()
    }

    /// One of the threads owns `node`.
    pub open spec fn owned(self, node: usize) -> bool {
        exists|i: int| 0 <= i < self.threads.len() && (#[trigger] self.threads[i]).owns(node)
    }

    /// Nothing is left behind: a live node that is not linked has an owner,
    /// and a node waits for release only while a guard is held.
    pub open spec fn tidy(self) -> bool {
        &&& forall|node: usize| #[trigger] self.memory.can_link(node) ==> self.owned(node)
        &&& self.memory.pool.guards == 0 ==> forall|i: int|
            0 <= i < self.memory.pool.slots.len() ==> !(#[trigger] self.memory.pool.slots[i] is Retired)
    }

    /// The counter is the number of linked nodes but for what the threads
    /// owe it, and but for its wrapping round.
    pub open spec fn counted(self) -> bool {
        let due = self.memory.chain.len() + uncounted(self.threads);
        ||| self.memory.count == due
        ||| self.memory.count == due + (usize::MAX + 1)
        ||| self.memory.count == due - (usize::MAX + 1)
    }

    /// What holds before and after every step: the nodes are linked as the
    /// memory says, nothing is left behind, the counter is right up to what
    /// the threads owe it, there are as many guards as threads that hold
    /// one, what each thread has learned is true, and no node has two owners.
    pub open spec fn inv(self) -> bool {
        &&& self.memory.linked()
        &&& self.memory.pool.slots.len() <= usize::MAX
        &&& self.tidy()
        &&& self.counted()
        &&& self.threads.len() <= usize::MAX
        &&& self.memory.pool.guards == guards_held(self.threads)
        &&& forall|i: int| 0 <= i < self.threads.len() ==> (#[trigger] self.threads[i]).fits(self.memory)
        &&& forall|i: int, j: int|
            0 <= i < self.threads.len() && 0 <= j < self.threads.len() && i != j ==> (
            #[trigger] self.threads[i]).apart(#[trigger] self.threads[j])
    }
}

/// Replacing one thread changes the number of guards held by what that
/// thread holds before and after.
proof fn lemma_guards_update<T>(threads: Seq<Thread<T>>, i: int, thread: Thread<T>)
    requires
        0 <= i < threads.len(),
    ensures
        guards_held(threads.update(i, thread)) + (if threads[i].pinned() {
            1nat
        } else {
            0nat
        }) == guards_held(threads) + (if thread.pinned() {
            1nat
        } else {
            0nat
        }),
    decreases threads.len(),
{
    let after = threads.update(i, thread);
    if i == threads.len() - 1 {
        assert(after.drop_last() =~= threads.drop_last());
    } else {
        assert(after.drop_last() =~= threads.drop_last().update(i, thread));
        lemma_guards_update(threads.drop_last(), i, thread);
    }
}

/// No more guards are held than there are threads, and fewer where a thread
/// holds none.
proof fn lemma_guards_bound<T>(threads: Seq<Thread<T>>)
    ensures
        guards_held(threads) <= threads.len(),
        forall|i: int|
            0 <= i < threads.len() && !(#[trigger] threads[i]).pinned() ==> guards_held(threads)
                < threads.len(),
    decreases threads.len(),
{
    if threads.len() > 0 {
        lemma_guards_bound(threads.drop_last());
        assert forall|i: int| 0 <= i < threads.len() && !(#[trigger] threads[i]).pinned() implies guards_held(
            threads,
        ) < threads.len() by {
            if i < threads.len() - 1 {
                assert(threads.drop_last()[i] == threads[i]);
            }
        }
    }
}

/// A thread that holds a guard is counted, and where one guard is held in
/// all, no other thread holds one.
proof fn lemma_guards_alone<T>(threads: Seq<Thread<T>>, i: int)
    requires
        0 <= i < threads.len(),
        threads[i].pinned(),
    ensures
        guards_held(threads) >= 1,
        guards_held(threads) == 1 ==> forall|j: int|
            0 <= j < threads.len() && j != i ==> !(#[trigger] threads[j]).pinned(),
{
    let idle = Thread::<T>::PopPin;
    lemma_guards_update(threads, i, idle);
    if guards_held(threads) == 1 {
        let others = threads.update(i, idle);
        assert forall|j: int| 0 <= j < threads.len() && j != i implies !(
        #[trigger] threads[j]).pinned() by {
            lemma_guards_update(others, j, idle);
            assert(others[j] == threads[j]);
        }
    }
}

/// Safety: in a system that meets the invariant, the memory accepts the next
/// step of every thread. No thread reads a slot that is free, hands a node
/// back twice or moves a value out of a node that is not its own.
pub proof fn lemma_ready<T>(system: System<T>, i: int, choice: usize)
    requires
        system.inv(),
        0 <= i < system.threads.len(),
        system.threads[i] is PushAllocate ==> system.memory.can_allocate(choice),
    ensures
        system.threads[i].ready(system.memory, choice),
{
    let thread = system.threads[i];
    assert(thread.fits(system.memory));
    lemma_guards_bound(system.threads);
    if thread.pinned() {
        lemma_guards_alone(system.threads, i);
    }
}

/// A step leaves the nodes linked as the memory says.
proof fn lemma_step_linked<T>(thread: Thread<T>, memory: MemoryView<T>, choice: usize)
    requires
        memory.linked(),
        thread.ready(memory, choice),
    ensures
        thread.step(memory, choice).1.linked(),
        thread.step(memory, choice).1.pool.slots.len() >= memory.pool.slots.len(),
{
    match thread {
        Thread::PushAllocate { data } => {
            memory.lemma_allocated(choice, data);
        },
        Thread::PushPin { .. } => {
            memory.lemma_same_links(memory.pinned());
        },
        Thread::PopPin => {
            memory.lemma_same_links(memory.pinned());
        },
        Thread::PeekPin => {
            memory.lemma_same_links(memory.pinned());
        },
        Thread::PushCount => {
            memory.lemma_same_links(memory.counted_up());
        },
        Thread::PopCount { .. } => {
            memory.lemma_same_links(memory.counted_down());
        },
        Thread::PushLink { node, seen } => {
            memory.lemma_changed(node, memory.pool.slots[node as int].linked_to(seen));
        },
        Thread::PushSwap { node, seen } => {
            memory.lemma_installed(seen, node);
        },
        Thread::PushUnpin => {
            memory.lemma_unpinned();
        },
        Thread::PopSwap { head, next } => {
            memory.lemma_unlinked(head, next);
        },
        Thread::PopRetire { head } => {
            memory.lemma_changed(head, memory.pool.slots[head as int].handed_back());
        },
        Thread::PopTake { head } => {
            memory.lemma_changed(head, memory.pool.slots[head as int].emptied());
        },
        Thread::PopUnpin { .. } => {
            memory.lemma_unpinned();
        },
        Thread::PeekUnpin { .. } => {
            memory.lemma_unpinned();
        },
        _ => {},
    }
}

/// A step changes no slot but the one that the thread owns or is given, and
/// no slot that is allocated becomes free while a thread holds a guard.
proof fn lemma_step_frame<T>(system: System<T>, i: int, choice: usize, node: usize)
    requires
        system.inv(),
        0 <= i < system.threads.len(),
        system.threads[i] is PushAllocate ==> system.memory.can_allocate(choice),
        system.memory.pool.in_use(node),
        system.threads[i].private() != Some(node),
        system.threads[i].claimed() != Some(node),
    ensures
        system.threads[i].unpins()
            && system.memory.pool.guards == 1 ==> system.step(i, choice).memory.pool.slots[node as int]
            == system.memory.pool.slots[node as int].released(),
        !(system.threads[i].unpins()
            && system.memory.pool.guards == 1) ==> system.step(i, choice).memory.pool.slots[node as int]
            == system.memory.pool.slots[node as int],
        system.step(i, choice).memory.chain.contains(node) ==> system.memory.chain.contains(node)
            || system.threads[i].private() == Some(node),
        system.memory.chain.contains(node) ==> system.step(i, choice).memory.chain.contains(node)
            || (system.threads[i].watched() == Some(node) && system.step(
            i,
            choice,
        ).threads[i].claimed() == Some(node)),
{
    let thread = system.threads[i];
    let memory = system.memory;
    let after = system.step(i, choice).memory;
    assert(thread.fits(memory));
    match thread {
        Thread::PushSwap { node: mine, seen } => {
            if memory.head == seen {
                vstd::seq_lib::lemma_seq_contains_after_push(memory.chain, mine, node);
            }
        },
        Thread::PopSwap { head, next } => {
            if memory.head == Some(head) {
                memory.lemma_top();
                crate::pool::lemma_without_last(memory.chain);
            }
        },
        _ => {},
    }
}

/// After a step of thread `i`, what another thread has learned is still true.
proof fn lemma_step_fits_other<T>(system: System<T>, i: int, j: int, choice: usize)
    requires
        system.inv(),
        0 <= i < system.threads.len(),
        0 <= j < system.threads.len(),
        i != j,
        system.threads[i] is PushAllocate ==> system.memory.can_allocate(choice),
    ensures
        system.threads[j].fits(system.step(i, choice).memory),
{
    let other = system.threads[j];
    let thread = system.threads[i];
    let memory = system.memory;
    let after = system.step(i, choice).memory;
    assert(other.fits(memory));
    assert(thread.apart(other));
    assert(other.apart(thread));
    lemma_ready(system, i, choice);
    lemma_step_linked(thread, memory, choice);
    if thread.unpins() && memory.pool.guards == 1 {
        lemma_guards_alone(system.threads, i);
        assert(!other.pinned());
    }
    if other.private() is Some {
        lemma_step_frame(system, i, choice, other.private()->0);
    }
    if other.claimed() is Some {
        lemma_step_frame(system, i, choice, other.claimed()->0);
    }
    if other.watched() is Some {
        let node = other.watched()->0;
        if thread.claimed() == Some(node) {
        } else {
            lemma_step_frame(system, i, choice, node);
        }
    }
}

/// After a step that finds or makes a node, what the thread has learned is true.
proof fn lemma_step_fits_found<T>(thread: Thread<T>, memory: MemoryView<T>, choice: usize)
    requires
        memory.linked(),
        thread.fits(memory),
        thread is PushAllocate ==> memory.can_allocate(choice),
        thread.finds(),
    ensures
        thread.step(memory, choice).0.fits(thread.step(memory, choice).1),
{
    match thread {
        Thread::PushAllocate { data } => {
            memory.lemma_allocated(choice, data);
        },
        Thread::PopSwap { head, next } => {
            if memory.head == Some(head) {
                memory.lemma_unlinked(head, next);
                memory.lemma_top();
            }
        },
        _ => {
            memory.lemma_top();
        },
    }
}

/// After a step on what the thread knows already, what it has learned is true.
proof fn lemma_step_fits_known<T>(thread: Thread<T>, memory: MemoryView<T>, choice: usize)
    requires
        thread.fits(memory),
        !thread.finds(),
    ensures
        thread.step(memory, choice).0.fits(thread.step(memory, choice).1),
{
}

/// After its step, what a thread has learned is true.
proof fn lemma_step_fits_self<T>(thread: Thread<T>, memory: MemoryView<T>, choice: usize)
    requires
        memory.linked(),
        thread.fits(memory),
        thread is PushAllocate ==> memory.can_allocate(choice),
    ensures
        thread.step(memory, choice).0.fits(thread.step(memory, choice).1),
{
    if thread.finds() {
        lemma_step_fits_found(thread, memory, choice);
    } else {
        lemma_step_fits_known(thread, memory, choice);
    }
}

/// After a step of thread `i`, its node is still its own.
proof fn lemma_step_apart<T>(system: System<T>, i: int, j: int, choice: usize)
    requires
        system.inv(),
        0 <= i < system.threads.len(),
        0 <= j < system.threads.len(),
        i != j,
        system.threads[i] is PushAllocate ==> system.memory.can_allocate(choice),
    ensures
        system.threads[i].step(system.memory, choice).0.apart(system.threads[j]),
        system.threads[j].apart(system.threads[i].step(system.memory, choice).0),
{
    let other = system.threads[j];
    let thread = system.threads[i];
    let memory = system.memory;
    assert(other.fits(memory));
    assert(thread.fits(memory));
    assert(thread.apart(other));
    assert(other.apart(thread));
    memory.lemma_top();
}

/// Replacing one thread changes what the threads owe the counter by what
/// that thread owes before and after.
proof fn lemma_uncounted_update<T>(threads: Seq<Thread<T>>, i: int, thread: Thread<T>)
    requires
        0 <= i < threads.len(),
    ensures
        uncounted(threads.update(i, thread)) - thread.owes() == uncounted(threads) - threads[i].owes(),
        -threads.len() <= uncounted(threads) <= threads.len(),
    decreases threads.len(),
{
    let after = threads.update(i, thread);
    if i == threads.len() - 1 {
        assert(after.drop_last() =~= threads.drop_last());
        if threads.len() > 1 {
            lemma_uncounted_update(threads.drop_last(), 0, threads[0]);
        }
    } else {
        assert(after.drop_last() =~= threads.drop_last().update(i, thread));
        lemma_uncounted_update(threads.drop_last(), i, thread);
    }
}

/// After a step the counter is right up to what the threads owe it.
proof fn lemma_step_counted<T>(system: System<T>, i: int, choice: usize)
    requires
        system.inv(),
        0 <= i < system.threads.len(),
        system.threads[i] is PushAllocate ==> system.memory.can_allocate(choice),
    ensures
        system.step(i, choice).counted(),
        system.step(i, choice).memory.pool.slots.len() <= usize::MAX,
{
    let thread = system.threads[i];
    let after = system.step(i, choice);
    lemma_uncounted_update(system.threads, i, thread.step(system.memory, choice).0);
    lemma_uncounted_update(after.threads, i, after.threads[i]);
    lemma_ready(system, i, choice);
    lemma_step_linked(thread, system.memory, choice);
    system.memory.lemma_chain_fits();
    system.memory.lemma_top();
    after.memory.lemma_chain_fits();
    assert(thread.fits(system.memory));
}

/// A node that is live and not linked after a step, and that the thread
/// that took the step does not own, was live and not linked before, and
/// that thread did not own it.
proof fn lemma_step_orphan<T>(system: System<T>, i: int, choice: usize, node: usize)
    requires
        system.inv(),
        0 <= i < system.threads.len(),
        system.threads[i] is PushAllocate ==> system.memory.can_allocate(choice),
        system.step(i, choice).memory.can_link(node),
        !system.step(i, choice).threads[i].owns(node),
    ensures
        system.memory.can_link(node),
        !system.threads[i].owns(node),
{
    let thread = system.threads[i];
    let memory = system.memory;
    let after = system.step(i, choice).memory;
    assert(thread.fits(memory));
    if thread.owns(node) {
        match thread {
            Thread::PushSwap { node: mine, seen } => {
                assert(after.chain[memory.chain.len() as int] == node);
            },
            _ => {},
        }
    } else if memory.pool.in_use(node) {
        lemma_step_frame(system, i, choice, node);
    } else {
        match thread {
            Thread::PushUnpin => {
                if node < memory.pool.slots.len() {
                    assert(memory.pool.slots[node as int].released() is Free);
                }
            },
            Thread::PopUnpin { .. } => {
                if node < memory.pool.slots.len() {
                    assert(memory.pool.slots[node as int].released() is Free);
                }
            },
            Thread::PeekUnpin { .. } => {
                if node < memory.pool.slots.len() {
                    assert(memory.pool.slots[node as int].released() is Free);
                }
            },
            _ => {},
        }
    }
}

/// After a step no node waits for release unless a guard is held.
proof fn lemma_step_settled<T>(thread: Thread<T>, memory: MemoryView<T>, choice: usize)
    requires
        thread.fits(memory),
        thread.ready(memory, choice),
        memory.pool.guards == 0 ==> forall|i: int|
            0 <= i < memory.pool.slots.len() ==> !(#[trigger] memory.pool.slots[i] is Retired),
        thread.step(memory, choice).1.pool.guards == 0,
    ensures
        forall|i: int|
            0 <= i < thread.step(memory, choice).1.pool.slots.len() ==> !(#[trigger] thread.step(
                memory,
                choice,
            ).1.pool.slots[i] is Retired),
{
    let after = thread.step(memory, choice).1;
    assert forall|i: int| 0 <= i < after.pool.slots.len() implies !(
    #[trigger] after.pool.slots[i] is Retired) by {
        match thread {
            Thread::PushUnpin => {},
            Thread::PopUnpin { .. } => {},
            Thread::PeekUnpin { .. } => {},
            _ => {
                if i < memory.pool.slots.len() {
                    assert(!(memory.pool.slots[i] is Retired));
                }
            },
        }
    }
}

/// After a step nothing is left behind.
proof fn lemma_step_tidy<T>(system: System<T>, i: int, choice: usize)
    requires
        system.inv(),
        0 <= i < system.threads.len(),
        system.threads[i] is PushAllocate ==> system.memory.can_allocate(choice),
    ensures
        system.step(i, choice).tidy(),
{
    let thread = system.threads[i];
    let after = system.step(i, choice);
    assert forall|node: usize| #[trigger] after.memory.can_link(node) implies after.owned(node) by {
        if after.threads[i].owns(node) {
        } else {
            lemma_step_orphan(system, i, choice, node);
            assert(system.owned(node));
            let j = choose|j: int|
                0 <= j < system.threads.len() && (#[trigger] system.threads[j]).owns(node);
            assert(after.threads[j] == system.threads[j]);
        }
    }
    if after.memory.pool.guards == 0 {
        assert(thread.fits(system.memory));
        lemma_ready(system, i, choice);
        lemma_step_settled(thread, system.memory, choice);
    }
}

/// Every step keeps the invariant.
pub proof fn lemma_step_keeps_inv<T>(system: System<T>, i: int, choice: usize)
    requires
        system.inv(),
    ensures
        system.step(i, choice).inv(),
{
    if 0 <= i < system.threads.len() && (system.threads[i] is PushAllocate
        ==> system.memory.can_allocate(choice)) {
        let thread = system.threads[i];
        let after = system.step(i, choice);
        lemma_ready(system, i, choice);
        lemma_step_linked(thread, system.memory, choice);
        lemma_guards_update(system.threads, i, thread.step(system.memory, choice).0);
        lemma_step_counted(system, i, choice);
        lemma_step_tidy(system, i, choice);
        assert(thread.fits(system.memory));
        lemma_step_fits_self(thread, system.memory, choice);
        assert forall|j: int| 0 <= j < after.threads.len() implies (#[trigger] after.threads[j]).fits(
            after.memory,
        ) by {
            if j != i {
                lemma_step_fits_other(system, i, j, choice);
            }
        }
        assert forall|a: int, b: int|
            0 <= a < after.threads.len() && 0 <= b < after.threads.len() && a != b implies (
        #[trigger] after.threads[a]).apart(#[trigger] after.threads[b]) by {
            if a == i {
                lemma_step_apart(system, i, b, choice);
            } else if b == i {
                lemma_step_apart(system, i, a, choice);
            } else {
                assert(system.threads[a].apart(system.threads[b]));
            }
        }
    }
}

/// After a step of thread `i`, another thread is answerable for the same values.
proof fn lemma_step_kept_other<T>(system: System<T>, i: int, j: int, choice: usize)
    requires
        system.inv(),
        0 <= i < system.threads.len(),
        0 <= j < system.threads.len(),
        i != j,
        system.threads[i] is PushAllocate ==> system.memory.can_allocate(choice),
    ensures
        system.threads[j].kept(system.step(i, choice).memory) == system.threads[j].kept(system.memory),
{
    let other = system.threads[j];
    let thread = system.threads[i];
    let memory = system.memory;
    assert(other.fits(memory));
    assert(thread.apart(other));
    assert(other.apart(thread));
    if thread.unpins() && memory.pool.guards == 1 {
        lemma_guards_alone(system.threads, i);
        assert(!other.pinned());
    }
    if other.private() is Some {
        lemma_step_frame(system, i, choice, other.private()->0);
    }
    if other.claimed() is Some {
        lemma_step_frame(system, i, choice, other.claimed()->0);
    }
}

/// A step moves values between the linked nodes and the thread that takes
/// it, and neither loses nor doubles one.
proof fn lemma_step_kept_self<T>(thread: Thread<T>, memory: MemoryView<T>, choice: usize)
    requires
        memory.linked(),
        thread.fits(memory),
        thread.ready(memory, choice),
    ensures
        thread.step(memory, choice).1.items().to_multiset().add(
            thread.step(memory, choice).0.kept(thread.step(memory, choice).1),
        ) == memory.items().to_multiset().add(thread.kept(memory)),
{
    let after = thread.step(memory, choice).1;
    let next = thread.step(memory, choice).0;
    match thread {
        Thread::PushAllocate { data } => {
            memory.lemma_allocated(choice, data);
        },
        Thread::PushLink { node, seen } => {
            memory.lemma_changed(node, memory.pool.slots[node as int].linked_to(seen));
        },
        Thread::PushSwap { node, seen } => {
            memory.lemma_installed(seen, node);
            if memory.head == seen {
                vstd::seq_lib::to_multiset_build(
                    memory.items(),
                    memory.pool.slots[node as int].data()->0,
                );
            }
        },
        Thread::PushUnpin => {
            memory.lemma_unpinned();
        },
        Thread::PopSwap { head, next } => {
            memory.lemma_unlinked(head, next);
            if memory.head == Some(head) {
                vstd::seq_lib::to_multiset_build(
                    after.items(),
                    memory.pool.slots[head as int].data()->0,
                );
            }
        },
        Thread::PopRetire { head } => {
            memory.lemma_changed(head, memory.pool.slots[head as int].handed_back());
        },
        Thread::PopTake { head } => {
            memory.lemma_changed(head, memory.pool.slots[head as int].emptied());
        },
        Thread::PopUnpin { .. } => {
            memory.lemma_unpinned();
        },
        Thread::PeekUnpin { .. } => {
            memory.lemma_unpinned();
        },
        _ => {},
    }
    assert(after.items().to_multiset().add(next.kept(after)) =~= memory.items().to_multiset().add(
        thread.kept(memory),
    ));
}

/// Threads that keep the same values in two memories keep the same in all.
proof fn lemma_kept_same<T>(threads: Seq<Thread<T>>, memory: MemoryView<T>, after: MemoryView<T>)
    requires
        forall|j: int| 0 <= j < threads.len() ==> (#[trigger] threads[j]).kept(after) == threads[j].kept(memory),
    ensures
        kept_by(threads, after) == kept_by(threads, memory),
    decreases threads.len(),
{
    if threads.len() > 0 {
        assert forall|j: int| 0 <= j < threads.len() - 1 implies (#[trigger] threads.drop_last()[j]).kept(
            after,
        ) == threads.drop_last()[j].kept(memory) by {
            assert(threads.drop_last()[j] == threads[j]);
        }
        lemma_kept_same(threads.drop_last(), memory, after);
        assert(threads[threads.len() - 1].kept(after) == threads[threads.len() - 1].kept(memory));
    }
}

/// Where the other threads keep what they kept, replacing one thread
/// changes what all keep by what that thread kept and keeps.
proof fn lemma_kept_update<T>(
    threads: Seq<Thread<T>>,
    memory: MemoryView<T>,
    i: int,
    thread: Thread<T>,
    after: MemoryView<T>,
)
    requires
        0 <= i < threads.len(),
        forall|j: int|
            0 <= j < threads.len() && j != i ==> (#[trigger] threads[j]).kept(after) == threads[j].kept(
                memory,
            ),
    ensures
        kept_by(threads.update(i, thread), after).add(threads[i].kept(memory)) == kept_by(
            threads,
            memory,
        ).add(thread.kept(after)),
    decreases threads.len(),
{
    let changed = threads.update(i, thread);
    let rest = threads.drop_last();
    if i == threads.len() - 1 {
        assert(changed.drop_last() =~= rest);
        assert forall|j: int| 0 <= j < rest.len() implies (#[trigger] rest[j]).kept(after) == rest[j].kept(
            memory,
        ) by {
            assert(rest[j] == threads[j]);
        }
        lemma_kept_same(rest, memory, after);
    } else {
        assert(changed.drop_last() =~= rest.update(i, thread));
        assert forall|j: int| 0 <= j < rest.len() && j != i implies (#[trigger] rest[j]).kept(after)
            == rest[j].kept(memory) by {
            assert(rest[j] == threads[j]);
        }
        lemma_kept_update(rest, memory, i, thread, after);
        assert(threads[threads.len() - 1].kept(after) == threads[threads.len() - 1].kept(memory));
        assert(rest[i] == threads[i]);
    }
    assert(kept_by(changed, after) == kept_by(changed.drop_last(), after).add(
        changed.last().kept(after),
    ));
    assert(kept_by(threads, memory) == kept_by(rest, memory).add(threads.last().kept(memory)));
    assert forall|v: T|
        kept_by(changed, after).add(threads[i].kept(memory)).count(v) == kept_by(
            threads,
            memory,
        ).add(thread.kept(after)).count(v) by {
        if i != threads.len() - 1 {
            assert(kept_by(rest.update(i, thread), after).add(rest[i].kept(memory)).count(v)
                == kept_by(rest, memory).add(thread.kept(after)).count(v));
        }
    }
    assert(kept_by(changed, after).add(threads[i].kept(memory)) =~= kept_by(threads, memory).add(
        thread.kept(after),
    ));
}

/// Conservation: a step neither loses a value nor makes one up.
pub proof fn lemma_step_conserves<T>(system: System<T>, i: int, choice: usize)
    requires
        system.inv(),
    ensures
        system.step(i, choice).values() == system.values(),
{
    if 0 <= i < system.threads.len() && (system.threads[i] is PushAllocate
        ==> system.memory.can_allocate(choice)) {
        let thread = system.threads[i];
        let memory = system.memory;
        let after = system.step(i, choice);
        lemma_ready(system, i, choice);
        assert(thread.fits(memory));
        lemma_step_kept_self(thread, memory, choice);
        assert forall|j: int| 0 <= j < system.threads.len() && j != i implies (
        #[trigger] system.threads[j]).kept(after.memory) == system.threads[j].kept(memory) by {
            lemma_step_kept_other(system, i, j, choice);
        }
        lemma_kept_update(system.threads, memory, i, thread.step(memory, choice).0, after.memory);
        let kept = thread.kept(memory);
        let kept_after = thread.step(memory, choice).0.kept(after.memory);
        assert forall|v: T| after.values().count(v) == system.values().count(v) by {
            assert(after.memory.items().to_multiset().add(kept_after).count(v)
                == memory.items().to_multiset().add(kept).count(v));
            assert(kept_by(after.threads, after.memory).add(kept).count(v) == kept_by(
                system.threads,
                memory,
            ).add(kept_after).count(v));
        }
        assert(after.values() =~= system.values());
    }
}

/// In every run the invariant holds throughout, and no value is lost or made up.
pub proof fn lemma_run<T>(system: System<T>, schedule: Seq<(int, usize)>)
    requires
        system.inv(),
    ensures
        system.run(schedule).inv(),
        system.run(schedule).values() == system.values(),
        system.run(schedule).threads.len() == system.threads.len(),
    decreases schedule.len(),
{
    if schedule.len() > 0 {
        let before = system.run(schedule.drop_last());
        lemma_run(system, schedule.drop_last());
        lemma_step_keeps_inv(before, schedule.last().0, schedule.last().1);
        lemma_step_conserves(before, schedule.last().0, schedule.last().1);
    }
}

/// One push for each of `values`, none of them begun.
pub open spec fn pushers<T>(values: Seq<T>) -> Seq<Thread<T>> {
    Seq::new(values.len(), |i: int| Thread::PushAllocate { data: values[i] })
}

/// `count` pops, none of them begun.
pub open spec fn poppers<T>(count: nat) -> Seq<Thread<T>> {
    Seq::new(count, |i: int| Thread::PopPin)
}

/// Threads that owe the counter nothing owe it nothing in all.
proof fn lemma_nothing_owed<T>(threads: Seq<Thread<T>>)
    requires
        forall|i: int| 0 <= i < threads.len() ==> (#[trigger] threads[i]).owes() == 0,
    ensures
        uncounted(threads) == 0,
    decreases threads.len(),
{
    if threads.len() > 0 {
        assert forall|i: int| 0 <= i < threads.len() - 1 implies (
        #[trigger] threads.drop_last()[i]).owes() == 0 by {
            assert(threads.drop_last()[i] == threads[i]);
        }
        lemma_nothing_owed(threads.drop_last());
        assert(threads[threads.len() - 1].owes() == 0);
    }
}

/// The counter settles: when no thread owes it anything, and so when every
/// operation has ended, the counter is the number of elements.
pub proof fn lemma_count_settles<T>(system: System<T>)
    requires
        system.inv(),
        forall|i: int| 0 <= i < system.threads.len() ==> (#[trigger] system.threads[i]).owes() == 0,
    ensures
        system.memory.count == system.memory.items().len(),
{
    lemma_nothing_owed(system.threads);
    system.memory.lemma_chain_fits();
}

/// When every operation has ended the memory is quiet: no guard is held, no
/// node waits for release, every allocated node is linked, and the counter
/// is the number of elements.
pub proof fn lemma_ended_quiet<T>(system: System<T>)
    requires
        system.inv(),
        system.ended(),
    ensures
        system.memory.quiet(),
{
    assert forall|i: int| 0 <= i < system.threads.len() implies !(#[trigger] system.threads[i]).pinned()
        && system.threads[i].owes() == 0 by {
        assert(system.threads[i].over());
    }
    lemma_no_guards(system.threads);
    lemma_count_settles(system);
    assert forall|node: usize| #[trigger] system.memory.pool.in_use(node) implies system.memory.chain.contains(
        node,
    ) by {
        assert(!(system.memory.pool.slots[node as int] is Retired));
        if !system.memory.chain.contains(node) {
            assert(system.memory.can_link(node));
            let i = choose|i: int| 0 <= i < system.threads.len() && (#[trigger] system.threads[i]).owns(
                node,
            );
            assert(system.threads[i].over());
        }
    }
}

/// Threads of which none holds a guard hold none in all.
proof fn lemma_no_guards<T>(threads: Seq<Thread<T>>)
    requires
        forall|i: int| 0 <= i < threads.len() ==> !(#[trigger] threads[i]).pinned(),
    ensures
        guards_held(threads) == 0,
    decreases threads.len(),
{
    if threads.len() > 0 {
        assert forall|i: int| 0 <= i < threads.len() - 1 implies !(#[trigger] threads.drop_last()[i]).pinned() by {
            assert(threads.drop_last()[i] == threads[i]);
        }
        lemma_no_guards(threads.drop_last());
        assert(!threads[threads.len() - 1].pinned());
    }
}

/// Pushes that have not begun are answerable for the values that they will push.
proof fn lemma_pushers<T>(values: Seq<T>, memory: MemoryView<T>)
    ensures
        kept_by(pushers(values), memory) == values.to_multiset(),
    decreases values.len(),
{
    if values.len() == 0 {
        assert(values.to_multiset() =~= Multiset::empty()) by {
            vstd::seq_lib::to_multiset_len(values);
        }
    } else {
        lemma_pushers(values.drop_last(), memory);
        assert(pushers(values).drop_last() =~= pushers(values.drop_last()));
        vstd::seq_lib::to_multiset_build(values.drop_last(), values.last());
        assert(values.drop_last().push(values.last()) =~= values);
        assert(kept_by(pushers(values), memory) =~= values.to_multiset());
    }
}

/// Threads that keep no value keep none in all.
proof fn lemma_nothing_kept<T>(threads: Seq<Thread<T>>, memory: MemoryView<T>)
    requires
        forall|i: int| 0 <= i < threads.len() ==> (#[trigger] threads[i]).kept(memory) == Multiset::<T>::empty(),
    ensures
        kept_by(threads, memory) == Multiset::<T>::empty(),
    decreases threads.len(),
{
    if threads.len() > 0 {
        assert forall|i: int| 0 <= i < threads.len() - 1 implies (#[trigger] threads.drop_last()[i]).kept(
            memory,
        ) == Multiset::<T>::empty() by {
            assert(threads.drop_last()[i] == threads[i]);
        }
        lemma_nothing_kept(threads.drop_last(), memory);
        assert(threads[threads.len() - 1].kept(memory) == Multiset::<T>::empty());
        assert(kept_by(threads, memory) =~= Multiset::<T>::empty());
    }
}

impl<T> Thread<T> {
    /// The thread is a push, in progress or ended.
    pub open spec fn pushing(self) -> bool {
        match self {
            Thread::PushAllocate { .. } => true,
            Thread::PushPin { .. } => true,
            Thread::PushLoad { .. } => true,
            Thread::PushLink { .. } => true,
            Thread::PushSwap { .. } => true,
            Thread::PushCount => true,
            Thread::PushUnpin => true,
            Thread::Done { value } => value is None,
            _ => false,
        }
    }
}

/// In a run of pushes every thread stays a push.
proof fn lemma_run_of_pushes<T>(system: System<T>, schedule: Seq<(int, usize)>)
    requires
        forall|i: int| 0 <= i < system.threads.len() ==> (#[trigger] system.threads[i]).pushing(),
    ensures
        forall|i: int|
            0 <= i < system.run(schedule).threads.len() ==> (#[trigger] system.run(
                schedule,
            ).threads[i]).pushing(),
    decreases schedule.len(),
{
    if schedule.len() > 0 {
        let before = system.run(schedule.drop_last());
        lemma_run_of_pushes(system, schedule.drop_last());
        let after = system.run(schedule);
        let at = schedule.last().0;
        assert forall|i: int| 0 <= i < after.threads.len() implies (#[trigger] after.threads[i]).pushing() by {
            assert(before.threads[i].pushing());
        }
    }
}

/// Conservation for pushes that threads share: however the steps of one push
/// for each of `values` take turns on an empty stack, no step goes wrong,
/// and once the pushes have ended the stack holds each value as often as it
/// was pushed, and no guard is left.
pub proof fn lemma_shared_pushes<T>(values: Seq<T>, schedule: Seq<(int, usize)>)
    requires
        values.len() <= usize::MAX,
    ensures
        ({
            let end = (System { memory: MemoryView::empty(), threads: pushers(values) }).run(schedule);
            &&& end.inv()
            &&& end.values() == values.to_multiset()
            &&& end.ended() ==> end.memory.items().to_multiset() == values.to_multiset()
                && end.memory.quiet() && end.memory.count == values.len()
        }),
{
    let start = System { memory: MemoryView::<T>::empty(), threads: pushers(values) };
    let end = start.run(schedule);
    lemma_no_guards(start.threads);
    lemma_nothing_owed(start.threads);
    MemoryView::<T>::lemma_empty();
    lemma_pushers(values, start.memory);
    assert(start.memory.items() =~= Seq::<T>::empty());
    assert(start.memory.items().to_multiset() =~= Multiset::<T>::empty()) by {
        vstd::seq_lib::to_multiset_len(start.memory.items());
    }
    assert(start.values() =~= values.to_multiset());
    lemma_run(start, schedule);
    lemma_run_of_pushes(start, schedule);
    if end.ended() {
        assert forall|i: int| 0 <= i < end.threads.len() implies (#[trigger] end.threads[i]).kept(
            end.memory,
        ) == Multiset::<T>::empty() by {
            assert(end.threads[i].over());
            assert(end.threads[i].pushing());
        }
        lemma_nothing_kept(end.threads, end.memory);
        assert(end.memory.items().to_multiset() =~= end.values());
        assert forall|i: int| 0 <= i < end.threads.len() implies !(#[trigger] end.threads[i]).pinned() by {
            assert(end.threads[i].over());
        }
        lemma_ended_quiet(end);
        vstd::seq_lib::to_multiset_len(end.memory.items());
        vstd::seq_lib::to_multiset_len(values);
    }
}

/// Conservation for pops that threads share: however the steps of `count`
/// pops take turns on a stack that no operation is working on, no step goes
/// wrong, and the values that are left together with those that the pops
/// hold or have returned are the values that the stack held.
pub proof fn lemma_shared_pops<T>(memory: MemoryView<T>, count: nat, schedule: Seq<(int, usize)>)
    requires
        memory.linked(),
        memory.quiet(),
        memory.pool.slots.len() <= usize::MAX,
        count <= usize::MAX,
    ensures
        ({
            let end = (System { memory, threads: poppers(count) }).run(schedule);
            &&& end.inv()
            &&& end.memory.items().to_multiset().add(kept_by(end.threads, end.memory))
                == memory.items().to_multiset()
        }),
{
    let start = System { memory, threads: poppers::<T>(count) };
    lemma_no_guards(start.threads);
    lemma_nothing_owed(start.threads);
    lemma_quiet_settled(memory);
    lemma_nothing_kept(start.threads, memory);
    assert(start.values() =~= memory.items().to_multiset());
    lemma_run(start, schedule);
}

impl<T> Thread<T> {
    /// The thread is a pop that has not come back empty-handed.
    pub open spec fn popping(self) -> bool {
        match self {
            Thread::PopPin => true,
            Thread::PopLoad => true,
            Thread::PopRead { .. } => true,
            Thread::PopSwap { .. } => true,
            Thread::PopCount { .. } => true,
            Thread::PopRetire { .. } => true,
            Thread::PopTake { .. } => true,
            Thread::PopUnpin { value } => value is Some,
            Thread::Done { value } => value is Some,
            _ => false,
        }
    }

    /// One for a pop that has unlinked a node, none for another thread.
    pub open spec fn got(self) -> int {
        match self {
            Thread::PopCount { .. } => 1,
            Thread::PopRetire { .. } => 1,
            Thread::PopTake { .. } => 1,
            Thread::PopUnpin { value } => if value is Some {
                1
            } else {
                0
            },
            Thread::Done { value } => if value is Some {
                1
            } else {
                0
            },
            _ => 0,
        }
    }
}

/// How many of `threads` are pops that have unlinked a node.
pub open spec fn gotten<T>(threads: Seq<Thread<T>>) -> int
    decreases threads.len(),
{
    if threads.len() == 0 {
        0
    } else {
        gotten(threads.drop_last()) + threads.last().got()
    }
}

impl<T> System<T> {
    /// The threads are pops of which none has come back empty-handed, no
    /// more of them than the stack had elements, `elements` in number, and
    /// each element is still linked or was unlinked by one of them.
    pub open spec fn draining(self, elements: nat) -> bool {
        &&& forall|i: int| 0 <= i < self.threads.len() ==> (#[trigger] self.threads[i]).popping()
        &&& self.threads.len() <= elements
        &&& self.memory.chain.len() + gotten(self.threads) == elements
    }
}

/// Replacing one thread changes the number of pops that have unlinked a
/// node by what that thread counts before and after.
proof fn lemma_gotten_update<T>(threads: Seq<Thread<T>>, i: int, thread: Thread<T>)
    requires
        0 <= i < threads.len(),
    ensures
        gotten(threads.update(i, thread)) - thread.got() == gotten(threads) - threads[i].got(),
        gotten(threads) - threads[i].got() <= threads.len() - 1,
        0 <= gotten(threads) <= threads.len(),
    decreases threads.len(),
{
    let after = threads.update(i, thread);
    if i == threads.len() - 1 {
        assert(after.drop_last() =~= threads.drop_last());
        if threads.len() > 1 {
            lemma_gotten_update(threads.drop_last(), 0, threads[0]);
        }
    } else {
        assert(after.drop_last() =~= threads.drop_last().update(i, thread));
        lemma_gotten_update(threads.drop_last(), i, thread);
    }
}

/// No pop comes back empty-handed while there are no more pops than
/// elements: a step of such a system leaves it such a system.
proof fn lemma_step_draining<T>(system: System<T>, i: int, choice: usize, elements: nat)
    requires
        system.inv(),
        system.draining(elements),
    ensures
        system.step(i, choice).draining(elements),
{
    if 0 <= i < system.threads.len() {
        let thread = system.threads[i];
        let after = system.step(i, choice);
        assert(thread.popping());
        assert(thread.fits(system.memory));
        system.memory.lemma_top();
        lemma_gotten_update(system.threads, i, after.threads[i]);
        assert forall|j: int| 0 <= j < after.threads.len() implies (#[trigger] after.threads[j]).popping() by {
            if j != i {
                assert(system.threads[j].popping());
            }
        }
    }
}

/// In every run of pops, no more of them than elements, none comes back
/// empty-handed.
proof fn lemma_run_draining<T>(system: System<T>, schedule: Seq<(int, usize)>, elements: nat)
    requires
        system.inv(),
        system.draining(elements),
    ensures
        system.run(schedule).draining(elements),
    decreases schedule.len(),
{
    if schedule.len() > 0 {
        lemma_run(system, schedule.drop_last());
        lemma_run_draining(system, schedule.drop_last(), elements);
        lemma_step_draining(
            system.run(schedule.drop_last()),
            schedule.last().0,
            schedule.last().1,
            elements,
        );
    }
}

/// Threads that have unlinked nothing have unlinked nothing in all, and
/// pops that have all returned a value have unlinked as many nodes as they are.
proof fn lemma_gotten_ends<T>(threads: Seq<Thread<T>>)
    ensures
        (forall|i: int| 0 <= i < threads.len() ==> (#[trigger] threads[i]).got() == 0) ==> gotten(
            threads,
        ) == 0,
        (forall|i: int| 0 <= i < threads.len() ==> (#[trigger] threads[i]).got() == 1) ==> gotten(
            threads,
        ) == threads.len(),
    decreases threads.len(),
{
    if threads.len() > 0 {
        lemma_gotten_ends(threads.drop_last());
        if forall|i: int| 0 <= i < threads.len() ==> (#[trigger] threads[i]).got() == 0 {
            assert forall|i: int| 0 <= i < threads.len() - 1 implies (
            #[trigger] threads.drop_last()[i]).got() == 0 by {
                assert(threads.drop_last()[i] == threads[i]);
            }
            assert(threads[threads.len() - 1].got() == 0);
        }
        if forall|i: int| 0 <= i < threads.len() ==> (#[trigger] threads[i]).got() == 1 {
            assert forall|i: int| 0 <= i < threads.len() - 1 implies (
            #[trigger] threads.drop_last()[i]).got() == 1 by {
                assert(threads.drop_last()[i] == threads[i]);
            }
            assert(threads[threads.len() - 1].got() == 1);
        }
    }
}

/// Conservation under concurrency: threads push one value each, their steps
/// taking turns in any order, and when those pushes have ended, as many pops
/// run, their steps taking turns in any order. Then no step goes wrong, and
/// the values that the pops hold or have returned, together with those that
/// are left on the stack, are the values that were pushed, each as often as
/// it was pushed. No pop finds the stack empty, and once the pops have ended
/// the values that they returned are the values that were pushed, the stack
/// is empty, and its memory is quiet.
pub proof fn lemma_shared_pushes_then_pops<T>(
    values: Seq<T>,
    pushing: Seq<(int, usize)>,
    popping: Seq<(int, usize)>,
)
    requires
        values.len() <= usize::MAX,
        (System { memory: MemoryView::empty(), threads: pushers(values) }).run(pushing).ended(),
    ensures
        ({
            let pushed = (System { memory: MemoryView::empty(), threads: pushers(values) }).run(
                pushing,
            );
            let end = (System { memory: pushed.memory, threads: poppers(values.len()) }).run(popping);
            &&& end.inv()
            &&& end.memory.items().to_multiset().add(kept_by(end.threads, end.memory))
                == values.to_multiset()
            &&& forall|i: int| 0 <= i < end.threads.len() ==> (#[trigger] end.threads[i]).popping()
            &&& end.ended() ==> kept_by(end.threads, end.memory) == values.to_multiset()
                && end.memory.items().len() == 0 && end.memory.quiet()
        }),
{
    let pushed = (System { memory: MemoryView::<T>::empty(), threads: pushers(values) }).run(pushing);
    let end = (System { memory: pushed.memory, threads: poppers::<T>(values.len()) }).run(popping);
    lemma_shared_pushes(values, pushing);
    lemma_shared_pops(pushed.memory, values.len(), popping);
    let start = System { memory: pushed.memory, threads: poppers::<T>(values.len()) };
    lemma_no_guards(start.threads);
    lemma_nothing_owed(start.threads);
    lemma_quiet_settled(pushed.memory);
    lemma_gotten_ends(start.threads);
    vstd::seq_lib::to_multiset_len(values);
    vstd::seq_lib::to_multiset_len(pushed.memory.items());
    assert(start.inv());
    assert(start.draining(values.len()));
    lemma_run(start, popping);
    lemma_run_draining(start, popping, values.len());
    if end.ended() {
        assert forall|i: int| 0 <= i < end.threads.len() implies (#[trigger] end.threads[i]).got()
            == 1 by {
            assert(end.threads[i].over());
            assert(end.threads[i].popping());
        }
        lemma_gotten_ends(end.threads);
        lemma_ended_quiet(end);
        assert(end.memory.items() =~= Seq::<T>::empty());
        vstd::seq_lib::to_multiset_len(end.memory.items());
        assert(end.memory.items().to_multiset() =~= Multiset::<T>::empty());
        assert(kept_by(end.threads, end.memory) =~= values.to_multiset());
    }
}

/// The system after `steps` steps of its first thread, which is given
/// `choice` where it allocates.
pub open spec fn alone<T>(system: System<T>, steps: nat, choice: usize) -> System<T>
    decreases steps,
{
    if steps == 0 {
        system
    } else {
        alone(system, (steps - 1) as nat, choice).step(0, choice)
    }
}

/// The memory after a push of `data` that is given `node` and that no other
/// operation comes across.
pub open spec fn push_alone<T>(memory: MemoryView<T>, node: usize, data: T) -> MemoryView<T> {
    memory.allocated(node, data).pinned().linked_to(node, memory.head).installed(
        memory.head,
        node,
    ).counted_up().unpinned()
}

/// The memory after a pop that no other operation comes across.
pub open spec fn pop_alone<T>(memory: MemoryView<T>) -> MemoryView<T> {
    match memory.head {
        None => memory.pinned().unpinned(),
        Some(head) => memory.pinned().unlinked(
            head,
            memory.pool.slots[head as int].next(),
        ).counted_down().retired(head).emptied(head).unpinned(),
    }
}

/// In a quiet memory no slot waits for release.
proof fn lemma_quiet_settled<T>(memory: MemoryView<T>)
    requires
        memory.linked(),
        memory.quiet(),
        memory.pool.slots.len() <= usize::MAX,
    ensures
        forall|i: int| 0 <= i < memory.pool.slots.len() ==> !(#[trigger] memory.pool.slots[i] is Retired),
        memory.pool.released() == memory.pool.slots,
{
    assert forall|i: int| 0 <= i < memory.pool.slots.len() implies !(
    #[trigger] memory.pool.slots[i] is Retired) by {
        let node = i as usize;
        if memory.pool.slots[i] is Retired {
            assert(memory.pool.in_use(node));
            memory.lemma_linked_live(node);
        }
    }
    assert(memory.pool.released() =~= memory.pool.slots);
}

/// What a push that runs alone leaves: the memory is quiet again, and the
/// value is on top of the elements that were there.
pub proof fn lemma_push_alone_effect<T>(memory: MemoryView<T>, node: usize, data: T)
    requires
        memory.linked(),
        memory.quiet(),
        memory.can_allocate(node),
        memory.pool.slots.len() <= usize::MAX,
    ensures
        push_alone(memory, node, data).linked(),
        push_alone(memory, node, data).quiet(),
        push_alone(memory, node, data).items() == memory.items().push(data),
{
    let after = push_alone(memory, node, data);
    let m1 = memory.allocated(node, data);
    let m2 = m1.pinned();
    let m3 = m2.linked_to(node, memory.head);
    let m4 = m3.installed(memory.head, node);
    let m5 = m4.counted_up();
    memory.lemma_allocated(node, data);
    m1.lemma_same_links(m2);
    m2.lemma_changed(node, m2.pool.slots[node as int].linked_to(memory.head));
    m3.lemma_installed(memory.head, node);
    m4.lemma_chain_fits();
    lemma_quiet_settled(memory);
    let linked = crate::pool::Slot::Live { data: Some(data), next: memory.head };
    assert(m5.pool.slots =~= memory.pool.put(node, linked));
    assert(m5.pool.released() =~= m5.pool.slots);
    m4.lemma_same_links(m5);
    m5.lemma_unpinned();
    assert forall|k: int| 0 <= k < memory.chain.len() implies #[trigger] memory.chain[k]
        != node by {
        assert(memory.chain.contains(memory.chain[k]));
        memory.lemma_linked_live(memory.chain[k]);
    }
    assert forall|other: usize| #[trigger] after.pool.in_use(other) implies after.chain.contains(
        other,
    ) by {
        if other == node {
            assert(after.chain[memory.chain.len() as int] == node);
        } else {
            assert(memory.pool.in_use(other));
            let k = choose|k: int| 0 <= k < memory.chain.len() && memory.chain[k] == other;
            assert(after.chain[k] == other);
        }
    }
    assert(after.items() =~= memory.items().push(data));
}

/// A push that runs alone is a push as `Stack::push` describes it: the
/// thread takes its seven steps, no swap fails, and the memory is left as
/// `lemma_push_alone_effect` says.
pub proof fn lemma_push_alone<T>(memory: MemoryView<T>, node: usize, data: T)
    requires
        memory.linked(),
        memory.can_allocate(node),
    ensures
        alone(System { memory, threads: seq![Thread::PushAllocate { data }] }, 7, node) == (System {
            memory: push_alone(memory, node, data),
            threads: seq![Thread::Done { value: None }],
        }),
{
    let s0 = System { memory, threads: seq![Thread::PushAllocate { data }] };
    let s1 = s0.step(0, node);
    let s2 = s1.step(0, node);
    let s3 = s2.step(0, node);
    let s4 = s3.step(0, node);
    let s5 = s4.step(0, node);
    let s6 = s5.step(0, node);
    let s7 = s6.step(0, node);
    assert(s1.threads =~= seq![Thread::PushPin { node }]);
    assert(s2.threads =~= seq![Thread::PushLoad { node }]);
    assert(s3.threads =~= seq![Thread::PushLink { node, seen: memory.head }]);
    assert(s4.threads =~= seq![Thread::PushSwap { node, seen: memory.head }]);
    assert(s5.threads =~= seq![Thread::PushCount]);
    assert(s6.threads =~= seq![Thread::PushUnpin]);
    assert(s7.threads =~= seq![Thread::Done { value: None }]);
    assert(s7.memory == push_alone(memory, node, data));
    assert(alone(s0, 7, node) == s7) by {
        reveal_with_fuel(alone, 8);
    }
}

/// Unlinking the topmost node and freeing its slot leaves a quiet memory
/// quiet, without the topmost element.
proof fn lemma_popped<T>(before: MemoryView<T>, after: MemoryView<T>)
    requires
        before.linked(),
        before.quiet(),
        before.chain.len() > 0,
        before.pool.slots.len() <= usize::MAX,
        after.chain == before.chain.drop_last(),
        after.count == before.count - 1,
        after.pool.guards == 0,
        after.pool.slots == before.pool.slots.update(
            before.chain.last() as int,
            crate::pool::Slot::Free,
        ),
    ensures
        after.quiet(),
        after.items() == before.items().drop_last(),
{
    let node = before.chain.last();
    reveal(MemoryView::linked);
    before.lemma_top();
    assert forall|other: usize| #[trigger] after.pool.in_use(other) implies after.chain.contains(
        other,
    ) by {
        assert(before.pool.in_use(other));
        let k = choose|k: int| 0 <= k < before.chain.len() && before.chain[k] == other;
        assert(after.chain[k] == other);
    }
    assert forall|k: int| 0 <= k < after.chain.len() implies #[trigger] after.chain[k] != node by {
        assert(before.chain[k] != before.chain[before.chain.len() - 1]);
    }
    assert(after.items() =~= before.items().drop_last());
}

/// What a pop that runs alone leaves: the memory is quiet again, the topmost
/// element is gone, and the slot of its node is free.
pub proof fn lemma_pop_alone_effect<T>(memory: MemoryView<T>)
    requires
        memory.linked(),
        memory.quiet(),
        memory.pool.slots.len() <= usize::MAX,
    ensures
        pop_alone(memory).linked(),
        pop_alone(memory).quiet(),
        pop_alone(memory).items() == rest(memory.items()),
        memory.head matches Some(head) ==> pop_alone(memory).pool.slots[head as int] is Free,
{
    let after = pop_alone(memory);
    lemma_quiet_settled(memory);
    memory.lemma_top();
    match memory.head {
        None => {
            assert(after.pool.slots =~= memory.pool.slots);
            assert(after == memory);
        },
        Some(head) => {
            let next = memory.pool.slots[head as int].next();
            memory.lemma_top();
            let m1 = memory.pinned();
            memory.lemma_same_links(m1);
            let m2 = m1.unlinked(head, next);
            m1.lemma_unlinked(head, next);
            let m3 = m2.counted_down();
            m2.lemma_same_links(m3);
            let m4 = m3.retired(head);
            m3.lemma_changed(head, m3.pool.slots[head as int].handed_back());
            let m5 = m4.emptied(head);
            m4.lemma_changed(head, m4.pool.slots[head as int].emptied());
            let left = crate::pool::Slot::Retired { data: None::<T>, next };
            assert(m5.pool.slots =~= memory.pool.slots.update(head as int, left));
            m5.lemma_unpinned();
            assert(after.pool.slots =~= memory.pool.slots.update(
                head as int,
                crate::pool::Slot::Free,
            ));
            lemma_popped(memory, after);
        },
    }
}

/// A pop that runs alone is a pop as `Stack::pop` describes it: the thread
/// takes its steps, three on an empty stack and eight on another, no swap
/// fails, the topmost value is returned, and the memory is left as
/// `lemma_pop_alone_effect` says.
pub proof fn lemma_pop_alone<T>(memory: MemoryView<T>)
    requires
        memory.linked(),
    ensures
        alone(
            System { memory, threads: seq![Thread::PopPin] },
            if memory.head is None {
                3
            } else {
                8
            },
            0,
        ) == (System {
            memory: pop_alone(memory),
            threads: seq![Thread::Done { value: top(memory.items()) }],
        }),
{
    memory.lemma_top();
    let s0 = System { memory, threads: seq![Thread::<T>::PopPin] };
    let s1 = s0.step(0, 0);
    let s2 = s1.step(0, 0);
    let s3 = s2.step(0, 0);
    assert(s1.threads =~= seq![Thread::PopLoad]);
    match memory.head {
        None => {
            assert(s2.threads =~= seq![Thread::PopUnpin { value: None }]);
            assert(s3.threads =~= seq![Thread::Done { value: None }]);
            assert(s3.memory == pop_alone(memory));
            assert(alone(s0, 3, 0) == s3) by {
                reveal_with_fuel(alone, 4);
            }
        },
        Some(head) => {
            let next = memory.pool.slots[head as int].next();
            let value = memory.pool.slots[head as int].data();
            assert(value == top(memory.items()));
            let s4 = s3.step(0, 0);
            let s5 = s4.step(0, 0);
            let s6 = s5.step(0, 0);
            let s7 = s6.step(0, 0);
            let s8 = s7.step(0, 0);
            assert(s2.threads =~= seq![Thread::PopRead { head }]);
            assert(s3.threads =~= seq![Thread::PopSwap { head, next }]);
            assert(s4.threads =~= seq![Thread::PopCount { head }]);
            assert(s5.threads =~= seq![Thread::PopRetire { head }]);
            assert(s6.threads =~= seq![Thread::PopTake { head }]);
            assert(s7.threads =~= seq![Thread::PopUnpin { value }]);
            assert(s8.threads =~= seq![Thread::Done { value }]);
            assert(s8.memory == pop_alone(memory));
            assert(alone(s0, 8, 0) == s8) by {
                reveal_with_fuel(alone, 9);
            }
        },
    }
}

/// A peek that runs alone is a peek as `Stack::peek` describes it: the
/// thread takes its steps, three on an empty stack and four on another, it
/// finds the topmost value, and it leaves the memory as it was.
pub proof fn lemma_peek_alone<T>(memory: MemoryView<T>)
    requires
        memory.linked(),
        memory.quiet(),
        memory.pool.slots.len() <= usize::MAX,
    ensures
        alone(
            System { memory, threads: seq![Thread::PeekPin] },
            if memory.head is None {
                3
            } else {
                4
            },
            0,
        ) == (System { memory, threads: seq![Thread::Peeked { found: top(memory.items()) }] }),
{
    memory.lemma_top();
    lemma_quiet_settled(memory);
    assert(memory.pinned().unpinned().pool.slots =~= memory.pool.slots);
    assert(memory.pinned().unpinned() == memory);
    let s0 = System { memory, threads: seq![Thread::<T>::PeekPin] };
    let s1 = s0.step(0, 0);
    let s2 = s1.step(0, 0);
    let s3 = s2.step(0, 0);
    assert(s1.threads =~= seq![Thread::PeekLoad]);
    match memory.head {
        None => {
            assert(s2.threads =~= seq![Thread::PeekUnpin { found: None }]);
            assert(s3.threads =~= seq![Thread::Peeked { found: None }]);
            assert(alone(s0, 3, 0) == s3) by {
                reveal_with_fuel(alone, 4);
            }
        },
        Some(head) => {
            let found = memory.pool.slots[head as int].data();
            let s4 = s3.step(0, 0);
            assert(s2.threads =~= seq![Thread::PeekRead { head }]);
            assert(s3.threads =~= seq![Thread::PeekUnpin { found }]);
            assert(s4.threads =~= seq![Thread::Peeked { found }]);
            assert(alone(s0, 4, 0) == s4) by {
                reveal_with_fuel(alone, 5);
            }
        },
    }
}

} // verus!
