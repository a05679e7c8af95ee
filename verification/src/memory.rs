//! The memory that the operations of a stack work on: the node pool, the head
//! slot and the counter, each changed by one indivisible step at a time.

use crate::pool::{lemma_without_last, Pool, PoolView, Slot};
use vstd::prelude::*;

verus! {

/// The state of a memory.
pub struct MemoryView<T> {
    pub pool: PoolView<T>,
    /// What the head slot holds.
    pub head: Option<usize>,
    /// The counter of elements.
    pub count: usize,
    /// The nodes that a walk from the head finds, the last one found first.
    pub chain: Seq<usize>,
}

impl<T> MemoryView<T> {
    /// The topmost linked node.
    pub open spec fn top(self) -> Option<usize> {
        if self.chain.len() == 0 {
            None
        } else {
            Some(self.chain.last())
        }
    }

    /// The node under the linked node at `k`.
    pub open spec fn below(self, k: int) -> Option<usize> {
        if k == 0 {
            None
        } else {
            Some(self.chain[k - 1])
        }
    }

    /// The head slot holds the topmost node, and each linked node is live,
    /// holds a value, occurs once and points to the node under it.
    #[verifier::opaque]
    pub open spec fn linked(self) -> bool {
        &&& self.head == self.top()
        &&& self.chain.no_duplicates()
        &&& forall|k: int|
            0 <= k < self.chain.len() ==> self.pool.live(#[trigger] self.chain[k])
                && self.pool.slots[self.chain[k] as int].data() is Some
                && self.pool.slots[self.chain[k] as int].next() == self.below(k)
    }

    /// `node` is allocated and no walk from the head finds it: it belongs to
    /// an operation in progress.
    pub open spec fn detached(self, node: usize) -> bool {
        self.pool.in_use(node) && !self.chain.contains(node)
    }

    /// The values of the linked nodes, the topmost last.
    pub open spec fn items(self) -> Seq<T> {
        Seq::new(self.chain.len(), |k: int| self.pool.slots[self.chain[k] as int].data()->0)
    }

    /// No operation is in progress: no guard is active, every allocated node
    /// is linked, and the counter is the number of linked nodes.
    pub open spec fn quiet(self) -> bool {
        &&& self.pool.guards == 0
        &&& self.count == self.chain.len()
        &&& forall|node: usize| #[trigger] self.pool.in_use(node) ==> self.chain.contains(node)
    }

    /// The memory that holds nothing: no slot, no guard, nothing linked.
    pub open spec fn empty() -> Self {
        MemoryView {
            pool: PoolView { slots: Seq::empty(), guards: 0 },
            head: None,
            count: 0,
            chain: Seq::empty(),
        }
    }

    /// The same memory with other slots.
    pub open spec fn with_slots(self, slots: Seq<Slot<T>>) -> Self {
        MemoryView { pool: PoolView { slots, guards: self.pool.guards }, ..self }
    }

    /// `allocate` may return `node`: the slot is vacant, it is no new slot
    /// while a free one is left, and its number leaves room for the number
    /// of slots.
    pub open spec fn can_allocate(self, node: usize) -> bool {
        &&& self.pool.vacant(node)
        &&& self.pool.has_free() ==> node < self.pool.slots.len()
        &&& node < usize::MAX
    }

    /// The memory after `allocate` returned `node` for `data`.
    pub open spec fn allocated(self, node: usize, data: T) -> Self {
        self.with_slots(self.pool.put(node, Slot::Live { data: Some(data), next: None }))
    }

    /// The memory after `pin`.
    pub open spec fn pinned(self) -> Self {
        MemoryView {
            pool: PoolView { slots: self.pool.slots, guards: self.pool.guards + 1 },
            ..self
        }
    }

    /// The memory after `unpin`.
    pub open spec fn unpinned(self) -> Self {
        MemoryView {
            pool: PoolView {
                slots: if self.pool.guards == 1 {
                    self.pool.released()
                } else {
                    self.pool.slots
                },
                guards: (self.pool.guards - 1) as nat,
            },
            ..self
        }
    }

    /// `set_next` accepts `node`: it is live and not linked.
    pub open spec fn can_link(self, node: usize) -> bool {
        self.pool.live(node) && self.detached(node)
    }

    /// `node` is live, not linked, and holds a value.
    pub open spec fn holds_apart(self, node: usize) -> bool {
        self.can_link(node) && self.pool.slots[node as int].data() is Some
    }

    /// The memory after `set_next`.
    pub open spec fn linked_to(self, node: usize, next: Option<usize>) -> Self {
        self.with_slots(
            self.pool.slots.update(node as int, self.pool.slots[node as int].linked_to(next)),
        )
    }

    /// `install` accepts `node`: it is live, not linked, holds a value and
    /// points to `expected`.
    pub open spec fn can_install(self, expected: Option<usize>, node: usize) -> bool {
        self.holds_apart(node) && self.pool.slots[node as int].next() == expected
    }

    /// The memory after `install`.
    pub open spec fn installed(self, expected: Option<usize>, node: usize) -> Self {
        if self.head == expected {
            MemoryView { head: Some(node), chain: self.chain.push(node), ..self }
        } else {
            self
        }
    }

    /// `unlink` accepts `expected`: it is allocated and points to `next`.
    pub open spec fn can_unlink(self, expected: usize, next: Option<usize>) -> bool {
        self.pool.in_use(expected) && self.pool.slots[expected as int].next() == next
    }

    /// The memory after `unlink`.
    pub open spec fn unlinked(self, expected: usize, next: Option<usize>) -> Self {
        if self.head == Some(expected) {
            MemoryView { head: next, chain: self.chain.drop_last(), ..self }
        } else {
            self
        }
    }

    /// The memory after `count_up`.
    pub open spec fn counted_up(self) -> Self {
        MemoryView {
            count: if self.count == usize::MAX {
                0usize
            } else {
                (self.count + 1) as usize
            },
            ..self
        }
    }

    /// The memory after `count_down`.
    pub open spec fn counted_down(self) -> Self {
        MemoryView {
            count: if self.count == 0 {
                usize::MAX
            } else {
                (self.count - 1) as usize
            },
            ..self
        }
    }

    /// `retire` accepts `node`: it is live and not linked, and a guard is active.
    pub open spec fn can_retire(self, node: usize) -> bool {
        self.can_link(node) && self.pool.guards > 0
    }

    /// The memory after `retire`.
    pub open spec fn retired(self, node: usize) -> Self {
        self.with_slots(
            self.pool.slots.update(node as int, self.pool.slots[node as int].handed_back()),
        )
    }

    /// The memory after `take`.
    pub open spec fn emptied(self, node: usize) -> Self {
        self.with_slots(
            self.pool.slots.update(node as int, self.pool.slots[node as int].emptied()),
        )
    }

    /// The linked nodes are at most as many as the slots.
    pub proof fn lemma_chain_fits(self)
        requires
            self.linked(),
        ensures
            self.chain.len() <= self.pool.slots.len(),
    {
        reveal(MemoryView::linked);
        assert forall|k: int| 0 <= k < self.chain.len() implies self.chain[k]
            < self.pool.slots.len() by {
            assert(self.pool.live(self.chain[k]));
        }
        lemma_distinct_below(self.chain, self.pool.slots.len());
    }

    /// The memory that holds nothing is linked and quiet.
    pub proof fn lemma_empty()
        ensures
            Self::empty().linked(),
            Self::empty().quiet(),
            Self::empty().items() == Seq::<T>::empty(),
    {
        reveal(MemoryView::linked);
        assert(Self::empty().items() =~= Seq::<T>::empty());
    }

    /// What the head slot tells: it is empty exactly when there is no
    /// element, and else it holds the topmost node, which is live, linked
    /// and holds the topmost element.
    pub proof fn lemma_top(self)
        requires
            self.linked(),
        ensures
            self.head == self.top(),
            self.chain.no_duplicates(),
            self.items().len() == self.chain.len(),
            self.head matches Some(node) ==> self.pool.live(node) && self.chain.contains(node)
                && self.pool.slots[node as int].data() == Some(self.items().last())
                && self.pool.slots[node as int].next() == self.below(self.chain.len() - 1),
    {
        reveal(MemoryView::linked);
        if self.chain.len() > 0 {
            assert(self.pool.live(self.chain[self.chain.len() - 1]));
        }
    }

    /// A linked node is live and holds a value.
    pub proof fn lemma_linked_live(self, node: usize)
        requires
            self.linked(),
            self.chain.contains(node),
        ensures
            self.pool.live(node),
            self.pool.slots[node as int].data() is Some,
    {
        reveal(MemoryView::linked);
        let k = choose|k: int| 0 <= k < self.chain.len() && self.chain[k] == node;
        assert(self.pool.live(self.chain[k]));
    }

    /// A memory with the same slots, head and linked nodes is linked alike.
    pub proof fn lemma_same_links(self, other: Self)
        requires
            self.linked(),
            other.pool.slots == self.pool.slots,
            other.head == self.head,
            other.chain == self.chain,
        ensures
            other.linked(),
            other.items() == self.items(),
    {
        reveal(MemoryView::linked);
        assert(other.items() =~= self.items());
    }

    /// A change of slots that no walk from the head finds leaves the nodes
    /// linked as they were.
    pub proof fn lemma_elsewhere(self, slots: Seq<Slot<T>>)
        requires
            self.linked(),
            slots.len() >= self.pool.slots.len(),
            forall|k: int|
                0 <= k < self.chain.len() ==> slots[(#[trigger] self.chain[k]) as int]
                    == self.pool.slots[self.chain[k] as int],
        ensures
            self.with_slots(slots).linked(),
            self.with_slots(slots).items() == self.items(),
    {
        reveal(MemoryView::linked);
        assert(self.with_slots(slots).items() =~= self.items());
    }

    /// A change of a slot whose node is not linked leaves the nodes linked as
    /// they were, and the elements too.
    pub proof fn lemma_changed(self, node: usize, slot: Slot<T>)
        requires
            self.linked(),
            node < self.pool.slots.len(),
            !self.chain.contains(node),
        ensures
            self.with_slots(self.pool.slots.update(node as int, slot)).linked(),
            self.with_slots(self.pool.slots.update(node as int, slot)).items() == self.items(),
    {
        reveal(MemoryView::linked);
        self.lemma_apart(node);
        assert forall|k: int| 0 <= k < self.chain.len() implies self.pool.slots.update(
            node as int,
            slot,
        )[(#[trigger] self.chain[k]) as int] == self.pool.slots[self.chain[k] as int] by {
            assert(self.pool.live(self.chain[k]));
        }
        self.lemma_elsewhere(self.pool.slots.update(node as int, slot));
    }

    /// A node that is not linked is none of the linked nodes.
    pub proof fn lemma_apart(self, node: usize)
        requires
            !self.chain.contains(node),
        ensures
            forall|k: int| 0 <= k < self.chain.len() ==> #[trigger] self.chain[k] != node,
    {
        assert forall|k: int| 0 <= k < self.chain.len() implies #[trigger] self.chain[k]
            != node by {
            assert(self.chain.contains(self.chain[k]));
        }
    }

    /// After `allocate` the nodes are linked as before, and the new node is
    /// not linked.
    pub proof fn lemma_allocated(self, node: usize, data: T)
        requires
            self.linked(),
            self.pool.vacant(node),
        ensures
            self.allocated(node, data).linked(),
            self.allocated(node, data).can_link(node),
            self.allocated(node, data).items() == self.items(),
    {
        reveal(MemoryView::linked);
        assert forall|k: int| 0 <= k < self.chain.len() implies (#[trigger] self.chain[k])
            != node by {
            assert(self.pool.live(self.chain[k]));
        }
        self.lemma_elsewhere(self.allocated(node, data).pool.slots);
        if self.chain.contains(node) {
            let k = choose|k: int| 0 <= k < self.chain.len() && self.chain[k] == node;
            assert(self.chain[k] != node);
        }
    }

    /// After `unpin` the nodes are linked as before.
    pub proof fn lemma_unpinned(self)
        requires
            self.linked(),
        ensures
            self.unpinned().linked(),
            self.unpinned().items() == self.items(),
    {
        reveal(MemoryView::linked);
        assert forall|k: int| 0 <= k < self.chain.len() implies self.unpinned().pool.slots[(
        #[trigger] self.chain[k]) as int] == self.pool.slots[self.chain[k] as int] by {
            assert(self.pool.live(self.chain[k]));
        }
        self.lemma_elsewhere(self.unpinned().pool.slots);
        assert(self.unpinned().items() =~= self.items());
    }

    /// After `install` the nodes are linked, with `node` on top where the
    /// swap took place.
    pub proof fn lemma_installed(self, expected: Option<usize>, node: usize)
        requires
            self.linked(),
            self.can_install(expected, node),
        ensures
            self.installed(expected, node).linked(),
            self.head == expected ==> self.installed(expected, node).items() == self.items().push(
                self.pool.slots[node as int].data()->0,
            ),
    {
        reveal(MemoryView::linked);
        if self.head == expected {
            self.lemma_apart(node);
            assert(self.installed(expected, node).items() =~= self.items().push(
                self.pool.slots[node as int].data()->0,
            ));
        }
    }

    /// After `unlink` the nodes are linked, without the topmost one where
    /// the swap took place, and that one is not linked any more.
    pub proof fn lemma_unlinked(self, expected: usize, next: Option<usize>)
        requires
            self.linked(),
            self.can_unlink(expected, next),
        ensures
            self.unlinked(expected, next).linked(),
            self.head == Some(expected) ==> self.unlinked(expected, next).can_link(expected)
                && self.items() == self.unlinked(expected, next).items().push(
                self.pool.slots[expected as int].data()->0,
            ),
    {
        reveal(MemoryView::linked);
        if self.head == Some(expected) {
            lemma_without_last(self.chain);
            assert(self.pool.live(self.chain[self.chain.len() - 1]));
            assert(self.items() =~= self.unlinked(expected, next).items().push(
                self.pool.slots[expected as int].data()->0,
            ));
        }
    }
}

/// A pool of nodes, the head slot and the counter.
pub struct Memory<T> {
    pool: Pool<T>,
    head: Option<usize>,
    count: usize,
    chain: Ghost<Seq<usize>>,
}

impl<T> View for Memory<T> {
    type V = MemoryView<T>;

    closed spec fn view(&self) -> MemoryView<T> {
        MemoryView { pool: self.pool@, head: self.head, count: self.count, chain: self.chain@ }
    }
}

/// Puts `new` into `slot` if the slot holds `expected`, and says whether it did.
pub fn compare_and_swap(
    slot: &mut Option<usize>,
    expected: Option<usize>,
    new: Option<usize>,
) -> (swapped: bool)
    ensures
        swapped == (*old(slot) == expected),
        *final(slot) == if swapped {
            new
        } else {
            *old(slot)
        },
{
    let same = match (*slot, expected) {
        (None, None) => true,
        (Some(held), Some(wanted)) => held == wanted,
        _ => false,
    };
    if same {
        *slot = new;
    }
    same
}

/// Distinct numbers below `bound` are at most `bound` many.
proof fn lemma_distinct_below(s: Seq<usize>, bound: nat)
    requires
        s.no_duplicates(),
        forall|k: int| 0 <= k < s.len() ==> s[k] < bound,
    ensures
        s.len() <= bound,
    decreases bound,
{
    if s.len() == 0 {
    } else if bound == 0 {
        assert(s[0] < bound);
    } else {
        let top = (bound - 1) as nat;
        if exists|k: int| 0 <= k < s.len() && s[k] == top {
            let at = choose|k: int| 0 <= k < s.len() && s[k] == top;
            let rest = s.remove(at);
            assert forall|k: int| 0 <= k < rest.len() implies rest[k] < top by {
                if k < at {
                    assert(rest[k] == s[k]);
                } else {
                    assert(rest[k] == s[k + 1]);
                }
            }
            assert forall|i: int, j: int|
                0 <= i < rest.len() && 0 <= j < rest.len() && i != j implies rest[i] != rest[j] by {
                let si = if i < at {
                    i
                } else {
                    i + 1
                };
                let sj = if j < at {
                    j
                } else {
                    j + 1
                };
                assert(rest[i] == s[si] && rest[j] == s[sj]);
            }
            lemma_distinct_below(rest, top);
        } else {
            assert forall|k: int| 0 <= k < s.len() implies s[k] < top by {
                assert(s[k] < bound);
            }
            lemma_distinct_below(s, top);
        }
    }
}

impl<T> Memory<T> {
    /// The bookkeeping of the pool is sound.
    pub closed spec fn sound(&self) -> bool {
        self.pool.wf()
    }

    /// The bookkeeping of the pool is sound and the nodes are linked as the
    /// view says.
    pub open spec fn wf(&self) -> bool {
        self.sound() && self@.linked()
    }

    /// The linked nodes are at most as many as the slots, whose number fits
    /// the machine's word.
    pub proof fn lemma_chain_bounded(&self)
        requires
            self.wf(),
        ensures
            self@.chain.len() <= self@.pool.slots.len() <= usize::MAX,
    {
        self.pool.lemma_bounded();
        self@.lemma_chain_fits();
    }

    /// An empty memory: no slot, nothing in the head slot, the counter at zero.
    pub fn new() -> (memory: Self)
        ensures
            memory.wf(),
            memory@ == MemoryView::<T>::empty(),
    {
        let memory = Memory { pool: Pool::new(), head: None, count: 0, chain: Ghost(Seq::empty()) };
        proof {
            assert(memory@.pool.slots =~= Seq::<Slot<T>>::empty());
            MemoryView::<T>::lemma_empty();
        }
        memory
    }

    /// Allocates a node that holds `data`, has no successor and is not linked.
    pub fn allocate(&mut self, data: T) -> (node: usize)
        requires
            old(self).wf(),
        ensures
            final(self).wf(),
            old(self)@.can_allocate(node),
            final(self)@ == old(self)@.allocated(node, data),
            final(self)@.can_link(node),
    {
        let node = self.pool.allocate(data);
        proof {
            old(self)@.lemma_allocated(node, data);
            self.pool.lemma_bounded();
        }
        node
    }

    /// Registers a guard.
    pub fn pin(&mut self)
        requires
            old(self).wf(),
            old(self)@.pool.guards < usize::MAX,
        ensures
            final(self).wf(),
            final(self)@ == old(self)@.pinned(),
    {
        self.pool.pin();
        proof {
            old(self)@.lemma_same_links(self@);
        }
    }

    /// Drops a guard. When it was the last one, every retired slot is released.
    pub fn unpin(&mut self)
        requires
            old(self).wf(),
            old(self)@.pool.guards > 0,
        ensures
            final(self).wf(),
            final(self)@ == old(self)@.unpinned(),
    {
        self.pool.unpin();
        proof {
            old(self)@.lemma_unpinned();
        }
    }

    /// Reads the head slot.
    pub fn load_head(&self) -> (head: Option<usize>)
        ensures
            head == self@.head,
    {
        self.head
    }

    /// Reads the counter.
    pub fn count(&self) -> (count: usize)
        ensures
            count == self@.count,
    {
        self.count
    }

    /// Reads the successor of an allocated node.
    pub fn next_of(&self, node: usize) -> (next: Option<usize>)
        requires
            self.wf(),
            self@.pool.in_use(node),
        ensures
            next == self@.pool.slots[node as int].next(),
    {
        self.pool.next_of(node)
    }

    /// The value that an allocated node holds, if it was not moved out.
    pub fn data_of(&self, node: usize) -> (data: &Option<T>)
        requires
            self.wf(),
            self@.pool.in_use(node),
        ensures
            *data == self@.pool.slots[node as int].data(),
    {
        self.pool.data_of(node)
    }

    /// Sets the successor of a live node that is not linked.
    pub fn set_next(&mut self, node: usize, next: Option<usize>)
        requires
            old(self).wf(),
            old(self)@.can_link(node),
        ensures
            final(self).wf(),
            final(self)@ == old(self)@.linked_to(node, next),
    {
        self.pool.set_next(node, next);
        proof {
            old(self)@.lemma_changed(node, old(self)@.pool.slots[node as int].linked_to(next));
        }
    }

    /// Links `node` on top: the head slot gets `node` if it holds `expected`,
    /// the successor that `node` was given.
    pub fn install(&mut self, expected: Option<usize>, node: usize) -> (swapped: bool)
        requires
            old(self).wf(),
            old(self)@.can_install(expected, node),
        ensures
            final(self).wf(),
            swapped == (old(self)@.head == expected),
            final(self)@ == old(self)@.installed(expected, node),
    {
        let swapped = compare_and_swap(&mut self.head, expected, Some(node));
        if swapped {
            self.chain = Ghost(self.chain@.push(node));
        }
        proof {
            old(self)@.lemma_installed(expected, node);
        }
        swapped
    }

    /// Unlinks the topmost node: the head slot gets `next`, the successor of
    /// `expected`, if it holds `expected`.
    pub fn unlink(&mut self, expected: usize, next: Option<usize>) -> (swapped: bool)
        requires
            old(self).wf(),
            old(self)@.can_unlink(expected, next),
        ensures
            final(self).wf(),
            swapped == (old(self)@.head == Some(expected)),
            final(self)@ == old(self)@.unlinked(expected, next),
            swapped ==> final(self)@.can_link(expected),
    {
        let swapped = compare_and_swap(&mut self.head, Some(expected), next);
        if swapped {
            self.chain = Ghost(self.chain@.drop_last());
        }
        proof {
            old(self)@.lemma_unlinked(expected, next);
        }
        swapped
    }

    /// Adds one to the counter, which wraps round at the largest number.
    pub fn count_up(&mut self)
        requires
            old(self).wf(),
        ensures
            final(self).wf(),
            final(self)@ == old(self)@.counted_up(),
    {
        self.count = self.count.wrapping_add(1);
        proof {
            old(self)@.lemma_same_links(self@);
        }
    }

    /// Takes one from the counter, which wraps round at zero.
    pub fn count_down(&mut self)
        requires
            old(self).wf(),
        ensures
            final(self).wf(),
            final(self)@ == old(self)@.counted_down(),
    {
        self.count = self.count.wrapping_sub(1);
        proof {
            old(self)@.lemma_same_links(self@);
        }
    }

    /// Hands back a live node that is not linked. It stays readable until the
    /// last guard is gone.
    pub fn retire(&mut self, node: usize)
        requires
            old(self).wf(),
            old(self)@.can_retire(node),
        ensures
            final(self).wf(),
            final(self)@ == old(self)@.retired(node),
    {
        self.pool.retire(node);
        proof {
            old(self)@.lemma_changed(node, old(self)@.pool.slots[node as int].handed_back());
        }
    }

    /// Moves the value out of an allocated node that is not linked.
    pub fn take(&mut self, node: usize) -> (data: Option<T>)
        requires
            old(self).wf(),
            old(self)@.detached(node),
        ensures
            final(self).wf(),
            data == old(self)@.pool.slots[node as int].data(),
            final(self)@ == old(self)@.emptied(node),
    {
        let data = self.pool.take(node);
        proof {
            old(self)@.lemma_changed(node, old(self)@.pool.slots[node as int].emptied());
        }
        data
    }
}

} // verus!
