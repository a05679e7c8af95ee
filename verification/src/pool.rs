//! Node storage with deferred release.
//!
//! Nodes live in numbered slots. A slot that was handed back is not reused at
//! once: it stays readable until no guard is left, so that a reader that
//! found the node before it was unlinked never looks at a slot that already
//! holds something else.

use vstd::prelude::*;

verus! {

/// What one slot holds, as the contracts see it.
pub enum Slot<T> {
    /// Not allocated. Nothing may read it, and `allocate` may hand it out.
    Free,
    /// Allocated: it belongs to a stack or to an operation in progress.
    Live { data: Option<T>, next: Option<usize> },
    /// Handed back by `retire`. Its contents stay readable until the last
    /// guard is gone.
    Retired { data: Option<T>, next: Option<usize> },
}

impl<T> Slot<T> {
    pub open spec fn allocated(self) -> bool {
        !(self is Free)
    }

    pub open spec fn data(self) -> Option<T> {
        match self {
            Slot::Free => None,
            Slot::Live { data, .. } => data,
            Slot::Retired { data, .. } => data,
        }
    }

    pub open spec fn next(self) -> Option<usize> {
        match self {
            Slot::Free => None,
            Slot::Live { next, .. } => next,
            Slot::Retired { next, .. } => next,
        }
    }

    /// The slot once its successor was set to `next`.
    pub open spec fn linked_to(self, next: Option<usize>) -> Slot<T> {
        match self {
            Slot::Free => Slot::Free,
            Slot::Live { data, .. } => Slot::Live { data, next },
            Slot::Retired { data, .. } => Slot::Retired { data, next },
        }
    }

    /// The slot once its value was moved out.
    pub open spec fn emptied(self) -> Slot<T> {
        match self {
            Slot::Free => Slot::Free,
            Slot::Live { next, .. } => Slot::Live { data: None, next },
            Slot::Retired { next, .. } => Slot::Retired { data: None, next },
        }
    }

    /// The slot once it was handed back.
    pub open spec fn handed_back(self) -> Slot<T> {
        Slot::Retired { data: self.data(), next: self.next() }
    }

    /// The slot once the last guard is gone.
    pub open spec fn released(self) -> Slot<T> {
        if self is Retired {
            Slot::Free
        } else {
            self
        }
    }
}

/// The state of a pool: its slots by number, and how many guards are active.
pub struct PoolView<T> {
    pub slots: Seq<Slot<T>>,
    pub guards: nat,
}

impl<T> PoolView<T> {
    pub open spec fn in_use(self, node: usize) -> bool {
        node < self.slots.len() && self.slots[node as int].allocated()
    }

    pub open spec fn live(self, node: usize) -> bool {
        node < self.slots.len() && self.slots[node as int] is Live
    }

    pub open spec fn has_free(self) -> bool {
        exists|i: int| 0 <= i < self.slots.len() && self.slots[i] is Free
    }

    /// `allocate` may hand out `node`: it is a free slot, or the next new one.
    pub open spec fn vacant(self, node: usize) -> bool {
        if node < self.slots.len() {
            self.slots[node as int] is Free
        } else {
            node == self.slots.len()
        }
    }

    /// The slots once `slot` stands at `node`, a slot in range or the next new one.
    pub open spec fn put(self, node: usize, slot: Slot<T>) -> Seq<Slot<T>> {
        if node < self.slots.len() {
            self.slots.update(node as int, slot)
        } else {
            self.slots.push(slot)
        }
    }

    /// The slots once every retired one was released.
    pub open spec fn released(self) -> Seq<Slot<T>> {
        Seq::new(self.slots.len(), |i: int| self.slots[i].released())
    }
}

struct Node<T> {
    data: Option<T>,
    next: Option<usize>,
}

/// A pool of nodes, each known by the number of its slot.
pub struct Pool<T> {
    nodes: Vec<Node<T>>,
    /// Slots that `allocate` may hand out again.
    free: Vec<usize>,
    /// Slots handed back while a guard was active.
    retired: Vec<usize>,
    guards: usize,
}

impl<T> View for Pool<T> {
    type V = PoolView<T>;

    closed spec fn view(&self) -> PoolView<T> {
        PoolView {
            slots: Seq::new(self.nodes@.len(), |i: int| self.slot(i)),
            guards: self.guards as nat,
        }
    }
}

pub(crate) proof fn lemma_without_last<A>(s: Seq<A>)
    requires
        s.len() > 0,
        s.no_duplicates(),
    ensures
        s.drop_last().no_duplicates(),
        !s.drop_last().contains(s.last()),
        forall|x: A| x != s.last() ==> (s.drop_last().contains(x) <==> #[trigger] s.contains(x)),
{
    let t = s.drop_last();
    assert forall|x: A| x != s.last() implies (t.contains(x) <==> #[trigger] s.contains(x)) by {
        if s.contains(x) {
            let k = choose|k: int| 0 <= k < s.len() && s[k] == x;
            assert(t[k] == x);
        }
        if t.contains(x) {
            let k = choose|k: int| 0 <= k < t.len() && t[k] == x;
            assert(s[k] == x);
        }
    }
    if t.contains(s.last()) {
        let k = choose|k: int| 0 <= k < t.len() && t[k] == s.last();
        assert(s[k] == s[s.len() - 1]);
    }
}

proof fn lemma_with_one_more<A>(s: Seq<A>, v: A)
    requires
        s.no_duplicates(),
        !s.contains(v),
    ensures
        s.push(v).no_duplicates(),
        forall|x: A| #[trigger] s.push(v).contains(x) <==> (s.contains(x) || x == v),
{
    let t = s.push(v);
    assert forall|x: A| #[trigger] t.contains(x) <==> (s.contains(x) || x == v) by {
        if s.contains(x) {
            let k = choose|k: int| 0 <= k < s.len() && s[k] == x;
            assert(t[k] == x);
        }
        if x == v {
            assert(t[s.len() as int] == x);
        }
        if t.contains(x) {
            let k = choose|k: int| 0 <= k < t.len() && t[k] == x;
            if k < s.len() {
                assert(s[k] == x);
            }
        }
    }
    assert forall|i: int, j: int| 0 <= i < t.len() && 0 <= j < t.len() && i != j implies t[i]
        != t[j] by {
        if i < s.len() && j < s.len() {
        } else if i < s.len() {
            assert(s[i] == t[i]);
        } else {
            assert(s[j] == t[j]);
        }
    }
}

impl<T> Pool<T> {
    spec fn slot(&self, i: int) -> Slot<T> {
        let node = self.nodes@[i];
        if self.free@.contains(i as usize) {
            Slot::Free
        } else if self.retired@.contains(i as usize) {
            Slot::Retired { data: node.data, next: node.next }
        } else {
            Slot::Live { data: node.data, next: node.next }
        }
    }

    /// The bookkeeping is sound: a slot is listed at most once, as free or as
    /// retired; a free slot holds no value; and nothing waits for release
    /// when no guard is active.
    pub closed spec fn wf(&self) -> bool {
        &&& self.nodes@.len() <= usize::MAX
        &&& forall|k: int| 0 <= k < self.free@.len() ==> (#[trigger] self.free@[k]) < self.nodes@.len()
        &&& forall|k: int|
            0 <= k < self.retired@.len() ==> (#[trigger] self.retired@[k]) < self.nodes@.len()
        &&& self.free@.no_duplicates()
        &&& self.retired@.no_duplicates()
        &&& forall|x: usize| !(self.free@.contains(x) && #[trigger] self.retired@.contains(x))
        &&& forall|k: int|
            0 <= k < self.free@.len() ==> self.nodes@[(#[trigger] self.free@[k]) as int].data is None
        &&& self.guards == 0 ==> self.retired@.len() == 0
    }

    /// A slot's number fits the machine's word.
    pub proof fn lemma_bounded(&self)
        requires
            self.wf(),
        ensures
            self@.slots.len() <= usize::MAX,
    {
    }

    /// An empty pool.
    pub fn new() -> (pool: Self)
        ensures
            pool.wf(),
            pool@.slots.len() == 0,
            pool@.guards == 0,
    {
        Pool { nodes: Vec::new(), free: Vec::new(), retired: Vec::new(), guards: 0 }
    }

    /// Allocates a node that holds `data` and has no successor. A free slot
    /// is taken where there is one; otherwise the pool grows by one slot.
    pub fn allocate(&mut self, data: T) -> (node: usize)
        requires
            old(self).wf(),
        ensures
            final(self).wf(),
            final(self)@.guards == old(self)@.guards,
            old(self)@.vacant(node),
            old(self)@.has_free() ==> node < old(self)@.slots.len(),
            final(self)@.slots == old(self)@.put(node, Slot::Live { data: Some(data), next: None }),
    {
        match self.free.pop() {
            Some(node) => {
                proof {
                    lemma_without_last(old(self).free@);
                    assert(old(self).free@[old(self).free@.len() - 1] == node);
                    assert(old(self).free@.contains(node));
                }
                self.nodes[node].data = Some(data);
                self.nodes[node].next = None;
                proof {
                    assert forall|k: int| 0 <= k < self.free@.len() implies self.nodes@[(
                    #[trigger] self.free@[k]) as int].data is None by {
                        assert(self.free@[k] == old(self).free@[k]);
                        assert(self.free@.contains(self.free@[k]));
                    }
                    assert forall|x: usize| !(self.free@.contains(x)
                        && #[trigger] self.retired@.contains(x)) by {
                        if self.free@.contains(x) && self.retired@.contains(x) {
                            assert(old(self).free@.contains(x));
                        }
                    }
                    assert(self@.slots =~= old(self)@.put(
                        node,
                        Slot::Live { data: Some(data), next: None },
                    )) by {
                        assert forall|i: int| 0 <= i < self.nodes@.len() && i != node implies self.slot(
                            i,
                        ) == old(self).slot(i) by {
                            assert(old(self).free@.contains(i as usize) <==> self.free@.contains(
                                i as usize,
                            ));
                        }
                    }
                }
                node
            },
            None => {
                self.nodes.push(Node { data: Some(data), next: None });
                let node = self.nodes.len() - 1;
                proof {
                    assert(!old(self)@.has_free()) by {
                        assert forall|i: int| 0 <= i < old(self)@.slots.len() implies !(old(
                            self,
                        )@.slots[i] is Free) by {
                            assert(!old(self).free@.contains(i as usize));
                        }
                    }
                    assert(!self.free@.contains(node));
                    assert(!self.retired@.contains(node)) by {
                        if self.retired@.contains(node) {
                            let k = choose|k: int|
                                0 <= k < self.retired@.len() && self.retired@[k] == node;
                            assert(old(self).retired@[k] < old(self).nodes@.len());
                        }
                    }
                    assert(self@.slots =~= old(self)@.put(
                        node,
                        Slot::Live { data: Some(data), next: None },
                    ));
                }
                node
            },
        }
    }

    /// Registers a guard. While any guard is active, no retired slot is
    /// released.
    pub fn pin(&mut self)
        requires
            old(self).wf(),
            old(self)@.guards < usize::MAX,
        ensures
            final(self).wf(),
            final(self)@.guards == old(self)@.guards + 1,
            final(self)@.slots == old(self)@.slots,
    {
        self.guards = self.guards + 1;
        proof {
            assert(self@.slots =~= old(self)@.slots);
        }
    }

    /// Drops a guard. When it was the last one, every retired slot becomes
    /// free, and what it still held is dropped.
    pub fn unpin(&mut self)
        requires
            old(self).wf(),
            old(self)@.guards > 0,
        ensures
            final(self).wf(),
            final(self)@.guards == old(self)@.guards - 1,
            final(self)@.slots == if old(self)@.guards == 1 {
                old(self)@.released()
            } else {
                old(self)@.slots
            },
    {
        if self.guards == 1 {
            self.release();
        }
        let ghost before = self@;
        self.guards = self.guards - 1;
        proof {
            assert(self@.slots =~= before.slots);
        }
    }

    fn release(&mut self)
        requires
            old(self).wf(),
        ensures
            final(self).wf(),
            final(self).retired@.len() == 0,
            final(self).guards == old(self).guards,
            final(self)@.slots == old(self)@.released(),
    {
        while self.retired.len() > 0
            invariant
                self.wf(),
                self.guards == old(self).guards,
                self.nodes@.len() == old(self).nodes@.len(),
                forall|i: int|
                    0 <= i < self.nodes@.len() ==> #[trigger] self.slot(i) == if self.retired@.contains(
                        i as usize,
                    ) {
                        old(self).slot(i)
                    } else {
                        old(self).slot(i).released()
                    },
            decreases self.retired@.len(),
        {
            let ghost before = *self;
            let node = self.retired.pop().unwrap();
            proof {
                lemma_without_last(before.retired@);
                assert(before.retired@[before.retired@.len() - 1] == node);
                assert(before.retired@.contains(node));
                assert(!before.free@.contains(node));
                assert(self.retired@ == before.retired@.drop_last());
            }
            self.nodes[node].data = None;
            self.free.push(node);
            proof {
                lemma_with_one_more(before.free@, node);
                assert forall|k: int| 0 <= k < self.free@.len() implies (#[trigger] self.free@[k])
                    < self.nodes@.len() && self.nodes@[self.free@[k] as int].data is None by {
                    if k < before.free@.len() {
                        assert(self.free@[k] == before.free@[k]);
                    }
                }
                assert forall|k: int| 0 <= k < self.retired@.len() implies (
                #[trigger] self.retired@[k]) < self.nodes@.len() by {
                    assert(self.retired@[k] == before.retired@[k]);
                }
                assert forall|x: usize| !(self.free@.contains(x)
                    && #[trigger] self.retired@.contains(x)) by {
                    if self.retired@.contains(x) {
                        assert(before.retired@.contains(x));
                    }
                }
                assert forall|i: int| 0 <= i < self.nodes@.len() implies #[trigger] self.slot(i)
                    == if self.retired@.contains(i as usize) {
                    old(self).slot(i)
                } else {
                    old(self).slot(i).released()
                } by {
                    if i == node {
                        assert(before.slot(i) is Retired);
                    } else {
                        assert(before.retired@.contains(i as usize) <==> self.retired@.contains(
                            i as usize,
                        ));
                        assert(before.free@.contains(i as usize) <==> self.free@.contains(
                            i as usize,
                        ));
                        assert(self.slot(i) == before.slot(i));
                    }
                }
            }
        }
        proof {
            assert(self@.slots =~= old(self)@.released());
        }
    }

    /// Sets the successor of a live node.
    pub fn set_next(&mut self, node: usize, next: Option<usize>)
        requires
            old(self).wf(),
            old(self)@.live(node),
        ensures
            final(self).wf(),
            final(self)@.guards == old(self)@.guards,
            final(self)@.slots == old(self)@.slots.update(
                node as int,
                old(self)@.slots[node as int].linked_to(next),
            ),
    {
        self.nodes[node].next = next;
        proof {
            assert(self@.slots =~= old(self)@.slots.update(
                node as int,
                old(self)@.slots[node as int].linked_to(next),
            ));
        }
    }

    /// The successor of an allocated node.
    pub fn next_of(&self, node: usize) -> (next: Option<usize>)
        requires
            self.wf(),
            self@.in_use(node),
        ensures
            next == self@.slots[node as int].next(),
    {
        self.nodes[node].next
    }

    /// The value that an allocated node holds, if it was not moved out.
    pub fn data_of(&self, node: usize) -> (data: &Option<T>)
        requires
            self.wf(),
            self@.in_use(node),
        ensures
            *data == self@.slots[node as int].data(),
    {
        &self.nodes[node].data
    }

    /// Moves the value out of an allocated node.
    pub fn take(&mut self, node: usize) -> (data: Option<T>)
        requires
            old(self).wf(),
            old(self)@.in_use(node),
        ensures
            final(self).wf(),
            final(self)@.guards == old(self)@.guards,
            data == old(self)@.slots[node as int].data(),
            final(self)@.slots == old(self)@.slots.update(
                node as int,
                old(self)@.slots[node as int].emptied(),
            ),
    {
        let data = self.nodes[node].data.take();
        proof {
            assert(self@.slots =~= old(self)@.slots.update(
                node as int,
                old(self)@.slots[node as int].emptied(),
            ));
        }
        data
    }

    /// Hands a live node back. It stays readable, and its slot is not reused,
    /// until the last guard is gone.
    pub fn retire(&mut self, node: usize)
        requires
            old(self).wf(),
            old(self)@.live(node),
            old(self)@.guards > 0,
        ensures
            final(self).wf(),
            final(self)@.guards == old(self)@.guards,
            final(self)@.slots == old(self)@.slots.update(
                node as int,
                old(self)@.slots[node as int].handed_back(),
            ),
    {
        proof {
            lemma_with_one_more(self.retired@, node);
        }
        self.retired.push(node);
        proof {
            assert forall|k: int| 0 <= k < self.retired@.len() implies (
            #[trigger] self.retired@[k]) < self.nodes@.len() by {
                if k < old(self).retired@.len() {
                    assert(self.retired@[k] == old(self).retired@[k]);
                }
            }
            assert forall|i: int| 0 <= i < self.nodes@.len() implies #[trigger] self.slot(i) == if i
                == node {
                old(self).slot(i).handed_back()
            } else {
                old(self).slot(i)
            } by {
                assert(self.retired@.contains(i as usize) <==> (old(self).retired@.contains(
                    i as usize,
                ) || i == node));
            }
            assert(self@.slots =~= old(self)@.slots.update(
                node as int,
                old(self)@.slots[node as int].handed_back(),
            ));
        }
    }
}

} // verus!
