//! What follows from the contracts of `push` and `pop` for runs of several
//! calls, stated over the sequence of elements, the topmost last.

use crate::stack::{rest, top};
use vstd::prelude::*;

verus! {

/// The elements after each of `values` was pushed in turn.
pub open spec fn after_pushes<T>(items: Seq<T>, values: Seq<T>) -> Seq<T>
    decreases values.len(),
{
    if values.len() == 0 {
        items
    } else {
        after_pushes(items.push(values.first()), values.drop_first())
    }
}

/// The elements after `count` pops.
pub open spec fn after_pops<T>(items: Seq<T>, count: nat) -> Seq<T>
    decreases count,
{
    if count == 0 {
        items
    } else {
        after_pops(rest(items), (count - 1) as nat)
    }
}

/// What the pop after `k` earlier pops returns.
pub open spec fn nth_pop<T>(items: Seq<T>, k: nat) -> Option<T> {
    top(after_pops(items, k))
}

/// Pushing in turn appends.
pub proof fn lemma_after_pushes<T>(items: Seq<T>, values: Seq<T>)
    ensures
        after_pushes(items, values) == items + values,
    decreases values.len(),
{
    if values.len() == 0 {
        assert(items + values =~= items);
    } else {
        lemma_after_pushes(items.push(values.first()), values.drop_first());
        assert(items.push(values.first()) + values.drop_first() =~= items + values);
    }
}

/// Popping `count` times cuts `count` elements off the top, or all of them.
pub proof fn lemma_after_pops<T>(items: Seq<T>, count: nat)
    ensures
        after_pops(items, count) == if count <= items.len() {
            items.take(items.len() - count)
        } else {
            Seq::empty()
        },
    decreases count,
{
    if count == 0 {
        assert(items.take(items.len() as int) =~= items);
    } else {
        lemma_after_pops(rest(items), (count - 1) as nat);
        if items.len() > 0 {
            if count <= items.len() {
                assert(items.drop_last().take(items.len() - count) =~= items.take(
                    items.len() - count,
                ));
            }
        } else {
            assert(items =~= Seq::empty());
        }
    }
}

/// Last in, first out: after `values` were pushed in turn on any stack, the
/// pops return them in reverse order, and once all of them are popped the
/// stack holds what it held before.
pub proof fn lemma_last_in_first_out<T>(base: Seq<T>, values: Seq<T>, k: nat)
    requires
        k < values.len(),
    ensures
        nth_pop(after_pushes(base, values), k) == Some(values[values.len() - 1 - k]),
        after_pops(after_pushes(base, values), values.len()) == base,
{
    lemma_after_pushes(base, values);
    lemma_after_pops(base + values, k);
    lemma_after_pops(base + values, values.len());
    assert((base + values).take(base.len() as int) =~= base);
}

/// A pop on an empty stack returns nothing and leaves the stack empty,
/// whether the stack is new or every element pushed on it was popped.
pub proof fn lemma_pop_on_empty<T>(values: Seq<T>)
    ensures
        top(Seq::<T>::empty()) is None,
        rest(Seq::<T>::empty()) == Seq::<T>::empty(),
        nth_pop(after_pushes(Seq::empty(), values), values.len()) is None,
{
    lemma_after_pushes(Seq::empty(), values);
    lemma_after_pops(Seq::<T>::empty() + values, values.len());
}

/// Nothing is lost and nothing is made up: in whatever order the pushes of
/// `values` took effect, as many pops return the same values, each as often
/// as it was pushed.
pub proof fn lemma_conservation<T>(values: Seq<T>, order: Seq<T>)
    requires
        order.to_multiset() == values.to_multiset(),
    ensures
        Seq::new(
            order.len(),
            |k: int| nth_pop(after_pushes(Seq::empty(), order), k as nat)->0,
        ).to_multiset() == values.to_multiset(),
{
    let popped = Seq::new(
        order.len(),
        |k: int| nth_pop(after_pushes(Seq::empty(), order), k as nat)->0,
    );
    assert forall|k: int| 0 <= k < order.len() implies popped[k] == order.reverse()[k] by {
        lemma_last_in_first_out(Seq::empty(), order, k as nat);
    }
    assert(popped =~= order.reverse());
    order.lemma_reverse_to_multiset();
}

/// After `values.len()` pushes and `pops` pops, no more pops than pushes, a
/// new stack holds `values.len() - pops` elements.
pub proof fn lemma_len_after<T>(values: Seq<T>, pops: nat)
    requires
        pops <= values.len(),
    ensures
        after_pops(after_pushes(Seq::empty(), values), pops).len() == values.len() - pops,
{
    lemma_after_pushes(Seq::empty(), values);
    lemma_after_pops(Seq::<T>::empty() + values, pops);
}

/// A stack is empty exactly when the next pop returns nothing.
pub proof fn lemma_empty_iff_pop_absent<T>(items: Seq<T>)
    ensures
        (items.len() == 0) <==> top(items) is None,
{
}

} // verus!
