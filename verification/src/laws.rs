//! Laws of the doubly-linked list, its iterators and its cursor, stated over
//! the sequences and positions that the contracts of the operations speak of.

use crate::dequeue::{
    after_cursor, before_cursor, from_cursor, index_after_step, position_after_next, position_after_prev,
    upto_cursor,
};
use vstd::prelude::*;

verus! {

/// A push or a pop at one end of a list.
pub enum EndOp<T> {
    PushFront(T),
    PushBack(T),
    PopFront,
    PopBack,
}

/// The elements of a list after `op`, given its elements before: what
/// `push_front`, `push_back`, `pop_front` and `pop_back` leave.
pub open spec fn after_op<T>(items: Seq<T>, op: EndOp<T>) -> Seq<T> {
    match op {
        EndOp::PushFront(elem) => seq![elem] + items,
        EndOp::PushBack(elem) => items.push(elem),
        EndOp::PopFront => if items.len() == 0 {
            items
        } else {
            items.drop_first()
        },
        EndOp::PopBack => if items.len() == 0 {
            items
        } else {
            items.drop_last()
        },
    }
}

/// What `op` returns on a list of `items`: a pop returns the element it
/// removes.
pub open spec fn popped_by<T>(items: Seq<T>, op: EndOp<T>) -> Option<T> {
    match op {
        EndOp::PopFront if items.len() > 0 => Some(items[0]),
        EndOp::PopBack if items.len() > 0 => Some(items.last()),
        _ => None,
    }
}

/// The elements of a list after all of `ops`, one after the other.
pub open spec fn after_ops<T>(items: Seq<T>, ops: Seq<EndOp<T>>) -> Seq<T>
    decreases ops.len(),
{
    if ops.len() == 0 {
        items
    } else {
        after_op(after_ops(items, ops.drop_last()), ops.last())
    }
}

/// The number of pushes among `ops`.
pub open spec fn pushes<T>(ops: Seq<EndOp<T>>) -> nat
    decreases ops.len(),
{
    if ops.len() == 0 {
        0
    } else {
        pushes(ops.drop_last()) + (match ops.last() {
            EndOp::PushFront(_) | EndOp::PushBack(_) => 1nat,
            _ => 0nat,
        })
    }
}

/// The number of pops among `ops` that return an element when `ops` run on a
/// list of `items`.
pub open spec fn pops<T>(items: Seq<T>, ops: Seq<EndOp<T>>) -> nat
    decreases ops.len(),
{
    if ops.len() == 0 {
        0
    } else {
        pops(items, ops.drop_last()) + (if popped_by(after_ops(items, ops.drop_last()), ops.last()).is_some() {
            1nat
        } else {
            0nat
        })
    }
}

/// After any pushes and pops at either end, the length is the length before,
/// plus the number of pushes, minus the number of pops that returned an
/// element.
pub proof fn law_length_is_net_count<T>(items: Seq<T>, ops: Seq<EndOp<T>>)
    ensures
        after_ops(items, ops).len() == items.len() + pushes(ops) - pops(items, ops),
    decreases ops.len(),
{
    if ops.len() > 0 {
        law_length_is_net_count(items, ops.drop_last());
    }
}

/// A pop at the end of the last push returns the element pushed and leaves the
/// list as it was before the push: last in, first out.
pub proof fn law_same_end_is_lifo<T>(items: Seq<T>, elem: T)
    ensures
        popped_by(after_op(items, EndOp::PushFront(elem)), EndOp::PopFront) == Some(elem),
        after_op(after_op(items, EndOp::PushFront(elem)), EndOp::PopFront) == items,
        popped_by(after_op(items, EndOp::PushBack(elem)), EndOp::PopBack) == Some(elem),
        after_op(after_op(items, EndOp::PushBack(elem)), EndOp::PopBack) == items,
{
    assert((seq![elem] + items).drop_first() =~= items);
    assert(items.push(elem).drop_last() =~= items);
}

/// What was pushed at the back, in order.
pub open spec fn pushes_back<T>(elems: Seq<T>) -> Seq<EndOp<T>> {
    Seq::new(elems.len(), |i: int| EndOp::PushBack(elems[i]))
}

/// What was pushed at the front, in order.
pub open spec fn pushes_front<T>(elems: Seq<T>) -> Seq<EndOp<T>> {
    Seq::new(elems.len(), |i: int| EndOp::PushFront(elems[i]))
}

/// `count` pops at the front.
pub open spec fn pops_front<T>(count: nat) -> Seq<EndOp<T>> {
    Seq::new(count, |i: int| EndOp::PopFront)
}

/// `count` pops at the back.
pub open spec fn pops_back<T>(count: nat) -> Seq<EndOp<T>> {
    Seq::new(count, |i: int| EndOp::PopBack)
}

/// Pushing `elems` at the back of an empty list gives the list `elems`.
pub proof fn lemma_pushes_back<T>(elems: Seq<T>)
    ensures
        after_ops(Seq::<T>::empty(), pushes_back(elems)) == elems,
    decreases elems.len(),
{
    if elems.len() > 0 {
        lemma_pushes_back(elems.drop_last());
        assert(pushes_back(elems).drop_last() =~= pushes_back(elems.drop_last()));
        assert(elems.drop_last().push(elems.last()) =~= elems);
    } else {
        assert(elems =~= Seq::<T>::empty());
    }
}

/// Pushing `elems` at the front of an empty list gives the list `elems`
/// reversed.
pub proof fn lemma_pushes_front<T>(elems: Seq<T>)
    ensures
        after_ops(Seq::<T>::empty(), pushes_front(elems)) == elems.reverse(),
    decreases elems.len(),
{
    if elems.len() > 0 {
        lemma_pushes_front(elems.drop_last());
        assert(pushes_front(elems).drop_last() =~= pushes_front(elems.drop_last()));
        assert(seq![elems.last()] + elems.drop_last().reverse() =~= elems.reverse());
    } else {
        assert(elems.reverse() =~= Seq::<T>::empty());
    }
}

/// `count` pops at the front remove the first `count` elements.
pub proof fn lemma_pops_front<T>(items: Seq<T>, count: nat)
    requires
        count <= items.len(),
    ensures
        after_ops(items, pops_front(count)) == items.subrange(count as int, items.len() as int),
    decreases count,
{
    if count > 0 {
        lemma_pops_front(items, (count - 1) as nat);
        assert(pops_front::<T>(count).drop_last() =~= pops_front::<T>((count - 1) as nat));
        assert(items.subrange(count - 1, items.len() as int).drop_first() =~= items.subrange(
            count as int,
            items.len() as int,
        ));
    } else {
        assert(items.subrange(0, items.len() as int) =~= items);
    }
}

/// `count` pops at the back remove the last `count` elements.
pub proof fn lemma_pops_back<T>(items: Seq<T>, count: nat)
    requires
        count <= items.len(),
    ensures
        after_ops(items, pops_back(count)) == items.subrange(0, items.len() - count),
    decreases count,
{
    if count > 0 {
        lemma_pops_back(items, (count - 1) as nat);
        assert(pops_back::<T>(count).drop_last() =~= pops_back::<T>((count - 1) as nat));
        assert(items.subrange(0, items.len() - count + 1).drop_last() =~= items.subrange(0, items.len() - count));
    } else {
        assert(items.subrange(0, items.len() as int) =~= items);
    }
}

/// Elements pushed at one end of an empty list leave at the other end in the
/// order in which they were pushed: first in, first out. The pop that follows
/// `count` earlier pops returns the element of push number `count`.
pub proof fn law_opposite_end_is_fifo<T>(elems: Seq<T>, count: nat)
    requires
        count < elems.len(),
    ensures
        popped_by(
            after_ops(after_ops(Seq::<T>::empty(), pushes_back(elems)), pops_front(count)),
            EndOp::PopFront,
        ) == Some(elems[count as int]),
        popped_by(
            after_ops(after_ops(Seq::<T>::empty(), pushes_front(elems)), pops_back(count)),
            EndOp::PopBack,
        ) == Some(elems[count as int]),
{
    lemma_pushes_back(elems);
    lemma_pops_front(elems, count);
    lemma_pushes_front(elems);
    lemma_pops_back(elems.reverse(), count);
}

/// What `count` calls of an iterator's `next` yield, in order, when `items`
/// remain.
pub open spec fn yields_front<T>(items: Seq<T>, count: nat) -> Seq<T>
    decreases count,
{
    if count == 0 || items.len() == 0 {
        Seq::empty()
    } else {
        seq![items[0]] + yields_front(items.drop_first(), (count - 1) as nat)
    }
}

/// What `count` calls of an iterator's `next_back` yield, in order, when
/// `items` remain.
pub open spec fn yields_back<T>(items: Seq<T>, count: nat) -> Seq<T>
    decreases count,
{
    if count == 0 || items.len() == 0 {
        Seq::empty()
    } else {
        seq![items.last()] + yields_back(items.drop_last(), (count - 1) as nat)
    }
}

/// `count` calls of `next` yield the first `count` remaining elements.
pub proof fn lemma_yields_front<T>(items: Seq<T>, count: nat)
    requires
        count <= items.len(),
    ensures
        yields_front(items, count) == items.subrange(0, count as int),
    decreases count,
{
    if count > 0 {
        lemma_yields_front(items.drop_first(), (count - 1) as nat);
        assert(seq![items[0]] + items.drop_first().subrange(0, count - 1) =~= items.subrange(0, count as int));
    } else {
        assert(items.subrange(0, 0) =~= Seq::<T>::empty());
    }
}

/// `count` calls of `next_back` yield the last `count` remaining elements,
/// the last one first.
pub proof fn lemma_yields_back<T>(items: Seq<T>, count: nat)
    requires
        count <= items.len(),
    ensures
        yields_back(items, count) == items.subrange(items.len() - count, items.len() as int).reverse(),
    decreases count,
{
    let n = items.len() as int;
    if count > 0 {
        lemma_yields_back(items.drop_last(), (count - 1) as nat);
        assert(seq![items.last()] + items.drop_last().subrange(n - count, n - 1).reverse() =~= items.subrange(
            n - count,
            n,
        ).reverse());
    } else {
        assert(items.subrange(n, n).reverse() =~= Seq::<T>::empty());
    }
}

/// Iterating forward and reversing what came out gives what iterating
/// backward yields, and the same holds of every prefix of the backward
/// traversal; with the two directions exchanged it holds as well.
pub proof fn law_forward_reversed_is_backward<T>(items: Seq<T>, count: nat)
    requires
        count <= items.len(),
    ensures
        yields_front(items, items.len()).reverse() == yields_back(items, items.len()),
        yields_back(items, count) == yields_front(items, items.len()).reverse().subrange(0, count as int),
        yields_front(items, count) == yields_back(items, items.len()).reverse().subrange(0, count as int),
{
    let n = items.len() as int;
    lemma_yields_front(items, items.len());
    lemma_yields_back(items, items.len());
    lemma_yields_front(items, count);
    lemma_yields_back(items, count);
    assert(items.subrange(0, n) =~= items);
    assert(items.subrange(n - count, n).reverse() =~= items.reverse().subrange(0, count as int));
    assert(items.subrange(0, count as int) =~= items.reverse().reverse().subrange(0, count as int));
}

/// What remains in an iterator over `items` after a run of calls: `true` in
/// `ends` stands for `next`, `false` for `next_back`.
pub open spec fn remaining_after<T>(items: Seq<T>, ends: Seq<bool>) -> Seq<T>
    decreases ends.len(),
{
    if ends.len() == 0 {
        items
    } else {
        let rest = remaining_after(items, ends.drop_last());
        if rest.len() == 0 {
            rest
        } else if ends.last() {
            rest.drop_first()
        } else {
            rest.drop_last()
        }
    }
}

/// The number of calls of `next` in a run of calls.
pub open spec fn fronts(ends: Seq<bool>) -> nat
    decreases ends.len(),
{
    if ends.len() == 0 {
        0
    } else {
        fronts(ends.drop_last()) + (if ends.last() {
            1nat
        } else {
            0nat
        })
    }
}

/// In whatever order `next` and `next_back` are called, the two ends meet in
/// the middle: as long as elements are left, what remains is what lies
/// between the elements taken at the front and those taken at the back, each
/// call takes exactly one element, and the iterator is exhausted after as
/// many calls as it had elements.
pub proof fn law_ends_meet_in_the_middle<T>(items: Seq<T>, ends: Seq<bool>)
    requires
        ends.len() <= items.len(),
    ensures
        fronts(ends) <= ends.len(),
        remaining_after(items, ends) == items.subrange(
            fronts(ends) as int,
            items.len() - (ends.len() - fronts(ends)),
        ),
        remaining_after(items, ends).len() == items.len() - ends.len(),
    decreases ends.len(),
{
    if ends.len() > 0 {
        law_ends_meet_in_the_middle(items, ends.drop_last());
        let before = ends.drop_last();
        let lo = fronts(before) as int;
        let hi = items.len() - (before.len() - fronts(before));
        if ends.last() {
            assert(items.subrange(lo, hi).drop_first() =~= items.subrange(lo + 1, hi));
        } else {
            assert(items.subrange(lo, hi).drop_last() =~= items.subrange(lo, hi - 1));
        }
    } else {
        assert(items.subrange(0, items.len() as int) =~= items);
    }
}

/// Cutting a list in front of the cursor and splicing the piece cut off back
/// in front of the cursor gives the list as it was. `position` is where the
/// cursor rests before the cut: on a node, or on the ghost position, from
/// which the whole list is cut off.
pub proof fn law_split_then_splice_before<T>(items: Seq<T>, position: Option<int>)
    requires
        position.is_some() ==> 0 <= position.unwrap() < items.len(),
    ensures
        ({
            let front = before_cursor(items, position);
            let rest = from_cursor(items, position);
            let rests_at = if position.is_some() {
                Some(0int)
            } else {
                None
            };
            before_cursor(rest, rests_at) + front + from_cursor(rest, rests_at) == items
        }),
{
    let front = before_cursor(items, position);
    let rest = from_cursor(items, position);
    let rests_at = if position.is_some() {
        Some(0int)
    } else {
        None
    };
    assert(before_cursor(rest, rests_at) + front + from_cursor(rest, rests_at) =~= items);
}

/// Cutting a list behind the cursor and splicing the piece cut off back in
/// behind the cursor gives the list as it was. `position` is where the
/// cursor rests before the cut, and after it: on a node, or on the ghost
/// position, from which the whole list is cut off.
pub proof fn law_split_then_splice_after<T>(items: Seq<T>, position: Option<int>)
    requires
        position.is_some() ==> 0 <= position.unwrap() < items.len(),
    ensures
        ({
            let kept = upto_cursor(items, position);
            let back = after_cursor(items, position);
            upto_cursor(kept, position) + back + after_cursor(kept, position) == items
        }),
{
    let kept = upto_cursor(items, position);
    let back = after_cursor(items, position);
    assert(upto_cursor(kept, position) + back + after_cursor(kept, position) =~= items);
}

/// Where a cursor is after `steps` steps forward.
pub open spec fn position_after_nexts(len: nat, position: Option<int>, steps: nat) -> Option<int>
    decreases steps,
{
    if steps == 0 {
        position
    } else {
        position_after_next(len, position_after_nexts(len, position, (steps - 1) as nat))
    }
}

/// Where a cursor is after `steps` steps backward.
pub open spec fn position_after_prevs(len: nat, position: Option<int>, steps: nat) -> Option<int>
    decreases steps,
{
    if steps == 0 {
        position
    } else {
        position_after_prev(len, position_after_prevs(len, position, (steps - 1) as nat))
    }
}

/// Going forward from the ghost position, step number `steps` takes the
/// cursor to position `steps - 1`, as long as the list reaches that far.
pub proof fn lemma_forward_from_ghost(len: nat, steps: nat)
    requires
        1 <= steps <= len,
    ensures
        position_after_nexts(len, None, steps) == Some(steps - 1),
    decreases steps,
{
    let before = position_after_nexts(len, None, (steps - 1) as nat);
    if steps > 1 {
        lemma_forward_from_ghost(len, (steps - 1) as nat);
    } else {
        assert(before == None::<int>);
    }
    assert(position_after_nexts(len, None, steps) == position_after_next(len, before));
}

/// Going backward from the ghost position, step number `steps` takes the
/// cursor to position `len - steps`, as long as the list reaches that far.
pub proof fn lemma_backward_from_ghost(len: nat, steps: nat)
    requires
        1 <= steps <= len,
    ensures
        position_after_prevs(len, None, steps) == Some(len - steps),
    decreases steps,
{
    let before = position_after_prevs(len, None, (steps - 1) as nat);
    if steps > 1 {
        lemma_backward_from_ghost(len, (steps - 1) as nat);
    } else {
        assert(before == None::<int>);
    }
    assert(position_after_prevs(len, None, steps) == position_after_prev(len, before));
}

/// A cursor that starts on the ghost position of a list of `len` elements is
/// back on the ghost position after exactly `len + 1` steps forward, and
/// after exactly `len + 1` steps backward; after fewer steps it is on a
/// node.
pub proof fn law_cursor_cycle(len: nat)
    ensures
        position_after_nexts(len, None, len + 1) == None::<int>,
        position_after_prevs(len, None, len + 1) == None::<int>,
        forall|steps: nat| 1 <= steps <= len ==> (#[trigger] position_after_nexts(len, None, steps)).is_some(),
        forall|steps: nat| 1 <= steps <= len ==> (#[trigger] position_after_prevs(len, None, steps)).is_some(),
{
    if len > 0 {
        lemma_forward_from_ghost(len, len);
        lemma_backward_from_ghost(len, len);
    }
    assert(position_after_nexts(len, None, 0) == None::<int>);
    assert(position_after_prevs(len, None, 0) == None::<int>);
    assert(position_after_nexts(len, None, len + 1) == position_after_next(
        len,
        position_after_nexts(len, None, len),
    ));
    assert(position_after_prevs(len, None, len + 1) == position_after_prev(
        len,
        position_after_prevs(len, None, len),
    ));
    assert forall|steps: nat| 1 <= steps <= len implies (#[trigger] position_after_nexts(
        len,
        None,
        steps,
    )).is_some() by {
        lemma_forward_from_ghost(len, steps);
    }
    assert forall|steps: nat| 1 <= steps <= len implies (#[trigger] position_after_prevs(
        len,
        None,
        steps,
    )).is_some() by {
        lemma_backward_from_ghost(len, steps);
    }
}

/// A cursor that rests on the ghost position, or reports the position of its
/// node as its index, reports the position of its node as its index after a
/// step in either direction that takes it to a node.
pub proof fn law_index_follows_position(len: nat, position: Option<int>, index: Option<usize>)
    requires
        len <= usize::MAX,
        position.is_some() == index.is_some(),
        position.is_some() ==> 0 <= position.unwrap() < len && index.unwrap() == position.unwrap(),
    ensures
        ({
            let next = position_after_next(len, position);
            next.is_some() ==> index_after_step(index, next, 1) == Some(next.unwrap() as usize)
        }),
        ({
            let prev = position_after_prev(len, position);
            prev.is_some() ==> index_after_step(index, prev, -1) == Some(prev.unwrap() as usize)
        }),
{
}

} // verus!
