//! A growable array. The elements stand at the low end of a buffer of slots
//! whose number, the capacity, doubles whenever the array is full.

use vstd::prelude::*;

verus! {

/// A run of slots, each holding an element or nothing. Its capacity is the
/// number of its slots.
pub struct Buffer<T> {
    slots: Vec<Option<T>>,
}

/// The capacity that a full buffer of capacity `cap` grows to: one slot from
/// none, else twice as many, and no more than `usize::MAX`.
pub open spec fn grown(cap: nat) -> nat {
    if cap == 0 {
        1
    } else if 2 * cap <= usize::MAX {
        2 * cap
    } else {
        usize::MAX as nat
    }
}

impl<T> Buffer<T> {
    /// The number of slots.
    pub closed spec fn cap(&self) -> nat {
        self.slots@.len()
    }

    /// What slot `i` holds.
    pub closed spec fn slot(&self, i: int) -> Option<T> {
        self.slots@[i]
    }

    /// The slots from `from` up to `to` all hold an element.
    pub open spec fn filled(&self, from: int, to: int) -> bool {
        forall|i: int| from <= i < to ==> (#[trigger] self.slot(i)).is_some()
    }

    /// The slots from `from` up to `to` all hold nothing.
    pub open spec fn vacant(&self, from: int, to: int) -> bool {
        forall|i: int| from <= i < to ==> (#[trigger] self.slot(i)).is_none()
    }

    /// The elements that the slots from `from` up to `to` hold.
    pub open spec fn elems(&self, from: int, to: int) -> Seq<T> {
        Seq::new((to - from) as nat, |i: int| self.slot(from + i).unwrap())
    }

    /// A buffer without slots.
    pub fn new() -> (buf: Self)
        ensures
            buf.cap() == 0,
    {
        Buffer { slots: Vec::new() }
    }

    /// Grows a buffer to the capacity that `grown` gives. The slots it had
    /// keep what they hold; the new ones hold nothing.
    fn grow(&mut self)
        requires
            old(self).cap() < usize::MAX,
        ensures
            final(self).cap() == grown(old(self).cap()),
            forall|i: int| 0 <= i < old(self).cap() ==> final(self).slot(i) == old(self).slot(i),
            final(self).vacant(old(self).cap() as int, final(self).cap() as int),
    {
        let cap = self.slots.len();
        let new_cap = if cap == 0 {
            1
        } else if cap <= usize::MAX / 2 {
            cap * 2
        } else {
            usize::MAX
        };
        while self.slots.len() < new_cap
            invariant
                cap <= self.slots@.len() <= new_cap,
                forall|i: int| 0 <= i < cap ==> self.slots@[i] == old(self).slots@[i],
                forall|i: int| cap <= i < self.slots@.len() ==> (#[trigger] self.slots@[i]).is_none(),
            decreases new_cap - self.slots@.len(),
        {
            self.slots.push(None);
        }
    }
}

/// A growable array. Its view is the sequence of its elements.
pub struct Vector<T> {
    buf: Buffer<T>,
    len: usize,
}

impl<T> View for Vector<T> {
    type V = Seq<T>;

    closed spec fn view(&self) -> Seq<T> {
        self.buf.elems(0, self.len as int)
    }
}

impl<T> Vector<T> {
    /// The array's invariant: the elements fill the first slots of the
    /// buffer and the slots behind them hold nothing.
    pub closed spec fn wf(&self) -> bool {
        &&& self.len <= self.buf.cap()
        &&& self.buf.filled(0, self.len as int)
        &&& self.buf.vacant(self.len as int, self.buf.cap() as int)
    }

    /// The capacity of the buffer.
    pub closed spec fn capacity(&self) -> nat {
        self.buf.cap()
    }

    /// The capacity of the buffer.
    fn cap(&self) -> (cap: usize)
        ensures
            cap == self.capacity(),
    {
        self.buf.slots.len()
    }

    /// The number of elements.
    pub fn len(&self) -> (len: usize)
        ensures
            len == self@.len(),
    {
        self.len
    }

    /// An empty array, with no capacity yet.
    pub fn new() -> (vector: Self)
        ensures
            vector.wf(),
            vector@ == Seq::<T>::empty(),
            vector.capacity() == 0,
    {
        let vector = Vector { buf: Buffer::new(), len: 0 };
        assert(vector@ =~= Seq::<T>::empty());
        vector
    }

    /// Puts `value` behind the last element. A full buffer grows first.
    pub fn push(&mut self, value: T)
        requires
            old(self).wf(),
            old(self)@.len() < usize::MAX,
        ensures
            final(self).wf(),
            final(self)@ == old(self)@.push(value),
            final(self).capacity() == (if old(self)@.len() == old(self).capacity() {
                grown(old(self).capacity())
            } else {
                old(self).capacity()
            }),
    {
        if self.len == self.cap() {
            self.buf.grow();
        }
        let ghost held = self.buf;
        self.buf.slots[self.len] = Some(value);
        self.len = self.len + 1;
        proof {
            assert forall|i: int| 0 <= i < self.len implies (#[trigger] self.buf.slot(i)).is_some() by {
                if i < self.len - 1 {
                    assert(held.slot(i).is_some());
                }
            }
            assert forall|i: int| self.len <= i < self.buf.cap() implies (#[trigger] self.buf.slot(i)).is_none() by {
                assert(held.slot(i).is_none());
            }
            assert(self@ =~= old(self)@.push(value));
        }
    }

    /// Removes the last element and returns it; `None` on an empty array,
    /// which stays as it is.
    pub fn pop(&mut self) -> (popped: Option<T>)
        requires
            old(self).wf(),
        ensures
            final(self).wf(),
            final(self).capacity() == old(self).capacity(),
            old(self)@.len() == 0 ==> popped.is_none() && final(self)@ == old(self)@,
            old(self)@.len() > 0 ==> popped == Some(old(self)@.last()) && final(self)@ == old(self)@.drop_last(),
    {
        if self.len == 0 {
            None
        } else {
            self.len = self.len - 1;
            assert(old(self).buf.slot(self.len as int).is_some());
            let popped = self.buf.slots[self.len].take();
            proof {
                assert forall|i: int| 0 <= i < self.len implies (#[trigger] self.buf.slot(i)).is_some() by {
                    assert(old(self).buf.slot(i).is_some());
                }
                assert forall|i: int| self.len <= i < self.buf.cap() implies (#[trigger] self.buf.slot(
                    i,
                )).is_none() by {
                    if i > self.len {
                        assert(old(self).buf.slot(i).is_none());
                    }
                }
                assert(self@ =~= old(self)@.drop_last());
            }
            popped
        }
    }

    /// Puts `value` at position `index` and moves the elements from there on
    /// one place up. A full buffer grows first.
    pub fn insert(&mut self, index: usize, value: T)
        requires
            old(self).wf(),
            index <= old(self)@.len(),
            old(self)@.len() < usize::MAX,
        ensures
            final(self).wf(),
            final(self)@ == old(self)@.insert(index as int, value),
            final(self).capacity() == (if old(self)@.len() == old(self).capacity() {
                grown(old(self).capacity())
            } else {
                old(self).capacity()
            }),
    {
        if self.cap() == self.len {
            self.buf.grow();
        }
        let ghost held = self.buf;
        let mut hole = self.len;
        while hole > index
            invariant
                index <= hole <= self.len < self.buf.cap(),
                self.len == old(self).len,
                self.buf.cap() == held.cap(),
                self.buf.slot(hole as int).is_none(),
                forall|i: int| 0 <= i < hole ==> #[trigger] self.buf.slot(i) == held.slot(i),
                forall|i: int| hole < i <= self.len ==> #[trigger] self.buf.slot(i) == held.slot(i - 1),
                forall|i: int| self.len < i < self.buf.cap() ==> #[trigger] self.buf.slot(i) == held.slot(i),
            decreases hole,
        {
            let ghost shifting = self.buf;
            let moved = self.buf.slots[hole - 1].take();
            self.buf.slots[hole] = moved;
            hole = hole - 1;
            proof {
                assert(moved == shifting.slot(hole as int));
                assert forall|i: int| hole < i <= self.len implies #[trigger] self.buf.slot(i) == held.slot(
                    i - 1,
                ) by {
                    if i > hole + 1 {
                        assert(shifting.slot(i) == held.slot(i - 1));
                    }
                }
                assert forall|i: int| 0 <= i < hole implies #[trigger] self.buf.slot(i) == held.slot(i) by {
                    assert(shifting.slot(i) == held.slot(i));
                }
                assert forall|i: int| self.len < i < self.buf.cap() implies #[trigger] self.buf.slot(i)
                    == held.slot(i) by {
                    assert(shifting.slot(i) == held.slot(i));
                }
            }
        }
        let ghost shifted = self.buf;
        self.buf.slots[index] = Some(value);
        self.len = self.len + 1;
        proof {
            assert forall|i: int| 0 <= i < self.len implies (#[trigger] self.buf.slot(i)).is_some() by {
                if i < index {
                    assert(shifted.slot(i) == held.slot(i));
                    assert(held.slot(i).is_some());
                } else if i > index {
                    assert(shifted.slot(i) == held.slot(i - 1));
                    assert(held.slot(i - 1).is_some());
                }
            }
            assert forall|i: int| self.len <= i < self.buf.cap() implies (#[trigger] self.buf.slot(i)).is_none() by {
                assert(shifted.slot(i) == held.slot(i));
                assert(held.slot(i).is_none());
            }
            assert forall|i: int| 0 <= i < self.len implies #[trigger] self@[i] == old(self)@.insert(
                index as int,
                value,
            )[i] by {
                if i < index {
                    assert(shifted.slot(i) == held.slot(i));
                } else if i > index {
                    assert(shifted.slot(i) == held.slot(i - 1));
                }
            }
            assert(self@ =~= old(self)@.insert(index as int, value));
        }
    }

    /// Takes out the element at position `index`, moves the elements behind
    /// it one place down, and returns it.
    pub fn remove(&mut self, index: usize) -> (removed: T)
        requires
            old(self).wf(),
            index < old(self)@.len(),
        ensures
            final(self).wf(),
            final(self).capacity() == old(self).capacity(),
            removed == old(self)@[index as int],
            final(self)@ == old(self)@.remove(index as int),
    {
        let ghost held = self.buf;
        assert(held.slot(index as int).is_some());
        let removed = self.buf.slots[index].take();
        let mut hole = index;
        while hole + 1 < self.len
            invariant
                index <= hole < self.len <= self.buf.cap(),
                self.len == old(self).len,
                self.buf.cap() == held.cap(),
                self.buf.slot(hole as int).is_none(),
                forall|i: int| 0 <= i < index ==> #[trigger] self.buf.slot(i) == held.slot(i),
                forall|i: int| index <= i < hole ==> #[trigger] self.buf.slot(i) == held.slot(i + 1),
                forall|i: int| hole < i < self.buf.cap() ==> #[trigger] self.buf.slot(i) == held.slot(i),
            decreases self.len - hole,
        {
            let ghost shifting = self.buf;
            let moved = self.buf.slots[hole + 1].take();
            self.buf.slots[hole] = moved;
            hole = hole + 1;
            proof {
                assert(moved == shifting.slot(hole as int));
                assert forall|i: int| index <= i < hole implies #[trigger] self.buf.slot(i) == held.slot(
                    i + 1,
                ) by {
                    if i < hole - 1 {
                        assert(shifting.slot(i) == held.slot(i + 1));
                    }
                }
                assert forall|i: int| 0 <= i < index implies #[trigger] self.buf.slot(i) == held.slot(i) by {
                    assert(shifting.slot(i) == held.slot(i));
                }
                assert forall|i: int| hole < i < self.buf.cap() implies #[trigger] self.buf.slot(i) == held.slot(
                    i,
                ) by {
                    assert(shifting.slot(i) == held.slot(i));
                }
            }
        }
        self.len = self.len - 1;
        proof {
            assert forall|i: int| 0 <= i < self.len implies (#[trigger] self.buf.slot(i)).is_some() by {
                if i < index {
                    assert(held.slot(i).is_some());
                } else {
                    assert(held.slot(i + 1).is_some());
                }
            }
            assert forall|i: int| self.len <= i < self.buf.cap() implies (#[trigger] self.buf.slot(i)).is_none() by {
                if i > self.len {
                    assert(held.slot(i).is_none());
                }
            }
            assert forall|i: int| 0 <= i < self.len implies #[trigger] self@[i] == old(self)@.remove(
                index as int,
            )[i] by {
                if i < index {
                    assert(self.buf.slot(i) == held.slot(i));
                } else {
                    assert(self.buf.slot(i) == held.slot(i + 1));
                }
            }
            assert(self@ =~= old(self)@.remove(index as int));
        }
        removed.unwrap()
    }

    /// Takes all the elements out of the array, which is left empty and
    /// without capacity, and hands them to an iterator.
    pub fn drain(&mut self) -> (drain: Drain<T>)
        requires
            old(self).wf(),
        ensures
            final(self).wf(),
            final(self)@ == Seq::<T>::empty(),
            final(self).capacity() == 0,
            drain.wf(),
            drain.remaining() == old(self)@,
    {
        let mut buf = Buffer::new();
        std::mem::swap(&mut self.buf, &mut buf);
        let iter = RawIter::new(buf, self.len);
        self.len = 0;
        assert(self@ =~= Seq::<T>::empty());
        Drain { iter }
    }

    /// Hands the elements of the array to an iterator.
    pub fn into_iter(self) -> (iter: IntoIter<T>)
        requires
            self.wf(),
        ensures
            iter.wf(),
            iter.remaining() == self@,
    {
        IntoIter { iter: RawIter::new(self.buf, self.len) }
    }
}

/// The elements of a buffer that have not been taken out yet: those in the
/// slots from `start` up to `end`.
struct RawIter<T> {
    buf: Buffer<T>,
    start: usize,
    end: usize,
}

impl<T> RawIter<T> {
    spec fn wf(&self) -> bool {
        &&& self.start <= self.end <= self.buf.cap()
        &&& self.buf.filled(self.start as int, self.end as int)
    }

    spec fn remaining(&self) -> Seq<T> {
        self.buf.elems(self.start as int, self.end as int)
    }

    /// An iterator over the first `len` slots of `buf`.
    fn new(buf: Buffer<T>, len: usize) -> (iter: Self)
        requires
            len <= buf.cap(),
            buf.filled(0, len as int),
        ensures
            iter.wf(),
            iter.remaining() == buf.elems(0, len as int),
    {
        RawIter { buf, start: 0, end: len }
    }

    /// Takes the first of the remaining elements; `None` when none is left.
    fn next(&mut self) -> (elem: Option<T>)
        requires
            old(self).wf(),
        ensures
            final(self).wf(),
            old(self).remaining().len() == 0 ==> elem.is_none() && final(self).remaining() == old(self).remaining(),
            old(self).remaining().len() > 0 ==> elem == Some(old(self).remaining()[0]) && final(self).remaining()
                == old(self).remaining().drop_first(),
    {
        if self.start == self.end {
            return None;
        }
        assert(self.buf.slot(self.start as int).is_some());
        let elem = self.buf.slots[self.start].take();
        self.start = self.start + 1;
        proof {
            assert forall|i: int| self.start <= i < self.end implies (#[trigger] self.buf.slot(i)).is_some() by {
                assert(old(self).buf.slot(i).is_some());
            }
            assert(self.remaining() =~= old(self).remaining().drop_first());
            assert(old(self).remaining()[0] == old(self).buf.slot(old(self).start as int).unwrap());
        }
        elem
    }

    /// Takes the last of the remaining elements; `None` when none is left.
    fn next_back(&mut self) -> (elem: Option<T>)
        requires
            old(self).wf(),
        ensures
            final(self).wf(),
            old(self).remaining().len() == 0 ==> elem.is_none() && final(self).remaining() == old(self).remaining(),
            old(self).remaining().len() > 0 ==> elem == Some(old(self).remaining().last()) && final(self).remaining()
                == old(self).remaining().drop_last(),
    {
        if self.start == self.end {
            return None;
        }
        self.end = self.end - 1;
        assert(self.buf.slot(self.end as int).is_some());
        let elem = self.buf.slots[self.end].take();
        proof {
            assert forall|i: int| self.start <= i < self.end implies (#[trigger] self.buf.slot(i)).is_some() by {
                assert(old(self).buf.slot(i).is_some());
            }
            assert(self.remaining() =~= old(self).remaining().drop_last());
            assert(old(self).remaining().last() == old(self).buf.slot(self.end as int).unwrap());
        }
        elem
    }

    /// The number of remaining elements, as a lower and an upper bound.
    fn size_hint(&self) -> (hint: (usize, Option<usize>))
        requires
            self.wf(),
        ensures
            hint.0 == self.remaining().len(),
            hint.1 == Some(hint.0),
    {
        let len = self.end - self.start;
        (len, Some(len))
    }
}

/// An iterator that owns the elements of an array and takes them out, from
/// either end.
pub struct IntoIter<T> {
    iter: RawIter<T>,
}

/// An iterator over the elements that were drained from an array; it takes
/// them out from either end.
pub struct Drain<T> {
    iter: RawIter<T>,
}

impl<T> IntoIter<T> {
    /// The iterator's invariant: every slot that is left holds an element.
    pub closed spec fn wf(&self) -> bool {
        self.iter.wf()
    }

    /// The elements not yet taken out, in order.
    pub closed spec fn remaining(&self) -> Seq<T> {
        self.iter.remaining()
    }

    /// Takes the first of the remaining elements; `None` when none is left.
    pub fn next(&mut self) -> (elem: Option<T>)
        requires
            old(self).wf(),
        ensures
            final(self).wf(),
            old(self).remaining().len() == 0 ==> elem.is_none() && final(self).remaining() == old(self).remaining(),
            old(self).remaining().len() > 0 ==> elem == Some(old(self).remaining()[0]) && final(self).remaining()
                == old(self).remaining().drop_first(),
    {
        self.iter.next()
    }

    /// Takes the last of the remaining elements; `None` when none is left.
    pub fn next_back(&mut self) -> (elem: Option<T>)
        requires
            old(self).wf(),
        ensures
            final(self).wf(),
            old(self).remaining().len() == 0 ==> elem.is_none() && final(self).remaining() == old(self).remaining(),
            old(self).remaining().len() > 0 ==> elem == Some(old(self).remaining().last()) && final(self).remaining()
                == old(self).remaining().drop_last(),
    {
        self.iter.next_back()
    }

    /// The number of remaining elements, as a lower and an upper bound.
    pub fn size_hint(&self) -> (hint: (usize, Option<usize>))
        requires
            self.wf(),
        ensures
            hint.0 == self.remaining().len(),
            hint.1 == Some(hint.0),
    {
        self.iter.size_hint()
    }
}

impl<T> Drain<T> {
    /// The iterator's invariant: every slot that is left holds an element.
    pub closed spec fn wf(&self) -> bool {
        self.iter.wf()
    }

    /// The elements not yet taken out, in order.
    pub closed spec fn remaining(&self) -> Seq<T> {
        self.iter.remaining()
    }

    /// Takes the first of the remaining elements; `None` when none is left.
    pub fn next(&mut self) -> (elem: Option<T>)
        requires
            old(self).wf(),
        ensures
            final(self).wf(),
            old(self).remaining().len() == 0 ==> elem.is_none() && final(self).remaining() == old(self).remaining(),
            old(self).remaining().len() > 0 ==> elem == Some(old(self).remaining()[0]) && final(self).remaining()
                == old(self).remaining().drop_first(),
    {
        self.iter.next()
    }

    /// Takes the last of the remaining elements; `None` when none is left.
    pub fn next_back(&mut self) -> (elem: Option<T>)
        requires
            old(self).wf(),
        ensures
            final(self).wf(),
            old(self).remaining().len() == 0 ==> elem.is_none() && final(self).remaining() == old(self).remaining(),
            old(self).remaining().len() > 0 ==> elem == Some(old(self).remaining().last()) && final(self).remaining()
                == old(self).remaining().drop_last(),
    {
        self.iter.next_back()
    }

    /// The number of remaining elements, as a lower and an upper bound.
    pub fn size_hint(&self) -> (hint: (usize, Option<usize>))
        requires
            self.wf(),
        ensures
            hint.0 == self.remaining().len(),
            hint.1 == Some(hint.0),
    {
        self.iter.size_hint()
    }
}

} // verus!
