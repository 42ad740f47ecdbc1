//! Equality and order of lists, decided by their elements from head to tail.

use crate::dequeue::DequeueList;
use core::cmp::Ordering;
use vstd::prelude::*;
use vstd::std_specs::cmp::{OrdSpec, PartialEqSpec, PartialOrdSpec};

verus! {

/// Two sequences are equal when they are equally long and equal element by
/// element, as the element type understands equality.
pub open spec fn elementwise_eq<T: PartialEq>(a: Seq<T>, b: Seq<T>) -> bool {
    &&& a.len() == b.len()
    &&& forall|i: int| 0 <= i < a.len() ==> (#[trigger] a[i]).eq_spec(&b[i])
}

/// The lexicographic comparison of two sequences under a partial order of
/// their elements: the first pair of elements that does not compare as equal
/// decides; if there is none, the shorter sequence is the lesser.
pub open spec fn lexicographic_partial<T: PartialOrd>(a: Seq<T>, b: Seq<T>) -> Option<Ordering>
    decreases a.len(),
{
    if a.len() == 0 {
        if b.len() == 0 {
            Some(Ordering::Equal)
        } else {
            Some(Ordering::Less)
        }
    } else if b.len() == 0 {
        Some(Ordering::Greater)
    } else {
        match a[0].partial_cmp_spec(&b[0]) {
            Some(Ordering::Equal) => lexicographic_partial(a.drop_first(), b.drop_first()),
            decided => decided,
        }
    }
}

/// The lexicographic comparison of two sequences under a total order of their
/// elements.
pub open spec fn lexicographic<T: Ord>(a: Seq<T>, b: Seq<T>) -> Ordering
    decreases a.len(),
{
    if a.len() == 0 {
        if b.len() == 0 {
            Ordering::Equal
        } else {
            Ordering::Less
        }
    } else if b.len() == 0 {
        Ordering::Greater
    } else {
        match a[0].cmp_spec(&b[0]) {
            Ordering::Equal => lexicographic(a.drop_first(), b.drop_first()),
            decided => decided,
        }
    }
}

impl<T: PartialEq> PartialEq for DequeueList<T> {
    /// Whether the two lists are equally long and equal element by element.
    fn eq(&self, other: &Self) -> (equal: bool) {
        if self.len() != other.len() {
            return false;
        }
        let mut ours = self.iter();
        let mut theirs = other.iter();
        let ghost mut seen: int = 0;
        while ours.len() > 0
            invariant
                ours.wf(),
                theirs.wf(),
                self@.len() == other@.len(),
                0 <= seen <= self@.len(),
                ours.remaining() == self@.subrange(seen, self@.len() as int),
                theirs.remaining() == other@.subrange(seen, other@.len() as int),
                T::obeys_eq_spec() ==> forall|i: int| 0 <= i < seen ==> (#[trigger] self@[i]).eq_spec(&other@[i]),
            decreases ours.remaining().len(),
        {
            let mine = ours.next().unwrap();
            let yours = theirs.next().unwrap();
            if !(*mine == *yours) {
                assert(T::obeys_eq_spec() ==> !self@[seen].eq_spec(&other@[seen]));
                return false;
            }
            proof {
                seen = seen + 1;
                assert(ours.remaining() =~= self@.subrange(seen, self@.len() as int));
                assert(theirs.remaining() =~= other@.subrange(seen, other@.len() as int));
            }
        }
        true
    }

    /// Whether the two lists differ in length or in some element.
    fn ne(&self, other: &Self) -> (differ: bool) {
        !self.eq(other)
    }
}

impl<T: PartialEq> vstd::std_specs::cmp::PartialEqSpecImpl for DequeueList<T> {
    open spec fn obeys_eq_spec() -> bool {
        T::obeys_eq_spec()
    }

    open spec fn eq_spec(&self, other: &Self) -> bool {
        elementwise_eq(self@, other@)
    }
}

impl<T: Eq> Eq for DequeueList<T> {

}

impl<T: PartialOrd> PartialOrd for DequeueList<T> {
    /// Compares the two lists lexicographically; `None` as soon as a pair of
    /// elements cannot be compared.
    fn partial_cmp(&self, other: &Self) -> (order: Option<Ordering>) {
        let mut ours = self.iter();
        let mut theirs = other.iter();
        loop
            invariant
                ours.wf(),
                theirs.wf(),
                T::obeys_partial_cmp_spec() ==> lexicographic_partial(self@, other@) == lexicographic_partial(
                    ours.remaining(),
                    theirs.remaining(),
                ),
            decreases ours.remaining().len(),
        {
            let ghost a = ours.remaining();
            let ghost b = theirs.remaining();
            match (ours.next(), theirs.next()) {
                (None, None) => {
                    return Some(Ordering::Equal);
                },
                (None, Some(_)) => {
                    return Some(Ordering::Less);
                },
                (Some(_), None) => {
                    return Some(Ordering::Greater);
                },
                (Some(mine), Some(yours)) => {
                    match mine.partial_cmp(yours) {
                        Some(Ordering::Equal) => {},
                        decided => {
                            return decided;
                        },
                    }
                },
            }
        }
    }
}

impl<T: PartialOrd> vstd::std_specs::cmp::PartialOrdSpecImpl for DequeueList<T> {
    open spec fn obeys_partial_cmp_spec() -> bool {
        T::obeys_partial_cmp_spec()
    }

    open spec fn partial_cmp_spec(&self, other: &Self) -> Option<Ordering> {
        lexicographic_partial(self@, other@)
    }
}

impl<T: Ord> DequeueList<T> {
    /// Compares the two lists lexicographically under the total order of
    /// their elements.
    pub fn cmp(&self, other: &Self) -> (order: Ordering)
        ensures
            T::obeys_cmp_spec() ==> order == lexicographic(self@, other@),
    {
        let mut ours = self.iter();
        let mut theirs = other.iter();
        loop
            invariant
                ours.wf(),
                theirs.wf(),
                T::obeys_cmp_spec() ==> lexicographic(self@, other@) == lexicographic(
                    ours.remaining(),
                    theirs.remaining(),
                ),
            decreases ours.remaining().len(),
        {
            match (ours.next(), theirs.next()) {
                (None, None) => {
                    return Ordering::Equal;
                },
                (None, Some(_)) => {
                    return Ordering::Less;
                },
                (Some(_), None) => {
                    return Ordering::Greater;
                },
                (Some(mine), Some(yours)) => {
                    match mine.cmp(yours) {
                        Ordering::Equal => {},
                        decided => {
                            return decided;
                        },
                    }
                },
            }
        }
    }
}

} // verus!
