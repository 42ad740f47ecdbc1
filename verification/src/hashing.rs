//! Hashing of lists: the length first, then every element from head to tail,
//! so that lists that are equal hash alike.

use crate::dequeue::DequeueList;
use core::hash::{Hash, Hasher};
use vstd::prelude::*;

verus! {

/// `Hash::hash` of std: feeds `value` into `state`. What a hasher holds is not
/// modelled, so nothing is said of `state` afterwards.
#[verifier::external_body]
fn feed<V: Hash, H: Hasher>(value: &V, state: &mut H) {
    value.hash(state)
}

impl<T: Hash> Hash for DequeueList<T> {
    /// Feeds the length and then every element, from head to tail, into
    /// `state`.
    fn hash<H: Hasher>(&self, state: &mut H) {
        let n = self.len();
        feed(&n, state);
        let mut iter = self.iter();
        while iter.len() > 0
            invariant
                iter.wf(),
            decreases iter.remaining().len(),
        {
            let elem = iter.next().unwrap();
            feed(elem, state);
        }
    }
}

} // verus!
