//! The debug text of a list: the debug texts of its elements, separated by
//! commas, in square brackets.

use crate::dequeue::DequeueList;
use core::fmt::Debug;
use vstd::prelude::*;

verus! {

/// `String::push_str` of std: appends `tail` to the end of `text`.
pub assume_specification[ String::push_str ](text: &mut String, tail: &str)
    ensures
        final(text)@ == old(text)@ + tail@,
;

/// The text that std's `format!` writes for `elem` with `{:?}`, that is, what
/// the `Debug` impl of the element type writes. Nothing is said of it here.
#[verifier::external_body]
fn debug_text<T: Debug>(elem: &T) -> (text: String) {
    format!("{:?}", elem)
}

/// The texts of `parts` in order, with ", " between neighbours.
pub open spec fn joined(parts: Seq<Seq<char>>) -> Seq<char>
    decreases parts.len(),
{
    if parts.len() == 0 {
        Seq::empty()
    } else if parts.len() == 1 {
        parts[0]
    } else {
        joined(parts.drop_last()) + seq![',', ' '] + parts.last()
    }
}

/// The texts of `parts`, joined and enclosed in square brackets.
pub open spec fn bracketed(parts: Seq<Seq<char>>) -> Seq<char> {
    seq!['['] + joined(parts) + seq![']']
}

/// The texts that `parts` holds.
pub open spec fn texts(parts: Seq<String>) -> Seq<Seq<char>> {
    Seq::new(parts.len(), |i: int| parts[i]@)
}

/// Writes `parts` as a list: joined by ", " and enclosed in square brackets.
pub fn list_text(parts: &Vec<String>) -> (text: String)
    ensures
        text@ == bracketed(texts(parts@)),
{
    let mut text = String::new();
    text.push_str("[");
    proof {
        reveal_strlit("[");
        reveal_strlit(", ");
        reveal_strlit("]");
        assert(text@ =~= seq!['['] + joined(texts(parts@).subrange(0, 0)));
    }
    let mut i: usize = 0;
    while i < parts.len()
        invariant
            0 <= i <= parts@.len(),
            ", "@ == seq![',', ' '],
            text@ == seq!['['] + joined(texts(parts@).subrange(0, i as int)),
        decreases parts@.len() - i,
    {
        let ghost upto = texts(parts@).subrange(0, i + 1);
        proof {
            assert(upto.drop_last() =~= texts(parts@).subrange(0, i as int));
            assert(upto.last() == parts@[i as int]@);
        }
        if i > 0 {
            text.push_str(", ");
        }
        text.push_str(parts[i].as_str());
        proof {
            assert(text@ =~= seq!['['] + joined(upto));
        }
        i = i + 1;
    }
    text.push_str("]");
    proof {
        assert(texts(parts@).subrange(0, i as int) =~= texts(parts@));
    }
    text
}

impl<T: Debug> DequeueList<T> {
    /// The debug text of the list: the debug texts of its elements from head
    /// to tail, written as a list.
    pub fn debug_string(&self) -> (text: String)
        ensures
            exists|parts: Seq<Seq<char>>| parts.len() == self@.len() && text@ == bracketed(parts),
    {
        let mut parts: Vec<String> = Vec::new();
        let mut iter = self.iter();
        while iter.len() > 0
            invariant
                iter.wf(),
                parts@.len() + iter.remaining().len() == self@.len(),
            decreases iter.remaining().len(),
        {
            let elem = iter.next().unwrap();
            parts.push(debug_text(elem));
        }
        let text = list_text(&parts);
        assert(texts(parts@).len() == self@.len());
        text
    }
}

} // verus!
