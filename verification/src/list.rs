//! A singly-linked list: elements are added behind the last one and popped
//! from the front, and the first node that holds a given value can be removed.

use vstd::prelude::*;
use vstd::std_specs::cmp::PartialEqSpec;

verus! {

/// A node of the list: one element and the nodes behind it.
pub struct Node<T> {
    elem: T,
    next: Option<Box<Node<T>>>,
}

/// The elements from the node that `link` leads to, to the end.
pub closed spec fn items_from<T>(link: Option<Box<Node<T>>>) -> Seq<T>
    decreases link,
{
    match link {
        None => Seq::empty(),
        Some(node) => seq![node.elem] + items_from(node.next),
    }
}

impl<T> Node<T> {
    /// A node that holds `elem` in front of the nodes of `next`.
    pub fn new(elem: T, next: Option<Box<Self>>) -> (node: Self)
        ensures
            node.items() == seq![elem] + items_from(next),
    {
        Node { elem, next }
    }

    /// The elements of this node and of the nodes behind it.
    pub closed spec fn items(&self) -> Seq<T> {
        seq![self.elem] + items_from(self.next)
    }
}

/// A singly-linked list. Its view is the sequence of its elements from the
/// front.
pub struct LinkedList<T> {
    head: Option<Box<Node<T>>>,
    size: u32,
}

impl<T> View for LinkedList<T> {
    type V = Seq<T>;

    closed spec fn view(&self) -> Seq<T> {
        items_from(self.head)
    }
}

/// The position of the first element of `items` that equals `elem`, or the
/// length of `items` if there is none.
pub open spec fn first_match<T: PartialEq>(items: Seq<T>, elem: T) -> int
    decreases items.len(),
{
    if items.len() == 0 {
        0
    } else if items[0].eq_spec(&elem) {
        0
    } else {
        1 + first_match(items.drop_first(), elem)
    }
}

/// Without elements in front of the first match, the first match is the
/// first element; an element that does not match moves it one place on.
proof fn lemma_first_match_walks<T: PartialEq>(walked: Seq<T>, rest: Seq<T>, elem: T)
    requires
        forall|i: int| 0 <= i < walked.len() ==> !(#[trigger] walked[i]).eq_spec(&elem),
    ensures
        first_match(walked + rest, elem) == walked.len() + first_match(rest, elem),
    decreases walked.len(),
{
    if walked.len() == 0 {
        assert(walked + rest =~= rest);
    } else {
        assert((walked + rest)[0] == walked[0]);
        assert((walked + rest).drop_first() =~= walked.drop_first() + rest);
        assert forall|i: int| 0 <= i < walked.drop_first().len() implies !(#[trigger] walked.drop_first()[i]).eq_spec(
            &elem,
        ) by {
            assert(walked.drop_first()[i] == walked[i + 1]);
        }
        lemma_first_match_walks(walked.drop_first(), rest, elem);
    }
}

/// Puts `elem` behind the last node that `link` leads to.
fn append<T>(link: &mut Option<Box<Node<T>>>, elem: T)
    ensures
        items_from(*final(link)) == items_from(*old(link)).push(elem),
{
    let ghost whole = items_from(*link);
    let ghost mut walked = Seq::<T>::empty();
    let mut cur = link;
    assert(walked + items_from(*cur) =~= whole);
    assert(items_from(*final(cur)) =~= walked + items_from(*final(cur)));
    while cur.is_some()
        invariant
            walked + items_from(*cur) == whole,
            items_from(*final(link)) == walked + items_from(*final(cur)),
        decreases items_from(*cur).len(),
    {
        let ghost here = items_from(*cur);
        match cur {
            Some(node) => {
                proof {
                    assert(here == seq![node.elem] + items_from(node.next));
                    assert(walked.push(node.elem) + items_from(node.next) =~= whole);
                    walked = walked.push(node.elem);
                }
                cur = &mut node.next;
            },
            None => {},
        }
    }
    assert(items_from(*cur) =~= Seq::<T>::empty());
    assert(walked =~= whole);
    *cur = Some(Box::new(Node { elem, next: None }));
    assert(items_from(*cur) =~= seq![elem]) by {
        assert(items_from::<T>(None) =~= Seq::<T>::empty());
    }
    assert(walked + seq![elem] =~= whole.push(elem));
}

/// Takes out the first node behind `link` whose element equals `elem`, and
/// returns that element.
fn remove_first<T: PartialEq>(link: &mut Option<Box<Node<T>>>, elem: &T) -> (removed: Option<T>)
    ensures
        T::obeys_eq_spec() ==> ({
            let items = items_from(*old(link));
            let at = first_match(items, *elem);
            &&& 0 <= at <= items.len()
            &&& at < items.len() ==> removed == Some(items[at]) && items_from(*final(link)) == items.remove(at)
            &&& at == items.len() ==> removed.is_none() && items_from(*final(link)) == items
        }),
        removed.is_none() ==> items_from(*final(link)) == items_from(*old(link)),
        removed.is_some() ==> exists|at: int|
            0 <= at < items_from(*old(link)).len() && removed == Some(#[trigger] items_from(*old(link))[at])
                && items_from(*final(link)) == items_from(*old(link)).remove(at),
{
    let ghost whole = items_from(*link);
    let ghost mut walked = Seq::<T>::empty();
    let mut cur = link;
    assert(walked + items_from(*cur) =~= whole);
    assert(items_from(*final(cur)) =~= walked + items_from(*final(cur)));
    loop
        invariant
            whole == items_from(*old(link)),
            walked + items_from(*cur) == whole,
            items_from(*final(link)) == walked + items_from(*final(cur)),
            T::obeys_eq_spec() ==> forall|i: int| 0 <= i < walked.len() ==> !(#[trigger] walked[i]).eq_spec(elem),
        decreases items_from(*cur).len(),
    {
        let ghost here = items_from(*cur);
        let ghost at = walked.len() as int;
        proof {
            if T::obeys_eq_spec() {
                lemma_first_match_walks(walked, here, *elem);
            }
        }
        let found = match cur.as_ref() {
            None => {
                assert(here =~= Seq::<T>::empty());
                assert(walked =~= whole);
                return None;
            },
            Some(node) => {
                assert(here == seq![node.elem] + items_from(node.next));
                node.elem == *elem
            },
        };
        if found {
            let node = cur.take().unwrap();
            *cur = node.next;
            proof {
                assert(here =~= seq![node.elem] + items_from(node.next));
                assert(whole[at] == node.elem);
                assert(walked + items_from(*cur) =~= whole.remove(at));
            }
            return Some(node.elem);
        }
        match cur {
            Some(node) => {
                proof {
                    assert(walked.push(node.elem) + items_from(node.next) =~= whole);
                    assert(here.drop_first() =~= items_from(node.next));
                    walked = walked.push(node.elem);
                }
                cur = &mut node.next;
            },
            None => {},
        }
    }
}

impl<T: PartialEq> LinkedList<T> {
    /// The list's invariant: the stored size counts the nodes.
    pub closed spec fn wf(&self) -> bool {
        self.size == items_from(self.head).len()
    }

    /// An empty list.
    pub fn new() -> (list: Self)
        ensures
            list.wf(),
            list@ == Seq::<T>::empty(),
    {
        LinkedList { head: None, size: 0 }
    }

    /// The number of elements.
    pub fn size(&self) -> (size: u32)
        requires
            self.wf(),
        ensures
            size == self@.len(),
    {
        self.size
    }

    /// Puts `elem` behind the last element.
    pub fn add(&mut self, elem: T)
        requires
            old(self).wf(),
            old(self)@.len() < u32::MAX,
        ensures
            final(self).wf(),
            final(self)@ == old(self)@.push(elem),
    {
        append(&mut self.head, elem);
        self.size = self.size + 1;
    }

    /// Removes the first element and returns it; `None` on an empty list,
    /// which stays as it is.
    pub fn pop(&mut self) -> (popped: Option<T>)
        requires
            old(self).wf(),
        ensures
            final(self).wf(),
            old(self)@.len() == 0 ==> popped.is_none() && final(self)@ == old(self)@,
            old(self)@.len() > 0 ==> popped == Some(old(self)@[0]) && final(self)@ == old(self)@.drop_first(),
    {
        match self.head.take() {
            None => None,
            Some(node) => {
                assert(old(self)@.drop_first() =~= items_from(node.next));
                self.head = node.next;
                self.size = self.size - 1;
                Some(node.elem)
            },
        }
    }

    /// Removes the first element that equals `elem` and returns it; `None`,
    /// and the list as it was, if there is none. Which elements equal `elem`
    /// is known where the element type's `==` is specified; in any case the
    /// result is an element of the list and only that element has left it.
    pub fn remove(&mut self, elem: T) -> (removed: Option<T>)
        requires
            old(self).wf(),
        ensures
            final(self).wf(),
            T::obeys_eq_spec() ==> ({
                let at = first_match(old(self)@, elem);
                &&& 0 <= at <= old(self)@.len()
                &&& at < old(self)@.len() ==> removed == Some(old(self)@[at]) && final(self)@ == old(self)@.remove(at)
                &&& at == old(self)@.len() ==> removed.is_none() && final(self)@ == old(self)@
            }),
            removed.is_none() ==> final(self)@ == old(self)@,
            removed.is_some() ==> exists|at: int|
                0 <= at < old(self)@.len() && removed == Some(#[trigger] old(self)@[at]) && final(self)@ == old(self)@.remove(at),
    {
        let removed = remove_first(&mut self.head, &elem);
        if removed.is_some() {
            proof {
                let at = choose|at: int|
                    0 <= at < old(self)@.len() && removed == Some(#[trigger] old(self)@[at]) && items_from(self.head)
                        == old(self)@.remove(at);
                assert(removed == Some(old(self)@[at]));
            }
            self.size = self.size - 1;
        }
        removed
    }
}

} // verus!
