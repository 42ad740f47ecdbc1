//! An unbalanced binary search tree. It keeps its elements in ascending order
//! under the order of the element type, each at most once.
//!
//! The contracts below suppose that this order is lawful, which
//! `vstd::laws_cmp::obeys_cmp` states: it is total and transitive, and
//! comparing the other way round gives the opposite answer.

use core::cmp::Ordering;
use vstd::laws_cmp::{obeys_cmp, obeys_cmp_ord, obeys_cmp_partial_ord, obeys_partial_cmp_spec_properties};
use vstd::laws_eq::obeys_eq_spec_properties;
use vstd::prelude::*;
use vstd::std_specs::cmp::{OrdSpec, PartialEqSpec, PartialOrdSpec};

verus! {

struct Node<T> {
    left: Option<Box<Node<T>>>,
    right: Option<Box<Node<T>>>,
    elem: T,
}

/// A binary search tree. Its view is the sequence of its elements in
/// ascending order.
pub struct BTree<T> {
    root: Option<Box<Node<T>>>,
    size: usize,
}

/// `a` comes before `b` in the order of the element type.
pub open spec fn before<T: Ord>(a: T, b: T) -> bool {
    a.cmp_spec(&b) == Ordering::Less
}

/// `a` and `b` take the same place in the order of the element type.
pub open spec fn same<T: Ord>(a: T, b: T) -> bool {
    a.cmp_spec(&b) == Ordering::Equal
}

/// Every element of `items` comes before the elements behind it.
pub open spec fn ascending<T: Ord>(items: Seq<T>) -> bool {
    forall|i: int, j: int| 0 <= i < j < items.len() ==> before(#[trigger] items[i], #[trigger] items[j])
}

/// `items` holds an element that takes the place of `elem`.
pub open spec fn holds<T: Ord>(items: Seq<T>, elem: T) -> bool {
    exists|i: int| 0 <= i < items.len() && same(#[trigger] items[i], elem)
}

/// The number of elements of `items` that come before `elem`: the position
/// of `elem` among them.
pub open spec fn rank<T: Ord>(items: Seq<T>, elem: T) -> int
    decreases items.len(),
{
    if items.len() == 0 {
        0
    } else {
        rank(items.drop_last(), elem) + (if before(items.last(), elem) {
            1int
        } else {
            0int
        })
    }
}

/// In a lawful order, `cmp` gives what `cmp_spec` says.
proof fn lemma_specified<T: Ord>()
    requires
        obeys_cmp::<T>(),
    ensures
        T::obeys_cmp_spec(),
{
    reveal(obeys_cmp_ord);
}

/// In a lawful order, what comes before does not come behind, and taking the
/// same place is mutual.
proof fn lemma_opposite<T: Ord>(a: T, b: T)
    requires
        obeys_cmp::<T>(),
    ensures
        before(a, b) <==> b.cmp_spec(&a) == Ordering::Greater,
        same(a, b) <==> same(b, a),
{
    reveal(obeys_cmp_ord);
    reveal(obeys_cmp_partial_ord);
    reveal(obeys_partial_cmp_spec_properties);
    reveal(obeys_eq_spec_properties);
}

/// In a lawful order, coming before is transitive, also through elements
/// that take the same place.
proof fn lemma_chain<T: Ord>(a: T, b: T, c: T)
    requires
        obeys_cmp::<T>(),
        before(a, b) || same(a, b),
        before(b, c) || same(b, c),
    ensures
        before(a, c) || (same(a, b) && same(b, c) && same(a, c)),
{
    reveal(obeys_cmp_ord);
    reveal(obeys_cmp_partial_ord);
    reveal(obeys_partial_cmp_spec_properties);
    reveal(obeys_eq_spec_properties);
    lemma_opposite(a, c);
    if same(a, b) {
        if !same(b, c) && !same(a, c) && !before(a, c) {
            // Were `c` before `a`, it would be before `b`, which takes the place of `a`.
            lemma_before_same(c, a, b);
        }
    } else if same(b, c) {
        lemma_before_same(a, b, c);
    }
}

/// What comes before an element comes before every element that takes the
/// same place.
proof fn lemma_before_same<T: Ord>(a: T, b: T, c: T)
    requires
        obeys_cmp::<T>(),
        before(a, b),
        same(b, c),
    ensures
        before(a, c),
{
    reveal(obeys_cmp_ord);
    reveal(obeys_cmp_partial_ord);
    reveal(obeys_partial_cmp_spec_properties);
    reveal(obeys_eq_spec_properties);
}

/// The number of elements that come before `elem` is `k` where the first
/// `k` elements come before it and the others do not.
proof fn lemma_rank_at<T: Ord>(items: Seq<T>, k: int, elem: T)
    requires
        0 <= k <= items.len(),
        forall|i: int| 0 <= i < k ==> before(#[trigger] items[i], elem),
        forall|i: int| k <= i < items.len() ==> !before(#[trigger] items[i], elem),
    ensures
        rank(items, elem) == k,
    decreases items.len(),
{
    if items.len() > 0 {
        let front = items.drop_last();
        if k == items.len() {
            lemma_rank_at(front, k - 1, elem);
        } else {
            lemma_rank_at(front, k, elem);
        }
    }
}

/// Where `elem` stands in an ascending sequence, it stands at its rank among
/// the other elements.
proof fn lemma_rank_of_inserted<T: Ord>(items: Seq<T>, k: int, elem: T)
    requires
        obeys_cmp::<T>(),
        0 <= k <= items.len(),
        ascending(items.insert(k, elem)),
    ensures
        rank(items, elem) == k,
        !holds(items, elem),
{
    let grown = items.insert(k, elem);
    assert(grown[k] == elem);
    assert forall|i: int| 0 <= i < k implies before(#[trigger] items[i], elem) by {
        assert(grown[i] == items[i]);
    }
    assert forall|i: int| k <= i < items.len() implies !before(#[trigger] items[i], elem) && !same(
        items[i],
        elem,
    ) by {
        assert(grown[i + 1] == items[i]);
        assert(before(grown[k], grown[i + 1]));
        lemma_opposite(elem, items[i]);
        lemma_opposite(items[i], elem);
    }
    lemma_rank_at(items, k, elem);
    if holds(items, elem) {
        let i = choose|i: int| 0 <= i < items.len() && same(#[trigger] items[i], elem);
        if i < k {
            assert(before(items[i], elem));
        }
    }
}

/// An element of an ascending sequence that takes the place of `elem` stands
/// at the rank of `elem`, and no other element takes that place.
proof fn lemma_rank_of_member<T: Ord>(items: Seq<T>, k: int, elem: T)
    requires
        obeys_cmp::<T>(),
        ascending(items),
        0 <= k < items.len(),
        same(items[k], elem),
    ensures
        rank(items, elem) == k,
{
    assert forall|i: int| 0 <= i < k implies before(#[trigger] items[i], elem) by {
        assert(before(items[i], items[k]));
        lemma_before_same(items[i], items[k], elem);
    }
    assert forall|i: int| k <= i < items.len() implies !before(#[trigger] items[i], elem) by {
        if i > k && before(items[i], elem) {
            assert(before(items[k], items[i]));
            lemma_chain(items[k], items[i], elem);
        }
    }
    lemma_rank_at(items, k, elem);
}

/// The parts of an ascending sequence around one of its elements are
/// ascending; the element lies behind the first part and in front of the
/// second.
proof fn lemma_split<T: Ord>(left: Seq<T>, elem: T, right: Seq<T>)
    requires
        ascending(left + seq![elem] + right),
    ensures
        ascending(left),
        ascending(right),
        forall|i: int| 0 <= i < left.len() ==> before(#[trigger] left[i], elem),
        forall|j: int| 0 <= j < right.len() ==> before(elem, #[trigger] right[j]),
{
    let items = left + seq![elem] + right;
    let n = left.len() as int;
    assert(items[n] == elem);
    assert forall|i: int, j: int| 0 <= i < j < left.len() implies before(#[trigger] left[i], #[trigger] left[j]) by {
        assert(items[i] == left[i] && items[j] == left[j]);
    }
    assert forall|i: int, j: int| 0 <= i < j < right.len() implies before(
        #[trigger] right[i],
        #[trigger] right[j],
    ) by {
        assert(items[n + 1 + i] == right[i] && items[n + 1 + j] == right[j]);
    }
    assert forall|i: int| 0 <= i < left.len() implies before(#[trigger] left[i], elem) by {
        assert(items[i] == left[i]);
    }
    assert forall|j: int| 0 <= j < right.len() implies before(elem, #[trigger] right[j]) by {
        assert(items[n + 1 + j] == right[j]);
    }
}

/// Two ascending sequences with an element between them, behind the first
/// and in front of the second, make one ascending sequence.
proof fn lemma_join<T: Ord>(left: Seq<T>, elem: T, right: Seq<T>)
    requires
        obeys_cmp::<T>(),
        ascending(left),
        ascending(right),
        forall|i: int| 0 <= i < left.len() ==> before(#[trigger] left[i], elem),
        forall|j: int| 0 <= j < right.len() ==> before(elem, #[trigger] right[j]),
    ensures
        ascending(left + seq![elem] + right),
{
    let items = left + seq![elem] + right;
    let n = left.len();
    assert forall|i: int, j: int| 0 <= i < j < items.len() implies before(#[trigger] items[i], #[trigger] items[j]) by {
        if j < n {
            assert(items[i] == left[i] && items[j] == left[j]);
        } else if j == n {
            assert(items[i] == left[i]);
        } else if i < n {
            assert(items[i] == left[i] && items[j] == right[j - n - 1]);
            lemma_chain(left[i], elem, right[j - n - 1]);
        } else if i == n {
            assert(items[j] == right[j - n - 1]);
        } else {
            assert(items[i] == right[i - n - 1] && items[j] == right[j - n - 1]);
        }
    }
}

/// An element is held by a sequence made of two parts and an element
/// between them if one of the parts holds it or it is the one between them.
proof fn lemma_holds_in_parts<T: Ord>(left: Seq<T>, mid: T, right: Seq<T>, elem: T)
    ensures
        holds(left + seq![mid] + right, elem) <==> holds(left, elem) || same(mid, elem) || holds(right, elem),
{
    let items = left + seq![mid] + right;
    let n = left.len() as int;
    if holds(items, elem) {
        let i = choose|i: int| 0 <= i < items.len() && same(#[trigger] items[i], elem);
        if i < n {
            assert(same(left[i], elem));
        } else if i > n {
            assert(same(right[i - n - 1], elem));
        }
    }
    if holds(left, elem) {
        let i = choose|i: int| 0 <= i < left.len() && same(#[trigger] left[i], elem);
        assert(same(items[i], elem));
    }
    if same(mid, elem) {
        assert(same(items[n], elem));
    }
    if holds(right, elem) {
        let j = choose|j: int| 0 <= j < right.len() && same(#[trigger] right[j], elem);
        assert(same(items[n + 1 + j], elem));
    }
}

/// An element that comes before all of `items`, or behind all of them, is
/// not held by them.
proof fn lemma_outside<T: Ord>(items: Seq<T>, elem: T)
    requires
        obeys_cmp::<T>(),
        (forall|i: int| 0 <= i < items.len() ==> before(elem, #[trigger] items[i])) || (forall|i: int|
            0 <= i < items.len() ==> before(#[trigger] items[i], elem)),
    ensures
        !holds(items, elem),
{
    if holds(items, elem) {
        let i = choose|i: int| 0 <= i < items.len() && same(#[trigger] items[i], elem);
        lemma_opposite(items[i], elem);
        lemma_opposite(elem, items[i]);
    }
}

/// Taking an element out of an ascending sequence leaves it ascending.
proof fn lemma_remove_ascending<T: Ord>(items: Seq<T>, k: int)
    requires
        ascending(items),
        0 <= k < items.len(),
    ensures
        ascending(items.remove(k)),
{
    let rest = items.remove(k);
    assert forall|i: int, j: int| 0 <= i < j < rest.len() implies before(#[trigger] rest[i], #[trigger] rest[j]) by {
        let oi = if i < k { i } else { i + 1 };
        let oj = if j < k { j } else { j + 1 };
        assert(rest[i] == items[oi] && rest[j] == items[oj]);
    }
}

/// The elements below `link`, from left to right.
spec fn in_order<T>(link: Option<Box<Node<T>>>) -> Seq<T>
    decreases link,
{
    match link {
        None => Seq::empty(),
        Some(node) => in_order(node.left) + seq![node.elem] + in_order(node.right),
    }
}

/// Puts `elem` in its place below `link`, unless an element there takes that
/// place already. Returns whether it was put in.
fn insert_recursive<T: Ord>(link: &mut Option<Box<Node<T>>>, elem: T) -> (added: bool)
    requires
        obeys_cmp::<T>(),
        ascending(in_order(*old(link))),
    ensures
        ascending(in_order(*final(link))),
        added == !holds(in_order(*old(link)), elem),
        !added ==> in_order(*final(link)) == in_order(*old(link)),
        added ==> exists|k: int|
            0 <= k <= in_order(*old(link)).len() && #[trigger] in_order(*old(link)).insert(k, elem) == in_order(
                *final(link),
            ),
    decreases *old(link),
{
    let ghost items = in_order(*old(link));
    match link.take() {
        None => {
            *link = Some(Box::new(Node { left: None, right: None, elem }));
            proof {
                let grown = in_order(*link);
                assert(in_order::<T>(None) =~= Seq::empty());
                assert(grown =~= seq![elem]);
                assert(items.insert(0, elem) =~= grown);
            }
            true
        },
        Some(mut node) => {
            let ghost left = in_order(node.left);
            let ghost right = in_order(node.right);
            let ghost mid = node.elem;
            proof {
                lemma_specified::<T>();
                lemma_split(left, mid, right);
                lemma_holds_in_parts(left, mid, right, elem);
                lemma_opposite(elem, mid);
                lemma_opposite(mid, elem);
            }
            match elem.cmp(&node.elem) {
                Ordering::Less => {
                    let added = insert_recursive(&mut node.left, elem);
                    proof {
                        let grown = in_order(node.left);
                        assert forall|j: int| 0 <= j < right.len() implies before(elem, #[trigger] right[j]) by {
                            lemma_chain(elem, mid, right[j]);
                        }
                        lemma_outside(right, elem);
                        if added {
                            let k = choose|k: int| 0 <= k <= left.len() && #[trigger] left.insert(k, elem) == grown;
                            assert forall|i: int| 0 <= i < grown.len() implies before(#[trigger] grown[i], mid) by {
                                if i < k {
                                    assert(grown[i] == left[i]);
                                } else if i > k {
                                    assert(grown[i] == left[i - 1]);
                                }
                            }
                            assert(items.insert(k, elem) =~= grown + seq![mid] + right);
                        }
                        lemma_join(grown, mid, right);
                    }
                    *link = Some(node);
                    added
                },
                Ordering::Greater => {
                    let added = insert_recursive(&mut node.right, elem);
                    proof {
                        let grown = in_order(node.right);
                        assert forall|i: int| 0 <= i < left.len() implies before(#[trigger] left[i], elem) by {
                            lemma_chain(left[i], mid, elem);
                        }
                        lemma_outside(left, elem);
                        if added {
                            let k = choose|k: int| 0 <= k <= right.len() && #[trigger] right.insert(k, elem) == grown;
                            assert forall|j: int| 0 <= j < grown.len() implies before(mid, #[trigger] grown[j]) by {
                                if j < k {
                                    assert(grown[j] == right[j]);
                                } else if j > k {
                                    assert(grown[j] == right[j - 1]);
                                }
                            }
                            assert(items.insert(left.len() + 1 + k, elem) =~= left + seq![mid] + grown);
                        }
                        lemma_join(left, mid, grown);
                    }
                    *link = Some(node);
                    added
                },
                Ordering::Equal => {
                    *link = Some(node);
                    false
                },
            }
        },
    }
}

/// Whether an element below `link` takes the place of `elem`.
fn search_recursive<T: Ord>(link: &Option<Box<Node<T>>>, elem: &T) -> (found: bool)
    requires
        obeys_cmp::<T>(),
        ascending(in_order(*link)),
    ensures
        found == holds(in_order(*link), *elem),
    decreases *link,
{
    match link {
        None => {
            assert(in_order(*link) =~= Seq::<T>::empty());
            false
        },
        Some(node) => {
            let ghost left = in_order(node.left);
            let ghost right = in_order(node.right);
            proof {
                lemma_specified::<T>();
                lemma_split(left, node.elem, right);
                lemma_holds_in_parts(left, node.elem, right, *elem);
                lemma_opposite(*elem, node.elem);
                lemma_opposite(node.elem, *elem);
            }
            match elem.cmp(&node.elem) {
                Ordering::Less => {
                    proof {
                        assert forall|j: int| 0 <= j < right.len() implies before(*elem, #[trigger] right[j]) by {
                            lemma_chain(*elem, node.elem, right[j]);
                        }
                        lemma_outside(right, *elem);
                    }
                    search_recursive(&node.left, elem)
                },
                Ordering::Greater => {
                    proof {
                        assert forall|i: int| 0 <= i < left.len() implies before(#[trigger] left[i], *elem) by {
                            lemma_chain(left[i], node.elem, *elem);
                        }
                        lemma_outside(left, *elem);
                    }
                    search_recursive(&node.right, elem)
                },
                Ordering::Equal => true,
            }
        },
    }
}

/// Takes the leftmost node below `link` out and returns its element.
fn take_least<T>(link: &mut Option<Box<Node<T>>>) -> (least: T)
    requires
        old(link).is_some(),
    ensures
        in_order(*old(link)).len() > 0,
        least == in_order(*old(link))[0],
        in_order(*final(link)) == in_order(*old(link)).drop_first(),
    decreases *old(link),
{
    let mut node = link.take().unwrap();
    let ghost left = in_order(node.left);
    let ghost right = in_order(node.right);
    if node.left.is_none() {
        *link = node.right;
        assert(left =~= Seq::<T>::empty());
        assert((left + seq![node.elem] + right).drop_first() =~= right);
        node.elem
    } else {
        let least = take_least(&mut node.left);
        assert((left + seq![node.elem] + right).drop_first() =~= left.drop_first() + seq![node.elem] + right);
        *link = Some(node);
        least
    }
}

/// Takes out the element below `link` that takes the place of `elem`, if
/// there is one. Returns whether there was one.
fn remove_recursive<T: Ord>(link: &mut Option<Box<Node<T>>>, elem: &T) -> (removed: bool)
    requires
        obeys_cmp::<T>(),
        ascending(in_order(*old(link))),
    ensures
        ascending(in_order(*final(link))),
        removed == holds(in_order(*old(link)), *elem),
        !removed ==> in_order(*final(link)) == in_order(*old(link)),
        removed ==> exists|k: int|
            0 <= k < in_order(*old(link)).len() && same(#[trigger] in_order(*old(link))[k], *elem) && in_order(
                *old(link),
            ).remove(k) == in_order(*final(link)),
    decreases *old(link),
{
    let ghost items = in_order(*old(link));
    match link.take() {
        None => {
            assert(items =~= Seq::<T>::empty());
            false
        },
        Some(mut node) => {
            let ghost left = in_order(node.left);
            let ghost right = in_order(node.right);
            let ghost mid = node.elem;
            let ghost n: int = left.len() + 0int;
            proof {
                lemma_specified::<T>();
                lemma_split(left, mid, right);
                lemma_holds_in_parts(left, mid, right, *elem);
                lemma_opposite(*elem, mid);
                lemma_opposite(mid, *elem);
            }
            match elem.cmp(&node.elem) {
                Ordering::Less => {
                    let removed = remove_recursive(&mut node.left, elem);
                    proof {
                        let rest = in_order(node.left);
                        assert forall|j: int| 0 <= j < right.len() implies before(*elem, #[trigger] right[j]) by {
                            lemma_chain(*elem, mid, right[j]);
                        }
                        lemma_outside(right, *elem);
                        if removed {
                            let k = choose|k: int|
                                0 <= k < left.len() && same(#[trigger] left[k], *elem) && left.remove(k) == rest;
                            assert(items[k] == left[k]);
                            assert(items.remove(k) =~= rest + seq![mid] + right);
                            lemma_remove_ascending(items, k);
                        }
                    }
                    *link = Some(node);
                    removed
                },
                Ordering::Greater => {
                    let removed = remove_recursive(&mut node.right, elem);
                    proof {
                        let rest = in_order(node.right);
                        assert forall|i: int| 0 <= i < left.len() implies before(#[trigger] left[i], *elem) by {
                            lemma_chain(left[i], mid, *elem);
                        }
                        lemma_outside(left, *elem);
                        if removed {
                            let k = choose|k: int|
                                0 <= k < right.len() && same(#[trigger] right[k], *elem) && right.remove(k) == rest;
                            assert(items[n + 1 + k] == right[k]);
                            assert(items.remove(n + 1 + k) =~= left + seq![mid] + rest);
                            lemma_remove_ascending(items, n + 1 + k);
                        }
                    }
                    *link = Some(node);
                    removed
                },
                Ordering::Equal => {
                    if node.left.is_none() {
                        *link = node.right;
                        assert(left =~= Seq::<T>::empty());
                        assert(items.remove(0) =~= right);
                    } else if node.right.is_none() {
                        *link = node.left;
                        assert(right =~= Seq::<T>::empty());
                        assert(items.remove(n) =~= left);
                    } else {
                        let least = take_least(&mut node.right);
                        node.elem = least;
                        assert(items.remove(n) =~= left + seq![least] + right.drop_first());
                        *link = Some(node);
                    }
                    proof {
                        assert(items[n] == mid);
                        lemma_remove_ascending(items, n);
                    }
                    true
                },
            }
        },
    }
}

/// Appends references to the elements below `link`, from left to right, to
/// `elems`.
fn push_inorder<'a, T>(link: &'a Option<Box<Node<T>>>, elems: &mut Vec<&'a T>)
    ensures
        values(final(elems)@) == values(old(elems)@) + in_order(*link),
    decreases *link,
{
    match link {
        None => {
            assert(values(elems@) + in_order(*link) =~= values(elems@));
        },
        Some(node) => {
            push_inorder(&node.left, elems);
            let ghost upto = elems@;
            elems.push(&node.elem);
            assert(values(elems@) =~= values(upto) + seq![node.elem]);
            push_inorder(&node.right, elems);
            assert(values(old(elems)@) + in_order(node.left) + seq![node.elem] + in_order(node.right) =~= values(
                old(elems)@,
            ) + in_order(*link));
        },
    }
}

/// What the references of `refs` lead to.
pub open spec fn values<T>(refs: Seq<&T>) -> Seq<T> {
    Seq::new(refs.len(), |i: int| *refs[i])
}

/// An iterator over the elements of a tree in ascending order.
pub struct Iter<'a, T> {
    elems: Vec<&'a T>,
    current_idx: usize,
}

impl<'a, T> Iter<'a, T> {
    /// The iterator's invariant: it has not gone beyond its last element.
    pub closed spec fn wf(&self) -> bool {
        self.current_idx <= self.elems@.len()
    }

    /// The elements not yet yielded, in ascending order.
    pub closed spec fn remaining(&self) -> Seq<T> {
        values(self.elems@).skip(self.current_idx as int)
    }

    /// Yields the least of the remaining elements; `None` when none is left.
    pub fn next(&mut self) -> (elem: Option<&'a T>)
        requires
            old(self).wf(),
        ensures
            final(self).wf(),
            old(self).remaining().len() == 0 ==> elem.is_none() && final(self).remaining() == old(self).remaining(),
            old(self).remaining().len() > 0 ==> elem == Some(&old(self).remaining()[0]) && final(self).remaining()
                == old(self).remaining().drop_first(),
    {
        if self.current_idx == self.elems.len() {
            return None;
        }
        let elem = self.elems[self.current_idx];
        self.current_idx = self.current_idx + 1;
        assert(self.remaining() =~= old(self).remaining().drop_first());
        Some(elem)
    }

    /// The number of remaining elements, as a lower and an upper bound.
    pub fn size_hint(&self) -> (hint: (usize, Option<usize>))
        requires
            self.wf(),
        ensures
            hint.0 == self.remaining().len(),
            hint.1 == Some(hint.0),
    {
        let remaining = self.elems.len() - self.current_idx;
        (remaining, Some(remaining))
    }
}

impl<T> View for BTree<T> {
    type V = Seq<T>;

    closed spec fn view(&self) -> Seq<T> {
        in_order(self.root)
    }
}

impl<T: Ord> BTree<T> {
    /// The tree's invariant: from left to right the elements ascend, and the
    /// stored size counts them.
    pub closed spec fn wf(&self) -> bool {
        &&& ascending(in_order(self.root))
        &&& self.size == in_order(self.root).len()
    }

    /// An empty tree.
    pub fn new() -> (tree: Self)
        ensures
            tree.wf(),
            tree@ == Seq::<T>::empty(),
    {
        BTree { root: None, size: 0 }
    }

    /// The number of elements.
    pub fn size(&self) -> (size: usize)
        requires
            self.wf(),
        ensures
            size == self@.len(),
    {
        self.size
    }

    /// Whether the tree holds no element.
    pub fn is_empty(&self) -> (empty: bool)
        requires
            self.wf(),
        ensures
            empty == (self@.len() == 0),
    {
        self.size == 0
    }

    /// Puts `elem` in its place among the elements. A tree that holds an
    /// element in that place already stays as it is.
    pub fn insert(&mut self, elem: T)
        requires
            obeys_cmp::<T>(),
            old(self).wf(),
            old(self)@.len() < usize::MAX,
        ensures
            final(self).wf(),
            holds(old(self)@, elem) ==> final(self)@ == old(self)@,
            !holds(old(self)@, elem) ==> final(self)@ == old(self)@.insert(rank(old(self)@, elem), elem),
    {
        let added = insert_recursive(&mut self.root, elem);
        if added {
            proof {
                let k = choose|k: int|
                    0 <= k <= old(self)@.len() && #[trigger] old(self)@.insert(k, elem) == in_order(self.root);
                lemma_rank_of_inserted(old(self)@, k, elem);
            }
            self.size = self.size + 1;
        }
    }

    /// Whether the tree holds an element in the place of `elem`.
    pub fn contains(&self, elem: &T) -> (found: bool)
        requires
            obeys_cmp::<T>(),
            self.wf(),
        ensures
            found == holds(self@, *elem),
    {
        search_recursive(&self.root, elem)
    }

    /// Takes out the element in the place of `elem`. A tree that holds none
    /// there stays as it is.
    pub fn remove(&mut self, elem: &T)
        requires
            obeys_cmp::<T>(),
            old(self).wf(),
        ensures
            final(self).wf(),
            holds(old(self)@, *elem) ==> final(self)@ == old(self)@.remove(rank(old(self)@, *elem)),
            !holds(old(self)@, *elem) ==> final(self)@ == old(self)@,
    {
        let removed = remove_recursive(&mut self.root, elem);
        if removed {
            proof {
                let k = choose|k: int|
                    0 <= k < old(self)@.len() && same(#[trigger] old(self)@[k], *elem) && old(self)@.remove(k)
                        == in_order(self.root);
                lemma_rank_of_member(old(self)@, k, *elem);
            }
            self.size = self.size - 1;
        }
    }
}

impl<T> BTree<T> {
    /// An iterator over the elements in ascending order.
    pub fn iter(&self) -> (iter: Iter<'_, T>)
        ensures
            iter.wf(),
            iter.remaining() == self@,
    {
        let mut elems = Vec::with_capacity(self.size);
        push_inorder(&self.root, &mut elems);
        let iter = Iter { elems, current_idx: 0 };
        assert(iter.remaining() =~= self@);
        iter
    }
}

} // verus!
