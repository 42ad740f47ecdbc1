//! A doubly-linked list kept in an arena of slots.
//!
//! Every node lives in a slot of `nodes` and names its neighbours by slot
//! number. A slot keeps its number for as long as its node is in the list, so a
//! cursor can hold on to a node while the list around it is relinked. Vacated
//! slots are remembered in `free` and reused by later insertions.

use vstd::prelude::*;

verus! {

struct Node<T> {
    next: Option<usize>,
    prev: Option<usize>,
    elem: Option<T>,
}

/// The arena with its links. `wf` states what the links must satisfy; every
/// operation below keeps it.
struct Chain<T> {
    nodes: Vec<Node<T>>,
    free: Vec<usize>,
    head: Option<usize>,
    tail: Option<usize>,
    len: usize,
    /// The occupied slots in traversal order, head first.
    order: Ghost<Seq<usize>>,
}

/// The slot that a node at position `i` of `order` must name as its predecessor.
spec fn link_before(order: Seq<usize>, i: int) -> Option<usize> {
    if i <= 0 {
        None
    } else {
        Some(order[i - 1])
    }
}

/// The slot that a node at position `i` of `order` must name as its successor.
spec fn link_after(order: Seq<usize>, i: int) -> Option<usize> {
    if i + 1 >= order.len() {
        None
    } else {
        Some(order[i + 1])
    }
}

/// No slot occurs twice in `slots`.
#[verifier::opaque]
spec fn distinct(slots: Seq<usize>) -> bool {
    slots.no_duplicates()
}

/// Two different positions of `slots` hold different slots.
proof fn lemma_distinct(slots: Seq<usize>, i: int, j: int)
    requires
        distinct(slots),
        0 <= i < slots.len(),
        0 <= j < slots.len(),
        i != j,
    ensures
        slots[i] != slots[j],
{
    reveal(distinct);
}

/// The slot found at position `i` of `order`, if there is such a position.
spec fn slot_at(order: Seq<usize>, i: int) -> Option<usize> {
    if 0 <= i < order.len() {
        Some(order[i])
    } else {
        None
    }
}

impl<T> View for Chain<T> {
    type V = Seq<T>;

    closed spec fn view(&self) -> Seq<T> {
        Seq::new(self.order@.len(), |i: int| self.nodes@[self.order@[i] as int].elem.unwrap())
    }
}

impl<T> Chain<T> {
    /// The node at position `i` is occupied and linked to its two neighbours.
    spec fn linked_at(&self, i: int) -> bool {
        let slot = self.order@[i];
        &&& slot < self.nodes@.len()
        &&& self.nodes@[slot as int].elem.is_some()
        &&& self.nodes@[slot as int].prev == link_before(self.order@, i)
        &&& self.nodes@[slot as int].next == link_after(self.order@, i)
    }

    /// The `j`-th remembered free slot exists and holds no element.
    spec fn vacant_at(&self, j: int) -> bool {
        let slot = self.free@[j];
        &&& slot < self.nodes@.len()
        &&& self.nodes@[slot as int].elem.is_none()
    }

    /// The structural invariant: `prev` and `next` mirror each other along the
    /// traversal order, `head` and `tail` name its two ends, `len` counts its
    /// nodes, and every slot of the arena is either in the list or free.
    spec fn wf(&self) -> bool {
        &&& self.order@.len() == self.len
        &&& self.order@.len() + self.free@.len() == self.nodes@.len()
        &&& distinct(self.order@)
        &&& distinct(self.free@)
        &&& forall|i: int| 0 <= i < self.order@.len() ==> #[trigger] self.linked_at(i)
        &&& forall|j: int| 0 <= j < self.free@.len() ==> #[trigger] self.vacant_at(j)
        &&& self.head == slot_at(self.order@, 0)
        &&& self.tail == slot_at(self.order@, self.order@.len() - 1)
    }

    /// An arena without slots.
    fn new() -> (chain: Self)
        ensures
            chain.wf(),
            chain@ == Seq::<T>::empty(),
    {
        let chain = Chain {
            nodes: Vec::new(),
            free: Vec::new(),
            head: None,
            tail: None,
            len: 0,
            order: Ghost(Seq::empty()),
        };
        assert(distinct(Seq::<usize>::empty())) by {
            reveal(distinct);
        }
        assert(chain@ =~= Seq::<T>::empty());
        chain
    }

    /// The element of the node in `slot`, which stands at position `k`.
    fn elem_ref(&self, Ghost(k): Ghost<int>, slot: usize) -> (elem: &T)
        requires
            self.wf(),
            0 <= k < self.order@.len(),
            self.order@[k] == slot,
        ensures
            *elem == self@[k],
    {
        assert(self.linked_at(k));
        self.nodes[slot].elem.as_ref().unwrap()
    }

    /// The element of the node in `slot`, which stands at position `k`, for
    /// writing; always `Some`. The links and the other elements stay as they
    /// are.
    fn elem_mut(&mut self, Ghost(k): Ghost<int>, slot: usize) -> (elem: Option<&mut T>)
        requires
            old(self).wf(),
            0 <= k < old(self).order@.len(),
            old(self).order@[k] == slot,
        ensures
            elem.is_some(),
            *elem.unwrap() == old(self)@[k],
            final(self).wf(),
            final(self).order@ == old(self).order@,
            final(self)@ == old(self)@.update(k, *final(elem.unwrap())),
        no_unwind
    {
        let ghost before = *self;
        proof {
            assert(self.linked_at(k));
            assert forall|after: Self| before.rewritten(after, k) implies #[trigger] after.wf() by {
                before.lemma_rewrite(after, k);
            }
            assert forall|after: Self| before.rewritten(after, k) implies #[trigger] after@ == before@.update(
                k,
                after.nodes@[slot as int].elem.unwrap(),
            ) by {
                before.lemma_rewrite(after, k);
            }
        }
        match &mut self.nodes[slot].elem {
            Some(elem) => Some(elem),
            None => None,
        }
    }

    /// `after` is this list with another element written into the node at
    /// position `k`, and nothing else changed.
    spec fn rewritten(&self, after: Self, k: int) -> bool {
        let slot = self.order@[k] as int;
        &&& after.order@ == self.order@
        &&& after.free@ == self.free@
        &&& after.len == self.len
        &&& after.head == self.head
        &&& after.tail == self.tail
        &&& after.nodes@.len() == self.nodes@.len()
        &&& after.nodes@[slot].elem.is_some()
        &&& after.nodes@[slot].next == self.nodes@[slot].next
        &&& after.nodes@[slot].prev == self.nodes@[slot].prev
        &&& forall|t: int| 0 <= t < self.nodes@.len() && t != slot ==> after.nodes@[t] == self.nodes@[t]
    }

    /// Overwriting the element at position `k` keeps the list well formed and
    /// updates position `k` of the view.
    proof fn lemma_rewrite(&self, after: Self, k: int)
        requires
            self.wf(),
            0 <= k < self.order@.len(),
            self.rewritten(after, k),
        ensures
            after.wf(),
            after@ == self@.update(k, after.nodes@[self.order@[k] as int].elem.unwrap()),
    {
        let elem = after.nodes@[self.order@[k] as int].elem.unwrap();
        assert(self.linked_at(k));
        assert forall|i: int| 0 <= i < after.order@.len() implies #[trigger] after.linked_at(i) by {
            assert(self.linked_at(i));
        }
        assert forall|j: int| 0 <= j < after.free@.len() implies #[trigger] after.vacant_at(j) by {
            assert(self.vacant_at(j));
            self.lemma_unlisted(self.free@[j]);
        }
        assert forall|i: int| 0 <= i < after.order@.len() implies #[trigger] after@[i] == self@.update(k, elem)[i] by {
            assert(self.linked_at(i));
            if i != k {
                lemma_distinct(self.order@, i, k);
            }
        }
        assert(after@ =~= self@.update(k, elem));
    }

    /// Links a new node holding `elem` between the adjacent nodes `prev` and
    /// `next`, which stand at positions `k - 1` and `k`; either may be absent at
    /// an end of the list. Returns the slot of the new node.
    fn insert_at(&mut self, Ghost(k): Ghost<int>, prev: Option<usize>, next: Option<usize>, elem: T) -> (slot: usize)
        requires
            old(self).wf(),
            0 <= k <= old(self).order@.len(),
            prev == link_before(old(self).order@, k),
            next == slot_at(old(self).order@, k),
        ensures
            final(self).wf(),
            !old(self).order@.contains(slot),
            final(self).order@ == old(self).order@.insert(k, slot),
            final(self)@ == old(self)@.insert(k, elem),
    {
        let ghost before = *self;
        let node = Node { next, prev, elem: Some(elem) };
        let slot = match self.free.pop() {
            Some(slot) => {
                assert(before.vacant_at(before.free@.len() - 1));
                self.nodes[slot] = node;
                slot
            },
            None => {
                self.nodes.push(node);
                self.nodes.len() - 1
            },
        };
        let total = self.nodes.len();
        assert(self.len < total);
        let ghost placed = self.nodes@;
        proof {
            before.lemma_unlisted(slot);
        }
        match prev {
            Some(p) => {
                assert(before.linked_at(k - 1));
                self.nodes[p].next = Some(slot);
            },
            None => {
                self.head = Some(slot);
            },
        }
        let ghost relinked = self.nodes@;
        match next {
            Some(n) => {
                assert(before.linked_at(k));
                self.nodes[n].prev = Some(slot);
            },
            None => {
                self.tail = Some(slot);
            },
        }
        self.len = self.len + 1;
        proof {
            self.order@ = before.order@.insert(k, slot);
            assert forall|t: usize| t < before.nodes@.len() && t != slot implies before.relinked_around(
                *self,
                k,
                slot,
                t,
            ) by {
                assert(placed[t as int] == before.nodes@[t as int]);
                if 0 < k < before.order@.len() {
                    lemma_distinct(before.order@, k - 1, k);
                }
                if prev != Some(t) {
                    assert(relinked[t as int] == placed[t as int]);
                }
            }
            before.lemma_insert(*self, k, slot, elem);
        }
        slot
    }

    /// How the node in slot `t` differs after a node was linked in at position
    /// `k`: only the link that now leads to the new slot has changed.
    spec fn relinked_around(&self, after: Self, k: int, slot: usize, t: usize) -> bool {
        &&& after.nodes@[t as int].elem == self.nodes@[t as int].elem
        &&& after.nodes@[t as int].prev == (if slot_at(self.order@, k) == Some(t) {
            Some(slot)
        } else {
            self.nodes@[t as int].prev
        })
        &&& after.nodes@[t as int].next == (if link_before(self.order@, k) == Some(t) {
            Some(slot)
        } else {
            self.nodes@[t as int].next
        })
    }

    /// A slot that holds no element, or lies beyond the arena, is not in the list.
    proof fn lemma_unlisted(&self, slot: usize)
        requires
            self.wf(),
            slot >= self.nodes@.len() || self.nodes@[slot as int].elem.is_none(),
        ensures
            !self.order@.contains(slot),
    {
        if self.order@.contains(slot) {
            let i = self.order@.index_of(slot);
            assert(self.linked_at(i));
        }
    }

    /// Linking a node in at position `k` keeps the list well formed and inserts
    /// its element at position `k` of the view.
    proof fn lemma_insert(&self, after: Self, k: int, slot: usize, elem: T)
        requires
            self.wf(),
            0 <= k <= self.order@.len(),
            !self.order@.contains(slot),
            after.order@ == self.order@.insert(k, slot),
            after.len == self.len + 1,
            slot < after.nodes@.len(),
            after.nodes@.len() >= self.nodes@.len(),
            after.order@.len() + after.free@.len() == after.nodes@.len(),
            (after.free@ == self.free@ && slot == self.nodes@.len()) || (self.free@.len() > 0 && after.free@
                == self.free@.drop_last() && slot == self.free@.last()),
            after.nodes@[slot as int].elem == Some(elem),
            after.nodes@[slot as int].prev == link_before(self.order@, k),
            after.nodes@[slot as int].next == slot_at(self.order@, k),
            forall|t: usize|
                t < self.nodes@.len() && t != slot ==> #[trigger] self.relinked_around(after, k, slot, t),
            after.head == (if k == 0 {
                Some(slot)
            } else {
                self.head
            }),
            after.tail == (if k == self.order@.len() {
                Some(slot)
            } else {
                self.tail
            }),
        ensures
            after.wf(),
            after@ == self@.insert(k, elem),
    {
        let order = after.order@;
        assert(distinct(order)) by {
            reveal(distinct);
            assert forall|i: int, j: int| 0 <= i < order.len() && 0 <= j < order.len() && i != j implies order[i]
                != order[j] by {
                let oi = if i < k { i } else { i - 1 };
                let oj = if j < k { j } else { j - 1 };
                if i != k {
                    assert(order[i] == self.order@[oi]);
                }
                if j != k {
                    assert(order[j] == self.order@[oj]);
                }
            }
        }
        assert(distinct(after.free@)) by {
            reveal(distinct);
        }
        assert forall|i: int| 0 <= i < order.len() implies #[trigger] after.linked_at(i) by {
            if i != k {
                let oi = if i < k { i } else { i - 1 };
                assert(self.linked_at(oi));
                assert(order[i] == self.order@[oi]);
                assert(self.order@.contains(self.order@[oi]));
                assert(self.relinked_around(after, k, slot, order[i]));
                if k < self.order@.len() && k != oi {
                    lemma_distinct(self.order@, k, oi);
                }
                if k > 0 && k - 1 != oi {
                    lemma_distinct(self.order@, k - 1, oi);
                }
            }
        }
        assert forall|j: int| 0 <= j < after.free@.len() implies #[trigger] after.vacant_at(j) by {
            assert(self.vacant_at(j));
            assert(after.free@[j] == self.free@[j]);
            if slot != self.nodes@.len() {
                lemma_distinct(self.free@, j, self.free@.len() - 1);
            }
            self.lemma_unlisted(self.free@[j]);
            assert(self.relinked_around(after, k, slot, after.free@[j]));
        }
        assert forall|i: int| 0 <= i < order.len() implies #[trigger] after@[i] == self@.insert(k, elem)[i] by {
            if i != k {
                let oi = if i < k { i } else { i - 1 };
                assert(self.linked_at(oi));
                assert(order[i] == self.order@[oi]);
                assert(self.relinked_around(after, k, slot, order[i]));
            }
        }
        assert(after@ =~= self@.insert(k, elem));
    }

    /// Unlinks the node in `slot`, which stands at position `k`, joins its two
    /// neighbours to each other, and returns its element. The slot becomes free.
    fn unlink(&mut self, Ghost(k): Ghost<int>, slot: usize) -> (elem: T)
        requires
            old(self).wf(),
            0 <= k < old(self).order@.len(),
            old(self).order@[k] == slot,
        ensures
            final(self).wf(),
            final(self).order@ == old(self).order@.remove(k),
            final(self)@ == old(self)@.remove(k),
            elem == old(self)@[k],
    {
        let ghost before = *self;
        assert(before.linked_at(k));
        let next = self.nodes[slot].next;
        let prev = self.nodes[slot].prev;
        let taken = self.nodes[slot].elem.take();
        self.nodes[slot].next = None;
        self.nodes[slot].prev = None;
        let ghost emptied = self.nodes@;
        match prev {
            Some(p) => {
                assert(before.linked_at(k - 1));
                self.nodes[p].next = next;
            },
            None => {
                self.head = next;
            },
        }
        let ghost relinked = self.nodes@;
        match next {
            Some(n) => {
                assert(before.linked_at(k + 1));
                self.nodes[n].prev = prev;
            },
            None => {
                self.tail = prev;
            },
        }
        self.free.push(slot);
        self.len = self.len - 1;
        proof {
            self.order@ = before.order@.remove(k);
            assert forall|t: usize| t < before.nodes@.len() && t != slot implies before.unlinked_around(
                *self,
                k,
                t,
            ) by {
                assert(emptied[t as int] == before.nodes@[t as int]);
                assert(prev == link_before(before.order@, k));
                assert(next == link_after(before.order@, k));
                if 0 < k < before.order@.len() - 1 {
                    lemma_distinct(before.order@, k - 1, k + 1);
                }
                if prev == Some(t) {
                    assert(relinked[t as int].next == next);
                    assert(relinked[t as int].prev == emptied[t as int].prev);
                    assert(relinked[t as int].elem == emptied[t as int].elem);
                    assert(next != Some(t));
                    assert(self.nodes@[t as int] == relinked[t as int]);
                } else {
                    assert(relinked[t as int] == emptied[t as int]);
                    if next == Some(t) {
                        assert(self.nodes@[t as int].prev == prev);
                        assert(self.nodes@[t as int].next == relinked[t as int].next);
                        assert(self.nodes@[t as int].elem == relinked[t as int].elem);
                    } else {
                        assert(self.nodes@[t as int] == relinked[t as int]);
                    }
                }
            }
            before.lemma_remove(*self, k);
        }
        taken.unwrap()
    }

    /// How the node in slot `t` differs after the node at position `k` was
    /// unlinked: a neighbour now names the node on the other side.
    spec fn unlinked_around(&self, after: Self, k: int, t: usize) -> bool {
        &&& after.nodes@[t as int].elem == self.nodes@[t as int].elem
        &&& after.nodes@[t as int].prev == (if link_after(self.order@, k) == Some(t) {
            link_before(self.order@, k)
        } else {
            self.nodes@[t as int].prev
        })
        &&& after.nodes@[t as int].next == (if link_before(self.order@, k) == Some(t) {
            link_after(self.order@, k)
        } else {
            self.nodes@[t as int].next
        })
    }

    /// Unlinking the node at position `k` keeps the list well formed and
    /// removes position `k` from the view.
    proof fn lemma_remove(&self, after: Self, k: int)
        requires
            self.wf(),
            0 <= k < self.order@.len(),
            after.order@ == self.order@.remove(k),
            after.len == self.len - 1,
            after.nodes@.len() == self.nodes@.len(),
            after.free@ == self.free@.push(self.order@[k]),
            after.nodes@[self.order@[k] as int].elem.is_none(),
            forall|t: usize|
                t < self.nodes@.len() && t != self.order@[k] ==> #[trigger] self.unlinked_around(after, k, t),
            after.head == (if k == 0 {
                link_after(self.order@, k)
            } else {
                self.head
            }),
            after.tail == (if k == self.order@.len() - 1 {
                link_before(self.order@, k)
            } else {
                self.tail
            }),
        ensures
            after.wf(),
            after@ == self@.remove(k),
    {
        let order = after.order@;
        let slot = self.order@[k];
        assert(self.linked_at(k));
        assert forall|i: int| 0 <= i < order.len() implies #[trigger] order[i] != slot && after.linked_at(i) by {
            let oi = if i < k { i } else { i + 1 };
            assert(self.linked_at(oi));
            assert(order[i] == self.order@[oi]);
            lemma_distinct(self.order@, oi, k);
            assert(self.unlinked_around(after, k, order[i]));
            if k + 1 < self.order@.len() && k + 1 != oi {
                lemma_distinct(self.order@, k + 1, oi);
            }
            if k > 0 && k - 1 != oi {
                lemma_distinct(self.order@, k - 1, oi);
            }
        }
        assert(distinct(order)) by {
            reveal(distinct);
            assert forall|i: int, j: int| 0 <= i < order.len() && 0 <= j < order.len() && i != j implies order[i]
                != order[j] by {
                let oi = if i < k { i } else { i + 1 };
                let oj = if j < k { j } else { j + 1 };
                assert(order[i] == self.order@[oi]);
                assert(order[j] == self.order@[oj]);
            }
        }
        assert forall|j: int| 0 <= j < after.free@.len() implies #[trigger] after.vacant_at(j) by {
            if j < self.free@.len() {
                assert(self.vacant_at(j));
                assert(self.unlinked_around(after, k, after.free@[j]));
            }
        }
        assert(distinct(after.free@)) by {
            reveal(distinct);
            assert forall|i: int, j: int| 0 <= i < after.free@.len() && 0 <= j < after.free@.len() && i
                != j implies after.free@[i] != after.free@[j] by {
                if i < self.free@.len() {
                    assert(self.vacant_at(i));
                }
                if j < self.free@.len() {
                    assert(self.vacant_at(j));
                }
            }
        }
        assert forall|i: int| 0 <= i < order.len() implies #[trigger] after@[i] == self@.remove(k)[i] by {
            let oi = if i < k { i } else { i + 1 };
            assert(after.linked_at(i));
            assert(order[i] == self.order@[oi]);
            assert(self.unlinked_around(after, k, order[i]));
        }
        assert(after@ =~= self@.remove(k));
    }
}


/// A doubly-linked list. Its view is the sequence of its elements from head to
/// tail.
pub struct DequeueList<T> {
    chain: Chain<T>,
}

impl<T> View for DequeueList<T> {
    type V = Seq<T>;

    closed spec fn view(&self) -> Seq<T> {
        self.chain@
    }
}

impl<T> DequeueList<T> {
    /// The structural invariant, which every list keeps: `prev` and `next`
    /// mirror each other from head to tail, `head` and `tail` name the two
    /// ends, and the stored length counts the nodes.
    #[verifier::type_invariant]
    pub closed spec fn wf(&self) -> bool {
        self.chain.wf()
    }

    /// Hands out the arena and leaves an empty one in its place.
    fn take(&mut self) -> (chain: Chain<T>)
        ensures
            chain == old(self).chain,
            chain.wf(),
            final(self)@ == Seq::<T>::empty(),
    {
        proof {
            use_type_invariant(&*self);
        }
        let mut chain = Chain::new();
        std::mem::swap(&mut self.chain, &mut chain);
        chain
    }

    /// Takes `chain` as the arena of this list.
    fn put(&mut self, chain: Chain<T>)
        requires
            chain.wf(),
        ensures
            final(self).chain == chain,
    {
        self.chain = chain;
    }

    /// An empty list.
    pub fn new() -> (list: Self)
        ensures
            list@ == Seq::<T>::empty(),
    {
        DequeueList { chain: Chain::new() }
    }

    /// The number of elements.
    pub fn len(&self) -> (n: usize)
        ensures
            n == self@.len(),
    {
        proof {
            use_type_invariant(self);
        }
        self.chain.len
    }

    /// Whether the list holds no element.
    pub fn is_empty(&self) -> (b: bool)
        ensures
            b == (self@.len() == 0),
    {
        proof {
            use_type_invariant(self);
        }
        self.chain.len == 0
    }

    /// Empties the list, one node after the other.
    pub fn clear(&mut self)
        ensures
            final(self)@ == Seq::<T>::empty(),
    {
        while !self.is_empty()
            decreases self@.len(),
        {
            let _ = self.pop_front();
        }
        assert(self@ =~= Seq::<T>::empty());
    }

    /// Puts `elem` in front of the first element.
    pub fn push_front(&mut self, elem: T)
        ensures
            final(self)@ == seq![elem] + old(self)@,
    {
        let mut chain = self.take();
        let next = chain.head;
        let _ = chain.insert_at(Ghost(0), None, next, elem);
        assert(chain@ =~= seq![elem] + old(self)@);
        self.put(chain);
    }

    /// Puts `elem` behind the last element.
    pub fn push_back(&mut self, elem: T)
        ensures
            final(self)@ == old(self)@.push(elem),
    {
        let mut chain = self.take();
        let prev = chain.tail;
        let _ = chain.insert_at(Ghost(chain.order@.len() as int), prev, None, elem);
        assert(chain@ =~= old(self)@.push(elem));
        self.put(chain);
    }

    /// Removes the first element and returns it; `None` on an empty list,
    /// which stays as it is.
    pub fn pop_front(&mut self) -> (popped: Option<T>)
        ensures
            old(self)@.len() == 0 ==> popped.is_none() && final(self)@ == old(self)@,
            old(self)@.len() > 0 ==> popped == Some(old(self)@[0]) && final(self)@ == old(self)@.drop_first(),
    {
        let mut chain = self.take();
        let popped = match chain.head {
            None => None,
            Some(slot) => {
                let elem = chain.unlink(Ghost(0), slot);
                assert(chain@ =~= old(self)@.drop_first());
                Some(elem)
            },
        };
        self.put(chain);
        popped
    }

    /// Removes the last element and returns it; `None` on an empty list,
    /// which stays as it is.
    pub fn pop_back(&mut self) -> (popped: Option<T>)
        ensures
            old(self)@.len() == 0 ==> popped.is_none() && final(self)@ == old(self)@,
            old(self)@.len() > 0 ==> popped == Some(old(self)@.last()) && final(self)@ == old(self)@.drop_last(),
    {
        let mut chain = self.take();
        let popped = match chain.tail {
            None => None,
            Some(slot) => {
                let elem = chain.unlink(Ghost(chain.order@.len() - 1), slot);
                assert(chain@ =~= old(self)@.drop_last());
                Some(elem)
            },
        };
        self.put(chain);
        popped
    }

    /// The first element, if there is one.
    pub fn front(&self) -> (elem: Option<&T>)
        ensures
            self@.len() == 0 ==> elem.is_none(),
            self@.len() > 0 ==> elem == Some(&self@[0]),
    {
        proof {
            use_type_invariant(self);
        }
        match self.chain.head {
            None => None,
            Some(slot) => Some(self.chain.elem_ref(Ghost(0), slot)),
        }
    }

    /// The first element, for writing. What the caller leaves in it is the
    /// first element afterwards; nothing else changes.
    pub fn front_mut(&mut self) -> (elem: Option<&mut T>)
        ensures
            old(self)@.len() == 0 ==> elem.is_none() && final(self)@ == old(self)@,
            old(self)@.len() > 0 ==> elem.is_some() && *elem.unwrap() == old(self)@[0] && final(self)@ == old(self)@.update(
                0,
                *final(elem.unwrap()),
            ),
    {
        proof {
            use_type_invariant(&*self);
        }
        match self.chain.head {
            None => None,
            Some(slot) => self.chain.elem_mut(Ghost(0), slot),
        }
    }

    /// The last element, if there is one.
    pub fn back(&self) -> (elem: Option<&T>)
        ensures
            self@.len() == 0 ==> elem.is_none(),
            self@.len() > 0 ==> elem == Some(&self@.last()),
    {
        proof {
            use_type_invariant(self);
        }
        match self.chain.tail {
            None => None,
            Some(slot) => Some(self.chain.elem_ref(Ghost(self.chain.order@.len() - 1), slot)),
        }
    }

    /// The last element, for writing. What the caller leaves in it is the last
    /// element afterwards; nothing else changes.
    pub fn back_mut(&mut self) -> (elem: Option<&mut T>)
        ensures
            old(self)@.len() == 0 ==> elem.is_none() && final(self)@ == old(self)@,
            old(self)@.len() > 0 ==> elem.is_some() && *elem.unwrap() == old(self)@.last() && final(self)@ == old(self)@.update(
                old(self)@.len() - 1,
                *final(elem.unwrap()),
            ),
    {
        proof {
            use_type_invariant(&*self);
        }
        match self.chain.tail {
            None => None,
            Some(slot) => self.chain.elem_mut(Ghost(self.chain.order@.len() - 1), slot),
        }
    }
}

impl<T> DequeueList<T> {
    /// Appends the elements of `items` behind the last element, in order.
    pub fn extend(&mut self, items: Vec<T>)
        ensures
            final(self)@ == old(self)@ + items@,
    {
        let ghost source = items@;
        let mut items = items;
        let mut chain = self.take();
        let prev = chain.tail;
        let mut next: Option<usize> = None;
        let ghost at = chain.order@.len() as int;
        let ghost mut done = Seq::<T>::empty();
        assert(old(self)@ + done =~= old(self)@);
        assert(items@ + done =~= source);
        while items.len() > 0
            invariant
                chain.wf(),
                0 <= at <= chain.order@.len(),
                at == old(self)@.len(),
                prev == link_before(chain.order@, at),
                next == slot_at(chain.order@, at),
                chain@ == old(self)@ + done,
                items@ + done == source,
            decreases items@.len(),
        {
            let ghost rest = items@;
            let elem = items.pop().unwrap();
            let slot = chain.insert_at(Ghost(at), prev, next, elem);
            next = Some(slot);
            proof {
                assert(chain@ =~= old(self)@ + (seq![elem] + done));
                assert(items@ + (seq![elem] + done) =~= rest + done);
                done = seq![elem] + done;
            }
        }
        assert(done =~= items@ + done);
        self.put(chain);
    }

    /// A list of the elements of `items`, in order.
    pub fn from_iter(items: Vec<T>) -> (list: Self)
        ensures
            list@ == items@,
    {
        let mut list = Self::new();
        list.extend(items);
        assert(Seq::<T>::empty() + items@ =~= items@);
        list
    }
}

impl<T> Default for DequeueList<T> {
    /// An empty list.
    fn default() -> (list: Self)
        ensures
            list@ == Seq::<T>::empty(),
    {
        Self::new()
    }
}

impl<T: Clone> Clone for DequeueList<T> {
    /// A list of clones of the elements, in order.
    fn clone(&self) -> (copy: Self)
        ensures
            copy@.len() == self@.len(),
            forall|i: int| 0 <= i < self@.len() ==> cloned(#[trigger] self@[i], copy@[i]),
    {
        let mut copy = Self::new();
        let mut iter = self.iter();
        while iter.len() > 0
            invariant
                iter.wf(),
                copy@.len() + iter.remaining().len() == self@.len(),
                iter.remaining() == self@.subrange(copy@.len() as int, self@.len() as int),
                forall|i: int| 0 <= i < copy@.len() ==> cloned(#[trigger] self@[i], copy@[i]),
            decreases iter.remaining().len(),
        {
            let ghost at = copy@.len() as int;
            let elem = iter.next().unwrap();
            copy.push_back(elem.clone());
            assert(iter.remaining() =~= self@.subrange(at + 1, self@.len() as int));
        }
        copy
    }
}

/// Whether `link` leads to `slot`.
fn is_slot(link: Option<usize>, slot: usize) -> (same: bool)
    ensures
        same == (link == Some(slot)),
{
    match link {
        Some(s) => s == slot,
        None => false,
    }
}

/// Where a cursor is after a step forward in a list of `len` elements: on the
/// successor, on the ghost position behind the tail, on the head from the
/// ghost position.
pub open spec fn position_after_next(len: nat, position: Option<int>) -> Option<int> {
    match position {
        Some(p) => if p + 1 < len {
            Some(p + 1)
        } else {
            None
        },
        None => if len > 0 {
            Some(0)
        } else {
            None
        },
    }
}

/// Where a cursor is after a step backward in a list of `len` elements: on
/// the predecessor, on the ghost position in front of the head, on the tail
/// from the ghost position.
pub open spec fn position_after_prev(len: nat, position: Option<int>) -> Option<int> {
    match position {
        Some(p) => if p > 0 {
            Some(p - 1)
        } else {
            None
        },
        None => if len > 0 {
            Some(len - 1)
        } else {
            None
        },
    }
}

/// The index that a cursor reports after a step that took it to `position`:
/// none on the ghost position; the index it reported before, counted on by
/// `by`; the position itself where it came from the ghost position.
pub open spec fn index_after_step(index: Option<usize>, position: Option<int>, by: int) -> Option<usize> {
    match (position, index) {
        (None, _) => None,
        (Some(_), Some(i)) => Some((i + by) as usize),
        (Some(p), None) => Some(p as usize),
    }
}

/// The elements in front of a cursor: all of them from the ghost position,
/// which lies behind the tail.
pub open spec fn before_cursor<T>(items: Seq<T>, position: Option<int>) -> Seq<T> {
    match position {
        Some(p) => items.subrange(0, p),
        None => items,
    }
}

/// The element under a cursor and those behind it: none from the ghost
/// position.
pub open spec fn from_cursor<T>(items: Seq<T>, position: Option<int>) -> Seq<T> {
    match position {
        Some(p) => items.subrange(p, items.len() as int),
        None => Seq::empty(),
    }
}

/// The element under a cursor and those in front of it: none from the ghost
/// position, which lies in front of the head.
pub open spec fn upto_cursor<T>(items: Seq<T>, position: Option<int>) -> Seq<T> {
    match position {
        Some(p) => items.subrange(0, p + 1),
        None => Seq::empty(),
    }
}

/// The elements behind a cursor: all of them from the ghost position.
pub open spec fn after_cursor<T>(items: Seq<T>, position: Option<int>) -> Seq<T> {
    match position {
        Some(p) => items.subrange(p + 1, items.len() as int),
        None => items,
    }
}

/// Where a cursor rests: on a node of its list, or on the ghost position
/// between the tail and the head.
pub struct Place {
    current: Option<usize>,
    index: Option<usize>,
    /// The position of the node in `current`, counted from the head.
    at: Ghost<int>,
}

/// A cursor over a list that it holds exclusively for its lifetime. Its view
/// is the view of that list.
pub struct CursorMut<'a, T> {
    /// The list that the cursor is bound to.
    pub list: &'a mut DequeueList<T>,
    /// Where the cursor rests in that list.
    pub place: Place,
}

impl Place {
    /// The position of the node that the cursor rests on, counted from the
    /// head, or `None` on the ghost position.
    pub closed spec fn position(&self) -> Option<int> {
        match self.current {
            None => None,
            Some(_) => Some(self.at@),
        }
    }

    /// The index that the cursor reports.
    pub closed spec fn index(&self) -> Option<usize> {
        self.index
    }

    /// This place lies in `list`: it is the ghost position and has no index, or
    /// it is a node of `list` and has an index that does not exceed the node's
    /// position.
    pub closed spec fn lies_in<T>(&self, list: &DequeueList<T>) -> bool {
        match self.current {
            None => self.index.is_none(),
            Some(slot) => {
                &&& 0 <= self.at@ < list.chain.order@.len()
                &&& list.chain.order@[self.at@] == slot
                &&& self.index.is_some()
                &&& self.index.unwrap() <= self.at@
            },
        }
    }
}

impl<T> DequeueList<T> {
    /// A cursor on this list, resting on the ghost position. What the cursor
    /// leaves behind is the list afterwards.
    pub fn cursor_mut(&mut self) -> (cursor: CursorMut<'_, T>)
        ensures
            cursor.wf(),
            *cursor.list == *old(self),
            cursor.position().is_none(),
            cursor.spec_index().is_none(),
            *final(self) == *final(cursor.list),
    {
        CursorMut { list: self, place: Place { current: None, index: None, at: Ghost(0) } }
    }
}

impl<'a, T> View for CursorMut<'a, T> {
    type V = Seq<T>;

    open spec fn view(&self) -> Seq<T> {
        self.list@
    }
}

impl<'a, T> CursorMut<'a, T> {
    /// The cursor's invariant: its place lies in its list. On a node it
    /// reports an index, which is at most the position of the node; on the
    /// ghost position it reports none.
    pub open spec fn wf(&self) -> bool {
        &&& self.place.lies_in(self.list)
        &&& match self.position() {
            None => self.spec_index().is_none(),
            Some(p) => 0 <= p < self@.len() && self.spec_index().is_some() && self.spec_index().unwrap() <= p,
        }
    }

    /// Where the cursor rests: the position of its node counted from the
    /// head, or `None` on the ghost position.
    pub open spec fn position(&self) -> Option<int> {
        self.place.position()
    }

    /// The index that the cursor reports.
    pub open spec fn spec_index(&self) -> Option<usize> {
        self.place.index()
    }

    /// The index that the cursor reports: `None` on the ghost position.
    #[verifier::when_used_as_spec(spec_index)]
    pub fn index(&self) -> (index: Option<usize>)
        ensures
            index == self.spec_index(),
    {
        self.place.index
    }

    /// Steps forward: from a node to its successor, from the tail to the ghost
    /// position, and from the ghost position to the head. On an empty list
    /// the cursor stays on the ghost position.
    pub fn move_next(&mut self)
        requires
            old(self).wf(),
        ensures
            final(self).wf(),
            *final(self).list == *old(self).list,
            *final(final(self).list) == *final(old(self).list),
            final(self).position() == position_after_next(old(self)@.len(), old(self).position()),
            final(self).spec_index() == index_after_step(old(self).spec_index(), final(self).position(), 1),
    {
        proof {
            use_type_invariant(&*self.list);
        }
        match self.place.current {
            Some(slot) => {
                assert(self.list.chain.linked_at(self.place.at@));
                let next = self.list.chain.nodes[slot].next;
                match (next, self.place.index) {
                    (Some(_), Some(i)) => {
                        self.place.current = next;
                        self.place.index = Some(i + 1);
                        proof {
                            self.place.at@ = self.place.at@ + 1;
                        }
                    },
                    _ => {
                        self.place.current = None;
                        self.place.index = None;
                    },
                }
            },
            None => {
                if self.list.chain.len > 0 {
                    self.place.current = self.list.chain.head;
                    self.place.index = Some(0);
                    proof {
                        self.place.at@ = 0;
                    }
                }
            },
        }
    }

    /// Steps backward: from a node to its predecessor, from the head to the
    /// ghost position, and from the ghost position to the tail. On an empty
    /// list the cursor stays on the ghost position.
    ///
    /// The reported index is counted down with the step, so it must not
    /// already be zero on a node that has a predecessor.
    pub fn move_prev(&mut self)
        requires
            old(self).wf(),
            old(self).spec_index() == Some(0usize) ==> old(self).position() == Some(0int),
        ensures
            final(self).wf(),
            *final(self).list == *old(self).list,
            *final(final(self).list) == *final(old(self).list),
            final(self).position() == position_after_prev(old(self)@.len(), old(self).position()),
            final(self).spec_index() == index_after_step(old(self).spec_index(), final(self).position(), -1),
    {
        proof {
            use_type_invariant(&*self.list);
        }
        match self.place.current {
            Some(slot) => {
                assert(self.list.chain.linked_at(self.place.at@));
                let prev = self.list.chain.nodes[slot].prev;
                match (prev, self.place.index) {
                    (Some(_), Some(i)) => {
                        self.place.current = prev;
                        self.place.index = Some(i - 1);
                        proof {
                            self.place.at@ = self.place.at@ - 1;
                        }
                    },
                    _ => {
                        self.place.current = None;
                        self.place.index = None;
                    },
                }
            },
            None => {
                if self.list.chain.len > 0 {
                    self.place.current = self.list.chain.tail;
                    self.place.index = Some(self.list.chain.len - 1);
                    proof {
                        self.place.at@ = self.list.chain.len - 1;
                    }
                }
            },
        }
    }

    /// The element under the cursor, for writing; `None` on the ghost
    /// position. What the caller leaves in it is that element afterwards;
    /// nothing else changes.
    pub fn current(&mut self) -> (elem: Option<&mut T>)
        requires
            old(self).wf(),
        ensures
            final(self).wf(),
            final(self).place == old(self).place,
            *final(final(self).list) == *final(old(self).list),
            match old(self).position() {
                None => elem.is_none() && *final(self).list == *old(self).list,
                Some(p) => elem.is_some() && *elem.unwrap() == old(self)@[p] && final(self)@ == old(self)@.update(
                    p,
                    *final(elem.unwrap()),
                ),
            },
    {
        proof {
            use_type_invariant(&*self.list);
        }
        match self.place.current {
            None => None,
            Some(slot) => self.list.chain.elem_mut(Ghost(self.place.at@), slot),
        }
    }

    /// The element that follows the cursor, for writing: the head from the
    /// ghost position, `None` behind the tail or on an empty list. The cursor
    /// does not move.
    pub fn peek_next(&mut self) -> (elem: Option<&mut T>)
        requires
            old(self).wf(),
        ensures
            final(self).wf(),
            final(self).place == old(self).place,
            *final(final(self).list) == *final(old(self).list),
            match position_after_next(old(self)@.len(), old(self).position()) {
                None => elem.is_none() && *final(self).list == *old(self).list,
                Some(q) => elem.is_some() && *elem.unwrap() == old(self)@[q] && final(self)@ == old(self)@.update(
                    q,
                    *final(elem.unwrap()),
                ),
            },
    {
        proof {
            use_type_invariant(&*self.list);
        }
        let next = match self.place.current {
            Some(slot) => {
                assert(self.list.chain.linked_at(self.place.at@));
                self.list.chain.nodes[slot].next
            },
            None => self.list.chain.head,
        };
        match next {
            None => None,
            Some(slot) => self.list.chain.elem_mut(
                Ghost(position_after_next(self@.len(), self.position()).unwrap()),
                slot,
            ),
        }
    }

    /// The element that precedes the cursor, for writing: the tail from the
    /// ghost position, `None` in front of the head or on an empty list. The
    /// cursor does not move.
    pub fn peek_prev(&mut self) -> (elem: Option<&mut T>)
        requires
            old(self).wf(),
        ensures
            final(self).wf(),
            final(self).place == old(self).place,
            *final(final(self).list) == *final(old(self).list),
            match position_after_prev(old(self)@.len(), old(self).position()) {
                None => elem.is_none() && *final(self).list == *old(self).list,
                Some(q) => elem.is_some() && *elem.unwrap() == old(self)@[q] && final(self)@ == old(self)@.update(
                    q,
                    *final(elem.unwrap()),
                ),
            },
    {
        proof {
            use_type_invariant(&*self.list);
        }
        let prev = match self.place.current {
            Some(slot) => {
                assert(self.list.chain.linked_at(self.place.at@));
                self.list.chain.nodes[slot].prev
            },
            None => self.list.chain.tail,
        };
        match prev {
            None => None,
            Some(slot) => self.list.chain.elem_mut(
                Ghost(position_after_prev(self@.len(), self.position()).unwrap()),
                slot,
            ),
        }
    }

    /// Removes the node under the cursor and returns its element; the cursor
    /// then rests on the node that followed it, or on the ghost position if
    /// the tail was removed. On the ghost position nothing happens and the
    /// result is `None`. The reported index stays as it was while the cursor
    /// stays on a node.
    pub fn remove_current(&mut self) -> (removed: Option<T>)
        requires
            old(self).wf(),
        ensures
            final(self).wf(),
            *final(final(self).list) == *final(old(self).list),
            match old(self).position() {
                None => removed.is_none() && *final(self).list == *old(self).list && final(self).place == old(self).place,
                Some(p) => {
                    &&& removed == Some(old(self)@[p])
                    &&& final(self)@ == old(self)@.remove(p)
                    &&& final(self).position() == (if p + 1 < old(self)@.len() {
                        Some(p)
                    } else {
                        None
                    })
                    &&& final(self).spec_index() == (if p + 1 < old(self)@.len() {
                        old(self).spec_index()
                    } else {
                        None
                    })
                },
            },
    {
        if self.list.is_empty() {
            return None;
        }
        match self.place.current {
            None => None,
            Some(slot) => {
                let mut chain = self.list.take();
                assert(chain.linked_at(self.place.at@));
                let next = chain.nodes[slot].next;
                let elem = chain.unlink(Ghost(self.place.at@), slot);
                self.list.put(chain);
                self.place.current = next;
                if next.is_none() {
                    self.place.index = None;
                }
                Some(elem)
            },
        }
    }

    /// Takes the whole list out of the cursor's hands and leaves an empty one
    /// behind. Only a cursor on the ghost position does this.
    fn take_all(&mut self) -> (taken: DequeueList<T>)
        requires
            old(self).wf(),
            old(self).position().is_none(),
        ensures
            final(self).wf(),
            *final(final(self).list) == *final(old(self).list),
            taken == *old(self).list,
            final(self)@ == Seq::<T>::empty(),
            final(self).place == old(self).place,
    {
        let mut taken = DequeueList::new();
        std::mem::swap(&mut *self.list, &mut taken);
        taken
    }

    /// Cuts the list in front of the cursor. The elements in front of it are
    /// returned as a list of their own; the cursor keeps the rest and rests on
    /// its head, with index 0. From the ghost position the whole list is
    /// returned and the cursor is left with an empty one.
    pub fn split_before(&mut self) -> (front: DequeueList<T>)
        requires
            old(self).wf(),
        ensures
            final(self).wf(),
            *final(final(self).list) == *final(old(self).list),
            front@ == before_cursor(old(self)@, old(self).position()),
            final(self)@ == from_cursor(old(self)@, old(self).position()),
            match old(self).position() {
                None => final(self).position().is_none() && final(self).spec_index().is_none(),
                Some(_) => final(self).position() == Some(0int) && final(self).spec_index() == Some(0usize),
            },
    {
        match self.place.current {
            None => self.take_all(),
            Some(slot) => {
                let mut front = DequeueList::new();
                let mut chain = self.list.take();
                let ghost mut at = self.place.at@;
                while !is_slot(chain.head, slot)
                    invariant
                        chain.wf(),
                        0 <= at < chain.order@.len(),
                        chain.order@[at] == slot,
                        front@ + chain@ == old(self)@,
                        front@.len() + at == old(self).place.at@,
                    decreases at,
                {
                    let ghost rest = chain@;
                    let ghost order = chain.order@;
                    let head = chain.head.unwrap();
                    let elem = chain.unlink(Ghost(0), head);
                    proof {
                        assert(order[0] != order[at]);
                        assert(chain.order@[at - 1] == order[at]);
                        at = at - 1;
                        assert(front@.push(elem) + chain@ =~= front@ + rest);
                    }
                    front.push_back(elem);
                }
                proof {
                    let p = old(self).place.at@;
                    if at != 0 {
                        lemma_distinct(chain.order@, 0, at);
                    }
                    assert(front@ =~= (front@ + chain@).subrange(0, p));
                    assert(chain@ =~= (front@ + chain@).subrange(p, old(self)@.len() as int));
                }
                self.list.put(chain);
                self.place.index = Some(0);
                proof {
                    self.place.at@ = 0;
                }
                front
            },
        }
    }

    /// Cuts the list behind the cursor. The elements behind it are returned
    /// as a list of their own; the cursor keeps the rest and stays on its
    /// node, now the tail, with the index it reported. From the ghost position
    /// the whole list is returned and the cursor is left with an empty one.
    pub fn split_after(&mut self) -> (back: DequeueList<T>)
        requires
            old(self).wf(),
        ensures
            final(self).wf(),
            *final(final(self).list) == *final(old(self).list),
            final(self)@ == upto_cursor(old(self)@, old(self).position()),
            back@ == after_cursor(old(self)@, old(self).position()),
            final(self).position() == old(self).position(),
            final(self).spec_index() == old(self).spec_index(),
    {
        match self.place.current {
            None => self.take_all(),
            Some(slot) => {
                let mut back = DequeueList::new();
                let mut chain = self.list.take();
                let ghost at = self.place.at@;
                while !is_slot(chain.tail, slot)
                    invariant
                        chain.wf(),
                        0 <= at < chain.order@.len(),
                        chain.order@[at] == slot,
                        chain@ + back@ == old(self)@,
                    decreases chain@.len(),
                {
                    let ghost rest = chain@;
                    let ghost order = chain.order@;
                    let tail = chain.tail.unwrap();
                    let elem = chain.unlink(Ghost(order.len() - 1), tail);
                    proof {
                        assert(order[order.len() - 1] != order[at]);
                        assert(chain.order@[at] == order[at]);
                        assert(chain@ + (seq![elem] + back@) =~= rest + back@);
                    }
                    back.push_front(elem);
                }
                proof {
                    if at != chain.order@.len() - 1 {
                        lemma_distinct(chain.order@, chain.order@.len() - 1, at);
                    }
                    assert(chain@.len() == at + 1);
                    assert(chain@ =~= (chain@ + back@).subrange(0, at + 1));
                    assert(back@ =~= (chain@ + back@).subrange(at + 1, old(self)@.len() as int));
                }
                self.list.put(chain);
                back
            },
        }
    }

    /// Moves every element of `input` into the list, in order, directly in
    /// front of the cursor; from the ghost position, behind the tail. The
    /// cursor stays on its node, which is then further from the head, and the
    /// reported index stays as it was.
    pub fn splice_before(&mut self, input: DequeueList<T>)
        requires
            old(self).wf(),
        ensures
            final(self).wf(),
            *final(final(self).list) == *final(old(self).list),
            final(self).spec_index() == old(self).spec_index(),
            final(self)@ == before_cursor(old(self)@, old(self).position()) + input@ + from_cursor(
                old(self)@,
                old(self).position(),
            ),
            final(self).position() == (match old(self).position() {
                None => None,
                Some(p) => Some(p + input@.len()),
            }),
    {
        let ghost donor = input@;
        let ghost before = self@;
        let mut input = input;
        proof {
            use_type_invariant(&*self.list);
        }
        if input.is_empty() {
            proof {
                assert(before + donor =~= before);
                if self.place.current.is_some() {
                    let p = self.place.at@;
                    assert(before.subrange(0, p) + donor + before.subrange(p, before.len() as int) =~= before);
                }
            }
            return ;
        }
        if self.list.is_empty() {
            *self.list = input;
            assert(before + donor =~= donor);
            return ;
        }
        let mut chain = self.list.take();
        match self.place.current {
            Some(slot) => {
                let ghost front = before.subrange(0, self.place.at@);
                let ghost back = before.subrange(self.place.at@, before.len() as int);
                let ghost mut done = Seq::<T>::empty();
                let ghost mut at = self.place.at@;
                assert(front + done + back =~= before);
                while !input.is_empty()
                    invariant
                        chain.wf(),
                        0 <= at < chain.order@.len(),
                        chain.order@[at] == slot,
                        chain@ == front + done + back,
                        done + input@ == donor,
                        at == front.len() + done.len(),
                    decreases input@.len(),
                {
                    let ghost rest = input@;
                    let elem = input.pop_front().unwrap();
                    assert(chain.linked_at(at));
                    let prev = chain.nodes[slot].prev;
                    let _ = chain.insert_at(Ghost(at), prev, Some(slot), elem);
                    proof {
                        assert(chain.order@[at + 1] == slot);
                        assert(chain@ =~= front + done.push(elem) + back);
                        assert(done.push(elem) + input@ =~= done + rest);
                        done = done.push(elem);
                        at = at + 1;
                    }
                }
                proof {
                    assert(done =~= done + input@);
                    self.place.at@ = at;
                }
            },
            None => {
                let ghost mut done = Seq::<T>::empty();
                assert(before + done =~= before);
                while !input.is_empty()
                    invariant
                        chain.wf(),
                        chain@ == before + done,
                        done + input@ == donor,
                    decreases input@.len(),
                {
                    let ghost rest = input@;
                    let elem = input.pop_front().unwrap();
                    let prev = chain.tail;
                    let _ = chain.insert_at(Ghost(chain.order@.len() as int), prev, None, elem);
                    proof {
                        assert(chain@ =~= before + done.push(elem));
                        assert(done.push(elem) + input@ =~= done + rest);
                        done = done.push(elem);
                    }
                }
                assert(done =~= done + input@);
            },
        }
        self.list.put(chain);
    }

    /// Moves every element of `input` into the list, in order, directly
    /// behind the cursor; from the ghost position, in front of the head. The
    /// cursor stays on its node and the reported index stays as it was.
    pub fn splice_after(&mut self, input: DequeueList<T>)
        requires
            old(self).wf(),
        ensures
            final(self).wf(),
            *final(final(self).list) == *final(old(self).list),
            final(self).spec_index() == old(self).spec_index(),
            final(self).position() == old(self).position(),
            final(self)@ == upto_cursor(old(self)@, old(self).position()) + input@ + after_cursor(
                old(self)@,
                old(self).position(),
            ),
    {
        let ghost donor = input@;
        let ghost before = self@;
        let mut input = input;
        proof {
            use_type_invariant(&*self.list);
        }
        if input.is_empty() {
            proof {
                assert(donor + before =~= before);
                if self.place.current.is_some() {
                    let p = self.place.at@;
                    assert(before.subrange(0, p + 1) + donor + before.subrange(p + 1, before.len() as int)
                        =~= before);
                }
            }
            return ;
        }
        if self.list.is_empty() {
            *self.list = input;
            assert(donor + before =~= donor);
            return ;
        }
        let mut chain = self.list.take();
        match self.place.current {
            Some(slot) => {
                let ghost at = self.place.at@;
                let ghost front = before.subrange(0, at + 1);
                let ghost back = before.subrange(at + 1, before.len() as int);
                let ghost mut done = Seq::<T>::empty();
                assert(front + done + back =~= before);
                while !input.is_empty()
                    invariant
                        chain.wf(),
                        0 <= at < chain.order@.len(),
                        chain.order@[at] == slot,
                        chain@ == front + done + back,
                        input@ + done == donor,
                        at + 1 == front.len(),
                    decreases input@.len(),
                {
                    let ghost rest = input@;
                    let elem = input.pop_back().unwrap();
                    assert(chain.linked_at(at));
                    let next = chain.nodes[slot].next;
                    let _ = chain.insert_at(Ghost(at + 1), Some(slot), next, elem);
                    proof {
                        assert(chain.order@[at] == slot);
                        assert(chain@ =~= front + (seq![elem] + done) + back);
                        assert(input@ + (seq![elem] + done) =~= rest + done);
                        done = seq![elem] + done;
                    }
                }
                assert(done =~= input@ + done);
            },
            None => {
                let ghost mut done = Seq::<T>::empty();
                assert(done + before =~= before);
                while !input.is_empty()
                    invariant
                        chain.wf(),
                        chain@ == done + before,
                        input@ + done == donor,
                    decreases input@.len(),
                {
                    let ghost rest = input@;
                    let elem = input.pop_back().unwrap();
                    let next = chain.head;
                    let _ = chain.insert_at(Ghost(0), None, next, elem);
                    proof {
                        assert(chain@ =~= (seq![elem] + done) + before);
                        assert(input@ + (seq![elem] + done) =~= rest + done);
                        done = seq![elem] + done;
                    }
                }
                assert(done =~= input@ + done);
            },
        }
        self.list.put(chain);
    }
}

/// The stretch of a list that an iterator has not yielded yet.
pub struct Span {
    head: Option<usize>,
    tail: Option<usize>,
    len: usize,
    /// The position of `head`, counted from the head of the list.
    first: Ghost<int>,
}

impl Span {
    /// The position in the list of the next element from the front.
    pub closed spec fn first(&self) -> int {
        self.first@
    }

    /// The number of elements not yet yielded.
    pub closed spec fn count(&self) -> nat {
        self.len as nat
    }

    /// This stretch lies in `list`, and while it is not empty its two ends
    /// are the nodes at its first and last position.
    pub closed spec fn lies_in<T>(&self, list: &DequeueList<T>) -> bool {
        &&& 0 <= self.first@
        &&& self.first@ + self.len <= list.chain.order@.len()
        &&& self.len > 0 ==> self.head == Some(list.chain.order@[self.first@]) && self.tail == Some(
            list.chain.order@[self.first@ + self.len - 1],
        )
    }

    /// The whole of `list`.
    fn whole<T>(list: &DequeueList<T>) -> (span: Span)
        ensures
            span.lies_in(list),
            span.first@ == 0,
            span.len == list@.len(),
    {
        proof {
            use_type_invariant(list);
        }
        Span { head: list.chain.head, tail: list.chain.tail, len: list.chain.len, first: Ghost(0) }
    }

    /// Steps over the first node of the stretch and returns its slot.
    fn advance<T>(&mut self, list: &DequeueList<T>) -> (slot: usize)
        requires
            old(self).lies_in(list),
            old(self).len > 0,
        ensures
            final(self).lies_in(list),
            slot == list.chain.order@[old(self).first@],
            final(self).first@ == old(self).first@ + 1,
            final(self).len == old(self).len - 1,
    {
        proof {
            use_type_invariant(list);
        }
        let slot = self.head.unwrap();
        assert(list.chain.linked_at(self.first@));
        self.len = self.len - 1;
        self.head = list.chain.nodes[slot].next;
        proof {
            self.first@ = self.first@ + 1;
        }
        slot
    }

    /// Steps back over the last node of the stretch and returns its slot.
    fn retreat<T>(&mut self, list: &DequeueList<T>) -> (slot: usize)
        requires
            old(self).lies_in(list),
            old(self).len > 0,
        ensures
            final(self).lies_in(list),
            slot == list.chain.order@[old(self).first@ + old(self).len - 1],
            final(self).first@ == old(self).first@,
            final(self).len == old(self).len - 1,
    {
        proof {
            use_type_invariant(list);
        }
        let slot = self.tail.unwrap();
        assert(list.chain.linked_at(self.first@ + self.len - 1));
        self.len = self.len - 1;
        self.tail = list.chain.nodes[slot].prev;
        slot
    }
}

/// An iterator over the elements of a list, from either end.
pub struct Iter<'a, T> {
    list: &'a DequeueList<T>,
    span: Span,
}

/// An iterator over the elements of a list, from either end, that lets the
/// caller write to the element it has just yielded.
pub struct IterMut<'a, T> {
    /// The list that the iterator holds for its lifetime.
    pub list: &'a mut DequeueList<T>,
    /// What the iterator has not yielded yet.
    pub span: Span,
}

/// An iterator that owns its list and takes the elements out of it, from
/// either end.
pub struct IntoIter<T>(DequeueList<T>);

impl<T> DequeueList<T> {
    /// An iterator over the whole list.
    pub fn iter(&self) -> (iter: Iter<'_, T>)
        ensures
            iter.wf(),
            iter.remaining() == self@,
    {
        let iter = Iter { list: self, span: Span::whole(self) };
        assert(iter.remaining() =~= self@);
        iter
    }

    /// An iterator over the whole list that lets the caller write to the
    /// elements. What the iterator leaves behind is the list afterwards.
    pub fn iter_mut(&mut self) -> (iter: IterMut<'_, T>)
        ensures
            iter.wf(),
            *iter.list == *old(self),
            iter.remaining() == old(self)@,
            iter.span.first() == 0,
            iter.span.count() == old(self)@.len(),
            *final(self) == *final(iter.list),
    {
        let span = Span::whole(&*self);
        let iter = IterMut { list: self, span };
        assert(iter.remaining() =~= old(self)@);
        iter
    }

    /// An iterator that takes the elements out of the list.
    pub fn into_iter(self) -> (iter: IntoIter<T>)
        ensures
            iter.remaining() == self@,
    {
        IntoIter(self)
    }
}

impl<'a, T> Iter<'a, T> {
    /// The iterator's invariant: what is left lies in its list.
    pub closed spec fn wf(&self) -> bool {
        self.span.lies_in(self.list)
    }

    /// The elements not yet yielded, in list order.
    pub closed spec fn remaining(&self) -> Seq<T> {
        self.list@.subrange(self.span.first@, self.span.first@ + self.span.len)
    }

    /// Yields the first of the remaining elements; `None` when none is left.
    pub fn next(&mut self) -> (elem: Option<&'a T>)
        requires
            old(self).wf(),
        ensures
            final(self).wf(),
            old(self).remaining().len() == 0 ==> elem.is_none() && final(self).remaining() == old(self).remaining(),
            old(self).remaining().len() > 0 ==> elem == Some(&old(self).remaining()[0]) && final(self).remaining()
                == old(self).remaining().drop_first(),
    {
        let list = self.list;
        proof {
            use_type_invariant(list);
        }
        if self.span.len == 0 {
            return None;
        }
        let slot = self.span.advance(list);
        assert(self.remaining() =~= old(self).remaining().drop_first());
        Some(list.chain.elem_ref(Ghost(old(self).span.first@), slot))
    }

    /// Yields the last of the remaining elements; `None` when none is left.
    pub fn next_back(&mut self) -> (elem: Option<&'a T>)
        requires
            old(self).wf(),
        ensures
            final(self).wf(),
            old(self).remaining().len() == 0 ==> elem.is_none() && final(self).remaining() == old(self).remaining(),
            old(self).remaining().len() > 0 ==> elem == Some(&old(self).remaining().last()) && final(self).remaining()
                == old(self).remaining().drop_last(),
    {
        let list = self.list;
        proof {
            use_type_invariant(list);
        }
        if self.span.len == 0 {
            return None;
        }
        let slot = self.span.retreat(list);
        assert(self.remaining() =~= old(self).remaining().drop_last());
        Some(list.chain.elem_ref(Ghost(old(self).span.first@ + old(self).span.len - 1), slot))
    }

    /// The number of remaining elements, as a lower and an upper bound.
    pub fn size_hint(&self) -> (hint: (usize, Option<usize>))
        requires
            self.wf(),
        ensures
            hint.0 == self.remaining().len(),
            hint.1 == Some(hint.0),
    {
        proof {
            use_type_invariant(self.list);
        }
        (self.span.len, Some(self.span.len))
    }

    /// The number of remaining elements.
    pub fn len(&self) -> (n: usize)
        requires
            self.wf(),
        ensures
            n == self.remaining().len(),
    {
        proof {
            use_type_invariant(self.list);
        }
        self.span.len
    }
}

impl<'a, T> IterMut<'a, T> {
    /// The iterator's invariant: what is left lies in its list.
    pub open spec fn wf(&self) -> bool {
        &&& self.span.lies_in(self.list)
        &&& 0 <= self.span.first() <= self.span.first() + self.span.count() <= self.list@.len()
    }

    /// The elements not yet yielded, in list order.
    pub open spec fn remaining(&self) -> Seq<T> {
        self.list@.subrange(self.span.first(), self.span.first() + self.span.count())
    }

    /// Yields the first of the remaining elements for writing; `None` when
    /// none is left. What the caller leaves in it is that element of the list
    /// afterwards; nothing else changes.
    pub fn next(&mut self) -> (elem: Option<&mut T>)
        requires
            old(self).wf(),
        ensures
            final(self).wf(),
            *final(final(self).list) == *final(old(self).list),
            old(self).remaining().len() == 0 ==> elem.is_none() && *final(self).list == *old(self).list && final(self).span
                == old(self).span,
            old(self).remaining().len() > 0 ==> {
                &&& elem.is_some()
                &&& *elem.unwrap() == old(self).remaining()[0]
                &&& final(self).list@ == old(self).list@.update(old(self).span.first(), *final(elem.unwrap()))
                &&& final(self).remaining() == old(self).remaining().drop_first()
                &&& final(self).span.first() == old(self).span.first() + 1
                &&& final(self).span.count() == old(self).span.count() - 1
            },
    {
        proof {
            use_type_invariant(&*self.list);
        }
        if self.span.len == 0 {
            return None;
        }
        let slot = self.span.advance(&*self.list);
        proof {
            let before = old(self).list@;
            let first = old(self).span.first@;
            let len = old(self).span.len as int;
            assert forall|v: T| #[trigger]
                before.update(first, v).subrange(first + 1, first + len) == before.subrange(
                    first,
                    first + len,
                ).drop_first() by {
                assert(before.update(first, v).subrange(first + 1, first + len) =~= before.subrange(
                    first,
                    first + len,
                ).drop_first());
            }
        }
        self.list.chain.elem_mut(Ghost(old(self).span.first@), slot)
    }

    /// Yields the last of the remaining elements for writing; `None` when
    /// none is left. What the caller leaves in it is that element of the list
    /// afterwards; nothing else changes.
    pub fn next_back(&mut self) -> (elem: Option<&mut T>)
        requires
            old(self).wf(),
        ensures
            final(self).wf(),
            *final(final(self).list) == *final(old(self).list),
            old(self).remaining().len() == 0 ==> elem.is_none() && *final(self).list == *old(self).list && final(self).span
                == old(self).span,
            old(self).remaining().len() > 0 ==> {
                &&& elem.is_some()
                &&& *elem.unwrap() == old(self).remaining().last()
                &&& final(self).list@ == old(self).list@.update(
                    old(self).span.first() + old(self).span.count() - 1,
                    *final(elem.unwrap()),
                )
                &&& final(self).remaining() == old(self).remaining().drop_last()
                &&& final(self).span.first() == old(self).span.first()
                &&& final(self).span.count() == old(self).span.count() - 1
            },
    {
        proof {
            use_type_invariant(&*self.list);
        }
        if self.span.len == 0 {
            return None;
        }
        let slot = self.span.retreat(&*self.list);
        proof {
            let before = old(self).list@;
            let first = old(self).span.first@;
            let len = old(self).span.len as int;
            assert forall|v: T| #[trigger]
                before.update(first + len - 1, v).subrange(first, first + len - 1) == before.subrange(
                    first,
                    first + len,
                ).drop_last() by {
                assert(before.update(first + len - 1, v).subrange(first, first + len - 1) =~= before.subrange(
                    first,
                    first + len,
                ).drop_last());
            }
        }
        self.list.chain.elem_mut(Ghost(old(self).span.first@ + old(self).span.len - 1), slot)
    }

    /// The number of remaining elements, as a lower and an upper bound.
    pub fn size_hint(&self) -> (hint: (usize, Option<usize>))
        requires
            self.wf(),
        ensures
            hint.0 == self.remaining().len(),
            hint.1 == Some(hint.0),
    {
        proof {
            use_type_invariant(&*self.list);
        }
        (self.span.len, Some(self.span.len))
    }

    /// The number of remaining elements.
    pub fn len(&self) -> (n: usize)
        requires
            self.wf(),
        ensures
            n == self.remaining().len(),
    {
        proof {
            use_type_invariant(&*self.list);
        }
        self.span.len
    }
}

impl<T> IntoIter<T> {
    /// The elements not yet yielded, in list order.
    pub closed spec fn remaining(&self) -> Seq<T> {
        self.0@
    }

    /// Takes the first of the remaining elements; `None` when none is left.
    pub fn next(&mut self) -> (elem: Option<T>)
        ensures
            old(self).remaining().len() == 0 ==> elem.is_none() && final(self).remaining() == old(self).remaining(),
            old(self).remaining().len() > 0 ==> elem == Some(old(self).remaining()[0]) && final(self).remaining()
                == old(self).remaining().drop_first(),
    {
        self.0.pop_front()
    }

    /// Takes the last of the remaining elements; `None` when none is left.
    pub fn next_back(&mut self) -> (elem: Option<T>)
        ensures
            old(self).remaining().len() == 0 ==> elem.is_none() && final(self).remaining() == old(self).remaining(),
            old(self).remaining().len() > 0 ==> elem == Some(old(self).remaining().last()) && final(self).remaining()
                == old(self).remaining().drop_last(),
    {
        self.0.pop_back()
    }

    /// The number of remaining elements, as a lower and an upper bound.
    pub fn size_hint(&self) -> (hint: (usize, Option<usize>))
        ensures
            hint.0 == self.remaining().len(),
            hint.1 == Some(hint.0),
    {
        let n = self.0.len();
        (n, Some(n))
    }

    /// The number of remaining elements.
    pub fn len(&self) -> (n: usize)
        ensures
            n == self.remaining().len(),
    {
        self.0.len()
    }
}

} // verus!
