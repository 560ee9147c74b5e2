use crate::list::model::{
    lemma_inv_empty, lemma_inv_node, lemma_inv_off_ring, lemma_inv_ring_node, lemma_inv_sentinel,
    ring_inv, ring_ok, slot_at, view_of,
};
use vstd::prelude::*;

pub mod cursor;
pub mod iterator;
pub(crate) mod model;
pub mod order;
pub(crate) mod ring;

pub mod algorithms;

verus! {

/// Slot of the sentinel in every arena.
pub(crate) const SENTINEL: usize = 0;

/// One slot of the arena: the two ring links and, for a live element node,
/// its element. The sentinel and the free slots hold no element.
pub(crate) struct Node<T> {
    pub(crate) next: usize,
    pub(crate) prev: usize,
    pub(crate) element: Option<T>,
}

/// A doubly-linked list with constant-time insertion and removal at a cursor.
///
/// The list owns an arena of nodes. The element nodes and the sentinel form
/// a ring: each node names the slot of the node that follows it and of the
/// node that precedes it. The view of the list is the sequence of its
/// elements in ring order, from the node after the sentinel to the node
/// before it.
pub struct List<T> {
    /// The arena. Slot `0` is the sentinel.
    pub(crate) nodes: Vec<Node<T>>,
    /// The slots that hold no element and are not linked into the ring.
    pub(crate) free: Vec<usize>,
    /// The number of elements.
    pub(crate) len: usize,
    /// The slots of the element nodes, in ring order from the front.
    pub(crate) ring: Ghost<Seq<usize>>,
}

/// `list` with the elements of `other` put in before position `at`.
pub open spec fn spliced<T>(list: Seq<T>, at: int, other: Seq<T>) -> Seq<T> {
    list.subrange(0, at) + other + list.subrange(at, list.len() as int)
}

/// Splitting and splicing undo each other: when a list is split at a
/// position, splicing the part that has left into the part that has stayed,
/// at the place of the cut, gives the list as it was. This holds of the
/// split that takes the elements after the cut, as `split_off` and
/// `CursorMut::split` do, and of the one that takes the elements before it,
/// as `CursorMut::split_before` does.
pub proof fn lemma_split_splice_inverse<T>(list: Seq<T>, at: int)
    requires
        0 <= at <= list.len(),
    ensures
        spliced(list.subrange(0, at), at, list.subrange(at, list.len() as int)) == list,
        spliced(list.subrange(at, list.len() as int), 0, list.subrange(0, at)) == list,
{
    let head = list.subrange(0, at);
    let tail = list.subrange(at, list.len() as int);
    assert(spliced(head, at, tail) =~= list);
    assert(spliced(tail, 0, head) =~= list);
}

impl<T> View for List<T> {
    type V = Seq<T>;

    /// The elements in order from front to back.
    closed spec fn view(&self) -> Seq<T> {
        view_of(self.nodes@, self.ring@)
    }
}

// The ring model.
impl<T> List<T> {
    /// The slots of the element nodes in ring order.
    pub(crate) open spec fn ring(&self) -> Seq<usize> {
        self.ring@
    }

    /// The slot at position `i`: an element node for `0 <= i < len`, the
    /// sentinel at `len` and at `-1`.
    pub(crate) open spec fn slot(&self, i: int) -> usize {
        slot_at(self.ring@, i)
    }

    /// The number of slots in the arena.
    pub(crate) open spec fn slots(&self) -> nat {
        self.nodes@.len()
    }

    /// The list is well formed: its nodes form a ring around the sentinel
    /// and its length counts the element nodes.
    pub closed spec fn wf(&self) -> bool {
        &&& ring_ok(self.nodes@, self.ring@, self.free@)
        &&& self.len == self.ring@.len()
    }

    /// The list is well formed but for the run `chain`, which is taken out
    /// of its ring and stands in its arena.
    pub(crate) open spec fn wf_without(&self, chain: Seq<usize>) -> bool {
        &&& ring_inv(self.nodes@, self.ring@, self.free@, chain)
        &&& self.len == self.ring@.len()
    }

    /// What each slot of the arena holds: an element in the slot of an
    /// element node, and nothing in the others. An operation that leaves
    /// this as it is makes no node and moves no element from its node.
    pub closed spec fn payload(&self) -> Seq<Option<T>> {
        Seq::new(self.nodes@.len(), |k: int| self.nodes@[k].element)
    }

    /// What the invariant says of the node at position `i`.
    pub(crate) proof fn lemma_node(&self, i: int)
        requires
            self.wf(),
            0 <= i < self@.len(),
        ensures
            0 < self.slot(i) < self.slots(),
            self.slot(i) == self.ring()[i],
            self.nodes@[self.slot(i) as int].element == Some(self@[i]),
            self.nodes@[self.slot(i) as int].next == self.slot(i + 1),
            self.nodes@[self.slot(i) as int].prev == self.slot(i - 1),
    {
        lemma_inv_node(self.nodes@, self.ring@, self.free@, i);
    }

    /// What the invariant says of the slot at position `i`, while the run
    /// `chain` is taken out: the sentinel for `i` before the front or past
    /// the back.
    pub(crate) proof fn lemma_ring_node(&self, chain: Seq<usize>, i: int)
        requires
            self.wf_without(chain),
            -1 <= i <= self.ring().len(),
        ensures
            self.slot(i) < self.slots(),
            self.ring().len() + chain.len() < self.slots(),
            self.nodes@[self.slot(i) as int].next == self.slot(
                if i == self.ring().len() {
                    0
                } else {
                    i + 1
                },
            ),
            self.nodes@[self.slot(i) as int].prev == self.slot(
                if i == -1 {
                    self.ring().len() - 1
                } else {
                    i - 1
                },
            ),
            !chain.contains(self.slot(i)),
    {
        lemma_inv_ring_node(self.nodes@, self.ring@, self.free@, chain, i);
    }

    /// What the invariant says of the sentinel.
    pub(crate) proof fn lemma_sentinel(&self)
        requires
            self.wf(),
        ensures
            self@.len() < self.slots() <= usize::MAX,
            self.len == self@.len(),
            self.slot(-1) == SENTINEL,
            self.slot(self@.len() as int) == SENTINEL,
            self.nodes@[0].element is None,
            self.nodes@[0].next == self.slot(0),
            self.nodes@[0].prev == self.slot(self@.len() - 1),
            self.ring().no_duplicates(),
            !self.ring().contains(SENTINEL),
    {
        lemma_inv_sentinel(self.nodes@, self.ring@, self.free@);
        lemma_inv_off_ring(self.nodes@, self.ring@, self.free@, SENTINEL);
        vstd::std_specs::vec::axiom_spec_len(&self.nodes);
    }
}

// Construction and size.
impl<T> List<T> {
    /// Creates an empty list: a sentinel linked to itself.
    pub fn new() -> (list: Self)
        ensures
            list.wf(),
            list@ == Seq::<T>::empty(),
    {
        let mut nodes = Vec::new();
        nodes.push(Node { next: SENTINEL, prev: SENTINEL, element: None });
        let list = List { nodes, free: Vec::new(), len: 0, ring: Ghost(Seq::empty()) };
        proof {
            lemma_inv_empty(list.nodes@);
            assert(list@ =~= Seq::<T>::empty());
        }
        list
    }

    /// Returns `true` if the list holds no element.
    pub fn is_empty(&self) -> (r: bool)
        requires
            self.wf(),
        ensures
            r == (self@.len() == 0),
    {
        proof {
            self.lemma_sentinel();
            if self@.len() > 0 {
                self.lemma_node(0);
            }
        }
        self.nodes[SENTINEL].next == SENTINEL
    }

    /// Returns the number of elements.
    pub fn len(&self) -> (n: usize)
        requires
            self.wf(),
        ensures
            n == self@.len(),
    {
        self.len
    }
}

// Cursors.
impl<T> List<T> {
    /// Provides a cursor at the position `at`. Position `len` is the
    /// sentinel.
    pub fn cursor(&self, at: usize) -> (c: cursor::Cursor<'_, T>)
        requires
            self.wf(),
            at <= self@.len(),
        ensures
            c.wf(),
            c.list() == self,
            c.position() == at,
    {
        let mut cursor = self.cursor_start();
        let _ = cursor.seek_to(at);
        cursor
    }

    /// Provides a cursor at the first element, or at the sentinel if the
    /// list is empty.
    pub fn cursor_start(&self) -> (c: cursor::Cursor<'_, T>)
        requires
            self.wf(),
        ensures
            c.wf(),
            c.list() == self,
            c.position() == 0,
    {
        cursor::Cursor::new(self, self.front_node(), 0)
    }

    /// Provides a cursor at the sentinel.
    pub fn cursor_end(&self) -> (c: cursor::Cursor<'_, T>)
        requires
            self.wf(),
        ensures
            c.wf(),
            c.list() == self,
            c.position() == self@.len(),
    {
        proof {
            self.lemma_sentinel();
        }
        cursor::Cursor::new(self, self.sentinel(), self.len)
    }

    /// Provides a cursor with editing operations at the position `at`.
    /// Position `len` is the sentinel.
    pub fn cursor_mut(&mut self, at: usize) -> (c: cursor::CursorMut<'_, T>)
        requires
            old(self).wf(),
            at <= old(self)@.len(),
        ensures
            c.wf(),
            *c.list() == *old(self),
            *final(c.list()) == *final(self),
            c.position() == at,
    {
        let mut cursor = self.cursor_start_mut();
        let _ = cursor.seek_to(at);
        cursor
    }

    /// Provides a cursor with editing operations at the first element, or
    /// at the sentinel if the list is empty.
    pub fn cursor_start_mut(&mut self) -> (c: cursor::CursorMut<'_, T>)
        requires
            old(self).wf(),
        ensures
            c.wf(),
            *c.list() == *old(self),
            *final(c.list()) == *final(self),
            c.position() == 0,
    {
        let front = self.front_node();
        cursor::CursorMut::new(self, front, 0)
    }

    /// Provides a cursor with editing operations at the sentinel.
    pub fn cursor_end_mut(&mut self) -> (c: cursor::CursorMut<'_, T>)
        requires
            old(self).wf(),
        ensures
            c.wf(),
            *c.list() == *old(self),
            *final(c.list()) == *final(self),
            c.position() == old(self)@.len(),
    {
        let sentinel = self.sentinel();
        let len = self.len;
        proof {
            self.lemma_sentinel();
        }
        cursor::CursorMut::new(self, sentinel, len)
    }
}

// Whole-list operations.
impl<T> List<T> {
    /// Removes all elements from the list.
    pub fn clear(&mut self)
        requires
            old(self).wf(),
        ensures
            final(self).wf(),
            final(self)@ == Seq::<T>::empty(),
    {
        loop
            invariant
                self.wf(),
            ensures
                self@.len() == 0,
            decreases self@.len(),
        {
            if self.pop_front().is_none() {
                break ;
            }
        }
        assert(self@ =~= Seq::<T>::empty());
    }

    /// Returns the first element, or `None` if the list is empty.
    pub fn front(&self) -> (r: Option<&T>)
        requires
            self.wf(),
        ensures
            r == (if self@.len() > 0 {
                Some(&self@[0])
            } else {
                None
            }),
    {
        self.cursor_start().current()
    }

    /// Returns the first element, to be changed in place, or `None` if the
    /// list is empty.
    pub fn front_mut(&mut self) -> (r: Option<&mut T>)
        requires
            old(self).wf(),
        ensures
            r is Some <==> old(self)@.len() > 0,
            r is Some ==> *r->0 == old(self)@[0],
            final(self).wf(),
            final(self)@ == (match r {
                Some(element) => old(self)@.update(0, *final(element)),
                None => old(self)@,
            }),
    {
        if self.is_empty() {
            return None;
        }
        let front = self.front_node();
        self.element_mut(front, Ghost(0))
    }

    /// Returns the last element, or `None` if the list is empty.
    pub fn back(&self) -> (r: Option<&T>)
        requires
            self.wf(),
        ensures
            r == (if self@.len() > 0 {
                Some(&self@.last())
            } else {
                None
            }),
    {
        self.cursor_end().previous()
    }

    /// Returns the last element, to be changed in place, or `None` if the
    /// list is empty.
    pub fn back_mut(&mut self) -> (r: Option<&mut T>)
        requires
            old(self).wf(),
        ensures
            r is Some <==> old(self)@.len() > 0,
            r is Some ==> *r->0 == old(self)@.last(),
            final(self).wf(),
            final(self)@ == (match r {
                Some(element) => old(self)@.update(old(self)@.len() - 1, *final(element)),
                None => old(self)@,
            }),
    {
        if self.is_empty() {
            return None;
        }
        let back = self.back_node();
        self.element_mut(back, Ghost(self@.len() - 1))
    }

    /// Adds an element first in the list.
    pub fn push_front(&mut self, elt: T)
        requires
            old(self).wf(),
        ensures
            final(self).wf(),
            final(self)@ == seq![elt] + old(self)@,
    {
        let mut cursor = self.cursor_start_mut();
        cursor.insert(elt);
        proof {
            cursor.lemma_released();
            assert(old(self)@.insert(0, elt) =~= seq![elt] + old(self)@);
        }
    }

    /// Removes the first element and returns it, or returns `None` if the
    /// list is empty.
    pub fn pop_front(&mut self) -> (r: Option<T>)
        requires
            old(self).wf(),
        ensures
            final(self).wf(),
            match r {
                Some(elt) => old(self)@.len() > 0 && elt == old(self)@[0] && final(self)@ == old(
                    self,
                )@.drop_first(),
                None => old(self)@.len() == 0 && final(self)@ == old(self)@,
            },
    {
        if self.is_empty() {
            return None;
        }
        let mut cursor = self.cursor_start_mut();
        let r = cursor.remove();
        proof {
            cursor.lemma_released();
            assert(old(self)@.remove(0) =~= old(self)@.drop_first());
        }
        r
    }

    /// Appends an element to the back of the list.
    pub fn push_back(&mut self, elt: T)
        requires
            old(self).wf(),
        ensures
            final(self).wf(),
            final(self)@ == old(self)@.push(elt),
    {
        let mut cursor = self.cursor_end_mut();
        cursor.insert(elt);
        proof {
            cursor.lemma_released();
            assert(old(self)@.insert(old(self)@.len() as int, elt) =~= old(self)@.push(elt));
        }
    }

    /// Removes the last element and returns it, or returns `None` if the
    /// list is empty.
    pub fn pop_back(&mut self) -> (r: Option<T>)
        requires
            old(self).wf(),
        ensures
            final(self).wf(),
            match r {
                Some(elt) => old(self)@.len() > 0 && elt == old(self)@.last() && final(self)@
                    == old(self)@.drop_last(),
                None => old(self)@.len() == 0 && final(self)@ == old(self)@,
            },
    {
        if self.is_empty() {
            return None;
        }
        let mut cursor = self.cursor_end_mut();
        let r = cursor.backspace();
        proof {
            cursor.lemma_released();
            assert(old(self)@.remove(old(self)@.len() - 1) =~= old(self)@.drop_last());
        }
        r
    }

    /// Moves all the elements of `other` to the end of the list. `other` is
    /// then empty.
    pub fn append(&mut self, other: &mut Self)
        requires
            old(self).wf(),
            old(other).wf(),
        ensures
            final(self).wf(),
            final(other).wf(),
            final(self)@ == old(self)@ + old(other)@,
            final(other)@ == Seq::<T>::empty(),
    {
        match other.detach_all_nodes() {
            Some(detached) => {
                let elements = other.unload(detached);
                let back = self.back_node();
                let sentinel = self.sentinel();
                proof {
                    self.lemma_sentinel();
                    assert(other@ =~= Seq::<T>::empty());
                }
                self.attach_elements(back, sentinel, elements, Ghost(self@.len() as int));
                proof {
                    assert(self@ =~= old(self)@ + old(other)@);
                }
            },
            None => {
                proof {
                    assert(self@ =~= old(self)@ + old(other)@);
                }
            },
        }
    }

    /// Moves all the elements of `other` to the start of the list. `other`
    /// is then empty.
    pub fn prepend(&mut self, other: &mut Self)
        requires
            old(self).wf(),
            old(other).wf(),
        ensures
            final(self).wf(),
            final(other).wf(),
            final(self)@ == old(other)@ + old(self)@,
            final(other)@ == Seq::<T>::empty(),
    {
        match other.detach_all_nodes() {
            Some(detached) => {
                let elements = other.unload(detached);
                let sentinel = self.sentinel();
                let front = self.front_node();
                proof {
                    self.lemma_sentinel();
                    assert(other@ =~= Seq::<T>::empty());
                }
                self.attach_elements(sentinel, front, elements, Ghost(0));
                proof {
                    assert(self@ =~= old(other)@ + old(self)@);
                }
            },
            None => {
                proof {
                    assert(self@ =~= old(other)@ + old(self)@);
                }
            },
        }
    }

    /// Splits the list in two at the position `at`. The elements from `at`
    /// on leave the list and are returned as a new list.
    pub fn split_off(&mut self, at: usize) -> (tail: List<T>)
        requires
            old(self).wf(),
            at <= old(self)@.len(),
        ensures
            final(self).wf(),
            tail.wf(),
            final(self)@ == old(self)@.subrange(0, at as int),
            tail@ == old(self)@.subrange(at as int, old(self)@.len() as int),
    {
        if at == self.len() {
            proof {
                assert(self@ =~= old(self)@.subrange(0, at as int));
                assert(Seq::<T>::empty() =~= old(self)@.subrange(
                    at as int,
                    old(self)@.len() as int,
                ));
            }
            return List::new();
        }
        let mut cursor = self.cursor_mut(at);
        let tail = cursor.split();
        proof {
            cursor.lemma_released();
        }
        match tail {
            Some(tail) => tail,
            None => List::new(),
        }
    }

    /// Removes the element at the position `at` and returns it.
    pub fn remove(&mut self, at: usize) -> (elt: T)
        requires
            old(self).wf(),
            at < old(self)@.len(),
        ensures
            final(self).wf(),
            elt == old(self)@[at as int],
            final(self)@ == old(self)@.remove(at as int),
    {
        let mut cursor = self.cursor_mut(at);
        let removed = cursor.remove();
        proof {
            cursor.lemma_released();
        }
        removed.unwrap()
    }

    /// Adds an element at the position `at`, before the element that was
    /// there.
    pub fn insert(&mut self, at: usize, elm: T)
        requires
            old(self).wf(),
            at <= old(self)@.len(),
        ensures
            final(self).wf(),
            final(self)@ == old(self)@.insert(at as int, elm),
    {
        let mut cursor = self.cursor_mut(at);
        cursor.insert(elm);
        proof {
            cursor.lemma_released();
        }
    }

    /// Moves all the elements of `other` into the list, before the element
    /// at the position `at`.
    pub fn splice_at(&mut self, at: usize, other: Self)
        requires
            old(self).wf(),
            other.wf(),
            at <= old(self)@.len(),
        ensures
            final(self).wf(),
            final(self)@ == spliced(old(self)@, at as int, other@),
    {
        let mut cursor = self.cursor_start_mut();
        let _ = cursor.seek_forward(at);
        cursor.splice(other);
        proof {
            cursor.lemma_released();
        }
    }
}

impl<T> Default for List<T> {
    /// Creates an empty list.
    fn default() -> (list: Self)
        ensures
            list.wf(),
            list@ == Seq::<T>::empty(),
    {
        List::new()
    }
}

/// A list of longer-lived elements serves as a list of shorter-lived ones.
fn shorten_list<'a>(list: List<&'static str>) -> (r: List<&'a str>)
    ensures
        r@ == list@,
        r.wf() == list.wf(),
{
    list
}

/// An iterator over longer-lived elements serves as one over shorter-lived
/// ones.
fn shorten_iter<'i, 'a>(iter: iterator::Iter<'i, &'static str>) -> (r: iterator::Iter<'i, &'a str>)
    ensures
        r.remaining() == iter.remaining(),
        r.wf() == iter.wf(),
{
    iter
}

/// An owning iterator over longer-lived elements serves as one over
/// shorter-lived ones.
fn shorten_into_iter<'a>(iter: iterator::IntoIter<&'static str>) -> (r: iterator::IntoIter<
    &'a str,
>)
    ensures
        r.remaining() == iter.remaining(),
        r.wf() == iter.wf(),
{
    iter
}

/// Holds the list and its read-only iterators to being covariant in the
/// type of the elements: it compiles only while they are.
pub fn assert_covariance() {
    let list: List<&'static str> = List::new();
    let list = shorten_list(list);
    let iter = shorten_iter(list.iter());
    assert(iter.remaining().len() == 0);
    let into_iter = shorten_into_iter(list.into_iter());
    assert(into_iter.remaining().len() == 0);
}

} // verus!
