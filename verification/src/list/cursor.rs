use crate::list::model::lemma_distinct;
use crate::list::{spliced, List};
use core::cmp::Ordering;
use vstd::prelude::*;

verus! {

/// A cursor over a [`List`].
///
/// A cursor is like an iterator, except that it can freely seek back and
/// forth. A list of length `n` has `n + 1` cursor positions `0, 1, ..., n`.
/// Position `n` is the sentinel: no element stands there.
pub struct Cursor<'a, T> {
    pub(crate) index: usize,
    pub(crate) current: usize,
    pub(crate) list: &'a List<T>,
}

/// A cursor over a [`List`] that can change the list at its position.
///
/// While the cursor lives it alone has the list. What the list holds once
/// the cursor is gone is `*final(cursor.list())`; `lemma_released` says that
/// this is what the cursor has made of it.
pub struct CursorMut<'a, T> {
    pub(crate) index: usize,
    pub(crate) current: usize,
    pub(crate) list: &'a mut List<T>,
}

/// Why a cursor did not move: `move_next` would have passed the sentinel.
pub const MOVE_NEXT_ERROR: &'static str = "`move_next` across ghost boundary";

/// Why a cursor did not move: `move_prev` would have passed the sentinel.
pub const MOVE_PREV_ERROR: &'static str = "`move_prev` across ghost boundary";

impl<'a, T> Clone for Cursor<'a, T> {
    fn clone(&self) -> (c: Self)
        ensures
            c == *self,
    {
        Cursor { index: self.index, current: self.current, list: self.list }
    }
}

/// How two positions stand to each other.
pub open spec fn order_of(a: int, b: int) -> Ordering {
    if a < b {
        Ordering::Less
    } else if a == b {
        Ordering::Equal
    } else {
        Ordering::Greater
    }
}

/// `core::ptr::eq` on two lists: whether the two references refer to one
/// object. The contract claims only that one object has one value; of two
/// objects it says nothing.
#[verifier::external_body]
fn same_object<T>(a: &List<T>, b: &List<T>) -> (r: bool)
    ensures
        r ==> a == b,
{
    core::ptr::eq(a, b)
}

/// The position that a cyclic step forward leads to from `position` in a
/// list of `len` elements: past the sentinel comes the front.
pub open spec fn next_cyclic(position: int, len: int) -> int {
    if len == 0 {
        position
    } else if position == len {
        0
    } else {
        position + 1
    }
}

/// The position that a cyclic step backward leads to from `position` in a
/// list of `len` elements: before the front comes the sentinel.
pub open spec fn prev_cyclic(position: int, len: int) -> int {
    if len == 0 {
        position
    } else if position == 0 {
        len
    } else {
        position - 1
    }
}

impl<'a, T> Cursor<'a, T> {
    /// The list that the cursor reads.
    pub closed spec fn list(&self) -> &'a List<T> {
        self.list
    }

    pub(crate) fn new(list: &'a List<T>, current: usize, index: usize) -> (c: Self)
        requires
            list.wf(),
            index <= list@.len(),
            current == list.slot(index as int),
        ensures
            c.wf(),
            c.list() == list,
            c.position() == index,
    {
        Cursor { index, current, list }
    }

    /// The position of the cursor.
    pub closed spec fn position(&self) -> int {
        self.index as int
    }

    /// The cursor refers to the node at its position.
    pub closed spec fn anchored(&self) -> bool {
        self.current == self.list.slot(self.index as int)
    }

    /// The cursor stands at a position of a well-formed list.
    pub open spec fn wf(&self) -> bool {
        &&& self.list().wf()
        &&& 0 <= self.position() <= self.list()@.len()
        &&& self.anchored()
    }

    pub(crate) fn is_sentinel_node(&self) -> (r: bool)
        requires
            self.wf(),
        ensures
            r == (self.position() == self.list()@.len()),
    {
        proof {
            self.list.lemma_sentinel();
            lemma_distinct(self.list.ring(), self.index as int, self.list@.len() as int);
        }
        self.current == self.list.sentinel()
    }

    pub(crate) fn is_front_node(&self) -> (r: bool)
        requires
            self.wf(),
        ensures
            r == (self.position() == 0),
    {
        proof {
            self.list.lemma_sentinel();
            lemma_distinct(self.list.ring(), self.index as int - 1, -1);
        }
        self.prev_node() == self.list.sentinel()
    }

    pub(crate) fn next_node(&self) -> (r: usize)
        requires
            self.wf(),
        ensures
            r == (if self.position() == self.list()@.len() {
                self.list().slot(0)
            } else {
                self.list().slot(self.position() + 1)
            }),
    {
        self.list.next_of(self.current, Ghost(self.index as int))
    }

    pub(crate) fn prev_node(&self) -> (r: usize)
        requires
            self.wf(),
        ensures
            r == self.list().slot(self.position() - 1),
    {
        self.list.prev_of(self.current, Ghost(self.index as int))
    }

    /// Moves the cursor forward by `steps`, which must not lead past the
    /// sentinel.
    fn seek_forward_fast(&mut self, steps: usize)
        requires
            old(self).wf(),
            old(self).position() + steps <= old(self).list()@.len(),
        ensures
            final(self).wf(),
            final(self).list() == old(self).list(),
            final(self).position() == old(self).position() + steps,
    {
        let mut i: usize = 0;
        while i < steps
            invariant
                self.wf(),
                self.list() == old(self).list(),
                i <= steps,
                self.position() == old(self).position() + i,
                old(self).position() + steps <= old(self).list()@.len(),
            decreases steps - i,
        {
            self.current = self.next_node();
            self.index = self.index + 1;
            i = i + 1;
        }
    }

    /// Moves the cursor backward by `steps`, which must not lead past the
    /// front.
    fn seek_backward_fast(&mut self, steps: usize)
        requires
            old(self).wf(),
            steps <= old(self).position(),
        ensures
            final(self).wf(),
            final(self).list() == old(self).list(),
            final(self).position() == old(self).position() - steps,
    {
        let mut i: usize = 0;
        while i < steps
            invariant
                self.wf(),
                self.list() == old(self).list(),
                i <= steps,
                self.position() == old(self).position() - i,
                steps <= old(self).position(),
            decreases steps - i,
        {
            self.current = self.prev_node();
            self.index = self.index - 1;
            i = i + 1;
        }
    }

    /// Returns the position of the cursor.
    pub fn index(&self) -> (i: usize)
        ensures
            i == self.position(),
    {
        self.index
    }

    /// Returns `true` if the list is empty.
    pub fn is_empty(&self) -> (r: bool)
        requires
            self.wf(),
        ensures
            r == (self.list()@.len() == 0),
    {
        self.list.is_empty()
    }

    /// Moves the cursor to the next position. From the sentinel it moves on
    /// to the front.
    pub fn move_next_cyclic(&mut self)
        requires
            old(self).wf(),
        ensures
            final(self).wf(),
            final(self).list() == old(self).list(),
            final(self).position() == next_cyclic(
                old(self).position(),
                old(self).list()@.len() as int,
            ),
    {
        if self.is_empty() {
            return ;
        }
        let next = self.next_node();
        if self.is_sentinel_node() {
            self.index = 0;
        } else {
            self.index = self.index + 1;
        }
        self.current = next;
    }

    /// Moves the cursor to the previous position. From the front it moves
    /// back to the sentinel.
    pub fn move_prev_cyclic(&mut self)
        requires
            old(self).wf(),
        ensures
            final(self).wf(),
            final(self).list() == old(self).list(),
            final(self).position() == prev_cyclic(
                old(self).position(),
                old(self).list()@.len() as int,
            ),
    {
        if self.is_empty() {
            return ;
        }
        let prev = self.prev_node();
        if self.is_front_node() {
            self.index = self.list.len();
        } else {
            self.index = self.index - 1;
        }
        self.current = prev;
    }

    /// Moves the cursor to the next position, or fails, and stays, if it is
    /// at the sentinel.
    pub fn move_next(&mut self) -> (r: Result<(), &'static str>)
        requires
            old(self).wf(),
        ensures
            final(self).wf(),
            final(self).list() == old(self).list(),
            old(self).position() < old(self).list()@.len() ==> r == Ok::<(), &'static str>(())
                && final(self).position() == old(self).position() + 1,
            old(self).position() == old(self).list()@.len() ==> r == Err::<(), &'static str>(
                MOVE_NEXT_ERROR,
            ) && final(self).position() == old(self).position(),
    {
        if !self.is_empty() && !self.is_sentinel_node() {
            self.move_next_cyclic();
            return Ok(());
        }
        Err(MOVE_NEXT_ERROR)
    }

    /// Moves the cursor to the previous position, or fails, and stays, if it
    /// is at the front.
    pub fn move_prev(&mut self) -> (r: Result<(), &'static str>)
        requires
            old(self).wf(),
        ensures
            final(self).wf(),
            final(self).list() == old(self).list(),
            old(self).position() > 0 ==> r == Ok::<(), &'static str>(()) && final(self).position() == old(self).position() - 1,
            old(self).position() == 0 ==> r == Err::<(), &'static str>(MOVE_PREV_ERROR) && final(self).position() == old(self).position(),
    {
        if !self.is_empty() && !self.is_front_node() {
            self.move_prev_cyclic();
            return Ok(());
        }
        Err(MOVE_PREV_ERROR)
    }

    /// Moves the cursor forward by `steps`. If that would lead past the
    /// sentinel, the cursor stops at the sentinel and the error holds the
    /// number of steps that it has made.
    pub fn seek_forward(&mut self, steps: usize) -> (r: Result<(), usize>)
        requires
            old(self).wf(),
        ensures
            final(self).wf(),
            final(self).list() == old(self).list(),
            old(self).position() + steps <= old(self).list()@.len() ==> r == Ok::<(), usize>(())
                && final(self).position() == old(self).position() + steps,
            old(self).position() + steps > old(self).list()@.len() ==> r == Err::<(), usize>(
                (old(self).list()@.len() - old(self).position()) as usize,
            ) && final(self).position() == old(self).list()@.len(),
    {
        let mut i: usize = 0;
        while i < steps
            invariant
                self.wf(),
                self.list() == old(self).list(),
                i <= steps,
                self.position() == old(self).position() + i,
            decreases steps - i,
        {
            if self.move_next().is_err() {
                return Err(i);
            }
            i = i + 1;
        }
        Ok(())
    }

    /// Moves the cursor backward by `steps`. If that would lead past the
    /// front, the cursor stops at the front and the error holds the number
    /// of steps that it has made.
    pub fn seek_backward(&mut self, steps: usize) -> (r: Result<(), usize>)
        requires
            old(self).wf(),
        ensures
            final(self).wf(),
            final(self).list() == old(self).list(),
            steps <= old(self).position() ==> r == Ok::<(), usize>(()) && final(self).position()
                == old(self).position() - steps,
            steps > old(self).position() ==> r == Err::<(), usize>(old(self).position() as usize)
                && final(self).position() == 0,
    {
        let mut i: usize = 0;
        while i < steps
            invariant
                self.wf(),
                self.list() == old(self).list(),
                i <= steps,
                self.position() == old(self).position() - i,
            decreases steps - i,
        {
            if self.move_prev().is_err() {
                return Err(i);
            }
            i = i + 1;
        }
        Ok(())
    }

    /// Moves the cursor to the position `target`, by the shortest of the
    /// walks from where it is, from the front and from the sentinel. If
    /// `target` is past the sentinel, the cursor stays and the error holds
    /// by how much.
    pub fn seek_to(&mut self, target: usize) -> (r: Result<(), usize>)
        requires
            old(self).wf(),
        ensures
            final(self).wf(),
            final(self).list() == old(self).list(),
            target <= old(self).list()@.len() ==> r == Ok::<(), usize>(()) && final(self).position() == target,
            target > old(self).list()@.len() ==> r == Err::<(), usize>(
                (target - old(self).list()@.len()) as usize,
            ) && final(self).position() == old(self).position(),
    {
        if target == self.index {
            return Ok(());
        }
        let len = self.list.len();
        if target > len {
            return Err(target - len);
        }
        if target == 0 {
            self.move_to_start();
        } else if target == len {
            self.move_to_end();
        } else if target > self.index {
            if target - self.index <= len - target {
                self.seek_forward_fast(target - self.index);
            } else {
                self.move_to_end();
                self.seek_backward_fast(len - target);
            }
        } else {
            if self.index - target <= target {
                self.seek_backward_fast(self.index - target);
            } else {
                self.move_to_start();
                self.seek_forward_fast(target);
            }
        }
        Ok(())
    }

    /// Sets the cursor to the start of the list: the front, or the sentinel
    /// if the list is empty.
    pub fn move_to_start(&mut self)
        requires
            old(self).wf(),
        ensures
            final(self).wf(),
            final(self).list() == old(self).list(),
            final(self).position() == 0,
    {
        self.index = 0;
        self.current = self.list.front_node();
    }

    /// Sets the cursor to the end of the list, the sentinel.
    pub fn move_to_end(&mut self)
        requires
            old(self).wf(),
        ensures
            final(self).wf(),
            final(self).list() == old(self).list(),
            final(self).position() == old(self).list()@.len(),
    {
        self.index = self.list.len();
        self.current = self.list.sentinel();
        proof {
            self.list.lemma_sentinel();
        }
    }

    /// Returns the element at the cursor, or `None` at the sentinel.
    pub fn current(&self) -> (r: Option<&'a T>)
        requires
            self.wf(),
        ensures
            r == (if self.position() < self.list()@.len() {
                Some(&self.list()@[self.position()])
            } else {
                None
            }),
    {
        if self.is_sentinel_node() {
            return None;
        }
        Some(self.list.element(self.current, Ghost(self.index as int)))
    }

    /// Returns the element before the cursor, or `None` at the front.
    pub fn previous(&self) -> (r: Option<&'a T>)
        requires
            self.wf(),
        ensures
            r == (if self.position() > 0 {
                Some(&self.list()@[self.position() - 1])
            } else {
                None
            }),
    {
        if self.is_front_node() {
            return None;
        }
        let prev = self.prev_node();
        Some(self.list.element(prev, Ghost(self.index as int - 1)))
    }

    fn same_list_with(&self, other: &Self) -> (r: bool)
        ensures
            r ==> self.list() == other.list(),
    {
        same_object(self.list, other.list)
    }

    /// Returns `true` if the two cursors are cursors over one list, the
    /// same object, and stand at the same position.
    pub fn eq(&self, other: &Self) -> (r: bool)
        requires
            self.wf(),
            other.wf(),
        ensures
            r ==> self.list() == other.list() && self.position() == other.position(),
    {
        let same_list = self.same_list_with(other);
        self.eq_on(other, same_list)
    }

    /// Returns `true` if the two cursors, which are cursors over one list
    /// if `same_list` says so, stand at the same position of one list.
    pub fn eq_on(&self, other: &Self, same_list: bool) -> (r: bool)
        requires
            self.wf(),
            other.wf(),
            same_list ==> self.list() == other.list(),
        ensures
            r == (same_list && self.position() == other.position()),
    {
        proof {
            if same_list {
                self.list.lemma_sentinel();
                lemma_distinct(self.list.ring(), self.position(), other.position());
            }
        }
        same_list && self.current == other.current
    }

    /// Compares the positions of two cursors over one list, the same
    /// object. Cursors over different lists cannot be compared.
    pub fn partial_cmp(&self, other: &Self) -> (r: Option<Ordering>)
        requires
            self.wf(),
            other.wf(),
        ensures
            r is Some ==> self.list() == other.list() && r == Some(
                order_of(self.position(), other.position()),
            ),
    {
        let same_list = self.same_list_with(other);
        self.partial_cmp_on(other, same_list)
    }

    /// Compares the positions of two cursors, which are cursors over one
    /// list if `same_list` says so. Otherwise they cannot be compared.
    pub fn partial_cmp_on(&self, other: &Self, same_list: bool) -> (r: Option<Ordering>)
        ensures
            r == (if same_list {
                Some(order_of(self.position(), other.position()))
            } else {
                None
            }),
    {
        if !same_list {
            return None;
        }
        if self.index < other.index {
            Some(Ordering::Less)
        } else if self.index == other.index {
            Some(Ordering::Equal)
        } else {
            Some(Ordering::Greater)
        }
    }

    /// Makes of the cursor an iterator that walks forward round the ring.
    pub fn into_iter(self) -> (iter: CursorIter<'a, T>)
        ensures
            iter == CursorIter::around(self),
            iter.cursor() == self,
    {
        CursorIter { cursor: self }
    }
}

impl<'a, T> CursorMut<'a, T> {
    /// The list that the cursor has borrowed.
    pub closed spec fn list(self) -> &'a mut List<T> {
        self.list
    }

    pub(crate) fn new(list: &'a mut List<T>, current: usize, index: usize) -> (c: Self)
        requires
            old(list).wf(),
            index <= old(list)@.len(),
            current == old(list).slot(index as int),
        ensures
            c.wf(),
            *c.list() == *old(list),
            *final(c.list()) == *final(list),
            c.position() == index,
    {
        CursorMut { index, current, list }
    }

    /// Once the cursor is no longer used, the list is what the cursor has
    /// made of it.
    pub proof fn lemma_released(self)
        requires
            has_resolved(self),
        ensures
            *self.list() == *final(self.list()),
    {
    }

    /// The position of the cursor.
    pub closed spec fn position(&self) -> int {
        self.index as int
    }

    /// The cursor refers to the node at its position.
    pub closed spec fn anchored(&self) -> bool {
        self.current == self.list.slot(self.index as int)
    }

    /// The cursor stands at a position of a well-formed list.
    pub open spec fn wf(self) -> bool {
        &&& self.list().wf()
        &&& 0 <= self.position() <= self.list()@.len()
        &&& self.anchored()
    }

    pub(crate) fn is_sentinel_node(&self) -> (r: bool)
        requires
            self.wf(),
        ensures
            r == (self.position() == self.list()@.len()),
    {
        proof {
            self.list.lemma_sentinel();
            lemma_distinct(self.list.ring(), self.index as int, self.list@.len() as int);
        }
        self.current == self.list.sentinel()
    }

    pub(crate) fn is_front_node(&self) -> (r: bool)
        requires
            self.wf(),
        ensures
            r == (self.position() == 0),
    {
        proof {
            self.list.lemma_sentinel();
            lemma_distinct(self.list.ring(), self.index as int - 1, -1);
        }
        self.prev_node() == self.list.sentinel()
    }

    pub(crate) fn next_node(&self) -> (r: usize)
        requires
            self.wf(),
        ensures
            r == (if self.position() == self.list()@.len() {
                self.list().slot(0)
            } else {
                self.list().slot(self.position() + 1)
            }),
    {
        self.list.next_of(self.current, Ghost(self.index as int))
    }

    pub(crate) fn prev_node(&self) -> (r: usize)
        requires
            self.wf(),
        ensures
            r == self.list().slot(self.position() - 1),
    {
        self.list.prev_of(self.current, Ghost(self.index as int))
    }

    /// Moves the cursor forward by `steps`, which must not lead past the
    /// sentinel.
    fn seek_forward_fast(&mut self, steps: usize)
        requires
            old(self).wf(),
            old(self).position() + steps <= old(self).list()@.len(),
        ensures
            final(self).wf(),
            final(self).list() == old(self).list(),
            final(self).position() == old(self).position() + steps,
    {
        let mut i: usize = 0;
        while i < steps
            invariant
                self.wf(),
                self.list() == old(self).list(),
                i <= steps,
                self.position() == old(self).position() + i,
                old(self).position() + steps <= old(self).list()@.len(),
            decreases steps - i,
        {
            self.current = self.next_node();
            self.index = self.index + 1;
            i = i + 1;
        }
    }

    /// Moves the cursor backward by `steps`, which must not lead past the
    /// front.
    fn seek_backward_fast(&mut self, steps: usize)
        requires
            old(self).wf(),
            steps <= old(self).position(),
        ensures
            final(self).wf(),
            final(self).list() == old(self).list(),
            final(self).position() == old(self).position() - steps,
    {
        let mut i: usize = 0;
        while i < steps
            invariant
                self.wf(),
                self.list() == old(self).list(),
                i <= steps,
                self.position() == old(self).position() - i,
                steps <= old(self).position(),
            decreases steps - i,
        {
            self.current = self.prev_node();
            self.index = self.index - 1;
            i = i + 1;
        }
    }

    /// Returns the position of the cursor.
    pub fn index(&self) -> (i: usize)
        ensures
            i == self.position(),
    {
        self.index
    }

    /// Returns `true` if the list is empty.
    pub fn is_empty(&self) -> (r: bool)
        requires
            self.wf(),
        ensures
            r == (self.list()@.len() == 0),
    {
        self.list.is_empty()
    }

    /// Moves the cursor to the next position. From the sentinel it moves on
    /// to the front.
    pub fn move_next_cyclic(&mut self)
        requires
            old(self).wf(),
        ensures
            final(self).wf(),
            final(self).list() == old(self).list(),
            final(self).position() == next_cyclic(
                old(self).position(),
                old(self).list()@.len() as int,
            ),
    {
        if self.is_empty() {
            return ;
        }
        let next = self.next_node();
        if self.is_sentinel_node() {
            self.index = 0;
        } else {
            self.index = self.index + 1;
        }
        self.current = next;
    }

    /// Moves the cursor to the previous position. From the front it moves
    /// back to the sentinel.
    pub fn move_prev_cyclic(&mut self)
        requires
            old(self).wf(),
        ensures
            final(self).wf(),
            final(self).list() == old(self).list(),
            final(self).position() == prev_cyclic(
                old(self).position(),
                old(self).list()@.len() as int,
            ),
    {
        if self.is_empty() {
            return ;
        }
        let prev = self.prev_node();
        if self.is_front_node() {
            self.index = self.list.len();
        } else {
            self.index = self.index - 1;
        }
        self.current = prev;
    }

    /// Moves the cursor to the next position, or fails, and stays, if it is
    /// at the sentinel.
    pub fn move_next(&mut self) -> (r: Result<(), &'static str>)
        requires
            old(self).wf(),
        ensures
            final(self).wf(),
            final(self).list() == old(self).list(),
            old(self).position() < old(self).list()@.len() ==> r == Ok::<(), &'static str>(())
                && final(self).position() == old(self).position() + 1,
            old(self).position() == old(self).list()@.len() ==> r == Err::<(), &'static str>(
                MOVE_NEXT_ERROR,
            ) && final(self).position() == old(self).position(),
    {
        if !self.is_empty() && !self.is_sentinel_node() {
            self.move_next_cyclic();
            return Ok(());
        }
        Err(MOVE_NEXT_ERROR)
    }

    /// Moves the cursor to the previous position, or fails, and stays, if it
    /// is at the front.
    pub fn move_prev(&mut self) -> (r: Result<(), &'static str>)
        requires
            old(self).wf(),
        ensures
            final(self).wf(),
            final(self).list() == old(self).list(),
            old(self).position() > 0 ==> r == Ok::<(), &'static str>(()) && final(self).position() == old(self).position() - 1,
            old(self).position() == 0 ==> r == Err::<(), &'static str>(MOVE_PREV_ERROR) && final(self).position() == old(self).position(),
    {
        if !self.is_empty() && !self.is_front_node() {
            self.move_prev_cyclic();
            return Ok(());
        }
        Err(MOVE_PREV_ERROR)
    }

    /// Moves the cursor forward by `steps`. If that would lead past the
    /// sentinel, the cursor stops at the sentinel and the error holds the
    /// number of steps that it has made.
    pub fn seek_forward(&mut self, steps: usize) -> (r: Result<(), usize>)
        requires
            old(self).wf(),
        ensures
            final(self).wf(),
            final(self).list() == old(self).list(),
            old(self).position() + steps <= old(self).list()@.len() ==> r == Ok::<(), usize>(())
                && final(self).position() == old(self).position() + steps,
            old(self).position() + steps > old(self).list()@.len() ==> r == Err::<(), usize>(
                (old(self).list()@.len() - old(self).position()) as usize,
            ) && final(self).position() == old(self).list()@.len(),
    {
        let mut i: usize = 0;
        while i < steps
            invariant
                self.wf(),
                self.list() == old(self).list(),
                i <= steps,
                self.position() == old(self).position() + i,
            decreases steps - i,
        {
            if self.move_next().is_err() {
                return Err(i);
            }
            i = i + 1;
        }
        Ok(())
    }

    /// Moves the cursor backward by `steps`. If that would lead past the
    /// front, the cursor stops at the front and the error holds the number
    /// of steps that it has made.
    pub fn seek_backward(&mut self, steps: usize) -> (r: Result<(), usize>)
        requires
            old(self).wf(),
        ensures
            final(self).wf(),
            final(self).list() == old(self).list(),
            steps <= old(self).position() ==> r == Ok::<(), usize>(()) && final(self).position()
                == old(self).position() - steps,
            steps > old(self).position() ==> r == Err::<(), usize>(old(self).position() as usize)
                && final(self).position() == 0,
    {
        let mut i: usize = 0;
        while i < steps
            invariant
                self.wf(),
                self.list() == old(self).list(),
                i <= steps,
                self.position() == old(self).position() - i,
            decreases steps - i,
        {
            if self.move_prev().is_err() {
                return Err(i);
            }
            i = i + 1;
        }
        Ok(())
    }

    /// Moves the cursor to the position `target`, by the shortest of the
    /// walks from where it is, from the front and from the sentinel. If
    /// `target` is past the sentinel, the cursor stays and the error holds
    /// by how much.
    pub fn seek_to(&mut self, target: usize) -> (r: Result<(), usize>)
        requires
            old(self).wf(),
        ensures
            final(self).wf(),
            final(self).list() == old(self).list(),
            target <= old(self).list()@.len() ==> r == Ok::<(), usize>(()) && final(self).position() == target,
            target > old(self).list()@.len() ==> r == Err::<(), usize>(
                (target - old(self).list()@.len()) as usize,
            ) && final(self).position() == old(self).position(),
    {
        if target == self.index {
            return Ok(());
        }
        let len = self.list.len();
        if target > len {
            return Err(target - len);
        }
        if target == 0 {
            self.move_to_start();
        } else if target == len {
            self.move_to_end();
        } else if target > self.index {
            if target - self.index <= len - target {
                self.seek_forward_fast(target - self.index);
            } else {
                self.move_to_end();
                self.seek_backward_fast(len - target);
            }
        } else {
            if self.index - target <= target {
                self.seek_backward_fast(self.index - target);
            } else {
                self.move_to_start();
                self.seek_forward_fast(target);
            }
        }
        Ok(())
    }

    /// Sets the cursor to the start of the list: the front, or the sentinel
    /// if the list is empty.
    pub fn move_to_start(&mut self)
        requires
            old(self).wf(),
        ensures
            final(self).wf(),
            final(self).list() == old(self).list(),
            final(self).position() == 0,
    {
        self.index = 0;
        self.current = self.list.front_node();
    }

    /// Sets the cursor to the end of the list, the sentinel.
    pub fn move_to_end(&mut self)
        requires
            old(self).wf(),
        ensures
            final(self).wf(),
            final(self).list() == old(self).list(),
            final(self).position() == old(self).list()@.len(),
    {
        self.index = self.list.len();
        self.current = self.list.sentinel();
        proof {
            self.list.lemma_sentinel();
        }
    }

    /// Returns the element at the cursor, or `None` at the sentinel.
    pub fn current(&self) -> (r: Option<&T>)
        requires
            self.wf(),
        ensures
            r == (if self.position() < self.list()@.len() {
                Some(&self.list()@[self.position()])
            } else {
                None
            }),
    {
        if self.is_sentinel_node() {
            return None;
        }
        Some(self.list.element(self.current, Ghost(self.index as int)))
    }

    /// Returns the element before the cursor, or `None` at the front.
    pub fn previous(&self) -> (r: Option<&T>)
        requires
            self.wf(),
        ensures
            r == (if self.position() > 0 {
                Some(&self.list()@[self.position() - 1])
            } else {
                None
            }),
    {
        if self.is_front_node() {
            return None;
        }
        let prev = self.prev_node();
        Some(self.list.element(prev, Ghost(self.index as int - 1)))
    }

    /// Returns the element at the cursor, to be changed in place, or `None`
    /// at the sentinel.
    pub fn current_mut(&mut self) -> (r: Option<&mut T>)
        requires
            old(self).wf(),
        ensures
            r is Some <==> old(self).position() < old(self).list()@.len(),
            r is Some ==> *r->0 == old(self).list()@[old(self).position()],
            final(self).wf(),
            final(self).position() == old(self).position(),
            final(self).list()@ == (match r {
                Some(element) => old(self).list()@.update(old(self).position(), *final(element)),
                None => old(self).list()@,
            }),
            *final(final(self).list()) == *final(old(self).list()),
    {
        if self.is_sentinel_node() {
            return None;
        }
        self.list.element_mut(self.current, Ghost(self.index as int))
    }

    /// Returns the element before the cursor, to be changed in place, or
    /// `None` at the front.
    pub fn previous_mut(&mut self) -> (r: Option<&mut T>)
        requires
            old(self).wf(),
        ensures
            r is Some <==> old(self).position() > 0,
            r is Some ==> *r->0 == old(self).list()@[old(self).position() - 1],
            final(self).wf(),
            final(self).position() == old(self).position(),
            final(self).list()@ == (match r {
                Some(element) => old(self).list()@.update(
                    old(self).position() - 1,
                    *final(element),
                ),
                None => old(self).list()@,
            }),
            *final(final(self).list()) == *final(old(self).list()),
    {
        if self.is_front_node() {
            return None;
        }
        let prev = self.prev_node();
        self.list.element_mut(prev, Ghost(self.index as int - 1))
    }

    /// Borrows the cursor as a cursor that only reads.
    pub fn as_cursor(&self) -> (c: Cursor<'_, T>)
        requires
            self.wf(),
        ensures
            c.wf(),
            *c.list() == *self.list(),
            c.position() == self.position(),
    {
        Cursor::new(&*self.list, self.current, self.index)
    }

    /// The cursor that only reads, at the same position of the same list.
    pub closed spec fn reader(self) -> Cursor<'a, T> {
        Cursor { index: self.index, current: self.current, list: &*self.list }
    }

    /// The reading cursor stands where the cursor stands.
    pub proof fn lemma_reader(self)
        ensures
            *self.reader().list() == *self.list(),
            self.reader().position() == self.position(),
            self.reader().wf() == self.wf(),
    {
    }

    /// Turns the cursor into a cursor that only reads. The list stays as
    /// it is.
    pub fn into_cursor(self) -> (c: Cursor<'a, T>)
        ensures
            c == self.reader(),
            *c.list() == *self.list(),
            c.position() == self.position(),
            c.wf() == self.wf(),
            *final(self.list()) == *self.list(),
    {
        let index = self.index;
        let current = self.current;
        let list: &'a List<T> = self.list;
        Cursor { index, current, list }
    }

    /// Lends the list, to be read while the cursor lives.
    pub fn view(&self) -> (list: &List<T>)
        ensures
            *list == *self.list(),
    {
        &*self.list
    }

    /// Adds an element first in the list. The cursor stays at the element
    /// that it was at, which is now one position further on.
    pub fn push_front(&mut self, item: T)
        requires
            old(self).wf(),
        ensures
            final(self).wf(),
            final(self).list()@ == seq![item] + old(self).list()@,
            final(self).position() == old(self).position() + 1,
            *final(final(self).list()) == *final(old(self).list()),
    {
        let sentinel = self.list.sentinel();
        let front = self.list.front_node();
        proof {
            self.list.lemma_sentinel();
        }
        self.list.attach_node(sentinel, front, item, Ghost(0));
        proof {
            self.list.lemma_sentinel();
            assert(old(self).list()@.insert(0, item) =~= seq![item] + old(self).list()@);
        }
        self.index = self.index + 1;
    }

    /// Removes the first element and returns it, or returns `None` if the
    /// list is empty. The cursor stays at the element that it was at, which
    /// is now one position nearer the front; if that was the first element,
    /// the cursor is at the new front.
    pub fn pop_front(&mut self) -> (r: Option<T>)
        requires
            old(self).wf(),
        ensures
            final(self).wf(),
            *final(final(self).list()) == *final(old(self).list()),
            match r {
                Some(item) => {
                    &&& old(self).list()@.len() > 0
                    &&& item == old(self).list()@[0]
                    &&& final(self).list()@ == old(self).list()@.drop_first()
                    &&& final(self).position() == (if old(self).position() == 0 {
                        0
                    } else {
                        old(self).position() - 1
                    })
                },
                None => {
                    &&& old(self).list()@.len() == 0
                    &&& final(self).list()@ == old(self).list()@
                    &&& final(self).position() == old(self).position()
                },
            },
    {
        if self.is_empty() {
            return None;
        }
        let is_front = self.is_front_node();
        let front = self.list.front_node();
        let item = self.list.detach_node(front, Ghost(0));
        if is_front {
            self.current = self.list.front_node();
        } else {
            self.index = self.index - 1;
        }
        proof {
            assert(old(self).list()@.remove(0) =~= old(self).list()@.drop_first());
        }
        Some(item)
    }

    /// Appends an element to the back of the list. The cursor stays at the
    /// element that it was at; at the sentinel it stays at the sentinel,
    /// which is now one position further on.
    pub fn push_back(&mut self, item: T)
        requires
            old(self).wf(),
        ensures
            final(self).wf(),
            final(self).list()@ == old(self).list()@.push(item),
            final(self).position() == (if old(self).position() == old(self).list()@.len() {
                old(self).position() + 1
            } else {
                old(self).position()
            }),
            *final(final(self).list()) == *final(old(self).list()),
    {
        let at_end = self.is_sentinel_node();
        let sentinel = self.list.sentinel();
        let back = self.list.back_node();
        let ghost n = self.list@.len() as int;
        proof {
            self.list.lemma_sentinel();
        }
        self.list.attach_node(back, sentinel, item, Ghost(n));
        proof {
            self.list.lemma_sentinel();
            assert(old(self).list()@.insert(n, item) =~= old(self).list()@.push(item));
        }
        if at_end {
            self.index = self.index + 1;
        }
    }

    /// Removes the last element and returns it, or returns `None` if the
    /// list is empty. The cursor stays at the element that it was at; if
    /// that was the last element, or if it was at the sentinel, it is now at
    /// the sentinel.
    pub fn pop_back(&mut self) -> (r: Option<T>)
        requires
            old(self).wf(),
        ensures
            final(self).wf(),
            *final(final(self).list()) == *final(old(self).list()),
            match r {
                Some(item) => {
                    &&& old(self).list()@.len() > 0
                    &&& item == old(self).list()@.last()
                    &&& final(self).list()@ == old(self).list()@.drop_last()
                    &&& final(self).position() == (if old(self).position() == old(
                        self,
                    ).list()@.len() {
                        old(self).position() - 1
                    } else {
                        old(self).position()
                    })
                },
                None => {
                    &&& old(self).list()@.len() == 0
                    &&& final(self).list()@ == old(self).list()@
                    &&& final(self).position() == old(self).position()
                },
            },
    {
        if self.is_empty() {
            return None;
        }
        let back = self.list.back_node();
        let ghost n = self.list@.len() as int;
        proof {
            self.list.lemma_sentinel();
            lemma_distinct(self.list.ring(), self.index as int, n - 1);
        }
        if self.current == back {
            self.current = self.list.sentinel();
        } else if self.is_sentinel_node() {
            self.index = self.index - 1;
        }
        let item = self.list.detach_node(back, Ghost(n - 1));
        proof {
            assert(old(self).list()@.remove(n - 1) =~= old(self).list()@.drop_last());
        }
        Some(item)
    }

    /// Adds `item` before the cursor's position. The cursor stays at the
    /// element that it was at, which is now one position further on, and
    /// `item` is the one before it.
    pub fn insert(&mut self, item: T)
        requires
            old(self).wf(),
        ensures
            final(self).wf(),
            final(self).list()@ == old(self).list()@.insert(old(self).position(), item),
            final(self).position() == old(self).position() + 1,
            *final(final(self).list()) == *final(old(self).list()),
    {
        self.insert_before(self.current, item);
        proof {
            self.list.lemma_sentinel();
        }
        self.index = self.index + 1;
    }

    /// Adds `item` before the node `next`, which is the cursor's.
    fn insert_before(&mut self, next: usize, item: T) -> (node: usize)
        requires
            old(self).wf(),
            next == old(self).current,
        ensures
            final(self).list().wf(),
            final(self).list().ring() == old(self).list().ring().insert(
                old(self).position(),
                node,
            ),
            final(self).list()@ == old(self).list()@.insert(old(self).position(), item),
            final(self).index == old(self).index,
            final(self).current == old(self).current,
            *final(final(self).list()) == *final(old(self).list()),
    {
        let prev = self.list.prev_of(next, Ghost(self.index as int));
        self.list.attach_node(prev, next, item, Ghost(self.index as int))
    }

    /// Removes the element at the cursor and returns it, or returns `None`
    /// at the sentinel. The cursor is then at the element that followed.
    pub fn remove(&mut self) -> (r: Option<T>)
        requires
            old(self).wf(),
        ensures
            final(self).wf(),
            final(self).position() == old(self).position(),
            *final(final(self).list()) == *final(old(self).list()),
            match r {
                Some(item) => {
                    &&& old(self).position() < old(self).list()@.len()
                    &&& item == old(self).list()@[old(self).position()]
                    &&& final(self).list()@ == old(self).list()@.remove(old(self).position())
                },
                None => {
                    &&& old(self).position() == old(self).list()@.len()
                    &&& final(self).list()@ == old(self).list()@
                },
            },
    {
        if self.is_sentinel_node() {
            return None;
        }
        let next = self.next_node();
        let item = self.list.detach_node(self.current, Ghost(self.index as int));
        self.current = next;
        Some(item)
    }

    /// Removes the element before the cursor and returns it, or returns
    /// `None` at the front. The cursor stays at the element that it was at,
    /// which is now one position nearer the front.
    pub fn backspace(&mut self) -> (r: Option<T>)
        requires
            old(self).wf(),
        ensures
            final(self).wf(),
            *final(final(self).list()) == *final(old(self).list()),
            match r {
                Some(item) => {
                    &&& old(self).position() > 0
                    &&& item == old(self).list()@[old(self).position() - 1]
                    &&& final(self).list()@ == old(self).list()@.remove(old(self).position() - 1)
                    &&& final(self).position() == old(self).position() - 1
                },
                None => {
                    &&& old(self).position() == 0
                    &&& final(self).list()@ == old(self).list()@
                    &&& final(self).position() == 0
                },
            },
    {
        match self.move_prev() {
            Ok(_) => self.remove(),
            Err(_) => None,
        }
    }

    /// Splits the list in two at the cursor: the elements from the cursor
    /// on leave the list and are returned as a new list, and the cursor is
    /// then at the sentinel. Returns `None` if the cursor is at the sentinel
    /// already.
    pub fn split(&mut self) -> (r: Option<List<T>>)
        requires
            old(self).wf(),
        ensures
            final(self).wf(),
            final(self).position() == old(self).position(),
            *final(final(self).list()) == *final(old(self).list()),
            match r {
                Some(tail) => {
                    &&& old(self).position() < old(self).list()@.len()
                    &&& tail.wf()
                    &&& tail@ == old(self).list()@.subrange(
                        old(self).position(),
                        old(self).list()@.len() as int,
                    )
                    &&& final(self).list()@ == old(self).list()@.subrange(0, old(self).position())
                },
                None => {
                    &&& old(self).position() == old(self).list()@.len()
                    &&& final(self).list()@ == old(self).list()@
                },
            },
    {
        if self.is_sentinel_node() {
            return None;
        }
        proof {
            self.list.lemma_sentinel();
        }
        let len = self.list.len - self.index;
        let current = self.current;
        self.current = self.list.sentinel();
        let back = self.list.back_node();
        let detached = self.list.detach_nodes(current, back, len, Ghost(self.index as int));
        proof {
            let view0 = old(self).list()@;
            let i = self.index as int;
            assert(self.list@ =~= view0.subrange(0, i));
        }
        Some(List::from_detached(self.list, detached))
    }

    /// Splits the list in two before the cursor: the elements before the
    /// cursor leave the list and are returned as a new list, and the cursor
    /// is then at the front. Returns `None` if the cursor is at the front
    /// already.
    pub fn split_before(&mut self) -> (r: Option<List<T>>)
        requires
            old(self).wf(),
        ensures
            final(self).wf(),
            final(self).position() == 0,
            *final(final(self).list()) == *final(old(self).list()),
            match r {
                Some(head) => {
                    &&& old(self).position() > 0
                    &&& head.wf()
                    &&& head@ == old(self).list()@.subrange(0, old(self).position())
                    &&& final(self).list()@ == old(self).list()@.subrange(
                        old(self).position(),
                        old(self).list()@.len() as int,
                    )
                },
                None => {
                    &&& old(self).position() == 0
                    &&& final(self).list()@ == old(self).list()@
                },
            },
    {
        if self.is_front_node() {
            return None;
        }
        let len = self.index;
        self.index = 0;
        let front = self.list.front_node();
        let prev = self.list.prev_of(self.current, Ghost(len as int));
        let detached = self.list.detach_nodes(front, prev, len, Ghost(0));
        proof {
            let view0 = old(self).list()@;
            let ring0 = old(self).list().ring();
            let n = view0.len() as int;
            assert(self.list@ =~= view0.subrange(len as int, n));
            assert(self.list.ring() =~= ring0.subrange(len as int, n));
            if len < n {
                assert(self.list.ring()[0] == ring0[len as int]);
            }
        }
        Some(List::from_detached(self.list, detached))
    }

    /// Moves all the elements of `other` into the list, before the cursor.
    /// The cursor stays at the element that it was at, which is now further
    /// on by the length of `other`.
    pub fn splice(&mut self, other: List<T>)
        requires
            old(self).wf(),
            other.wf(),
        ensures
            final(self).wf(),
            final(self).list()@ == spliced(old(self).list()@, old(self).position(), other@),
            final(self).position() == old(self).position() + other@.len(),
            *final(final(self).list()) == *final(old(self).list()),
    {
        match other.into_detached() {
            Some(elements) => {
                let count = elements.len();
                let prev = self.prev_node();
                self.list.attach_elements(prev, self.current, elements, Ghost(self.index as int));
                proof {
                    self.list.lemma_sentinel();
                    let ring0 = old(self).list().ring();
                    let ring1 = self.list.ring();
                    let i = self.index as int;
                    let n = ring0.len() as int;
                    if i < n {
                        assert(ring1[i + count] == ring1.subrange(i + count, ring1.len() as int)[0]);
                        assert(ring0[i] == ring0.subrange(i, n)[0]);
                    }
                }
                self.index = self.index + count;
            },
            None => {
                proof {
                    let view0 = old(self).list()@;
                    let i = self.index as int;
                    assert(view0 =~= view0.subrange(0, i) + other@ + view0.subrange(
                        i,
                        view0.len() as int,
                    ));
                }
            },
        }
    }

    /// Makes of the cursor an iterator that walks forward round the ring.
    pub fn into_iter(self) -> (iter: CursorIterMut<'a, T>)
        ensures
            iter.cursor() == self,
    {
        CursorIterMut { cursor: self }
    }
}

/// An iterator that walks a cursor forward round the ring: after the last
/// element it yields `None` once, at the sentinel, and then starts again at
/// the front.
pub struct CursorIter<'a, T> {
    pub(crate) cursor: Cursor<'a, T>,
}

/// An iterator that walks a cursor forward round the ring and lends each
/// element to be changed in place.
pub struct CursorIterMut<'a, T> {
    pub(crate) cursor: CursorMut<'a, T>,
}

/// An iterator that walks a cursor backward round the ring: after the first
/// element it yields `None` once, at the sentinel, and then starts again at
/// the back.
pub struct CursorBackIter<'a, T> {
    pub(crate) cursor: Cursor<'a, T>,
}

/// An iterator that walks a cursor backward round the ring and lends each
/// element to be changed in place.
pub struct CursorBackIterMut<'a, T> {
    pub(crate) cursor: CursorMut<'a, T>,
}

impl<'a, T> CursorIter<'a, T> {
    /// The cursor that the iterator walks.
    pub closed spec fn cursor(&self) -> Cursor<'a, T> {
        self.cursor
    }

    /// The iterator that walks `cursor`.
    pub closed spec fn around(cursor: Cursor<'a, T>) -> Self {
        CursorIter { cursor }
    }

    /// Gives back the cursor, where the iterator has left it.
    pub fn into_cursor(self) -> (c: Cursor<'a, T>)
        ensures
            c == self.cursor(),
    {
        self.cursor
    }

    /// Turns the iterator round, to walk backward from where it is.
    pub fn rev(self) -> (iter: CursorBackIter<'a, T>)
        ensures
            iter.cursor() == self.cursor(),
    {
        CursorBackIter { cursor: self.cursor }
    }

    /// Returns the element that `next` would yield, without moving.
    pub fn peek(&self) -> (r: Option<&'a T>)
        requires
            self.cursor().wf(),
        ensures
            r == (if self.cursor().position() < self.cursor().list()@.len() {
                Some(&self.cursor().list()@[self.cursor().position()])
            } else {
                None
            }),
    {
        self.cursor.current()
    }

    /// Yields the element at the cursor, or `None` at the sentinel, and
    /// moves the cursor on by one cyclic step.
    pub fn next(&mut self) -> (r: Option<&'a T>)
        requires
            old(self).cursor().wf(),
        ensures
            final(self).cursor().wf(),
            final(self).cursor().list() == old(self).cursor().list(),
            final(self).cursor().position() == next_cyclic(
                old(self).cursor().position(),
                old(self).cursor().list()@.len() as int,
            ),
            r == (if old(self).cursor().position() < old(self).cursor().list()@.len() {
                Some(&old(self).cursor().list()@[old(self).cursor().position()])
            } else {
                None
            }),
    {
        let current = self.cursor.current();
        self.cursor.move_next_cyclic();
        current
    }
}

impl<'a, T> CursorBackIter<'a, T> {
    /// The cursor that the iterator walks.
    pub closed spec fn cursor(&self) -> Cursor<'a, T> {
        self.cursor
    }

    /// Gives back the cursor, where the iterator has left it.
    pub fn into_cursor(self) -> (c: Cursor<'a, T>)
        ensures
            c == self.cursor(),
    {
        self.cursor
    }

    /// Turns the iterator round, to walk forward from where it is.
    pub fn rev(self) -> (iter: CursorIter<'a, T>)
        ensures
            iter.cursor() == self.cursor(),
    {
        CursorIter { cursor: self.cursor }
    }

    /// Returns the element before the cursor, or `None` at the front,
    /// without moving.
    pub fn peek(&self) -> (r: Option<&'a T>)
        requires
            self.cursor().wf(),
        ensures
            r == (if self.cursor().position() > 0 {
                Some(&self.cursor().list()@[self.cursor().position() - 1])
            } else {
                None
            }),
    {
        self.cursor.previous()
    }

    /// Moves the cursor back by one cyclic step and yields the element
    /// that it is then at, or `None` at the sentinel.
    pub fn next(&mut self) -> (r: Option<&'a T>)
        requires
            old(self).cursor().wf(),
        ensures
            final(self).cursor().wf(),
            final(self).cursor().list() == old(self).cursor().list(),
            final(self).cursor().position() == prev_cyclic(
                old(self).cursor().position(),
                old(self).cursor().list()@.len() as int,
            ),
            r == (if final(self).cursor().position() < old(self).cursor().list()@.len() {
                Some(&old(self).cursor().list()@[final(self).cursor().position()])
            } else {
                None
            }),
    {
        self.cursor.move_prev_cyclic();
        self.cursor.current()
    }
}

impl<'a, T> CursorIterMut<'a, T> {
    /// The cursor that the iterator walks.
    pub closed spec fn cursor(self) -> CursorMut<'a, T> {
        self.cursor
    }

    /// Once the iterator is no longer used, the list is what the iterator
    /// has made of it.
    pub proof fn lemma_released(self)
        requires
            has_resolved(self),
        ensures
            *self.cursor().list() == *final(self.cursor().list()),
    {
        self.cursor.lemma_released();
    }

    /// Gives back the cursor, where the iterator has left it, as a cursor
    /// that only reads.
    pub fn into_cursor(self) -> (c: Cursor<'a, T>)
        ensures
            c == self.cursor().reader(),
            *c.list() == *self.cursor().list(),
            c.position() == self.cursor().position(),
            c.wf() == self.cursor().wf(),
            *final(self.cursor().list()) == *self.cursor().list(),
    {
        self.cursor.into_cursor()
    }

    /// Gives back the cursor, where the iterator has left it.
    pub fn into_cursor_mut(self) -> (c: CursorMut<'a, T>)
        ensures
            c == self.cursor(),
    {
        self.cursor
    }

    /// Turns the iterator round, to walk backward from where it is.
    pub fn rev(self) -> (iter: CursorBackIterMut<'a, T>)
        ensures
            iter.cursor() == self.cursor(),
    {
        CursorBackIterMut { cursor: self.cursor }
    }

    /// Returns the element that `next` would yield, to be changed in place,
    /// without moving.
    pub fn peek(&mut self) -> (r: Option<&mut T>)
        requires
            old(self).cursor().wf(),
        ensures
            r is Some <==> old(self).cursor().position() < old(self).cursor().list()@.len(),
            r is Some ==> *r->0 == old(self).cursor().list()@[old(self).cursor().position()],
            final(self).cursor().wf(),
            final(self).cursor().position() == old(self).cursor().position(),
            final(self).cursor().list()@ == (match r {
                Some(element) => old(self).cursor().list()@.update(
                    old(self).cursor().position(),
                    *final(element),
                ),
                None => old(self).cursor().list()@,
            }),
            *final(final(self).cursor().list()) == *final(old(self).cursor().list()),
    {
        self.cursor.current_mut()
    }

    /// Yields the element at the cursor, to be changed in place, or `None`
    /// at the sentinel, and moves the cursor on by one cyclic step.
    pub fn next(&mut self) -> (r: Option<&mut T>)
        requires
            old(self).cursor().wf(),
        ensures
            r is Some <==> old(self).cursor().position() < old(self).cursor().list()@.len(),
            r is Some ==> *r->0 == old(self).cursor().list()@[old(self).cursor().position()],
            final(self).cursor().wf(),
            final(self).cursor().position() == next_cyclic(
                old(self).cursor().position(),
                old(self).cursor().list()@.len() as int,
            ),
            final(self).cursor().list()@ == (match r {
                Some(element) => old(self).cursor().list()@.update(
                    old(self).cursor().position(),
                    *final(element),
                ),
                None => old(self).cursor().list()@,
            }),
            *final(final(self).cursor().list()) == *final(old(self).cursor().list()),
    {
        let at_element = !self.cursor.is_sentinel_node();
        self.cursor.move_next_cyclic();
        if at_element {
            self.cursor.previous_mut()
        } else {
            None
        }
    }
}

impl<'a, T> CursorBackIterMut<'a, T> {
    /// The cursor that the iterator walks.
    pub closed spec fn cursor(self) -> CursorMut<'a, T> {
        self.cursor
    }

    /// Once the iterator is no longer used, the list is what the iterator
    /// has made of it.
    pub proof fn lemma_released(self)
        requires
            has_resolved(self),
        ensures
            *self.cursor().list() == *final(self.cursor().list()),
    {
        self.cursor.lemma_released();
    }

    /// Gives back the cursor, where the iterator has left it, as a cursor
    /// that only reads.
    pub fn into_cursor(self) -> (c: Cursor<'a, T>)
        ensures
            c == self.cursor().reader(),
            *c.list() == *self.cursor().list(),
            c.position() == self.cursor().position(),
            c.wf() == self.cursor().wf(),
            *final(self.cursor().list()) == *self.cursor().list(),
    {
        self.cursor.into_cursor()
    }

    /// Gives back the cursor, where the iterator has left it.
    pub fn into_cursor_mut(self) -> (c: CursorMut<'a, T>)
        ensures
            c == self.cursor(),
    {
        self.cursor
    }

    /// Turns the iterator round, to walk forward from where it is.
    pub fn rev(self) -> (iter: CursorIterMut<'a, T>)
        ensures
            iter.cursor() == self.cursor(),
    {
        CursorIterMut { cursor: self.cursor }
    }

    /// Returns the element before the cursor, to be changed in place, or
    /// `None` at the front, without moving.
    pub fn peek(&mut self) -> (r: Option<&mut T>)
        requires
            old(self).cursor().wf(),
        ensures
            r is Some <==> old(self).cursor().position() > 0,
            r is Some ==> *r->0 == old(self).cursor().list()@[old(self).cursor().position() - 1],
            final(self).cursor().wf(),
            final(self).cursor().position() == old(self).cursor().position(),
            final(self).cursor().list()@ == (match r {
                Some(element) => old(self).cursor().list()@.update(
                    old(self).cursor().position() - 1,
                    *final(element),
                ),
                None => old(self).cursor().list()@,
            }),
            *final(final(self).cursor().list()) == *final(old(self).cursor().list()),
    {
        self.cursor.previous_mut()
    }

    /// Moves the cursor back by one cyclic step and yields the element
    /// that it is then at, to be changed in place, or `None` at the
    /// sentinel.
    pub fn next(&mut self) -> (r: Option<&mut T>)
        requires
            old(self).cursor().wf(),
        ensures
            r is Some <==> final(self).cursor().position() < old(self).cursor().list()@.len(),
            r is Some ==> *r->0 == old(self).cursor().list()@[final(self).cursor().position()],
            final(self).cursor().wf(),
            final(self).cursor().position() == prev_cyclic(
                old(self).cursor().position(),
                old(self).cursor().list()@.len() as int,
            ),
            final(self).cursor().list()@ == (match r {
                Some(element) => old(self).cursor().list()@.update(
                    final(self).cursor().position(),
                    *final(element),
                ),
                None => old(self).cursor().list()@,
            }),
            *final(final(self).cursor().list()) == *final(old(self).cursor().list()),
    {
        self.cursor.move_prev_cyclic();
        self.cursor.current_mut()
    }
}

impl<'a, T> From<CursorIter<'a, T>> for Cursor<'a, T> {
    fn from(cursor_iter: CursorIter<'a, T>) -> (c: Self)
        ensures
            c == cursor_iter.cursor(),
    {
        cursor_iter.into_cursor()
    }
}

impl<'a, T> vstd::std_specs::convert::FromSpecImpl<CursorIter<'a, T>> for Cursor<'a, T> {
    open spec fn obeys_from_spec() -> bool {
        true
    }

    open spec fn from_spec(cursor_iter: CursorIter<'a, T>) -> Self {
        cursor_iter.cursor()
    }
}

impl<'a, T> From<CursorMut<'a, T>> for Cursor<'a, T> {
    fn from(cursor: CursorMut<'a, T>) -> (c: Self)
        ensures
            c == cursor.reader(),
    {
        cursor.into_cursor()
    }
}

impl<'a, T> vstd::std_specs::convert::FromSpecImpl<CursorMut<'a, T>> for Cursor<'a, T> {
    open spec fn obeys_from_spec() -> bool {
        true
    }

    open spec fn from_spec(cursor: CursorMut<'a, T>) -> Self {
        cursor.reader()
    }
}

impl<'a, T> From<CursorIterMut<'a, T>> for CursorIter<'a, T> {
    fn from(cursor_iter: CursorIterMut<'a, T>) -> (iter: Self)
        ensures
            iter.cursor() == cursor_iter.cursor().reader(),
    {
        cursor_iter.into_cursor().into_iter()
    }
}

impl<'a, T> vstd::std_specs::convert::FromSpecImpl<CursorIterMut<'a, T>> for CursorIter<'a, T> {
    open spec fn obeys_from_spec() -> bool {
        true
    }

    open spec fn from_spec(cursor_iter: CursorIterMut<'a, T>) -> Self {
        CursorIter::around(cursor_iter.cursor().reader())
    }
}

impl<'a, T> From<CursorIterMut<'a, T>> for CursorMut<'a, T> {
    fn from(cursor_iter: CursorIterMut<'a, T>) -> (c: Self)
        ensures
            c == cursor_iter.cursor(),
    {
        cursor_iter.into_cursor_mut()
    }
}

impl<'a, T> vstd::std_specs::convert::FromSpecImpl<CursorIterMut<'a, T>> for CursorMut<'a, T> {
    open spec fn obeys_from_spec() -> bool {
        true
    }

    open spec fn from_spec(cursor_iter: CursorIterMut<'a, T>) -> Self {
        cursor_iter.cursor()
    }
}

} // verus!
