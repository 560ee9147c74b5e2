use crate::list::model::lemma_distinct;
use crate::list::List;
use vstd::prelude::*;
use vstd::std_specs::iter::IteratorSpec;

verus! {

/// An iterator over the elements of a [`List`], from either end. Once the
/// two ends have met it yields nothing more.
pub struct Iter<'a, T> {
    start: usize,
    end: usize,
    len: usize,
    list: &'a List<T>,
    front: Ghost<int>,
}

/// An iterator over the elements of a [`List`], from either end, that lends
/// each element to be changed in place.
pub struct IterMut<'a, T> {
    start: usize,
    end: usize,
    len: usize,
    list: &'a mut List<T>,
    front: Ghost<int>,
}

/// An iterator that owns a [`List`] and takes its elements out, from either
/// end.
pub struct IntoIter<T> {
    list: List<T>,
}

/// What `next` yields, call after call, until it yields `None`, from an
/// iterator that has `remaining` to yield.
pub open spec fn yields_of_next<T>(remaining: Seq<T>) -> Seq<T>
    decreases remaining.len(),
{
    if remaining.len() == 0 {
        Seq::empty()
    } else {
        seq![remaining[0]] + yields_of_next(remaining.drop_first())
    }
}

/// What `next_back` yields, call after call, until it yields `None`, from
/// an iterator that has `remaining` to yield.
pub open spec fn yields_of_next_back<T>(remaining: Seq<T>) -> Seq<T>
    decreases remaining.len(),
{
    if remaining.len() == 0 {
        Seq::empty()
    } else {
        seq![remaining.last()] + yields_of_next_back(remaining.drop_last())
    }
}

/// The round trip: a list made of a sequence has that sequence to yield,
/// and the iterators over it yield it from the front as it is, and from the
/// back reversed.
pub proof fn lemma_round_trip<T>(items: Seq<T>)
    ensures
        yields_of_next(items) == items,
        yields_of_next_back(items) == items.reverse(),
    decreases items.len(),
{
    if items.len() > 0 {
        lemma_round_trip(items.drop_first());
        lemma_round_trip(items.drop_last());
        assert(seq![items[0]] + items.drop_first() =~= items);
        assert(seq![items.last()] + items.drop_last().reverse() =~= items.reverse());
    } else {
        assert(items.reverse() =~= Seq::<T>::empty());
        assert(items =~= Seq::<T>::empty());
    }
}

impl<'a, T> Clone for Iter<'a, T> {
    fn clone(&self) -> (iter: Self)
        ensures
            iter == *self,
    {
        Iter {
            start: self.start,
            end: self.end,
            len: self.len,
            list: self.list,
            front: self.front,
        }
    }
}

impl<'a, T> Iter<'a, T> {
    /// The list that the iterator reads.
    pub closed spec fn list(&self) -> &'a List<T> {
        self.list
    }

    /// The position of the element that `next` yields.
    pub closed spec fn position(&self) -> int {
        self.front@
    }

    /// The elements that the iterator has yet to yield, front first.
    pub closed spec fn remaining(&self) -> Seq<T> {
        self.list@.subrange(self.front@, self.front@ + self.len)
    }

    /// The iterator stands on a range of a well-formed list.
    pub closed spec fn wf(&self) -> bool {
        &&& self.list.wf()
        &&& 0 <= self.front@
        &&& self.front@ + self.len <= self.list@.len()
        &&& self.start == self.list.slot(self.front@)
        &&& self.end == self.list.slot(self.front@ + self.len)
    }

    /// What remains is the part of the list that begins at `position`.
    pub proof fn lemma_remaining(&self)
        requires
            self.wf(),
        ensures
            0 <= self.position(),
            self.position() + self.remaining().len() <= self.list()@.len(),
            self.remaining() == self.list()@.subrange(
                self.position(),
                self.position() + self.remaining().len(),
            ),
    {
    }

    pub(crate) fn new(list: &'a List<T>) -> (iter: Self)
        requires
            list.wf(),
        ensures
            iter.wf(),
            iter.list() == list,
            iter.position() == 0,
            iter.remaining() == list@,
    {
        let start = list.front_node();
        let end = list.sentinel();
        let len = list.len();
        proof {
            list.lemma_sentinel();
            assert(list@.subrange(0, list@.len() as int) =~= list@);
        }
        Iter { start, end, len, list, front: Ghost(0) }
    }

    /// Yields the next element from the front.
    pub fn next(&mut self) -> (r: Option<&'a T>)
        requires
            old(self).wf(),
        ensures
            final(self).wf(),
            final(self).list() == old(self).list(),
            if old(self).remaining().len() > 0 {
                &&& r == Some(&old(self).remaining()[0])
                &&& final(self).remaining() == old(self).remaining().drop_first()
                &&& final(self).position() == old(self).position() + 1
            } else {
                &&& r.is_none()
                &&& final(self).remaining() == old(self).remaining()
                &&& final(self).position() == old(self).position()
            },
    {
        proof {
            self.list.lemma_sentinel();
            lemma_distinct(self.list.ring(), self.front@, self.front@ + self.len);
        }
        if self.start == self.end {
            return None;
        }
        let element = self.list.element(self.start, Ghost(self.front@));
        self.start = self.list.next_of(self.start, Ghost(self.front@));
        self.len = self.len - 1;
        proof {
            self.front@ = self.front@ + 1;
            assert(self.remaining() =~= old(self).remaining().drop_first());
        }
        Some(element)
    }

    /// Yields the next element from the back.
    pub fn next_back(&mut self) -> (r: Option<&'a T>)
        requires
            old(self).wf(),
        ensures
            final(self).wf(),
            final(self).list() == old(self).list(),
            final(self).position() == old(self).position(),
            if old(self).remaining().len() > 0 {
                &&& r == Some(&old(self).remaining().last())
                &&& final(self).remaining() == old(self).remaining().drop_last()
            } else {
                &&& r.is_none()
                &&& final(self).remaining() == old(self).remaining()
            },
    {
        proof {
            self.list.lemma_sentinel();
            lemma_distinct(self.list.ring(), self.front@, self.front@ + self.len);
        }
        if self.start == self.end {
            return None;
        }
        self.end = self.list.prev_of(self.end, Ghost(self.front@ + self.len));
        let element = self.list.element(self.end, Ghost(self.front@ + self.len - 1));
        self.len = self.len - 1;
        proof {
            assert(self.remaining() =~= old(self).remaining().drop_last());
        }
        Some(element)
    }

    /// Returns the number of elements that the iterator has yet to yield.
    pub fn len(&self) -> (n: usize)
        requires
            self.wf(),
        ensures
            n == self.remaining().len(),
    {
        self.len
    }

    /// Returns the bounds on what the iterator has yet to yield: both are
    /// its length.
    pub fn size_hint(&self) -> (r: (usize, Option<usize>))
        requires
            self.wf(),
        ensures
            r.0 == self.remaining().len(),
            r.1 == Some(r.0),
    {
        (self.len, Some(self.len))
    }

    /// Gathers what the iterator has yet to yield, front first.
    pub fn collect(self) -> (items: Vec<&'a T>)
        requires
            self.wf(),
        ensures
            items@.len() == self.remaining().len(),
            forall|i: int| 0 <= i < items@.len() ==> *#[trigger] items@[i] == self.remaining()[i],
    {
        let mut iter = self;
        let mut items: Vec<&'a T> = Vec::new();
        loop
            invariant
                iter.wf(),
                items@.len() + iter.remaining().len() == self.remaining().len(),
                iter.remaining() == self.remaining().subrange(
                    items@.len() as int,
                    self.remaining().len() as int,
                ),
                forall|i: int|
                    0 <= i < items@.len() ==> *#[trigger] items@[i] == self.remaining()[i],
            ensures
                iter.remaining().len() == 0,
            decreases iter.remaining().len(),
        {
            let ghost done = items@.len() as int;
            match iter.next() {
                Some(item) => {
                    items.push(item);
                    proof {
                        assert(iter.remaining() =~= self.remaining().subrange(
                            done + 1,
                            self.remaining().len() as int,
                        ));
                    }
                },
                None => {
                    break ;
                },
            }
        }
        proof {
            assert(self.remaining().subrange(0, self.remaining().len() as int)
                =~= self.remaining());
        }
        items
    }

    /// Returns the last element that the iterator would yield.
    pub fn last(self) -> (r: Option<&'a T>)
        requires
            self.wf(),
        ensures
            r == (if self.remaining().len() > 0 {
                Some(&self.remaining().last())
            } else {
                None
            }),
    {
        let mut iter = self;
        iter.next_back()
    }
}

impl<'a, T> IterMut<'a, T> {
    /// The list that the iterator has borrowed.
    pub closed spec fn list(self) -> &'a mut List<T> {
        self.list
    }

    /// The position of the element that `next` yields.
    pub closed spec fn position(&self) -> int {
        self.front@
    }

    /// The elements that the iterator has yet to yield, front first.
    pub closed spec fn remaining(&self) -> Seq<T> {
        self.list@.subrange(self.front@, self.front@ + self.len)
    }

    /// The iterator stands on a range of a well-formed list.
    pub closed spec fn wf(&self) -> bool {
        &&& self.list.wf()
        &&& 0 <= self.front@
        &&& self.front@ + self.len <= self.list@.len()
        &&& self.start == self.list.slot(self.front@)
        &&& self.end == self.list.slot(self.front@ + self.len)
    }

    /// What remains is the part of the list that begins at `position`, and
    /// the list is well formed.
    pub proof fn lemma_remaining(self)
        requires
            self.wf(),
        ensures
            self.list().wf(),
            0 <= self.position(),
            self.position() + self.remaining().len() <= self.list()@.len(),
            self.remaining() == self.list()@.subrange(
                self.position(),
                self.position() + self.remaining().len(),
            ),
    {
    }

    /// Once the iterator is no longer used, the list is what the iterator
    /// has made of it.
    pub proof fn lemma_released(self)
        requires
            has_resolved(self),
        ensures
            *self.list() == *final(self.list()),
    {
    }

    pub(crate) fn new(list: &'a mut List<T>) -> (iter: Self)
        requires
            old(list).wf(),
        ensures
            iter.wf(),
            *iter.list() == *old(list),
            *final(iter.list()) == *final(list),
            iter.position() == 0,
            iter.remaining() == old(list)@,
    {
        let start = list.front_node();
        let end = list.sentinel();
        let len = list.len();
        proof {
            list.lemma_sentinel();
            assert(list@.subrange(0, list@.len() as int) =~= list@);
        }
        IterMut { start, end, len, list, front: Ghost(0) }
    }

    /// Yields the next element from the front, to be changed in place.
    pub fn next(&mut self) -> (r: Option<&mut T>)
        requires
            old(self).wf(),
        ensures
            final(self).wf(),
            *final(final(self).list()) == *final(old(self).list()),
            match r {
                Some(element) => {
                    &&& old(self).remaining().len() > 0
                    &&& *element == old(self).remaining()[0]
                    &&& final(self).remaining() == old(self).remaining().drop_first()
                    &&& final(self).position() == old(self).position() + 1
                    &&& final(self).list()@ == old(self).list()@.update(
                        old(self).position(),
                        *final(element),
                    )
                },
                None => {
                    &&& old(self).remaining().len() == 0
                    &&& final(self).remaining() == old(self).remaining()
                    &&& final(self).position() == old(self).position()
                    &&& final(self).list()@ == old(self).list()@
                },
            },
    {
        proof {
            self.list.lemma_sentinel();
            lemma_distinct(self.list.ring(), self.front@, self.front@ + self.len);
        }
        if self.start == self.end {
            return None;
        }
        let current = self.start;
        self.start = self.list.next_of(current, Ghost(self.front@));
        self.len = self.len - 1;
        proof {
            self.front@ = self.front@ + 1;
            let view0 = old(self).list()@;
            let i = old(self).front@;
            let n = i + old(self).len;
            assert forall|e: T| (#[trigger] view0.update(i, e)).subrange(i + 1, n) == old(
                self,
            ).remaining().drop_first() by {
                assert(view0.update(i, e).subrange(i + 1, n) =~= old(
                    self,
                ).remaining().drop_first());
            }
        }
        self.list.element_mut(current, Ghost(self.front@ - 1))
    }

    /// Yields the next element from the back, to be changed in place.
    pub fn next_back(&mut self) -> (r: Option<&mut T>)
        requires
            old(self).wf(),
        ensures
            final(self).wf(),
            final(self).position() == old(self).position(),
            *final(final(self).list()) == *final(old(self).list()),
            match r {
                Some(element) => {
                    &&& old(self).remaining().len() > 0
                    &&& *element == old(self).remaining().last()
                    &&& final(self).remaining() == old(self).remaining().drop_last()
                    &&& final(self).list()@ == old(self).list()@.update(
                        old(self).position() + old(self).remaining().len() - 1,
                        *final(element),
                    )
                },
                None => {
                    &&& old(self).remaining().len() == 0
                    &&& final(self).remaining() == old(self).remaining()
                    &&& final(self).list()@ == old(self).list()@
                },
            },
    {
        proof {
            self.list.lemma_sentinel();
            lemma_distinct(self.list.ring(), self.front@, self.front@ + self.len);
        }
        if self.start == self.end {
            return None;
        }
        self.end = self.list.prev_of(self.end, Ghost(self.front@ + self.len));
        self.len = self.len - 1;
        proof {
            let view0 = old(self).list()@;
            let i = old(self).front@;
            let n = i + old(self).len;
            assert forall|e: T| (#[trigger] view0.update(n - 1, e)).subrange(i, n - 1) == old(
                self,
            ).remaining().drop_last() by {
                assert(view0.update(n - 1, e).subrange(i, n - 1) =~= old(
                    self,
                ).remaining().drop_last());
            }
        }
        self.list.element_mut(self.end, Ghost(self.front@ + self.len))
    }

    /// Returns the number of elements that the iterator has yet to yield.
    pub fn len(&self) -> (n: usize)
        requires
            self.wf(),
        ensures
            n == self.remaining().len(),
    {
        self.len
    }

    /// Returns the bounds on what the iterator has yet to yield: both are
    /// its length.
    pub fn size_hint(&self) -> (r: (usize, Option<usize>))
        requires
            self.wf(),
        ensures
            r.0 == self.remaining().len(),
            r.1 == Some(r.0),
    {
        (self.len, Some(self.len))
    }
}

impl<T> IntoIter<T> {
    /// The elements that the iterator has yet to yield, front first.
    pub closed spec fn remaining(&self) -> Seq<T> {
        self.list@
    }

    /// The iterator holds a well-formed list.
    pub closed spec fn wf(&self) -> bool {
        self.list.wf()
    }

    /// Yields the next element from the front.
    pub fn next(&mut self) -> (r: Option<T>)
        requires
            old(self).wf(),
        ensures
            final(self).wf(),
            if old(self).remaining().len() > 0 {
                &&& r == Some(old(self).remaining()[0])
                &&& final(self).remaining() == old(self).remaining().drop_first()
            } else {
                &&& r.is_none()
                &&& final(self).remaining() == old(self).remaining()
            },
    {
        self.list.pop_front()
    }

    /// Yields the next element from the back.
    pub fn next_back(&mut self) -> (r: Option<T>)
        requires
            old(self).wf(),
        ensures
            final(self).wf(),
            if old(self).remaining().len() > 0 {
                &&& r == Some(old(self).remaining().last())
                &&& final(self).remaining() == old(self).remaining().drop_last()
            } else {
                &&& r.is_none()
                &&& final(self).remaining() == old(self).remaining()
            },
    {
        self.list.pop_back()
    }

    /// Returns the number of elements that the iterator has yet to yield.
    pub fn len(&self) -> (n: usize)
        requires
            self.wf(),
        ensures
            n == self.remaining().len(),
    {
        self.list.len()
    }

    /// Returns the bounds on what the iterator has yet to yield: both are
    /// its length.
    pub fn size_hint(&self) -> (r: (usize, Option<usize>))
        requires
            self.wf(),
        ensures
            r.0 == self.remaining().len(),
            r.1 == Some(r.0),
    {
        let len = self.list.len();
        (len, Some(len))
    }

    /// Gathers what the iterator has yet to yield, front first.
    pub fn collect(self) -> (items: Vec<T>)
        requires
            self.wf(),
        ensures
            items@ == self.remaining(),
    {
        let mut iter = self;
        let mut items: Vec<T> = Vec::new();
        loop
            invariant
                iter.wf(),
                items@ + iter.remaining() == self.remaining(),
            ensures
                iter.remaining().len() == 0,
            decreases iter.remaining().len(),
        {
            let ghost before = iter.remaining();
            let ghost gathered = items@;
            match iter.next() {
                Some(item) => {
                    items.push(item);
                    proof {
                        assert(items@ + iter.remaining() =~= gathered + before);
                    }
                },
                None => {
                    break ;
                },
            }
        }
        proof {
            assert(items@ + iter.remaining() =~= items@);
        }
        items
    }

    /// Returns the last element that the iterator would yield.
    pub fn last(self) -> (r: Option<T>)
        requires
            self.wf(),
        ensures
            r == (if self.remaining().len() > 0 {
                Some(self.remaining().last())
            } else {
                None
            }),
    {
        let mut iter = self;
        iter.next_back()
    }
}

impl<T> List<T> {
    /// Provides an iterator over the elements, front first.
    pub fn iter(&self) -> (iter: Iter<'_, T>)
        requires
            self.wf(),
        ensures
            iter.wf(),
            iter.list() == self,
            iter.position() == 0,
            iter.remaining() == self@,
    {
        Iter::new(self)
    }

    /// Provides an iterator over the elements, front first, that lends each
    /// element to be changed in place.
    pub fn iter_mut(&mut self) -> (iter: IterMut<'_, T>)
        requires
            old(self).wf(),
        ensures
            iter.wf(),
            *iter.list() == *old(self),
            *final(iter.list()) == *final(self),
            iter.position() == 0,
            iter.remaining() == old(self)@,
    {
        IterMut::new(self)
    }

    /// Turns the list into an iterator that takes its elements out.
    pub fn into_iter(self) -> (iter: IntoIter<T>)
        requires
            self.wf(),
        ensures
            iter.wf(),
            iter.remaining() == self@,
    {
        IntoIter { list: self }
    }

    /// Makes a list of the items that `iter` yields, in the order in which
    /// it yields them.
    pub fn from_iter<I: Iterator<Item = T>>(iter: I) -> (list: Self)
        requires
            iter.obeys_prophetic_iter_laws(),
            iter.decrease() is Some,
        ensures
            list.wf(),
            list@ == iter.remaining(),
    {
        let mut list = List::new();
        list.extend(iter);
        list
    }

    /// Appends each item that `iter` yields, in the order in which it
    /// yields them.
    pub fn extend<I: Iterator<Item = T>>(&mut self, iter: I)
        requires
            old(self).wf(),
            iter.obeys_prophetic_iter_laws(),
            iter.decrease() is Some,
        ensures
            final(self).wf(),
            final(self)@ == old(self)@ + iter.remaining(),
    {
        let mut iter = iter;
        let ghost items = iter.remaining();
        let ghost mut done: int = 0;
        loop
            invariant
                self.wf(),
                iter.obeys_prophetic_iter_laws(),
                iter.decrease() is Some,
                0 <= done <= items.len(),
                iter.remaining() == items.subrange(done, items.len() as int),
                self@ == old(self)@ + items.subrange(0, done),
            ensures
                done == items.len(),
            decreases iter.decrease()->0,
        {
            match iter.next() {
                Some(item) => {
                    self.push_back(item);
                    proof {
                        assert(items.subrange(done, items.len() as int).drop_first()
                            =~= items.subrange(done + 1, items.len() as int));
                        assert(old(self)@ + items.subrange(0, done + 1) =~= (old(self)@
                            + items.subrange(0, done)).push(item));
                        done = done + 1;
                    }
                },
                None => {
                    break ;
                },
            }
        }
        proof {
            assert(items.subrange(0, done) =~= items);
        }
    }
}

} // verus!
