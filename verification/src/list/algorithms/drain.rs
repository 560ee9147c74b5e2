use crate::list::cursor::CursorMut;
use crate::list::List;
use vstd::prelude::*;

verus! {

/// An iterator that takes the elements of a [`List`] out of it, front
/// first.
pub struct Drain<'a, T> {
    list: &'a mut List<T>,
}

impl<'a, T> Drain<'a, T> {
    /// The list that is being drained.
    pub closed spec fn list(self) -> &'a mut List<T> {
        self.list
    }

    /// Once the drain is no longer used, the list is what the drain has
    /// left of it.
    pub proof fn lemma_released(self)
        requires
            has_resolved(self),
        ensures
            *self.list() == *final(self.list()),
    {
    }

    pub(crate) fn new(list: &'a mut List<T>) -> (drain: Self)
        ensures
            *drain.list() == *old(list),
            *final(drain.list()) == *final(list),
    {
        Drain { list }
    }

    /// Takes the first element out of the list and yields it, or yields
    /// `None` if the list is empty.
    pub fn next(&mut self) -> (r: Option<T>)
        requires
            old(self).list().wf(),
        ensures
            final(self).list().wf(),
            *final(final(self).list()) == *final(old(self).list()),
            match r {
                Some(item) => {
                    &&& old(self).list()@.len() > 0
                    &&& item == old(self).list()@[0]
                    &&& final(self).list()@ == old(self).list()@.drop_first()
                },
                None => old(self).list()@.len() == 0 && final(self).list()@ == old(self).list()@,
            },
    {
        self.list.pop_front()
    }

    /// Ends the drain: what it has not yielded is dropped, and the list is
    /// left empty.
    pub fn finish(self)
        requires
            self.list().wf(),
        ensures
            final(self.list()).wf(),
            final(self.list())@ == Seq::<T>::empty(),
    {
        self.list.clear();
    }
}

/// An iterator that takes out of a [`List`] the elements that a filter
/// picks, front first, and leaves the others in the list.
pub struct DrainFilter<'a, T, F> where F: FnMut(&mut T) -> bool {
    cursor: CursorMut<'a, T>,
    filter: F,
}

/// A walk over `before` from the position `start` to the position `k` has
/// left `seen`: outside the positions `start ..= k` nothing has changed.
pub open spec fn walked<T>(before: Seq<T>, seen: Seq<T>, start: int, k: int) -> bool {
    &&& start <= k <= before.len()
    &&& seen.len() == before.len()
    &&& forall|i: int|
        0 <= i < before.len() && !(start <= i <= k) ==> #[trigger] seen[i] == before[i]
}

/// The walk from `start` to `k` has passed over the position `i`.
pub open spec fn passed(start: int, i: int, k: int) -> bool {
    start <= i < k
}

impl<'a, T, F> DrainFilter<'a, T, F> where F: FnMut(&mut T) -> bool {
    /// The cursor that walks the list.
    pub closed spec fn cursor(self) -> CursorMut<'a, T> {
        self.cursor
    }

    /// The filter that picks the elements to take out.
    pub closed spec fn filter(self) -> F {
        self.filter
    }

    /// Once the drain is no longer used, the list is what the drain has
    /// left of it.
    pub proof fn lemma_released(self)
        requires
            has_resolved(self),
        ensures
            *self.cursor().list() == *final(self.cursor().list()),
    {
        self.cursor.lemma_released();
    }

    pub(crate) fn new(list: &'a mut List<T>, filter: F) -> (drain: Self)
        requires
            old(list).wf(),
        ensures
            drain.cursor().wf(),
            *drain.cursor().list() == *old(list),
            *final(drain.cursor().list()) == *final(list),
            drain.cursor().position() == 0,
            drain.filter() == filter,
    {
        let cursor = list.cursor_start_mut();
        DrainFilter { cursor, filter }
    }

    /// Walks on from the cursor and calls the filter on each element in
    /// turn, which may change it. The first element that the filter picks is
    /// taken out of the list and yielded; the cursor then stands where it
    /// was. If the filter picks none, the cursor stops at the sentinel and
    /// `None` is yielded.
    ///
    /// In the contract, `k` is the position at which the walk ends and
    /// `seen` is the list as the filter has left it, before the element at
    /// `k` is taken out.
    pub fn next(&mut self) -> (r: Option<T>)
        requires
            old(self).cursor().wf(),
            forall|element: &mut T|
                old(self).cursor().list()@.contains(*element) ==> #[trigger] call_requires(
                    old(self).filter(),
                    (element,),
                ),
        ensures
            final(self).cursor().wf(),
            final(self).filter() == old(self).filter(),
            *final(final(self).cursor().list()) == *final(old(self).cursor().list()),
            exists|k: int, seen: Seq<T>|
                {
                    &&& #[trigger] walked(
                        old(self).cursor().list()@,
                        seen,
                        old(self).cursor().position(),
                        k,
                    )
                    &&& forall|i: int| #[trigger]
                        passed(old(self).cursor().position(), i, k) ==> exists|element: &mut T|
                            *element == old(self).cursor().list()@[i] && *final(element) == seen[i]
                                && #[trigger] call_ensures(old(self).filter(), (element,), false)
                    &&& final(self).cursor().position() == k
                    &&& if k < seen.len() {
                        &&& exists|element: &mut T|
                            *element == old(self).cursor().list()@[k] && *final(element) == seen[k]
                                && #[trigger] call_ensures(old(self).filter(), (element,), true)
                        &&& r == Some(seen[k])
                        &&& final(self).cursor().list()@ == seen.remove(k)
                    } else {
                        &&& r.is_none()
                        &&& final(self).cursor().list()@ == seen
                    }
                },
    {
        let ghost before = self.cursor.list()@;
        let ghost start = self.cursor.position();
        let ghost filter = self.filter;
        let ghost mut seen = before;
        let ghost mut k = start;
        loop
            invariant
                self.cursor.wf(),
                self.filter == filter,
                filter == old(self).filter(),
                *final(self.cursor.list()) == *final(old(self).cursor().list()),
                before == old(self).cursor().list()@,
                start == old(self).cursor().position(),
                0 <= start,
                forall|element: &mut T|
                    before.contains(*element) ==> #[trigger] call_requires(filter, (element,)),
                walked(before, seen, start, k),
                k < before.len() ==> seen[k] == before[k],
                self.cursor.list()@ == seen,
                self.cursor.position() == k,
                forall|i: int| #[trigger]
                    passed(start, i, k) ==> exists|element: &mut T|
                        *element == before[i] && *final(element) == seen[i] && #[trigger] call_ensures(
                            filter,
                            (element,),
                            false,
                        ),
            decreases before.len() - k,
        {
            let ghost seen0 = seen;
            match self.cursor.current_mut() {
                None => {
                    return None;
                },
                Some(element) => {
                    assert(before.contains(*element)) by {
                        assert(before[k] == *element);
                    }
                    if (self.filter)(element) {
                        proof {
                            seen = self.cursor.list()@;
                            assert(walked(before, seen, start, k));
                            assert forall|i: int| #[trigger] passed(start, i, k) implies exists|
                                element: &mut T,
                            |
                                *element == before[i] && *final(element) == seen[i]
                                    && #[trigger] call_ensures(filter, (element,), false) by {
                                assert(passed(start, i, k));
                                assert(seen[i] == seen0[i]);
                            }
                        }
                        return self.cursor.remove();
                    }
                    proof {
                        seen = self.cursor.list()@;
                    }
                },
            }
            self.cursor.move_next_cyclic();
            proof {
                assert forall|i: int| #[trigger] passed(start, i, k + 1) implies exists|
                    element: &mut T,
                |
                    *element == before[i] && *final(element) == seen[i] && #[trigger] call_ensures(
                        filter,
                        (element,),
                        false,
                    ) by {
                    if i < k {
                        assert(passed(start, i, k));
                        assert(seen[i] == seen0[i]);
                    }
                }
                k = k + 1;
            }
        }
    }
}

} // verus!
