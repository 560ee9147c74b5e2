use crate::list::order::{
    decided_by, rearranged_by, sorted_with, stable_sort_by, strict_weak_order,
};
use crate::list::List;
use core::cmp::Ordering;
use vstd::prelude::*;
use vstd::std_specs::cmp::{OrdSpec, PartialEqSpec, PartialOrdSpec};

pub mod drain;
pub mod sort;

verus! {

/// Two sequences are equal element by element.
pub open spec fn eq_elementwise<T: PartialEq>(a: Seq<T>, b: Seq<T>) -> bool {
    &&& a.len() == b.len()
    &&& forall|i: int| 0 <= i < a.len() ==> (#[trigger] a[i]).eq_spec(&b[i])
}

/// The lexicographic comparison of what two sequences hold from position
/// `i` on: the first pair of elements that is not equal decides, and a
/// sequence that ends first is the lesser.
pub open spec fn partial_cmp_from<T: PartialOrd>(a: Seq<T>, b: Seq<T>, i: int) -> Option<Ordering>
    decreases a.len() - i,
{
    if i >= a.len() {
        if i >= b.len() {
            Some(Ordering::Equal)
        } else {
            Some(Ordering::Less)
        }
    } else if i >= b.len() {
        Some(Ordering::Greater)
    } else {
        match a[i].partial_cmp_spec(&b[i]) {
            Some(Ordering::Equal) => partial_cmp_from(a, b, i + 1),
            decided => decided,
        }
    }
}

/// The lexicographic comparison, by a total order, of what two sequences
/// hold from position `i` on.
pub open spec fn cmp_from<T: Ord>(a: Seq<T>, b: Seq<T>, i: int) -> Ordering
    decreases a.len() - i,
{
    if i >= a.len() {
        if i >= b.len() {
            Ordering::Equal
        } else {
            Ordering::Less
        }
    } else if i >= b.len() {
        Ordering::Greater
    } else {
        match a[i].cmp_spec(&b[i]) {
            Ordering::Equal => cmp_from(a, b, i + 1),
            decided => decided,
        }
    }
}

/// The order of a type's own `<`.
pub open spec fn natural_lt<T: PartialOrd>() -> spec_fn(T, T) -> bool {
    |a: T, b: T| a.partial_cmp_spec(&b) == Some(Ordering::Less)
}

/// The order of a type's own `<=`.
pub open spec fn natural_le<T: PartialOrd>() -> spec_fn(T, T) -> bool {
    |a: T, b: T|
        a.partial_cmp_spec(&b) == Some(Ordering::Less) || a.partial_cmp_spec(&b) == Some(
            Ordering::Equal,
        )
}

/// Each element of `s` stands, by `le`, in order with the next.
pub open spec fn ascending_by<T>(s: Seq<T>, le: spec_fn(T, T) -> bool) -> bool {
    forall|i: int| 0 <= i && i + 1 < s.len() ==> le(#[trigger] s[i], s[i + 1])
}

/// A type whose comparisons obey their laws has a strict weak order in its
/// `<`.
pub proof fn lemma_natural_lt_is_strict_weak_order<T: Ord>()
    requires
        vstd::laws_cmp::obeys_cmp::<T>(),
    ensures
        strict_weak_order(natural_lt::<T>()),
        T::obeys_partial_cmp_spec(),
{
    reveal(vstd::laws_cmp::obeys_cmp_partial_ord);
    reveal(vstd::laws_cmp::obeys_cmp_ord);
    reveal(vstd::laws_cmp::obeys_partial_cmp_spec_properties);
    reveal(vstd::laws_eq::obeys_eq_spec_properties);
    let lt = natural_lt::<T>();
    assert forall|a: T| !#[trigger] lt(a, a) by {
        assert(a.partial_cmp_spec(&a) == Some(a.cmp_spec(&a)));
        if a.partial_cmp_spec(&a) == Some(Ordering::Less) {
            assert(a.partial_cmp_spec(&a) == Some(Ordering::Greater));
        }
    }
    assert forall|a: T, b: T, c: T| #[trigger] lt(a, b) && #[trigger] lt(b, c) implies lt(
        a,
        c,
    ) by {}
    assert forall|a: T, b: T, c: T| !#[trigger] lt(a, b) && !#[trigger] lt(b, c) implies !lt(
        a,
        c,
    ) by {
        assert(a.partial_cmp_spec(&b) == Some(a.cmp_spec(&b)));
        assert(b.partial_cmp_spec(&c) == Some(b.cmp_spec(&c)));
        assert(a.partial_cmp_spec(&c) == Some(a.cmp_spec(&c)));
        assert(c.partial_cmp_spec(&a) == Some(c.cmp_spec(&a)));
        assert(c.partial_cmp_spec(&b) == Some(c.cmp_spec(&b)));
        assert(b.partial_cmp_spec(&a) == Some(b.cmp_spec(&a)));
        if lt(a, c) {
            // `a < c`, yet `b <= a` and `c <= b`.
            if b.partial_cmp_spec(&a) == Some(Ordering::Less) {
                assert(lt(b, a) && lt(a, c) ==> lt(b, c));
                assert(lt(b, c));
                assert(c.partial_cmp_spec(&b) == Some(Ordering::Greater));
            } else {
                assert(a.eq_spec(&b));
                if c.partial_cmp_spec(&b) == Some(Ordering::Less) {
                    assert(lt(a, c) && lt(c, b) ==> lt(a, b));
                } else {
                    assert(b.eq_spec(&c));
                    assert(a.eq_spec(&b) && b.eq_spec(&c) ==> a.eq_spec(&c));
                    assert(a.partial_cmp_spec(&c) == Some(Ordering::Equal));
                }
            }
        }
    }
}

/// Walks `cursor` from the front over clones of the elements of `other`:
/// each element under the cursor is overwritten, and where the list ends
/// the clones are inserted. The cursor stops behind the last clone.
fn clone_over<T: Clone>(cursor: &mut crate::list::cursor::CursorMut<'_, T>, other: &List<T>)
    requires
        old(cursor).wf(),
        old(cursor).position() == 0,
        other.wf(),
    ensures
        final(cursor).wf(),
        *final(final(cursor).list()) == *final(old(cursor).list()),
        final(cursor).position() == other@.len(),
        forall|i: int|
            0 <= i < other@.len() ==> cloned(#[trigger] other@[i], final(cursor).list()@[i]),
{
    let mut iter = other.iter();
    loop
        invariant
            cursor.wf(),
            *final(cursor.list()) == *final(old(cursor).list()),
            iter.wf(),
            iter.list() == other,
            iter.position() + iter.remaining().len() == other@.len(),
            cursor.position() == iter.position(),
            forall|i: int|
                0 <= i < cursor.position() ==> cloned(#[trigger] other@[i], cursor.list()@[i]),
        ensures
            cursor.position() == other@.len(),
        decreases iter.remaining().len(),
    {
        proof {
            iter.lemma_remaining();
        }
        let ghost before = cursor.list()@;
        let ghost k = cursor.position();
        match iter.next() {
            Some(element) => {
                let copy = element.clone();
                match cursor.current_mut() {
                    Some(place) => {
                        *place = copy;
                        let _ = cursor.move_next();
                    },
                    None => {
                        cursor.insert(copy);
                    },
                }
                proof {
                    assert forall|i: int| 0 <= i < k + 1 implies cloned(
                        #[trigger] other@[i],
                        cursor.list()@[i],
                    ) by {
                        if i < k {
                            assert(cursor.list()@[i] == before[i]);
                        }
                    }
                }
            },
            None => {
                break ;
            },
        }
    }
}

impl<T> List<T> {
    /// Returns `true` if the two lists hold equal elements in the same
    /// order.
    pub fn eq(&self, other: &Self) -> (r: bool) where T: PartialEq
        requires
            self.wf(),
            other.wf(),
        ensures
            T::obeys_eq_spec() ==> r == eq_elementwise(self@, other@),
    {
        let mut a = self.iter();
        let mut b = other.iter();
        loop
            invariant
                a.wf(),
                b.wf(),
                a.list() == self,
                b.list() == other,
                a.position() == b.position(),
                a.position() + a.remaining().len() == self@.len(),
                b.position() + b.remaining().len() == other@.len(),
                T::obeys_eq_spec() ==> forall|i: int|
                    0 <= i < a.position() ==> (#[trigger] self@[i]).eq_spec(&other@[i]),
            decreases a.remaining().len(),
        {
            proof {
                a.lemma_remaining();
                b.lemma_remaining();
            }
            let ghost i = a.position();
            match a.next() {
                None => {
                    return b.next().is_none();
                },
                Some(x) => {
                    match b.next() {
                        None => {
                            return false;
                        },
                        Some(y) => {
                            if !x.eq(y) {
                                proof {
                                    if T::obeys_eq_spec() {
                                        assert(!self@[i].eq_spec(&other@[i]));
                                    }
                                }
                                return false;
                            }
                        },
                    }
                },
            }
        }
    }

    /// Compares the two lists lexicographically, as far as their elements
    /// can be compared.
    pub fn partial_cmp(&self, other: &Self) -> (r: Option<Ordering>) where T: PartialOrd
        requires
            self.wf(),
            other.wf(),
        ensures
            T::obeys_partial_cmp_spec() ==> r == partial_cmp_from(self@, other@, 0),
    {
        let mut a = self.iter();
        let mut b = other.iter();
        loop
            invariant
                a.wf(),
                b.wf(),
                a.list() == self,
                b.list() == other,
                a.position() == b.position(),
                a.position() + a.remaining().len() == self@.len(),
                b.position() + b.remaining().len() == other@.len(),
                T::obeys_partial_cmp_spec() ==> partial_cmp_from(self@, other@, 0)
                    == partial_cmp_from(self@, other@, a.position()),
            decreases a.remaining().len(),
        {
            proof {
                a.lemma_remaining();
                b.lemma_remaining();
            }
            match a.next() {
                None => {
                    return if b.next().is_none() {
                        Some(Ordering::Equal)
                    } else {
                        Some(Ordering::Less)
                    };
                },
                Some(x) => {
                    match b.next() {
                        None => {
                            return Some(Ordering::Greater);
                        },
                        Some(y) => {
                            match x.partial_cmp(y) {
                                Some(Ordering::Equal) => {},
                                decided => {
                                    return decided;
                                },
                            }
                        },
                    }
                },
            }
        }
    }

    /// Compares the two lists lexicographically.
    pub fn cmp(&self, other: &Self) -> (r: Ordering) where T: Ord
        requires
            self.wf(),
            other.wf(),
        ensures
            T::obeys_cmp_spec() ==> r == cmp_from(self@, other@, 0),
    {
        let mut a = self.iter();
        let mut b = other.iter();
        loop
            invariant
                a.wf(),
                b.wf(),
                a.list() == self,
                b.list() == other,
                a.position() == b.position(),
                a.position() + a.remaining().len() == self@.len(),
                b.position() + b.remaining().len() == other@.len(),
                T::obeys_cmp_spec() ==> cmp_from(self@, other@, 0) == cmp_from(
                    self@,
                    other@,
                    a.position(),
                ),
            decreases a.remaining().len(),
        {
            proof {
                a.lemma_remaining();
                b.lemma_remaining();
            }
            match a.next() {
                None => {
                    return if b.next().is_none() {
                        Ordering::Equal
                    } else {
                        Ordering::Less
                    };
                },
                Some(x) => {
                    match b.next() {
                        None => {
                            return Ordering::Greater;
                        },
                        Some(y) => {
                            match x.cmp(y) {
                                Ordering::Equal => {},
                                decided => {
                                    return decided;
                                },
                            }
                        },
                    }
                },
            }
        }
    }

    /// Makes a list of its own out of clones of the elements, in their
    /// order.
    pub fn clone(&self) -> (list: Self) where T: Clone
        requires
            self.wf(),
        ensures
            list.wf(),
            list@.len() == self@.len(),
            forall|i: int| 0 <= i < self@.len() ==> cloned(#[trigger] self@[i], list@[i]),
    {
        let mut list = List::new();
        let mut iter = self.iter();
        loop
            invariant
                list.wf(),
                iter.wf(),
                iter.list() == self,
                iter.position() + iter.remaining().len() == self@.len(),
                list@.len() == iter.position(),
                forall|i: int| 0 <= i < list@.len() ==> cloned(#[trigger] self@[i], list@[i]),
            ensures
                list@.len() == self@.len(),
            decreases iter.remaining().len(),
        {
            proof {
                iter.lemma_remaining();
            }
            match iter.next() {
                Some(element) => {
                    list.push_back(element.clone());
                },
                None => {
                    break ;
                },
            }
        }
        list
    }

    /// Makes the list hold clones of the elements of `other`, in their
    /// order: the elements that it has are overwritten, and it grows or
    /// shrinks to the length of `other`.
    pub fn clone_from(&mut self, other: &Self) where T: Clone
        requires
            old(self).wf(),
            other.wf(),
        ensures
            final(self).wf(),
            final(self)@.len() == other@.len(),
            forall|i: int| 0 <= i < other@.len() ==> cloned(#[trigger] other@[i], final(self)@[i]),
    {
        let mut cursor = self.cursor_start_mut();
        clone_over(&mut cursor, other);
        let _ = cursor.split();
        proof {
            cursor.lemma_released();
        }
    }

    /// Returns `true` if the list holds an element equal to `x`.
    pub fn contains(&self, x: &T) -> (r: bool) where T: PartialEq
        requires
            self.wf(),
        ensures
            T::obeys_eq_spec() ==> r == exists|i: int|
                0 <= i < self@.len() && (#[trigger] self@[i]).eq_spec(x),
    {
        let mut iter = self.iter();
        loop
            invariant
                iter.wf(),
                iter.list() == self,
                iter.position() + iter.remaining().len() == self@.len(),
                T::obeys_eq_spec() ==> forall|i: int|
                    0 <= i < iter.position() ==> !(#[trigger] self@[i]).eq_spec(x),
            decreases iter.remaining().len(),
        {
            proof {
                iter.lemma_remaining();
            }
            let ghost k = iter.position();
            match iter.next() {
                Some(element) => {
                    if element.eq(x) {
                        proof {
                            if T::obeys_eq_spec() {
                                assert(self@[k].eq_spec(x));
                            }
                        }
                        return true;
                    }
                },
                None => {
                    return false;
                },
            }
        }
    }

    /// Provides an iterator that takes the elements out of the list, front
    /// first.
    pub fn drain(&mut self) -> (drain: drain::Drain<'_, T>)
        ensures
            *drain.list() == *old(self),
            *final(drain.list()) == *final(self),
    {
        drain::Drain::new(self)
    }

    /// Provides an iterator that takes out of the list the elements that
    /// `f` picks, front first, and leaves the others.
    pub fn drain_filter<F>(&mut self, f: F) -> (drain: drain::DrainFilter<'_, T, F>) where
        F: FnMut(&mut T) -> bool,

        requires
            old(self).wf(),
        ensures
            drain.cursor().wf(),
            *drain.cursor().list() == *old(self),
            *final(drain.cursor().list()) == *final(self),
            drain.cursor().position() == 0,
            drain.filter() == f,
    {
        drain::DrainFilter::new(self, f)
    }
}

/// `compare` decides `lt`: whatever it can answer for two values, the
/// answer is `Less` exactly where the first precedes the second by `lt`.
pub open spec fn ordered_by<T, F: Fn(&T, &T) -> Ordering>(
    lt: spec_fn(T, T) -> bool,
    compare: F,
) -> bool {
    forall|a: T, b: T, o: Ordering| #[trigger]
        call_ensures(compare, (&a, &b), o) ==> (o == Ordering::Less) == lt(a, b)
}

/// `f` gives each value a key, and `lt` orders the values as `<` orders
/// their keys.
pub open spec fn keyed_by<T, K: PartialOrd, F: Fn(&T) -> K>(
    lt: spec_fn(T, T) -> bool,
    f: F,
) -> bool {
    forall|a: T, b: T, ka: K, kb: K|
        #[trigger] call_ensures(f, (&a,), ka) && #[trigger] call_ensures(f, (&b,), kb) ==> lt(a, b)
            == (ka.partial_cmp_spec(&kb) == Some(Ordering::Less))
}

/// `compare` decides `le`: whatever it can answer for two values, the
/// answer is `Less` or `Equal` exactly where the two stand in order by
/// `le`.
pub open spec fn in_order_by<T, F: FnMut(&T, &T) -> Option<Ordering>>(
    le: spec_fn(T, T) -> bool,
    compare: F,
) -> bool {
    forall|a: T, b: T, o: Option<Ordering>| #[trigger]
        call_ensures(compare, (&a, &b), o) ==> le(a, b) == (o == Some(Ordering::Less) || o == Some(
            Ordering::Equal,
        ))
}

/// `f` gives each value the key that `key` names.
pub open spec fn computes<T, K, F: FnMut(&T) -> K>(key: spec_fn(T) -> K, f: F) -> bool {
    forall|a: T, k: K| #[trigger] call_ensures(f, (&a,), k) ==> k == key(a)
}

impl<T> List<T> {
    /// Sorts the list by the order of its elements. The sort is stable: it
    /// keeps ties in the order that they had. It moves no element: the
    /// nodes are relinked.
    pub fn sort(&mut self) where T: Ord
        requires
            old(self).wf(),
        ensures
            final(self).wf(),
            final(self).payload() == old(self).payload(),
            exists|from: Seq<int>|
                {
                    &&& #[trigger] rearranged_by(final(self)@, old(self)@, from)
                    &&& vstd::laws_cmp::obeys_cmp::<T>() ==> stable_sort_by(
                        final(self)@,
                        old(self)@,
                        from,
                        natural_lt::<T>(),
                    )
                },
    {
        let less = |a: &T, b: &T| -> (r: bool)
            ensures
                T::obeys_partial_cmp_spec() ==> (r <==> a.partial_cmp_spec(b) == Some(
                    Ordering::Less,
                )),
            { a.lt(b) };
        sort::merge_sort(self, less);
        proof {
            let from = choose|from: Seq<int>|
                {
                    &&& #[trigger] rearranged_by(self@, old(self)@, from)
                    &&& forall|lt: spec_fn(T, T) -> bool|
                        #[trigger] decided_by(lt, less) && strict_weak_order(lt)
                            ==> stable_sort_by(self@, old(self)@, from, lt)
                };
            if vstd::laws_cmp::obeys_cmp::<T>() {
                lemma_natural_lt_is_strict_weak_order::<T>();
                assert(decided_by(natural_lt::<T>(), less));
            }
        }
    }

    /// Sorts the list by the order that `compare` decides. The sort is
    /// stable: it keeps ties in the order that they had. It moves no
    /// element: the nodes are relinked.
    pub fn sort_by<F>(&mut self, compare: F) where F: Fn(&T, &T) -> Ordering
        requires
            old(self).wf(),
            forall|i: int, j: int|
                0 <= i < old(self)@.len() && 0 <= j < old(self)@.len() ==> call_requires(
                    compare,
                    (&#[trigger] old(self)@[i], &#[trigger] old(self)@[j]),
                ),
        ensures
            final(self).wf(),
            final(self).payload() == old(self).payload(),
            exists|from: Seq<int>|
                {
                    &&& #[trigger] rearranged_by(final(self)@, old(self)@, from)
                    &&& forall|lt: spec_fn(T, T) -> bool|
                        #[trigger] ordered_by(lt, compare) && strict_weak_order(lt)
                            ==> stable_sort_by(final(self)@, old(self)@, from, lt)
                },
    {
        let order = &compare;
        let less = |a: &T, b: &T| -> (r: bool)
            requires
                call_requires(order, (a, b)),
            ensures
                exists|o: Ordering| #[trigger]
                    call_ensures(order, (a, b), o) && r == (o == Ordering::Less),
            {
                match order(a, b) {
                    Ordering::Less => true,
                    _ => false,
                }
            };
        sort::merge_sort(self, less);
        proof {
            let from = choose|from: Seq<int>|
                {
                    &&& #[trigger] rearranged_by(self@, old(self)@, from)
                    &&& forall|lt: spec_fn(T, T) -> bool|
                        #[trigger] decided_by(lt, less) && strict_weak_order(lt)
                            ==> stable_sort_by(self@, old(self)@, from, lt)
                };
            assert forall|lt: spec_fn(T, T) -> bool|
                #[trigger] ordered_by(lt, compare) && strict_weak_order(lt) implies stable_sort_by(
                self@,
                old(self)@,
                from,
                lt,
            ) by {
                assert(decided_by(lt, less));
            }
        }
    }

    /// Sorts the list by the order of the keys that `f` gives the elements.
    /// The sort is stable: it keeps ties in the order that they had. It
    /// moves no element: the nodes are relinked.
    pub fn sort_by_key<K, F>(&mut self, f: F) where F: Fn(&T) -> K, K: Ord
        requires
            old(self).wf(),
            forall|i: int|
                #![trigger old(self)@[i]]
                0 <= i < old(self)@.len() ==> call_requires(f, (&old(self)@[i],)),
        ensures
            final(self).wf(),
            final(self).payload() == old(self).payload(),
            exists|from: Seq<int>|
                {
                    &&& #[trigger] rearranged_by(final(self)@, old(self)@, from)
                    &&& K::obeys_partial_cmp_spec() ==> forall|lt: spec_fn(T, T) -> bool|
                        #[trigger] keyed_by(lt, f) && strict_weak_order(lt) ==> stable_sort_by(
                            final(self)@,
                            old(self)@,
                            from,
                            lt,
                        )
                },
    {
        let key = &f;
        let less = |a: &T, b: &T| -> (r: bool)
            requires
                call_requires(key, (a,)),
                call_requires(key, (b,)),
            ensures
                exists|ka: K, kb: K|
                    #[trigger] call_ensures(key, (a,), ka) && #[trigger] call_ensures(
                        key,
                        (b,),
                        kb,
                    ) && (K::obeys_partial_cmp_spec() ==> (r <==> ka.partial_cmp_spec(&kb) == Some(
                        Ordering::Less,
                    ))),
            {
                let ka = key(a);
                let kb = key(b);
                ka.lt(&kb)
            };
        sort::merge_sort(self, less);
        proof {
            let from = choose|from: Seq<int>|
                {
                    &&& #[trigger] rearranged_by(self@, old(self)@, from)
                    &&& forall|lt: spec_fn(T, T) -> bool|
                        #[trigger] decided_by(lt, less) && strict_weak_order(lt)
                            ==> stable_sort_by(self@, old(self)@, from, lt)
                };
            if K::obeys_partial_cmp_spec() {
                assert forall|lt: spec_fn(T, T) -> bool|
                    #[trigger] keyed_by(lt, f) && strict_weak_order(lt) implies stable_sort_by(
                    self@,
                    old(self)@,
                    from,
                    lt,
                ) by {
                    assert(decided_by(lt, less));
                }
            }
        }
    }

    /// Returns `true` if each element stands in order, by the type's own
    /// `<=`, with the next.
    pub fn is_sorted(&self) -> (r: bool) where T: PartialOrd
        requires
            self.wf(),
        ensures
            T::obeys_partial_cmp_spec() ==> r == ascending_by(self@, natural_le::<T>()),
    {
        let compare = |a: &T, b: &T| -> (o: Option<Ordering>)
            ensures
                T::obeys_partial_cmp_spec() ==> o == a.partial_cmp_spec(b),
            { a.partial_cmp(b) };
        let r = self.is_sorted_by(compare);
        proof {
            if T::obeys_partial_cmp_spec() {
                assert(in_order_by(natural_le::<T>(), compare));
            }
        }
        r
    }

    /// Returns `true` if `compare` answers `Less` or `Equal` for each
    /// element and the next. It asks from the front and stops at the first
    /// other answer.
    pub fn is_sorted_by<F>(&self, compare: F) -> (r: bool) where
        F: FnMut(&T, &T) -> Option<Ordering>,

        requires
            self.wf(),
            forall|i: int|
                #![trigger self@[i]]
                0 <= i && i + 1 < self@.len() ==> call_requires(
                    compare,
                    (&self@[i], &self@[i + 1]),
                ),
        ensures
            forall|le: spec_fn(T, T) -> bool| #[trigger]
                in_order_by(le, compare) ==> r == ascending_by(self@, le),
    {
        let mut ask = compare;
        let ghost asked = compare;
        let mut iter = self.iter();
        proof {
            iter.lemma_remaining();
        }
        let mut last = match iter.next() {
            Some(element) => element,
            None => {
                return true;
            },
        };
        loop
            invariant
                iter.wf(),
                iter.list() == self,
                ask == asked,
                asked == compare,
                1 <= iter.position(),
                iter.position() + iter.remaining().len() == self@.len(),
                *last == self@[iter.position() - 1],
                forall|i: int|
                    #![trigger self@[i]]
                    0 <= i && i + 1 < self@.len() ==> call_requires(
                        asked,
                        (&self@[i], &self@[i + 1]),
                    ),
                forall|i: int|
                    #![trigger self@[i]]
                    0 <= i && i + 1 < iter.position() ==> call_ensures(
                        asked,
                        (&self@[i], &self@[i + 1]),
                        Some(Ordering::Less),
                    ) || call_ensures(asked, (&self@[i], &self@[i + 1]), Some(Ordering::Equal)),
            decreases iter.remaining().len(),
        {
            proof {
                iter.lemma_remaining();
            }
            let ghost k = iter.position();
            let current = match iter.next() {
                Some(element) => element,
                None => {
                    proof {
                        assert forall|le: spec_fn(T, T) -> bool| #[trigger]
                            in_order_by(le, asked) implies ascending_by(self@, le) by {
                            assert forall|i: int| 0 <= i && i + 1 < self@.len() implies le(
                                #[trigger] self@[i],
                                self@[i + 1],
                            ) by {
                                assert(call_ensures(
                                    asked,
                                    (&self@[i], &self@[i + 1]),
                                    Some(Ordering::Less),
                                ) || call_ensures(
                                    asked,
                                    (&self@[i], &self@[i + 1]),
                                    Some(Ordering::Equal),
                                ));
                            }
                        }
                    }
                    return true;
                },
            };
            assert(self@[k - 1] == *last);
            match ask(last, current) {
                Some(Ordering::Less) | Some(Ordering::Equal) => {},
                answer => {
                    proof {
                        assert forall|le: spec_fn(T, T) -> bool| #[trigger]
                            in_order_by(le, asked) implies !ascending_by(self@, le) by {
                            assert(call_ensures(asked, (&self@[k - 1], &self@[k]), answer));
                            assert(!le(self@[k - 1], self@[k - 1 + 1]));
                        }
                    }
                    return false;
                },
            }
            last = current;
        }
    }

    /// Returns `true` if the key that `f` gives each element stands in
    /// order, by `<=`, with the key of the next. It asks from the front and
    /// stops at the first pair that is out of order.
    pub fn is_sorted_by_key<F, K>(&self, f: F) -> (r: bool) where F: FnMut(&T) -> K, K: PartialOrd
        requires
            self.wf(),
            forall|i: int|
                #![trigger self@[i]]
                0 <= i < self@.len() ==> call_requires(f, (&self@[i],)),
        ensures
            K::obeys_partial_cmp_spec() ==> forall|key: spec_fn(T) -> K| #[trigger]
                computes(key, f) ==> r == ascending_by(
                    self@,
                    |a: T, b: T| natural_le::<K>()(key(a), key(b)),
                ),
    {
        let mut ask = f;
        let ghost asked = f;
        let mut iter = self.iter();
        proof {
            iter.lemma_remaining();
        }
        let mut last = match iter.next() {
            Some(element) => element,
            None => {
                return true;
            },
        };
        loop
            invariant
                iter.wf(),
                iter.list() == self,
                ask == asked,
                asked == f,
                1 <= iter.position(),
                iter.position() + iter.remaining().len() == self@.len(),
                *last == self@[iter.position() - 1],
                forall|i: int|
                    #![trigger self@[i]]
                    0 <= i < self@.len() ==> call_requires(asked, (&self@[i],)),
                K::obeys_partial_cmp_spec() ==> forall|key: spec_fn(T) -> K| #[trigger]
                    computes(key, asked) ==> forall|i: int|
                        0 <= i && i + 1 < iter.position() ==> natural_le::<K>()(
                            key(#[trigger] self@[i]),
                            key(self@[i + 1]),
                        ),
            decreases iter.remaining().len(),
        {
            proof {
                iter.lemma_remaining();
            }
            let ghost k = iter.position();
            let current = match iter.next() {
                Some(element) => element,
                None => {
                    return true;
                },
            };
            assert(self@[k - 1] == *last);
            let key_last = ask(last);
            let key_current = ask(current);
            match key_last.partial_cmp(&key_current) {
                Some(Ordering::Less) | Some(Ordering::Equal) => {
                    proof {
                        if K::obeys_partial_cmp_spec() {
                            assert forall|key: spec_fn(T) -> K| #[trigger]
                                computes(key, asked) implies forall|i: int|
                                0 <= i && i + 1 < k + 1 ==> natural_le::<K>()(
                                    key(#[trigger] self@[i]),
                                    key(self@[i + 1]),
                                ) by {
                                assert(key_last == key(self@[k - 1]));
                                assert(key_current == key(self@[k]));
                            }
                        }
                    }
                },
                _ => {
                    proof {
                        if K::obeys_partial_cmp_spec() {
                            assert forall|key: spec_fn(T) -> K| #[trigger]
                                computes(key, asked) implies !ascending_by(
                                self@,
                                |a: T, b: T| natural_le::<K>()(key(a), key(b)),
                            ) by {
                                assert(key_last == key(self@[k - 1]));
                                assert(key_current == key(self@[k - 1 + 1]));
                            }
                        }
                    }
                    return false;
                },
            }
            last = current;
        }
    }
}

} // verus!
