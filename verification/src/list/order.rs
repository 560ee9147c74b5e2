use vstd::prelude::*;

verus! {

/// `lt` is a strict weak order: irreflexive, transitive, and with
/// transitive incomparability. Two values of which neither precedes the
/// other are a tie.
pub open spec fn strict_weak_order<T>(lt: spec_fn(T, T) -> bool) -> bool {
    &&& forall|a: T| !#[trigger] lt(a, a)
    &&& forall|a: T, b: T, c: T| #[trigger] lt(a, b) && #[trigger] lt(b, c) ==> lt(a, c)
    &&& forall|a: T, b: T, c: T| !#[trigger] lt(a, b) && !#[trigger] lt(b, c) ==> !lt(a, c)
}

/// Every answer that `less` can give agrees with `lt`.
pub open spec fn decided_by<T, F: FnMut(&T, &T) -> bool>(
    lt: spec_fn(T, T) -> bool,
    less: F,
) -> bool {
    forall|a: T, b: T, r: bool| #[trigger] call_ensures(less, (&a, &b), r) ==> r == lt(a, b)
}

/// `out` holds the elements of `inp` in another order: position `i` of `out`
/// holds what stood at position `from[i]` of `inp`, and no position of `inp`
/// is taken twice.
pub open spec fn rearranged_by<T>(out: Seq<T>, inp: Seq<T>, from: Seq<int>) -> bool {
    &&& out.len() == inp.len()
    &&& from.len() == inp.len()
    &&& forall|i: int|
        0 <= i < from.len() ==> 0 <= #[trigger] from[i] < inp.len() && out[i] == inp[from[i]]
    &&& forall|i: int, j: int|
        0 <= i < j < from.len() ==> #[trigger] from[i] != #[trigger] from[j]
}

/// No element of `s` precedes, by `lt`, an element that stands before it.
pub open spec fn sorted_by<T>(s: Seq<T>, lt: spec_fn(T, T) -> bool) -> bool {
    forall|i: int, j: int| 0 <= i < j < s.len() ==> !lt(#[trigger] s[j], #[trigger] s[i])
}

/// Where an element of `out` does not precede, by `lt`, one that stands
/// after it, the two came in that order: in a sorted `out` these are the
/// ties, and they keep the order that they had.
pub open spec fn ties_in_order<T>(out: Seq<T>, from: Seq<int>, lt: spec_fn(T, T) -> bool) -> bool {
    forall|i: int, j: int|
        0 <= i < j < out.len() && !lt(out[i], out[j]) ==> #[trigger] from[i] < #[trigger] from[j]
}

/// `out` is `inp` sorted by `lt`, with ties in the order that they had in
/// `inp`; `from` says where each element came from.
pub open spec fn stable_sort_by<T>(
    out: Seq<T>,
    inp: Seq<T>,
    from: Seq<int>,
    lt: spec_fn(T, T) -> bool,
) -> bool {
    &&& rearranged_by(out, inp, from)
    &&& sorted_by(out, lt)
    &&& ties_in_order(out, from, lt)
}

/// What a sort by `less` brings about: `out` holds the elements of `inp` in
/// another order, whatever `less` answers; and for every strict weak order
/// that `less` decides, `out` is sorted by it, with ties in the order that
/// they had in `inp`.
pub open spec fn sorted_with<T, F: FnMut(&T, &T) -> bool>(out: Seq<T>, inp: Seq<T>, less: F) -> bool {
    exists|from: Seq<int>|
        {
            &&& #[trigger] rearranged_by(out, inp, from)
            &&& forall|lt: spec_fn(T, T) -> bool|
                #[trigger] decided_by(lt, less) && strict_weak_order(lt) ==> stable_sort_by(
                    out,
                    inp,
                    from,
                    lt,
                )
        }
}

/// A strictly ascending sequence of `n` numbers below `n` is `0, 1, ...`.
proof fn lemma_ascending_is_identity(from: Seq<int>, k: int)
    requires
        forall|i: int| 0 <= i < from.len() ==> 0 <= #[trigger] from[i] < from.len(),
        forall|i: int, j: int| 0 <= i < j < from.len() ==> #[trigger] from[i] < #[trigger] from[j],
        0 <= k < from.len(),
    ensures
        from[k] == k,
{
    lemma_ascending_bounds(from, k);
    lemma_ascending_bounds_above(from, k);
}

proof fn lemma_ascending_bounds(from: Seq<int>, k: int)
    requires
        forall|i: int| 0 <= i < from.len() ==> 0 <= #[trigger] from[i] < from.len(),
        forall|i: int, j: int| 0 <= i < j < from.len() ==> #[trigger] from[i] < #[trigger] from[j],
        0 <= k < from.len(),
    ensures
        from[k] >= k,
    decreases k,
{
    if k > 0 {
        lemma_ascending_bounds(from, k - 1);
        assert(from[k - 1] < from[k]);
    }
}

proof fn lemma_ascending_bounds_above(from: Seq<int>, k: int)
    requires
        forall|i: int| 0 <= i < from.len() ==> 0 <= #[trigger] from[i] < from.len(),
        forall|i: int, j: int| 0 <= i < j < from.len() ==> #[trigger] from[i] < #[trigger] from[j],
        0 <= k < from.len(),
    ensures
        from[k] <= k,
    decreases from.len() - k,
{
    if k < from.len() - 1 {
        lemma_ascending_bounds_above(from, k + 1);
        assert(from[k] < from[k + 1]);
    }
}

/// A stable sort leaves a sorted sequence as it is: every element stays at
/// its position.
pub proof fn lemma_stable_sort_of_sorted<T>(
    out: Seq<T>,
    inp: Seq<T>,
    from: Seq<int>,
    lt: spec_fn(T, T) -> bool,
)
    requires
        strict_weak_order(lt),
        sorted_by(inp, lt),
        stable_sort_by(out, inp, from, lt),
    ensures
        out == inp,
        forall|i: int| 0 <= i < from.len() ==> from[i] == i,
{
    assert forall|i: int, j: int| 0 <= i < j < from.len() implies #[trigger] from[i]
        < #[trigger] from[j] by {
        if from[i] > from[j] {
            assert(!lt(inp[from[i]], inp[from[j]]));
            assert(out[i] == inp[from[i]] && out[j] == inp[from[j]]);
        }
    }
    assert forall|i: int| 0 <= i < from.len() implies from[i] == i by {
        lemma_ascending_is_identity(from, i);
    }
    assert forall|i: int| 0 <= i < out.len() implies out[i] == inp[i] by {
        assert(from[i] == i);
    }
    assert(out =~= inp);
}

/// The order in which a stable sort by `lt` brings the positions of `inp`:
/// position `a` comes before position `b` if its element precedes the
/// other, or if the two are a tie and `a` is the earlier one.
pub open spec fn comes_before<T>(inp: Seq<T>, lt: spec_fn(T, T) -> bool, a: int, b: int) -> bool {
    lt(inp[a], inp[b]) || (!lt(inp[b], inp[a]) && a < b)
}

/// In a stable sort, what stands earlier came from a position that comes
/// before.
proof fn lemma_from_ascends<T>(
    out: Seq<T>,
    inp: Seq<T>,
    from: Seq<int>,
    lt: spec_fn(T, T) -> bool,
    i: int,
    j: int,
)
    requires
        stable_sort_by(out, inp, from, lt),
        0 <= i < j < out.len(),
    ensures
        comes_before(inp, lt, from[i], from[j]),
{
    assert(!lt(out[j], out[i]));
    assert(out[i] == inp[from[i]] && out[j] == inp[from[j]]);
    if !lt(out[i], out[j]) {
        assert(from[i] < from[j]);
    }
}

/// A rearrangement takes every position of its input: for each there is a
/// position of the output that holds what stood there.
proof fn lemma_rearrangement_takes_all<T>(out: Seq<T>, inp: Seq<T>, from: Seq<int>, v: int)
    requires
        rearranged_by(out, inp, from),
        0 <= v < inp.len(),
    ensures
        exists|i: int| 0 <= i < from.len() && from[i] == v,
{
    let n = inp.len() as int;
    let taken = from.to_set();
    let all = vstd::set_lib::set_int_range(0, n);
    assert(from.no_duplicates()) by {
        assert forall|i: int, j: int|
            0 <= i < from.len() && 0 <= j < from.len() && i != j implies from[i] != from[j] by {
            if i < j {
                assert(from[i] != from[j]);
            } else {
                assert(from[j] != from[i]);
            }
        }
    }
    from.unique_seq_to_set();
    vstd::set_lib::lemma_int_range(0, n);
    assert(taken.subset_of(all)) by {
        assert forall|x: int| taken.contains(x) implies all.contains(x) by {
            let i = choose|i: int| 0 <= i < from.len() && from[i] == x;
            assert(0 <= from[i] < n);
        }
    }
    vstd::set_lib::lemma_len_subset(taken, all);
    vstd::set_lib::lemma_subset_equality(taken, all);
    assert(all.contains(v));
    assert(taken.contains(v));
}

/// Two stable sorts of one input by one order agree up to position `k`.
proof fn lemma_stable_sorts_agree<T>(
    out1: Seq<T>,
    from1: Seq<int>,
    out2: Seq<T>,
    from2: Seq<int>,
    inp: Seq<T>,
    lt: spec_fn(T, T) -> bool,
    k: int,
)
    requires
        strict_weak_order(lt),
        stable_sort_by(out1, inp, from1, lt),
        stable_sort_by(out2, inp, from2, lt),
        0 <= k <= inp.len(),
    ensures
        forall|i: int| 0 <= i < k ==> from1[i] == from2[i],
    decreases k,
{
    if k > 0 {
        lemma_stable_sorts_agree(out1, from1, out2, from2, inp, lt, k - 1);
        let a = from1[k - 1];
        let b = from2[k - 1];
        if a != b {
            lemma_rearrangement_takes_all(out2, inp, from2, a);
            lemma_rearrangement_takes_all(out1, inp, from1, b);
            let j2 = choose|j: int| 0 <= j < from2.len() && from2[j] == a;
            let j1 = choose|j: int| 0 <= j < from1.len() && from1[j] == b;
            if j2 < k - 1 {
                assert(from1[j2] == from2[j2]);
                assert(from1[j2] != from1[k - 1]);
            }
            if j1 < k - 1 {
                assert(from1[j1] == from2[j1]);
                assert(from2[j1] != from2[k - 1]);
            }
            lemma_from_ascends(out2, inp, from2, lt, k - 1, j2);
            lemma_from_ascends(out1, inp, from1, lt, k - 1, j1);
            assert(comes_before(inp, lt, b, a));
            assert(comes_before(inp, lt, a, b));
            assert(lt(inp[a], inp[b]) ==> !lt(inp[b], inp[a])) by {
                if lt(inp[a], inp[b]) && lt(inp[b], inp[a]) {
                    assert(lt(inp[a], inp[a]));
                }
            }
        }
    }
}

/// A stable sort has one result: two stable sorts of one input by one
/// strict weak order hold the same elements at the same positions, each
/// from the same place.
pub proof fn lemma_stable_sort_unique<T>(
    out1: Seq<T>,
    from1: Seq<int>,
    out2: Seq<T>,
    from2: Seq<int>,
    inp: Seq<T>,
    lt: spec_fn(T, T) -> bool,
)
    requires
        strict_weak_order(lt),
        stable_sort_by(out1, inp, from1, lt),
        stable_sort_by(out2, inp, from2, lt),
    ensures
        out1 == out2,
        from1 == from2,
{
    lemma_stable_sorts_agree(out1, from1, out2, from2, inp, lt, inp.len() as int);
    assert(from1 =~= from2);
    assert forall|i: int| 0 <= i < out1.len() implies out1[i] == out2[i] by {
        assert(out1[i] == inp[from1[i]]);
        assert(out2[i] == inp[from2[i]]);
    }
    assert(out1 =~= out2);
}

} // verus!
