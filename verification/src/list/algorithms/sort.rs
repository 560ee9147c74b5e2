use crate::list::order::{
    decided_by, rearranged_by, sorted_by, sorted_with, stable_sort_by, strict_weak_order,
    ties_in_order,
};
use crate::list::model::{lemma_distinct, lemma_moved_index, moved, moved_from};
use crate::list::{List, SENTINEL};
use vstd::prelude::*;

verus! {

/// The position of slot `k` in `orig`.
pub(crate) open spec fn rank(orig: Seq<usize>, k: usize) -> int {
    choose|i: int| 0 <= i < orig.len() && orig[i] == k
}

/// In a ring without duplicates every slot has its own rank.
pub(crate) proof fn lemma_rank(orig: Seq<usize>, i: int)
    requires
        orig.no_duplicates(),
        0 <= i < orig.len(),
    ensures
        orig.contains(orig[i]),
        rank(orig, orig[i]) == i,
{
}

/// The rank of a slot of `orig` is where it stands.
pub(crate) proof fn lemma_rank_of(orig: Seq<usize>, k: usize)
    requires
        orig.contains(k),
    ensures
        0 <= rank(orig, k) < orig.len(),
        orig[rank(orig, k)] == k,
{
}

/// The order that a stable sort brings about: by `lt` on the elements and,
/// among ties, by rank.
pub(crate) open spec fn precedes<T>(
    payload: Seq<Option<T>>,
    orig: Seq<usize>,
    lt: spec_fn(T, T) -> bool,
    x: usize,
    y: usize,
) -> bool {
    let a = payload[x as int]->0;
    let b = payload[y as int]->0;
    lt(a, b) || (!lt(b, a) && rank(orig, x) < rank(orig, y))
}

/// The positions `a .. b` of `ring` ascend by `precedes`.
pub(crate) open spec fn sorted_run<T>(
    ring: Seq<usize>,
    payload: Seq<Option<T>>,
    orig: Seq<usize>,
    lt: spec_fn(T, T) -> bool,
    a: int,
    b: int,
) -> bool {
    forall|p: int, q: int|
        a <= p < q < b ==> precedes(payload, orig, lt, #[trigger] ring[p], #[trigger] ring[q])
}

/// `lt` is a strict weak order that `less` decides.
pub(crate) open spec fn comparator<T, F: FnMut(&T, &T) -> bool>(
    lt: spec_fn(T, T) -> bool,
    less: F,
) -> bool {
    decided_by(lt, less) && strict_weak_order(lt)
}

/// `less` may be called on the elements of any two slots of `orig`.
pub(crate) open spec fn callable<T, F: FnMut(&T, &T) -> bool>(
    less: F,
    payload: Seq<Option<T>>,
    orig: Seq<usize>,
) -> bool {
    forall|p: int, q: int|
        0 <= p < orig.len() && 0 <= q < orig.len() ==> call_requires(
            less,
            (&payload[#[trigger] orig[p] as int]->0, &payload[#[trigger] orig[q] as int]->0),
        )
}

/// The positions `a .. b` of `ring` hold slots that `orig` holds at
/// positions `a .. b`.
pub(crate) open spec fn drawn_from(ring: Seq<usize>, orig: Seq<usize>, a: int, b: int) -> bool {
    forall|p: int|
        a <= p < b ==> orig.contains(#[trigger] ring[p]) && a <= rank(orig, ring[p]) < b
}

/// `precedes` is transitive.
pub(crate) proof fn lemma_precedes_trans<T>(
    payload: Seq<Option<T>>,
    orig: Seq<usize>,
    lt: spec_fn(T, T) -> bool,
    x: usize,
    y: usize,
    z: usize,
)
    requires
        strict_weak_order(lt),
        precedes(payload, orig, lt, x, y),
        precedes(payload, orig, lt, y, z),
    ensures
        precedes(payload, orig, lt, x, z),
{
    let a = payload[x as int]->0;
    let b = payload[y as int]->0;
    let c = payload[z as int]->0;
    if lt(a, b) && lt(b, c) {
    } else if lt(a, b) {
        if !lt(a, c) {
            assert(!lt(a, c) && !lt(c, b) ==> !lt(a, b));
        }
    } else if lt(b, c) {
        if !lt(a, c) {
            assert(!lt(b, a) && !lt(a, c) ==> !lt(b, c));
        }
    } else {
        assert(!lt(c, b) && !lt(b, a) ==> !lt(c, a));
    }
}

/// A sorted run stays sorted when a node that follows its last node is
/// added at its end.
pub(crate) proof fn lemma_sorted_extend<T>(
    ring: Seq<usize>,
    payload: Seq<Option<T>>,
    orig: Seq<usize>,
    lt: spec_fn(T, T) -> bool,
    a: int,
    s: int,
)
    requires
        strict_weak_order(lt),
        0 <= a < s < ring.len(),
        sorted_run(ring, payload, orig, lt, a, s),
        precedes(payload, orig, lt, ring[s - 1], ring[s]),
    ensures
        sorted_run(ring, payload, orig, lt, a, s + 1),
{
    assert forall|p: int, q: int| a <= p < q < s + 1 implies precedes(
        payload,
        orig,
        lt,
        #[trigger] ring[p],
        #[trigger] ring[q],
    ) by {
        if q == s && p < s - 1 {
            lemma_precedes_trans(payload, orig, lt, ring[p], ring[s - 1], ring[s]);
        }
    }
}

/// Two sorted runs, of which the first wholly precedes the second, make one
/// sorted run.
pub(crate) proof fn lemma_sorted_join<T>(
    ring: Seq<usize>,
    payload: Seq<Option<T>>,
    orig: Seq<usize>,
    lt: spec_fn(T, T) -> bool,
    a: int,
    t: int,
    b: int,
)
    requires
        strict_weak_order(lt),
        0 <= a < t < b <= ring.len(),
        sorted_run(ring, payload, orig, lt, a, t),
        sorted_run(ring, payload, orig, lt, t, b),
        precedes(payload, orig, lt, ring[t - 1], ring[t]),
    ensures
        sorted_run(ring, payload, orig, lt, a, b),
{
    assert forall|p: int, q: int| a <= p < q < b implies precedes(
        payload,
        orig,
        lt,
        #[trigger] ring[p],
        #[trigger] ring[q],
    ) by {
        if p < t && t <= q {
            if p < t - 1 {
                lemma_precedes_trans(payload, orig, lt, ring[p], ring[t - 1], ring[t]);
            }
            if t < q {
                lemma_precedes_trans(payload, orig, lt, ring[p], ring[t], ring[q]);
            }
        }
    }
}

/// Moving the sorted run at positions `t ..= j` into the sorted run before
/// it, to the place `m` that its order asks for, leaves the positions
/// `a ..= j` sorted.
pub(crate) proof fn lemma_sorted_move<T>(
    ring: Seq<usize>,
    payload: Seq<Option<T>>,
    orig: Seq<usize>,
    lt: spec_fn(T, T) -> bool,
    a: int,
    m: int,
    t: int,
    j: int,
)
    requires
        strict_weak_order(lt),
        0 <= a <= m < t <= j < ring.len(),
        sorted_run(ring, payload, orig, lt, a, t),
        sorted_run(ring, payload, orig, lt, t, j + 1),
        forall|p: int| a <= p < m ==> precedes(payload, orig, lt, #[trigger] ring[p], ring[t]),
        forall|r: int| t <= r <= j ==> precedes(payload, orig, lt, #[trigger] ring[r], ring[m]),
    ensures
        sorted_run(moved(ring, m, t, j), payload, orig, lt, a, j + 1),
{
    let ring1 = moved(ring, m, t, j);
    lemma_moved_index(ring, m, t, j);
    assert forall|p: int, q: int| a <= p < q < j + 1 implies precedes(
        payload,
        orig,
        lt,
        #[trigger] ring1[p],
        #[trigger] ring1[q],
    ) by {
        let p0 = moved_from(m, t, j, p);
        let q0 = moved_from(m, t, j, q);
        assert(ring1[p] == ring[p0] && ring1[q] == ring[q0]);
        let run = j + 1 - t;
        if p < m {
            if q < m + run && q >= m {
                assert(precedes(payload, orig, lt, ring[p], ring[t]));
                if q0 > t {
                    assert(precedes(payload, orig, lt, ring[t], ring[q0]));
                    lemma_precedes_trans(payload, orig, lt, ring[p], ring[t], ring[q0]);
                }
            } else {
                assert(precedes(payload, orig, lt, ring[p0], ring[q0]));
            }
        } else if p < m + run {
            if q < m + run {
                assert(precedes(payload, orig, lt, ring[p0], ring[q0]));
            } else {
                assert(precedes(payload, orig, lt, ring[p0], ring[m]));
                if q0 > m {
                    assert(precedes(payload, orig, lt, ring[m], ring[q0]));
                    lemma_precedes_trans(payload, orig, lt, ring[p0], ring[m], ring[q0]);
                }
            }
        } else {
            assert(precedes(payload, orig, lt, ring[p0], ring[q0]));
        }
    }
}

/// Runs of at most this many nodes are sorted by insertion.
pub const INSERTION_SORT_THRESHOLD: usize = 8;

/// Relinks the run of `len` nodes `from_front ..= from_back`, at positions
/// `i ..= j`, to lie before the node `to`, at position `t < i`: the run is
/// taken out of the ring and linked in again before `to`, however long it
/// is.
pub(crate) fn move_nodes<T>(
    list: &mut List<T>,
    from_front: usize,
    from_back: usize,
    to: usize,
    len: usize,
    Ghost(i): Ghost<int>,
    Ghost(j): Ghost<int>,
    Ghost(t): Ghost<int>,
)
    requires
        old(list).wf(),
        0 <= t < i <= j < old(list)@.len(),
        len == j + 1 - i,
        from_front == old(list).slot(i),
        from_back == old(list).slot(j),
        to == old(list).slot(t),
    ensures
        final(list).wf(),
        final(list).ring() == moved(old(list).ring(), t, i, j),
        final(list).payload() == old(list).payload(),
        final(list).slots() == old(list).slots(),
{
    let ghost ring0 = list.ring();
    let ghost n = ring0.len() as int;
    proof {
        list.lemma_sentinel();
        lemma_distinct(ring0, t, j + 1);
        lemma_distinct(ring0, t, i - 1);
    }
    let run = list.detach_nodes(from_front, from_back, len, Ghost(i));
    let ghost ring1 = list.ring();
    proof {
        assert(ring1[t] == ring0[t]);
        if t > 0 {
            assert(ring1[t - 1] == ring0[t - 1]);
        }
        list.lemma_ring_node(run.chain@, t);
    }
    let before = list.nodes[to].prev;
    list.attach_nodes(before, to, run, Ghost(t));
    proof {
        assert(list.ring() =~= moved(ring0, t, i, j));
    }
}

/// Relinks the node `from`, at position `i`, to lie before the node `to`, at
/// position `t < i`.
pub(crate) fn move_node<T>(
    list: &mut List<T>,
    from: usize,
    to: usize,
    Ghost(i): Ghost<int>,
    Ghost(t): Ghost<int>,
)
    requires
        old(list).wf(),
        0 <= t < i < old(list)@.len(),
        from == old(list).slot(i),
        to == old(list).slot(t),
    ensures
        final(list).wf(),
        final(list).ring() == moved(old(list).ring(), t, i, i),
        final(list).payload() == old(list).payload(),
        final(list).slots() == old(list).slots(),
{
    move_nodes(list, from, from, to, 1, Ghost(i), Ghost(i), Ghost(t));
}

/// Walks the range `start .. end`, at positions `a .. b`, with a slow and a
/// fast pointer, and returns the node in its middle and its length.
pub(crate) fn mid_of_range<T>(
    list: &List<T>,
    start: usize,
    end: usize,
    Ghost(a): Ghost<int>,
    Ghost(b): Ghost<int>,
) -> (r: (usize, usize))
    requires
        list.wf(),
        0 <= a <= b <= list@.len(),
        start == list.slot(a),
        end == list.slot(b),
    ensures
        r.1 == b - a,
        r.0 == list.slot(a + (b - a) / 2),
{
    let mut cursor = start;
    let mut mid = start;
    let mut len: usize = 0;
    let ghost c = a;
    proof {
        list.lemma_sentinel();
    }
    while cursor != end
        invariant
            list.wf(),
            0 <= a <= c <= b <= list@.len(),
            list@.len() < usize::MAX,
            cursor == list.slot(c),
            end == list.slot(b),
            len == c - a,
            len % 2 == 0 || c == b,
            mid == list.slot(a + len as int / 2),
            list.ring().no_duplicates(),
            !list.ring().contains(SENTINEL),
        decreases b - c,
    {
        proof {
            lemma_distinct(list.ring(), c, b);
        }
        len = len + 1;
        cursor = list.next_of(cursor, Ghost(c));
        proof {
            c = c + 1;
            lemma_distinct(list.ring(), c, b);
        }
        if cursor != end {
            len = len + 1;
            cursor = list.next_of(cursor, Ghost(c));
            mid = list.next_of(mid, Ghost(a + (len as int - 2) / 2));
            proof {
                c = c + 1;
            }
        }
    }
    proof {
        lemma_distinct(list.ring(), c, b);
    }
    (mid, len)
}

/// `post` holds the nodes of `pre` with those at positions `a .. b`
/// rearranged among themselves, each of them a slot that `orig` holds at
/// positions `a .. b`.
pub(crate) open spec fn rearranged<T>(
    pre: &List<T>,
    post: &List<T>,
    orig: Seq<usize>,
    a: int,
    b: int,
) -> bool {
    &&& post.wf()
    &&& post.payload() == pre.payload()
    &&& post.ring().len() == pre.ring().len()
    &&& forall|p: int|
        (0 <= p < a || b <= p < pre.ring().len()) ==> #[trigger] post.ring()[p] == pre.ring()[p]
    &&& drawn_from(post.ring(), orig, a, b)
}

/// The positions `a .. b` of `list` are sorted for every strict weak order
/// that `less` decides.
pub(crate) open spec fn sorted_for<T, F: FnMut(&T, &T) -> bool>(
    list: &List<T>,
    orig: Seq<usize>,
    less: F,
    a: int,
    b: int,
) -> bool {
    forall|lt: spec_fn(T, T) -> bool| #[trigger]
        comparator(lt, less) ==> sorted_run(list.ring(), list.payload(), orig, lt, a, b)
}

/// Sorts the range `start .. end`, at positions `a .. b`, by insertion: each
/// node that is out of order is relinked to its place among the nodes
/// before it. Returns the node that now stands first in the range.
pub(crate) fn insertion_sort_range<T, F>(
    list: &mut List<T>,
    start: usize,
    end: usize,
    less: &mut F,
    Ghost(a): Ghost<int>,
    Ghost(b): Ghost<int>,
    Ghost(orig): Ghost<Seq<usize>>,
) -> (front: usize) where F: FnMut(&T, &T) -> bool
    requires
        old(list).wf(),
        0 <= a < b <= old(list)@.len(),
        start == old(list).slot(a),
        end == old(list).slot(b),
        orig.len() == old(list)@.len(),
        orig.no_duplicates(),
        callable(*old(less), old(list).payload(), orig),
        forall|p: int| a <= p < b ==> #[trigger] old(list).ring()[p] == orig[p],
    ensures
        rearranged(old(list), final(list), orig, a, b),
        sorted_for(final(list), orig, *old(less), a, b),
        front == final(list).slot(a),
        *final(less) == *old(less),
{
    let ghost payload = list.payload();
    let mut front = start;
    let mut sorted_back = start;
    let mut to_sort = list.next_of(start, Ghost(a));
    let ghost mut s = a + 1;
    proof {
        list.lemma_sentinel();
        lemma_rank(orig, a);
    }
    loop
        invariant
            list.wf(),
            list.payload() == payload,
            payload == old(list).payload(),
            list.ring().len() == orig.len(),
            orig.len() == old(list).ring().len(),
            orig.no_duplicates(),
            0 <= a < s <= b <= orig.len(),
            forall|p: int|
                (0 <= p < a || b <= p < orig.len()) ==> #[trigger] list.ring()[p] == old(
                    list,
                ).ring()[p],
            forall|p: int| s <= p < b ==> #[trigger] list.ring()[p] == orig[p],
            drawn_from(list.ring(), orig, a, s),
            sorted_for(list, orig, *less, a, s),
            front == list.slot(a),
            sorted_back == list.slot(s - 1),
            to_sort == list.slot(s),
            end == list.slot(b),
            *less == *old(less),
            callable(*less, payload, orig),
        ensures
            s == b,
        decreases b - s,
    {
        proof {
            list.lemma_sentinel();
            lemma_distinct(list.ring(), s, b);
        }
        if to_sort == end {
            break ;
        }
        proof {
            lemma_rank(orig, s);
            lemma_rank_of(orig, list.ring()[s - 1]);
        }
        let ghost x = list.ring()[s];
        let ghost ex = payload[x as int]->0;
        let out_of_order = less(
            list.element(to_sort, Ghost(s)),
            list.element(sorted_back, Ghost(s - 1)),
        );
        let next = list.next_of(to_sort, Ghost(s));
        if !out_of_order {
            proof {
                assert forall|lt: spec_fn(T, T) -> bool| #[trigger]
                    comparator(lt, *less) implies sorted_run(
                    list.ring(),
                    list.payload(),
                    orig,
                    lt,
                    a,
                    s + 1,
                ) by {
                    lemma_sorted_extend(list.ring(), payload, orig, lt, a, s);
                }
            }
            sorted_back = to_sort;
        } else {
            let mut sorted = front;
            let ghost mut q = a;
            loop
                invariant
                    list.wf(),
                    list.payload() == payload,
                    list.ring().len() == orig.len(),
                    orig.no_duplicates(),
                    0 <= a <= q <= s < b <= orig.len(),
                    sorted == list.slot(q),
                    to_sort == list.slot(s),
                    x == list.ring()[s],
                    ex == payload[x as int]->0,
                    list.ring()[s] == orig[s],
                    drawn_from(list.ring(), orig, a, s),
                    forall|p: int|
                        a <= p < q ==> call_ensures(
                            *less,
                            (&ex, &payload[#[trigger] list.ring()[p] as int]->0),
                            false,
                        ),
                    *less == *old(less),
                    callable(*less, payload, orig),
                ensures
                    q == s || call_ensures(
                        *less,
                        (&ex, &payload[list.ring()[q] as int]->0),
                        true,
                    ),
                decreases s - q,
            {
                proof {
                    list.lemma_sentinel();
                    lemma_distinct(list.ring(), q, s);
                }
                if sorted == to_sort {
                    break ;
                }
                proof {
                    lemma_rank_of(orig, list.ring()[q]);
                }
                if less(list.element(to_sort, Ghost(s)), list.element(sorted, Ghost(q))) {
                    break ;
                }
                sorted = list.next_of(sorted, Ghost(q));
                proof {
                    q = q + 1;
                }
            }
            proof {
                list.lemma_sentinel();
                lemma_distinct(list.ring(), q, s);
                lemma_distinct(list.ring(), q, a);
            }
            if sorted == to_sort {
                // Only a `less` that contradicts itself leads here: it has
                // put the node before the last sorted one and then after
                // every sorted one. The node stays where it is.
                proof {
                    assert forall|lt: spec_fn(T, T) -> bool| #[trigger]
                        comparator(lt, *less) implies sorted_run(
                        list.ring(),
                        list.payload(),
                        orig,
                        lt,
                        a,
                        s + 1,
                    ) by {
                        let y = list.ring()[s - 1];
                        assert(call_ensures(*less, (&ex, &payload[y as int]->0), false));
                        assert(call_ensures(*less, (&ex, &payload[y as int]->0), true));
                    }
                }
                sorted_back = to_sort;
            } else {
                if sorted == front {
                    front = to_sort;
                }
                let ghost before = *list;
                move_node(list, to_sort, sorted, Ghost(s), Ghost(q));
                proof {
                    let ring0 = before.ring();
                    let ring1 = list.ring();
                    lemma_moved_index(ring0, q, s, s);
                    assert forall|p: int| a <= p < s + 1 implies orig.contains(
                        #[trigger] ring1[p],
                    ) && a <= rank(orig, ring1[p]) < s + 1 by {
                        let p0 = moved_from(q, s, s, p);
                        assert(ring1[p] == ring0[p0]);
                        if p0 < s {
                            assert(orig.contains(ring0[p0]));
                        }
                    }
                    assert forall|p: int| s + 1 <= p < b implies #[trigger] ring1[p]
                        == orig[p] by {
                        assert(ring1[p] == ring0[moved_from(q, s, s, p)]);
                    }
                    assert forall|p: int|
                        (0 <= p < a || b <= p < orig.len()) implies #[trigger] ring1[p] == old(
                        list,
                    ).ring()[p] by {
                        assert(ring1[p] == ring0[moved_from(q, s, s, p)]);
                    }
                    assert forall|lt: spec_fn(T, T) -> bool| #[trigger]
                        comparator(lt, *less) implies sorted_run(
                        list.ring(),
                        list.payload(),
                        orig,
                        lt,
                        a,
                        s + 1,
                    ) by {
                        assert(sorted_run(ring0, payload, orig, lt, a, s));
                        assert forall|p: int| a <= p < q implies precedes(
                            payload,
                            orig,
                            lt,
                            #[trigger] ring0[p],
                            ring0[s],
                        ) by {
                            assert(call_ensures(
                                *less,
                                (&ex, &payload[ring0[p] as int]->0),
                                false,
                            ));
                            assert(orig.contains(ring0[p]));
                        }
                        lemma_sorted_move(ring0, payload, orig, lt, a, q, s, s);
                    }
                    assert(ring1[s] == ring0[moved_from(q, s, s, s)]);
                    assert(ring1[a] == ring0[moved_from(q, s, s, a)]);
                    if s + 1 < orig.len() {
                        assert(ring1[s + 1] == ring0[moved_from(q, s, s, s + 1)]);
                    }
                    if b < orig.len() {
                        assert(ring1[b] == ring0[moved_from(q, s, s, b)]);
                    }
                }
            }
        }
        to_sort = next;
        proof {
            s = s + 1;
        }
    }
    front
}

/// For every strict weak order that `less` decides, each node at the
/// positions `a .. m` precedes the node at position `t`.
pub(crate) open spec fn before_for<T, F: FnMut(&T, &T) -> bool>(
    list: &List<T>,
    orig: Seq<usize>,
    less: F,
    a: int,
    m: int,
    t: int,
) -> bool {
    forall|lt: spec_fn(T, T) -> bool| #[trigger]
        comparator(lt, less) ==> forall|p: int|
            a <= p < m ==> precedes(
                list.payload(),
                orig,
                lt,
                #[trigger] list.ring()[p],
                list.ring()[t],
            )
}

/// What a merge step keeps of the ranks: the nodes stay within `a .. b`,
/// those of the first range before those of the second, and the positions
/// outside the step stay as they were.
pub(crate) proof fn lemma_merge_frame(
    ring0: Seq<usize>,
    ring1: Seq<usize>,
    orig: Seq<usize>,
    a: int,
    m: int,
    t: int,
    j: int,
    b: int,
    m0: int,
)
    requires
        ring1 == moved(ring0, m, t, j),
        0 <= a <= m < t <= j < b <= ring0.len(),
        drawn_from(ring0, orig, a, b),
        forall|p: int| m <= p < t ==> rank(orig, #[trigger] ring0[p]) < m0,
        forall|p: int| t <= p < b ==> m0 <= rank(orig, #[trigger] ring0[p]),
    ensures
        ring1.len() == ring0.len(),
        drawn_from(ring1, orig, a, b),
        forall|p: int| m + (j + 1 - t) <= p < j + 1 ==> rank(orig, #[trigger] ring1[p]) < m0,
        forall|p: int| j + 1 <= p < b ==> m0 <= rank(orig, #[trigger] ring1[p]),
        forall|p: int| (0 <= p < m || j < p < ring0.len()) ==> #[trigger] ring1[p] == ring0[p],
        ring1[m + (j + 1 - t)] == ring0[m],
        ring1[m] == ring0[t],
        ring1[j] == ring0[t - 1],
{
    lemma_moved_index(ring0, m, t, j);
    assert forall|p: int| 0 <= p < ring0.len() implies #[trigger] ring1[p] == ring0[moved_from(
        m,
        t,
        j,
        p,
    )] by {}
    assert forall|p: int| a <= p < b implies orig.contains(#[trigger] ring1[p]) && a <= rank(
        orig,
        ring1[p],
    ) < b by {
        assert(orig.contains(ring0[moved_from(m, t, j, p)]));
    }
    assert forall|p: int| m + (j + 1 - t) <= p < j + 1 implies rank(orig, #[trigger] ring1[p])
        < m0 by {
        assert(rank(orig, ring0[moved_from(m, t, j, p)]) < m0);
    }
    assert forall|p: int| j + 1 <= p < b implies m0 <= rank(orig, #[trigger] ring1[p]) by {
        assert(m0 <= rank(orig, ring0[moved_from(m, t, j, p)]));
    }
    assert(ring1[m + (j + 1 - t)] == ring0[moved_from(m, t, j, m + (j + 1 - t))]);
    assert(ring1[m] == ring0[moved_from(m, t, j, m)]);
    assert(ring1[j] == ring0[moved_from(m, t, j, j)]);
}

/// What a merge step keeps of the order, given what the calls of `less`
/// have answered: the merged range, now longer by the run, is sorted, and so
/// is what is left of the second range; every node before the place of the
/// run, and the run, precede the node that is next to merge.
pub(crate) proof fn lemma_merge_order<T, F: FnMut(&T, &T) -> bool>(
    pre: &List<T>,
    post: &List<T>,
    orig: Seq<usize>,
    less: F,
    a: int,
    m_start: int,
    m: int,
    t: int,
    j: int,
    b: int,
    m0: int,
)
    requires
        post.ring() == moved(pre.ring(), m, t, j),
        post.payload() == pre.payload(),
        0 <= a <= m_start <= m < t <= j < b <= pre.ring().len(),
        orig.no_duplicates(),
        sorted_for(pre, orig, less, a, t),
        sorted_for(pre, orig, less, t, b),
        before_for(pre, orig, less, a, m_start, t),
        forall|p: int| m_start <= p < t ==> rank(orig, #[trigger] pre.ring()[p]) < m0,
        m0 <= rank(orig, pre.ring()[t]),
        forall|p: int|
            m_start <= p < m ==> call_ensures(
                less,
                (
                    &pre.payload()[pre.ring()[t] as int]->0,
                    &pre.payload()[#[trigger] pre.ring()[p] as int]->0,
                ),
                false,
            ),
        forall|r: int|
            t <= r <= j ==> call_ensures(
                less,
                (
                    &pre.payload()[#[trigger] pre.ring()[r] as int]->0,
                    &pre.payload()[pre.ring()[m] as int]->0,
                ),
                true,
            ),
    ensures
        sorted_for(post, orig, less, a, j + 1),
        sorted_for(post, orig, less, j + 1, b),
        j + 1 < b ==> before_for(post, orig, less, a, m + (j + 1 - t), j + 1),
{
    let ring0 = pre.ring();
    let ring1 = post.ring();
    let payload = pre.payload();
    let run = j + 1 - t;
    lemma_moved_index(ring0, m, t, j);
    assert forall|p: int| 0 <= p < ring0.len() implies #[trigger] ring1[p] == ring0[moved_from(
        m,
        t,
        j,
        p,
    )] by {}
    assert forall|lt: spec_fn(T, T) -> bool| #[trigger] comparator(lt, less) implies sorted_run(
        ring1,
        payload,
        orig,
        lt,
        a,
        j + 1,
    ) && sorted_run(ring1, payload, orig, lt, j + 1, b) && (j + 1 < b ==> forall|p: int|
        a <= p < m + run ==> precedes(payload, orig, lt, #[trigger] ring1[p], ring1[j + 1])) by {
        assert(sorted_run(ring0, payload, orig, lt, a, t));
        assert(sorted_run(ring0, payload, orig, lt, t, b));
        assert forall|p: int| a <= p < m implies precedes(
            payload,
            orig,
            lt,
            #[trigger] ring0[p],
            ring0[t],
        ) by {
            if p >= m_start {
                assert(call_ensures(
                    less,
                    (&payload[ring0[t] as int]->0, &payload[ring0[p] as int]->0),
                    false,
                ));
                assert(rank(orig, ring0[p]) < m0);
            }
        }
        assert forall|r: int| t <= r <= j implies precedes(
            payload,
            orig,
            lt,
            #[trigger] ring0[r],
            ring0[m],
        ) by {
            assert(call_ensures(
                less,
                (&payload[ring0[r] as int]->0, &payload[ring0[m] as int]->0),
                true,
            ));
        }
        lemma_sorted_move(ring0, payload, orig, lt, a, m, t, j);
        assert forall|p: int, q: int| j + 1 <= p < q < b implies precedes(
            payload,
            orig,
            lt,
            #[trigger] ring1[p],
            #[trigger] ring1[q],
        ) by {
            assert(precedes(payload, orig, lt, ring0[p], ring0[q]));
        }
        if j + 1 < b {
            assert forall|p: int| a <= p < m + run implies precedes(
                payload,
                orig,
                lt,
                #[trigger] ring1[p],
                ring1[j + 1],
            ) by {
                let p0 = moved_from(m, t, j, p);
                assert(ring1[j + 1] == ring0[j + 1]);
                if p < m {
                    assert(precedes(payload, orig, lt, ring0[p], ring0[t]));
                    assert(precedes(payload, orig, lt, ring0[t], ring0[j + 1]));
                    lemma_precedes_trans(payload, orig, lt, ring0[p], ring0[t], ring0[j + 1]);
                } else {
                    assert(precedes(payload, orig, lt, ring0[p0], ring0[j + 1]));
                }
            }
        }
    }
}

/// Merges the sorted range `start .. mid`, at positions `a .. m0`, with the
/// sorted range `mid .. end`, at positions `m0 .. b`, that follows it. Each
/// run of nodes of the second range that belong before a node of the first
/// is relinked there as a whole. Returns the node that now stands first.
pub(crate) fn merge_range<T, F>(
    list: &mut List<T>,
    start: usize,
    mid: usize,
    end: usize,
    less: &mut F,
    Ghost(a): Ghost<int>,
    Ghost(m0): Ghost<int>,
    Ghost(b): Ghost<int>,
    Ghost(orig): Ghost<Seq<usize>>,
) -> (front: usize) where F: FnMut(&T, &T) -> bool
    requires
        old(list).wf(),
        0 <= a < m0 < b <= old(list)@.len(),
        start == old(list).slot(a),
        mid == old(list).slot(m0),
        end == old(list).slot(b),
        orig.len() == old(list)@.len(),
        orig.no_duplicates(),
        callable(*old(less), old(list).payload(), orig),
        drawn_from(old(list).ring(), orig, a, m0),
        drawn_from(old(list).ring(), orig, m0, b),
        sorted_for(old(list), orig, *old(less), a, m0),
        sorted_for(old(list), orig, *old(less), m0, b),
    ensures
        rearranged(old(list), final(list), orig, a, b),
        sorted_for(final(list), orig, *old(less), a, b),
        front == final(list).slot(a),
        *final(less) == *old(less),
{
    let ghost payload = list.payload();
    let mut front = start;
    let mut merged = start;
    let merged_back = list.prev_of(mid, Ghost(m0));
    let mut to_merge = mid;
    let ghost mut m = a;
    let ghost mut t = m0;
    proof {
        list.lemma_sentinel();
    }
    loop
        invariant_except_break
            a <= m < t,
            forall|p: int| m <= p < t ==> rank(orig, #[trigger] list.ring()[p]) < m0,
            t < b ==> before_for(list, orig, *less, a, m, t),
            merged == list.slot(m),
        invariant
            list.wf(),
            list.payload() == payload,
            payload == old(list).payload(),
            list.ring().len() == orig.len(),
            orig.len() == old(list).ring().len(),
            orig.no_duplicates(),
            0 <= a < t <= b <= orig.len(),
            a < m0 < b,
            forall|p: int|
                (0 <= p < a || b <= p < orig.len()) ==> #[trigger] list.ring()[p] == old(
                    list,
                ).ring()[p],
            drawn_from(list.ring(), orig, a, b),
            forall|p: int| t <= p < b ==> m0 <= rank(orig, #[trigger] list.ring()[p]),
            sorted_for(list, orig, *less, a, t),
            sorted_for(list, orig, *less, t, b),
            front == list.slot(a),
            merged_back == list.slot(t - 1),
            to_merge == list.slot(t),
            end == list.slot(b),
            *less == *old(less),
            callable(*less, payload, orig),
        ensures
            sorted_for(list, orig, *less, a, b),
        decreases b - t,
    {
        proof {
            list.lemma_sentinel();
            lemma_distinct(list.ring(), t, b);
        }
        if to_merge == end {
            break ;
        }
        let ghost x = list.ring()[t];
        let ghost ex = payload[x as int]->0;
        proof {
            lemma_rank_of(orig, x);
            lemma_rank_of(orig, list.ring()[t - 1]);
        }
        if !less(list.element(to_merge, Ghost(t)), list.element(merged_back, Ghost(t - 1))) {
            proof {
                assert forall|lt: spec_fn(T, T) -> bool| #[trigger]
                    comparator(lt, *less) implies sorted_run(
                    list.ring(),
                    list.payload(),
                    orig,
                    lt,
                    a,
                    b,
                ) by {
                    lemma_sorted_join(list.ring(), payload, orig, lt, a, t, b);
                }
            }
            break ;
        }
        let ghost m_start = m;
        loop
            invariant
                list.wf(),
                list.payload() == payload,
                list.ring().len() == orig.len(),
                orig.no_duplicates(),
                0 <= a <= m_start <= m <= t < b <= orig.len(),
                merged == list.slot(m),
                to_merge == list.slot(t),
                x == list.ring()[t],
                ex == payload[x as int]->0,
                orig.contains(x),
                drawn_from(list.ring(), orig, a, b),
                forall|p: int|
                    m_start <= p < m ==> call_ensures(
                        *less,
                        (&ex, &payload[#[trigger] list.ring()[p] as int]->0),
                        false,
                    ),
                *less == *old(less),
                callable(*less, payload, orig),
            ensures
                m == t || call_ensures(*less, (&ex, &payload[list.ring()[m] as int]->0), true),
            decreases t - m,
        {
            proof {
                list.lemma_sentinel();
                lemma_distinct(list.ring(), m, t);
            }
            if merged == to_merge {
                break ;
            }
            proof {
                lemma_rank_of(orig, list.ring()[m]);
            }
            if less(list.element(to_merge, Ghost(t)), list.element(merged, Ghost(m))) {
                break ;
            }
            merged = list.next_of(merged, Ghost(m));
            proof {
                m = m + 1;
            }
        }
        proof {
            list.lemma_sentinel();
            lemma_distinct(list.ring(), m, t);
            lemma_distinct(list.ring(), m, a);
        }
        if merged == to_merge {
            // Only a `less` that contradicts itself leads here.
            proof {
                assert forall|lt: spec_fn(T, T) -> bool| #[trigger]
                    comparator(lt, *less) implies sorted_run(
                    list.ring(),
                    list.payload(),
                    orig,
                    lt,
                    a,
                    b,
                ) by {
                    let y = list.ring()[t - 1];
                    assert(call_ensures(*less, (&ex, &payload[y as int]->0), false));
                    assert(call_ensures(*less, (&ex, &payload[y as int]->0), true));
                }
            }
            break ;
        }
        let ghost z = list.ring()[m];
        let ghost ez = payload[z as int]->0;
        let mut next_to_merge = list.next_of(to_merge, Ghost(t));
        let mut run: usize = 1;
        let ghost mut j = t;
        loop
            invariant
                list.wf(),
                list.payload() == payload,
                list.ring().len() == orig.len(),
                orig.no_duplicates(),
                0 <= a <= m < t <= j < b <= orig.len(),
                run == j + 1 - t,
                orig.len() < usize::MAX,
                next_to_merge == list.slot(j + 1),
                merged == list.slot(m),
                end == list.slot(b),
                z == list.ring()[m],
                ez == payload[z as int]->0,
                orig.contains(z),
                drawn_from(list.ring(), orig, a, b),
                forall|r: int|
                    t <= r <= j ==> call_ensures(
                        *less,
                        (&payload[#[trigger] list.ring()[r] as int]->0, &ez),
                        true,
                    ),
                *less == *old(less),
                callable(*less, payload, orig),
            decreases b - j,
        {
            proof {
                list.lemma_sentinel();
                lemma_distinct(list.ring(), j + 1, b);
            }
            if next_to_merge == end {
                break ;
            }
            proof {
                lemma_rank_of(orig, list.ring()[j + 1]);
                lemma_rank_of(orig, z);
            }
            if !less(list.element(next_to_merge, Ghost(j + 1)), list.element(merged, Ghost(m))) {
                break ;
            }
            next_to_merge = list.next_of(next_to_merge, Ghost(j + 1));
            run = run + 1;
            proof {
                j = j + 1;
            }
        }
        if merged == front {
            front = to_merge;
        }
        let run_back = list.prev_of(next_to_merge, Ghost(j + 1));
        let ghost before = *list;
        move_nodes(list, to_merge, run_back, merged, run, Ghost(t), Ghost(j), Ghost(m));
        to_merge = next_to_merge;
        proof {
            lemma_merge_frame(before.ring(), list.ring(), orig, a, m, t, j, b, m0);
            lemma_merge_order(&before, list, orig, *less, a, m_start, m, t, j, b, m0);
            m = m + (j + 1 - t);
            t = j + 1;
        }
    }
    front
}

/// A range that another range's sort has left alone keeps its order.
pub(crate) proof fn lemma_sorted_for_kept<T, F: FnMut(&T, &T) -> bool>(
    pre: &List<T>,
    post: &List<T>,
    orig: Seq<usize>,
    less: F,
    a: int,
    b: int,
)
    requires
        0 <= a <= b <= pre.ring().len(),
        post.ring().len() == pre.ring().len(),
        post.payload() == pre.payload(),
        forall|p: int| a <= p < b ==> #[trigger] post.ring()[p] == pre.ring()[p],
        sorted_for(pre, orig, less, a, b),
        drawn_from(pre.ring(), orig, a, b),
    ensures
        sorted_for(post, orig, less, a, b),
        drawn_from(post.ring(), orig, a, b),
{
    assert forall|lt: spec_fn(T, T) -> bool| #[trigger] comparator(lt, less) implies sorted_run(
        post.ring(),
        post.payload(),
        orig,
        lt,
        a,
        b,
    ) by {
        assert(sorted_run(pre.ring(), pre.payload(), orig, lt, a, b));
        assert forall|p: int, q: int| a <= p < q < b implies precedes(
            post.payload(),
            orig,
            lt,
            #[trigger] post.ring()[p],
            #[trigger] post.ring()[q],
        ) by {
            assert(precedes(pre.payload(), orig, lt, pre.ring()[p], pre.ring()[q]));
        }
    }
    assert forall|p: int| a <= p < b implies orig.contains(#[trigger] post.ring()[p]) && a
        <= rank(orig, post.ring()[p]) < b by {
        assert(orig.contains(pre.ring()[p]));
    }
}

/// A range that stands as in `orig` holds the slots that `orig` holds
/// there; if it has at most one node, it is sorted.
pub(crate) proof fn lemma_untouched<T, F: FnMut(&T, &T) -> bool>(
    list: &List<T>,
    orig: Seq<usize>,
    less: F,
    a: int,
    b: int,
)
    requires
        0 <= a <= b <= orig.len(),
        orig.no_duplicates(),
        forall|p: int| a <= p < b ==> #[trigger] list.ring()[p] == orig[p],
    ensures
        drawn_from(list.ring(), orig, a, b),
        b - a <= 1 ==> sorted_for(list, orig, less, a, b),
{
    assert forall|p: int| a <= p < b implies orig.contains(#[trigger] list.ring()[p]) && a
        <= rank(orig, list.ring()[p]) < b by {
        lemma_rank(orig, p);
    }
}

/// Sorts the range `start .. end`, at positions `a .. b`: short ranges by
/// insertion, longer ones by sorting each half and merging the two. Returns
/// the node that now stands first in the range.
pub(crate) fn merge_sort_range<T, F>(
    list: &mut List<T>,
    start: usize,
    end: usize,
    less: &mut F,
    Ghost(a): Ghost<int>,
    Ghost(b): Ghost<int>,
    Ghost(orig): Ghost<Seq<usize>>,
) -> (front: usize) where F: FnMut(&T, &T) -> bool
    requires
        old(list).wf(),
        0 <= a < b <= old(list)@.len(),
        start == old(list).slot(a),
        end == old(list).slot(b),
        orig.len() == old(list)@.len(),
        orig.no_duplicates(),
        callable(*old(less), old(list).payload(), orig),
        forall|p: int| a <= p < b ==> #[trigger] old(list).ring()[p] == orig[p],
    ensures
        rearranged(old(list), final(list), orig, a, b),
        sorted_for(final(list), orig, *old(less), a, b),
        front == final(list).slot(a),
        *final(less) == *old(less),
    decreases b - a,
{
    let (mid, len) = mid_of_range(list, start, end, Ghost(a), Ghost(b));
    if len <= INSERTION_SORT_THRESHOLD {
        return insertion_sort_range(list, start, end, less, Ghost(a), Ghost(b), Ghost(orig));
    }
    let ghost m = a + (b - a) / 2;
    let mut start = start;
    let mut mid = mid;
    proof {
        list.lemma_sentinel();
        lemma_distinct(list.ring(), a, m);
        lemma_distinct(list.ring(), a + 1, m);
        lemma_untouched(list, orig, *less, a, m);
        lemma_untouched(list, orig, *less, m, b);
    }
    if start != mid && list.next_of(start, Ghost(a)) != mid {
        start = merge_sort_range(list, start, mid, less, Ghost(a), Ghost(m), Ghost(orig));
    }
    let ghost half = *list;
    proof {
        list.lemma_sentinel();
        lemma_distinct(list.ring(), m, b);
        lemma_distinct(list.ring(), m + 1, b);
        lemma_untouched(list, orig, *less, m, b);
    }
    if mid != end && list.next_of(mid, Ghost(m)) != end {
        mid = merge_sort_range(list, mid, end, less, Ghost(m), Ghost(b), Ghost(orig));
    }
    proof {
        list.lemma_sentinel();
        lemma_sorted_for_kept(&half, list, orig, *less, a, m);
        lemma_distinct(list.ring(), a, m);
        lemma_distinct(list.ring(), m, b);
    }
    if start != mid && mid != end {
        start = merge_range(list, start, mid, end, less, Ghost(a), Ghost(m), Ghost(b), Ghost(orig));
    }
    start
}

/// The view of a list whose whole ring was sorted in place is a stable sort
/// of what it was.
pub(crate) proof fn lemma_sorted_view<T, F: FnMut(&T, &T) -> bool>(
    pre: &List<T>,
    post: &List<T>,
    less: F,
)
    requires
        pre.wf(),
        rearranged(pre, post, pre.ring(), 0, pre.ring().len() as int),
        sorted_for(post, pre.ring(), less, 0, pre.ring().len() as int),
    ensures
        sorted_with(post@, pre@, less),
{
    let orig = pre.ring();
    let ring = post.ring();
    let n = orig.len() as int;
    let payload = pre.payload();
    let from = Seq::new(orig.len(), |i: int| rank(orig, ring[i]));
    pre.lemma_sentinel();
    post.lemma_sentinel();
    assert forall|i: int| 0 <= i < n implies 0 <= #[trigger] from[i] < n && post@[i]
        == pre@[from[i]] by {
        assert(orig.contains(ring[i]));
        lemma_rank_of(orig, ring[i]);
        post.lemma_node(i);
        pre.lemma_node(from[i]);
        let k = ring[i] as int;
        assert(post.payload()[k] == post.nodes@[k].element);
        assert(pre.payload()[k] == pre.nodes@[k].element);
    }
    assert forall|i: int, j: int| 0 <= i < j < n implies #[trigger] from[i]
        != #[trigger] from[j] by {
        assert(orig.contains(ring[i]));
        assert(orig.contains(ring[j]));
        lemma_rank_of(orig, ring[i]);
        lemma_rank_of(orig, ring[j]);
    }
    assert(rearranged_by(post@, pre@, from));
    assert forall|lt: spec_fn(T, T) -> bool| #[trigger]
        decided_by(lt, less) && strict_weak_order(lt) implies stable_sort_by(
        post@,
        pre@,
        from,
        lt,
    ) by {
        assert(comparator(lt, less));
        assert(sorted_run(ring, payload, orig, lt, 0, n));
        assert forall|i: int, j: int| 0 <= i < j < n implies !lt(
            #[trigger] post@[j],
            #[trigger] post@[i],
        ) && (!lt(post@[i], post@[j]) ==> from[i] < from[j]) by {
            assert(precedes(payload, orig, lt, ring[i], ring[j]));
            post.lemma_node(i);
            post.lemma_node(j);
            assert(post.payload()[ring[i] as int] == post.nodes@[ring[i] as int].element);
            assert(post.payload()[ring[j] as int] == post.nodes@[ring[j] as int].element);
        }
    }
}

/// Sorts `list` in place by relinking its nodes, with `less` as the sole
/// judge of order, and keeps ties in the order that they had.
pub fn merge_sort<T, F>(list: &mut List<T>, mut less: F) where F: FnMut(&T, &T) -> bool
    requires
        old(list).wf(),
        forall|i: int, j: int|
            0 <= i < old(list)@.len() && 0 <= j < old(list)@.len() ==> call_requires(
                less,
                (&#[trigger] old(list)@[i], &#[trigger] old(list)@[j]),
            ),
    ensures
        final(list).wf(),
        final(list).payload() == old(list).payload(),
        sorted_with(final(list)@, old(list)@, less),
{
    let ghost orig = list.ring();
    let start = list.front_node();
    let end = list.sentinel();
    proof {
        list.lemma_sentinel();
        lemma_untouched(list, orig, less, 0, orig.len() as int);
        assert forall|p: int, q: int| 0 <= p < orig.len() && 0 <= q < orig.len() implies call_requires(
            less,
            (
                &list.payload()[#[trigger] orig[p] as int]->0,
                &list.payload()[#[trigger] orig[q] as int]->0,
            ),
        ) by {
            list.lemma_node(p);
            list.lemma_node(q);
            assert(call_requires(less, (&list@[p], &list@[q])));
        }
    }
    if list.len() < 2 {
    } else if list.len() <= INSERTION_SORT_THRESHOLD {
        insertion_sort_range(list, start, end, &mut less, Ghost(0), Ghost(orig.len() as int), Ghost(orig));
    } else {
        merge_sort_range(list, start, end, &mut less, Ghost(0), Ghost(orig.len() as int), Ghost(orig));
    }
    proof {
        lemma_sorted_view(old(list), list, less);
    }
}

} // verus!
