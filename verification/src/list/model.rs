use crate::list::{Node, SENTINEL};
use vstd::prelude::*;

verus! {

/// The slot at position `i` of `ring`: an element node for `0 <= i < len`,
/// the sentinel at `len` and at `-1`.
pub(crate) open spec fn slot_at(ring: Seq<usize>, i: int) -> usize {
    if 0 <= i < ring.len() {
        ring[i]
    } else {
        SENTINEL
    }
}

/// The ring invariant over an arena: the sentinel and the slots of `ring`
/// form one closed doubly-linked cycle in ring order; the slots of `loose`
/// form a chain that has been taken out of the ring, linked in its order
/// but for the link before its front and the link after its back; exactly
/// the slots of `ring` and of `loose` hold an element, and every other slot
/// but the sentinel is in `free`.
#[verifier::opaque]
pub(crate) open spec fn ring_inv<T>(
    nodes: Seq<Node<T>>,
    ring: Seq<usize>,
    free: Seq<usize>,
    loose: Seq<usize>,
) -> bool {
    &&& nodes.len() == ring.len() + free.len() + loose.len() + 1
    &&& nodes[0].element is None
    &&& nodes[0].next == slot_at(ring, 0)
    &&& nodes[0].prev == slot_at(ring, ring.len() - 1)
    &&& ring.no_duplicates()
    &&& free.no_duplicates()
    &&& loose.no_duplicates()
    &&& forall|i: int| 0 <= i < ring.len() ==> 0 < #[trigger] ring[i] < nodes.len()
    &&& forall|i: int| 0 <= i < ring.len() ==> nodes[#[trigger] ring[i] as int].element is Some
    &&& ring.len() > 0 ==> nodes[ring[0] as int].prev == SENTINEL
    &&& ring.len() > 0 ==> nodes[ring[ring.len() - 1] as int].next == SENTINEL
    &&& forall|i: int, j: int|
        0 <= i && j == i + 1 && j < ring.len() ==> nodes[#[trigger] ring[i] as int].next
            == #[trigger] ring[j]
    &&& forall|i: int, j: int|
        0 <= i && j == i + 1 && j < ring.len() ==> nodes[#[trigger] ring[j] as int].prev
            == #[trigger] ring[i]
    &&& forall|j: int| 0 <= j < free.len() ==> 0 < #[trigger] free[j] < nodes.len()
    &&& forall|j: int| 0 <= j < free.len() ==> nodes[#[trigger] free[j] as int].element is None
    &&& forall|j: int| 0 <= j < loose.len() ==> 0 < #[trigger] loose[j] < nodes.len()
    &&& forall|j: int| 0 <= j < loose.len() ==> nodes[#[trigger] loose[j] as int].element is Some
    &&& forall|i: int, j: int|
        0 <= i < ring.len() && 0 <= j < loose.len() ==> #[trigger] ring[i] != #[trigger] loose[j]
    &&& forall|i: int, j: int|
        0 <= i && j == i + 1 && j < loose.len() ==> nodes[#[trigger] loose[i] as int].next
            == #[trigger] loose[j]
    &&& forall|i: int, j: int|
        0 <= i && j == i + 1 && j < loose.len() ==> nodes[#[trigger] loose[j] as int].prev
            == #[trigger] loose[i]
}

/// The ring invariant of an arena from which no chain is taken out.
pub(crate) open spec fn ring_ok<T>(nodes: Seq<Node<T>>, ring: Seq<usize>, free: Seq<usize>) -> bool {
    ring_inv(nodes, ring, free, Seq::<usize>::empty())
}

/// What the invariant says of the sentinel.
pub(crate) proof fn lemma_inv_sentinel<T>(nodes: Seq<Node<T>>, ring: Seq<usize>, free: Seq<usize>)
    requires
        ring_ok(nodes, ring, free),
    ensures
        nodes.len() == ring.len() + free.len() + 1,
        nodes[0].element is None,
        nodes[0].next == slot_at(ring, 0),
        nodes[0].prev == slot_at(ring, ring.len() - 1),
        ring.no_duplicates(),
{
    reveal(ring_inv);
}

/// What the invariant says of the element node at position `i`.
pub(crate) proof fn lemma_inv_node<T>(
    nodes: Seq<Node<T>>,
    ring: Seq<usize>,
    free: Seq<usize>,
    i: int,
)
    requires
        ring_ok(nodes, ring, free),
        0 <= i < ring.len(),
    ensures
        0 < ring[i] < nodes.len(),
        nodes[ring[i] as int].element is Some,
        nodes[ring[i] as int].next == slot_at(ring, i + 1),
        nodes[ring[i] as int].prev == slot_at(ring, i - 1),
{
    reveal(ring_inv);
    if i + 1 < ring.len() {
        assert(nodes[ring[i] as int].next == ring[i + 1]);
    }
    if i > 0 {
        assert(nodes[ring[i] as int].prev == ring[i - 1]);
    }
}

/// A slot that holds no element is not on the ring.
pub(crate) proof fn lemma_inv_off_ring<T>(
    nodes: Seq<Node<T>>,
    ring: Seq<usize>,
    free: Seq<usize>,
    k: usize,
)
    requires
        ring_ok(nodes, ring, free),
        k >= nodes.len() || nodes[k as int].element is None,
    ensures
        !ring.contains(k),
{
    reveal(ring_inv);
    if ring.contains(k) {
        let p = choose|p: int| 0 <= p < ring.len() && ring[p] == k;
        assert(nodes[ring[p] as int].element is Some);
    }
}

/// What the invariant says of the free slot at index `j`.
pub(crate) proof fn lemma_inv_free<T>(
    nodes: Seq<Node<T>>,
    ring: Seq<usize>,
    free: Seq<usize>,
    j: int,
)
    requires
        ring_ok(nodes, ring, free),
        0 <= j < free.len(),
    ensures
        0 < free[j] < nodes.len(),
        nodes[free[j] as int].element is None,
        !ring.contains(free[j]),
{
    reveal(ring_inv);
    lemma_inv_off_ring(nodes, ring, free, free[j]);
}

/// Putting another element in place of the one at position `p` keeps the
/// invariant.
pub(crate) proof fn lemma_inv_update<T>(
    nodes0: Seq<Node<T>>,
    ring: Seq<usize>,
    free: Seq<usize>,
    nodes1: Seq<Node<T>>,
    p: int,
)
    requires
        ring_ok(nodes0, ring, free),
        0 <= p < ring.len(),
        nodes1.len() == nodes0.len(),
        nodes1[ring[p] as int].element is Some,
        forall|k: int|
            0 <= k < nodes0.len() ==> {
                &&& (#[trigger] nodes1[k]).next == nodes0[k].next
                &&& nodes1[k].prev == nodes0[k].prev
                &&& k != ring[p] ==> nodes1[k].element == nodes0[k].element
            },
    ensures
        ring_ok(nodes1, ring, free),
{
    reveal(ring_inv);
    assert forall|i: int| 0 <= i < ring.len() implies nodes1[#[trigger] ring[i] as int].element is Some by {
        assert(nodes0[ring[i] as int].element is Some);
    }
    assert forall|j: int| 0 <= j < free.len() implies nodes1[#[trigger] free[j] as int].element is None by {
        assert(nodes0[free[j] as int].element is None);
        assert(nodes0[ring[p] as int].element is Some);
    }
}

/// The arena with a sentinel alone satisfies the invariant.
pub(crate) proof fn lemma_inv_empty<T>(nodes: Seq<Node<T>>)
    requires
        nodes.len() == 1,
        nodes[0].element is None,
        nodes[0].next == SENTINEL,
        nodes[0].prev == SENTINEL,
    ensures
        ring_ok(nodes, Seq::<usize>::empty(), Seq::<usize>::empty()),
{
    reveal(ring_inv);
}

/// Linking the node `node` in before position `i` keeps the invariant.
pub(crate) proof fn lemma_inv_insert<T>(
    nodes0: Seq<Node<T>>,
    ring0: Seq<usize>,
    free0: Seq<usize>,
    nodes1: Seq<Node<T>>,
    free1: Seq<usize>,
    i: int,
    node: usize,
)
    requires
        ring_ok(nodes0, ring0, free0),
        0 <= i <= ring0.len(),
        0 < node < nodes1.len(),
        if free0.len() > 0 {
            &&& node == free0.last()
            &&& free1 == free0.drop_last()
            &&& nodes1.len() == nodes0.len()
        } else {
            &&& node == nodes0.len()
            &&& free1 == free0
            &&& nodes1.len() == nodes0.len() + 1
        },
        nodes1[node as int].element is Some,
        nodes1[node as int].next == slot_at(ring0, i),
        nodes1[node as int].prev == slot_at(ring0, i - 1),
        forall|k: int|
            0 <= k < nodes0.len() && k != node ==> {
                &&& (#[trigger] nodes1[k]).element == nodes0[k].element
                &&& nodes1[k].next == (if k == slot_at(ring0, i - 1) {
                    node
                } else {
                    nodes0[k].next
                })
                &&& nodes1[k].prev == (if k == slot_at(ring0, i) {
                    node
                } else {
                    nodes0[k].prev
                })
            },
    ensures
        ring_ok(nodes1, ring0.insert(i, node), free1),
        !ring0.contains(node),
{
    reveal(ring_inv);
    let ring1 = ring0.insert(i, node);
    let n = ring0.len() as int;
    assert(!ring0.contains(node)) by {
        if ring0.contains(node) {
            let p = choose|p: int| 0 <= p < ring0.len() && ring0[p] == node;
            assert(nodes0[ring0[p] as int].element is Some);
            if free0.len() > 0 {
                assert(nodes0[free0[free0.len() - 1] as int].element is None);
            }
        }
    }
    assert forall|p: int| 0 <= p < ring1.len() implies ring1[p] == (if p < i {
        ring0[p]
    } else if p == i {
        node
    } else {
        ring0[p - 1]
    }) by {}
    assert forall|a: int, b: int| 0 <= a < ring1.len() && 0 <= b < ring1.len() && a != b implies ring1[a]
        != ring1[b] by {
        let a0 = if a < i { a } else { a - 1 };
        let b0 = if b < i { b } else { b - 1 };
        if a != i && b != i {
            assert(ring0[a0] != ring0[b0]);
        } else if a == i {
            assert(ring0.contains(ring0[b0]));
        } else {
            assert(ring0.contains(ring0[a0]));
        }
    }
    assert forall|p: int| 0 <= p < ring1.len() implies 0 < #[trigger] ring1[p] < nodes1.len() && nodes1[ring1[p] as int].element is Some by {
        if p != i {
            let p0 = if p < i { p } else { p - 1 };
            assert(ring0.contains(ring0[p0]));
            assert(nodes0[ring0[p0] as int].element is Some);
        }
    }
    assert forall|a: int, b: int| 0 <= a && b == a + 1 && b < ring1.len() implies nodes1[#[trigger] ring1[a] as int].next
        == #[trigger] ring1[b] && nodes1[ring1[b] as int].prev == ring1[a] by {
        let a0 = if a < i { a } else { a - 1 };
        let b0 = if b < i { b } else { b - 1 };
        if a != i {
            assert(ring0.contains(ring0[a0]));
        }
        if b != i {
            assert(ring0.contains(ring0[b0]));
        }
        if a != i && b != i {
            assert(nodes0[ring0[a0] as int].next == ring0[b0]);
            assert(nodes0[ring0[b0] as int].prev == ring0[a0]);
            if a0 + 1 == i {
                assert(false);
            }
        }
    }
    if i > 0 {
        assert(ring0.contains(ring0[0]));
        assert(ring0.contains(ring0[i - 1]));
    }
    if i < n {
        assert(ring0.contains(ring0[n - 1]));
        assert(ring0.contains(ring0[i]));
    }
    assert forall|j: int| 0 <= j < free1.len() implies 0 < #[trigger] free1[j] < nodes1.len()
        && nodes1[free1[j] as int].element is None by {
        assert(free1[j] == free0[j]);
        assert(nodes0[free0[j] as int].element is None);
    }
}

/// Unlinking the node at position `i` keeps the invariant.
pub(crate) proof fn lemma_inv_remove<T>(
    nodes0: Seq<Node<T>>,
    ring0: Seq<usize>,
    free0: Seq<usize>,
    nodes1: Seq<Node<T>>,
    i: int,
)
    requires
        ring_ok(nodes0, ring0, free0),
        0 <= i < ring0.len(),
        nodes1.len() == nodes0.len(),
        nodes1[ring0[i] as int].element is None,
        forall|k: int|
            0 <= k < nodes0.len() && k != ring0[i] ==> {
                &&& (#[trigger] nodes1[k]).element == nodes0[k].element
                &&& nodes1[k].next == (if k == slot_at(ring0, i - 1) {
                    slot_at(ring0, i + 1)
                } else {
                    nodes0[k].next
                })
                &&& nodes1[k].prev == (if k == slot_at(ring0, i + 1) {
                    slot_at(ring0, i - 1)
                } else {
                    nodes0[k].prev
                })
            },
    ensures
        ring_ok(nodes1, ring0.remove(i), free0.push(ring0[i])),
{
    reveal(ring_inv);
    let node = ring0[i];
    let ring1 = ring0.remove(i);
    let free1 = free0.push(node);
    let n = ring0.len() as int;
    assert forall|p: int| 0 <= p < ring1.len() implies ring1[p] == (if p < i {
        ring0[p]
    } else {
        ring0[p + 1]
    }) by {}
    assert forall|a: int, b: int| 0 <= a < ring1.len() && 0 <= b < ring1.len() && a != b implies ring1[a]
        != ring1[b] by {
        let a0 = if a < i { a } else { a + 1 };
        let b0 = if b < i { b } else { b + 1 };
        assert(ring0[a0] != ring0[b0]);
    }
    assert forall|p: int| 0 <= p < ring1.len() implies 0 < #[trigger] ring1[p] < nodes1.len() && nodes1[ring1[p] as int].element is Some by {
        let p0 = if p < i { p } else { p + 1 };
        assert(ring0[p0] != ring0[i]);
        assert(nodes0[ring0[p0] as int].element is Some);
    }
    assert forall|a: int, b: int| 0 <= a && b == a + 1 && b < ring1.len() implies nodes1[#[trigger] ring1[a] as int].next
        == #[trigger] ring1[b] && nodes1[ring1[b] as int].prev == ring1[a] by {
        let a0 = if a < i { a } else { a + 1 };
        let b0 = if b < i { b } else { b + 1 };
        assert(ring0[a0] != ring0[i]);
        assert(ring0[b0] != ring0[i]);
        if b0 == a0 + 1 {
            assert(nodes0[ring0[a0] as int].next == ring0[b0]);
            assert(nodes0[ring0[b0] as int].prev == ring0[a0]);
        } else {
            assert(a0 == i - 1 && b0 == i + 1);
        }
    }
    if i > 0 {
        assert(ring0[0] != ring0[i]);
        assert(ring0[i - 1] != ring0[i]);
        assert(nodes0[ring0[i - 1] as int].next == ring0[i]);
    }
    if i < n - 1 {
        assert(ring0[n - 1] != ring0[i]);
        assert(ring0[i + 1] != ring0[i]);
        assert(nodes0[ring0[i + 1] as int].prev == ring0[i]);
    }
    assert forall|j: int| 0 <= j < free1.len() implies 0 < #[trigger] free1[j] < nodes1.len()
        && nodes1[free1[j] as int].element is None by {
        if j < free0.len() {
            assert(free1[j] == free0[j]);
            assert(nodes0[free0[j] as int].element is None);
        }
    }
    assert forall|a: int, b: int| 0 <= a < free1.len() && 0 <= b < free1.len() && a != b implies free1[a]
        != free1[b] by {
        if a < free0.len() {
            assert(nodes0[free0[a] as int].element is None);
        }
        if b < free0.len() {
            assert(nodes0[free0[b] as int].element is None);
        }
        assert(nodes0[ring0[i] as int].element is Some);
    }
}

/// `ring` with the run of positions `i ..= j` moved to lie before position
/// `t`, for `t < i`.
pub(crate) open spec fn moved(ring: Seq<usize>, t: int, i: int, j: int) -> Seq<usize> {
    ring.subrange(0, t) + ring.subrange(i, j + 1) + ring.subrange(t, i) + ring.subrange(
        j + 1,
        ring.len() as int,
    )
}

/// The position in `ring` of what stands at position `p` of
/// `moved(ring, t, i, j)`.
pub(crate) open spec fn moved_from(t: int, i: int, j: int, p: int) -> int {
    if p < t {
        p
    } else if p < t + (j + 1 - i) {
        p - t + i
    } else if p <= j {
        p - (j + 1 - i)
    } else {
        p
    }
}

/// `moved` holds the same slots, each read at `moved_from`.
pub(crate) proof fn lemma_moved_index(ring: Seq<usize>, t: int, i: int, j: int)
    requires
        0 <= t < i <= j < ring.len(),
    ensures
        moved(ring, t, i, j).len() == ring.len(),
        forall|p: int|
            0 <= p < ring.len() ==> 0 <= #[trigger] moved_from(t, i, j, p) < ring.len() && moved(
                ring,
                t,
                i,
                j,
            )[p] == ring[moved_from(t, i, j, p)],
        forall|p: int, q: int|
            0 <= p < ring.len() && 0 <= q < ring.len() && p != q ==> moved_from(t, i, j, p)
                != moved_from(t, i, j, q),
{
}

/// What the invariant says of the slot at position `i` of the ring, while a
/// chain may be taken out: the sentinel for `i` before the front or past
/// the back.
pub(crate) proof fn lemma_inv_ring_node<T>(
    nodes: Seq<Node<T>>,
    ring: Seq<usize>,
    free: Seq<usize>,
    loose: Seq<usize>,
    i: int,
)
    requires
        ring_inv(nodes, ring, free, loose),
        -1 <= i <= ring.len(),
    ensures
        slot_at(ring, i) < nodes.len(),
        ring.len() + loose.len() < nodes.len(),
        nodes[slot_at(ring, i) as int].next == slot_at(
            ring,
            if i == ring.len() {
                0
            } else {
                i + 1
            },
        ),
        nodes[slot_at(ring, i) as int].prev == slot_at(
            ring,
            if i == -1 {
                ring.len() - 1
            } else {
                i - 1
            },
        ),
        !loose.contains(slot_at(ring, i)),
{
    reveal(ring_inv);
    if 0 <= i < ring.len() {
        if i + 1 < ring.len() {
            assert(nodes[ring[i] as int].next == ring[i + 1]);
        }
        if i > 0 {
            assert(nodes[ring[i] as int].prev == ring[i - 1]);
        }
    }
    if loose.contains(slot_at(ring, i)) {
        let j = choose|j: int| 0 <= j < loose.len() && loose[j] == slot_at(ring, i);
        assert(0 < loose[j]);
        if 0 <= i < ring.len() {
            assert(ring[i] != loose[j]);
        }
    }
}

/// What the invariant says of the chain that is taken out.
pub(crate) proof fn lemma_inv_loose<T>(
    nodes: Seq<Node<T>>,
    ring: Seq<usize>,
    free: Seq<usize>,
    loose: Seq<usize>,
    j: int,
)
    requires
        ring_inv(nodes, ring, free, loose),
        0 <= j < loose.len(),
    ensures
        0 < loose[j] < nodes.len(),
        nodes[loose[j] as int].element is Some,
        !ring.contains(loose[j]),
        j + 1 < loose.len() ==> nodes[loose[j] as int].next == loose[j + 1],
        loose.no_duplicates(),
{
    reveal(ring_inv);
    if j + 1 < loose.len() {
        assert(nodes[loose[j] as int].next == loose[j + 1]);
    }
    if ring.contains(loose[j]) {
        let p = choose|p: int| 0 <= p < ring.len() && ring[p] == loose[j];
        assert(ring[p] != loose[j]);
    }
}

/// Taking the run of positions `i ..= j` out of the ring, by linking what
/// precedes it to what follows it, keeps the invariant: the run is then the
/// chain that is taken out.
pub(crate) proof fn lemma_inv_detach_range<T>(
    nodes0: Seq<Node<T>>,
    ring0: Seq<usize>,
    free0: Seq<usize>,
    nodes1: Seq<Node<T>>,
    i: int,
    j: int,
)
    requires
        ring_ok(nodes0, ring0, free0),
        0 <= i <= j < ring0.len(),
        nodes1.len() == nodes0.len(),
        forall|k: int|
            0 <= k < nodes0.len() ==> {
                &&& (#[trigger] nodes1[k]).element == nodes0[k].element
                &&& nodes1[k].next == (if k == slot_at(ring0, i - 1) {
                    slot_at(ring0, j + 1)
                } else {
                    nodes0[k].next
                })
                &&& nodes1[k].prev == (if k == slot_at(ring0, j + 1) {
                    slot_at(ring0, i - 1)
                } else {
                    nodes0[k].prev
                })
            },
    ensures
        ring_inv(
            nodes1,
            ring0.subrange(0, i) + ring0.subrange(j + 1, ring0.len() as int),
            free0,
            ring0.subrange(i, j + 1),
        ),
{
    reveal(ring_inv);
    let n = ring0.len() as int;
    let ring1 = ring0.subrange(0, i) + ring0.subrange(j + 1, n);
    let loose = ring0.subrange(i, j + 1);
    let run = j + 1 - i;
    assert forall|p: int| 0 <= p < ring1.len() implies #[trigger] ring1[p] == (if p < i {
        ring0[p]
    } else {
        ring0[p + run]
    }) by {}
    assert forall|p: int| 0 <= p < loose.len() implies #[trigger] loose[p] == ring0[p + i] by {}
    assert forall|a: int, b: int| 0 <= a < ring1.len() && 0 <= b < ring1.len() && a != b implies ring1[a]
        != ring1[b] by {
        let a0 = if a < i { a } else { a + run };
        let b0 = if b < i { b } else { b + run };
        assert(ring0[a0] != ring0[b0]);
    }
    assert forall|a: int, b: int| 0 <= a < loose.len() && 0 <= b < loose.len() && a != b implies loose[a]
        != loose[b] by {
        assert(ring0[a + i] != ring0[b + i]);
    }
    assert forall|a: int, b: int| 0 <= a < ring1.len() && 0 <= b < loose.len() implies #[trigger] ring1[a]
        != #[trigger] loose[b] by {
        let a0 = if a < i { a } else { a + run };
        assert(ring0[a0] != ring0[b + i]);
    }
    assert forall|p: int| 0 <= p < ring1.len() implies 0 < #[trigger] ring1[p] < nodes1.len() && nodes1[ring1[p] as int].element is Some by {
        let p0 = if p < i { p } else { p + run };
        assert(nodes0[ring0[p0] as int].element is Some);
    }
    assert forall|p: int| 0 <= p < loose.len() implies 0 < #[trigger] loose[p] < nodes1.len() && nodes1[loose[p] as int].element is Some by {
        assert(nodes0[ring0[p + i] as int].element is Some);
    }
    assert forall|a: int, b: int| 0 <= a && b == a + 1 && b < ring1.len() implies nodes1[#[trigger] ring1[a] as int].next
        == #[trigger] ring1[b] && nodes1[ring1[b] as int].prev == ring1[a] by {
        let a0 = if a < i { a } else { a + run };
        let b0 = if b < i { b } else { b + run };
        lemma_inv_node(nodes0, ring0, free0, a0);
        lemma_inv_node(nodes0, ring0, free0, b0);
        lemma_distinct(ring0, a0, i - 1);
        lemma_distinct(ring0, b0, j + 1);
    }
    assert forall|a: int, b: int| 0 <= a && b == a + 1 && b < loose.len() implies nodes1[#[trigger] loose[a] as int].next
        == #[trigger] loose[b] && nodes1[loose[b] as int].prev == loose[a] by {
        lemma_inv_node(nodes0, ring0, free0, a + i);
        lemma_inv_node(nodes0, ring0, free0, b + i);
        lemma_distinct(ring0, a + i, i - 1);
        lemma_distinct(ring0, b + i, j + 1);
    }
    lemma_inv_node(nodes0, ring0, free0, i);
    lemma_inv_node(nodes0, ring0, free0, j);
    lemma_inv_node(nodes0, ring0, free0, 0);
    lemma_inv_node(nodes0, ring0, free0, n - 1);
    lemma_distinct(ring0, 0, i - 1);
    lemma_distinct(ring0, 0, j + 1);
    lemma_distinct(ring0, n - 1, i - 1);
    lemma_distinct(ring0, n - 1, j + 1);
    lemma_distinct(ring0, i - 1, j + 1);
    if ring1.len() > 0 {
        assert(ring1[0] == (if 0 < i { ring0[0] } else { ring0[run] }));
        assert(ring1[ring1.len() - 1] == (if ring1.len() - 1 < i {
            ring0[ring1.len() - 1]
        } else {
            ring0[n - 1]
        }));
        if i == 0 {
            lemma_inv_node(nodes0, ring0, free0, j + 1);
        }
        if j == n - 1 {
            lemma_inv_node(nodes0, ring0, free0, i - 1);
        }
    }
    assert forall|q: int| 0 <= q < free0.len() implies 0 < #[trigger] free0[q] < nodes1.len()
        && nodes1[free0[q] as int].element is None by {
        assert(nodes0[free0[q] as int].element is None);
    }
}

/// Linking the chain that was taken out into the ring before position `t`
/// keeps the invariant, and no chain is then taken out.
pub(crate) proof fn lemma_inv_attach_range<T>(
    nodes0: Seq<Node<T>>,
    ring0: Seq<usize>,
    free0: Seq<usize>,
    chain: Seq<usize>,
    nodes1: Seq<Node<T>>,
    t: int,
)
    requires
        ring_inv(nodes0, ring0, free0, chain),
        chain.len() >= 1,
        0 <= t <= ring0.len(),
        nodes1.len() == nodes0.len(),
        forall|k: int|
            0 <= k < nodes0.len() ==> {
                &&& (#[trigger] nodes1[k]).element == nodes0[k].element
                &&& nodes1[k].next == (if k == slot_at(ring0, t - 1) {
                    chain[0]
                } else if k == chain.last() {
                    slot_at(ring0, t)
                } else {
                    nodes0[k].next
                })
                &&& nodes1[k].prev == (if k == chain[0] {
                    slot_at(ring0, t - 1)
                } else if k == slot_at(ring0, t) {
                    chain.last()
                } else {
                    nodes0[k].prev
                })
            },
    ensures
        ring_ok(
            nodes1,
            ring0.subrange(0, t) + chain + ring0.subrange(t, ring0.len() as int),
            free0,
        ),
{
    reveal(ring_inv);
    let n = ring0.len() as int;
    let m = chain.len() as int;
    let ring1 = ring0.subrange(0, t) + chain + ring0.subrange(t, n);
    assert forall|p: int| 0 <= p < ring1.len() implies #[trigger] ring1[p] == (if p < t {
        ring0[p]
    } else if p < t + m {
        chain[p - t]
    } else {
        ring0[p - m]
    }) by {}
    assert(!ring0.contains(SENTINEL)) by {
        if ring0.contains(SENTINEL) {
            let p = choose|p: int| 0 <= p < ring0.len() && ring0[p] == SENTINEL;
            assert(0 < ring0[p]);
        }
    }
    assert forall|a: int, b: int| 0 <= a < ring1.len() && 0 <= b < ring1.len() && a != b implies ring1[a]
        != ring1[b] by {
        if a < t || a >= t + m {
            let a0 = if a < t { a } else { a - m };
            if b < t || b >= t + m {
                let b0 = if b < t { b } else { b - m };
                assert(ring0[a0] != ring0[b0]);
            } else {
                assert(ring0[a0] != chain[b - t]);
            }
        } else {
            if b < t || b >= t + m {
                let b0 = if b < t { b } else { b - m };
                assert(ring0[b0] != chain[a - t]);
            } else {
                assert(chain[a - t] != chain[b - t]);
            }
        }
    }
    assert forall|p: int| 0 <= p < ring1.len() implies 0 < #[trigger] ring1[p] < nodes1.len() && nodes1[ring1[p] as int].element is Some by {
        if p < t {
            assert(nodes0[ring0[p] as int].element is Some);
        } else if p < t + m {
            assert(nodes0[chain[p - t] as int].element is Some);
        } else {
            assert(nodes0[ring0[p - m] as int].element is Some);
        }
    }
    assert forall|a: int, b: int| 0 <= a && b == a + 1 && b < ring1.len() implies nodes1[#[trigger] ring1[a] as int].next
        == #[trigger] ring1[b] && nodes1[ring1[b] as int].prev == ring1[a] by {
        if b < t {
            assert(nodes0[ring0[a] as int].next == ring0[b]);
            assert(nodes0[ring0[b] as int].prev == ring0[a]);
            lemma_distinct(ring0, a, t - 1);
            lemma_distinct(ring0, b, t);
            assert(ring0[a] != chain[m - 1]);
            assert(ring0[b] != chain[0]);
        } else if a < t {
            // `a` is the last position before the chain.
            assert(ring0[a] != chain[m - 1]);
            assert(chain[0] != slot_at(ring0, t)) by {
                if t < n {
                    assert(ring0[t] != chain[0]);
                }
            }
        } else if b < t + m {
            assert(nodes0[chain[a - t] as int].next == chain[b - t]);
            assert(nodes0[chain[b - t] as int].prev == chain[a - t]);
            assert(chain[a - t] != chain[m - 1]);
            assert(chain[b - t] != chain[0]);
            assert(chain[a - t] != slot_at(ring0, t - 1)) by {
                if t > 0 {
                    assert(ring0[t - 1] != chain[a - t]);
                }
            }
            assert(chain[b - t] != slot_at(ring0, t)) by {
                if t < n {
                    assert(ring0[t] != chain[b - t]);
                }
            }
        } else if a < t + m {
            // `a` is the last position of the chain.
            assert(chain[m - 1] != slot_at(ring0, t - 1)) by {
                if t > 0 {
                    assert(ring0[t - 1] != chain[m - 1]);
                }
            }
            assert(ring0[t] != chain[0]);
        } else {
            assert(nodes0[ring0[a - m] as int].next == ring0[b - m]);
            assert(nodes0[ring0[b - m] as int].prev == ring0[a - m]);
            lemma_distinct(ring0, a - m, t - 1);
            lemma_distinct(ring0, b - m, t);
            assert(ring0[a - m] != chain[m - 1]);
            assert(ring0[b - m] != chain[0]);
        }
    }
    // The ends of the ring and the sentinel.
    assert(ring1[0] == (if 0 < t { ring0[0] } else { chain[0] }));
    assert(ring1[ring1.len() - 1] == (if t < n { ring0[n - 1] } else { chain[m - 1] }));
    if n > 0 {
        assert(ring0[0] != chain[0]);
        assert(ring0[0] != chain[m - 1]);
        assert(ring0[n - 1] != chain[0]);
        assert(ring0[n - 1] != chain[m - 1]);
        lemma_distinct(ring0, 0, t);
        lemma_distinct(ring0, 0, t - 1);
        lemma_distinct(ring0, n - 1, t);
        lemma_distinct(ring0, n - 1, t - 1);
    }
    assert forall|q: int| 0 <= q < free0.len() implies 0 < #[trigger] free0[q] < nodes1.len()
        && nodes1[free0[q] as int].element is None by {
        assert(nodes0[free0[q] as int].element is None);
    }
}

/// Taking the element out of the front node of the chain that was taken
/// out, and freeing its slot, keeps the invariant: the rest of the chain is
/// then the chain that is taken out.
pub(crate) proof fn lemma_inv_unload<T>(
    nodes0: Seq<Node<T>>,
    ring: Seq<usize>,
    free0: Seq<usize>,
    chain: Seq<usize>,
    nodes1: Seq<Node<T>>,
)
    requires
        ring_inv(nodes0, ring, free0, chain),
        chain.len() >= 1,
        nodes1.len() == nodes0.len(),
        nodes1[chain[0] as int].element is None,
        forall|k: int|
            0 <= k < nodes0.len() ==> {
                &&& (#[trigger] nodes1[k]).next == nodes0[k].next
                &&& nodes1[k].prev == nodes0[k].prev
                &&& k != chain[0] ==> nodes1[k].element == nodes0[k].element
            },
    ensures
        ring_inv(nodes1, ring, free0.push(chain[0]), chain.drop_first()),
{
    reveal(ring_inv);
    let free1 = free0.push(chain[0]);
    let rest = chain.drop_first();
    assert forall|p: int| 0 <= p < rest.len() implies #[trigger] rest[p] == chain[p + 1] by {}
    assert forall|p: int| 0 <= p < ring.len() implies nodes1[#[trigger] ring[p] as int].element is Some by {
        assert(ring[p] != chain[0]);
        assert(nodes0[ring[p] as int].element is Some);
    }
    assert forall|p: int| 0 <= p < rest.len() implies 0 < #[trigger] rest[p] < nodes1.len() && nodes1[rest[p] as int].element is Some by {
        assert(chain[p + 1] != chain[0]);
        assert(nodes0[chain[p + 1] as int].element is Some);
    }
    assert forall|a: int, b: int| 0 <= a < rest.len() && 0 <= b < rest.len() && a != b implies rest[a]
        != rest[b] by {
        assert(chain[a + 1] != chain[b + 1]);
    }
    assert forall|a: int, b: int| 0 <= a < ring.len() && 0 <= b < rest.len() implies #[trigger] ring[a]
        != #[trigger] rest[b] by {
        assert(ring[a] != chain[b + 1]);
    }
    assert forall|a: int, b: int| 0 <= a && b == a + 1 && b < rest.len() implies nodes1[#[trigger] rest[a] as int].next
        == #[trigger] rest[b] && nodes1[rest[b] as int].prev == rest[a] by {
        assert(nodes0[chain[a + 1] as int].next == chain[b + 1]);
        assert(nodes0[chain[b + 1] as int].prev == chain[a + 1]);
    }
    assert forall|q: int| 0 <= q < free1.len() implies 0 < #[trigger] free1[q] < nodes1.len()
        && nodes1[free1[q] as int].element is None by {
        if q < free0.len() {
            assert(free1[q] == free0[q]);
            assert(nodes0[free0[q] as int].element is None);
            assert(nodes0[chain[0] as int].element is Some);
        }
    }
    assert forall|a: int, b: int| 0 <= a < free1.len() && 0 <= b < free1.len() && a != b implies free1[a]
        != free1[b] by {
        assert(nodes0[chain[0] as int].element is Some);
        if a < free0.len() {
            assert(nodes0[free0[a] as int].element is None);
        }
        if b < free0.len() {
            assert(nodes0[free0[b] as int].element is None);
        }
    }
    if ring.len() > 0 {
        assert(ring[0] != chain[0]);
        assert(ring[ring.len() - 1] != chain[0]);
    }
}

/// Two positions of a duplicate-free ring hold the same slot only if they
/// are the same position; the sentinel stands at no position.
pub(crate) proof fn lemma_distinct(ring: Seq<usize>, p: int, q: int)
    requires
        ring.no_duplicates(),
        !ring.contains(SENTINEL),
    ensures
        slot_at(ring, p) == slot_at(ring, q) <==> (p == q || ((p < 0 || p >= ring.len()) && (q < 0
            || q >= ring.len()))),
{
    if 0 <= p < ring.len() {
        assert(ring.contains(ring[p]));
    }
    if 0 <= q < ring.len() {
        assert(ring.contains(ring[q]));
    }
}

/// The elements that the arena holds in the slots of `ring`, in ring order.
pub(crate) open spec fn view_of<T>(nodes: Seq<Node<T>>, ring: Seq<usize>) -> Seq<T> {
    Seq::new(ring.len(), |i: int| nodes[ring[i] as int].element->0)
}

} // verus!
