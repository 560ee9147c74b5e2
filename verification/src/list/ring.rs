use crate::list::model::{
    lemma_distinct, lemma_inv_attach_range, lemma_inv_detach_range, lemma_inv_free,
    lemma_inv_insert, lemma_inv_loose, lemma_inv_node, lemma_inv_off_ring, lemma_inv_remove,
    lemma_inv_sentinel, lemma_inv_unload, lemma_inv_update, ring_inv, ring_ok, view_of,
};
use crate::list::{List, Node, SENTINEL};
use vstd::prelude::*;

verus! {

/// A run of nodes `front ..= back` that has been taken out of the ring of a
/// list and still stands in its arena, with its count. What precedes its
/// front and what follows its back is not to be read until it is linked
/// into the ring again.
pub(crate) struct DetachedNodes {
    pub(crate) front: usize,
    pub(crate) back: usize,
    pub(crate) len: usize,
    pub(crate) chain: Ghost<Seq<usize>>,
}

impl DetachedNodes {
    /// The run is the chain that is taken out of `list`.
    pub(crate) open spec fn of<T>(&self, list: &List<T>) -> bool {
        &&& list.wf_without(self.chain@)
        &&& self.chain@.len() == self.len
        &&& self.len >= 1
        &&& self.front == self.chain@[0]
        &&& self.back == self.chain@.last()
    }
}

// Single nodes.
impl<T> List<T> {
    /// Makes `next` follow `prev`.
    pub(crate) fn connect(&mut self, prev: usize, next: usize)
        requires
            prev < old(self).slots(),
            next < old(self).slots(),
        ensures
            final(self).payload() == old(self).payload(),
            final(self).slots() == old(self).slots(),
            forall|k: int|
                0 <= k < old(self).slots() ==> (#[trigger] final(self).nodes@[k]).element == old(
                    self,
                ).nodes@[k].element,
            final(self).free == old(self).free,
            final(self).len == old(self).len,
            final(self).ring == old(self).ring,
            forall|k: int|
                0 <= k < old(self).slots() ==> (#[trigger] final(self).nodes@[k]).next == (if k
                    == prev {
                    next
                } else {
                    old(self).nodes@[k].next
                }),
            forall|k: int|
                0 <= k < old(self).slots() ==> (#[trigger] final(self).nodes@[k]).prev == (if k
                    == next {
                    prev
                } else {
                    old(self).nodes@[k].prev
                }),
    {
        self.nodes[prev].next = next;
        self.nodes[next].prev = prev;
        assert(self.payload() =~= old(self).payload());
    }

    /// The slot of the sentinel.
    pub(crate) fn sentinel(&self) -> (r: usize)
        ensures
            r == SENTINEL,
    {
        SENTINEL
    }

    /// The slot of the first element, or the sentinel if there is none.
    pub(crate) fn front_node(&self) -> (r: usize)
        requires
            self.wf(),
        ensures
            r == self.slot(0),
    {
        proof {
            self.lemma_sentinel();
        }
        self.nodes[SENTINEL].next
    }

    /// The slot of the last element, or the sentinel if there is none.
    pub(crate) fn back_node(&self) -> (r: usize)
        requires
            self.wf(),
        ensures
            r == self.slot(self@.len() - 1),
    {
        proof {
            self.lemma_sentinel();
        }
        self.nodes[SENTINEL].prev
    }

    /// The slot that follows slot `k`, which stands at position `p`. After
    /// the sentinel comes the front.
    pub(crate) fn next_of(&self, k: usize, Ghost(p): Ghost<int>) -> (r: usize)
        requires
            self.wf(),
            0 <= p <= self@.len(),
            k == self.slot(p),
        ensures
            r == (if p == self@.len() {
                self.slot(0)
            } else {
                self.slot(p + 1)
            }),
            r < self.slots(),
    {
        proof {
            self.lemma_sentinel();
            if p < self@.len() {
                self.lemma_node(p);
                if p + 1 < self@.len() {
                    self.lemma_node(p + 1);
                }
            } else if self@.len() > 0 {
                self.lemma_node(0);
            }
        }
        self.nodes[k].next
    }

    /// The slot that precedes slot `k`, which stands at position `p`. Before
    /// the front comes the sentinel.
    pub(crate) fn prev_of(&self, k: usize, Ghost(p): Ghost<int>) -> (r: usize)
        requires
            self.wf(),
            0 <= p <= self@.len(),
            k == self.slot(p),
        ensures
            r == self.slot(p - 1),
            r < self.slots(),
    {
        proof {
            self.lemma_sentinel();
            if p < self@.len() {
                self.lemma_node(p);
            }
            if p > 0 {
                self.lemma_node(p - 1);
            }
        }
        self.nodes[k].prev
    }

    /// The element in slot `k`, which stands at position `p`.
    pub(crate) fn element(&self, k: usize, Ghost(p): Ghost<int>) -> (r: &T)
        requires
            self.wf(),
            0 <= p < self@.len(),
            k == self.slot(p),
        ensures
            *r == self@[p],
            Some(*r) == self.payload()[k as int],
    {
        proof {
            self.lemma_node(p);
        }
        self.nodes[k].element.as_ref().unwrap()
    }

    /// Takes a slot for `element` out of the free slots, or grows the arena
    /// by one, and writes the node with the given links.
    fn new_node(&mut self, prev: usize, next: usize, element: T) -> (node: usize)
        requires
            old(self).wf(),
        ensures
            final(self).len == old(self).len,
            final(self).ring == old(self).ring,
            0 < node < final(self).slots(),
            !old(self).ring().contains(node),
            final(self).nodes@[node as int].next == next,
            final(self).nodes@[node as int].prev == prev,
            final(self).nodes@[node as int].element == Some(element),
            if old(self).free@.len() > 0 {
                &&& node == old(self).free@.last()
                &&& final(self).free@ == old(self).free@.drop_last()
                &&& final(self).slots() == old(self).slots()
            } else {
                &&& node == old(self).slots()
                &&& final(self).free@ == old(self).free@
                &&& final(self).slots() == old(self).slots() + 1
            },
            forall|k: int|
                0 <= k < old(self).slots() && k != node ==> #[trigger] final(self).nodes@[k]
                    == old(self).nodes@[k],
    {
        let slots = self.nodes.len();
        proof {
            lemma_inv_sentinel(self.nodes@, self.ring@, self.free@);
            if self.free@.len() > 0 {
                lemma_inv_free(self.nodes@, self.ring@, self.free@, self.free@.len() - 1);
            } else {
                lemma_inv_off_ring(self.nodes@, self.ring@, self.free@, slots);
            }
        }
        let fresh = Node { next, prev, element: Some(element) };
        match self.free.pop() {
            Some(node) => {
                self.nodes[node] = fresh;
                node
            },
            None => {
                self.nodes.push(fresh);
                self.nodes.len() - 1
            },
        }
    }

    /// Links a new node holding `element` between the adjacent slots `prev`
    /// and `next`, where `next` is at position `i`, and returns its slot.
    /// Beside the new node only `prev` and `next` are rewritten.
    pub(crate) fn attach_node(
        &mut self,
        prev: usize,
        next: usize,
        element: T,
        Ghost(i): Ghost<int>,
    ) -> (node: usize)
        requires
            old(self).wf(),
            0 <= i <= old(self)@.len(),
            prev == old(self).slot(i - 1),
            next == old(self).slot(i),
        ensures
            final(self).wf(),
            final(self).ring() == old(self).ring().insert(i, node),
            final(self)@ == old(self)@.insert(i, element),
            !old(self).ring().contains(node),
            forall|k: int|
                0 <= k < old(self).slots() && k != prev && k != next && k != node
                    ==> #[trigger] final(self).nodes@[k] == old(self).nodes@[k],
    {
        proof {
            self.lemma_sentinel();
            if i > 0 {
                self.lemma_node(i - 1);
            }
            if i < self@.len() {
                self.lemma_node(i);
            }
        }
        let node = self.new_node(prev, next, element);
        assert(node != prev && node != next) by {
            if i > 0 {
                assert(old(self).ring().contains(old(self).ring()[i - 1]));
            }
            if i < old(self)@.len() {
                assert(old(self).ring().contains(old(self).ring()[i]));
            }
        }
        self.connect(prev, node);
        self.connect(node, next);
        assert(self.len < self.nodes.len());
        self.len = self.len + 1;
        proof {
            let ring0 = old(self).ring@;
            self.ring@ = ring0.insert(i, node);
            lemma_inv_insert(
                old(self).nodes@,
                ring0,
                old(self).free@,
                self.nodes@,
                self.free@,
                i,
                node,
            );
            assert forall|p: int| 0 <= p < self.ring@.len() implies self@[p] == old(self)@.insert(
                i,
                element,
            )[p] by {
                if p != i {
                    let p0 = if p < i { p } else { p - 1 };
                    old(self).lemma_node(p0);
                    assert(self.ring@[p] == ring0[p0]);
                    assert(ring0.contains(ring0[p0]));
                }
            }
            assert(self@ =~= old(self)@.insert(i, element));
        }
        node
    }

    /// Unlinks the node in slot `node`, at position `i`, frees the slot and
    /// returns its element. Beside the node only its two neighbours are
    /// rewritten.
    pub(crate) fn detach_node(&mut self, node: usize, Ghost(i): Ghost<int>) -> (element: T)
        requires
            old(self).wf(),
            0 <= i < old(self)@.len(),
            node == old(self).slot(i),
        ensures
            final(self).wf(),
            final(self).ring() == old(self).ring().remove(i),
            final(self)@ == old(self)@.remove(i),
            element == old(self)@[i],
            final(self).slots() == old(self).slots(),
            forall|k: int|
                0 <= k < old(self).slots() && k != old(self).slot(i - 1) && k != old(self).slot(
                    i + 1,
                ) && k != node ==> #[trigger] final(self).nodes@[k] == old(self).nodes@[k],
    {
        proof {
            self.lemma_sentinel();
            self.lemma_node(i);
            if i > 0 {
                self.lemma_node(i - 1);
            }
            if i + 1 < self@.len() {
                self.lemma_node(i + 1);
            }
        }
        let prev = self.nodes[node].prev;
        let next = self.nodes[node].next;
        self.connect(prev, next);
        let element = self.nodes[node].element.take();
        self.free.push(node);
        self.len = self.len - 1;
        proof {
            let ring0 = old(self).ring@;
            self.ring@ = ring0.remove(i);
            lemma_inv_remove(old(self).nodes@, ring0, old(self).free@, self.nodes@, i);
            assert forall|p: int| 0 <= p < self.ring@.len() implies self@[p] == old(self)@.remove(
                i,
            )[p] by {
                let p0 = if p < i { p } else { p + 1 };
                old(self).lemma_node(p0);
                assert(self.ring@[p] == ring0[p0]);
                assert(ring0[p0] != ring0[i]);
            }
            assert(self@ =~= old(self)@.remove(i));
        }
        element.unwrap()
    }
}

// Runs of nodes.
impl<T> List<T> {
    /// Takes the run of `len` nodes `front ..= back`, which starts at
    /// position `i`, out of the ring. Only the link after what precedes the
    /// run and the link before what follows it are rewritten: the nodes of
    /// the run keep their links and their elements.
    pub(crate) fn detach_nodes(
        &mut self,
        front: usize,
        back: usize,
        len: usize,
        Ghost(i): Ghost<int>,
    ) -> (detached: DetachedNodes)
        requires
            old(self).wf(),
            0 <= i,
            1 <= len,
            i + len <= old(self)@.len(),
            front == old(self).slot(i),
            back == old(self).slot(i + len - 1),
        ensures
            detached.of(final(self)),
            detached.len == len,
            detached.chain@ == old(self).ring().subrange(i, i + len),
            final(self).ring() == old(self).ring().subrange(0, i) + old(self).ring().subrange(
                i + len,
                old(self)@.len() as int,
            ),
            final(self)@ == old(self)@.subrange(0, i) + old(self)@.subrange(
                i + len,
                old(self)@.len() as int,
            ),
            view_of(final(self).nodes@, detached.chain@) == old(self)@.subrange(i, i + len),
            final(self).payload() == old(self).payload(),
            final(self).slots() == old(self).slots(),
            forall|k: int|
                0 <= k < old(self).slots() && k != old(self).slot(i - 1) && k != old(self).slot(
                    i + len,
                ) ==> #[trigger] final(self).nodes@[k] == old(self).nodes@[k],
    {
        proof {
            self.lemma_sentinel();
            self.lemma_node(i);
            self.lemma_node(i + len - 1);
            if i > 0 {
                self.lemma_node(i - 1);
            }
            if i + len < self@.len() {
                self.lemma_node(i + len);
            }
        }
        let prev = self.nodes[front].prev;
        let next = self.nodes[back].next;
        self.connect(prev, next);
        self.len = self.len - len;
        let ghost ring0 = old(self).ring@;
        let ghost n = ring0.len() as int;
        let ghost chain = ring0.subrange(i, i + len);
        proof {
            self.ring@ = ring0.subrange(0, i) + ring0.subrange(i + len, n);
            lemma_inv_detach_range(
                old(self).nodes@,
                ring0,
                old(self).free@,
                self.nodes@,
                i,
                i + len - 1,
            );
            assert forall|p: int| 0 <= p < self.ring@.len() implies self@[p] == (old(self)@.subrange(
                0,
                i,
            ) + old(self)@.subrange(i + len, n))[p] by {
                let p0 = if p < i { p } else { p + len };
                old(self).lemma_node(p0);
            }
            assert(self@ =~= old(self)@.subrange(0, i) + old(self)@.subrange(i + len, n));
            assert forall|p: int| 0 <= p < chain.len() implies view_of(self.nodes@, chain)[p]
                == old(self)@.subrange(i, i + len)[p] by {
                old(self).lemma_node(p + i);
            }
            assert(view_of(self.nodes@, chain) =~= old(self)@.subrange(i, i + len));
        }
        DetachedNodes { front, back, len, chain: Ghost(chain) }
    }

    /// Links the run `detached`, which stands in the arena of this list,
    /// into the ring between the adjacent slots `prev` and `next`, where
    /// `next` is at position `t`. Only the links between `prev` and the
    /// front of the run and between its back and `next` are rewritten.
    pub(crate) fn attach_nodes(
        &mut self,
        prev: usize,
        next: usize,
        detached: DetachedNodes,
        Ghost(t): Ghost<int>,
    )
        requires
            detached.of(old(self)),
            0 <= t <= old(self).ring().len(),
            prev == old(self).slot(t - 1),
            next == old(self).slot(t),
        ensures
            final(self).wf(),
            final(self).ring() == old(self).ring().subrange(0, t) + detached.chain@ + old(
                self,
            ).ring().subrange(t, old(self).ring().len() as int),
            final(self).payload() == old(self).payload(),
            final(self).slots() == old(self).slots(),
            forall|k: int|
                0 <= k < old(self).slots() && k != prev && k != next && k != detached.front && k
                    != detached.back ==> #[trigger] final(self).nodes@[k] == old(self).nodes@[k],
    {
        let ghost chain = detached.chain@;
        let ghost m = chain.len() as int;
        proof {
            lemma_inv_loose(self.nodes@, self.ring@, self.free@, chain, 0);
            lemma_inv_loose(self.nodes@, self.ring@, self.free@, chain, m - 1);
            self.lemma_ring_node(chain, t - 1);
            self.lemma_ring_node(chain, t);
            vstd::std_specs::vec::axiom_spec_len(&self.nodes);
        }
        self.connect(prev, detached.front);
        self.connect(detached.back, next);
        self.len = self.len + detached.len;
        proof {
            let ring0 = old(self).ring@;
            self.ring@ = ring0.subrange(0, t) + chain + ring0.subrange(t, ring0.len() as int);
            if t > 0 {
                assert(ring0.contains(ring0[t - 1]));
            }
            if t < ring0.len() {
                assert(ring0.contains(ring0[t]));
            }
            lemma_inv_attach_range(
                old(self).nodes@,
                ring0,
                old(self).free@,
                chain,
                self.nodes@,
                t,
            );
        }
    }

    /// Takes the elements out of the nodes of the run `detached`, front
    /// first, and frees their slots.
    pub(crate) fn unload(&mut self, detached: DetachedNodes) -> (elements: Vec<T>)
        requires
            detached.of(old(self)),
        ensures
            final(self).wf(),
            final(self).ring() == old(self).ring(),
            final(self)@ == old(self)@,
            elements@ == view_of(old(self).nodes@, detached.chain@),
    {
        let ghost chain = detached.chain@;
        let ghost m = chain.len() as int;
        let mut elements: Vec<T> = Vec::with_capacity(detached.len);
        let mut node = detached.front;
        let ghost mut k: int = 0;
        proof {
            assert(chain.subrange(0, m) =~= chain);
            assert(elements@ =~= view_of(old(self).nodes@, chain.subrange(0, 0)));
            assert forall|p: int| 0 <= p < m implies 0 < #[trigger] chain[p] < self.nodes@.len() by {
                lemma_inv_loose(self.nodes@, self.ring@, self.free@, chain, p);
            }
        }
        loop
            invariant_except_break
                0 <= k < m,
                node == chain[k],
            invariant
                0 <= k <= m,
                m == chain.len(),
                chain == detached.chain@,
                detached.back == chain[m - 1],
                old(self).wf_without(chain),
                self.wf_without(chain.subrange(k, m)),
                self.ring() == old(self).ring(),
                self@ == old(self)@,
                elements@ == view_of(old(self).nodes@, chain.subrange(0, k)),
                self.slots() == old(self).slots(),
                forall|p: int| 0 <= p < m ==> 0 < #[trigger] chain[p] < self.slots(),
                forall|p: int|
                    k <= p < m ==> self.nodes@[#[trigger] chain[p] as int].element == old(
                        self,
                    ).nodes@[chain[p] as int].element,
            ensures
                k == m,
            decreases m - k,
        {
            let ghost rest = chain.subrange(k, m);
            let ghost before = *self;
            proof {
                lemma_inv_loose(self.nodes@, self.ring@, self.free@, rest, 0);
                lemma_inv_loose(old(self).nodes@, old(self).ring@, old(self).free@, chain, k);
                lemma_inv_loose(
                    old(self).nodes@,
                    old(self).ring@,
                    old(self).free@,
                    chain,
                    m - 1,
                );
                assert(rest[0] == chain[k]);
                if k + 1 < m {
                    assert(rest[1] == chain[k + 1]);
                }
            }
            let next = self.nodes[node].next;
            let element = self.nodes[node].element.take();
            self.free.push(node);
            elements.push(element.unwrap());
            proof {
                lemma_inv_unload(
                    before.nodes@,
                    before.ring@,
                    before.free@,
                    rest,
                    self.nodes@,
                );
                assert(rest.drop_first() =~= chain.subrange(k + 1, m));
                assert(elements@ =~= view_of(old(self).nodes@, chain.subrange(0, k + 1)));
                assert forall|p: int| 0 <= p < self.ring@.len() implies self@[p] == before@[p] by {
                    assert(before.ring@.contains(before.ring@[p]));
                    before.lemma_ring_node(rest, p);
                }
                assert(self@ =~= before@);
                assert forall|p: int| k + 1 <= p < m implies self.nodes@[#[trigger] chain[p] as int].element
                    == old(self).nodes@[chain[p] as int].element by {
                    assert(chain[p] != chain[k]);
                }
                k = k + 1;
            }
            if node == detached.back {
                proof {
                    if k < m {
                        assert(chain[k - 1] != chain[m - 1]);
                    }
                }
                break ;
            }
            proof {
                if k == m {
                    assert(chain[k - 1] == chain[m - 1]);
                }
            }
            node = next;
        }
        proof {
            assert(chain.subrange(0, m) =~= chain);
            assert(chain.subrange(m, m) =~= Seq::<usize>::empty());
        }
        elements
    }

    /// Links new nodes that hold `elements`, in their order, between the
    /// adjacent slots `prev` and `next`, where `next` is at position `i`.
    pub(crate) fn attach_elements(
        &mut self,
        prev: usize,
        next: usize,
        elements: Vec<T>,
        Ghost(i): Ghost<int>,
    )
        requires
            old(self).wf(),
            0 <= i <= old(self)@.len(),
            prev == old(self).slot(i - 1),
            next == old(self).slot(i),
        ensures
            final(self).wf(),
            final(self)@ == old(self)@.subrange(0, i) + elements@ + old(self)@.subrange(
                i,
                old(self)@.len() as int,
            ),
            final(self).ring().len() == old(self).ring().len() + elements@.len(),
            final(self).ring().subrange(0, i) == old(self).ring().subrange(0, i),
            final(self).ring().subrange(
                i + elements@.len(),
                final(self).ring().len() as int,
            ) == old(self).ring().subrange(i, old(self)@.len() as int),
    {
        let ghost d = elements@;
        let mut elements = elements;
        let mut next = next;
        let ghost n = self@.len() as int;
        loop
            invariant
                self.wf(),
                n == old(self)@.len(),
                0 <= i <= n,
                elements@.len() <= d.len(),
                elements@ == d.subrange(0, elements@.len() as int),
                prev == self.slot(i - 1),
                next == self.slot(i),
                self@ == old(self)@.subrange(0, i) + d.subrange(
                    elements@.len() as int,
                    d.len() as int,
                ) + old(self)@.subrange(i, n),
                self.ring().len() == n + d.len() - elements@.len(),
                self.ring().subrange(0, i) == old(self).ring().subrange(0, i),
                self.ring().subrange(i + d.len() - elements@.len(), self.ring().len() as int)
                    == old(self).ring().subrange(i, n),
            ensures
                elements@.len() == 0,
            decreases elements@.len(),
        {
            let ghost before = *self;
            let ghost k = elements@.len() as int;
            match elements.pop() {
                Some(element) => {
                    next = self.attach_node(prev, next, element, Ghost(i));
                    proof {
                        let ring0 = old(self).ring();
                        let view0 = old(self)@;
                        assert(self@ =~= view0.subrange(0, i) + d.subrange(k - 1, d.len() as int)
                            + view0.subrange(i, n));
                        assert(self.ring().subrange(0, i) =~= before.ring().subrange(0, i));
                        assert(self.ring().subrange(
                            i + d.len() - (k - 1),
                            self.ring().len() as int,
                        ) =~= before.ring().subrange(i + d.len() - k, before.ring().len() as int));
                        assert(elements@ =~= d.subrange(0, k - 1));
                        if i > 0 {
                            assert(self.ring()[i - 1] == self.ring().subrange(0, i)[i - 1]);
                            assert(before.ring()[i - 1] == before.ring().subrange(0, i)[i - 1]);
                        }
                    }
                },
                None => {
                    break ;
                },
            }
        }
        proof {
            assert(self@ =~= old(self)@.subrange(0, i) + d + old(self)@.subrange(i, n));
        }
    }

    /// Takes all the nodes of the list out of its ring and returns the run,
    /// or returns `None` if the list is empty.
    pub(crate) fn detach_all_nodes(&mut self) -> (detached: Option<DetachedNodes>)
        requires
            old(self).wf(),
        ensures
            match detached {
                Some(run) => {
                    &&& run.of(final(self))
                    &&& old(self)@.len() > 0
                    &&& final(self).ring() == Seq::<usize>::empty()
                    &&& view_of(final(self).nodes@, run.chain@) == old(self)@
                },
                None => old(self)@.len() == 0 && *final(self) == *old(self),
            },
    {
        if self.is_empty() {
            return None;
        }
        let front = self.front_node();
        let back = self.back_node();
        let len = self.len;
        proof {
            self.lemma_sentinel();
        }
        let detached = self.detach_nodes(front, back, len, Ghost(0));
        proof {
            assert(self.ring() =~= Seq::<usize>::empty());
            assert(old(self)@.subrange(0, old(self)@.len() as int) =~= old(self)@);
        }
        Some(detached)
    }

    /// Makes a list of the elements of the run `detached`, which stands in
    /// the arena of `source`, and frees its slots there.
    pub(crate) fn from_detached(source: &mut List<T>, detached: DetachedNodes) -> (list: Self)
        requires
            detached.of(old(source)),
        ensures
            final(source).wf(),
            final(source).ring() == old(source).ring(),
            final(source)@ == old(source)@,
            list.wf(),
            list@ == view_of(old(source).nodes@, detached.chain@),
    {
        let elements = source.unload(detached);
        let mut list = List::new();
        let sentinel = list.sentinel();
        proof {
            list.lemma_sentinel();
        }
        list.attach_elements(sentinel, sentinel, elements, Ghost(0));
        proof {
            assert(list@ =~= elements@);
        }
        list
    }

    /// Takes all the elements out of a list that is given up, or returns
    /// `None` if the list is empty.
    pub(crate) fn into_detached(self) -> (elements: Option<Vec<T>>)
        requires
            self.wf(),
        ensures
            match elements {
                Some(elements) => elements@ == self@ && self@.len() > 0,
                None => self@.len() == 0,
            },
    {
        let mut list = self;
        match list.detach_all_nodes() {
            Some(detached) => Some(list.unload(detached)),
            None => None,
        }
    }
}

// Element access in place.
impl<T> List<T> {
    /// The element in slot `k`, which stands at position `p`, to be changed
    /// in place.
    pub(crate) fn element_mut(&mut self, k: usize, Ghost(p): Ghost<int>) -> (r: Option<&mut T>)
        requires
            old(self).wf(),
            0 <= p < old(self)@.len(),
            k == old(self).slot(p),
        ensures
            r is Some,
            *r->0 == old(self)@[p],
            final(self).wf(),
            final(self).ring() == old(self).ring(),
            final(self)@ == old(self)@.update(p, *final(r->0)),
    {
        proof {
            self.lemma_node(p);
            let nodes0 = self.nodes@;
            let ring = self.ring@;
            let free = self.free@;
            assert forall|node: Node<T>|
                node.next == nodes0[k as int].next && node.prev == nodes0[k as int].prev
                    && node.element is Some implies ring_ok(
                #[trigger] nodes0.update(k as int, node),
                ring,
                free,
            ) && view_of(nodes0.update(k as int, node), ring) == view_of(nodes0, ring).update(
                p,
                node.element->0,
            ) by {
                let nodes1 = nodes0.update(k as int, node);
                lemma_inv_update(nodes0, ring, free, nodes1, p);
                lemma_inv_sentinel(nodes0, ring, free);
                assert forall|i: int| 0 <= i < ring.len() implies view_of(nodes1, ring)[i]
                    == view_of(nodes0, ring).update(p, node.element->0)[i] by {
                    lemma_inv_node(nodes0, ring, free, i);
                    if i != p {
                        assert(ring[i] != ring[p]);
                    }
                }
                assert(view_of(nodes1, ring) =~= view_of(nodes0, ring).update(
                    p,
                    node.element->0,
                ));
            }
        }
        self.nodes[k].element.as_mut()
    }
}

} // verus!
