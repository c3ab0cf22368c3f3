use vstd::prelude::*;
use vstd::std_specs::cmp::PartialOrdSpec;
use core::cmp::Ordering;
use crate::list::List;
use crate::list::ListError;
use crate::list::sorted;

verus! {

/// One slot of the node arena: a real node holds a value; the sentinel slot
/// holds none. Links are arena indices, so the mutually referential ring
/// needs no shared-ownership machinery.
pub struct DoublyLinkedNode<T> {
    pub value: Option<T>,
    pub next: usize,
    pub prev: usize,
}

impl<T> DoublyLinkedNode<T> {
    /// A detached real node holding the value; its links are set when it is
    /// spliced into the ring.
    pub fn create(data: T) -> (n: Self)
        ensures
            n.value == Some(data),
            n.next == 0,
            n.prev == 0,
    {
        Self { value: Some(data), next: 0, prev: 0 }
    }

    /// The distinguished anchor of the ring: holds no user data and starts
    /// with both links pointing at itself.
    pub fn create_sentinel() -> (n: Self)
        ensures
            n.value is None,
            n.next == 0,
            n.prev == 0,
    {
        Self { value: None, next: 0, prev: 0 }
    }
}

/// The ring position after `k` on a ring of `m` positions.
pub open spec fn ring_next(k: int, m: int) -> int {
    if k + 1 == m {
        0
    } else {
        k + 1
    }
}

/// The ring position before `k` on a ring of `m` positions.
pub open spec fn ring_prev(k: int, m: int) -> int {
    if k == 0 {
        m - 1
    } else {
        k - 1
    }
}

/// A circular chain anchored by a sentinel: the nodes live in an
/// index-addressed arena, slot 0 is the sentinel, and the ghost `order`
/// records the arena indices of the real nodes from front to back.
pub struct DoublyLinkedList<T> {
    nodes: Vec<DoublyLinkedNode<T>>,
    size: usize,
    order: Ghost<Seq<usize>>,
}

impl<T> DoublyLinkedList<T> {
    /// The ring read along `next` links: the sentinel's position followed by
    /// the real nodes front to back.
    spec fn ring(self) -> Seq<usize> {
        seq![0usize] + self.order@
    }

    /// The arena-side invariant: slot 0 is the sentinel, `order` holds
    /// exactly `size` distinct in-bounds indices of value-carrying slots.
    spec fn wf_arena(self) -> bool {
        &&& self.nodes@.len() >= 1
        &&& self.nodes@[0].value is None
        &&& self.order@.len() == self.size
        &&& (forall|k: int|
            0 <= k < self.order@.len() ==> 1 <= #[trigger] self.order@[k]
                < self.nodes@.len())
        &&& (forall|k: int|
            0 <= k < self.order@.len() ==> self.nodes@[#[trigger] self.order@[k] as int].value
                is Some)
        &&& (forall|k1: int, k2: int|
            #![trigger self.order@[k1], self.order@[k2]]
            0 <= k1 < k2 < self.order@.len() ==> self.order@[k1] != self.order@[k2])
    }

    /// The link invariant: along the ring, every slot's `next` and `prev`
    /// point at its circular neighbours.
    spec fn links_ok(self) -> bool {
        forall|k: int|
            0 <= k < self.ring().len() ==> {
                &&& self.nodes@[#[trigger] self.ring()[k] as int].next == self.ring()[ring_next(
                    k,
                    self.ring().len() as int,
                )]
                &&& self.nodes@[self.ring()[k] as int].prev == self.ring()[ring_prev(
                    k,
                    self.ring().len() as int,
                )]
            }
    }

    /// Bounds and distinctness of the ring positions, derived from the
    /// arena invariant.
    proof fn lemma_ring(&self)
        requires
            self.wf_arena(),
        ensures
            self.ring().len() == self.size + 1,
            self.ring()[0] == 0,
            forall|k: int| 0 <= k < self.ring().len() ==> #[trigger] self.ring()[k] < self.nodes@.len(),
            forall|k: int| 1 <= k < self.ring().len() ==> 1 <= #[trigger] self.ring()[k],
            forall|k1: int, k2: int|
                #![trigger self.ring()[k1], self.ring()[k2]]
                0 <= k1 < k2 < self.ring().len() ==> self.ring()[k1] != self.ring()[k2],
    {
        assert forall|k: int| 0 <= k < self.ring().len() implies #[trigger] self.ring()[k]
            < self.nodes@.len() by {
            if k > 0 {
                assert(self.ring()[k] == self.order@[k - 1]);
            }
        }
        assert forall|k1: int, k2: int|
            #![trigger self.ring()[k1], self.ring()[k2]]
            0 <= k1 < k2 < self.ring().len() implies self.ring()[k1] != self.ring()[k2] by {
            if k1 == 0 {
                assert(self.ring()[k2] == self.order@[k2 - 1]);
                assert(1 <= self.order@[k2 - 1]);
            } else {
                assert(self.ring()[k1] == self.order@[k1 - 1]);
                assert(self.ring()[k2] == self.order@[k2 - 1]);
                assert(self.order@[k1 - 1] != self.order@[k2 - 1]);
            }
        }
    }
}

impl<T: PartialOrd + Copy> List<T> for DoublyLinkedList<T> {
    closed spec fn seq(&self) -> Seq<T> {
        Seq::new(self.order@.len(), |k: int| self.nodes@[self.order@[k] as int].value.unwrap())
    }

    closed spec fn wf(&self) -> bool {
        self.wf_arena() && self.links_ok()
    }

    fn new() -> (l: Self) {
        let mut nodes: Vec<DoublyLinkedNode<T>> = Vec::new();
        nodes.push(DoublyLinkedNode::create_sentinel());
        let l = Self { nodes, size: 0, order: Ghost(Seq::empty()) };
        proof {
            assert(l.ring() =~= seq![0usize]);
            assert(l.seq() =~= Seq::<T>::empty());
        }
        l
    }

    fn push_front(&mut self, data: T) {
        proof {
            old(self).lemma_ring();
            assert(old(self).ring()[0] == 0);
        }
        let n = self.nodes.len();
        let old_first = self.nodes[0].next;
        proof {
            assert(self.nodes@[self.ring()[0] as int].next == self.ring()[ring_next(
                0,
                self.ring().len() as int,
            )]);
            assert(old_first == self.ring()[ring_next(0, self.size + 1)]);
            assert(old_first < self.nodes@.len());
        }
        let mut node = DoublyLinkedNode::create(data);
        node.next = old_first;
        self.nodes.push(node);
        self.nodes[old_first].prev = n;
        self.nodes[0].next = n;
        self.size = self.size + 1;
        self.order = Ghost(seq![n] + self.order@);
        proof {
            let s0 = old(self).order@;
            let m = s0.len() as int + 1;
            let r0 = old(self).ring();
            let r1 = self.ring();
            let nodes0 = old(self).nodes@;
            let nodes1 = self.nodes@;
            let ni = n as int;
            let of = old_first as int;
            assert(r1 =~= r0.insert(1, n));
            assert(r0[ring_next(0, m)] == old_first);
            assert(nodes1[ni].value == Some(data));
            assert(nodes1[ni].next == old_first);
            assert(nodes1[ni].prev == 0);
            assert(nodes1[0].next == n);
            assert(nodes1[0].value == nodes0[0].value);
            assert(forall|i: int|
                0 <= i < nodes0.len() && i != of && i != 0 ==> nodes1[i] == nodes0[i]);
            assert(nodes1[of].prev == n);
            assert(nodes1[of].value == nodes0[of].value);
            assert(of != 0 ==> nodes1[of].next == nodes0[of].next);
            assert(of == 0 ==> m == 1);
            assert(nodes1[0].prev == if of == 0 {
                n as usize
            } else {
                nodes0[0].prev
            });
            // arena invariant
            assert forall|k1: int, k2: int|
                #![trigger self.order@[k1], self.order@[k2]]
                0 <= k1 < k2 < self.order@.len() implies self.order@[k1] != self.order@[k2] by {
                if k1 == 0 {
                    assert(self.order@[k2] == s0[k2 - 1]);
                    assert(s0[k2 - 1] < n);
                } else {
                    assert(self.order@[k1] == s0[k1 - 1]);
                    assert(self.order@[k2] == s0[k2 - 1]);
                }
            }
            assert(self.wf_arena());
            // link invariant
            assert forall|k: int| 0 <= k < r1.len() implies {
                &&& nodes1[#[trigger] r1[k] as int].next == r1[ring_next(k, r1.len() as int)]
                &&& nodes1[r1[k] as int].prev == r1[ring_prev(k, r1.len() as int)]
            } by {
                if k == 0 {
                    assert(r1[0] == 0);
                    assert(r1[ring_next(0, m + 1)] == n);
                    if m == 1 {
                        assert(r1[ring_prev(0, m + 1)] == r1[1]);
                    } else {
                        assert(nodes0[r0[0] as int].prev == r0[ring_prev(0, m)]);
                        assert(r1[ring_prev(0, m + 1)] == r1[m]);
                        assert(r1[m] == r0[m - 1]);
                    }
                } else if k == 1 {
                    assert(r1[1] == n);
                    if m == 1 {
                        assert(ring_next(1, 2) == 0);
                        assert(old_first == r0[0]);
                    } else {
                        assert(r1[ring_next(1, m + 1)] == r1[2]);
                        assert(r1[2] == r0[1]);
                        assert(old_first == r0[1]);
                    }
                    assert(r1[ring_prev(1, m + 1)] == r1[0]);
                } else if k == 2 && m >= 2 {
                    assert(r1[2] == r0[1]);
                    assert(r0[1] == old_first);
                    assert(nodes0[r0[1] as int].next == r0[ring_next(1, m)]);
                    assert(nodes1[of].next == nodes0[of].next);
                    if m == 2 {
                        assert(r1[ring_next(2, m + 1)] == r1[0]);
                        assert(r0[ring_next(1, m)] == r0[0]);
                    } else {
                        assert(r1[ring_next(2, m + 1)] == r1[3]);
                        assert(r1[3] == r0[2]);
                    }
                    assert(r1[ring_prev(2, m + 1)] == r1[1]);
                } else {
                    // k >= 3: untouched interior node at ring position k - 1 of r0
                    assert(r1[k] == r0[k - 1]);
                    assert(nodes0[r0[k - 1] as int].next == r0[ring_next(k - 1, m)]);
                    assert(nodes0[r0[k - 1] as int].prev == r0[ring_prev(k - 1, m)]);
                    assert(r0[k - 1] != r0[0]);
                    assert(r0[k - 1] != r0[1]);
                    assert(r0[k - 1] != 0);
                    assert(r0[k - 1] != old_first);
                    assert(r0[k - 1] < n);
                    assert(nodes1[r1[k] as int] == nodes0[r0[k - 1] as int]);
                    if k == m {
                        assert(r1[ring_next(k, m + 1)] == r1[0]);
                        assert(r0[ring_next(k - 1, m)] == r0[0]);
                    } else {
                        assert(r1[ring_next(k, m + 1)] == r1[k + 1]);
                        assert(r1[k + 1] == r0[k]);
                        assert(r0[ring_next(k - 1, m)] == r0[k]);
                    }
                    assert(r1[ring_prev(k, m + 1)] == r1[k - 1]);
                    assert(r1[k - 1] == r0[k - 2]);
                    assert(r0[ring_prev(k - 1, m)] == r0[k - 2]);
                }
            }
            assert(self.links_ok());
            // the model gained the value at the front
            assert forall|k: int| 0 <= k < s0.len() implies nodes1[s0[k] as int].value
                == nodes0[s0[k] as int].value by {
                if s0[k] as int == of {
                } else {
                    assert(nodes1[s0[k] as int] == nodes0[s0[k] as int]);
                }
            }
            assert(self.seq() =~= seq![data] + old(self).seq());
        }
    }

    fn push_back(&mut self, data: T) {
        proof {
            old(self).lemma_ring();
            assert(old(self).ring()[0] == 0);
        }
        let n = self.nodes.len();
        let old_last = self.nodes[0].prev;
        proof {
            assert(self.nodes@[self.ring()[0] as int].prev == self.ring()[ring_prev(
                0,
                self.ring().len() as int,
            )]);
            assert(old_last == self.ring()[self.size as int]);
            assert(old_last < self.nodes@.len());
        }
        let mut node = DoublyLinkedNode::create(data);
        node.prev = old_last;
        self.nodes.push(node);
        self.nodes[old_last].next = n;
        self.nodes[0].prev = n;
        self.size = self.size + 1;
        self.order = Ghost(self.order@.push(n));
        proof {
            let s0 = old(self).order@;
            let m = s0.len() as int + 1;
            let r0 = old(self).ring();
            let r1 = self.ring();
            let nodes0 = old(self).nodes@;
            let nodes1 = self.nodes@;
            let ni = n as int;
            let ol = old_last as int;
            assert(r1 =~= r0.push(n));
            assert(r0[m - 1] == old_last);
            assert(nodes1[ni].value == Some(data));
            assert(nodes1[ni].next == 0);
            assert(nodes1[ni].prev == old_last);
            assert(nodes1[0].prev == n);
            assert(nodes1[0].value == nodes0[0].value);
            assert(forall|i: int|
                0 <= i < nodes0.len() && i != ol && i != 0 ==> nodes1[i] == nodes0[i]);
            assert(nodes1[ol].next == n);
            assert(nodes1[ol].value == nodes0[ol].value);
            assert(ol != 0 ==> nodes1[ol].prev == nodes0[ol].prev);
            assert(ol == 0 ==> m == 1);
            assert(nodes1[0].next == if ol == 0 {
                n as usize
            } else {
                nodes0[0].next
            });
            // arena invariant
            assert forall|k1: int, k2: int|
                #![trigger self.order@[k1], self.order@[k2]]
                0 <= k1 < k2 < self.order@.len() implies self.order@[k1] != self.order@[k2] by {
                if k2 == s0.len() as int {
                    assert(self.order@[k1] == s0[k1]);
                    assert(s0[k1] < n);
                } else {
                    assert(self.order@[k1] == s0[k1]);
                    assert(self.order@[k2] == s0[k2]);
                }
            }
            assert(self.wf_arena());
            // link invariant
            assert forall|k: int| 0 <= k < r1.len() implies {
                &&& nodes1[#[trigger] r1[k] as int].next == r1[ring_next(k, r1.len() as int)]
                &&& nodes1[r1[k] as int].prev == r1[ring_prev(k, r1.len() as int)]
            } by {
                if k == 0 {
                    assert(r1[0] == 0);
                    assert(r1[ring_prev(0, m + 1)] == r1[m]);
                    if m == 1 {
                        assert(r1[ring_next(0, m + 1)] == r1[1]);
                    } else {
                        assert(nodes0[r0[0] as int].next == r0[ring_next(0, m)]);
                        assert(r1[ring_next(0, m + 1)] == r1[1]);
                        assert(r1[1] == r0[1]);
                    }
                } else if k == m - 1 && k != 0 {
                    assert(r1[k] == r0[m - 1]);
                    assert(r0[m - 1] == old_last);
                    assert(nodes0[r0[m - 1] as int].prev == r0[ring_prev(m - 1, m)]);
                    assert(nodes1[ol].prev == nodes0[ol].prev);
                    assert(r1[ring_next(k, m + 1)] == r1[m]);
                    assert(r1[ring_prev(k, m + 1)] == r1[k - 1]);
                    assert(r1[k - 1] == r0[m - 2]);
                    assert(r0[ring_prev(m - 1, m)] == r0[m - 2]);
                } else if k == m {
                    assert(r1[m] == n);
                    assert(r1[ring_next(m, m + 1)] == r1[0]);
                    assert(r1[ring_prev(m, m + 1)] == r1[m - 1]);
                    assert(r1[m - 1] == r0[m - 1]);
                } else {
                    // 1 <= k < m - 1: untouched interior node
                    assert(r1[k] == r0[k]);
                    assert(nodes0[r0[k] as int].next == r0[ring_next(k, m)]);
                    assert(nodes0[r0[k] as int].prev == r0[ring_prev(k, m)]);
                    assert(r0[k] != r0[m - 1]);
                    assert(r0[k] != 0);
                    assert(r0[k] != old_last);
                    assert(r0[k] < n);
                    assert(nodes1[r1[k] as int] == nodes0[r0[k] as int]);
                    assert(r1[ring_next(k, m + 1)] == r1[k + 1]);
                    assert(r1[k + 1] == r0[k + 1]);
                    assert(r0[ring_next(k, m)] == r0[k + 1]);
                    assert(r1[ring_prev(k, m + 1)] == r1[k - 1]);
                    assert(r1[k - 1] == r0[k - 1]);
                    assert(r0[ring_prev(k, m)] == r0[k - 1]);
                }
            }
            assert(self.links_ok());
            // the model gained the value at the back
            assert forall|k: int| 0 <= k < s0.len() implies nodes1[s0[k] as int].value
                == nodes0[s0[k] as int].value by {
                if s0[k] as int == ol {
                } else {
                    assert(nodes1[s0[k] as int] == nodes0[s0[k] as int]);
                }
            }
            assert(self.seq() =~= old(self).seq().push(data));
        }
    }

    #[verifier::rlimit(50)]
    fn pop_front(&mut self) -> (r: Result<T, ListError>) {
        if self.size == 0 {
            return Err(ListError::EmptyContainer);
        }
        proof {
            old(self).lemma_ring();
            assert(old(self).ring()[0] == 0);
            assert(self.nodes@[self.ring()[0] as int].next == self.ring()[ring_next(
                0,
                self.ring().len() as int,
            )]);
        }
        let idx = self.nodes[0].next;
        proof {
            assert(idx == self.ring()[1]);
            assert(idx == self.order@[0]);
            assert(idx < self.nodes@.len());
            assert(self.nodes@[self.ring()[1] as int].next == self.ring()[ring_next(
                1,
                self.ring().len() as int,
            )]);
        }
        let nxt = self.nodes[idx].next;
        let value_opt = self.nodes[idx].value.take();
        let value = value_opt.unwrap();
        proof {
            assert(nxt == old(self).ring()[ring_next(1, self.size + 1)]);
            assert(nxt < self.nodes@.len());
        }
        self.nodes[0].next = nxt;
        self.nodes[nxt].prev = 0;
        self.size = self.size - 1;
        self.order = Ghost(self.order@.drop_first());
        proof {
            let s0 = old(self).order@;
            let m = s0.len() as int + 1;
            let r0 = old(self).ring();
            let r1 = self.ring();
            let nodes0 = old(self).nodes@;
            let nodes1 = self.nodes@;
            let ix = idx as int;
            let nx = nxt as int;
            assert(r1 =~= r0.remove(1));
            assert(r0[1] == idx);
            assert(idx != 0);
            assert(nx == r0[ring_next(1, m)] as int);
            assert(value == nodes0[ix].value.unwrap());
            assert(nodes1[0].next == nxt);
            assert(nodes1[0].value == nodes0[0].value);
            assert(nodes1[ix].value is None);
            assert(forall|i: int|
                0 <= i < nodes0.len() && i != ix && i != 0 && i != nx ==> nodes1[i] == nodes0[i]);
            assert(nodes1[nx].prev == 0);
            assert(nodes1[nx].value == nodes0[nx].value);
            assert(nx != 0 && nx != ix ==> nodes1[nx].next == nodes0[nx].next);
            assert(nx == 0 ==> m == 2);
            assert(m > 2 ==> nx == r0[2]);
            assert(m > 2 ==> nodes1[0].prev == nodes0[0].prev);
            // arena invariant
            assert forall|k1: int, k2: int|
                #![trigger self.order@[k1], self.order@[k2]]
                0 <= k1 < k2 < self.order@.len() implies self.order@[k1] != self.order@[k2] by {
                assert(self.order@[k1] == s0[k1 + 1]);
                assert(self.order@[k2] == s0[k2 + 1]);
            }
            assert forall|k: int| 0 <= k < self.order@.len() implies self.nodes@[#[trigger] self.order@[k] as int].value
                is Some by {
                assert(self.order@[k] == s0[k + 1]);
                assert(s0[k + 1] != s0[0]);
                assert(self.order@[k] as int != ix);
                if self.order@[k] as int == nx {
                } else {
                    assert(nodes1[self.order@[k] as int] == nodes0[self.order@[k] as int]);
                }
            }
            assert(self.wf_arena());
            // link invariant
            assert forall|k: int| 0 <= k < r1.len() implies {
                &&& nodes1[#[trigger] r1[k] as int].next == r1[ring_next(k, r1.len() as int)]
                &&& nodes1[r1[k] as int].prev == r1[ring_prev(k, r1.len() as int)]
            } by {
                if k == 0 {
                    assert(r1[0] == 0);
                    if m == 2 {
                        assert(ring_next(0, 1) == 0 && ring_prev(0, 1) == 0);
                        assert(nodes1[0].next == 0);
                        assert(nodes1[0].prev == 0);
                    } else {
                        assert(r1[ring_next(0, m - 1)] == r1[1]);
                        assert(r1[1] == r0[2]);
                        assert(nodes0[r0[0] as int].prev == r0[ring_prev(0, m)]);
                        assert(r1[ring_prev(0, m - 1)] == r1[m - 2]);
                        assert(r1[m - 2] == r0[m - 1]);
                    }
                } else if k == 1 && m > 2 {
                    assert(r1[1] == r0[2]);
                    assert(r0[2] == nxt);
                    assert(nodes0[r0[2] as int].next == r0[ring_next(2, m)]);
                    assert(r1[ring_prev(1, m - 1)] == r1[0]);
                    if m == 3 {
                        assert(r1[ring_next(1, m - 1)] == r1[0]);
                        assert(r0[ring_next(2, m)] == r0[0]);
                        assert(nodes1[nx].next == nodes0[nx].next);
                    } else {
                        assert(r1[ring_next(1, m - 1)] == r1[2]);
                        assert(r1[2] == r0[3]);
                        assert(r0[ring_next(2, m)] == r0[3]);
                        assert(nodes1[nx].next == nodes0[nx].next);
                    }
                } else {
                    // k >= 2: untouched node at ring position k + 1 of r0
                    assert(r1[k] == r0[k + 1]);
                    assert(nodes0[r0[k + 1] as int].next == r0[ring_next(k + 1, m)]);
                    assert(nodes0[r0[k + 1] as int].prev == r0[ring_prev(k + 1, m)]);
                    assert(r0[k + 1] != r0[0]);
                    assert(r0[k + 1] != r0[1]);
                    assert(r0[k + 1] != r0[2]);
                    assert(r0[k + 1] != 0);
                    assert(r0[k + 1] != idx);
                    assert(r0[k + 1] != nxt);
                    assert(nodes1[r1[k] as int] == nodes0[r0[k + 1] as int]);
                    if k == m - 2 {
                        assert(r1[ring_next(k, m - 1)] == r1[0]);
                        assert(r0[ring_next(k + 1, m)] == r0[0]);
                    } else {
                        assert(r1[ring_next(k, m - 1)] == r1[k + 1]);
                        assert(r1[k + 1] == r0[k + 2]);
                        assert(r0[ring_next(k + 1, m)] == r0[k + 2]);
                    }
                    assert(r1[ring_prev(k, m - 1)] == r1[k - 1]);
                    assert(r1[k - 1] == r0[k]);
                    assert(r0[ring_prev(k + 1, m)] == r0[k]);
                }
            }
            assert(self.links_ok());
            // the model lost its front value
            assert forall|k: int| 0 <= k < self.order@.len() implies nodes1[self.order@[k] as int].value
                == nodes0[self.order@[k] as int].value by {
                assert(self.order@[k] == s0[k + 1]);
                if self.order@[k] as int == nx {
                } else {
                    assert(nodes1[self.order@[k] as int] == nodes0[self.order@[k] as int]);
                }
            }
            assert(self.seq() =~= old(self).seq().drop_first());
            assert(value == old(self).seq()[0]);
        }
        Ok(value)
    }

    fn pop_back(&mut self) -> (r: Result<T, ListError>) {
        if self.size == 0 {
            return Err(ListError::EmptyContainer);
        }
        proof {
            old(self).lemma_ring();
            assert(old(self).ring()[0] == 0);
            assert(self.nodes@[self.ring()[0] as int].prev == self.ring()[ring_prev(
                0,
                self.ring().len() as int,
            )]);
        }
        let idx = self.nodes[0].prev;
        proof {
            assert(idx == self.ring()[self.size as int]);
            assert(idx == self.order@[self.size - 1]);
            assert(idx < self.nodes@.len());
            assert(idx != 0);
            assert(self.nodes@[self.ring()[self.size as int] as int].prev == self.ring()[ring_prev(
                self.size as int,
                self.ring().len() as int,
            )]);
        }
        let prv = self.nodes[idx].prev;
        let value_opt = self.nodes[idx].value.take();
        let value = value_opt.unwrap();
        proof {
            assert(prv == old(self).ring()[ring_prev(self.size as int, self.size + 1)]);
            assert(prv < self.nodes@.len());
        }
        self.nodes[prv].next = 0;
        self.nodes[0].prev = prv;
        self.size = self.size - 1;
        self.order = Ghost(self.order@.drop_last());
        proof {
            let s0 = old(self).order@;
            let m = s0.len() as int + 1;
            let r0 = old(self).ring();
            let r1 = self.ring();
            let nodes0 = old(self).nodes@;
            let nodes1 = self.nodes@;
            let ix = idx as int;
            let pv = prv as int;
            assert(r1 =~= r0.drop_last());
            assert(r0[m - 1] == idx);
            assert(pv == r0[m - 2] as int);
            assert(value == nodes0[ix].value.unwrap());
            assert(nodes1[0].prev == prv);
            assert(nodes1[0].value == nodes0[0].value);
            assert(nodes1[ix].value is None);
            assert(forall|i: int|
                0 <= i < nodes0.len() && i != ix && i != 0 && i != pv ==> nodes1[i] == nodes0[i]);
            assert(nodes1[pv].next == 0);
            assert(nodes1[pv].value == nodes0[pv].value);
            assert(pv != 0 && pv != ix ==> nodes1[pv].prev == nodes0[pv].prev);
            assert(pv == 0 ==> m == 2);
            assert(m > 2 ==> nodes1[0].next == nodes0[0].next);
            // arena invariant
            assert(self.order@ =~= s0.drop_last());
            assert forall|k: int| 0 <= k < self.order@.len() implies self.nodes@[#[trigger] self.order@[k] as int].value
                is Some by {
                assert(self.order@[k] == s0[k]);
                assert(s0[k] != s0[s0.len() - 1]);
                assert(self.order@[k] as int != ix);
                if self.order@[k] as int == pv {
                } else {
                    assert(nodes1[self.order@[k] as int] == nodes0[self.order@[k] as int]);
                }
            }
            assert(self.wf_arena());
            // link invariant
            assert forall|k: int| 0 <= k < r1.len() implies {
                &&& nodes1[#[trigger] r1[k] as int].next == r1[ring_next(k, r1.len() as int)]
                &&& nodes1[r1[k] as int].prev == r1[ring_prev(k, r1.len() as int)]
            } by {
                if k == 0 {
                    assert(r1[0] == 0);
                    if m == 2 {
                        assert(ring_next(0, 1) == 0 && ring_prev(0, 1) == 0);
                        assert(nodes1[0].next == 0);
                        assert(nodes1[0].prev == 0);
                    } else {
                        assert(nodes0[r0[0] as int].next == r0[ring_next(0, m)]);
                        assert(r1[ring_next(0, m - 1)] == r1[1]);
                        assert(r1[1] == r0[1]);
                        assert(r1[ring_prev(0, m - 1)] == r1[m - 2]);
                        assert(r1[m - 2] == r0[m - 2]);
                    }
                } else if k == m - 2 && k != 0 {
                    assert(r1[k] == r0[m - 2]);
                    assert(r0[m - 2] == prv);
                    assert(nodes0[r0[m - 2] as int].prev == r0[ring_prev(m - 2, m)]);
                    assert(nodes1[pv].prev == nodes0[pv].prev);
                    assert(r1[ring_next(k, m - 1)] == r1[0]);
                    assert(r1[ring_prev(k, m - 1)] == r1[k - 1]);
                    assert(r1[k - 1] == r0[k - 1]);
                    assert(r0[ring_prev(m - 2, m)] == r0[m - 3]);
                } else {
                    // 1 <= k < m - 2: untouched node at ring position k of r0
                    assert(r1[k] == r0[k]);
                    assert(nodes0[r0[k] as int].next == r0[ring_next(k, m)]);
                    assert(nodes0[r0[k] as int].prev == r0[ring_prev(k, m)]);
                    assert(r0[k] != r0[0]);
                    assert(r0[k] != r0[m - 1]);
                    assert(r0[k] != r0[m - 2]);
                    assert(r0[k] != 0);
                    assert(r0[k] != idx);
                    assert(r0[k] != prv);
                    assert(nodes1[r1[k] as int] == nodes0[r0[k] as int]);
                    assert(r1[ring_next(k, m - 1)] == r1[k + 1]);
                    assert(r1[k + 1] == r0[k + 1]);
                    assert(r0[ring_next(k, m)] == r0[k + 1]);
                    assert(r1[ring_prev(k, m - 1)] == r1[k - 1]);
                    assert(r1[k - 1] == r0[k - 1]);
                    assert(r0[ring_prev(k, m)] == r0[k - 1]);
                }
            }
            assert(self.links_ok());
            // the model lost its back value
            assert forall|k: int| 0 <= k < self.order@.len() implies nodes1[self.order@[k] as int].value
                == nodes0[self.order@[k] as int].value by {
                assert(self.order@[k] == s0[k]);
                if self.order@[k] as int == pv {
                } else {
                    assert(nodes1[self.order@[k] as int] == nodes0[self.order@[k] as int]);
                }
            }
            assert(self.seq() =~= old(self).seq().drop_last());
            assert(value == old(self).seq().last());
        }
        Ok(value)
    }

    fn is_empty(&self) -> (r: bool) {
        self.size == 0
    }

    #[verifier::rlimit(50)]
    fn is_sorted(&self) -> (r: bool) {
        if self.size <= 1 {
            return true;
        }
        proof {
            assert(self.ring()[0] == 0);
            assert(self.nodes@[self.ring()[0] as int].next == self.ring()[ring_next(
                0,
                self.ring().len() as int,
            )]);
            assert(self.ring()[1] == self.order@[0]);
        }
        let ghost vals = self.seq();
        let mut cur = self.nodes[0].next;
        let mut k: usize = 0;
        while k + 1 < self.size
            invariant
                self.wf(),
                vals == self.seq(),
                self.size == vals.len(),
                2 <= self.size,
                k + 1 < self.size,
                cur == self.order@[k as int],
                T::obeys_partial_cmp_spec() ==> forall|j: int|
                    0 <= j < k ==> (#[trigger] vals[j]).partial_cmp_spec(&vals[j + 1]) != Some(
                        Ordering::Greater,
                    ),
            decreases self.size - k,
        {
            proof {
                assert(self.ring()[k + 1] == self.order@[k as int]);
                assert(self.nodes@[self.ring()[k + 1] as int].next == self.ring()[ring_next(
                    k + 1,
                    self.ring().len() as int,
                )]);
                assert(ring_next(k + 1, self.size + 1) == k + 2);
                assert(self.ring()[k + 2] == self.order@[k + 1]);
            }
            let nxt = self.nodes[cur].next;
            let a = self.nodes[cur].value;
            let b = self.nodes[nxt].value;
            let av = a.unwrap();
            let bv = b.unwrap();
            proof {
                assert(av == vals[k as int]);
                assert(bv == vals[k + 1]);
            }
            if av.gt(&bv) {
                proof {
                    if T::obeys_partial_cmp_spec() {
                        assert(vals[k as int].partial_cmp_spec(&vals[k + 1]) == Some(
                            Ordering::Greater,
                        ));
                        assert(!sorted(vals));
                    }
                }
                return false;
            }
            if k + 2 == self.size {
                proof {
                    if T::obeys_partial_cmp_spec() {
                        assert forall|j: int|
                            0 <= j && j + 1 < vals.len() implies (#[trigger] vals[j]).partial_cmp_spec(
                            &vals[j + 1],
                        ) != Some(Ordering::Greater) by {
                            if j < k as int {
                                assert(vals[j].partial_cmp_spec(&vals[j + 1]) != Some(
                                    Ordering::Greater,
                                ));
                            }
                        }
                        assert(sorted(vals));
                    }
                }
                return true;
            }
            cur = nxt;
            k = k + 1;
        }
        proof {
            assert(false);
        }
        true
    }

    fn get(&mut self, index: usize) -> (r: Option<T>) {
        if index >= self.size {
            return None;
        }
        proof {
            self.lemma_ring();
            assert(self.nodes@[self.ring()[0] as int].next == self.ring()[ring_next(
                0,
                self.ring().len() as int,
            )]);
            assert(self.ring()[1] == self.order@[0]);
        }
        let mut cur = self.nodes[0].next;
        let mut k: usize = 0;
        while k < index
            invariant
                self.wf(),
                self.size == self.seq().len(),
                k <= index,
                index < self.size,
                cur == self.order@[k as int],
            decreases index - k,
        {
            proof {
                self.lemma_ring();
                assert(self.ring()[k + 1] == self.order@[k as int]);
                assert(self.nodes@[self.ring()[k + 1] as int].next == self.ring()[ring_next(
                    k + 1,
                    self.ring().len() as int,
                )]);
                assert(ring_next(k + 1, self.size + 1) == k + 2);
                assert(self.ring()[k + 2] == self.order@[k + 1]);
            }
            cur = self.nodes[cur].next;
            k = k + 1;
        }
        let v = self.nodes[cur].value;
        Some(v.unwrap())
    }

    fn len(&self) -> (r: usize) {
        self.size
    }
}

} // verus!
