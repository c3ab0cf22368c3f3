use vstd::prelude::*;
use vstd::std_specs::cmp::PartialOrdSpec;
use core::cmp::Ordering;
use crate::list::List;
use crate::list::ListError;
use crate::list::sorted;

verus! {

/// One element of a singly linked chain: the value and exclusive ownership
/// of the successor, absent at the tail.
pub struct Node<T> {
    pub value: T,
    pub next: Option<Box<Node<T>>>,
}

/// The values stored in a chain of nodes, front to back.
pub open spec fn chain_seq<T>(chain: Option<Box<Node<T>>>) -> Seq<T>
    decreases chain,
{
    match chain {
        Some(node) => seq![node.value] + chain_seq(node.next),
        None => Seq::empty(),
    }
}

impl<T> Node<T> {
    /// A tail node: holds the value, no successor.
    pub fn create(data: T) -> (n: Self)
        ensures
            n.value == data,
            n.next is None,
    {
        Self { value: data, next: None }
    }

    /// A node holding the value, linked to the given successor chain.
    pub fn create_and_link(data: T, next: Option<Box<Self>>) -> (n: Self)
        ensures
            n.value == data,
            n.next == next,
    {
        Self { value: data, next }
    }
}

/// A forward-only chain of owned nodes with a cached element count.
pub struct SinglyLinkedList<T> {
    head: Option<Box<Node<T>>>,
    size: usize,
}

/// Append a value at the tail of a chain by walking the successor links to
/// the first absent one.
fn push_back_rec<T>(chain: &mut Option<Box<Node<T>>>, data: T)
    ensures
        chain_seq(*final(chain)) == chain_seq(*old(chain)).push(data),
    decreases chain_seq(*old(chain)).len(),
{
    match chain {
        None => {
            *chain = Some(Box::new(Node::create(data)));
            proof {
                assert(chain_seq(*old(chain)) =~= Seq::<T>::empty());
                assert(chain_seq(*final(chain)) =~= chain_seq(*old(chain)).push(data));
            }
        },
        Some(node) => {
            push_back_rec(&mut node.next, data);
            proof {
                assert(chain_seq(*final(chain)) =~= chain_seq(*old(chain)).push(data));
            }
        },
    }
}

/// Splitting off the front element: a chain is sorted exactly when its first
/// adjacent pair is not inverted and the rest is sorted.
proof fn lemma_sorted_cons<T: PartialOrd>(v: T, t: Seq<T>)
    requires
        t.len() > 0,
    ensures
        sorted(seq![v] + t) <==> (v.partial_cmp_spec(&t[0]) != Some(Ordering::Greater) && sorted(
            t,
        )),
{
    let s = seq![v] + t;
    assert(s[0] == v);
    if v.partial_cmp_spec(&t[0]) != Some(Ordering::Greater) && sorted(t) {
        assert forall|i: int|
            0 <= i && i + 1 < s.len() implies (#[trigger] s[i]).partial_cmp_spec(&s[i + 1])
            != Some(Ordering::Greater) by {
            if i == 0 {
                assert(s[1] == t[0]);
            } else {
                assert(s[i] == t[i - 1]);
                assert(s[i + 1] == t[i]);
                assert(t[i - 1].partial_cmp_spec(&t[i]) != Some(Ordering::Greater));
            }
        }
        assert(sorted(s));
    }
    if sorted(s) {
        assert(s[0].partial_cmp_spec(&s[1]) != Some(Ordering::Greater));
        assert(s[1] == t[0]);
        assert forall|i: int|
            0 <= i && i + 1 < t.len() implies (#[trigger] t[i]).partial_cmp_spec(&t[i + 1])
            != Some(Ordering::Greater) by {
            assert(s[i + 1] == t[i]);
            assert(s[i + 2] == t[i + 1]);
            assert(s[i + 1].partial_cmp_spec(&s[i + 2]) != Some(Ordering::Greater));
        }
        assert(sorted(t));
    }
}

/// Linear scan for an inverted adjacent pair, short-circuiting false on the
/// first one found.
fn sorted_rec<T: PartialOrd>(chain: &Option<Box<Node<T>>>) -> (r: bool)
    ensures
        T::obeys_partial_cmp_spec() ==> (r <==> sorted(chain_seq(*chain))),
        chain_seq(*chain).len() <= 1 ==> r,
    decreases chain_seq(*chain).len(),
{
    match chain {
        None => {
            proof {
                assert(chain_seq(*chain) == Seq::<T>::empty());
            }
            true
        },
        Some(node) => {
            match &node.next {
                None => {
                    proof {
                        assert(chain_seq(node.next) == Seq::<T>::empty());
                        assert(chain_seq(*chain) =~= seq![node.value]);
                    }
                    true
                },
                Some(next) => {
                    proof {
                        lemma_sorted_cons(node.value, chain_seq(node.next));
                    }
                    if node.value.gt(&next.value) {
                        false
                    } else {
                        sorted_rec(&node.next)
                    }
                },
            }
        },
    }
}

/// The value at the given position of a chain, reached by walking successor
/// links from the front.
fn get_rec<T: Copy>(chain: &Option<Box<Node<T>>>, index: usize) -> (r: T)
    requires
        index < chain_seq(*chain).len(),
    ensures
        r == chain_seq(*chain)[index as int],
    decreases index,
{
    let node = chain.as_ref().unwrap();
    if index == 0 {
        node.value
    } else {
        get_rec(&node.next, index - 1)
    }
}

/// Detach the tail node of a non-empty chain and return its value, walking
/// to the node whose successor is the tail.
fn pop_back_rec<T>(chain: &mut Option<Box<Node<T>>>) -> (r: T)
    requires
        chain_seq(*old(chain)).len() > 0,
    ensures
        r == chain_seq(*old(chain)).last(),
        chain_seq(*final(chain)) == chain_seq(*old(chain)).drop_last(),
    decreases chain_seq(*old(chain)).len(),
{
    let at_tail = chain.as_ref().unwrap().next.is_none();
    if at_tail {
        let node = chain.take().unwrap();
        proof {
            assert(chain_seq(*final(chain)) =~= chain_seq(*old(chain)).drop_last());
        }
        let inner = *node;
        inner.value
    } else {
        match chain {
            None => unreached(),
            Some(node) => {
                let r = pop_back_rec(&mut node.next);
                proof {
                    assert(chain_seq(*final(chain)) =~= chain_seq(*old(chain)).drop_last());
                }
                r
            },
        }
    }
}

impl<T: PartialOrd + Copy> List<T> for SinglyLinkedList<T> {
    closed spec fn seq(&self) -> Seq<T> {
        chain_seq(self.head)
    }

    closed spec fn wf(&self) -> bool {
        self.size == chain_seq(self.head).len()
    }

    fn new() -> (l: Self) {
        Self { head: None, size: 0 }
    }

    fn push_front(&mut self, data: T) {
        let old_head = self.head.take();
        let new_head = Box::new(Node::create_and_link(data, old_head));
        self.head = Some(new_head);
        self.size = self.size + 1;
    }

    fn push_back(&mut self, data: T) {
        push_back_rec(&mut self.head, data);
        self.size = self.size + 1;
    }

    fn pop_front(&mut self) -> (r: Result<T, ListError>) {
        if self.size == 0 {
            return Err(ListError::EmptyContainer);
        }
        let old_head = self.head.take().unwrap();
        let inner = *old_head;
        self.head = inner.next;
        self.size = self.size - 1;
        proof {
            assert(chain_seq(old(self).head).drop_first() =~= chain_seq(inner.next));
        }
        Ok(inner.value)
    }

    fn pop_back(&mut self) -> (r: Result<T, ListError>) {
        if self.size == 0 {
            return Err(ListError::EmptyContainer);
        }
        let value = pop_back_rec(&mut self.head);
        self.size = self.size - 1;
        Ok(value)
    }

    fn is_empty(&self) -> (r: bool) {
        self.size == 0
    }

    fn is_sorted(&self) -> (r: bool) {
        sorted_rec(&self.head)
    }

    fn get(&mut self, index: usize) -> (r: Option<T>) {
        if index >= self.size {
            None
        } else {
            Some(get_rec(&self.head, index))
        }
    }

    fn len(&self) -> (r: usize) {
        self.size
    }
}

} // verus!
