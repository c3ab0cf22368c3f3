use vstd::prelude::*;
use vstd::std_specs::cmp::PartialOrdSpec;
use core::cmp::Ordering;

verus! {

/// The single failure condition of both containers: a removal was attempted
/// on a list that holds zero elements.
#[derive(Debug, Clone, Copy, PartialEq, Eq)]
pub enum ListError {
    EmptyContainer,
}

/// A sequence read front to back is sorted when no adjacent pair is inverted
/// under the element ordering; lists of zero or one elements are vacuously
/// sorted.
pub open spec fn sorted<T: PartialOrd>(s: Seq<T>) -> bool {
    forall|i: int|
        0 <= i && i + 1 < s.len() ==> (#[trigger] s[i]).partial_cmp_spec(&s[i + 1]) != Some(
            Ordering::Greater,
        )
}

/// The capability set that every list variant supports, stated over an
/// abstract model: `seq()` gives the contents front to back, and `wf()` is
/// the representation invariant that `new` establishes and every operation
/// preserves.
pub trait List<T: PartialOrd + Clone>: Sized {
    /// The abstract contents of the list, front to back.
    spec fn seq(&self) -> Seq<T>;

    /// The representation invariant tying the concrete structure to its model.
    spec fn wf(&self) -> bool;

    /// An empty list.
    fn new() -> (l: Self)
        ensures
            l.wf(),
            l.seq() == Seq::<T>::empty(),
    ;

    /// Insert at the head: the value becomes the front element and the size
    /// grows by exactly one.
    fn push_front(&mut self, data: T)
        requires
            old(self).wf(),
            old(self).seq().len() < usize::MAX,
        ensures
            final(self).wf(),
            final(self).seq() == seq![data] + old(self).seq(),
    ;

    /// Insert at the tail: the value becomes the back element and the size
    /// grows by exactly one.
    fn push_back(&mut self, data: T)
        requires
            old(self).wf(),
            old(self).seq().len() < usize::MAX,
        ensures
            final(self).wf(),
            final(self).seq() == old(self).seq().push(data),
    ;

    /// Remove and return the front element; fails with `EmptyContainer`, and
    /// changes nothing, exactly when the list holds zero elements.
    fn pop_front(&mut self) -> (r: Result<T, ListError>)
        requires
            old(self).wf(),
        ensures
            final(self).wf(),
            old(self).seq().len() == 0 ==> r == Err::<T, ListError>(ListError::EmptyContainer)
                && final(self).seq() == old(self).seq(),
            old(self).seq().len() > 0 ==> r == Ok::<T, ListError>(old(self).seq()[0])
                && final(self).seq() == old(self).seq().drop_first(),
    ;

    /// Remove and return the back element; fails with `EmptyContainer`, and
    /// changes nothing, exactly when the list holds zero elements.
    fn pop_back(&mut self) -> (r: Result<T, ListError>)
        requires
            old(self).wf(),
        ensures
            final(self).wf(),
            old(self).seq().len() == 0 ==> r == Err::<T, ListError>(ListError::EmptyContainer)
                && final(self).seq() == old(self).seq(),
            old(self).seq().len() > 0 ==> r == Ok::<T, ListError>(old(self).seq().last())
                && final(self).seq() == old(self).seq().drop_last(),
    ;

    /// True exactly when the list holds zero elements.
    fn is_empty(&self) -> (r: bool)
        requires
            self.wf(),
        ensures
            r <==> self.seq().len() == 0,
    ;

    /// True exactly when the contents, front to back, are free of inverted
    /// adjacent pairs; vacuously true for zero or one elements.
    fn is_sorted(&self) -> (r: bool)
        requires
            self.wf(),
        ensures
            T::obeys_partial_cmp_spec() ==> (r <==> sorted(self.seq())),
            self.seq().len() <= 1 ==> r,
    ;

    /// The value at zero-based position `index` from the front, or nothing
    /// when `index` is out of range. Leaves the list unchanged.
    fn get(&mut self, index: usize) -> (r: Option<T>)
        requires
            old(self).wf(),
        ensures
            *final(self) == *old(self),
            index < old(self).seq().len() ==> r == Some(old(self).seq()[index as int]),
            index >= old(self).seq().len() ==> r is None,
    ;

    /// The number of elements, always equal to the live element count.
    fn len(&self) -> (r: usize)
        requires
            self.wf(),
        ensures
            r == self.seq().len(),
    ;
}

} // verus!
