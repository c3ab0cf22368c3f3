use vstd::prelude::*;
use crate::list::sorted;

verus! {

/// The model of a run of push-back calls: each call appends one value at the
/// back, as `push_back` ensures.
pub open spec fn pushed_back<T>(s: Seq<T>, vs: Seq<T>) -> Seq<T>
    decreases vs.len(),
{
    if vs.len() == 0 {
        s
    } else {
        pushed_back(s.push(vs[0]), vs.drop_first())
    }
}

/// The model of a run of push-front calls: each call prepends one value at
/// the front, as `push_front` ensures.
pub open spec fn pushed_front<T>(s: Seq<T>, vs: Seq<T>) -> Seq<T>
    decreases vs.len(),
{
    if vs.len() == 0 {
        s
    } else {
        pushed_front(seq![vs[0]] + s, vs.drop_first())
    }
}

/// The values returned by popping at the front until the list is empty: each
/// pop yields the front element and leaves the rest, as `pop_front` ensures.
pub open spec fn drained_front<T>(s: Seq<T>) -> Seq<T>
    decreases s.len(),
{
    if s.len() == 0 {
        Seq::empty()
    } else {
        seq![s[0]] + drained_front(s.drop_first())
    }
}

/// The values returned by popping at the back until the list is empty: each
/// pop yields the back element and leaves the rest, as `pop_back` ensures.
pub open spec fn drained_back<T>(s: Seq<T>) -> Seq<T>
    decreases s.len(),
{
    if s.len() == 0 {
        Seq::empty()
    } else {
        seq![s.last()] + drained_back(s.drop_last())
    }
}

/// A run of push-back calls appends exactly the pushed values, in order.
pub proof fn lemma_pushed_back_appends<T>(s: Seq<T>, vs: Seq<T>)
    ensures
        pushed_back(s, vs) == s + vs,
    decreases vs.len(),
{
    if vs.len() == 0 {
        assert(s + vs =~= s);
    } else {
        lemma_pushed_back_appends(s.push(vs[0]), vs.drop_first());
        assert(s.push(vs[0]) + vs.drop_first() =~= s + vs);
    }
}

/// Law: after any run of push-back calls on an empty list, the length equals
/// the number of pushes and the element at each in-range position is the
/// value pushed at that position, in push order.
pub proof fn lemma_push_back_run<T>(vs: Seq<T>)
    ensures
        pushed_back(Seq::<T>::empty(), vs).len() == vs.len(),
        forall|i: int| 0 <= i < vs.len() ==> pushed_back(Seq::<T>::empty(), vs)[i] == vs[i],
{
    lemma_pushed_back_appends(Seq::<T>::empty(), vs);
    assert(Seq::<T>::empty() + vs =~= vs);
}

/// Law: after any run of push-front calls with at least one push, the front
/// element is the most recently pushed value.
pub proof fn lemma_push_front_run<T>(s: Seq<T>, vs: Seq<T>)
    requires
        vs.len() > 0,
    ensures
        pushed_front(s, vs).len() == s.len() + vs.len(),
        pushed_front(s, vs)[0] == vs.last(),
    decreases vs.len(),
{
    if vs.len() == 1 {
        assert(pushed_front(seq![vs[0]] + s, vs.drop_first()) == seq![vs[0]] + s);
        assert((seq![vs[0]] + s)[0] == vs[0]);
    } else {
        lemma_push_front_run(seq![vs[0]] + s, vs.drop_first());
        assert(vs.drop_first().last() == vs.last());
    }
}

/// Law: popping at the front until empty returns exactly the contents, front
/// to back, and leaves the empty list behind.
pub proof fn lemma_pop_front_drains<T>(s: Seq<T>)
    ensures
        drained_front(s) == s,
    decreases s.len(),
{
    if s.len() > 0 {
        lemma_pop_front_drains(s.drop_first());
        assert(seq![s[0]] + s.drop_first() =~= s);
    } else {
        assert(drained_front(s) =~= s);
    }
}

/// Law: popping at the back until empty returns exactly the contents, back
/// to front, and leaves the empty list behind.
pub proof fn lemma_pop_back_drains<T>(s: Seq<T>)
    ensures
        drained_back(s).len() == s.len(),
        forall|i: int| 0 <= i < s.len() ==> drained_back(s)[i] == s[s.len() - 1 - i],
    decreases s.len(),
{
    if s.len() > 0 {
        lemma_pop_back_drains(s.drop_last());
        assert forall|i: int| 0 <= i < s.len() implies drained_back(s)[i] == s[s.len() - 1
            - i] by {
            if i > 0 {
                assert(drained_back(s)[i] == drained_back(s.drop_last())[i - 1]);
                assert(drained_back(s.drop_last())[i - 1] == s.drop_last()[s.len() - 1 - i]);
                assert(s.drop_last()[s.len() - 1 - i] == s[s.len() - 1 - i]);
            }
        }
    }
}

/// Law: a list of zero or one elements is always sorted.
pub proof fn lemma_sorted_trivial<T: PartialOrd>(s: Seq<T>)
    requires
        s.len() <= 1,
    ensures
        sorted(s),
{
}

} // verus!
