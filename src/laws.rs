//! What holds of a sequence of removals from the heap, stated over the contracts of
//! `BinaryHeap::pop` and `BinaryHeap::from_unsorted_vec`.
use crate::heap::is_least;
use crate::order::{le, lemma_le_total, strict_weak_order};
use vstd::multiset::Multiset;
use vstd::prelude::*;
use vstd::seq_lib::{to_multiset_contains, to_multiset_insert, to_multiset_len};

verus! {

/// `s` lists, in order, what repeated removal of a least element takes out of `m` until
/// nothing is left: exactly what `pop` returns, call after call, until the heap is empty.
pub open spec fn is_drain<T: PartialOrd>(m: Multiset<T>, s: Seq<T>) -> bool
    decreases s.len(),
{
    if s.len() == 0 {
        m.len() == 0
    } else {
        is_least(s[0], m) && is_drain(m.remove(s[0]), s.drop_first())
    }
}

/// No element of `s` compares less than one before it.
pub open spec fn sorted<T: PartialOrd>(s: Seq<T>) -> bool {
    forall|i: int, j: int| 0 <= i < j < s.len() ==> #[trigger] le(s[i], s[j])
}

/// `<` is a total order: a strict weak order in which elements that compare neither way
/// are equal.
pub open spec fn total_order<T: PartialOrd>() -> bool {
    &&& strict_weak_order::<T>()
    &&& forall|a: T, b: T| le(a, b) && le(b, a) ==> a == b
}

/// Popping until empty yields the values in non-decreasing order, and each value as
/// many times as the heap held it.
pub proof fn lemma_drain_sorted<T: PartialOrd>(m: Multiset<T>, s: Seq<T>)
    requires
        strict_weak_order::<T>(),
        is_drain(m, s),
    ensures
        sorted(s),
        s.to_multiset() == m,
    decreases s.len(),
{
    broadcast use vstd::multiset::group_multiset_axioms;
    broadcast use vstd::seq_lib::group_to_multiset_ensures;

    if s.len() == 0 {
        assert(s.to_multiset() =~= m);
    } else {
        let rest = s.drop_first();
        lemma_drain_sorted(m.remove(s[0]), rest);
        assert(rest.insert(0, s[0]) =~= s);
        to_multiset_insert(rest, 0, s[0]);
        assert(s.to_multiset() =~= m);
        assert forall|i: int, j: int| 0 <= i < j < s.len() implies #[trigger] le(s[i], s[j]) by {
            if i == 0 {
                assert(rest[j - 1] == s[j]);
                assert(rest.contains(s[j]));
                assert(m.contains(s[j]));
            } else {
                assert(le(rest[i - 1], rest[j - 1]));
            }
        }
    }
}

/// A heap built from `v` and then popped until empty yields `v` sorted: a permutation of
/// `v` in non-decreasing order.
pub proof fn lemma_heapify_sorts<T: PartialOrd>(v: Seq<T>, s: Seq<T>)
    requires
        strict_weak_order::<T>(),
        is_drain(v.to_multiset(), s),
    ensures
        sorted(s),
        s.to_multiset() == v.to_multiset(),
        s.len() == v.len(),
{
    broadcast use vstd::seq_lib::group_to_multiset_ensures;

    lemma_drain_sorted(v.to_multiset(), s);
    to_multiset_len(s);
    to_multiset_len(v);
}

/// Equal values pushed and popped all come back: as many as were held, each equal to
/// the repeated value.
pub proof fn lemma_drain_of_copies<T: PartialOrd>(m: Multiset<T>, s: Seq<T>, x: T)
    requires
        strict_weak_order::<T>(),
        is_drain(m, s),
        forall|y: T| m.contains(y) ==> y == x,
    ensures
        s.len() == m.len(),
        forall|i: int| 0 <= i < s.len() ==> s[i] == x,
{
    broadcast use vstd::seq_lib::group_to_multiset_ensures;

    lemma_drain_sorted(m, s);
    assert forall|i: int| 0 <= i < s.len() implies s[i] == x by {
        assert(s.contains(s[i]));
        to_multiset_contains(s, s[i]);
        assert(m.count(s[i]) > 0);
        assert(m.contains(s[i]));
    }
}

/// Under a total order a multiset has one least element: any min-priority queue holding
/// the same values returns the same value from its next pop or peek.
pub proof fn lemma_least_unique<T: PartialOrd>(m: Multiset<T>, a: T, b: T)
    requires
        total_order::<T>(),
        is_least(a, m),
        is_least(b, m),
    ensures
        a == b,
{
    assert(le(a, b));
    assert(le(b, a));
}

/// Under a total order what is popped from a heap, until it is empty, depends only on
/// the values it held.
pub proof fn lemma_drain_unique<T: PartialOrd>(m: Multiset<T>, s: Seq<T>, t: Seq<T>)
    requires
        total_order::<T>(),
        is_drain(m, s),
        is_drain(m, t),
    ensures
        s == t,
    decreases s.len(),
{
    if s.len() == 0 {
        if t.len() > 0 {
            assert(m.contains(t[0]));
        }
        assert(s =~= t);
    } else {
        if t.len() == 0 {
            assert(m.contains(s[0]));
        }
        lemma_least_unique(m, s[0], t[0]);
        lemma_drain_unique(m.remove(s[0]), s.drop_first(), t.drop_first());
        assert(s.len() == t.len());
        assert forall|i: int| 0 <= i < s.len() implies s[i] == t[i] by {
            if i > 0 {
                assert(s.drop_first()[i - 1] == t.drop_first()[i - 1]);
            }
        }
        assert(s =~= t);
    }
}

/// One call on the heap as its contents see it: a push of a value, or a pop that
/// returned a value.
pub enum Step<T> {
    Push(T),
    Pop(T),
}

/// The contents after `steps`, starting from `m`: what the ensures of `push` and `pop`
/// make of them, call after call.
pub open spec fn apply<T>(m: Multiset<T>, steps: Seq<Step<T>>) -> Multiset<T>
    decreases steps.len(),
{
    if steps.len() == 0 {
        m
    } else {
        let before = apply(m, steps.drop_last());
        match steps.last() {
            Step::Push(v) => before.insert(v),
            Step::Pop(v) => before.remove(v),
        }
    }
}

/// Each pop in `steps` returned a value that was held at that moment, as `pop` ensures.
pub open spec fn pops_held<T>(m: Multiset<T>, steps: Seq<Step<T>>) -> bool
    decreases steps.len(),
{
    if steps.len() == 0 {
        true
    } else {
        &&& pops_held(m, steps.drop_last())
        &&& match steps.last() {
            Step::Push(_) => true,
            Step::Pop(v) => apply(m, steps.drop_last()).contains(v),
        }
    }
}

/// How many of `steps` are pushes.
pub open spec fn pushes<T>(steps: Seq<Step<T>>) -> nat
    decreases steps.len(),
{
    if steps.len() == 0 {
        0
    } else {
        pushes(steps.drop_last()) + if steps.last() is Push {
            1nat
        } else {
            0nat
        }
    }
}

/// How many of `steps` are pops.
pub open spec fn pops<T>(steps: Seq<Step<T>>) -> nat
    decreases steps.len(),
{
    if steps.len() == 0 {
        0
    } else {
        pops(steps.drop_last()) + if steps.last() is Pop {
            1nat
        } else {
            0nat
        }
    }
}

/// After `k` pushes and `j` pops the heap holds `k - j` more elements than it started
/// with; from an empty heap, exactly `k - j`.
pub proof fn lemma_size_accounting<T>(m: Multiset<T>, steps: Seq<Step<T>>)
    requires
        pops_held(m, steps),
    ensures
        apply(m, steps).len() == m.len() + pushes(steps) - pops(steps),
    decreases steps.len(),
{
    broadcast use vstd::multiset::group_multiset_axioms;

    if steps.len() > 0 {
        lemma_size_accounting(m, steps.drop_last());
    }
}

} // verus!
