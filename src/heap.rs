//! A min-heap kept in a vector that holds a complete binary tree.
use crate::order::{le, lemma_le_total, lemma_le_trans, lemma_lt_le_trans, lt, strict_weak_order};
use vstd::multiset::Multiset;
use vstd::prelude::*;
use vstd::seq_lib::to_multiset_update;
use vstd::std_specs::iter::IteratorSpec;
use vstd::std_specs::slice::into_iter_elts;

verus! {

/// Relies on `slice::swap`: the elements at positions `x` and `y` trade places; it panics
/// when either position is out of bounds.
pub assume_specification<U>[ <[U]>::swap ](slice: &mut [U], x: usize, y: usize)
    requires
        x < old(slice)@.len(),
        y < old(slice)@.len(),
    ensures
        final(slice)@ == old(slice)@.update(x as int, old(slice)@[y as int]).update(
            y as int,
            old(slice)@[x as int],
        ),
;

/// Position of the parent of the tree node at position `i > 0`.
pub open spec fn parent(i: int) -> int {
    (i - 1) / 2
}

/// Heap order: no element compares less than its parent.
pub open spec fn heap_ordered<T: PartialOrd>(s: Seq<T>) -> bool {
    forall|i: int| 0 < i < s.len() ==> #[trigger] le(s[parent(i)], s[i])
}

/// `x` is a least element of `m`: it is in `m` and nothing in `m` compares less.
pub open spec fn is_least<T: PartialOrd>(x: T, m: Multiset<T>) -> bool {
    &&& m.contains(x)
    &&& forall|y: T| m.contains(y) ==> #[trigger] le(x, y)
}

/// Position `j` lies in the subtree rooted at position `k`: `k` is `j` or one of its
/// ancestors.
pub open spec fn in_subtree(k: int, j: int) -> bool
    decreases j,
{
    if j <= k {
        j == k
    } else if j <= 0 {
        false
    } else {
        in_subtree(k, parent(j))
    }
}

/// Heap order holds on every edge inside the subtree of `lo`, except those leaving `k`;
/// where `k` is below `lo`, the parent of `k` is no greater than the children of `k`.
spec fn ordered_below<T: PartialOrd>(s: Seq<T>, lo: int, k: int) -> bool {
    &&& forall|i: int|
        0 < i < s.len() && in_subtree(lo, parent(i)) && parent(i) != k ==> #[trigger] le(
            s[parent(i)],
            s[i],
        )
    &&& forall|c: int|
        0 < c < s.len() && parent(c) == k && k != lo ==> #[trigger] le(s[parent(k)], s[c])
}

/// Heap order holds on every edge but the one that enters `k`; above `k`, the parent
/// of `k` is no greater than the children of `k`.
spec fn ordered_above<T: PartialOrd>(s: Seq<T>, k: int) -> bool {
    &&& forall|i: int| 0 < i < s.len() && i != k ==> #[trigger] le(s[parent(i)], s[i])
    &&& forall|c: int|
        0 < c < s.len() && parent(c) == k && k > 0 ==> #[trigger] le(s[parent(k)], s[c])
}

/// Every position lies in the subtree of the root.
proof fn lemma_in_root_subtree(j: int)
    requires
        j >= 0,
    ensures
        in_subtree(0, j),
    decreases j,
{
    if j > 0 {
        lemma_parent(j, 0);
        lemma_in_root_subtree(parent(j));
    }
}

/// The parent of an ancestor of `j` is an ancestor of `j` too.
proof fn lemma_subtree_parent(a: int, j: int)
    requires
        a > 0,
        in_subtree(a, j),
    ensures
        in_subtree(parent(a), j),
    decreases j,
{
    lemma_parent(a, 0);
    if j == a {
        assert(in_subtree(parent(a), parent(a)));
    } else {
        lemma_parent(j, 0);
        lemma_subtree_parent(a, parent(j));
    }
}

/// A child of a node in the subtree of `k` is in that subtree.
proof fn lemma_subtree_child(k: int, c: int)
    requires
        k >= 0,
        c > 0,
        in_subtree(k, parent(c)),
    ensures
        in_subtree(k, c),
{
    lemma_parent(c, 0);
}

proof fn lemma_parent(c: int, k: int)
    requires
        c > 0,
        k >= 0,
    ensures
        parent(c) == k <==> (c == 2 * k + 1 || c == 2 * k + 2),
        0 <= parent(c) < c,
{
}

proof fn lemma_swap_to_multiset<T>(s: Seq<T>, a: int, b: int)
    requires
        0 <= a < s.len(),
        0 <= b < s.len(),
    ensures
        s.update(a, s[b]).update(b, s[a]).to_multiset() == s.to_multiset(),
{
    broadcast use vstd::multiset::group_multiset_axioms;
    broadcast use vstd::seq_lib::group_to_multiset_ensures;

    let s1 = s.update(a, s[b]);
    let s2 = s1.update(b, s[a]);
    if a == b {
        assert(s2 =~= s);
    } else {
        to_multiset_update(s, a, s[b]);
        to_multiset_update(s1, b, s[a]);
        assert(s1[b] == s[b]);
        assert(s.contains(s[a]));
        assert(s.to_multiset().count(s[a]) > 0);
        assert(s2.to_multiset() =~= s.to_multiset());
    }
}

/// In a heap-ordered sequence the first element is no greater than any element.
pub proof fn lemma_root_is_least<T: PartialOrd>(s: Seq<T>)
    requires
        strict_weak_order::<T>(),
        heap_ordered(s),
        s.len() > 0,
    ensures
        is_least(s[0], s.to_multiset()),
{
    broadcast use vstd::seq_lib::group_to_multiset_ensures;

    assert forall|j: int| 0 <= j < s.len() implies le(s[0], #[trigger] s[j]) by {
        lemma_root_below(s, j);
    }
    assert forall|y: T| s.to_multiset().contains(y) implies #[trigger] le(s[0], y) by {
        assert(s.contains(y));
        let j = choose|j: int| 0 <= j < s.len() && s[j] == y;
        assert(le(s[0], s[j]));
    }
}

proof fn lemma_root_below<T: PartialOrd>(s: Seq<T>, j: int)
    requires
        strict_weak_order::<T>(),
        heap_ordered(s),
        0 <= j < s.len(),
    ensures
        le(s[0], s[j]),
    decreases j,
{
    if j == 0 {
        assert(!lt(s[0], s[0]));
    } else {
        let p = parent(j);
        lemma_parent(j, 0);
        lemma_root_below(s, p);
        assert(le(s[p], s[j]));
        lemma_le_trans(s[0], s[p], s[j]);
    }
}

/// Min heap: `pop` and `peek` give a least element. The operations that compare ask that
/// `<` on `T` be a strict weak order; elements that compare neither way may come out in
/// either order.
pub struct BinaryHeap<T: PartialOrd> {
    vec: Vec<T>,
}

impl<T: PartialOrd> View for BinaryHeap<T> {
    type V = Seq<T>;

    /// The backing array, in its internal (tree) order.
    closed spec fn view(&self) -> Seq<T> {
        self.vec@
    }
}

impl<T: PartialOrd> BinaryHeap<T> {
    /// The heap order holds on the backing array.
    pub open spec fn well_formed(&self) -> bool {
        heap_ordered(self@)
    }

    /// The elements held, with their multiplicities.
    pub open spec fn elems(&self) -> Multiset<T> {
        self@.to_multiset()
    }

    pub fn new() -> (r: Self)
        ensures
            r@ == Seq::<T>::empty(),
            r.elems() == Multiset::<T>::empty(),
            r.well_formed(),
    {
        broadcast use vstd::seq_lib::group_to_multiset_ensures;

        BinaryHeap { vec: Vec::new() }
    }

    pub fn len(&self) -> (r: usize)
        ensures
            r == self@.len(),
    {
        self.vec.len()
    }

    pub fn is_empty(&self) -> (r: bool)
        ensures
            r <==> self@.len() == 0,
    {
        self.vec.len() == 0
    }

    /// Iterates over the elements in their internal (tree) order, which is not sorted.
    pub fn iter(&self) -> (r: std::slice::Iter<'_, T>)
        ensures
            into_iter_elts(r) == self@,
    {
        broadcast use vstd::std_specs::slice::axiom_spec_slice_iter;

        let r = self.vec.as_slice().iter();
        proof {
            assert(IteratorSpec::remaining(&r).unref() =~= self@);
        }
        r
    }

    fn parent_idx(you: usize) -> (r: usize)
        requires
            you != 0,
        ensures
            r == parent(you as int),
    {
        (you - 1) / 2
    }

    fn child_idxs(you: usize) -> (r: (usize, usize))
        requires
            2 * you + 2 <= usize::MAX,
        ensures
            r.0 == 2 * you + 1,
            r.1 == 2 * you + 2,
    {
        (2 * you + 1, 2 * you + 2)
    }

    fn higher_in_tree(&self, you: usize, they: usize) -> (r: bool)
        requires
            you < self@.len(),
            they < self@.len(),
        ensures
            strict_weak_order::<T>() ==> r == lt(self@[you as int], self@[they as int]),
    {
        self.vec[you] < self.vec[they]
    }

    fn swap(&mut self, a: usize, b: usize)
        requires
            a < old(self)@.len(),
            b < old(self)@.len(),
        ensures
            final(self)@ == old(self)@.update(a as int, old(self)@[b as int]).update(
                b as int,
                old(self)@[a as int],
            ),
            final(self)@.to_multiset() == old(self)@.to_multiset(),
    {
        proof {
            lemma_swap_to_multiset(self@, a as int, b as int);
        }
        self.vec.as_mut_slice().swap(a, b);
    }

    /// Moves the element at `idx` toward the root until its parent is no greater. Only
    /// `idx` and its ancestors change.
    fn flow_up(&mut self, idx: usize)
        requires
            idx < old(self)@.len(),
        ensures
            final(self)@.len() == old(self)@.len(),
            final(self)@.to_multiset() == old(self)@.to_multiset(),
            forall|j: int|
                0 <= j < old(self)@.len() && !in_subtree(j, idx as int) ==> final(self)@[j]
                    == old(self)@[j],
            strict_weak_order::<T>() && ordered_above(old(self)@, idx as int) ==> heap_ordered(
                final(self)@,
            ),
            strict_weak_order::<T>() && (idx == 0 || le(
                old(self)@[parent(idx as int)],
                old(self)@[idx as int],
            )) ==> final(self)@ == old(self)@,
    {
        let ghost start = idx as int;
        let ghost good = strict_weak_order::<T>() && ordered_above(self@, start);
        let mut cur = idx;
        loop
            invariant
                start == idx as int,
                cur < self@.len(),
                in_subtree(cur as int, start),
                self@.len() == old(self)@.len(),
                self@.to_multiset() == old(self)@.to_multiset(),
                forall|j: int|
                    0 <= j < old(self)@.len() && !in_subtree(j, start) ==> self@[j] == old(
                        self,
                    )@[j],
                good == (strict_weak_order::<T>() && ordered_above(old(self)@, start)),
                good ==> ordered_above(self@, cur as int),
                cur == start ==> self@ == old(self)@,
                cur != start ==> !(strict_weak_order::<T>() && (start == 0 || le(
                    old(self)@[parent(start)],
                    old(self)@[start],
                ))),
            decreases cur,
        {
            if cur == 0 {
                return;
            }
            let parent_idx = Self::parent_idx(cur);
            if self.higher_in_tree(cur, parent_idx) {
                let ghost s = self@;
                let ghost k = cur as int;
                let ghost p = parent_idx as int;
                proof {
                    lemma_parent(k, 0);
                    lemma_subtree_parent(k, start);
                }
                self.swap(parent_idx, cur);
                proof {
                    let t = self@;
                    if good {
                        assert forall|i: int| 0 < i < t.len() && i != p implies #[trigger] le(
                            t[parent(i)],
                            t[i],
                        ) by {
                            lemma_parent(i, k);
                            lemma_parent(i, p);
                            if i == k {
                                assert(lt(s[k], s[p]));
                            } else if parent(i) == k {
                                assert(le(s[parent(k)], s[i]));
                            } else if parent(i) == p {
                                assert(le(s[p], s[i]));
                                lemma_lt_le_trans(s[k], s[p], s[i]);
                            } else {
                                assert(le(s[parent(i)], s[i]));
                            }
                        }
                        assert forall|c: int|
                            0 < c < t.len() && parent(c) == p && p > 0 implies #[trigger] le(
                            t[parent(p)],
                            t[c],
                        ) by {
                            lemma_parent(c, p);
                            lemma_parent(p, 0);
                            assert(le(s[parent(p)], s[p]));
                            if c != k {
                                assert(le(s[p], s[c]));
                                lemma_le_trans(s[parent(p)], s[p], s[c]);
                            }
                        }
                    }
                }
                cur = parent_idx;
            } else {
                return;
            }
        }
    }

    /// Moves the element at `idx` toward the leaves, trading places with the lesser child,
    /// until no child is less. Can be called on a node that does not exist: it has no
    /// children. Only the subtree of `idx` changes.
    fn flow_down(&mut self, idx: usize)
        ensures
            final(self)@.len() == old(self)@.len(),
            final(self)@.to_multiset() == old(self)@.to_multiset(),
            forall|j: int|
                0 <= j < old(self)@.len() && !in_subtree(idx as int, j) ==> final(self)@[j]
                    == old(self)@[j],
            strict_weak_order::<T>() && ordered_below(old(self)@, idx as int, idx as int) ==> (
            forall|i: int|
                0 < i < final(self)@.len() && in_subtree(idx as int, parent(i)) ==> #[trigger] le(
                    final(self)@[parent(i)],
                    final(self)@[i],
                )),
            2 * idx + 1 >= old(self)@.len() ==> final(self)@ == old(self)@,
            strict_weak_order::<T>() && (forall|c: int|
                0 < c < old(self)@.len() && parent(c) == idx ==> #[trigger] le(
                    old(self)@[idx as int],
                    old(self)@[c],
                )) ==> final(self)@ == old(self)@,
    {
        let ghost lo = idx as int;
        let ghost good = strict_weak_order::<T>() && ordered_below(self@, lo, lo);
        let mut cur = idx;
        loop
            invariant
                lo == idx as int,
                lo <= cur,
                in_subtree(lo, cur as int),
                self@.len() == old(self)@.len(),
                self@.to_multiset() == old(self)@.to_multiset(),
                forall|j: int|
                    0 <= j < old(self)@.len() && !in_subtree(lo, j) ==> self@[j] == old(
                        self,
                    )@[j],
                good == (strict_weak_order::<T>() && ordered_below(old(self)@, lo, lo)),
                good ==> ordered_below(self@, lo, cur as int),
                cur == lo ==> self@ == old(self)@,
                cur != lo ==> 2 * lo + 1 < old(self)@.len(),
                cur != lo ==> (strict_weak_order::<T>() ==> exists|c: int|
                    0 < c < old(self)@.len() && parent(c) == lo && #[trigger] lt(
                        old(self)@[c],
                        old(self)@[lo],
                    )),
            decreases self@.len() - cur,
        {
            let len = self.vec.len();
            if cur >= len / 2 {
                proof {
                    let s = self@;
                    if good {
                        assert forall|i: int|
                            0 < i < s.len() && in_subtree(lo, parent(i)) implies #[trigger] le(
                            s[parent(i)],
                            s[i],
                        ) by {
                            lemma_parent(i, cur as int);
                        }
                    }
                    if cur != lo && strict_weak_order::<T>() {
                        let c = choose|c: int|
                            0 < c < old(self)@.len() && parent(c) == lo && #[trigger] lt(
                                old(self)@[c],
                                old(self)@[lo],
                            );
                        assert(!le(old(self)@[lo], old(self)@[c]));
                    }
                }
                return;
            }
            let (child1_idx, child2_idx) = Self::child_idxs(cur);
            let highest_child_idx = if child2_idx >= len || self.higher_in_tree(
                child1_idx,
                child2_idx,
            ) {
                child1_idx
            } else {
                child2_idx
            };
            let ghost s = self@;
            let ghost k = cur as int;
            let ghost m = highest_child_idx as int;
            proof {
                lemma_parent(m, k);
                if strict_weak_order::<T>() {
                    if child2_idx < len {
                        lemma_le_total(s[child1_idx as int], s[child2_idx as int]);
                    }
                    assert(child2_idx < len ==> le(s[m], s[child1_idx as int]) && le(
                        s[m],
                        s[child2_idx as int],
                    ));
                }
            }
            if !self.higher_in_tree(highest_child_idx, cur) {
                proof {
                    if good {
                        assert forall|i: int|
                            0 < i < s.len() && in_subtree(lo, parent(i)) implies #[trigger] le(
                            s[parent(i)],
                            s[i],
                        ) by {
                            lemma_parent(i, k);
                            if parent(i) == k {
                                assert(le(s[m], s[i]));
                                lemma_le_trans(s[k], s[m], s[i]);
                            }
                        }
                    }
                    if cur != lo && strict_weak_order::<T>() {
                        let c = choose|c: int|
                            0 < c < old(self)@.len() && parent(c) == lo && #[trigger] lt(
                                old(self)@[c],
                                old(self)@[lo],
                            );
                        assert(!le(old(self)@[lo], old(self)@[c]));
                    }
                }
                return;
            }
            proof {
                lemma_subtree_child(lo, m);
                if strict_weak_order::<T>() && k == lo {
                    assert(lt(old(self)@[m], old(self)@[lo]));
                }
            }
            self.swap(cur, highest_child_idx);
            proof {
                let t = self@;
                if good {
                    assert forall|i: int|
                        0 < i < t.len() && in_subtree(lo, parent(i)) && parent(i) != m implies #[trigger] le(
                        t[parent(i)],
                        t[i],
                    ) by {
                        lemma_parent(i, k);
                        lemma_parent(i, m);
                        if k > 0 {
                            lemma_parent(k, 0);
                        }
                        if i == k {
                            assert(k != lo);
                            assert(le(s[parent(k)], s[m]));
                        } else if i == m {
                            assert(lt(s[m], s[k]));
                        } else if parent(i) == k {
                            assert(le(s[m], s[i]));
                        } else {
                            assert(le(s[parent(i)], s[i]));
                        }
                    }
                    assert forall|c: int|
                        0 < c < t.len() && parent(c) == m && m != lo implies #[trigger] le(
                        t[parent(m)],
                        t[c],
                    ) by {
                        lemma_parent(c, m);
                        assert(le(s[m], s[c]));
                    }
                }
            }
            cur = highest_child_idx;
        }
    }

    pub fn push(&mut self, val: T)
        ensures
            final(self)@.len() == old(self)@.len() + 1,
            final(self).elems() == old(self).elems().insert(val),
            strict_weak_order::<T>() && old(self).well_formed() ==> final(self).well_formed(),
    {
        broadcast use vstd::seq_lib::group_to_multiset_ensures;

        let idx = self.vec.len();
        self.vec.push(val);
        proof {
            if strict_weak_order::<T>() && heap_ordered(old(self)@) {
                let s = self@;
                assert forall|c: int|
                    0 < c < s.len() && parent(c) == idx && idx > 0 implies #[trigger] le(
                    s[parent(idx as int)],
                    s[c],
                ) by {
                    lemma_parent(c, idx as int);
                }
                assert forall|i: int| 0 < i < s.len() && i != idx implies #[trigger] le(
                    s[parent(i)],
                    s[i],
                ) by {
                    lemma_parent(i, 0);
                    assert(le(old(self)@[parent(i)], old(self)@[i]));
                }
            }
        }
        self.flow_up(idx);
    }

    /// Removes and returns the element at the root, a least element.
    pub fn pop(&mut self) -> (r: T)
        requires
            old(self)@.len() > 0,
        ensures
            r == old(self)@[0],
            final(self)@.len() == old(self)@.len() - 1,
            final(self).elems() == old(self).elems().remove(r),
            strict_weak_order::<T>() && old(self).well_formed() ==> final(self).well_formed()
                && is_least(r, old(self).elems()),
    {
        broadcast use vstd::seq_lib::group_to_multiset_ensures;

        proof {
            if strict_weak_order::<T>() && heap_ordered(self@) {
                lemma_root_is_least(self@);
            }
        }
        let end = self.vec.len() - 1;
        self.swap(0, end);
        let ghost swapped = self@;
        let return_val = self.vec.pop().unwrap();
        proof {
            assert(swapped =~= self@.push(return_val));
            let s = self@;
            if strict_weak_order::<T>() && heap_ordered(old(self)@) {
                assert forall|i: int|
                    0 < i < s.len() && in_subtree(0, parent(i)) && parent(i) != 0 implies #[trigger] le(
                    s[parent(i)],
                    s[i],
                ) by {
                    lemma_parent(i, 0);
                    assert(le(old(self)@[parent(i)], old(self)@[i]));
                }
            }
        }
        self.flow_down(0);
        proof {
            if strict_weak_order::<T>() && heap_ordered(old(self)@) {
                assert forall|i: int| 0 < i < self@.len() implies #[trigger] le(
                    self@[parent(i)],
                    self@[i],
                ) by {
                    lemma_parent(i, 0);
                    lemma_in_root_subtree(parent(i));
                }
            }
        }
        return_val
    }

    /// The element at the root, a least element, left in place.
    pub fn peek(&mut self) -> (r: &T)
        requires
            old(self)@.len() > 0,
        ensures
            final(self)@ == old(self)@,
            *r == old(self)@[0],
            strict_weak_order::<T>() && old(self).well_formed() ==> is_least(
                *r,
                old(self).elems(),
            ),
    {
        proof {
            if strict_weak_order::<T>() && heap_ordered(self@) {
                lemma_root_is_least(self@);
            }
        }
        &self.vec[0]
    }

    /// Builds a heap of exactly the elements of `vec`, by sifting down each node that has
    /// a child, from the last such node back to the root.
    pub fn from_unsorted_vec(vec: Vec<T>) -> (r: Self)
        ensures
            r@.len() == vec@.len(),
            r.elems() == vec@.to_multiset(),
            strict_weak_order::<T>() ==> r.well_formed(),
    {
        let mut this = Self { vec };
        let len = this.len();
        if len < 2 {
            return this;
        }
        let last_node_with_child = (len - 2) / 2;
        let mut idx: usize = last_node_with_child + 1;
        while idx > 0
            invariant
                idx <= last_node_with_child + 1,
                last_node_with_child == (len - 2) / 2,
                this@.len() == len,
                this@.to_multiset() == vec@.to_multiset(),
                strict_weak_order::<T>() ==> forall|i: int|
                    0 < i < this@.len() && parent(i) >= idx ==> #[trigger] le(
                        this@[parent(i)],
                        this@[i],
                    ),
            decreases idx,
        {
            idx = idx - 1;
            let ghost s = this@;
            this.flow_down(idx);
            proof {
                if strict_weak_order::<T>() {
                    let t = this@;
                    assert forall|i: int|
                        0 < i < t.len() && parent(i) >= idx implies #[trigger] le(
                        t[parent(i)],
                        t[i],
                    ) by {
                        lemma_parent(i, 0);
                        if !in_subtree(idx as int, parent(i)) {
                            if in_subtree(idx as int, i) {
                                assert(in_subtree(idx as int, parent(i)));
                            }
                            assert(le(s[parent(i)], s[i]));
                        }
                    }
                }
            }
        }
        proof {
            if strict_weak_order::<T>() {
                assert forall|i: int| 0 < i < this@.len() implies #[trigger] le(
                    this@[parent(i)],
                    this@[i],
                ) by {
                    lemma_parent(i, 0);
                }
            }
        }
        this
    }

    /// Drops all values in the heap.
    pub fn clear(&mut self)
        ensures
            final(self)@ == Seq::<T>::empty(),
            final(self).elems() == Multiset::<T>::empty(),
            final(self).well_formed(),
    {
        broadcast use vstd::seq_lib::group_to_multiset_ensures;

        self.vec.clear();
    }
}

impl<T: PartialOrd> Default for BinaryHeap<T> {
    fn default() -> (r: Self)
        ensures
            r@ == Seq::<T>::empty(),
    {
        Self::new()
    }
}

} // verus!
