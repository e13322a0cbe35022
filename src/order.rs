//! The ordering that the heap relies on, stated over `PartialOrd`'s spec.
use core::cmp::Ordering;
use vstd::prelude::*;
use vstd::std_specs::cmp::PartialOrdSpec;

verus! {

/// `a` compares strictly less than `b`: what the operator `<` reports.
pub open spec fn lt<T: PartialOrd>(a: T, b: T) -> bool {
    a.partial_cmp_spec(&b) == Some(Ordering::Less)
}

/// `a` is not greater than `b`: `b` does not compare strictly less than `a`.
pub open spec fn le<T: PartialOrd>(a: T, b: T) -> bool {
    !lt(b, a)
}

/// `<` on `T` is what its spec says and is a strict weak order: irreflexive,
/// transitive, and transitive in its complement. These are the laws a min-heap needs;
/// elements that compare neither way are treated as equivalent.
pub open spec fn strict_weak_order<T: PartialOrd>() -> bool {
    &&& T::obeys_partial_cmp_spec()
    &&& forall|a: T| !#[trigger] lt(a, a)
    &&& forall|a: T, b: T, c: T| #[trigger] lt(a, b) && #[trigger] lt(b, c) ==> lt(a, c)
    &&& forall|a: T, b: T, c: T|
        #![trigger lt(a, c), lt(a, b)]
        #![trigger lt(a, c), lt(b, c)]
        lt(a, c) ==> lt(a, b) || lt(b, c)
}

/// `le` is transitive.
pub proof fn lemma_le_trans<T: PartialOrd>(a: T, b: T, c: T)
    requires
        strict_weak_order::<T>(),
        le(a, b),
        le(b, c),
    ensures
        le(a, c),
{
    if lt(c, a) {
        assert(lt(c, b) || lt(b, a));
    }
}

/// A strict step followed by a weak one is strict.
pub proof fn lemma_lt_le_trans<T: PartialOrd>(a: T, b: T, c: T)
    requires
        strict_weak_order::<T>(),
        lt(a, b),
        le(b, c),
    ensures
        lt(a, c),
{
    assert(lt(a, c) || lt(c, b));
}

/// Any two elements are related by `le` one way or the other.
pub proof fn lemma_le_total<T: PartialOrd>(a: T, b: T)
    requires
        strict_weak_order::<T>(),
    ensures
        le(a, b) || le(b, a),
{
    if lt(a, b) && lt(b, a) {
        assert(lt(a, a));
    }
}

} // verus!
