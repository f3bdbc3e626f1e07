//! The order of the payload type, as the contracts of this crate see it.
//!
//! The tree places and finds values with `<=` alone. Two values are
//! order-equivalent when each is `<=` the other; they need not be equal.

use vstd::prelude::*;
use std::cmp::Ordering;
use vstd::std_specs::cmp::{OrdSpec, PartialOrdSpec};

verus! {

/// `a <= b` in the order of `T`.
pub open spec fn le<T: Ord>(a: T, b: T) -> bool {
    a.partial_cmp_spec(&b) == Some(Ordering::Less) || a.partial_cmp_spec(&b) == Some(
        Ordering::Equal,
    )
}

/// Neither value is less than the other.
pub open spec fn equiv<T: Ord>(a: T, b: T) -> bool {
    le(a, b) && le(b, a)
}

/// Any two values are comparable, and `<=` is transitive.
#[verifier::opaque]
pub open spec fn le_laws<T: Ord>() -> bool {
    &&& forall|a: T, b: T| #[trigger] le(a, b) || le(b, a)
    &&& forall|a: T, b: T, c: T| #[trigger] le(a, b) && #[trigger] le(b, c) ==> le(a, c)
}

/// What the tree asks of its payload type: the operator `<=` computes [`le`],
/// and [`le`] is a total preorder.
pub open spec fn total_preorder<T: Ord>() -> bool {
    &&& T::obeys_partial_cmp_spec()
    &&& le_laws::<T>()
}

/// Any two values are comparable.
pub proof fn lemma_le_total<T: Ord>(a: T, b: T)
    requires
        le_laws::<T>(),
    ensures
        le(a, b) || le(b, a),
{
    reveal(le_laws);
}

/// Every value is `<=` itself.
pub proof fn lemma_le_refl<T: Ord>(a: T)
    requires
        le_laws::<T>(),
    ensures
        le(a, a),
{
    lemma_le_total(a, a);
}

/// `<=` is transitive.
pub proof fn lemma_le_trans<T: Ord>(a: T, b: T, c: T)
    requires
        le_laws::<T>(),
        le(a, b),
        le(b, c),
    ensures
        le(a, c),
{
    reveal(le_laws);
}

/// A payload type that keeps the laws of `vstd::laws_cmp` is a total preorder.
pub proof fn lemma_total_preorder_from_laws<T: Ord>()
    requires
        vstd::laws_cmp::obeys_cmp::<T>(),
    ensures
        total_preorder::<T>(),
{
    reveal(le_laws);
    reveal(vstd::laws_cmp::obeys_cmp_partial_ord);
    reveal(vstd::laws_cmp::obeys_cmp_ord);
    reveal(vstd::laws_cmp::obeys_partial_cmp_spec_properties);
    reveal(vstd::laws_eq::obeys_eq_spec_properties);
    assert forall|a: T, b: T| #[trigger] le(a, b) || le(b, a) by {
        assert(a.partial_cmp_spec(&b) == Some(a.cmp_spec(&b)));
        assert(b.partial_cmp_spec(&a) == Some(b.cmp_spec(&a)));
    }
    assert forall|a: T, b: T, c: T| #[trigger] le(a, b) && #[trigger] le(b, c) implies le(
        a,
        c,
    ) by {
        assert(a.partial_cmp_spec(&c) == Some(a.cmp_spec(&c)));
        assert(c.partial_cmp_spec(&a) == Some(c.cmp_spec(&a)));
        assert(b.partial_cmp_spec(&a) == Some(b.cmp_spec(&a)));
        assert(c.partial_cmp_spec(&b) == Some(c.cmp_spec(&b)));
    }
}

/// Whether two values are order-equivalent.
pub fn order_equivalent<T: Ord>(a: &T, b: &T) -> (r: bool)
    requires
        total_preorder::<T>(),
    ensures
        r == equiv(*a, *b),
{
    *a <= *b && *b <= *a
}

} // verus!
