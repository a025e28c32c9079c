//! The order of the elements of an ordered set, as contracts see it.

use core::cmp::Ordering;
use vstd::laws_cmp::{
    obeys_cmp,
    obeys_cmp_ord,
    obeys_cmp_partial_ord,
    obeys_partial_cmp_spec_properties,
};
use vstd::laws_eq::obeys_concrete_eq;
use vstd::prelude::*;
use vstd::std_specs::cmp::{OrdSpec, PartialEqSpec, PartialOrdSpec};

verus! {

/// The comparisons of `T` follow their specification, that specification
/// is a total order, and two values compare as equal only if they are the
/// same value.
pub open spec fn total_order<T: Ord>() -> bool {
    obeys_cmp::<T>() && obeys_concrete_eq::<T>()
}

/// `a` comes before `b`.
pub open spec fn less<T: Ord>(a: T, b: T) -> bool {
    a.partial_cmp_spec(&b) == Some(Ordering::Less)
}

/// In a total order nothing comes before itself, of two values at most
/// one comes before the other, "before" is transitive, and of two
/// different values one comes before the other.
pub proof fn lemma_less_laws<T: Ord>()
    requires
        total_order::<T>(),
    ensures
        forall|a: T| !#[trigger] less(a, a),
        forall|a: T, b: T| #[trigger] less(a, b) ==> !less(b, a),
        forall|a: T, b: T, c: T| #[trigger] less(a, b) && #[trigger] less(b, c) ==> less(a, c),
        forall|a: T, b: T| #[trigger] less(a, b) || a == b || less(b, a),
{
    reveal(obeys_cmp_ord);
    reveal(obeys_cmp_partial_ord);
    reveal(obeys_partial_cmp_spec_properties);
    reveal(obeys_concrete_eq);
    assert forall|a: T, b: T| #[trigger] less(a, b) || a == b || less(b, a) by {
        assert(a.partial_cmp_spec(&b) == Some(a.cmp_spec(&b)));
        match a.cmp_spec(&b) {
            Ordering::Less => {},
            Ordering::Equal => {
                assert(a.eq_spec(&b));
            },
            Ordering::Greater => {
                assert(b.partial_cmp_spec(&a) == Some(Ordering::Less));
            },
        }
    }
    assert forall|a: T| !#[trigger] less(a, a) by {
        assert(a.eq_spec(&a));
        assert(a.partial_cmp_spec(&a) == Some(Ordering::Equal));
    }
    assert forall|a: T, b: T| #[trigger] less(a, b) implies !less(b, a) by {
        assert(b.partial_cmp_spec(&a) == Some(Ordering::Greater));
    }
}

/// Whether `a` comes before `b`.
pub fn is_less<T: Ord>(a: &T, b: &T) -> (before: bool)
    requires
        total_order::<T>(),
    ensures
        before == less(*a, *b),
{
    proof {
        reveal(obeys_cmp_partial_ord);
    }
    *a < *b
}

} // verus!
