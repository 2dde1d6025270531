//! What a lawful `Ord` gives: the facts about `cmp` that the set relies on.

use std::cmp::Ordering;
use vstd::laws_cmp::obeys_cmp;
use vstd::prelude::*;
use vstd::std_specs::cmp::{OrdSpec, PartialOrdSpec};

verus! {

/// `a` comes strictly before `b` in the order of `T`.
pub open spec fn precedes<T: Ord>(a: T, b: T) -> bool {
    a.cmp_spec(&b) == Ordering::Less
}

/// `a` and `b` are the same value as far as the order of `T` can tell.
pub open spec fn equivalent<T: Ord>(a: T, b: T) -> bool {
    a.cmp_spec(&b) == Ordering::Equal
}

/// A call of `cmp` returns what `cmp_spec` says.
pub proof fn lemma_cmp_is_specified<T: Ord>()
    requires
        obeys_cmp::<T>(),
    ensures
        T::obeys_cmp_spec(),
{
    reveal(vstd::laws_cmp::obeys_cmp_ord);
}

/// `a` is before `b` exactly when `b` compares greater than `a`.
pub proof fn lemma_precedes_flips<T: Ord>(a: T, b: T)
    requires
        obeys_cmp::<T>(),
    ensures
        precedes(a, b) <==> b.cmp_spec(&a) == Ordering::Greater,
{
    reveal(vstd::laws_cmp::obeys_cmp_ord);
    reveal(vstd::laws_cmp::obeys_partial_cmp_spec_properties);
    assert(a.partial_cmp_spec(&b) == Some(a.cmp_spec(&b)));
    assert(b.partial_cmp_spec(&a) == Some(b.cmp_spec(&a)));
}

/// Every value is equivalent to itself.
pub proof fn lemma_equivalent_reflexive<T: Ord>(a: T)
    requires
        obeys_cmp::<T>(),
    ensures
        equivalent(a, a),
{
    lemma_precedes_flips(a, a);
}

/// Strict precedence is transitive.
pub proof fn lemma_precedes_transitive<T: Ord>(a: T, b: T, c: T)
    requires
        obeys_cmp::<T>(),
        precedes(a, b),
        precedes(b, c),
    ensures
        precedes(a, c),
{
    reveal(vstd::laws_cmp::obeys_cmp_ord);
    reveal(vstd::laws_cmp::obeys_partial_cmp_spec_properties);
    assert(a.partial_cmp_spec(&b) == Some(a.cmp_spec(&b)));
    assert(b.partial_cmp_spec(&c) == Some(b.cmp_spec(&c)));
    assert(a.partial_cmp_spec(&c) == Some(a.cmp_spec(&c)));
}

} // verus!
