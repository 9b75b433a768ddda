//! The order of priorities.
//!
//! A priority is any type with a total order. The dispatcher is verified for
//! the types whose comparison follows the laws of a strict total order, which
//! `ordered` states.

use vstd::prelude::*;
use vstd::laws_cmp::obeys_cmp;
use vstd::laws_cmp::obeys_cmp_ord;
use vstd::laws_cmp::obeys_partial_cmp_spec_properties;
use vstd::std_specs::cmp::OrdSpec;
use vstd::std_specs::cmp::PartialOrdSpec;

verus! {

/// The comparison of `P` follows the laws that a sorted map relies on.
pub open spec fn ordered<P: Ord>() -> bool {
    obeys_cmp::<P>()
}

/// `earlier` comes before `later` in the order of `P`.
pub open spec fn precedes<P: Ord>(earlier: P, later: P) -> bool {
    earlier.cmp_spec(&later) is Less
}

/// Of two priorities at most one comes before the other, and none comes
/// before itself.
pub proof fn lemma_precedes_one_way<P: Ord>(first: P, second: P)
    requires
        ordered::<P>(),
    ensures
        !(precedes(first, second) && precedes(second, first)),
        !precedes(first, first),
{
    reveal(obeys_cmp_ord);
    reveal(obeys_partial_cmp_spec_properties);
    assert(first.partial_cmp_spec(&second) == Some(first.cmp_spec(&second)));
    assert(second.partial_cmp_spec(&first) == Some(second.cmp_spec(&first)));
    assert(first.partial_cmp_spec(&first) == Some(first.cmp_spec(&first)));
}

/// What comes before a priority comes before everything that the priority
/// comes before.
pub proof fn lemma_precedes_transitive<P: Ord>(first: P, second: P, third: P)
    requires
        ordered::<P>(),
        precedes(first, second),
        precedes(second, third),
    ensures
        precedes(first, third),
{
    reveal(obeys_cmp_ord);
    reveal(obeys_partial_cmp_spec_properties);
    assert(first.partial_cmp_spec(&second) == Some(first.cmp_spec(&second)));
    assert(second.partial_cmp_spec(&third) == Some(second.cmp_spec(&third)));
    assert(first.partial_cmp_spec(&third) == Some(first.cmp_spec(&third)));
}

} // verus!
