//! The order on keys that the map relies on.

use std::cmp::Ordering;
use vstd::prelude::*;
use vstd::std_specs::cmp::OrdSpec;

verus! {

/// Where one key stands relative to another.
#[derive(Clone, Copy, Debug, PartialEq, Eq)]
pub enum Side {
    Before,
    Same,
    After,
}

/// `K`'s comparison is a total order in which two keys compare equal exactly
/// when they are the same value.
///
/// vstd's broadcast groups `group_laws_cmp` and `group_laws_eq` show this of
/// the integer types.
pub open spec fn total_order<K: Ord>() -> bool {
    &&& vstd::laws_cmp::obeys_cmp::<K>()
    &&& vstd::laws_eq::obeys_concrete_eq::<K>()
}

/// `a` sorts strictly before `b`.
pub open spec fn key_lt<K: Ord>(a: K, b: K) -> bool {
    a.cmp_spec(&b) == Ordering::Less
}

/// What the three outcomes of a comparison mean.
proof fn lemma_outcomes<K: Ord>(a: K, b: K)
    requires
        total_order::<K>(),
    ensures
        K::obeys_cmp_spec(),
        a.cmp_spec(&b) == Ordering::Equal <==> a == b,
        a.cmp_spec(&b) == Ordering::Greater <==> key_lt(b, a),
{
    reveal(vstd::laws_cmp::obeys_cmp_partial_ord);
    reveal(vstd::laws_cmp::obeys_cmp_ord);
    reveal(vstd::laws_cmp::obeys_partial_cmp_spec_properties);
    reveal(vstd::laws_eq::obeys_concrete_eq);
}

/// Any two keys are related in exactly one of three ways.
pub proof fn lemma_trichotomy<K: Ord>(a: K, b: K)
    requires
        total_order::<K>(),
    ensures
        key_lt(a, b) || a == b || key_lt(b, a),
        !(key_lt(a, b) && a == b),
        !(key_lt(b, a) && a == b),
        !(key_lt(a, b) && key_lt(b, a)),
{
    lemma_outcomes(b, a);
}

/// Strictly-before is transitive.
pub proof fn lemma_lt_transitive<K: Ord>(a: K, b: K, c: K)
    requires
        total_order::<K>(),
        key_lt(a, b),
        key_lt(b, c),
    ensures
        key_lt(a, c),
{
    reveal(vstd::laws_cmp::obeys_cmp_partial_ord);
    reveal(vstd::laws_cmp::obeys_cmp_ord);
    reveal(vstd::laws_cmp::obeys_partial_cmp_spec_properties);
}

/// Compares two keys.
pub fn compare<K: Ord>(a: &K, b: &K) -> (side: Side)
    requires
        total_order::<K>(),
    ensures
        match side {
            Side::Before => key_lt(*a, *b),
            Side::Same => *a == *b,
            Side::After => key_lt(*b, *a),
        },
{
    proof {
        lemma_outcomes(*a, *b);
    }
    match a.cmp(b) {
        Ordering::Less => Side::Before,
        Ordering::Equal => Side::Same,
        Ordering::Greater => Side::After,
    }
}

} // verus!
