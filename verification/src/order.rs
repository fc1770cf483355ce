//! What the map asks of its key type: `Ord::cmp` has to be a strict total
//! order whose `Equal` is equality of values.

use std::cmp::Ordering;
use vstd::laws_cmp::obeys_cmp;
use vstd::laws_eq::obeys_concrete_eq;
use vstd::prelude::*;
use vstd::std_specs::cmp::OrdSpec;

verus! {

/// `K::cmp` is total, transitive and antisymmetric, it agrees with
/// `partial_cmp` and `==`, and two keys compare `Equal` exactly when they
/// are the same value.
pub open spec fn key_order_is_total<K: Ord>() -> bool {
    obeys_cmp::<K>() && obeys_concrete_eq::<K>()
}

/// `a` sorts strictly before `b`.
pub open spec fn lt<K: Ord>(a: K, b: K) -> bool {
    a.cmp_spec(&b) == Ordering::Less
}

/// What each outcome of `a.cmp(&b)` means in terms of [`lt`] and equality.
pub proof fn lemma_cmp_meaning<K: Ord>(a: K, b: K)
    requires
        key_order_is_total::<K>(),
    ensures
        K::obeys_cmp_spec(),
        a.cmp_spec(&b) == Ordering::Equal <==> a == b,
        a.cmp_spec(&b) == Ordering::Greater <==> lt(b, a),
{
    reveal(vstd::laws_cmp::obeys_cmp_ord);
    reveal(vstd::laws_cmp::obeys_cmp_partial_ord);
    reveal(vstd::laws_cmp::obeys_partial_cmp_spec_properties);
    reveal(vstd::laws_eq::obeys_concrete_eq);
}

/// [`lt`] is transitive.
pub proof fn lemma_lt_transitive<K: Ord>(a: K, b: K, c: K)
    requires
        key_order_is_total::<K>(),
        lt(a, b),
        lt(b, c),
    ensures
        lt(a, c),
{
    reveal(vstd::laws_cmp::obeys_cmp_ord);
    reveal(vstd::laws_cmp::obeys_cmp_partial_ord);
    reveal(vstd::laws_cmp::obeys_partial_cmp_spec_properties);
    reveal(vstd::laws_eq::obeys_concrete_eq);
}

/// Of two keys exactly one holds: they are equal, the first sorts before the
/// second, or the second before the first.
pub proof fn lemma_lt_trichotomy<K: Ord>(a: K, b: K)
    requires
        key_order_is_total::<K>(),
    ensures
        a == b || lt(a, b) || lt(b, a),
        !(a == b && lt(a, b)),
        !(a == b && lt(b, a)),
        !(lt(a, b) && lt(b, a)),
{
    reveal(vstd::laws_cmp::obeys_cmp_ord);
    reveal(vstd::laws_cmp::obeys_cmp_partial_ord);
    reveal(vstd::laws_cmp::obeys_partial_cmp_spec_properties);
    reveal(vstd::laws_eq::obeys_concrete_eq);
}

/// The order of each integer type is total in the sense of
/// [`key_order_is_total`], so each of them can serve as the key type.
pub proof fn law_integer_keys_are_totally_ordered()
    ensures
        key_order_is_total::<u8>(),
        key_order_is_total::<u16>(),
        key_order_is_total::<u32>(),
        key_order_is_total::<u64>(),
        key_order_is_total::<u128>(),
        key_order_is_total::<usize>(),
        key_order_is_total::<i8>(),
        key_order_is_total::<i16>(),
        key_order_is_total::<i32>(),
        key_order_is_total::<i64>(),
        key_order_is_total::<i128>(),
        key_order_is_total::<isize>(),
{
    broadcast use vstd::laws_cmp::group_laws_cmp;
    broadcast use vstd::laws_eq::group_laws_eq;

}

} // verus!
