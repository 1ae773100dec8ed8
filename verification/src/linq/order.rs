//! The order on keys.
//!
//! Sorting and grouping compare keys by the key type's own comparison. What
//! they need of it is that it is total and transitive. Two keys of which
//! neither comes after the other count as the same key.

use std::cmp::Ordering;
use vstd::prelude::*;
use vstd::std_specs::cmp::OrdSpec;

verus! {

/// `a` does not come after `b`.
pub open spec fn key_le<K: Ord>(a: K, b: K) -> bool {
    !(a.cmp_spec(&b) is Greater)
}

/// The comparison of `K` is the one that its specification gives, any two keys
/// are comparable, and the order is transitive.
pub open spec fn total_order<K: Ord>() -> bool {
    &&& K::obeys_cmp_spec()
    &&& forall|a: K, b: K| #[trigger] key_le(a, b) || key_le(b, a)
    &&& forall|a: K, b: K, c: K| #[trigger] key_le(a, b) && #[trigger] key_le(b, c) ==> key_le(a, c)
}

/// Whether `a` does not come after `b`.
pub fn le_keys<K: Ord>(a: &K, b: &K) -> (r: bool)
    requires
        K::obeys_cmp_spec(),
    ensures
        r == key_le(*a, *b),
{
    match a.cmp(b) {
        Ordering::Greater => false,
        _ => true,
    }
}

} // verus!
