//! What the tree asks of its keys: a strict total order, and clones that
//! are the keys themselves.

use core::cmp::Ordering;
use vstd::prelude::*;
use vstd::std_specs::cmp::OrdSpec;

verus! {

/// How one key stands to another.
#[derive(Clone, Copy, Debug, PartialEq, Eq, Structural)]
pub enum Rel {
    Below,
    Same,
    Above,
}

/// `a` comes strictly before `b`.
pub open spec fn lt<K: Ord>(a: K, b: K) -> bool {
    a.cmp_spec(&b) == Ordering::Less
}

/// `a` comes before `b` or is `b`.
pub open spec fn le<K: Ord>(a: K, b: K) -> bool {
    lt(a, b) || a == b
}

/// The comparison of `K` is a strict total order that agrees with equality
/// of values, and the executable comparison computes it.
pub open spec fn total_order<K: Ord>() -> bool {
    &&& K::obeys_cmp_spec()
    &&& forall|a: K, b: K| (#[trigger] a.cmp_spec(&b) == Ordering::Equal) <==> a == b
    &&& forall|a: K, b: K| (#[trigger] a.cmp_spec(&b) == Ordering::Greater) <==> lt(b, a)
    &&& forall|a: K, b: K, c: K| #[trigger] lt(a, b) && #[trigger] lt(b, c) ==> lt(a, c)
}

/// Three-way comparison of two keys.
pub fn compare<K: Ord>(a: &K, b: &K) -> (r: Rel)
    requires
        total_order::<K>(),
    ensures
        r == Rel::Below <==> lt(*a, *b),
        r == Rel::Same <==> *a == *b,
        r == Rel::Above <==> lt(*b, *a),
{
    match a.cmp(b) {
        Ordering::Less => Rel::Below,
        Ordering::Equal => Rel::Same,
        Ordering::Greater => Rel::Above,
    }
}

/// A clone of a key is the key itself.
pub open spec fn faithful_clone<K: Clone>() -> bool {
    forall|a: K, b: K| #[trigger] call_ensures(K::clone, (&a,), b) ==> a == b
}

/// A clone of the key.
pub fn clone_key<K: Clone>(key: &K) -> (r: K)
    requires
        faithful_clone::<K>(),
    ensures
        r == *key,
{
    key.clone()
}

} // verus!
