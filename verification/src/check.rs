//! Integrity checks: each walks a subtree once and says whether one of
//! the invariants holds of it. They assume nothing of its shape.

use crate::model::{ascending, join, lemma_join_ascending, lemma_join_parts};
use crate::node::{balanced, black_height, entries, is_red, size, sizes_consistent, two_three, Link};
use crate::order::{compare, lt, total_order, Rel};
use vstd::prelude::*;

verus! {

/// Every key lies strictly between the bounds that are given.
pub open spec fn bounded<K: Ord, V>(s: Seq<(K, V)>, low: Option<K>, high: Option<K>) -> bool {
    forall|i: int|
        0 <= i < s.len() ==> {
            &&& low is Some ==> lt(low.unwrap(), (#[trigger] s[i]).0)
            &&& high is Some ==> lt(s[i].0, high.unwrap())
        }
}

/// The bound as a value.
pub open spec fn bound_of<K>(b: Option<&K>) -> Option<K> {
    match b {
        Some(k) => Some(*k),
        None => None,
    }
}

/// Whether the keys of the subtree ascend from left to right and lie
/// strictly between `min` and `max`, where these are given.
pub fn is_bst_rec<K: Ord, V>(t: &Link<K, V>, min: Option<&K>, max: Option<&K>) -> (r: bool)
    requires
        total_order::<K>(),
    ensures
        r == (ascending(entries(*t)) && bounded(entries(*t), bound_of(min), bound_of(max))),
    decreases *t,
{
    match t {
        None => true,
        Some(n) => {
            let ghost a = entries(n.left);
            let ghost b = entries(n.right);
            let ghost e = n.entry();
            let ghost s = join(a, e, b);
            let ghost m = a.len() as int;
            proof {
                assert(s[m] == e);
                assert forall|i: int| 0 <= i < a.len() implies s[i] == #[trigger] a[i] by {}
                assert forall|i: int| 0 <= i < b.len() implies s[m + 1 + i] == #[trigger] b[i] by {}
                if ascending(s) {
                    lemma_join_parts(a, e, b);
                }
            }
            if let Some(low) = min {
                if compare(&n.key, low) != Rel::Above {
                    return false;
                }
            }
            if let Some(high) = max {
                if compare(&n.key, high) != Rel::Below {
                    return false;
                }
            }
            let left_ok = is_bst_rec(&n.left, min, Some(&n.key));
            if !left_ok {
                proof {
                    if ascending(s) && bounded(s, bound_of(min), bound_of(max)) {
                        assert forall|i: int| 0 <= i < a.len() implies {
                            &&& bound_of(min) is Some ==> lt(
                                bound_of(min).unwrap(),
                                (#[trigger] a[i]).0,
                            )
                            &&& lt(a[i].0, n.key)
                        } by {
                            assert(s[i] == a[i]);
                        }
                    }
                }
                return false;
            }
            let right_ok = is_bst_rec(&n.right, Some(&n.key), max);
            proof {
                if right_ok {
                    lemma_join_ascending(a, e, b);
                    assert forall|i: int| 0 <= i < s.len() implies {
                        &&& bound_of(min) is Some ==> lt(
                            bound_of(min).unwrap(),
                            (#[trigger] s[i]).0,
                        )
                        &&& bound_of(max) is Some ==> lt(s[i].0, bound_of(max).unwrap())
                    } by {
                        if i < m {
                            assert(s[i] == a[i]);
                        } else if i > m {
                            assert(s[i] == b[i - m - 1]);
                        }
                    }
                } else {
                    if ascending(s) && bounded(s, bound_of(min), bound_of(max)) {
                        assert forall|i: int| 0 <= i < b.len() implies {
                            &&& lt(n.key, (#[trigger] b[i]).0)
                            &&& bound_of(max) is Some ==> lt(b[i].0, bound_of(max).unwrap())
                        } by {
                            assert(s[m + 1 + i] == b[i]);
                        }
                    }
                }
            }
            right_ok
        },
    }
}

/// Whether every node of the subtree records one more than the sizes
/// recorded in its children.
pub fn is_size_consistent_rec<K, V>(t: &Link<K, V>) -> (r: bool)
    ensures
        r == sizes_consistent(*t),
    decreases *t,
{
    match t {
        None => true,
        Some(n) => {
            let here: i64 = n.size() as i64;
            let below: i64 = size(&n.left) as i64 + size(&n.right) as i64 + 1;
            if here != below {
                return false;
            }
            is_size_consistent_rec(&n.left) && is_size_consistent_rec(&n.right)
        },
    }
}

/// Whether no red link of the subtree leans right or follows a red link.
pub fn is23_rec<K, V>(t: &Link<K, V>) -> (r: bool)
    ensures
        r == two_three(*t),
    decreases *t,
{
    match t {
        None => true,
        Some(n) => {
            if is_red(&n.right) {
                return false;
            }
            if n.is_red() && is_red(&n.left) {
                return false;
            }
            is23_rec(&n.left) && is23_rec(&n.right)
        },
    }
}

/// The black height is bounded by the number of entries.
pub proof fn lemma_black_height_bound<K, V>(t: Link<K, V>)
    ensures
        black_height(t) <= entries(t).len(),
    decreases t,
{
    match t {
        None => {},
        Some(n) => {
            lemma_black_height_bound(n.left);
        },
    }
}

/// The number of black links on the leftmost path of the subtree.
pub fn left_black_height<K, V>(t: &Link<K, V>) -> (r: i32)
    requires
        entries(*t).len() <= i32::MAX,
    ensures
        r == black_height(*t),
    decreases *t,
{
    match t {
        None => 0,
        Some(n) => {
            proof {
                lemma_black_height_bound(n.left);
            }
            let below: i32 = left_black_height(&n.left);
            if n.is_red() {
                below
            } else {
                below + 1
            }
        },
    }
}

/// Whether every path from the link into the subtree down to an empty link
/// crosses exactly `black` black links.
pub fn is_balanced_rec<K, V>(t: &Link<K, V>, black: i32) -> (r: bool)
    requires
        0 <= black,
    ensures
        r == (balanced(*t) && black_height(*t) == black),
    decreases *t,
{
    match t {
        None => black == 0,
        Some(n) => {
            let mut rest: i32 = black;
            if !n.is_red() {
                if black == 0 {
                    return false;
                }
                rest = black - 1;
            }
            is_balanced_rec(&n.left, rest) && is_balanced_rec(&n.right, rest)
        },
    }
}

} // verus!
