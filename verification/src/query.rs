//! Searches that leave the tree as it is: lookup, the extreme keys, floor
//! and ceiling, rank and select, and the keys of a range.

use crate::model::{
    ascending, has_key, is_ceiling, is_floor, keys_between, lemma_ceiling_join,
    lemma_floor_join, lemma_join_parts, lemma_keys_between_join, lemma_lookup_join,
    lemma_rank_join, lookup, none_at_or_above, none_at_or_below, rank_of,
};
use crate::node::{entries, lemma_size_counts, recorded_size, size, sizes_consistent, Link, Node};
use crate::order::{clone_key, compare, faithful_clone, le, lt, total_order, Rel};
use vstd::prelude::*;

verus! {

/// The value stored under `key` in the subtree, if any.
pub fn get_key<'a, K: Ord, V>(t: &'a Link<K, V>, key: &K) -> (r: Option<&'a V>)
    requires
        total_order::<K>(),
        ascending(entries(*t)),
    ensures
        match r {
            Some(v) => lookup(entries(*t), *key) == Some(*v),
            None => lookup(entries(*t), *key) is None,
        },
    decreases *t,
{
    match t {
        None => None,
        Some(n) => {
            proof {
                lemma_join_parts(entries(n.left), n.entry(), entries(n.right));
                lemma_lookup_join(entries(n.left), n.entry(), entries(n.right), *key);
            }
            match compare(key, &n.key) {
                Rel::Below => get_key(&n.left, key),
                Rel::Above => get_key(&n.right, key),
                Rel::Same => Some(&n.value),
            }
        },
    }
}

/// The smallest key of the subtree under the node: the key of its
/// leftmost node.
pub fn min_key<K: Clone, V>(h: &Node<K, V>) -> (r: K)
    requires
        faithful_clone::<K>(),
    ensures
        r == entries(Some(Box::new(*h)))[0].0,
    decreases *h,
{
    proof {
        reveal_with_fuel(entries, 2);
    }
    match &h.left {
        None => clone_key(&h.key),
        Some(l) => min_key(l),
    }
}

/// The largest key of the subtree under the node: the key of its
/// rightmost node.
pub fn max_key<K: Clone, V>(h: &Node<K, V>) -> (r: K)
    requires
        faithful_clone::<K>(),
    ensures
        r == entries(Some(Box::new(*h))).last().0,
    decreases *h,
{
    proof {
        reveal_with_fuel(entries, 2);
    }
    match &h.right {
        None => clone_key(&h.key),
        Some(x) => max_key(x),
    }
}

/// The largest key of the subtree that is not above `key`, if there is one.
pub fn floor_node<K: Ord + Clone, V>(t: &Link<K, V>, key: &K) -> (r: Option<K>)
    requires
        total_order::<K>(),
        faithful_clone::<K>(),
        ascending(entries(*t)),
    ensures
        match r {
            Some(f) => is_floor(entries(*t), *key, f),
            None => none_at_or_below(entries(*t), *key),
        },
    decreases *t,
{
    match t {
        None => None,
        Some(n) => {
            let ghost a = entries(n.left);
            let ghost b = entries(n.right);
            proof {
                lemma_join_parts(a, n.entry(), b);
            }
            match compare(key, &n.key) {
                Rel::Same => {
                    proof {
                        lemma_floor_join(a, n.entry(), b, *key, n.key);
                    }
                    Some(clone_key(&n.key))
                },
                Rel::Below => {
                    let r = floor_node(&n.left, key);
                    proof {
                        lemma_floor_join(a, n.entry(), b, *key, r.unwrap_or(n.key));
                    }
                    r
                },
                Rel::Above => {
                    let r = floor_node(&n.right, key);
                    proof {
                        lemma_floor_join(a, n.entry(), b, *key, r.unwrap_or(n.key));
                    }
                    match r {
                        Some(f) => Some(f),
                        None => Some(clone_key(&n.key)),
                    }
                },
            }
        },
    }
}

/// The smallest key of the subtree that is not below `key`, if there is one.
pub fn ceiling_node<K: Ord + Clone, V>(t: &Link<K, V>, key: &K) -> (r: Option<K>)
    requires
        total_order::<K>(),
        faithful_clone::<K>(),
        ascending(entries(*t)),
    ensures
        match r {
            Some(c) => is_ceiling(entries(*t), *key, c),
            None => none_at_or_above(entries(*t), *key),
        },
    decreases *t,
{
    match t {
        None => None,
        Some(n) => {
            let ghost a = entries(n.left);
            let ghost b = entries(n.right);
            proof {
                lemma_join_parts(a, n.entry(), b);
            }
            match compare(key, &n.key) {
                Rel::Same => {
                    proof {
                        lemma_ceiling_join(a, n.entry(), b, *key, n.key);
                    }
                    Some(clone_key(&n.key))
                },
                Rel::Above => {
                    let r = ceiling_node(&n.right, key);
                    proof {
                        lemma_ceiling_join(a, n.entry(), b, *key, r.unwrap_or(n.key));
                    }
                    r
                },
                Rel::Below => {
                    let r = ceiling_node(&n.left, key);
                    proof {
                        lemma_ceiling_join(a, n.entry(), b, *key, r.unwrap_or(n.key));
                    }
                    match r {
                        Some(c) => Some(c),
                        None => Some(clone_key(&n.key)),
                    }
                },
            }
        },
    }
}

/// The key at position `rank` of the subtree under the node, counted from
/// zero in ascending order.
pub fn select_node<K: Clone, V>(h: &Node<K, V>, rank: i32) -> (r: K)
    requires
        faithful_clone::<K>(),
        sizes_consistent(Some(Box::new(*h))),
        0 <= rank < entries(Some(Box::new(*h))).len(),
    ensures
        r == entries(Some(Box::new(*h)))[rank as int].0,
    decreases *h,
{
    proof {
        lemma_size_counts(h.left);
        lemma_size_counts(h.right);
    }
    let below: i32 = size(&h.left);
    if rank < below {
        select_node(h.left.as_ref().unwrap(), rank)
    } else if rank == below {
        clone_key(&h.key)
    } else {
        select_node(h.right.as_ref().unwrap(), rank - below - 1)
    }
}

/// What a descent for `key` counts: at each node that it passes on the
/// way right, and at the node where it finds the key, the size recorded to
/// the left, and one for each node passed.
pub open spec fn descent_rank<K: Ord, V>(t: Link<K, V>, key: K) -> int
    decreases t,
{
    match t {
        None => 0,
        Some(n) => if lt(key, n.key) {
            descent_rank(n.left, key)
        } else if key == n.key {
            recorded_size(n.left)
        } else {
            1 + recorded_size(n.left) + descent_rank(n.right, key)
        },
    }
}

/// With consistent sizes a descent counts no more than the entries.
pub proof fn lemma_descent_rank_bound<K: Ord, V>(t: Link<K, V>, key: K)
    requires
        sizes_consistent(t),
    ensures
        0 <= descent_rank(t, key) <= entries(t).len(),
    decreases t,
{
    lemma_size_counts(t);
    match t {
        None => {},
        Some(n) => {
            lemma_size_counts(n.left);
            lemma_size_counts(n.right);
            lemma_descent_rank_bound(n.left, key);
            lemma_descent_rank_bound(n.right, key);
        },
    }
}

/// On ascending keys with consistent sizes a descent counts the keys that
/// are strictly below the key.
pub proof fn lemma_descent_rank<K: Ord, V>(t: Link<K, V>, key: K)
    requires
        total_order::<K>(),
        ascending(entries(t)),
        sizes_consistent(t),
    ensures
        descent_rank(t, key) == rank_of(entries(t), key),
    decreases t,
{
    match t {
        None => {},
        Some(n) => {
            lemma_size_counts(n.left);
            lemma_size_counts(n.right);
            lemma_join_parts(entries(n.left), n.entry(), entries(n.right));
            lemma_rank_join(entries(n.left), n.entry(), entries(n.right), key);
            lemma_descent_rank(n.left, key);
            lemma_descent_rank(n.right, key);
        },
    }
}

/// The number of keys of the subtree that are strictly below `key`, found
/// by a descent that adds up recorded sizes.
pub fn rank_node<K: Ord, V>(t: &Link<K, V>, key: &K) -> (r: i32)
    requires
        total_order::<K>(),
        sizes_consistent(*t),
    ensures
        r == descent_rank(*t, *key),
        ascending(entries(*t)) ==> r == rank_of(entries(*t), *key),
    decreases *t,
{
    proof {
        if ascending(entries(*t)) {
            lemma_descent_rank(*t, *key);
        }
    }
    match t {
        None => 0,
        Some(n) => {
            proof {
                lemma_size_counts(*t);
                lemma_size_counts(n.left);
                lemma_size_counts(n.right);
                lemma_descent_rank_bound(n.right, *key);
            }
            match compare(key, &n.key) {
                Rel::Below => rank_node(&n.left, key),
                Rel::Same => size(&n.left),
                Rel::Above => 1 + size(&n.left) + rank_node(&n.right, key),
            }
        },
    }
}

/// Appends to `q` keys of the subtree: it passes by a left subtree where
/// the node's key is not above `low`, by a right subtree where it is not
/// below `high`, and by a key that lies beyond a bound. On ascending keys
/// these are the keys between `low` and `high`, both included, in
/// ascending order.
pub fn keys_queue<K: Ord + Clone, V>(t: &Link<K, V>, q: &mut Vec<K>, low: &K, high: &K)
    requires
        total_order::<K>(),
        faithful_clone::<K>(),
    ensures
        old(q)@.len() <= final(q)@.len(),
        forall|j: int| 0 <= j < old(q)@.len() ==> #[trigger] final(q)@[j] == old(q)@[j],
        forall|j: int|
            old(q)@.len() <= j < final(q)@.len() ==> has_key(entries(*t), #[trigger] final(q)@[j]),
        ascending(entries(*t)) ==> final(q)@ == old(q)@ + keys_between(entries(*t), *low, *high),
    decreases *t,
{
    match t {
        None => {
            proof {
                reveal(Seq::filter);
                assert(keys_between(entries(*t), *low, *high) =~= Seq::<K>::empty());
                assert(q@ + Seq::<K>::empty() =~= q@);
            }
        },
        Some(n) => {
            let ghost q0 = q@;
            let ghost a = entries(n.left);
            let ghost b = entries(n.right);
            let ghost s = entries(*t);
            proof {
                if ascending(s) {
                    lemma_join_parts(a, n.entry(), b);
                    lemma_keys_between_join(a, n.entry(), b, *low, *high);
                }
                assert(s[a.len() as int] == n.entry());
                assert forall|k: K| has_key(a, k) implies has_key(s, k) by {
                    let i = choose|i: int| 0 <= i < a.len() && (#[trigger] a[i]).0 == k;
                    assert(s[i] == a[i]);
                }
                assert forall|k: K| has_key(b, k) implies has_key(s, k) by {
                    let i = choose|i: int| 0 <= i < b.len() && (#[trigger] b[i]).0 == k;
                    assert(s[a.len() + 1 + i] == b[i]);
                }
            }
            let low_side = compare(low, &n.key);
            let high_side = compare(high, &n.key);
            if low_side == Rel::Below {
                keys_queue(&n.left, q, low, high);
            }
            let ghost q1 = q@;
            if low_side != Rel::Above && high_side != Rel::Below {
                q.push(clone_key(&n.key));
            }
            let ghost q2 = q@;
            if high_side == Rel::Above {
                keys_queue(&n.right, q, low, high);
            }
            proof {
                if ascending(s) {
                    let mid = if le(*low, n.key) && le(n.key, *high) {
                        seq![n.key]
                    } else {
                        Seq::<K>::empty()
                    };
                    assert(q@ =~= q0 + (keys_between(a, *low, *high) + mid + keys_between(
                        b,
                        *low,
                        *high,
                    )));
                }
                assert forall|j: int| 0 <= j < q2.len() implies #[trigger] q@[j] == q2[j] by {}
                assert forall|j: int| 0 <= j < q1.len() implies #[trigger] q@[j] == q1[j] by {
                    assert(q2[j] == q1[j]);
                }
                assert forall|j: int| 0 <= j < q0.len() implies #[trigger] q@[j] == q0[j] by {
                    assert(q1[j] == q0[j]);
                }
                assert forall|j: int| q0.len() <= j < q@.len() implies has_key(
                    s,
                    #[trigger] q@[j],
                ) by {
                    if j < q1.len() {
                        assert(has_key(a, q1[j]));
                    } else if j < q2.len() {
                        assert(q2[j] == n.key);
                    } else {
                        assert(has_key(b, q@[j]));
                    }
                }
            }
        },
    }
}

} // verus!
