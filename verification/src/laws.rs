//! What holds of every well-formed map, whatever calls have made it.

use crate::model::{
    ascending, lemma_has_key_at_rank, lemma_index_unique, lemma_map_len, lemma_rank_parts,
    lemma_upsert, lemma_without, map_of, rank_of, upsert, without,
};
use crate::order::lt;
use crate::tree::RedBlackTree;
use vstd::prelude::*;

verus! {

/// The keys of a well-formed map stand in strictly ascending order.
pub proof fn law_keys_ascend<K: Ord + Clone, V>(t: RedBlackTree<K, V>, i: int, j: int)
    requires
        t.wf(),
        0 <= i < j < t.key_seq().len(),
    ensures
        lt(t.key_seq()[i], t.key_seq()[j]),
{
    let s = t.entries();
    assert(lt(s[i].0, s[j].0));
}

/// A well-formed map has as many entries as it has distinct keys, and a
/// key is among its entries exactly when the map holds it.
pub proof fn law_size_counts_keys<K: Ord + Clone, V>(t: RedBlackTree<K, V>)
    requires
        t.wf(),
    ensures
        t@.dom().finite(),
        t.entries().len() == t@.dom().len(),
        forall|k: K| t@.contains_key(k) <==> t.key_seq().contains(k),
{
    let s = t.entries();
    lemma_map_len(s);
    assert forall|k: K| t@.contains_key(k) <==> t.key_seq().contains(k) by {
        if t@.contains_key(k) {
            let i = choose|i: int| 0 <= i < s.len() && (#[trigger] s[i]).0 == k;
            assert(t.key_seq()[i] == k);
        }
        if t.key_seq().contains(k) {
            let i = choose|i: int| 0 <= i < t.key_seq().len() && t.key_seq()[i] == k;
            assert(s[i].0 == k);
        }
    }
}

/// In a well-formed map every node records the size of its subtree, every
/// path from the root down to an empty link crosses the same number of
/// black links, no red link leans right or follows a red link, and the
/// link into the root is black.
pub proof fn law_in_shape<K: Ord + Clone, V>(t: RedBlackTree<K, V>)
    requires
        t.wf(),
    ensures
        t.sizes_consistent(),
        t.balanced(),
        t.two_three(),
        t.black_root(),
{
}

/// The rank of the key at a position is that position.
pub proof fn law_rank_of_select<K: Ord + Clone, V>(t: RedBlackTree<K, V>, i: int)
    requires
        t.wf(),
        0 <= i < t.entries().len(),
    ensures
        rank_of(t.entries(), t.key_seq()[i]) == i,
{
    let s = t.entries();
    lemma_index_unique(s, i);
    lemma_has_key_at_rank(s, s[i].0);
}

/// The key at the rank of a key of the map is that key.
pub proof fn law_select_of_rank<K: Ord + Clone, V>(t: RedBlackTree<K, V>, key: K)
    requires
        t.wf(),
        t@.contains_key(key),
    ensures
        rank_of(t.entries(), key) < t.entries().len(),
        t.key_seq()[rank_of(t.entries(), key) as int] == key,
{
    lemma_has_key_at_rank(t.entries(), key);
}

/// After a key has been bound to a value, the map holds that value under
/// the key and every other key as before.
pub proof fn law_insert_then_get<K: Ord + Clone, V>(t: RedBlackTree<K, V>, key: K, value: V)
    requires
        t.wf(),
    ensures
        map_of(upsert(t.entries(), key, value)).contains_key(key),
        map_of(upsert(t.entries(), key, value))[key] == value,
        forall|k: K|
            k != key ==> (#[trigger] map_of(upsert(t.entries(), key, value)).contains_key(k)
                <==> t@.contains_key(k)),
        forall|k: K|
            k != key && t@.contains_key(k) ==> #[trigger] map_of(
                upsert(t.entries(), key, value),
            )[k] == t@[k],
        upsert(t.entries(), key, value).len() == t.entries().len() + if t@.contains_key(key) {
            0int
        } else {
            1int
        },
{
    lemma_upsert(t.entries(), key, value);
}

/// Binding a key a second time replaces the value and adds no entry.
pub proof fn law_insert_twice<K: Ord + Clone, V>(t: RedBlackTree<K, V>, key: K, first: V, second: V)
    requires
        t.wf(),
    ensures
        upsert(upsert(t.entries(), key, first), key, second) == upsert(t.entries(), key, second),
        upsert(upsert(t.entries(), key, first), key, second).len() == upsert(
            t.entries(),
            key,
            first,
        ).len(),
        map_of(upsert(upsert(t.entries(), key, first), key, second))[key] == second,
{
    let s = t.entries();
    let u = upsert(s, key, first);
    lemma_upsert(s, key, first);
    lemma_upsert(s, key, second);
    lemma_upsert(u, key, second);
    lemma_has_key_at_rank(s, key);
    lemma_has_key_at_rank(u, key);
    lemma_rank_parts(s, key);
    lemma_rank_parts(u, key);
    let r = rank_of(s, key) as int;
    assert(rank_of(u, key) == r) by {
        assert(u[r].0 == key);
        if rank_of(u, key) < r {
            let q = rank_of(u, key) as int;
            assert(u[q] == s[q]);
        } else if rank_of(u, key) > r {
        }
    }
    assert(upsert(u, key, second) =~= upsert(s, key, second));
}

/// After a key has been bound and then taken out, the map does not hold
/// it, has one entry less than with it, and is the map that it was before
/// but for that key.
pub proof fn law_insert_then_delete<K: Ord + Clone, V>(t: RedBlackTree<K, V>, key: K, value: V)
    requires
        t.wf(),
    ensures
        !map_of(without(upsert(t.entries(), key, value), key)).contains_key(key),
        without(upsert(t.entries(), key, value), key).len() == upsert(
            t.entries(),
            key,
            value,
        ).len() - 1,
        map_of(without(upsert(t.entries(), key, value), key)) == t@.remove(key),
{
    let s = t.entries();
    let u = upsert(s, key, value);
    lemma_upsert(s, key, value);
    lemma_without(u, key);
    assert(map_of(s).insert(key, value).remove(key) =~= map_of(s).remove(key));
}

/// Taking out a key that the map does not hold leaves the entries, and so
/// the keys and the size, as they were.
pub proof fn law_delete_absent<K: Ord + Clone, V>(t: RedBlackTree<K, V>, key: K)
    requires
        t.wf(),
        !t@.contains_key(key),
    ensures
        without(t.entries(), key) == t.entries(),
        t@.remove(key) == t@,
{
    lemma_without(t.entries(), key);
    assert(t@.remove(key) =~= t@);
}

} // verus!
