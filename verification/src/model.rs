//! The mathematical model of the map: a sequence of entries in strictly
//! ascending key order. Every operation of the tree is stated against it.

use crate::order::{le, lt, total_order};
use vstd::prelude::*;

verus! {

/// The keys of the entries, in the same order.
pub open spec fn keys_of<K, V>(s: Seq<(K, V)>) -> Seq<K> {
    Seq::new(s.len(), |i: int| s[i].0)
}

/// Every entry's key is strictly below the key of each later entry.
pub open spec fn ascending<K: Ord, V>(s: Seq<(K, V)>) -> bool {
    forall|i: int, j: int|
        #![trigger s[i], s[j]]
        0 <= i < j < s.len() ==> lt(s[i].0, s[j].0)
}

/// Some entry carries the key.
pub open spec fn has_key<K, V>(s: Seq<(K, V)>, key: K) -> bool {
    exists|i: int| 0 <= i < s.len() && (#[trigger] s[i]).0 == key
}

/// A position at which the key stands, when there is one.
pub open spec fn index_of<K, V>(s: Seq<(K, V)>, key: K) -> int {
    choose|i: int| 0 <= i < s.len() && (#[trigger] s[i]).0 == key
}

/// The value stored under the key, if any.
pub open spec fn lookup<K, V>(s: Seq<(K, V)>, key: K) -> Option<V> {
    if has_key(s, key) {
        Some(s[index_of(s, key)].1)
    } else {
        None
    }
}

/// The finite map that the entries describe.
pub open spec fn map_of<K, V>(s: Seq<(K, V)>) -> Map<K, V> {
    Map::new(|k: K| has_key(s, k), |k: K| s[index_of(s, k)].1)
}

/// The number of entries whose key is strictly below `key`.
pub open spec fn rank_of<K: Ord, V>(s: Seq<(K, V)>, key: K) -> nat
    decreases s.len(),
{
    if s.len() == 0 {
        0
    } else {
        rank_of(s.drop_last(), key) + if lt(s.last().0, key) {
            1nat
        } else {
            0nat
        }
    }
}

/// The entries with `key` bound to `value`: replaced in place when the key
/// is present, put in at its rank when it is not.
pub open spec fn upsert<K: Ord, V>(s: Seq<(K, V)>, key: K, value: V) -> Seq<(K, V)> {
    let r = rank_of(s, key) as int;
    if r < s.len() && s[r].0 == key {
        s.update(r, (key, value))
    } else {
        s.insert(r, (key, value))
    }
}

/// The entries without the one for `key`; unchanged when the key is absent.
pub open spec fn without<K: Ord, V>(s: Seq<(K, V)>, key: K) -> Seq<(K, V)> {
    let r = rank_of(s, key) as int;
    if r < s.len() && s[r].0 == key {
        s.remove(r)
    } else {
        s
    }
}

/// `a`, then the single entry `e`, then `b`.
pub open spec fn join<K, V>(a: Seq<(K, V)>, e: (K, V), b: Seq<(K, V)>) -> Seq<(K, V)> {
    a.push(e) + b
}

/// The key lies in the closed interval from `low` to `high`.
pub open spec fn within<K: Ord>(low: K, high: K) -> spec_fn(K) -> bool {
    |k: K| le(low, k) && le(k, high)
}

/// The ascending keys that lie between `low` and `high`, both included.
pub open spec fn keys_between<K: Ord, V>(s: Seq<(K, V)>, low: K, high: K) -> Seq<K> {
    keys_of(s).filter(within(low, high))
}

/// The largest key that is not above `key`.
pub open spec fn is_floor<K: Ord, V>(s: Seq<(K, V)>, key: K, f: K) -> bool {
    &&& has_key(s, f)
    &&& le(f, key)
    &&& forall|i: int| 0 <= i < s.len() && le((#[trigger] s[i]).0, key) ==> le(s[i].0, f)
}

/// The smallest key that is not below `key`.
pub open spec fn is_ceiling<K: Ord, V>(s: Seq<(K, V)>, key: K, c: K) -> bool {
    &&& has_key(s, c)
    &&& le(key, c)
    &&& forall|i: int| 0 <= i < s.len() && le(key, (#[trigger] s[i]).0) ==> le(c, s[i].0)
}

/// No key is at or below `key`.
pub open spec fn none_at_or_below<K: Ord, V>(s: Seq<(K, V)>, key: K) -> bool {
    forall|i: int| 0 <= i < s.len() ==> !le((#[trigger] s[i]).0, key)
}

/// No key is at or above `key`.
pub open spec fn none_at_or_above<K: Ord, V>(s: Seq<(K, V)>, key: K) -> bool {
    forall|i: int| 0 <= i < s.len() ==> !le(key, (#[trigger] s[i]).0)
}

/// The parts of an ascending sequence are ascending, and the middle entry
/// separates them.
pub proof fn lemma_join_parts<K: Ord, V>(a: Seq<(K, V)>, e: (K, V), b: Seq<(K, V)>)
    requires
        ascending(join(a, e, b)),
    ensures
        ascending(a),
        ascending(b),
        forall|i: int| 0 <= i < a.len() ==> lt((#[trigger] a[i]).0, e.0),
        forall|i: int| 0 <= i < b.len() ==> lt(e.0, (#[trigger] b[i]).0),
{
    let s = join(a, e, b);
    let n = a.len() as int;
    assert(s[n] == e);
    assert forall|i: int, j: int| 0 <= i < j < a.len() implies lt(a[i].0, a[j].0) by {
        assert(s[i] == a[i] && s[j] == a[j]);
    }
    assert forall|i: int, j: int| 0 <= i < j < b.len() implies lt(b[i].0, b[j].0) by {
        assert(s[n + 1 + i] == b[i] && s[n + 1 + j] == b[j]);
    }
    assert forall|i: int| 0 <= i < a.len() implies lt((#[trigger] a[i]).0, e.0) by {
        assert(s[i] == a[i]);
    }
    assert forall|i: int| 0 <= i < b.len() implies lt(e.0, (#[trigger] b[i]).0) by {
        assert(s[n + 1 + i] == b[i]);
    }
}

/// Two ascending sequences with a separating entry between them join into
/// an ascending sequence.
pub proof fn lemma_join_ascending<K: Ord, V>(a: Seq<(K, V)>, e: (K, V), b: Seq<(K, V)>)
    requires
        total_order::<K>(),
        ascending(a),
        ascending(b),
        forall|i: int| 0 <= i < a.len() ==> lt((#[trigger] a[i]).0, e.0),
        forall|i: int| 0 <= i < b.len() ==> lt(e.0, (#[trigger] b[i]).0),
    ensures
        ascending(join(a, e, b)),
{
    let s = join(a, e, b);
    let n = a.len() as int;
    assert forall|i: int, j: int| 0 <= i < j < s.len() implies lt(s[i].0, s[j].0) by {
        if j < n {
            assert(s[i] == a[i] && s[j] == a[j]);
        } else if j == n {
            assert(s[i] == a[i]);
        } else if i < n {
            assert(s[i] == a[i] && s[j] == b[j - n - 1]);
            assert(lt(a[i].0, e.0) && lt(e.0, b[j - n - 1].0));
        } else if i == n {
            assert(s[j] == b[j - n - 1]);
        } else {
            assert(s[i] == b[i - n - 1] && s[j] == b[j - n - 1]);
        }
    }
}

/// In an ascending sequence a key stands at one position only.
pub proof fn lemma_index_unique<K: Ord, V>(s: Seq<(K, V)>, i: int)
    requires
        total_order::<K>(),
        ascending(s),
        0 <= i < s.len(),
    ensures
        has_key(s, s[i].0),
        index_of(s, s[i].0) == i,
        lookup(s, s[i].0) == Some(s[i].1),
{
    let j = index_of(s, s[i].0);
    if j < i {
        assert(lt(s[j].0, s[i].0));
    } else if i < j {
        assert(lt(s[i].0, s[j].0));
    }
}

/// The rank never exceeds the number of entries.
pub proof fn lemma_rank_bound<K: Ord, V>(s: Seq<(K, V)>, key: K)
    ensures
        rank_of(s, key) <= s.len(),
    decreases s.len(),
{
    if s.len() > 0 {
        lemma_rank_bound(s.drop_last(), key);
    }
}

/// In an ascending sequence the rank of a key parts the entries: those
/// before it are below the key, those from it on are not.
pub proof fn lemma_rank_parts<K: Ord, V>(s: Seq<(K, V)>, key: K)
    requires
        total_order::<K>(),
        ascending(s),
    ensures
        rank_of(s, key) <= s.len(),
        forall|i: int| 0 <= i < rank_of(s, key) ==> lt((#[trigger] s[i]).0, key),
        forall|i: int| rank_of(s, key) <= i < s.len() ==> !lt((#[trigger] s[i]).0, key),
    decreases s.len(),
{
    if s.len() > 0 {
        let t = s.drop_last();
        let n = t.len() as int;
        assert forall|i: int, j: int| 0 <= i < j < t.len() implies lt(t[i].0, t[j].0) by {
            assert(t[i] == s[i] && t[j] == s[j]);
        }
        lemma_rank_parts(t, key);
        if lt(s.last().0, key) {
            assert forall|i: int| 0 <= i < n implies lt((#[trigger] t[i]).0, key) by {
                assert(t[i] == s[i]);
                assert(lt(s[i].0, s[n].0));
            }
            if rank_of(t, key) < n {
                assert(!lt(t[rank_of(t, key) as int].0, key));
            }
            assert forall|i: int| 0 <= i < rank_of(s, key) implies lt((#[trigger] s[i]).0, key) by {
                if i < n {
                    assert(t[i] == s[i]);
                }
            }
        } else {
            assert forall|i: int| 0 <= i < rank_of(s, key) implies lt((#[trigger] s[i]).0, key) by {
                assert(t[i] == s[i]);
            }
            assert forall|i: int| rank_of(s, key) <= i < s.len() implies !lt(
                (#[trigger] s[i]).0,
                key,
            ) by {
                if i < n {
                    assert(t[i] == s[i]);
                }
            }
        }
    }
}

/// A position that parts an ascending sequence as the rank does is the rank.
pub proof fn lemma_rank_is<K: Ord, V>(s: Seq<(K, V)>, key: K, r: int)
    requires
        total_order::<K>(),
        ascending(s),
        0 <= r <= s.len(),
        forall|i: int| 0 <= i < r ==> lt((#[trigger] s[i]).0, key),
        forall|i: int| r <= i < s.len() ==> !lt((#[trigger] s[i]).0, key),
    ensures
        rank_of(s, key) == r,
{
    lemma_rank_parts(s, key);
    let q = rank_of(s, key) as int;
    if q < r {
        assert(lt(s[q].0, key));
    } else if r < q {
        assert(lt(s[r].0, key));
    }
}

/// The rank of a key in a joined sequence, by the side of the middle entry
/// on which the key falls.
pub proof fn lemma_rank_join<K: Ord, V>(a: Seq<(K, V)>, e: (K, V), b: Seq<(K, V)>, key: K)
    requires
        total_order::<K>(),
        ascending(join(a, e, b)),
    ensures
        lt(key, e.0) ==> rank_of(join(a, e, b), key) == rank_of(a, key),
        key == e.0 ==> rank_of(join(a, e, b), key) == a.len(),
        lt(e.0, key) ==> rank_of(join(a, e, b), key) == a.len() + 1 + rank_of(b, key),
{
    let s = join(a, e, b);
    let n = a.len() as int;
    lemma_join_parts(a, e, b);
    lemma_rank_parts(a, key);
    lemma_rank_parts(b, key);
    assert(s[n] == e);
    let r: int = if lt(key, e.0) {
        rank_of(a, key) as int
    } else if key == e.0 {
        n
    } else {
        n + 1 + rank_of(b, key)
    };
    assert forall|i: int| 0 <= i < r implies lt((#[trigger] s[i]).0, key) by {
        if i < n {
            assert(s[i] == a[i]);
        } else if i > n {
            assert(s[i] == b[i - n - 1]);
        }
    }
    assert forall|i: int| r <= i < s.len() implies !lt((#[trigger] s[i]).0, key) by {
        if i < n {
            assert(s[i] == a[i]);
        } else if i > n {
            assert(s[i] == b[i - n - 1]);
            if !lt(e.0, key) {
                assert(lt(e.0, b[i - n - 1].0));
            }
        }
    }
    lemma_rank_is(s, key, r);
}

/// A key is in an ascending sequence exactly when it stands at its rank.
pub proof fn lemma_has_key_at_rank<K: Ord, V>(s: Seq<(K, V)>, key: K)
    requires
        total_order::<K>(),
        ascending(s),
    ensures
        has_key(s, key) <==> (rank_of(s, key) < s.len() && s[rank_of(s, key) as int].0 == key),
        has_key(s, key) ==> index_of(s, key) == rank_of(s, key),
{
    lemma_rank_parts(s, key);
    let r = rank_of(s, key) as int;
    if has_key(s, key) {
        let i = index_of(s, key);
        assert(!lt(s[i].0, key));
        if r < i {
            assert(lt(s[r].0, s[i].0));
            assert(!lt(s[r].0, key));
        }
    }
}

/// Looking a key up in a joined sequence looks it up on its side of the
/// middle entry.
pub proof fn lemma_lookup_join<K: Ord, V>(a: Seq<(K, V)>, e: (K, V), b: Seq<(K, V)>, key: K)
    requires
        total_order::<K>(),
        ascending(join(a, e, b)),
    ensures
        lt(key, e.0) ==> lookup(join(a, e, b), key) == lookup(a, key),
        key == e.0 ==> lookup(join(a, e, b), key) == Some(e.1),
        lt(e.0, key) ==> lookup(join(a, e, b), key) == lookup(b, key),
        lt(key, e.0) ==> (has_key(join(a, e, b), key) <==> has_key(a, key)),
        lt(e.0, key) ==> (has_key(join(a, e, b), key) <==> has_key(b, key)),
        key == e.0 ==> has_key(join(a, e, b), key),
{
    let s = join(a, e, b);
    let n = a.len() as int;
    lemma_join_parts(a, e, b);
    assert(s[n] == e);
    if key == e.0 {
        lemma_index_unique(s, n);
    } else if lt(key, e.0) {
        if has_key(a, key) {
            let i = index_of(a, key);
            assert(s[i] == a[i]);
            lemma_index_unique(s, i);
            lemma_index_unique(a, i);
        }
        if has_key(s, key) {
            let i = index_of(s, key);
            if i > n {
                assert(s[i] == b[i - n - 1]);
                assert(lt(e.0, b[i - n - 1].0));
            }
            assert(s[i] == a[i]);
        }
    } else {
        if has_key(b, key) {
            let i = index_of(b, key);
            assert(s[n + 1 + i] == b[i]);
            lemma_index_unique(s, n + 1 + i);
            lemma_index_unique(b, i);
        }
        if has_key(s, key) {
            let i = index_of(s, key);
            if i < n {
                assert(s[i] == a[i]);
                assert(lt(a[i].0, e.0));
            }
            assert(s[i] == b[i - n - 1]);
        }
    }
}

/// Binding a key in a joined sequence binds it on its side of the middle
/// entry.
pub proof fn lemma_upsert_join<K: Ord, V>(
    a: Seq<(K, V)>,
    e: (K, V),
    b: Seq<(K, V)>,
    key: K,
    value: V,
)
    requires
        total_order::<K>(),
        ascending(join(a, e, b)),
    ensures
        lt(key, e.0) ==> upsert(join(a, e, b), key, value) == join(upsert(a, key, value), e, b),
        key == e.0 ==> upsert(join(a, e, b), key, value) == join(a, (key, value), b),
        lt(e.0, key) ==> upsert(join(a, e, b), key, value) == join(a, e, upsert(b, key, value)),
{
    let s = join(a, e, b);
    let n = a.len() as int;
    lemma_rank_join(a, e, b, key);
    lemma_rank_bound(a, key);
    lemma_rank_bound(b, key);
    assert(s[n] == e);
    if lt(key, e.0) {
        let r = rank_of(a, key) as int;
        if r < n {
            assert(s[r] == a[r]);
        }
        assert(upsert(s, key, value) =~= join(upsert(a, key, value), e, b));
    } else if key == e.0 {
        assert(upsert(s, key, value) =~= join(a, (key, value), b));
    } else {
        let r = rank_of(b, key) as int;
        if r < b.len() {
            assert(s[n + 1 + r] == b[r]);
        }
        assert(upsert(s, key, value) =~= join(a, e, upsert(b, key, value)));
    }
}

/// Binding a key keeps the sequence ascending and changes the map it
/// describes at that key alone.
pub proof fn lemma_upsert<K: Ord, V>(s: Seq<(K, V)>, key: K, value: V)
    requires
        total_order::<K>(),
        ascending(s),
    ensures
        ascending(upsert(s, key, value)),
        upsert(s, key, value).len() == s.len() + if has_key(s, key) {
            0int
        } else {
            1int
        },
        lookup(upsert(s, key, value), key) == Some(value),
        forall|k: K| k != key ==> lookup(upsert(s, key, value), k) == lookup(s, k),
        map_of(upsert(s, key, value)) == map_of(s).insert(key, value),
{
    let r = rank_of(s, key) as int;
    let u = upsert(s, key, value);
    lemma_rank_parts(s, key);
    lemma_has_key_at_rank(s, key);
    let a = s.subrange(0, r);
    if has_key(s, key) {
        let b = s.subrange(r + 1, s.len() as int);
        assert(s =~= join(a, s[r], b));
        assert(u =~= join(a, (key, value), b));
        lemma_join_parts(a, s[r], b);
        lemma_join_ascending(a, (key, value), b);
        assert forall|k: K| true implies lookup(u, k) == if k == key {
            Some(value)
        } else {
            lookup(s, k)
        } by {
            lemma_lookup_join(a, s[r], b, k);
            lemma_lookup_join(a, (key, value), b, k);
        }
    } else {
        let b = s.subrange(r, s.len() as int);
        assert(s =~= a + b);
        assert(u =~= join(a, (key, value), b));
        assert forall|i: int, j: int| 0 <= i < j < a.len() implies lt(a[i].0, a[j].0) by {
            assert(a[i] == s[i] && a[j] == s[j]);
        }
        assert forall|i: int, j: int| 0 <= i < j < b.len() implies lt(b[i].0, b[j].0) by {
            assert(b[i] == s[r + i] && b[j] == s[r + j]);
        }
        assert forall|i: int| 0 <= i < a.len() implies lt((#[trigger] a[i]).0, key) by {
            assert(a[i] == s[i]);
        }
        assert forall|i: int| 0 <= i < b.len() implies lt(key, (#[trigger] b[i]).0) by {
            assert(b[i] == s[r + i]);
            assert(!lt(s[r + i].0, key));
            assert(s[r + i].0 != key);
        }
        lemma_join_ascending(a, (key, value), b);
        assert forall|k: K| true implies lookup(u, k) == if k == key {
            Some(value)
        } else {
            lookup(s, k)
        } by {
            lemma_lookup_join(a, (key, value), b, k);
            lemma_lookup_concat(a, b, k);
        }
    }
    lemma_lookup_determines_map(u, map_of(s).insert(key, value));
}

/// Looking a key up in a concatenation of two ascending runs whose keys
/// do not meet looks it up in the run that holds it.
pub proof fn lemma_lookup_concat<K: Ord, V>(a: Seq<(K, V)>, b: Seq<(K, V)>, key: K)
    requires
        total_order::<K>(),
        ascending(a + b),
    ensures
        lookup(a + b, key) == if has_key(a, key) {
            lookup(a, key)
        } else {
            lookup(b, key)
        },
        has_key(a + b, key) <==> has_key(a, key) || has_key(b, key),
{
    let s = a + b;
    let n = a.len() as int;
    assert forall|i: int, j: int| 0 <= i < j < a.len() implies lt(a[i].0, a[j].0) by {
        assert(a[i] == s[i] && a[j] == s[j]);
    }
    assert forall|i: int, j: int| 0 <= i < j < b.len() implies lt(b[i].0, b[j].0) by {
        assert(b[i] == s[n + i] && b[j] == s[n + j]);
    }
    if has_key(a, key) {
        let i = index_of(a, key);
        assert(s[i] == a[i]);
        lemma_index_unique(s, i);
        lemma_index_unique(a, i);
    } else if has_key(b, key) {
        let i = index_of(b, key);
        assert(s[n + i] == b[i]);
        lemma_index_unique(s, n + i);
        lemma_index_unique(b, i);
    } else if has_key(s, key) {
        let i = index_of(s, key);
        if i < n {
            assert(s[i] == a[i]);
        } else {
            assert(s[i] == b[i - n]);
        }
    }
}

/// A map that agrees with the lookups of a sequence is the map of the
/// sequence.
pub proof fn lemma_lookup_determines_map<K, V>(s: Seq<(K, V)>, m: Map<K, V>)
    requires
        forall|k: K| #[trigger] lookup(s, k) == if m.dom().contains(k) {
            Some(m[k])
        } else {
            None
        },
    ensures
        map_of(s) == m,
{
    assert forall|k: K| #[trigger] map_of(s).dom().contains(k) == m.dom().contains(k) by {
        let l = lookup(s, k);
    }
    assert forall|k: K| #[trigger] map_of(s).dom().contains(k) implies map_of(s)[k] == m[k] by {
        let l = lookup(s, k);
    }
    assert(map_of(s) =~= m);
}

/// Taking a key out of a joined sequence takes it out on its side of the
/// middle entry.
pub proof fn lemma_without_join<K: Ord, V>(a: Seq<(K, V)>, e: (K, V), b: Seq<(K, V)>, key: K)
    requires
        total_order::<K>(),
        ascending(join(a, e, b)),
    ensures
        lt(key, e.0) ==> without(join(a, e, b), key) == join(without(a, key), e, b),
        key == e.0 ==> without(join(a, e, b), key) == a + b,
        lt(e.0, key) ==> without(join(a, e, b), key) == join(a, e, without(b, key)),
{
    let s = join(a, e, b);
    let n = a.len() as int;
    lemma_rank_join(a, e, b, key);
    lemma_rank_bound(a, key);
    lemma_rank_bound(b, key);
    assert(s[n] == e);
    if lt(key, e.0) {
        let r = rank_of(a, key) as int;
        if r < n {
            assert(s[r] == a[r]);
        }
        assert(without(s, key) =~= join(without(a, key), e, b));
    } else if key == e.0 {
        assert(without(s, key) =~= a + b);
    } else {
        let r = rank_of(b, key) as int;
        if r < b.len() {
            assert(s[n + 1 + r] == b[r]);
        }
        assert(without(s, key) =~= join(a, e, without(b, key)));
    }
}

/// Taking a key out keeps the sequence ascending and removes the key from
/// the map it describes.
pub proof fn lemma_without<K: Ord, V>(s: Seq<(K, V)>, key: K)
    requires
        total_order::<K>(),
        ascending(s),
    ensures
        ascending(without(s, key)),
        without(s, key).len() == s.len() - if has_key(s, key) {
            1int
        } else {
            0int
        },
        !has_key(without(s, key), key),
        forall|k: K| k != key ==> lookup(without(s, key), k) == lookup(s, k),
        map_of(without(s, key)) == map_of(s).remove(key),
        !has_key(s, key) ==> without(s, key) == s,
{
    let r = rank_of(s, key) as int;
    let u = without(s, key);
    lemma_rank_parts(s, key);
    lemma_has_key_at_rank(s, key);
    if has_key(s, key) {
        let a = s.subrange(0, r);
        let b = s.subrange(r + 1, s.len() as int);
        assert(s =~= join(a, s[r], b));
        assert(u =~= a + b);
        lemma_join_parts(a, s[r], b);
        assert forall|i: int, j: int| 0 <= i < j < u.len() implies lt(u[i].0, u[j].0) by {
            assert(u[i] == s[if i < r { i } else { i + 1 }]);
            assert(u[j] == s[if j < r { j } else { j + 1 }]);
        }
        assert forall|k: K| true implies lookup(u, k) == if k == key {
            None
        } else {
            lookup(s, k)
        } by {
            lemma_lookup_join(a, s[r], b, k);
            lemma_lookup_concat(a, b, k);
            if k == key {
                if has_key(a, k) {
                    let i = index_of(a, k);
                    assert(lt(a[i].0, s[r].0));
                }
                if has_key(b, k) {
                    let i = index_of(b, k);
                    assert(lt(s[r].0, b[i].0));
                }
            } else if lt(k, s[r].0) {
                if has_key(b, k) {
                    let i = index_of(b, k);
                    assert(lt(s[r].0, b[i].0));
                }
            } else {
                if has_key(a, k) {
                    let i = index_of(a, k);
                    assert(lt(a[i].0, s[r].0));
                }
            }
        }
    }
    lemma_lookup_determines_map(u, map_of(s).remove(key));
}

/// The first entry of a non-empty ascending sequence has rank zero, so
/// dropping it takes its key out.
pub proof fn lemma_drop_first<K: Ord, V>(s: Seq<(K, V)>)
    requires
        total_order::<K>(),
        ascending(s),
        s.len() > 0,
    ensures
        s.drop_first() == without(s, s[0].0),
        rank_of(s, s[0].0) == 0,
{
    assert forall|i: int| 0 <= i < s.len() implies !lt((#[trigger] s[i]).0, s[0].0) by {
        if i > 0 {
            assert(lt(s[0].0, s[i].0));
        }
    }
    lemma_rank_is(s, s[0].0, 0);
    assert(s.drop_first() =~= s.remove(0));
}

/// The map of an ascending sequence has as many keys as the sequence has
/// entries.
pub proof fn lemma_map_len<K: Ord, V>(s: Seq<(K, V)>)
    requires
        total_order::<K>(),
        ascending(s),
    ensures
        map_of(s).dom().finite(),
        map_of(s).dom().len() == s.len(),
    decreases s.len(),
{
    if s.len() == 0 {
        assert(map_of(s).dom() =~= Set::empty());
    } else {
        let t = s.drop_first();
        lemma_drop_first(s);
        lemma_without(s, s[0].0);
        lemma_map_len(t);
        lemma_index_unique(s, 0);
        assert(map_of(s).dom() =~= map_of(t).dom().insert(s[0].0));
    }
}

/// The keys of a joined sequence.
pub proof fn lemma_keys_join<K, V>(a: Seq<(K, V)>, e: (K, V), b: Seq<(K, V)>)
    ensures
        keys_of(join(a, e, b)) == keys_of(a).push(e.0) + keys_of(b),
{
    assert(keys_of(join(a, e, b)) =~= keys_of(a).push(e.0) + keys_of(b));
}

/// A filter that no element passes leaves nothing.
pub proof fn lemma_filter_none<A>(s: Seq<A>, p: spec_fn(A) -> bool)
    requires
        forall|i: int| 0 <= i < s.len() ==> !p(#[trigger] s[i]),
    ensures
        s.filter(p) == Seq::<A>::empty(),
    decreases s.len(),
{
    reveal(Seq::filter);
    if s.len() > 0 {
        let t = s.drop_last();
        assert forall|i: int| 0 <= i < t.len() implies !p(#[trigger] t[i]) by {
            assert(t[i] == s[i]);
        }
        lemma_filter_none(t, p);
        assert(!p(s[s.len() - 1]));
    }
}

/// A filter that every element passes leaves everything.
pub proof fn lemma_filter_all<A>(s: Seq<A>, p: spec_fn(A) -> bool)
    requires
        forall|i: int| 0 <= i < s.len() ==> p(#[trigger] s[i]),
    ensures
        s.filter(p) == s,
    decreases s.len(),
{
    reveal(Seq::filter);
    if s.len() > 0 {
        let t = s.drop_last();
        assert forall|i: int| 0 <= i < t.len() implies p(#[trigger] t[i]) by {
            assert(t[i] == s[i]);
        }
        lemma_filter_all(t, p);
        assert(p(s[s.len() - 1]));
        assert(t.push(s.last()) =~= s);
    } else {
        assert(s.filter(p) =~= s);
    }
}

/// The keys between two bounds in a joined sequence: those of the left
/// part, the middle key if it lies between the bounds, those of the right
/// part. A part that lies beyond a bound gives none.
pub proof fn lemma_keys_between_join<K: Ord, V>(
    a: Seq<(K, V)>,
    e: (K, V),
    b: Seq<(K, V)>,
    low: K,
    high: K,
)
    requires
        total_order::<K>(),
        ascending(join(a, e, b)),
    ensures
        keys_between(join(a, e, b), low, high) == keys_between(a, low, high) + (if le(low, e.0)
            && le(e.0, high) {
            seq![e.0]
        } else {
            Seq::<K>::empty()
        }) + keys_between(b, low, high),
        !lt(low, e.0) ==> keys_between(a, low, high) == Seq::<K>::empty(),
        !lt(e.0, high) ==> keys_between(b, low, high) == Seq::<K>::empty(),
{
    let p = within(low, high);
    let ka = keys_of(a);
    let kb = keys_of(b);
    lemma_keys_join(a, e, b);
    lemma_join_parts(a, e, b);
    Seq::filter_distributes_over_add(ka.push(e.0), kb, p);
    assert(ka.push(e.0) =~= ka + seq![e.0]);
    Seq::filter_distributes_over_add(ka, seq![e.0], p);
    let one = seq![e.0];
    assert(one.filter(p) =~= if p(e.0) {
        one
    } else {
        Seq::<K>::empty()
    }) by {
        reveal_with_fuel(Seq::filter, 2);
        assert(one.drop_last() =~= Seq::<K>::empty());
        assert(one.last() == e.0);
        assert(Seq::<K>::empty().push(e.0) =~= one);
    }
    if !lt(low, e.0) {
        assert forall|i: int| 0 <= i < ka.len() implies !p(#[trigger] ka[i]) by {
            assert(lt(a[i].0, e.0));
        }
        lemma_filter_none(ka, p);
    }
    if !lt(e.0, high) {
        assert forall|i: int| 0 <= i < kb.len() implies !p(#[trigger] kb[i]) by {
            assert(lt(e.0, b[i].0));
        }
        lemma_filter_none(kb, p);
    }
}

/// Between its first and its last key an ascending sequence holds all of
/// its keys.
pub proof fn lemma_keys_between_ends<K: Ord, V>(s: Seq<(K, V)>)
    requires
        total_order::<K>(),
        ascending(s),
        s.len() > 0,
    ensures
        keys_between(s, s[0].0, s.last().0) == keys_of(s),
{
    let p = within(s[0].0, s.last().0);
    let k = keys_of(s);
    assert forall|i: int| 0 <= i < k.len() implies p(#[trigger] k[i]) by {
        if 0 < i {
            assert(lt(s[0].0, s[i].0));
        }
        if i < s.len() - 1 {
            assert(lt(s[i].0, s[s.len() - 1].0));
        }
    }
    lemma_filter_all(k, p);
}

/// The number of keys between two bounds is the difference of the bounds'
/// ranks, and one more where the upper bound is itself a key.
pub proof fn lemma_count_between<K: Ord, V>(s: Seq<(K, V)>, low: K, high: K)
    requires
        total_order::<K>(),
        ascending(s),
    ensures
        lt(high, low) ==> keys_between(s, low, high).len() == 0,
        !lt(high, low) ==> keys_between(s, low, high).len() == rank_of(s, high) - rank_of(s, low)
            + if has_key(s, high) {
            1int
        } else {
            0int
        },
    decreases s.len(),
{
    let k = keys_of(s);
    reveal(Seq::filter);
    if s.len() == 0 {
    } else {
        let t = s.drop_last();
        let x = s.last();
        let n = t.len() as int;
        assert(keys_of(t) =~= k.drop_last());
        assert(k.last() == x.0);
        assert forall|i: int, j: int| 0 <= i < j < t.len() implies lt(t[i].0, t[j].0) by {
            assert(t[i] == s[i] && t[j] == s[j]);
        }
        lemma_count_between(t, low, high);
        if has_key(t, high) {
            let i = index_of(t, high);
            assert(t[i] == s[i]);
            assert(lt(s[i].0, s[n].0));
        }
        if x.0 == high {
            assert(s[n].0 == high);
        }
        if has_key(s, high) {
            let i = index_of(s, high);
            if i < n {
                assert(t[i] == s[i]);
            }
        }
    }
}

/// The floor of a key in a joined sequence is found on the key's side of
/// the middle entry, and is the middle key where the right part has none.
pub proof fn lemma_floor_join<K: Ord, V>(a: Seq<(K, V)>, e: (K, V), b: Seq<(K, V)>, key: K, f: K)
    requires
        total_order::<K>(),
        ascending(join(a, e, b)),
    ensures
        key == e.0 ==> is_floor(join(a, e, b), key, e.0),
        lt(key, e.0) && is_floor(a, key, f) ==> is_floor(join(a, e, b), key, f),
        lt(key, e.0) && none_at_or_below(a, key) ==> none_at_or_below(join(a, e, b), key),
        lt(e.0, key) && is_floor(b, key, f) ==> is_floor(join(a, e, b), key, f),
        lt(e.0, key) && none_at_or_below(b, key) ==> is_floor(join(a, e, b), key, e.0),
{
    let s = join(a, e, b);
    let n = a.len() as int;
    lemma_join_parts(a, e, b);
    lemma_lookup_join(a, e, b, f);
    lemma_lookup_join(a, e, b, e.0);
    assert(s[n] == e);
    assert forall|i: int| 0 <= i < s.len() implies (i < n && s[i] == a[i] && lt(s[i].0, e.0)) || (i
        == n && s[i] == e) || (i > n && s[i] == b[i - n - 1] && lt(e.0, s[i].0)) by {
        if i < n {
            assert(s[i] == a[i]);
        } else if i > n {
            assert(s[i] == b[i - n - 1]);
        }
    }
    if lt(e.0, key) && is_floor(b, key, f) {
        let j = index_of(b, f);
        assert(lt(e.0, b[j].0));
    }
    if lt(key, e.0) && is_floor(a, key, f) {
        let j = index_of(a, f);
        assert(lt(a[j].0, e.0));
    }
}

/// The ceiling of a key in a joined sequence is found on the key's side
/// of the middle entry, and is the middle key where the left part has none.
pub proof fn lemma_ceiling_join<K: Ord, V>(
    a: Seq<(K, V)>,
    e: (K, V),
    b: Seq<(K, V)>,
    key: K,
    c: K,
)
    requires
        total_order::<K>(),
        ascending(join(a, e, b)),
    ensures
        key == e.0 ==> is_ceiling(join(a, e, b), key, e.0),
        lt(e.0, key) && is_ceiling(b, key, c) ==> is_ceiling(join(a, e, b), key, c),
        lt(e.0, key) && none_at_or_above(b, key) ==> none_at_or_above(join(a, e, b), key),
        lt(key, e.0) && is_ceiling(a, key, c) ==> is_ceiling(join(a, e, b), key, c),
        lt(key, e.0) && none_at_or_above(a, key) ==> is_ceiling(join(a, e, b), key, e.0),
{
    let s = join(a, e, b);
    let n = a.len() as int;
    lemma_join_parts(a, e, b);
    lemma_lookup_join(a, e, b, c);
    lemma_lookup_join(a, e, b, e.0);
    assert(s[n] == e);
    assert forall|i: int| 0 <= i < s.len() implies (i < n && s[i] == a[i] && lt(s[i].0, e.0)) || (i
        == n && s[i] == e) || (i > n && s[i] == b[i - n - 1] && lt(e.0, s[i].0)) by {
        if i < n {
            assert(s[i] == a[i]);
        } else if i > n {
            assert(s[i] == b[i - n - 1]);
        }
    }
    if lt(e.0, key) && is_ceiling(b, key, c) {
        let j = index_of(b, c);
        assert(lt(e.0, b[j].0));
    }
    if lt(key, e.0) && is_ceiling(a, key, c) {
        let j = index_of(a, c);
        assert(lt(a[j].0, e.0));
    }
}

/// A key that is not above another has no higher rank, and where the
/// higher key is present its rank is below the number of entries.
pub proof fn lemma_rank_monotone<K: Ord, V>(s: Seq<(K, V)>, low: K, high: K)
    requires
        total_order::<K>(),
        ascending(s),
        !lt(high, low),
    ensures
        rank_of(s, low) <= rank_of(s, high),
        has_key(s, high) ==> rank_of(s, high) < s.len(),
{
    lemma_rank_parts(s, low);
    lemma_rank_parts(s, high);
    lemma_has_key_at_rank(s, high);
    let a = rank_of(s, low) as int;
    let b = rank_of(s, high) as int;
    if b < a {
        assert(lt(s[b].0, low));
        assert(!lt(s[b].0, high));
    }
}

} // verus!
