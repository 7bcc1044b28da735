//! The ordered map itself: a tree of nodes behind one root, and the
//! operations that its users call.

use crate::check::{
    is23_rec, is_balanced_rec, is_bst_rec, is_size_consistent_rec, left_black_height,
};
use crate::delete::{delete_min_node, delete_node};
use crate::insert::insert_rec;
use crate::model::{
    ascending, has_key, is_ceiling, is_floor, keys_between, keys_of, lemma_count_between,
    lemma_drop_first, lemma_has_key_at_rank, lemma_index_unique, lemma_keys_between_ends,
    lemma_map_len, lemma_rank_bound, lemma_rank_monotone, lemma_upsert, lemma_without, map_of,
    none_at_or_above, none_at_or_below, rank_of, upsert, without,
};
use crate::node::{
    balanced, entries, is_red, left_of, lemma_size_counts, red, right_of, size,
    sizes_consistent, two_three, Color, Link,
};
use crate::order::{compare, faithful_clone, lt, total_order, Rel};
use crate::query::{
    ceiling_node, descent_rank, floor_node, get_key, keys_queue, lemma_descent_rank, max_key,
    min_key, rank_node, select_node,
};
use vstd::prelude::*;

verus! {

/// An ordered map from keys to values.
pub struct RedBlackTree<K, V> {
    root: Link<K, V>,
}

impl<K: Ord + Clone, V> View for RedBlackTree<K, V> {
    type V = Map<K, V>;

    /// The map from each key to the value stored under it.
    open spec fn view(&self) -> Map<K, V> {
        map_of(self.entries())
    }
}

impl<K: Ord + Clone, V> RedBlackTree<K, V> {
    /// The entries of the map, in the order in which the tree holds them
    /// from left to right.
    pub closed spec fn entries(&self) -> Seq<(K, V)> {
        entries(self.root)
    }

    /// The keys of the map, in the order in which the tree holds them.
    pub open spec fn key_seq(&self) -> Seq<K> {
        keys_of(self.entries())
    }

    /// Every node records one more than the sizes recorded in its children.
    pub closed spec fn sizes_consistent(&self) -> bool {
        sizes_consistent(self.root)
    }

    /// No red link leans right, and below the root no red link follows a
    /// red link.
    pub closed spec fn two_three(&self) -> bool {
        &&& !red(right_of(self.root))
        &&& two_three(left_of(self.root))
        &&& two_three(right_of(self.root))
    }

    /// Every path from the root down to an empty link crosses the same
    /// number of black links.
    pub closed spec fn balanced(&self) -> bool {
        balanced(self.root)
    }

    /// The descent for the key at each position counts that position.
    pub closed spec fn rank_consistent(&self) -> bool {
        forall|i: int|
            0 <= i < entries(self.root).len() ==> descent_rank(
                self.root,
                (#[trigger] entries(self.root)[i]).0,
            ) == i
    }

    /// The link into the root is black.
    pub closed spec fn black_root(&self) -> bool {
        !red(self.root)
    }

    /// What the integrity check tests: ascending keys, consistent sizes,
    /// the 2-3 shape and the black balance.
    pub open spec fn intact(&self) -> bool {
        &&& ascending(self.entries())
        &&& self.sizes_consistent()
        &&& self.two_three()
        &&& self.balanced()
    }

    /// The invariant of the map: the keys are totally ordered and come out
    /// of a clone as they went in, the tree is intact, and its root is
    /// black.
    pub open spec fn wf(&self) -> bool {
        &&& total_order::<K>()
        &&& faithful_clone::<K>()
        &&& self.intact()
        &&& self.black_root()
    }

    /// An empty map.
    pub fn new() -> (r: Self)
        requires
            total_order::<K>(),
            faithful_clone::<K>(),
        ensures
            r.wf(),
            r.entries() == Seq::<(K, V)>::empty(),
            r@ == Map::<K, V>::empty(),
    {
        let r = RedBlackTree { root: None };
        proof {
            assert(r@ =~= Map::<K, V>::empty());
            assert(ascending(r.entries()));
        }
        r
    }

    /// The number of entries.
    pub fn tree_size(&self) -> (r: i32)
        requires
            self.wf(),
        ensures
            r == self.entries().len(),
            r == self@.dom().len(),
    {
        proof {
            lemma_size_counts(self.root);
            lemma_map_len(self.entries());
        }
        size(&self.root)
    }

    /// Whether the map has no entry.
    pub fn is_empty(&self) -> (r: bool)
        ensures
            r == (self.entries().len() == 0),
    {
        self.root.is_none()
    }

    /// The value stored under `key`, if any.
    pub fn get(&self, key: &K) -> (r: Option<&V>)
        requires
            self.wf(),
        ensures
            match r {
                Some(v) => self@.contains_key(*key) && self@[*key] == *v,
                None => !self@.contains_key(*key),
            },
    {
        get_key(&self.root, key)
    }

    /// Whether a value is stored under `key`.
    pub fn contains(&self, key: &K) -> (r: bool)
        requires
            self.wf(),
        ensures
            r == self@.contains_key(*key),
            r == has_key(self.entries(), *key),
    {
        self.get(key).is_some()
    }

    /// Stores `value` under `key`. A value that was stored under the key
    /// before is replaced, and the number of entries stays as it was.
    pub fn insert(&mut self, key: K, value: V)
        requires
            old(self).wf(),
            old(self)@.contains_key(key) || old(self).entries().len() < i32::MAX,
        ensures
            final(self).wf(),
            final(self).entries() == upsert(old(self).entries(), key, value),
            final(self)@ == old(self)@.insert(key, value),
    {
        proof {
            lemma_upsert(self.entries(), key, value);
            lemma_size_counts(self.root);
        }
        let root = self.root.take();
        match insert_rec(root, key, value) {
            Some(mut n) => {
                n.color = Color::Black;
                self.root = Some(n);
            },
            None => {},
        }
    }

    /// Takes the entry for `key` out of the map. A map without the key is
    /// left as it is.
    pub fn delete(&mut self, key: &K)
        requires
            old(self).wf(),
        ensures
            final(self).wf(),
            final(self).entries() == without(old(self).entries(), *key),
            final(self)@ == old(self)@.remove(*key),
            !old(self)@.contains_key(*key) ==> *final(self) == *old(self),
    {
        proof {
            lemma_without(self.entries(), *key);
        }
        if !self.contains(key) {
            return;
        }
        let mut temp_root = self.root.take().unwrap();
        if !temp_root.is_red() {
            temp_root.color = Color::Red;
        }
        match delete_node(temp_root, key) {
            Some(mut n) => {
                n.color = Color::Black;
                self.root = Some(n);
            },
            None => {},
        }
    }

    /// Takes the entry with the smallest key out of the map. An empty map
    /// is left as it is.
    pub fn delete_min(&mut self)
        requires
            old(self).wf(),
        ensures
            final(self).wf(),
            old(self).entries().len() == 0 ==> *final(self) == *old(self),
            old(self).entries().len() > 0 ==> {
                &&& final(self).entries() == old(self).entries().drop_first()
                &&& final(self)@ == old(self)@.remove(old(self).entries()[0].0)
            },
    {
        if self.is_empty() {
            return;
        }
        proof {
            lemma_drop_first(self.entries());
            lemma_without(self.entries(), self.entries()[0].0);
        }
        let mut temp_root = self.root.take().unwrap();
        if !temp_root.is_red() {
            temp_root.color = Color::Red;
        }
        let (rest, _k, _v) = delete_min_node(temp_root);
        match rest {
            Some(mut n) => {
                n.color = Color::Black;
                self.root = Some(n);
            },
            None => {},
        }
    }

    /// The smallest key. The map is not empty.
    pub fn min(&self) -> (r: K)
        requires
            self.wf(),
            self.entries().len() > 0,
        ensures
            r == self.key_seq()[0],
            self@.contains_key(r),
            forall|k: K| self@.contains_key(k) ==> r == k || lt(r, k),
    {
        proof {
            let s = self.entries();
            lemma_index_unique(s, 0);
            assert forall|k: K| self@.contains_key(k) implies s[0].0 == k || lt(s[0].0, k) by {
                let i = choose|i: int| 0 <= i < s.len() && (#[trigger] s[i]).0 == k;
                if i > 0 {
                    assert(lt(s[0].0, s[i].0));
                }
            }
        }
        min_key(self.root.as_ref().unwrap())
    }

    /// The largest key. The map is not empty.
    pub fn max(&self) -> (r: K)
        requires
            self.wf(),
            self.entries().len() > 0,
        ensures
            r == self.key_seq().last(),
            self@.contains_key(r),
            forall|k: K| self@.contains_key(k) ==> r == k || lt(k, r),
    {
        proof {
            let s = self.entries();
            let n = s.len() - 1;
            lemma_index_unique(s, n);
            assert forall|k: K| self@.contains_key(k) implies s[n].0 == k || lt(k, s[n].0) by {
                let i = choose|i: int| 0 <= i < s.len() && (#[trigger] s[i]).0 == k;
                if i < n {
                    assert(lt(s[i].0, s[n].0));
                }
            }
        }
        max_key(self.root.as_ref().unwrap())
    }

    /// The largest key that is not above `key`. The map has such a key.
    pub fn floor(&self, key: &K) -> (r: K)
        requires
            self.wf(),
            !none_at_or_below(self.entries(), *key),
        ensures
            is_floor(self.entries(), *key, r),
    {
        floor_node(&self.root, key).unwrap()
    }

    /// The smallest key that is not below `key`. The map has such a key.
    #[allow(non_snake_case)]
    pub fn Ceiling(&self, key: &K) -> (r: K)
        requires
            self.wf(),
            !none_at_or_above(self.entries(), *key),
        ensures
            is_ceiling(self.entries(), *key, r),
    {
        ceiling_node(&self.root, key).unwrap()
    }

    /// The key with exactly `rank` keys below it.
    pub fn select(&self, rank: i32) -> (r: K)
        requires
            self.wf(),
            0 <= rank < self.entries().len(),
        ensures
            r == self.key_seq()[rank as int],
    {
        select_node(self.root.as_ref().unwrap(), rank)
    }

    /// The number of keys strictly below `key`.
    pub fn rank(&self, key: &K) -> (r: i32)
        requires
            self.wf(),
        ensures
            r == rank_of(self.entries(), *key),
    {
        rank_node(&self.root, key)
    }

    /// All keys, in ascending order.
    pub fn keys(&self) -> (r: Vec<K>)
        requires
            self.wf(),
        ensures
            r@ == self.key_seq(),
    {
        if self.is_empty() {
            let r: Vec<K> = Vec::new();
            assert(r@ =~= self.key_seq());
            return r;
        }
        proof {
            lemma_keys_between_ends(self.entries());
        }
        self.keys_range(self.min(), self.max())
    }

    /// The keys from `low` to `high`, both included, in ascending order.
    pub fn keys_range(&self, low: K, high: K) -> (r: Vec<K>)
        requires
            self.wf(),
        ensures
            r@ == keys_between(self.entries(), low, high),
    {
        let mut q: Vec<K> = Vec::new();
        keys_queue(&self.root, &mut q, &low, &high);
        assert(q@ =~= keys_between(self.entries(), low, high));
        q
    }

    /// The number of keys from `lo` to `hi`, both included.
    pub fn size_size(&self, lo: &K, hi: &K) -> (r: i32)
        requires
            self.wf(),
        ensures
            r == keys_between(self.entries(), *lo, *hi).len(),
            r == if lt(*hi, *lo) {
                0int
            } else {
                let upper = if self@.contains_key(*hi) {
                    1int
                } else {
                    0int
                };
                rank_of(self.entries(), *hi) - rank_of(self.entries(), *lo) + upper
            },
    {
        proof {
            lemma_count_between(self.entries(), *lo, *hi);
            lemma_rank_bound(self.entries(), *lo);
            lemma_rank_bound(self.entries(), *hi);
            lemma_size_counts(self.root);
        }
        if compare(lo, hi) == Rel::Above {
            return 0;
        }
        proof {
            lemma_rank_monotone(self.entries(), *lo, *hi);
        }
        if self.contains(hi) {
            self.rank(hi) - self.rank(lo) + 1
        } else {
            self.rank(hi) - self.rank(lo)
        }
    }

    /// Whether the keys ascend from left to right.
    pub fn is_bst(&self) -> (r: bool)
        requires
            total_order::<K>(),
        ensures
            r == ascending(self.entries()),
    {
        is_bst_rec(&self.root, None, None)
    }

    /// Whether every node records one more than the sizes recorded in its
    /// children.
    pub fn is_size_consistent(&self) -> (r: bool)
        ensures
            r == self.sizes_consistent(),
    {
        is_size_consistent_rec(&self.root)
    }

    /// Whether rank and select undo each other: the rank of the key at
    /// every position is that position, and the key at the rank of every
    /// key is that key. On ascending keys they always do.
    pub fn is_rank_consistent(&self) -> (r: bool)
        requires
            total_order::<K>(),
            faithful_clone::<K>(),
            self.sizes_consistent(),
        ensures
            r == self.rank_consistent(),
            ascending(self.entries()) ==> r,
    {
        let ghost s = self.entries();
        proof {
            lemma_size_counts(self.root);
            if ascending(s) {
                assert forall|i: int| 0 <= i < s.len() implies descent_rank(
                    self.root,
                    (#[trigger] s[i]).0,
                ) == i by {
                    lemma_descent_rank(self.root, s[i].0);
                    lemma_index_unique(s, i);
                    lemma_has_key_at_rank(s, s[i].0);
                }
            }
        }
        let root = match &self.root {
            None => {
                return true;
            },
            Some(n) => n,
        };
        let n: i32 = root.size();
        let mut i: i32 = 0;
        while i < n
            invariant
                0 <= i <= n,
                n == s.len(),
                s == entries(self.root),
                self.root == Some(*root),
                total_order::<K>(),
                faithful_clone::<K>(),
                sizes_consistent(self.root),
                forall|k: int| 0 <= k < i ==> descent_rank(self.root, (#[trigger] s[k]).0) == k,
                ascending(s) ==> forall|k: int|
                    0 <= k < s.len() ==> descent_rank(self.root, (#[trigger] s[k]).0) == k,
            decreases n - i,
        {
            let key = select_node(root, i);
            if i != rank_node(&self.root, &key) {
                assert(s[i as int].0 == key);
                return false;
            }
            i = i + 1;
        }
        let mut keys: Vec<K> = Vec::new();
        let low = min_key(root);
        let high = max_key(root);
        keys_queue(&self.root, &mut keys, &low, &high);
        let mut j: usize = 0;
        while j < keys.len()
            invariant
                0 <= j <= keys.len(),
                forall|m: int| 0 <= m < keys@.len() ==> has_key(s, #[trigger] keys@[m]),
                s == entries(self.root),
                s.len() <= i32::MAX,
                self.root == Some(*root),
                total_order::<K>(),
                faithful_clone::<K>(),
                sizes_consistent(self.root),
                forall|k: int|
                    0 <= k < s.len() ==> descent_rank(self.root, (#[trigger] s[k]).0) == k,
            decreases keys.len() - j,
        {
            let key = &keys[j];
            proof {
                assert(has_key(s, keys@[j as int]));
                let m = choose|m: int| 0 <= m < s.len() && (#[trigger] s[m]).0 == *key;
                assert(descent_rank(self.root, s[m].0) == m);
            }
            let at = rank_node(&self.root, key);
            if compare(key, &select_node(root, at)) != Rel::Same {
                return false;
            }
            j = j + 1;
        }
        true
    }

    /// Whether no red link leans right and, below the root, no red link
    /// follows a red link.
    pub fn is23(&self) -> (r: bool)
        ensures
            r == self.two_three(),
    {
        match &self.root {
            None => true,
            Some(n) => !is_red(&n.right) && is23_rec(&n.left) && is23_rec(&n.right),
        }
    }

    /// Whether every path from the root down to an empty link crosses the
    /// same number of black links: as many as the leftmost path.
    pub fn is_balanced(&self) -> (r: bool)
        requires
            self.entries().len() <= i32::MAX,
        ensures
            r == self.balanced(),
    {
        let black = left_black_height(&self.root);
        is_balanced_rec(&self.root, black)
    }

    /// Whether the tree is intact: ascending keys, consistent sizes, rank
    /// and select that undo each other, the 2-3 shape and the black
    /// balance.
    pub fn check(&self) -> (r: bool)
        requires
            total_order::<K>(),
            faithful_clone::<K>(),
        ensures
            r == self.intact(),
    {
        if !self.is_bst() {
            return false;
        }
        if !self.is_size_consistent() {
            return false;
        }
        proof {
            lemma_size_counts(self.root);
        }
        self.is_rank_consistent() && self.is23() && self.is_balanced()
    }
}

} // verus!
