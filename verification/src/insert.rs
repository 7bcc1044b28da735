//! Insertion: a recursive descent that puts a red leaf in place, or
//! replaces a value, and restores the shape on the way back up.

use crate::model::{ascending, lemma_join_parts, lemma_upsert_join, upsert};
use crate::node::{
    balanced, black_height, entries, left_of, near_sound, red, sizes_consistent, sound,
    two_three, Color, Link, Node,
};
use crate::order::{compare, total_order, Rel};
use crate::shape::balance;
use vstd::prelude::*;

verus! {

/// Binds `key` to `value` in the subtree and hands back the new subtree.
/// The black height stays as it was. The result is in shape but for its
/// root, which may be red; it is red above a red left child only where the
/// subtree that came in had a red root.
pub fn insert_rec<K: Ord, V>(t: Link<K, V>, key: K, value: V) -> (r: Link<K, V>)
    requires
        total_order::<K>(),
        ascending(entries(t)),
        sizes_consistent(t),
        sound(t),
        upsert(entries(t), key, value).len() <= i32::MAX,
    ensures
        r is Some,
        entries(r) == upsert(entries(t), key, value),
        sizes_consistent(r),
        near_sound(r),
        balanced(r),
        black_height(r) == black_height(t),
        red(r) && red(left_of(r)) ==> red(t),
    decreases t,
{
    match t {
        None => {
            let leaf = Node {
                key,
                value,
                left: None,
                right: None,
                color: Color::Red,
                size: 1,
            };
            proof {
                reveal_with_fuel(entries, 2);
                assert(entries(Some(Box::new(leaf))) =~= upsert(
                    Seq::<(K, V)>::empty(),
                    key,
                    value,
                ));
            }
            Some(Box::new(leaf))
        },
        Some(h) => {
            let mut h = h;
            let ghost a = entries(h.left);
            let ghost b = entries(h.right);
            let ghost e = h.entry();
            proof {
                reveal_with_fuel(two_three, 2);
                reveal_with_fuel(balanced, 2);
                lemma_join_parts(a, e, b);
                lemma_upsert_join(a, e, b, key, value);
            }
            match compare(&key, &h.key) {
                Rel::Below => {
                    let l = h.left.take();
                    h.left = insert_rec(l, key, value);
                },
                Rel::Same => {
                    h.value = value;
                },
                Rel::Above => {
                    let r = h.right.take();
                    h.right = insert_rec(r, key, value);
                },
            }
            Some(balance(h))
        },
    }
}

} // verus!
