//! Deletion: a descent that carries a red link down with it, so that the
//! node that leaves is never a lone black one, and a fix-up on the way back.

use crate::model::{
    ascending, has_key, join, lemma_join_parts, lemma_lookup_join, lemma_without_join, without,
};
use crate::node::{
    balanced, black_height, entries, is_red, left_is_red, left_of, lemma_size_counts,
    near_sound, red, right_of, sizes_consistent, sound, two_three, Color, Link, Node,
};
use crate::order::{compare, lt, total_order, Rel};
use crate::shape::{
    balance, flip_colors, flipped, rotate_left, rotate_right, rotated_left, rotated_right,
};
use vstd::prelude::*;

verus! {

/// The subtree has a red link at its top to spend: its root is red, or
/// the root's left child is.
pub open spec fn ready<K, V>(t: Link<K, V>) -> bool {
    &&& t is Some
    &&& near_sound(t)
    &&& sizes_consistent(t)
    &&& (red(t) || red(left_of(t)))
}

/// The subtree is in shape after an entry has left the subtree `t`: it
/// has the black height of `t`, it is black where `t` was, and its root is
/// red above a red left child only where that held of `t`.
pub open spec fn settled<K, V>(t: Link<K, V>, r: Link<K, V>) -> bool {
    &&& sizes_consistent(r)
    &&& near_sound(r)
    &&& balanced(r)
    &&& black_height(r) == black_height(t)
    &&& (!red(t) ==> !red(r))
    &&& (red(r) && red(left_of(r)) ==> red(t) && red(left_of(t)))
}

/// The node is red above a black left child with a black left child, and
/// is in shape below.
pub open spec fn can_move_left<K, V>(h: Box<Node<K, V>>) -> bool {
    &&& h.color == Color::Red
    &&& h.left is Some
    &&& !red(h.left)
    &&& !red(left_of(h.left))
    &&& near_sound(Some(h))
}

/// The node is red above a black right child with a black left child, and
/// is in shape below.
pub open spec fn can_move_right<K, V>(h: Box<Node<K, V>>) -> bool {
    &&& h.color == Color::Red
    &&& h.right is Some
    &&& !red(h.left)
    &&& !red(left_of(h.right))
    &&& near_sound(Some(h))
}

/// What `move_red_left` makes of the node `h`: the same entries, a left
/// child with a red link to spend, and the black height of `h`.
pub open spec fn moved_left<K, V>(h: Box<Node<K, V>>, r: Box<Node<K, V>>) -> bool {
    &&& entries(Some(r)) == entries(Some(h))
    &&& sizes_consistent(Some(r))
    &&& ready(r.left)
    &&& sound(r.left)
    &&& sound(r.right)
    &&& black_height(r.left) == black_height(r.right)
    &&& black_height(Some(r)) == black_height(Some(h))
    &&& if r.color == Color::Black {
        red(r.left) && red(r.right)
    } else {
        !red(r.left) && !red(r.right)
    }
    &&& (r.key == h.key || has_key(entries(r.left), h.key))
}

/// What `move_red_right` makes of the node `h`: the same entries, a right
/// child with a red link to spend, and the black height of `h`. Either
/// the root stays and both children are red, or the left child has come up
/// and the old root stands black to its right, above a red right child.
pub open spec fn moved_right<K, V>(h: Box<Node<K, V>>, r: Box<Node<K, V>>) -> bool {
    &&& entries(Some(r)) == entries(Some(h))
    &&& sizes_consistent(Some(r))
    &&& r.right is Some
    &&& sound(r.left)
    &&& sound(left_of(r.right))
    &&& sound(right_of(r.right))
    &&& black_height(r.left) == black_height(r.right)
    &&& black_height(left_of(r.right)) == black_height(right_of(r.right))
    &&& black_height(Some(r)) == black_height(Some(h))
    &&& if r.color == Color::Black {
        red(r.left) && red(r.right) && !red(left_of(r.right)) && !red(right_of(r.right))
            && r.key == h.key
    } else {
        !red(r.left) && !red(r.right) && !red(left_of(r.right)) && red(right_of(r.right))
            && r.right.unwrap().key == h.key
    }
}

/// The node with another right child.
pub open spec fn with_right<K, V>(h: Node<K, V>, right: Link<K, V>) -> Node<K, V> {
    Node { key: h.key, value: h.value, left: h.left, right, color: h.color, size: h.size }
}

/// The node after its colours are flipped and, where the right child then
/// has a red left child, that child is rotated right, the node is rotated
/// left and the colours are flipped again.
#[verifier::opaque]
pub open spec fn red_moved_left<K, V>(h: Node<K, V>) -> Node<K, V> {
    let f = flipped(h);
    if red(left_of(f.right)) {
        let turned = rotated_right(*f.right.unwrap());
        flipped(rotated_left(with_right(f, Some(Box::new(turned)))))
    } else {
        f
    }
}

/// The node after its colours are flipped and, where the left child then
/// has a red left child, the node is rotated right and the colours are
/// flipped again.
#[verifier::opaque]
pub open spec fn red_moved_right<K, V>(h: Node<K, V>) -> Node<K, V> {
    let f = flipped(h);
    if red(left_of(f.left)) {
        flipped(rotated_right(f))
    } else {
        f
    }
}

/// Makes the left child, or one of its children, red. The node is red and
/// its left child and that child's left child are black. Where the right
/// child has a red left child, a node is borrowed from the right.
pub fn move_red_left<K, V>(h: Box<Node<K, V>>) -> (r: Box<Node<K, V>>)
    requires
        h.left is Some,
        h.right is Some,
        sizes_consistent(Some(h)),
    ensures
        *r == red_moved_left(*h),
        entries(Some(r)) == entries(Some(h)),
        sizes_consistent(Some(r)),
        can_move_left(h) ==> moved_left(h, r),
{
    let ghost h0 = h;
    proof {
        reveal_with_fuel(sizes_consistent, 3);
        lemma_size_counts(Some(h));
    }
    let mut h = flip_colors(h);
    if left_is_red(&h.right) {
        let x = h.right.take().unwrap();
        proof {
            lemma_size_counts(Some(x));
        }
        h.right = Some(rotate_right(x));
        proof {
            reveal_with_fuel(entries, 2);
        }
        h = rotate_left(h);
        h = flip_colors(h);
    }
    assert(*h == red_moved_left(*h0)) by {
        reveal(red_moved_left);
    }
    assert(can_move_left(h0) ==> moved_left(h0, h)) by {
        reveal_with_fuel(black_height, 4);
        reveal_with_fuel(balanced, 4);
        reveal_with_fuel(two_three, 4);
        if h.key != h0.key {
            let l = h.left.unwrap();
            let i = entries(l.left).len() as int;
            assert(entries(h.left)[i] == l.entry());
        }
    }
    h
}

/// Makes the right child, or one of its children, red. The node is red
/// and its right child and that child's left child are black. Where the
/// left child has a red left child, a node is borrowed from the left.
pub fn move_red_right<K, V>(h: Box<Node<K, V>>) -> (r: Box<Node<K, V>>)
    requires
        h.left is Some,
        h.right is Some,
        sizes_consistent(Some(h)),
    ensures
        *r == red_moved_right(*h),
        entries(Some(r)) == entries(Some(h)),
        sizes_consistent(Some(r)),
        can_move_right(h) ==> moved_right(h, r),
{
    proof {
        reveal_with_fuel(sizes_consistent, 3);
        lemma_size_counts(Some(h));
    }
    let ghost h0 = h;
    let mut h = flip_colors(h);
    if left_is_red(&h.left) {
        h = rotate_right(h);
        h = flip_colors(h);
    }
    assert(*h == red_moved_right(*h0)) by {
        reveal(red_moved_right);
    }
    assert(can_move_right(h0) ==> moved_right(h0, h)) by {
        reveal_with_fuel(black_height, 4);
        reveal_with_fuel(balanced, 4);
        reveal_with_fuel(two_three, 4);
    }
    h
}

/// The node `r` stands ready for the smallest entry to be taken out of its
/// left subtree, and what comes back from there will settle the node `h`.
pub open spec fn poised_left<K, V>(h: Box<Node<K, V>>, r: Box<Node<K, V>>) -> bool {
    &&& entries(Some(r)) == entries(Some(h))
    &&& ready(r.left)
    &&& sound(r.left)
    &&& sound(r.right)
    &&& sizes_consistent(r.right)
    &&& black_height(r.left) == black_height(r.right)
    &&& black_height(Some(r)) == black_height(Some(h))
    &&& (red(r.right) ==> r.color == Color::Black)
    &&& (h.color == Color::Black ==> r.color == Color::Black && !red(r.right))
    &&& (r.color == Color::Red && red(r.left) ==> h.color == Color::Red && red(h.left))
}

/// A node with a left child that has a red link to spend is poised, after
/// a red link has been moved to the left where the left side had none.
pub proof fn lemma_poise_left<K, V>(h: Box<Node<K, V>>, r: Box<Node<K, V>>)
    requires
        ready(Some(h)),
        h.left is Some,
        if !red(h.left) && !red(left_of(h.left)) {
            moved_left(h, r)
        } else {
            r == h
        },
    ensures
        poised_left(h, r),
{
    reveal_with_fuel(black_height, 2);
    reveal_with_fuel(balanced, 2);
    reveal_with_fuel(two_three, 2);
    reveal_with_fuel(sizes_consistent, 2);
}

/// A node with a red link to spend whose left child and that child's left
/// child are black is red itself and has a right child, so a red link can
/// be moved to the left.
pub proof fn lemma_red_to_spare<K, V>(h: Box<Node<K, V>>)
    requires
        ready(Some(h)),
        h.left is Some,
        !red(h.left),
        !red(left_of(h.left)),
    ensures
        can_move_left(h),
        h.right is Some,
{
    reveal_with_fuel(black_height, 2);
}

/// Takes the entry with the smallest key out of the subtree and hands it
/// back beside what is left. Where the left child and its left child are
/// black, a red link is first moved to the left. The shape is restored on
/// the way back.
pub fn delete_min_node<K, V>(h: Box<Node<K, V>>) -> (out: (Link<K, V>, K, V))
    requires
        ready(Some(h)),
    ensures
        entries(out.0) == entries(Some(h)).drop_first(),
        (out.1, out.2) == entries(Some(h))[0],
        settled(Some(h), out.0),
    decreases entries(Some(h)).len(),
{
    let ghost h0 = h;
    let mut h = h;
    proof {
        lemma_size_counts(Some(h));
    }
    if h.left.is_none() {
        let n = *h;
        proof {
            reveal_with_fuel(entries, 2);
            assert(entries(Some(h0)).drop_first() =~= entries(None::<Box<Node<K, V>>>));
        }
        return (None, n.key, n.value);
    }
    if !is_red(&h.left) && !left_is_red(&h.left) {
        proof {
            lemma_red_to_spare(h);
        }
        h = move_red_left(h);
    }
    proof {
        lemma_poise_left(h0, h);
    }
    let ghost h1 = h;
    let l = h.left.take().unwrap();
    let (rest, k, v) = delete_min_node(l);
    h.left = rest;
    proof {
        reveal_with_fuel(entries, 2);
        assert(entries(Some(h)) =~= entries(Some(h1)).drop_first());
    }
    (Some(balance(h)), k, v)
}

/// The subtree can give up the entry for `key`: the key is in it, and a
/// red link stands at its top on the side to which the search turns.
pub open spec fn ready_for<K: Ord, V>(t: Link<K, V>, key: K) -> bool {
    &&& t is Some
    &&& sizes_consistent(t)
    &&& ascending(entries(t))
    &&& has_key(entries(t), key)
    &&& sound(left_of(t))
    &&& sound(right_of(t))
    &&& black_height(left_of(t)) == black_height(right_of(t))
    &&& if red(right_of(t)) {
        !red(t) && !red(left_of(t)) && !lt(key, t.unwrap().key)
    } else {
        red(t) || red(left_of(t))
    }
}

/// The node `r` stands ready for the search to go on into its left
/// subtree, and what comes back from there will settle the node `h`.
pub open spec fn turned_left<K: Ord, V>(h: Box<Node<K, V>>, r: Box<Node<K, V>>, key: K) -> bool {
    &&& entries(Some(r)) == entries(Some(h))
    &&& lt(key, r.key)
    &&& ready_for(r.left, key)
    &&& sound(r.left)
    &&& sound(r.right)
    &&& sizes_consistent(r.right)
    &&& black_height(r.left) == black_height(r.right)
    &&& black_height(Some(r)) == black_height(Some(h))
    &&& (red(r.right) ==> r.color == Color::Black)
    &&& (h.color == Color::Black ==> r.color == Color::Black && !red(r.right))
    &&& (r.color == Color::Red && red(r.left) ==> h.color == Color::Red && red(h.left))
}

/// The moves made before the search turns left leave the node ready.
pub proof fn lemma_turn_left<K: Ord, V>(h: Box<Node<K, V>>, r: Box<Node<K, V>>, key: K)
    requires
        total_order::<K>(),
        ready_for(Some(h), key),
        lt(key, h.key),
        if h.left is Some && !red(h.left) && !red(left_of(h.left)) {
            moved_left(h, r)
        } else {
            r == h
        },
    ensures
        turned_left(h, r, key),
{
    reveal_with_fuel(black_height, 2);
    reveal_with_fuel(balanced, 2);
    reveal_with_fuel(two_three, 2);
    reveal_with_fuel(sizes_consistent, 2);
    let a = entries(r.left);
    let b = entries(r.right);
    lemma_join_parts(entries(h.left), h.entry(), entries(h.right));
    lemma_lookup_join(entries(h.left), h.entry(), entries(h.right), key);
    lemma_join_parts(a, r.entry(), b);
    if r.key != h.key {
        let i = choose|i: int| 0 <= i < a.len() && (#[trigger] a[i]).0 == h.key;
        assert(lt(a[i].0, r.key));
    }
    lemma_lookup_join(a, r.entry(), b, key);
}

/// The node `r` stands ready for the entry to be taken at it or in its
/// right subtree, and what comes back from there will settle the node `h`.
pub open spec fn turned_right<K: Ord, V>(h: Box<Node<K, V>>, r: Box<Node<K, V>>, key: K) -> bool {
    &&& entries(Some(r)) == entries(Some(h))
    &&& !lt(key, r.key)
    &&& sound(r.left)
    &&& sizes_consistent(r.left)
    &&& sizes_consistent(r.right)
    &&& black_height(r.left) == black_height(r.right)
    &&& black_height(Some(r)) == black_height(Some(h))
    &&& (r.right is None ==> r.left is None && r.color == Color::Red && key == r.key)
    &&& (r.right is Some && key == r.key ==> ready(r.right) && sound(r.right))
    &&& (key != r.key ==> ready_for(r.right, key))
    &&& !(red(r.right) && red(left_of(r.right)))
    &&& (red(r.left) ==> r.color == Color::Black)
    &&& (h.color == Color::Black ==> r.color == Color::Black && !red(r.left))
    &&& (r.color == Color::Red && (red(r.left) || red(r.right)) ==> h.color == Color::Red && red(
        h.left,
    ))
}

/// The moves made before the entry is taken at the node or to its right
/// leave the node ready.
pub proof fn lemma_turn_right<K: Ord, V>(
    h: Box<Node<K, V>>,
    m: Box<Node<K, V>>,
    r: Box<Node<K, V>>,
    key: K,
)
    requires
        total_order::<K>(),
        ready_for(Some(h), key),
        !lt(key, h.key),
        if red(h.left) {
            *m == rotated_right(*h) && entries(Some(m)) == entries(Some(h)) && sizes_consistent(
                Some(m),
            )
        } else {
            m == h
        },
        if m.right is Some && !red(m.right) && !red(left_of(m.right)) {
            moved_right(m, r)
        } else {
            r == m
        },
    ensures
        turned_right(h, r, key),
{
    reveal_with_fuel(black_height, 3);
    reveal_with_fuel(balanced, 3);
    reveal_with_fuel(two_three, 3);
    reveal_with_fuel(sizes_consistent, 3);
    reveal_with_fuel(entries, 2);
    lemma_join_parts(entries(h.left), h.entry(), entries(h.right));
    lemma_join_parts(entries(m.left), m.entry(), entries(m.right));
    let a = entries(r.left);
    let b = entries(r.right);
    lemma_join_parts(a, r.entry(), b);
    if r.right is Some {
        let x = r.right.unwrap();
        let i = entries(x.left).len() as int;
        assert(b[i] == x.entry());
        assert(lt(r.key, x.key));
    }
    lemma_lookup_join(a, r.entry(), b, key);
}

/// Takes the entry for `key` out of the subtree and hands back what is
/// left. Where the search turns left and the left child and its left child
/// are black, a red link is first moved to the left. Where it does not turn
/// left, a red left link is first rotated to the right, so that a node
/// without a right child has no child at all when it leaves; then a red
/// link is moved to the right where the right child and its left child are
/// black. A node with a right child gives its place to its successor,
/// which is taken out of the right subtree in its stead. The shape is
/// restored on the way back.
#[verifier::rlimit(60)]
pub fn delete_node<K: Ord, V>(h: Box<Node<K, V>>, key: &K) -> (r: Link<K, V>)
    requires
        total_order::<K>(),
        ready_for(Some(h), *key),
    ensures
        entries(r) == without(entries(Some(h)), *key),
        settled(Some(h), r),
    decreases entries(Some(h)).len(),
{
    let ghost h0 = h;
    let ghost s = entries(Some(h));
    let mut h = h;
    proof {
        lemma_size_counts(Some(h));
    }
    if compare(key, &h.key) == Rel::Below {
        if h.left.is_some() && !is_red(&h.left) && !left_is_red(&h.left) {
            proof {
                lemma_can_move_left(h, *key);
            }
            h = move_red_left(h);
        }
        proof {
            lemma_turn_left(h0, h, *key);
            lemma_without_join(entries(h.left), h.entry(), entries(h.right), *key);
        }
        let l = h.left.take().unwrap();
        h.left = delete_node(l, key);
    } else {
        if is_red(&h.left) {
            h = rotate_right(h);
        }
        let ghost h1 = h;
        if h.right.is_some() && !is_red(&h.right) && !left_is_red(&h.right) {
            proof {
                lemma_can_move_right(h0, h, *key);
            }
            h = move_red_right(h);
        }
        proof {
            lemma_turn_right(h0, h1, h, *key);
            lemma_without_join(entries(h.left), h.entry(), entries(h.right), *key);
        }
        if compare(key, &h.key) == Rel::Same {
            if h.right.is_none() {
                proof {
                    reveal_with_fuel(entries, 2);
                    assert(without(s, *key) =~= entries(None::<Box<Node<K, V>>>));
                }
                return None;
            }
            h = replace_with_successor(h);
        } else {
            let x = h.right.take().unwrap();
            h.right = delete_node(x, key);
        }
    }
    Some(balance(h))
}

/// Gives the node's place to its successor: the entry with the smallest
/// key of the right subtree is taken out there and put in the node.
pub fn replace_with_successor<K, V>(h: Box<Node<K, V>>) -> (r: Box<Node<K, V>>)
    requires
        ready(h.right),
    ensures
        entries(Some(r)) == entries(h.left) + entries(h.right),
        r.left == h.left,
        r.color == h.color,
        settled(h.right, r.right),
{
    let mut h = h;
    let x = h.right.take().unwrap();
    let ghost a = entries(h.left);
    let ghost b = entries(Some(x));
    let (rest, k, v) = delete_min_node(x);
    h.key = k;
    h.value = v;
    h.right = rest;
    proof {
        lemma_size_counts(Some(x));
        assert(join(a, b[0], b.drop_first()) =~= a + b);
    }
    h
}

/// A node that is ready and has a black left child with a black left
/// child is red, so a red link can be moved to the left.
pub proof fn lemma_can_move_left<K: Ord, V>(h: Box<Node<K, V>>, key: K)
    requires
        ready_for(Some(h), key),
        lt(key, h.key),
        h.left is Some,
        !red(h.left),
        !red(left_of(h.left)),
    ensures
        can_move_left(h),
        h.right is Some,
{
    reveal_with_fuel(black_height, 2);
}

/// A node that has no red link on its left and whose right child is black
/// above a black left child is red, so a red link can be moved to the right.
pub proof fn lemma_can_move_right<K: Ord, V>(h: Box<Node<K, V>>, m: Box<Node<K, V>>, key: K)
    requires
        ready_for(Some(h), key),
        if red(h.left) {
            *m == rotated_right(*h) && sizes_consistent(Some(m))
        } else {
            m == h
        },
        m.right is Some,
        !red(m.right),
        !red(left_of(m.right)),
    ensures
        can_move_right(m),
        m.left is Some,
        sizes_consistent(Some(m)),
{
    reveal_with_fuel(black_height, 2);
}

} // verus!
