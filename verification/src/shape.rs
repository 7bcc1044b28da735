//! The local moves that keep the tree in shape: rotations, colour flips,
//! and the fix-up that is run at every node on the way back up.

use crate::node::{
    balanced, black_height, entries, is_red, left_is_red, left_of, lemma_size_counts,
    near_sound, recorded_size, red, size, sizes_consistent, sound, two_three, Color, Link, Node,
};
use vstd::prelude::*;

verus! {

/// The node with its right child lifted into its place.
pub open spec fn rotated_left<K, V>(h: Node<K, V>) -> Node<K, V>
    recommends
        h.right is Some,
{
    let x = *h.right.unwrap();
    let low = Node {
        key: h.key,
        value: h.value,
        left: h.left,
        right: x.left,
        color: Color::Red,
        size: (1 + recorded_size(h.left) + recorded_size(x.left)) as i32,
    };
    Node {
        key: x.key,
        value: x.value,
        left: Some(Box::new(low)),
        right: x.right,
        color: h.color,
        size: (2 + recorded_size(h.left) + recorded_size(x.left) + recorded_size(x.right)) as i32,
    }
}

/// Lifts the right child into the node's place. The old root becomes the
/// red left child of the new one, which takes over its colour. Both sizes
/// are recorded anew, the child's first.
pub fn rotate_left<K, V>(h: Box<Node<K, V>>) -> (r: Box<Node<K, V>>)
    requires
        h.right is Some,
        sizes_consistent(h.left),
        sizes_consistent(h.right),
        entries(Some(h)).len() <= i32::MAX,
    ensures
        *r == rotated_left(*h),
        entries(Some(r)) == entries(Some(h)),
        sizes_consistent(Some(r)),
{
    let ghost h0 = h;
    let mut h = h;
    proof {
        reveal_with_fuel(entries, 3);
        reveal_with_fuel(sizes_consistent, 3);
        lemma_size_counts(h.left);
        lemma_size_counts(h.right.unwrap().left);
        lemma_size_counts(h.right.unwrap().right);
    }
    let mut x = h.right.take().unwrap();
    h.right = x.left.take();
    x.color = h.color;
    h.color = Color::Red;
    h.size = 1 + size(&h.left) + size(&h.right);
    x.left = Some(h);
    x.size = 1 + size(&x.left) + size(&x.right);
    assert(entries(Some(x)) =~= entries(Some(h0)));
    x
}

/// The node with its left child lifted into its place.
pub open spec fn rotated_right<K, V>(h: Node<K, V>) -> Node<K, V>
    recommends
        h.left is Some,
{
    let x = *h.left.unwrap();
    let low = Node {
        key: h.key,
        value: h.value,
        left: x.right,
        right: h.right,
        color: Color::Red,
        size: (1 + recorded_size(x.right) + recorded_size(h.right)) as i32,
    };
    Node {
        key: x.key,
        value: x.value,
        left: x.left,
        right: Some(Box::new(low)),
        color: h.color,
        size: (2 + recorded_size(x.left) + recorded_size(x.right) + recorded_size(h.right)) as i32,
    }
}

/// Lifts the left child into the node's place. The old root becomes the
/// red right child of the new one, which takes over its colour. Both sizes
/// are recorded anew, the child's first.
pub fn rotate_right<K, V>(h: Box<Node<K, V>>) -> (r: Box<Node<K, V>>)
    requires
        h.left is Some,
        sizes_consistent(h.left),
        sizes_consistent(h.right),
        entries(Some(h)).len() <= i32::MAX,
    ensures
        *r == rotated_right(*h),
        entries(Some(r)) == entries(Some(h)),
        sizes_consistent(Some(r)),
{
    let ghost h0 = h;
    let mut h = h;
    proof {
        reveal_with_fuel(entries, 3);
        reveal_with_fuel(sizes_consistent, 3);
        lemma_size_counts(h.right);
        lemma_size_counts(h.left.unwrap().left);
        lemma_size_counts(h.left.unwrap().right);
    }
    let mut x = h.left.take().unwrap();
    h.left = x.right.take();
    x.color = h.color;
    h.color = Color::Red;
    h.size = 1 + size(&h.left) + size(&h.right);
    x.right = Some(h);
    x.size = 1 + size(&x.left) + size(&x.right);
    assert(entries(Some(x)) =~= entries(Some(h0)));
    x
}

/// The subtree with the colour of its root changed to the other one.
pub open spec fn repainted<K, V>(t: Link<K, V>) -> Link<K, V> {
    match t {
        None => None,
        Some(n) => Some(
            Box::new(
                Node {
                    key: n.key,
                    value: n.value,
                    left: n.left,
                    right: n.right,
                    color: n.color.flipped(),
                    size: n.size,
                },
            ),
        ),
    }
}

/// The node with its own colour and the colours of both children changed
/// to the other one.
pub open spec fn flipped<K, V>(h: Node<K, V>) -> Node<K, V> {
    Node {
        key: h.key,
        value: h.value,
        left: repainted(h.left),
        right: repainted(h.right),
        color: h.color.flipped(),
        size: h.size,
    }
}

/// Changes the colour of the node and of both its children to the other
/// one. Entries and sizes stay as they are.
pub fn flip_colors<K, V>(h: Box<Node<K, V>>) -> (r: Box<Node<K, V>>)
    requires
        h.left is Some,
        h.right is Some,
    ensures
        *r == flipped(*h),
        entries(Some(r)) == entries(Some(h)),
        sizes_consistent(h.left) && sizes_consistent(h.right) ==> sizes_consistent(r.left)
            && sizes_consistent(r.right),
        sizes_consistent(Some(h)) ==> sizes_consistent(Some(r)),
{
    let mut h = h;
    proof {
        reveal_with_fuel(entries, 2);
        reveal_with_fuel(sizes_consistent, 2);
    }
    let mut l = h.left.take().unwrap();
    let mut r = h.right.take().unwrap();
    h.color = h.color.flip_color();
    l.color = l.color.flip_color();
    r.color = r.color.flip_color();
    h.left = Some(l);
    h.right = Some(r);
    h
}

/// Whether restoring the shape at a node with these children ends with a
/// colour flip.
pub open spec fn splits<K, V>(left: Link<K, V>, right: Link<K, V>) -> bool {
    red(left) && (red(right) || red(left_of(left)))
}

/// The node after the three repairs in their fixed order, with its size
/// recorded anew: a red right link beside a left link that is not red is
/// rotated left; then a red left link above a red left link is rotated
/// right; then two red children are flipped.
#[verifier::opaque]
pub open spec fn restored<K, V>(h: Node<K, V>) -> Node<K, V> {
    let a = if red(h.right) && !red(h.left) {
        rotated_left(h)
    } else {
        h
    };
    let b = if red(a.left) && red(left_of(a.left)) {
        rotated_right(a)
    } else {
        a
    };
    let c = if red(b.left) && red(b.right) {
        flipped(b)
    } else {
        b
    };
    Node {
        key: c.key,
        value: c.value,
        left: c.left,
        right: c.right,
        color: c.color,
        size: (1 + recorded_size(c.left) + recorded_size(c.right)) as i32,
    }
}

/// The subtrees of the node are in shape and of one black height, the
/// left one but for a red root above a red left child, and the node is
/// black where the repairs end with a colour flip.
pub open spec fn mendable<K, V>(h: Box<Node<K, V>>) -> bool {
    &&& near_sound(h.left)
    &&& balanced(h.left)
    &&& sound(h.right)
    &&& black_height(h.left) == black_height(h.right)
    &&& (splits(h.left, h.right) ==> h.color == Color::Black)
    &&& (red(h.left) && red(left_of(h.left)) ==> !red(h.right))
}

/// The node `r` is in shape but for its root, which may be red, has the
/// black height of `h`, and is red where the repairs ended with a colour
/// flip; its left child is red only where a child of `h` was.
pub open spec fn mended<K, V>(h: Box<Node<K, V>>, r: Box<Node<K, V>>) -> bool {
    &&& near_sound(Some(r))
    &&& balanced(Some(r))
    &&& black_height(Some(r)) == black_height(Some(h))
    &&& r.color == if splits(h.left, h.right) {
        Color::Red
    } else {
        h.color
    }
    &&& (red(r.left) ==> !splits(h.left, h.right) && (red(h.left) || red(h.right)))
}

/// Restores the left-leaning 2-3 shape at a node: a red right link beside
/// a left link that is not red is turned left, two red links in a row on
/// the left are rotated to the two sides, and two red children hand their
/// colour up. Then the size is recorded anew.
pub fn balance<K, V>(h: Box<Node<K, V>>) -> (r: Box<Node<K, V>>)
    requires
        sizes_consistent(h.left),
        sizes_consistent(h.right),
        entries(Some(h)).len() <= i32::MAX,
    ensures
        *r == restored(*h),
        entries(Some(r)) == entries(Some(h)),
        sizes_consistent(Some(r)),
        mendable(h) ==> mended(h, r),
{
    let ghost h0 = h;
    let mut h = h;
    if is_red(&h.right) && !is_red(&h.left) {
        h = rotate_left(h);
    }
    if is_red(&h.left) && left_is_red(&h.left) {
        h = rotate_right(h);
    }
    if is_red(&h.left) && is_red(&h.right) {
        h = flip_colors(h);
    }
    proof {
        lemma_size_counts(h.left);
        lemma_size_counts(h.right);
        reveal_with_fuel(entries, 2);
    }
    h.size = 1 + size(&h.left) + size(&h.right);
    assert(*h == restored(*h0)) by {
        reveal(restored);
    }
    proof {
        if mendable(h0) {
            lemma_restored_in_shape(h0);
        }
    }
    h
}

/// The repairs put a node in shape whose subtrees are.
pub proof fn lemma_restored_in_shape<K, V>(h: Box<Node<K, V>>)
    requires
        mendable(h),
    ensures
        mended(h, Box::new(restored(*h))),
{
    reveal(restored);
    reveal_with_fuel(black_height, 3);
    reveal_with_fuel(balanced, 3);
    reveal_with_fuel(two_three, 3);
}

} // verus!
