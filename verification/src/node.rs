//! Tree cells, their colours, and what a subtree is: its entries in key
//! order, its recorded sizes, its black height and its 2-3 shape.

use crate::model::join;
use vstd::prelude::*;

verus! {

/// The colour of the link that leads from a node's parent to the node.
#[derive(Clone, Copy, Debug, PartialEq, Eq, Structural)]
pub enum Color {
    Red,
    Black,
}

/// One cell of the tree. It owns its two subtrees.
pub struct Node<K, V> {
    pub key: K,
    pub value: V,
    pub left: Option<Box<Node<K, V>>>,
    pub right: Option<Box<Node<K, V>>>,
    pub color: Color,
    pub size: i32,
}

/// A subtree, possibly empty.
pub type Link<K, V> = Option<Box<Node<K, V>>>;

impl Color {
    /// Whether the colour is red.
    pub fn is_red(&self) -> (r: bool)
        ensures
            r == (*self == Color::Red),
    {
        match self {
            Color::Red => true,
            Color::Black => false,
        }
    }

    /// The other colour.
    pub open spec fn flipped(self) -> Color {
        match self {
            Color::Red => Color::Black,
            Color::Black => Color::Red,
        }
    }

    /// The other colour.
    pub fn flip_color(&self) -> (r: Color)
        ensures
            r == self.flipped(),
    {
        match self {
            Color::Red => Color::Black,
            Color::Black => Color::Red,
        }
    }
}

impl<K, V> Node<K, V> {
    /// Whether the link into this node is red.
    pub fn is_red(&self) -> (r: bool)
        ensures
            r == (self.color == Color::Red),
    {
        self.color.is_red()
    }

    /// The size recorded in this node.
    pub fn size(&self) -> (r: i32)
        ensures
            r == self.size,
    {
        self.size
    }

    /// The entry that the node holds.
    pub open spec fn entry(self) -> (K, V) {
        (self.key, self.value)
    }
}

/// The entries of a subtree, from left to right.
pub open spec fn entries<K, V>(t: Link<K, V>) -> Seq<(K, V)>
    decreases t,
{
    match t {
        None => Seq::empty(),
        Some(n) => join(entries(n.left), n.entry(), entries(n.right)),
    }
}

/// The subtree is not empty and the link into it is red.
pub open spec fn red<K, V>(t: Link<K, V>) -> bool {
    match t {
        None => false,
        Some(n) => n.color == Color::Red,
    }
}

/// The size recorded at the root of the subtree; zero for the empty one.
pub open spec fn recorded_size<K, V>(t: Link<K, V>) -> int {
    match t {
        None => 0,
        Some(n) => n.size as int,
    }
}

/// Every node records one more than the sizes recorded in its children.
pub open spec fn sizes_consistent<K, V>(t: Link<K, V>) -> bool
    decreases t,
{
    match t {
        None => true,
        Some(n) => {
            &&& n.size == 1 + recorded_size(n.left) + recorded_size(n.right)
            &&& sizes_consistent(n.left)
            &&& sizes_consistent(n.right)
        },
    }
}

/// The number of black links on the leftmost path down from the link into
/// the subtree.
pub open spec fn black_height<K, V>(t: Link<K, V>) -> nat
    decreases t,
{
    match t {
        None => 0,
        Some(n) => black_height(n.left) + if n.color == Color::Black {
            1nat
        } else {
            0nat
        },
    }
}

/// Every path from the link into the subtree down to an empty link crosses
/// the same number of black links.
pub open spec fn balanced<K, V>(t: Link<K, V>) -> bool
    decreases t,
{
    match t {
        None => true,
        Some(n) => {
            &&& black_height(n.left) == black_height(n.right)
            &&& balanced(n.left)
            &&& balanced(n.right)
        },
    }
}

/// No red link leans right, and no red link is followed by a red link.
pub open spec fn two_three<K, V>(t: Link<K, V>) -> bool
    decreases t,
{
    match t {
        None => true,
        Some(n) => {
            &&& !red(n.right)
            &&& !(n.color == Color::Red && red(n.left))
            &&& two_three(n.left)
            &&& two_three(n.right)
        },
    }
}

/// The subtree is a balanced 2-3 tree in left-leaning red-black form.
pub open spec fn sound<K, V>(t: Link<K, V>) -> bool {
    two_three(t) && balanced(t)
}

/// Consistent sizes count the entries.
pub proof fn lemma_size_counts<K, V>(t: Link<K, V>)
    requires
        sizes_consistent(t),
    ensures
        recorded_size(t) == entries(t).len(),
    decreases t,
{
    match t {
        None => {},
        Some(n) => {
            lemma_size_counts(n.left);
            lemma_size_counts(n.right);
        },
    }
}

/// Whether the link leads to a red node.
pub fn is_red<K, V>(t: &Link<K, V>) -> (r: bool)
    ensures
        r == red(*t),
{
    match t {
        Some(n) => n.is_red(),
        None => false,
    }
}

/// The size recorded behind the link.
pub fn size<K, V>(t: &Link<K, V>) -> (r: i32)
    ensures
        r == recorded_size(*t),
{
    match t {
        Some(n) => n.size(),
        None => 0,
    }
}

/// The left child of the root of the subtree; empty for the empty subtree.
pub open spec fn left_of<K, V>(t: Link<K, V>) -> Link<K, V> {
    match t {
        None => None,
        Some(n) => n.left,
    }
}

/// The right child of the root of the subtree; empty for the empty subtree.
pub open spec fn right_of<K, V>(t: Link<K, V>) -> Link<K, V> {
    match t {
        None => None,
        Some(n) => n.right,
    }
}

/// Whether the left child of the node behind the link is red.
pub fn left_is_red<K, V>(t: &Link<K, V>) -> (r: bool)
    ensures
        r == red(left_of(*t)),
{
    match t {
        Some(n) => is_red(&n.left),
        None => false,
    }
}

/// Sound but for the root, which may be red above a red left child.
pub open spec fn near_sound<K, V>(t: Link<K, V>) -> bool {
    &&& sound(left_of(t))
    &&& sound(right_of(t))
    &&& !red(right_of(t))
    &&& black_height(left_of(t)) == black_height(right_of(t))
}

} // verus!
