use llrb::check::{is23_rec, is_balanced_rec, is_bst_rec, is_size_consistent_rec, left_black_height};
use llrb::delete::{delete_min_node, delete_node, move_red_left, move_red_right};
use llrb::insert::insert_rec;
use llrb::node::{is_red, left_is_red, size, Link};
use llrb::order::{clone_key, compare, Rel};
use llrb::query::{
    ceiling_node, floor_node, get_key, keys_queue, max_key, min_key, rank_node, select_node,
};
use llrb::shape::{balance, flip_colors, rotate_left, rotate_right};
use llrb::{Color, Node};

fn leaf(key: i32, color: Color) -> Box<Node<i32, i32>> {
    Box::new(Node { key, value: key * 10, left: None, right: None, color, size: 1 })
}

fn node(
    key: i32,
    color: Color,
    left: Link<i32, i32>,
    right: Link<i32, i32>,
) -> Box<Node<i32, i32>> {
    let size = 1 + size(&left) + size(&right);
    Box::new(Node { key, value: key * 10, left, right, color, size })
}

fn keys_of(t: &Link<i32, i32>) -> Vec<i32> {
    let mut q = Vec::new();
    keys_queue(t, &mut q, &i32::MIN, &i32::MAX);
    q
}

#[test]
fn compare_orders_integers() {
    assert_eq!(compare(&1, &2), Rel::Below);
    assert_eq!(compare(&2, &2), Rel::Same);
    assert_eq!(compare(&3, &2), Rel::Above);
}

#[test]
fn clone_key_gives_the_key() {
    assert_eq!(clone_key(&17), 17);
    assert_eq!(clone_key(&String::from("seventeen")), "seventeen");
}

#[test]
fn node_reports_colour_and_size() {
    let n = node(2, Color::Red, Some(leaf(1, Color::Black)), Some(leaf(3, Color::Black)));
    assert!(n.is_red());
    assert_eq!(n.size(), 3);
    assert!(!leaf(1, Color::Black).is_red());
    assert!(is_red(&Some(leaf(1, Color::Red))));
    assert!(!is_red(&None::<Box<Node<i32, i32>>>));
    assert_eq!(size(&None::<Box<Node<i32, i32>>>), 0);
    assert!(left_is_red(&Some(node(2, Color::Black, Some(leaf(1, Color::Red)), None))));
    assert!(!left_is_red(&Some(leaf(2, Color::Black))));
}

#[test]
fn rotate_left_lifts_right_child() {
    let h = node(
        2,
        Color::Black,
        Some(leaf(1, Color::Black)),
        Some(node(4, Color::Red, Some(leaf(3, Color::Black)), Some(leaf(5, Color::Black)))),
    );
    let r = rotate_left(h);
    assert_eq!(r.key, 4);
    assert_eq!(r.color, Color::Black);
    assert_eq!(r.size, 5);
    let low = r.left.as_ref().unwrap();
    assert_eq!(low.key, 2);
    assert_eq!(low.color, Color::Red);
    assert_eq!(low.size, 3);
    assert_eq!(low.left.as_ref().unwrap().key, 1);
    assert_eq!(low.right.as_ref().unwrap().key, 3);
    assert_eq!(r.right.as_ref().unwrap().key, 5);
    assert_eq!(keys_of(&Some(r)), vec![1, 2, 3, 4, 5]);
}

#[test]
fn rotate_right_lifts_left_child() {
    let h = node(
        4,
        Color::Red,
        Some(node(2, Color::Black, Some(leaf(1, Color::Black)), Some(leaf(3, Color::Black)))),
        Some(leaf(5, Color::Black)),
    );
    let r = rotate_right(h);
    assert_eq!(r.key, 2);
    assert_eq!(r.color, Color::Red);
    assert_eq!(r.size, 5);
    let low = r.right.as_ref().unwrap();
    assert_eq!(low.key, 4);
    assert_eq!(low.color, Color::Red);
    assert_eq!(low.size, 3);
    assert_eq!(low.left.as_ref().unwrap().key, 3);
    assert_eq!(low.right.as_ref().unwrap().key, 5);
    assert_eq!(r.left.as_ref().unwrap().key, 1);
    assert_eq!(keys_of(&Some(r)), vec![1, 2, 3, 4, 5]);
}

#[test]
fn flip_colors_changes_three_colours() {
    let h = node(2, Color::Black, Some(leaf(1, Color::Red)), Some(leaf(3, Color::Red)));
    let r = flip_colors(h);
    assert_eq!(r.color, Color::Red);
    assert_eq!(r.left.as_ref().unwrap().color, Color::Black);
    assert_eq!(r.right.as_ref().unwrap().color, Color::Black);
    let back = flip_colors(r);
    assert_eq!(back.color, Color::Black);
    assert_eq!(back.left.as_ref().unwrap().color, Color::Red);
    assert_eq!(back.right.as_ref().unwrap().color, Color::Red);
}

#[test]
fn balance_turns_red_right_link_left() {
    let mut h = node(1, Color::Black, None, Some(leaf(2, Color::Red)));
    h.size = 0;
    let r = balance(h);
    assert_eq!(r.key, 2);
    assert_eq!(r.color, Color::Black);
    assert_eq!(r.size, 2);
    assert_eq!(r.left.as_ref().unwrap().key, 1);
    assert_eq!(r.left.as_ref().unwrap().color, Color::Red);
    assert!(r.right.is_none());
}

#[test]
fn balance_splits_two_reds_in_a_row() {
    let h = node(3, Color::Black, Some(node(2, Color::Red, Some(leaf(1, Color::Red)), None)), None);
    let r = balance(h);
    assert_eq!(r.key, 2);
    assert_eq!(r.color, Color::Red);
    assert_eq!(r.size, 3);
    assert_eq!(r.left.as_ref().unwrap().key, 1);
    assert_eq!(r.left.as_ref().unwrap().color, Color::Black);
    assert_eq!(r.right.as_ref().unwrap().key, 3);
    assert_eq!(r.right.as_ref().unwrap().color, Color::Black);
}

#[test]
fn balance_flips_two_red_children() {
    let h = node(2, Color::Black, Some(leaf(1, Color::Red)), Some(leaf(3, Color::Red)));
    let r = balance(h);
    assert_eq!(r.key, 2);
    assert_eq!(r.color, Color::Red);
    assert_eq!(r.left.as_ref().unwrap().color, Color::Black);
    assert_eq!(r.right.as_ref().unwrap().color, Color::Black);
}

#[test]
fn balance_leaves_a_node_in_shape_alone() {
    let h = node(2, Color::Black, Some(leaf(1, Color::Red)), None);
    let r = balance(h);
    assert_eq!(r.key, 2);
    assert_eq!(r.color, Color::Black);
    assert_eq!(r.size, 2);
    assert_eq!(r.left.as_ref().unwrap().color, Color::Red);
}

#[test]
fn move_red_left_without_borrowing() {
    let h = node(2, Color::Red, Some(leaf(1, Color::Black)), Some(leaf(3, Color::Black)));
    let r = move_red_left(h);
    assert_eq!(r.key, 2);
    assert_eq!(r.color, Color::Black);
    assert_eq!(r.left.as_ref().unwrap().color, Color::Red);
    assert_eq!(r.right.as_ref().unwrap().color, Color::Red);
}

#[test]
fn move_red_left_borrows_from_the_right() {
    let h = node(
        2,
        Color::Red,
        Some(leaf(1, Color::Black)),
        Some(node(4, Color::Black, Some(leaf(3, Color::Red)), None)),
    );
    let r = move_red_left(h);
    assert_eq!(r.key, 3);
    assert_eq!(r.color, Color::Red);
    assert_eq!(r.size, 4);
    let l = r.left.as_ref().unwrap();
    assert_eq!(l.key, 2);
    assert_eq!(l.color, Color::Black);
    assert_eq!(l.left.as_ref().unwrap().key, 1);
    assert_eq!(l.left.as_ref().unwrap().color, Color::Red);
    let x = r.right.as_ref().unwrap();
    assert_eq!(x.key, 4);
    assert_eq!(x.color, Color::Black);
    assert_eq!(keys_of(&Some(r)), vec![1, 2, 3, 4]);
}

#[test]
fn move_red_right_without_borrowing() {
    let h = node(2, Color::Red, Some(leaf(1, Color::Black)), Some(leaf(3, Color::Black)));
    let r = move_red_right(h);
    assert_eq!(r.key, 2);
    assert_eq!(r.color, Color::Black);
    assert_eq!(r.left.as_ref().unwrap().color, Color::Red);
    assert_eq!(r.right.as_ref().unwrap().color, Color::Red);
}

#[test]
fn move_red_right_borrows_from_the_left() {
    let h = node(
        3,
        Color::Red,
        Some(node(2, Color::Black, Some(leaf(1, Color::Red)), None)),
        Some(leaf(4, Color::Black)),
    );
    let r = move_red_right(h);
    assert_eq!(r.key, 2);
    assert_eq!(r.color, Color::Red);
    assert_eq!(r.size, 4);
    assert_eq!(r.left.as_ref().unwrap().key, 1);
    assert_eq!(r.left.as_ref().unwrap().color, Color::Black);
    let x = r.right.as_ref().unwrap();
    assert_eq!(x.key, 3);
    assert_eq!(x.color, Color::Black);
    assert_eq!(x.right.as_ref().unwrap().key, 4);
    assert_eq!(x.right.as_ref().unwrap().color, Color::Red);
    assert_eq!(keys_of(&Some(r)), vec![1, 2, 3, 4]);
}

#[test]
fn insert_rec_into_empty_gives_red_leaf() {
    let r = insert_rec(None, 7, 70).unwrap();
    assert_eq!(r.key, 7);
    assert_eq!(r.value, 70);
    assert_eq!(r.color, Color::Red);
    assert_eq!(r.size, 1);
    assert!(r.left.is_none() && r.right.is_none());
}

#[test]
fn insert_rec_replaces_value_of_equal_key() {
    let t = Some(node(2, Color::Black, Some(leaf(1, Color::Red)), None));
    let r = insert_rec(t, 1, 99).unwrap();
    assert_eq!(r.size, 2);
    assert_eq!(r.left.as_ref().unwrap().value, 99);
}

#[test]
fn delete_min_node_hands_back_smallest_entry() {
    let h = node(2, Color::Black, Some(leaf(1, Color::Red)), None);
    let (rest, k, v) = delete_min_node(h);
    assert_eq!((k, v), (1, 10));
    assert_eq!(keys_of(&rest), vec![2]);
    let (rest, k, v) = delete_min_node(leaf(5, Color::Red));
    assert_eq!((k, v), (5, 50));
    assert!(rest.is_none());
}

#[test]
fn delete_node_replaces_with_successor() {
    let h = node(2, Color::Red, Some(leaf(1, Color::Black)), Some(leaf(3, Color::Black)));
    let r = delete_node(h, &2);
    assert_eq!(keys_of(&r), vec![1, 3]);
    assert_eq!(get_key(&r, &3), Some(&30));
    assert!(is_size_consistent_rec(&r));
    assert!(is_bst_rec(&r, None, None));
}

#[test]
fn queries_on_a_small_subtree() {
    let t = Some(node(
        4,
        Color::Black,
        Some(node(2, Color::Red, Some(leaf(1, Color::Black)), Some(leaf(3, Color::Black)))),
        Some(leaf(6, Color::Black)),
    ));
    let root = t.as_ref().unwrap();
    assert_eq!(min_key(root), 1);
    assert_eq!(max_key(root), 6);
    assert_eq!(get_key(&t, &3), Some(&30));
    assert_eq!(get_key(&t, &5), None);
    assert_eq!(floor_node(&t, &5), Some(4));
    assert_eq!(floor_node(&t, &0), None);
    assert_eq!(ceiling_node(&t, &5), Some(6));
    assert_eq!(ceiling_node(&t, &7), None);
    assert_eq!(select_node(root, 3), 4);
    assert_eq!(rank_node(&t, &4), 3);
    assert_eq!(rank_node(&t, &5), 4);
    let mut q = vec![0];
    keys_queue(&t, &mut q, &2, &4);
    assert_eq!(q, vec![0, 2, 3, 4]);
}

#[test]
fn is_bst_rec_sees_keys_out_of_order() {
    let good = Some(node(2, Color::Black, Some(leaf(1, Color::Red)), Some(leaf(3, Color::Red))));
    assert!(is_bst_rec(&good, None, None));
    assert!(is_bst_rec(&good, Some(&0), Some(&4)));
    assert!(!is_bst_rec(&good, Some(&1), None));
    assert!(!is_bst_rec(&good, None, Some(&3)));
    let bad = Some(node(2, Color::Black, Some(leaf(3, Color::Red)), None));
    assert!(!is_bst_rec(&bad, None, None));
    let twice = Some(node(2, Color::Black, Some(leaf(2, Color::Red)), None));
    assert!(!is_bst_rec(&twice, None, None));
    let deep = Some(node(
        4,
        Color::Black,
        Some(node(2, Color::Red, None, Some(leaf(5, Color::Black)))),
        None,
    ));
    assert!(!is_bst_rec(&deep, None, None));
}

#[test]
fn is_size_consistent_rec_sees_wrong_size() {
    let good = node(2, Color::Black, Some(leaf(1, Color::Red)), None);
    assert!(is_size_consistent_rec(&Some(good)));
    let mut wrong = node(2, Color::Black, Some(leaf(1, Color::Red)), None);
    wrong.size = 3;
    assert!(!is_size_consistent_rec(&Some(wrong)));
    let mut inner = leaf(1, Color::Red);
    inner.size = i32::MAX;
    let mut outer = node(2, Color::Black, Some(inner), None);
    outer.size = i32::MIN;
    assert!(!is_size_consistent_rec(&Some(outer)));
}

#[test]
fn is23_rec_sees_red_right_and_red_red() {
    assert!(is23_rec(&Some(node(2, Color::Black, Some(leaf(1, Color::Red)), None))));
    assert!(!is23_rec(&Some(node(2, Color::Black, None, Some(leaf(3, Color::Red))))));
    assert!(!is23_rec(&Some(node(2, Color::Red, Some(leaf(1, Color::Red)), None))));
    assert!(is23_rec(&None::<Box<Node<i32, i32>>>));
}

#[test]
fn is_balanced_rec_counts_black_links() {
    let t = Some(node(2, Color::Black, Some(leaf(1, Color::Black)), Some(leaf(3, Color::Black))));
    assert_eq!(left_black_height(&t), 2);
    assert!(is_balanced_rec(&t, 2));
    assert!(!is_balanced_rec(&t, 1));
    assert!(!is_balanced_rec(&t, 3));
    let lopsided = Some(node(2, Color::Black, Some(leaf(1, Color::Black)), None));
    assert_eq!(left_black_height(&lopsided), 2);
    assert!(!is_balanced_rec(&lopsided, 2));
    let leaning = Some(node(2, Color::Black, Some(leaf(1, Color::Red)), None));
    assert_eq!(left_black_height(&leaning), 1);
    assert!(is_balanced_rec(&leaning, 1));
    assert!(is_balanced_rec(&None::<Box<Node<i32, i32>>>, 0));
    assert!(!is_balanced_rec(&None::<Box<Node<i32, i32>>>, 1));
}
