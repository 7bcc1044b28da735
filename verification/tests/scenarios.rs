use llrb::RedBlackTree;

fn sample() -> RedBlackTree<i32, i32> {
    let mut t = RedBlackTree::new();
    for k in [5, 3, 8, 1, 4, 7, 9] {
        t.insert(k, k * 10);
    }
    t
}

#[test]
fn seven_keys_queries() {
    let t = sample();
    assert_eq!(t.min(), 1);
    assert_eq!(t.max(), 9);
    assert_eq!(t.rank(&7), 4);
    assert_eq!(t.select(0), 1);
    assert_eq!(t.keys(), vec![1, 3, 4, 5, 7, 8, 9]);
    assert_eq!(t.tree_size(), 7);
    assert!(t.check());
}

#[test]
fn seven_keys_then_delete_five() {
    let mut t = sample();
    t.delete(&5);
    assert!(!t.contains(&5));
    assert_eq!(t.tree_size(), 6);
    assert_eq!(t.keys(), vec![1, 3, 4, 7, 8, 9]);
    assert!(t.check());
}

#[test]
fn empty_tree_then_one_insert() {
    let mut t: RedBlackTree<i32, &str> = RedBlackTree::new();
    assert!(t.is_empty());
    assert_eq!(t.tree_size(), 0);
    assert!(t.keys().is_empty());
    assert!(t.check());
    t.insert(1, "a");
    assert!(!t.is_empty());
    assert_eq!(t.get(&1), Some(&"a"));
}

#[test]
fn insert_then_get() {
    let mut t = RedBlackTree::new();
    t.insert(42, "x");
    assert_eq!(t.get(&42), Some(&"x"));
    assert_eq!(t.get(&41), None);
    assert!(t.contains(&42));
    assert!(!t.contains(&43));
}

#[test]
fn insert_twice_replaces_value() {
    let mut t = RedBlackTree::new();
    t.insert(7, "first");
    let before = t.tree_size();
    t.insert(7, "second");
    assert_eq!(t.get(&7), Some(&"second"));
    assert_eq!(t.tree_size(), before);
    assert_eq!(t.tree_size(), 1);
}

#[test]
fn insert_then_delete() {
    let mut t = sample();
    t.insert(6, 60);
    let before = t.tree_size();
    t.delete(&6);
    assert!(!t.contains(&6));
    assert_eq!(t.tree_size(), before - 1);
    assert!(t.check());
}

#[test]
fn delete_absent_key_changes_nothing() {
    let mut t = sample();
    t.delete(&6);
    assert_eq!(t.tree_size(), 7);
    assert_eq!(t.keys(), vec![1, 3, 4, 5, 7, 8, 9]);
    for k in [5, 3, 8, 1, 4, 7, 9] {
        assert_eq!(t.get(&k), Some(&(k * 10)));
    }
    assert!(t.check());
}

#[test]
fn delete_from_empty_tree() {
    let mut t: RedBlackTree<i32, i32> = RedBlackTree::new();
    t.delete(&1);
    t.delete_min();
    assert!(t.is_empty());
    assert!(t.check());
}

#[test]
fn delete_min_takes_smallest() {
    let mut t = sample();
    t.delete_min();
    assert_eq!(t.keys(), vec![3, 4, 5, 7, 8, 9]);
    assert_eq!(t.min(), 3);
    assert!(t.check());
    t.delete_min();
    t.delete_min();
    assert_eq!(t.keys(), vec![5, 7, 8, 9]);
    assert!(t.check());
}

#[test]
fn delete_min_until_empty() {
    let mut t = sample();
    let mut left = 7;
    while !t.is_empty() {
        t.delete_min();
        left -= 1;
        assert_eq!(t.tree_size(), left);
        assert!(t.check());
    }
    assert_eq!(left, 0);
}

#[test]
fn delete_root_with_only_left_child() {
    let mut t = RedBlackTree::new();
    t.insert(2, "two");
    t.insert(1, "one");
    t.delete(&2);
    assert_eq!(t.keys(), vec![1]);
    assert_eq!(t.get(&1), Some(&"one"));
    assert!(t.check());
}

#[test]
fn delete_every_key_in_turn() {
    for victim in [5, 3, 8, 1, 4, 7, 9] {
        let mut t = sample();
        t.delete(&victim);
        let all = [1, 3, 4, 5, 7, 8, 9];
        let expected: Vec<i32> = all.into_iter().filter(|k| *k != victim).collect();
        assert_eq!(t.keys(), expected);
        assert!(t.check());
    }
}

#[test]
fn string_slices_as_keys() {
    let mut t = RedBlackTree::new();
    t.insert("pear", 1);
    t.insert("apple", 2);
    t.insert("fig", 3);
    assert_eq!(t.keys(), vec!["apple", "fig", "pear"]);
    assert_eq!(t.min(), "apple");
    assert_eq!(t.rank(&"pear"), 2);
}

#[test]
fn owned_strings_as_keys() {
    let mut t = RedBlackTree::new();
    for word in ["delta", "alpha", "charlie", "bravo", "echo"] {
        t.insert(word.to_string(), word.len());
    }
    assert_eq!(t.keys(), vec!["alpha", "bravo", "charlie", "delta", "echo"]);
    assert_eq!(t.min(), "alpha");
    assert_eq!(t.max(), "echo");
    assert_eq!(t.select(2), "charlie");
    assert_eq!(t.rank(&"charlie".to_string()), 2);
    assert_eq!(t.floor(&"cat".to_string()), "bravo");
    assert_eq!(t.Ceiling(&"cat".to_string()), "charlie");
    assert_eq!(t.get(&"delta".to_string()), Some(&5));
    t.delete(&"charlie".to_string());
    assert_eq!(t.keys(), vec!["alpha", "bravo", "delta", "echo"]);
    assert!(t.check());
}
