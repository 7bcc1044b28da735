use llrb::RedBlackTree;

fn sample() -> RedBlackTree<i32, ()> {
    let mut t = RedBlackTree::new();
    for k in [50, 30, 80, 10, 40, 70, 90, 20, 60] {
        t.insert(k, ());
    }
    t
}

#[test]
fn keys_come_out_ascending() {
    let mut t = RedBlackTree::new();
    for k in [9, 2, 7, 4, 5, 6, 3, 8, 1, 0] {
        t.insert(k, k);
    }
    let keys = t.keys();
    assert_eq!(keys, vec![0, 1, 2, 3, 4, 5, 6, 7, 8, 9]);
    for w in keys.windows(2) {
        assert!(w[0] < w[1]);
    }
}

#[test]
fn rank_of_select_is_position() {
    let t = sample();
    for i in 0..t.tree_size() {
        assert_eq!(t.rank(&t.select(i)), i);
    }
}

#[test]
fn select_of_rank_is_key() {
    let t = sample();
    for k in t.keys() {
        assert_eq!(t.select(t.rank(&k)), k);
    }
}

#[test]
fn rank_counts_smaller_keys() {
    let t = sample();
    assert_eq!(t.rank(&5), 0);
    assert_eq!(t.rank(&10), 0);
    assert_eq!(t.rank(&11), 1);
    assert_eq!(t.rank(&50), 4);
    assert_eq!(t.rank(&55), 5);
    assert_eq!(t.rank(&90), 8);
    assert_eq!(t.rank(&100), 9);
}

#[test]
fn select_every_position() {
    let t = sample();
    let expected = [10, 20, 30, 40, 50, 60, 70, 80, 90];
    for (i, k) in expected.iter().enumerate() {
        assert_eq!(t.select(i as i32), *k);
    }
}

#[test]
fn floor_is_largest_key_not_above() {
    let t = sample();
    assert_eq!(t.floor(&10), 10);
    assert_eq!(t.floor(&15), 10);
    assert_eq!(t.floor(&50), 50);
    assert_eq!(t.floor(&59), 50);
    assert_eq!(t.floor(&61), 60);
    assert_eq!(t.floor(&1000), 90);
}

#[test]
fn ceiling_is_smallest_key_not_below() {
    let t = sample();
    assert_eq!(t.Ceiling(&1), 10);
    assert_eq!(t.Ceiling(&10), 10);
    assert_eq!(t.Ceiling(&11), 20);
    assert_eq!(t.Ceiling(&50), 50);
    assert_eq!(t.Ceiling(&51), 60);
    assert_eq!(t.Ceiling(&90), 90);
}

#[test]
fn keys_range_is_closed_interval() {
    let t = sample();
    assert_eq!(t.keys_range(30, 70), vec![30, 40, 50, 60, 70]);
    assert_eq!(t.keys_range(31, 69), vec![40, 50, 60]);
    assert_eq!(t.keys_range(0, 5), Vec::<i32>::new());
    assert_eq!(t.keys_range(95, 200), Vec::<i32>::new());
    assert_eq!(t.keys_range(70, 30), Vec::<i32>::new());
    assert_eq!(t.keys_range(50, 50), vec![50]);
    assert_eq!(t.keys_range(0, 100), t.keys());
}

#[test]
fn size_in_range_counts_keys() {
    let t = sample();
    assert_eq!(t.size_size(&30, &70), 5);
    assert_eq!(t.size_size(&31, &69), 3);
    assert_eq!(t.size_size(&30, &65), 4);
    assert_eq!(t.size_size(&70, &30), 0);
    assert_eq!(t.size_size(&0, &5), 0);
    assert_eq!(t.size_size(&50, &50), 1);
    assert_eq!(t.size_size(&51, &51), 0);
    assert_eq!(t.size_size(&0, &100), 9);
}

#[test]
fn size_in_range_agrees_with_keys_range() {
    let t = sample();
    for lo in (0..100).step_by(5) {
        for hi in (0..100).step_by(5) {
            assert_eq!(t.size_size(&lo, &hi) as usize, t.keys_range(lo, hi).len());
        }
    }
}

#[test]
fn min_and_max_of_single_entry() {
    let mut t = RedBlackTree::new();
    t.insert(3, 'c');
    assert_eq!(t.min(), 3);
    assert_eq!(t.max(), 3);
    assert_eq!(t.select(0), 3);
    assert_eq!(t.rank(&3), 0);
}
