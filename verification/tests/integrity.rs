use llrb::{Color, RedBlackTree};

fn next(state: &mut u64) -> u64 {
    *state = state.wrapping_mul(6364136223846793005).wrapping_add(1442695040888963407);
    *state >> 33
}

#[test]
fn ascending_inserts_stay_intact() {
    let mut t = RedBlackTree::new();
    for k in 0..200 {
        t.insert(k, k);
        assert!(t.check());
        assert_eq!(t.tree_size(), k + 1);
    }
    assert_eq!(t.keys(), (0..200).collect::<Vec<i32>>());
}

#[test]
fn descending_inserts_stay_intact() {
    let mut t = RedBlackTree::new();
    for k in (0..200).rev() {
        t.insert(k, k);
        assert!(t.check());
    }
    assert_eq!(t.keys(), (0..200).collect::<Vec<i32>>());
}

#[test]
fn each_integrity_check_passes() {
    let mut t = RedBlackTree::new();
    for k in [5, 3, 8, 1, 4, 7, 9] {
        t.insert(k, ());
    }
    assert!(t.is_bst());
    assert!(t.is_size_consistent());
    assert!(t.is_rank_consistent());
    assert!(t.is23());
    assert!(t.is_balanced());
    assert!(t.check());
}

#[test]
fn mixed_inserts_and_deletes_agree_with_a_sorted_list() {
    let mut t = RedBlackTree::new();
    let mut model: Vec<(u64, u64)> = Vec::new();
    let mut state = 12345u64;
    for step in 0..3000 {
        let key = next(&mut state) % 64;
        let what = next(&mut state) % 4;
        if what == 0 {
            t.delete(&key);
            model.retain(|e| e.0 != key);
        } else if what == 1 && step % 7 == 0 {
            t.delete_min();
            if !model.is_empty() {
                model.remove(0);
            }
        } else {
            let value = next(&mut state);
            t.insert(key, value);
            match model.binary_search_by(|e| e.0.cmp(&key)) {
                Ok(i) => model[i].1 = value,
                Err(i) => model.insert(i, (key, value)),
            }
        }
        assert!(t.check());
        assert_eq!(t.tree_size() as usize, model.len());
        assert_eq!(t.keys(), model.iter().map(|e| e.0).collect::<Vec<u64>>());
        for e in &model {
            assert_eq!(t.get(&e.0), Some(&e.1));
        }
    }
}

#[test]
fn long_run_of_inserts_and_deletes_stays_intact() {
    let mut t = RedBlackTree::new();
    let mut present = vec![false; 1000];
    let mut count = 0;
    let mut state = 987654321u64;
    for step in 0..20000 {
        let key = (next(&mut state) % 1000) as usize;
        if next(&mut state) % 3 == 0 {
            t.delete(&key);
            if present[key] {
                present[key] = false;
                count -= 1;
            }
        } else {
            t.insert(key, step);
            if !present[key] {
                present[key] = true;
                count += 1;
            }
        }
        assert_eq!(t.tree_size(), count);
        assert_eq!(t.contains(&key), present[key]);
        if step % 250 == 0 {
            assert!(t.check());
            let expected: Vec<usize> = (0..1000).filter(|k| present[*k]).collect();
            assert_eq!(t.keys(), expected);
        }
    }
    assert!(t.check());
}

#[test]
fn deleting_all_keys_in_scrambled_order() {
    let mut t = RedBlackTree::new();
    let n = 257u64;
    for i in 0..n {
        t.insert((i * 101) % n, i);
    }
    assert!(t.check());
    assert_eq!(t.tree_size() as u64, n);
    for i in 0..n {
        let key = (i * 37) % n;
        assert!(t.contains(&key));
        t.delete(&key);
        assert!(!t.contains(&key));
        assert!(t.check());
        assert_eq!(t.tree_size() as u64, n - 1 - i);
    }
    assert!(t.is_empty());
}

#[test]
fn colors_flip() {
    assert_eq!(Color::Red.flip_color(), Color::Black);
    assert_eq!(Color::Black.flip_color(), Color::Red);
    assert!(Color::Red.is_red());
    assert!(!Color::Black.is_red());
}
