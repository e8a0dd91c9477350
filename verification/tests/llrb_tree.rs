use std::collections::BTreeMap;

use json_joy::llrb::LlrbTree;
use json_joy::sorted_map::{Reverse, SortedKey};

fn assert_llrb_tree<K: SortedKey<C>, V, C>(tree: &LlrbTree<K, V, C>) {
    tree.assert_valid().unwrap();
}

#[test]
fn llrb_put_smoke_matrix() {
    let mut tree = LlrbTree::<i32, &str>::new();
    assert_eq!(tree.root_index(), None);

    tree.set(1, "a");

    let root = tree.root_index().unwrap();
    assert_eq!(*tree.key(root), 1);
    assert_eq!(*tree.value(root), "a");
    assert_eq!(tree.get(&1), Some(&"a"));
    assert_llrb_tree(&tree);
}

#[test]
fn llrb_put_specific_numbers_matrix() {
    let mut tree = LlrbTree::<i32, i32>::new();
    let nums = [88, 13, 30, 18, 35, 98, 51, 76, 96, 72, 94, 59, 92];

    for num in nums {
        tree.set(num, num);
        assert_llrb_tree(&tree);
    }
    assert_eq!(tree.size(), nums.len());

    for num in nums {
        tree.set(num, num);
        assert_llrb_tree(&tree);
    }
    assert_eq!(tree.size(), nums.len());

    for num in nums {
        assert_eq!(tree.get(&num), Some(&num));
    }
}

#[test]
fn llrb_del_matrix() {
    let mut tree = LlrbTree::<i32, i32>::new();
    let nums = [5, 3, 7, 1, 4, 6, 9, 2, 8];

    for num in nums {
        tree.set(num, num);
        assert_llrb_tree(&tree);
    }
    assert_eq!(tree.size(), nums.len());

    for num in nums {
        assert!(tree.del(&num));
        assert_eq!(tree.get(&num), None);
        assert_llrb_tree(&tree);
    }

    assert_eq!(tree.size(), 0);
    assert_eq!(tree.root_index(), None);
    assert!(!tree.del(&111));
}

#[test]
fn llrb_min_max_deletion_matrix() {
    let mut tree = LlrbTree::<i32, i32>::new();
    let nums = [5, 3, 7, 1, 4, 6, 9];
    for num in nums {
        tree.set(num, num);
    }

    assert_eq!(tree.min_index().map(|i| *tree.key(i)), Some(1));
    assert_eq!(tree.max_index().map(|i| *tree.key(i)), Some(9));

    tree.del(&1);
    assert_llrb_tree(&tree);
    assert_eq!(tree.min_index().map(|i| *tree.key(i)), Some(3));
    assert_eq!(tree.max_index().map(|i| *tree.key(i)), Some(9));

    tree.del(&9);
    assert_llrb_tree(&tree);
    assert_eq!(tree.min_index().map(|i| *tree.key(i)), Some(3));
    assert_eq!(tree.max_index().map(|i| *tree.key(i)), Some(7));
}

#[test]
fn llrb_fuzzing_matrix() {
    let mut seed: u64 = 0xdecafbad_u64;
    let next_rand = |seed: &mut u64| {
        *seed = seed.wrapping_mul(6364136223846793005).wrapping_add(1);
        *seed
    };

    for _instance in 0..20 {
        let mut tree = LlrbTree::<i32, i32>::new();
        let mut shadow = BTreeMap::<i32, i32>::new();

        for op in 0..400 {
            let key = ((next_rand(&mut seed) % 100) + 1) as i32;
            let roll = (next_rand(&mut seed) % 100) as i32;

            if roll < 60 {
                let value = key * 2;
                tree.set(key, value);
                shadow.insert(key, value);
                if op % 10 == 0 {
                    assert_llrb_tree(&tree);
                }
            } else if roll < 90 {
                let deleted = tree.del(&key);
                let shadow_deleted = shadow.remove(&key).is_some();
                assert_eq!(deleted, shadow_deleted);
                if tree.root_index().is_some() {
                    assert_llrb_tree(&tree);
                }
            } else {
                assert_eq!(tree.get(&key), shadow.get(&key));
            }

            if op % 50 == 0 {
                assert_eq!(tree.size(), shadow.len());

                for (k, v) in &shadow {
                    assert_eq!(tree.get(k), Some(v));
                }

                let mut tree_size = 0;
                let mut curr = tree.min_index();
                while let Some(i) = curr {
                    assert_eq!(shadow.get(tree.key(i)), Some(tree.value(i)));
                    tree_size += 1;
                    curr = tree.next(i);
                }
                assert_eq!(tree_size, shadow.len());
            }
        }

        assert_eq!(tree.size(), shadow.len());
        if tree.root_index().is_some() {
            assert_llrb_tree(&tree);
        }

        for (k, v) in &shadow {
            assert_eq!(tree.get(k), Some(v));
        }
    }
}

#[test]
fn llrb_in_order_walk_and_handles() {
    let mut tree = LlrbTree::<u64, u64>::new();
    let mut handles = Vec::new();
    for k in [40u64, 10, 30, 20, 50] {
        handles.push((k, tree.set(k, k * 10)));
    }
    let mut keys = Vec::new();
    let mut curr = tree.first();
    while let Some(i) = curr {
        keys.push(*tree.key(i));
        curr = tree.next(i);
    }
    assert_eq!(keys, vec![10, 20, 30, 40, 50]);
    assert_eq!(tree.last().map(|i| *tree.key(i)), Some(50));
    // A handle keeps naming its entry after other inserts and deletes.
    assert!(tree.del(&30));
    for (k, h) in &handles {
        if *k != 30 {
            assert_eq!(*tree.key(*h), *k);
            assert_eq!(tree.get(k), Some(&(k * 10)));
        }
    }
    *tree.value_mut_by_index(handles[0].1) = 7;
    assert_eq!(tree.get(&40), Some(&7));
    assert!(tree.has(&10));
    assert!(!tree.has(&30));
    assert_eq!(tree.arena().len(), 5);
}

#[test]
fn llrb_clear_keeps_recorded_size() {
    let mut tree = LlrbTree::<i32, i32>::new();
    tree.set(1, 1);
    tree.set(2, 2);
    tree.clear();
    assert!(tree.is_empty());
    assert_eq!(tree.get(&1), None);
    assert_eq!(tree.size(), 2);
    tree.set(3, 3);
    assert_eq!(tree.size(), 1);
    assert_eq!(tree.get(&3), Some(&3));
}

#[test]
fn llrb_custom_comparator_matrix() {
    let mut tree = LlrbTree::<i32, i32, Reverse>::with_comparator(Reverse);
    tree.set(1, 10);
    tree.set(3, 30);
    tree.set(2, 20);

    let mut keys = Vec::new();
    let mut curr = tree.first();
    while let Some(i) = curr {
        keys.push(*tree.key(i));
        curr = tree.next(i);
    }

    assert_eq!(keys, vec![3, 2, 1]);
    assert_llrb_tree(&tree);
}

#[test]
fn llrb_pair_keys_in_lexicographic_order() {
    let mut tree = LlrbTree::<(i32, u8), &str>::new();
    tree.set((2, 1), "c");
    tree.set((1, 9), "b");
    tree.set((1, 2), "a");
    tree.set((2, 1), "C");
    let mut keys = Vec::new();
    let mut curr = tree.first();
    while let Some(i) = curr {
        keys.push(*tree.key(i));
        curr = tree.next(i);
    }
    assert_eq!(keys, vec![(1, 2), (1, 9), (2, 1)]);
    assert_eq!(tree.get(&(2, 1)), Some(&"C"));
    assert_eq!(tree.size(), 3);
    assert_llrb_tree(&tree);
}
