use bptree::util::ConfigError;
use bptree::other_impl::LLBPTree;

fn shuffled(n: u64) -> Vec<u64> {
    let mut keys = Vec::new();
    let mut x: u64 = 987654321;
    for _ in 0..n {
        x = x.wrapping_mul(6364136223846793005).wrapping_add(1442695040888963407);
        keys.push(x >> 11);
    }
    keys
}

#[test]
fn linked_ten_keys_come_back_in_order() {
    let mut tree = LLBPTree::new(4).unwrap();
    for key in [5u64, 1, 9, 3, 7, 2, 8, 4, 6, 0] {
        tree.insert(key, key * 10);
    }
    assert_eq!(tree.to_vec(), vec![0, 1, 2, 3, 4, 5, 6, 7, 8, 9]);
    let handle = tree.get(7).unwrap();
    assert_eq!(tree.value(handle), Some(&70));
}

#[test]
fn linked_ten_keys_make_this_tree() {
    let mut tree = LLBPTree::new(4).unwrap();
    for key in [5u64, 1, 9, 3, 7, 2, 8, 4, 6, 0] {
        tree.insert(key, ());
    }
    assert_eq!(
        tree.print(),
        vec![(0, vec![3, 7]), (1, vec![0, 1, 2]), (1, vec![4, 5, 6]), (1, vec![8, 9])]
    );
}

#[test]
fn linked_third_key_splits_the_root_of_order_three() {
    let mut tree = LLBPTree::new(3).unwrap();
    tree.insert(10, 'a');
    tree.insert(20, 'b');
    assert_eq!(tree.print(), vec![(0, vec![10, 20])]);
    tree.insert(30, 'c');
    assert_eq!(tree.print(), vec![(0, vec![10]), (1, vec![]), (1, vec![20, 30])]);
    assert_eq!(tree.to_vec(), vec![10, 20, 30]);
}

#[test]
fn linked_split_of_order_five_leaves_one_and_three() {
    let mut tree = LLBPTree::new(5).unwrap();
    for key in [50u64, 10, 40, 20] {
        tree.insert(key, key);
    }
    assert_eq!(tree.print(), vec![(0, vec![10, 20, 40, 50])]);
    tree.insert(30, 30);
    assert_eq!(tree.print(), vec![(0, vec![20]), (1, vec![10]), (1, vec![30, 40, 50])]);
}

#[test]
fn linked_empty_tree_finds_nothing() {
    let tree = LLBPTree::<u32>::new(4).unwrap();
    assert_eq!(tree.get(0), None);
    assert_eq!(tree.get(7), None);
    assert_eq!(tree.get(u64::MAX), None);
    assert_eq!(tree.to_vec(), Vec::<u64>::new());
    assert_eq!(tree.print(), vec![(0, vec![])]);
}

#[test]
fn linked_order_below_three_is_refused() {
    assert_eq!(LLBPTree::<u8>::new(0).err(), Some(ConfigError::OrderTooSmall));
    assert_eq!(LLBPTree::<u8>::new(1).err(), Some(ConfigError::OrderTooSmall));
    assert_eq!(LLBPTree::<u8>::new(2).err(), Some(ConfigError::OrderTooSmall));
    assert!(LLBPTree::<u8>::new(3).is_ok());
    assert!(LLBPTree::<u8>::new(usize::MAX).is_ok());
}

#[test]
fn linked_key_inserted_again_takes_the_new_value_in_place() {
    let mut tree = LLBPTree::new(3).unwrap();
    for key in [4u64, 2, 6, 1, 3, 5, 7] {
        tree.insert(key, key * 100);
    }
    let shape = tree.print();
    let handle = tree.get(6).unwrap();
    tree.insert(6, 1);
    assert_eq!(tree.get(6), Some(handle));
    assert_eq!(tree.value(handle), Some(&1));
    assert_eq!(tree.print(), shape);
    assert_eq!(tree.to_vec(), vec![1, 2, 3, 4, 5, 6, 7]);
    assert_eq!(tree.value(tree.get(5).unwrap()), Some(&500));
}

#[test]
fn linked_value_set_through_a_handle_is_seen_by_the_next_lookup() {
    let mut tree = LLBPTree::new(4).unwrap();
    for key in 0..20u64 {
        tree.insert(key, format!("v{key}"));
    }
    let handle = tree.get(13).unwrap();
    assert_eq!(tree.set(handle, "changed".to_string()), Some("v13".to_string()));
    let again = tree.get(13).unwrap();
    assert_eq!(again, handle);
    assert_eq!(tree.value(again), Some(&"changed".to_string()));
    assert_eq!(tree.value(tree.get(12).unwrap()), Some(&"v12".to_string()));
    assert_eq!(tree.value(tree.get(14).unwrap()), Some(&"v14".to_string()));
}

#[test]
fn linked_handle_of_no_slot_reads_and_changes_nothing() {
    let mut big = LLBPTree::new(3).unwrap();
    for key in 0..5u64 {
        big.insert(key, key);
    }
    let far = big.get(4).unwrap();
    let mut small = LLBPTree::new(3).unwrap();
    small.insert(9, 90u64);
    assert_eq!(small.value(far), None);
    assert_eq!(small.set(far, 1), None);
    assert_eq!(small.value(small.get(9).unwrap()), Some(&90));
}

#[test]
fn linked_handles_are_slots_in_order_of_first_insertion() {
    let mut tree = LLBPTree::new(3).unwrap();
    tree.insert(30, 'a');
    tree.insert(10, 'b');
    tree.insert(30, 'c');
    tree.insert(20, 'd');
    assert_eq!(tree.get(30).unwrap().slot(), 0);
    assert_eq!(tree.get(10).unwrap().slot(), 1);
    assert_eq!(tree.get(20).unwrap().slot(), 2);
    assert_eq!(tree.value(tree.get(30).unwrap()), Some(&'c'));
}

#[test]
fn linked_many_keys_round_trip() {
    for order in [3usize, 4, 5, 8, 128] {
        let keys = shuffled(1500);
        let mut tree = LLBPTree::new(order).unwrap();
        for key in keys.iter() {
            tree.insert(*key, !*key);
        }
        let mut sorted = keys.clone();
        sorted.sort();
        sorted.dedup();
        assert_eq!(tree.to_vec(), sorted);
        for key in keys.iter() {
            let handle = tree.get(*key).unwrap();
            assert_eq!(tree.value(handle), Some(&!*key));
            assert_eq!(tree.get(key ^ 1).is_some(), sorted.binary_search(&(key ^ 1)).is_ok());
        }
    }
}

#[test]
fn linked_nodes_stay_sorted_balanced_and_of_the_right_fanout() {
    for order in [3usize, 4, 7] {
        let mut tree = LLBPTree::new(order).unwrap();
        for key in shuffled(500) {
            tree.insert(key, ());
            let lines = tree.print();
            let mut leaf_depth = None;
            for (at, (depth, keys)) in lines.iter().enumerate() {
                assert!(keys.windows(2).all(|pair| pair[0] < pair[1]));
                assert!(keys.len() < order);
                let mut children = 0;
                for (below, _) in lines[at + 1..].iter() {
                    if *below <= *depth {
                        break;
                    }
                    if *below == *depth + 1 {
                        children += 1;
                    }
                }
                if children == 0 {
                    assert_eq!(*leaf_depth.get_or_insert(*depth), *depth);
                } else {
                    assert_eq!(children, keys.len() + 1);
                }
            }
        }
    }
}

#[test]
fn linked_keys_in_rising_and_falling_order() {
    let mut up = LLBPTree::new(3).unwrap();
    let mut down = LLBPTree::new(3).unwrap();
    for key in 0..200u64 {
        up.insert(key, key);
        down.insert(199 - key, key);
    }
    let all: Vec<u64> = (0..200).collect();
    assert_eq!(up.to_vec(), all);
    assert_eq!(down.to_vec(), all);
    assert_eq!(up.value(up.get(0).unwrap()), Some(&0));
    assert_eq!(down.value(down.get(0).unwrap()), Some(&199));
    assert_eq!(up.get(200), None);
}

#[test]
fn linked_largest_and_smallest_key() {
    let mut tree = LLBPTree::new(3).unwrap();
    for key in [u64::MAX, 0, u64::MAX - 1, 1, u64::MAX / 2] {
        tree.insert(key, key);
    }
    assert_eq!(tree.to_vec(), vec![0, 1, u64::MAX / 2, u64::MAX - 1, u64::MAX]);
    assert_eq!(tree.value(tree.get(u64::MAX).unwrap()), Some(&u64::MAX));
    assert_eq!(tree.value(tree.get(0).unwrap()), Some(&0));
}

#[test]
fn linked_value_changed_in_place_is_seen_by_the_next_lookup() {
    let mut tree = LLBPTree::new(3).unwrap();
    for key in 0..10u64 {
        tree.insert(key, vec![key]);
    }
    let handle = tree.get(4).unwrap();
    tree.value_mut(handle).unwrap().push(99);
    assert_eq!(tree.get(4), Some(handle));
    assert_eq!(tree.value(tree.get(4).unwrap()), Some(&vec![4, 99]));
    assert_eq!(tree.value(tree.get(3).unwrap()), Some(&vec![3]));
    assert_eq!(tree.value(tree.get(5).unwrap()), Some(&vec![5]));
    let mut other = LLBPTree::new(3).unwrap();
    other.insert(1, vec![1u64]);
    assert!(other.value_mut(handle).is_none());
    assert_eq!(other.value(other.get(1).unwrap()), Some(&vec![1]));
}

#[test]
fn linked_rising_keys_of_order_three_make_this_tree() {
    let mut tree = LLBPTree::new(3).unwrap();
    for key in 1..=5u64 {
        tree.insert(key, ());
    }
    assert_eq!(
        tree.print(),
        vec![
            (0, vec![1]),
            (1, vec![]),
            (2, vec![]),
            (1, vec![2, 3]),
            (2, vec![]),
            (2, vec![]),
            (2, vec![4, 5]),
        ]
    );
    tree.insert(6, ());
    tree.insert(7, ());
    assert_eq!(
        tree.print(),
        vec![
            (0, vec![1]),
            (1, vec![]),
            (2, vec![]),
            (3, vec![]),
            (1, vec![2, 3]),
            (2, vec![]),
            (3, vec![]),
            (2, vec![]),
            (3, vec![]),
            (2, vec![4, 5]),
            (3, vec![]),
            (3, vec![]),
            (3, vec![6, 7]),
        ]
    );
    assert_eq!(tree.to_vec(), vec![1, 2, 3, 4, 5, 6, 7]);
}
