use bptree::array_impl::{ArrayBPTree, K};
use bptree::other_impl::LLBPTree;
use bptree::vec_impl::VecBPTree;

fn mixed(n: u64) -> Vec<u64> {
    let mut keys = Vec::new();
    let mut x: u64 = 42;
    for _ in 0..n {
        x = x.wrapping_mul(2862933555777941757).wrapping_add(3037000493);
        keys.push(x >> 7);
    }
    keys
}

#[test]
fn array_order_is_sixty_four() {
    assert_eq!(K, 64);
}

#[test]
fn array_ten_keys_come_back_in_order() {
    let mut tree = ArrayBPTree::new();
    for key in [5u64, 1, 9, 3, 7, 2, 8, 4, 6, 0] {
        tree.insert(key, key * 10);
    }
    assert_eq!(tree.to_vec(), vec![0, 1, 2, 3, 4, 5, 6, 7, 8, 9]);
    assert_eq!(tree.print(), vec![(0, vec![0, 1, 2, 3, 4, 5, 6, 7, 8, 9])]);
    let handle = tree.get(7).unwrap();
    assert_eq!(tree.value(handle), Some(&70));
}

#[test]
fn array_empty_tree_finds_nothing() {
    let tree = ArrayBPTree::<u32>::new();
    assert_eq!(tree.get(0), None);
    assert_eq!(tree.get(7), None);
    assert_eq!(tree.get(u64::MAX), None);
    assert_eq!(tree.to_vec(), Vec::<u64>::new());
    assert_eq!(tree.print(), vec![(0, vec![])]);
}

#[test]
fn array_sixty_fourth_key_splits_the_root() {
    let mut tree = ArrayBPTree::new();
    for key in 0..63u64 {
        tree.insert(key * 2, key);
    }
    assert_eq!(tree.print().len(), 1);
    tree.insert(31, 0);
    let lines = tree.print();
    assert_eq!(lines.len(), 3);
    assert_eq!(lines[0], (0, vec![60]));
    assert_eq!(lines[1].0, 1);
    assert_eq!(lines[1].1.len(), 64 / 2 - 1);
    assert_eq!(lines[2].0, 1);
    assert_eq!(lines[2].1.len(), 64 - 64 / 2);
    assert_eq!(lines[1].1.len() + lines[2].1.len() + 1, 64);
    assert_eq!(lines[1].1[15], 30);
    assert_eq!(lines[1].1[16], 31);
    assert_eq!(lines[1].1[30], 58);
    assert_eq!(lines[2].1[0], 62);
    assert_eq!(lines[2].1[31], 124);
}

#[test]
fn array_key_inserted_again_takes_the_new_value_in_place() {
    let mut tree = ArrayBPTree::new();
    for key in 0..200u64 {
        tree.insert(key * 3, key);
    }
    let shape = tree.print();
    let handle = tree.get(300).unwrap();
    tree.insert(300, 7);
    assert_eq!(tree.get(300), Some(handle));
    assert_eq!(tree.value(handle), Some(&7));
    assert_eq!(tree.print(), shape);
    assert_eq!(tree.to_vec().len(), 200);
}

#[test]
fn array_value_set_through_a_handle_is_seen_by_the_next_lookup() {
    let mut tree = ArrayBPTree::new();
    for key in 0..100u64 {
        tree.insert(key, format!("v{key}"));
    }
    let handle = tree.get(64).unwrap();
    assert_eq!(tree.set(handle, "changed".to_string()), Some("v64".to_string()));
    let again = tree.get(64).unwrap();
    assert_eq!(again, handle);
    assert_eq!(tree.value(again), Some(&"changed".to_string()));
    assert_eq!(tree.value(tree.get(63).unwrap()), Some(&"v63".to_string()));
}

#[test]
fn array_handle_of_no_slot_reads_and_changes_nothing() {
    let mut big = ArrayBPTree::new();
    for key in 0..5u64 {
        big.insert(key, key);
    }
    let far = big.get(4).unwrap();
    let mut small = ArrayBPTree::new();
    small.insert(9, 90u64);
    assert_eq!(small.value(far), None);
    assert_eq!(small.set(far, 1), None);
    assert_eq!(small.value(small.get(9).unwrap()), Some(&90));
}

#[test]
fn array_many_keys_round_trip() {
    let keys = mixed(20000);
    let mut tree = ArrayBPTree::new();
    for key in keys.iter() {
        tree.insert(*key, !*key);
    }
    let mut sorted = keys.clone();
    sorted.sort();
    sorted.dedup();
    assert_eq!(tree.to_vec(), sorted);
    for key in keys.iter() {
        let handle = tree.get(*key).unwrap();
        assert_eq!(tree.value(handle), Some(&!*key));
        assert_eq!(tree.get(key ^ 1).is_some(), sorted.binary_search(&(key ^ 1)).is_ok());
    }
}

#[test]
fn array_nodes_stay_sorted_balanced_and_of_the_right_fanout() {
    let mut tree = ArrayBPTree::new();
    for (count, key) in mixed(9000).into_iter().enumerate() {
        tree.insert(key, ());
        if count % 500 != 499 {
            continue;
        }
        let lines = tree.print();
        let mut leaf_depth = None;
        for (at, (depth, keys)) in lines.iter().enumerate() {
            assert!(keys.windows(2).all(|pair| pair[0] < pair[1]));
            assert!(keys.len() < K);
            let mut children = 0;
            for (below, _) in lines[at + 1..].iter() {
                if *below <= *depth {
                    break;
                }
                if *below == *depth + 1 {
                    children += 1;
                }
            }
            if children == 0 {
                assert_eq!(*leaf_depth.get_or_insert(*depth), *depth);
            } else {
                assert_eq!(children, keys.len() + 1);
            }
        }
        assert!(lines.len() > 1);
    }
}

#[test]
fn three_kinds_of_nodes_build_the_same_tree() {
    let keys = mixed(5000);
    let mut array = ArrayBPTree::new();
    let mut vec = VecBPTree::new(K).unwrap();
    let mut linked = LLBPTree::new(K).unwrap();
    for key in keys.iter() {
        array.insert(*key, *key);
        vec.insert(*key, *key);
        linked.insert(*key, *key);
    }
    assert_eq!(array.print(), vec.print());
    assert_eq!(array.print(), linked.print());
    assert_eq!(array.to_vec(), vec.to_vec());
    assert_eq!(array.to_vec(), linked.to_vec());
    for key in keys.iter() {
        assert_eq!(array.get(*key), vec.get(*key));
        assert_eq!(array.get(*key), linked.get(*key));
    }
}

#[test]
fn array_value_changed_in_place_is_seen_by_the_next_lookup() {
    let mut tree = ArrayBPTree::new();
    for key in 0..130u64 {
        tree.insert(key, vec![key]);
    }
    let handle = tree.get(77).unwrap();
    tree.value_mut(handle).unwrap().push(99);
    assert_eq!(tree.get(77), Some(handle));
    assert_eq!(tree.value(tree.get(77).unwrap()), Some(&vec![77, 99]));
    assert_eq!(tree.value(tree.get(76).unwrap()), Some(&vec![76]));
    let mut other = ArrayBPTree::new();
    other.insert(1, vec![1u64]);
    assert!(other.value_mut(handle).is_none());
}

#[test]
fn array_rising_keys_split_again_and_again() {
    let mut tree = ArrayBPTree::new();
    for key in 0..64u64 {
        tree.insert(key, ());
    }
    let lines = tree.print();
    assert_eq!(lines.len(), 3);
    assert_eq!(lines[0], (0, vec![31]));
    assert_eq!(lines[1], (1, (0..31).collect::<Vec<u64>>()));
    assert_eq!(lines[2], (1, (32..64).collect::<Vec<u64>>()));
    for key in 64..96u64 {
        tree.insert(key, ());
    }
    let lines = tree.print();
    assert_eq!(lines.len(), 4);
    assert_eq!(lines[0], (0, vec![31, 63]));
    assert_eq!(lines[1], (1, (0..31).collect::<Vec<u64>>()));
    assert_eq!(lines[2], (1, (32..63).collect::<Vec<u64>>()));
    assert_eq!(lines[3], (1, (64..96).collect::<Vec<u64>>()));
    assert_eq!(tree.to_vec(), (0..96).collect::<Vec<u64>>());
}
