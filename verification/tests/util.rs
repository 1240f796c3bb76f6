use bptree::linked::List;
use bptree::util::{array_insert, ptr};

fn listed<T: Clone>(list: &List<T>) -> Vec<T> {
    let mut items = Vec::new();
    let mut at = list.first();
    while let Some(cell) = at {
        items.push(cell.item().clone());
        at = cell.next();
    }
    items
}

#[test]
fn ptr_names_the_next_free_slot() {
    let mut store = vec!['a', 'b'];
    let third = ptr(&mut store, 'c');
    assert_eq!(third.slot(), 2);
    assert_eq!(store, vec!['a', 'b', 'c']);
    let fourth = ptr(&mut store, 'd');
    assert_eq!(fourth.slot(), 3);
    assert_eq!(store, vec!['a', 'b', 'c', 'd']);
    assert_ne!(third, fourth);
}

#[test]
fn ptr_into_an_empty_store() {
    let mut store: Vec<u8> = Vec::new();
    assert_eq!(ptr(&mut store, 9).slot(), 0);
    assert_eq!(store, vec![9]);
}

#[test]
fn array_insert_shifts_the_tail_one_place_on() {
    let mut array = [10, 20, 30, 40, 0, 0];
    array_insert(&mut array, 1, 15, 4);
    assert_eq!(array, [10, 15, 20, 30, 40, 0]);
    array_insert(&mut array, 0, 5, 5);
    assert_eq!(array, [5, 10, 15, 20, 30, 40]);
}

#[test]
fn array_insert_at_the_end_of_what_is_in_use() {
    let mut array = [10, 20, 30, 77, 88];
    array_insert(&mut array, 3, 40, 3);
    assert_eq!(array, [10, 20, 30, 40, 88]);
}

#[test]
fn array_insert_beyond_what_is_in_use_lands_at_its_end() {
    let mut array = [10, 20, 77, 88, 99];
    array_insert(&mut array, 4, 30, 2);
    assert_eq!(array, [10, 20, 30, 88, 99]);
}

#[test]
fn array_insert_drops_the_last_place_of_the_array() {
    let mut array = ["a".to_string(), "b".to_string(), "c".to_string()];
    array_insert(&mut array, 1, "x".to_string(), 2);
    assert_eq!(array, ["a".to_string(), "x".to_string(), "b".to_string()]);
}

#[test]
fn array_insert_into_an_empty_prefix() {
    let mut array = [0u8; 3];
    array_insert(&mut array, 0, 7, 0);
    assert_eq!(array, [7, 0, 0]);
}

#[test]
fn list_insert_and_get() {
    let mut list = List::new();
    assert!(list.has_len(0));
    assert!(list.first().is_none());
    list.insert(0, 'b');
    list.insert(0, 'a');
    list.insert(2, 'd');
    list.insert(2, 'c');
    assert_eq!(listed(&list), vec!['a', 'b', 'c', 'd']);
    assert_eq!(*list.get(0), 'a');
    assert_eq!(*list.get(2), 'c');
    assert_eq!(*list.get(3), 'd');
    assert!(list.has_len(4));
    assert!(!list.has_len(3));
    assert!(!list.has_len(5));
}

#[test]
fn list_get_mut_changes_one_item() {
    let mut list = List::new();
    for (at, item) in [1, 2, 3, 4, 5].into_iter().enumerate() {
        list.insert(at, item);
    }
    *list.get_mut(2) = 30;
    *list.get_mut(0) += 10;
    *list.get_mut(4) -= 5;
    assert_eq!(listed(&list), vec![11, 2, 30, 4, 0]);
}

#[test]
fn list_pop_front_takes_items_in_order() {
    let mut list = List::new();
    for (at, item) in [2, 4].into_iter().enumerate() {
        list.insert(at, item);
    }
    assert_eq!(list.pop_front(), Some(2));
    assert_eq!(listed(&list), vec![4]);
    assert_eq!(list.pop_front(), Some(4));
    assert_eq!(list.pop_front(), None);
    assert!(list.has_len(0));
}

#[test]
fn list_split_off_cuts_at_the_place() {
    let mut list = List::new();
    for (at, item) in [1, 2, 3, 4, 5].into_iter().enumerate() {
        list.insert(at, item);
    }
    let rest = list.split_off(2);
    assert_eq!(listed(&list), vec![1, 2]);
    assert_eq!(listed(&rest), vec![3, 4, 5]);
    let mut rest = rest;
    let none = rest.split_off(3);
    assert_eq!(listed(&rest), vec![3, 4, 5]);
    assert!(none.has_len(0));
    let all = rest.split_off(0);
    assert!(rest.has_len(0));
    assert_eq!(listed(&all), vec![3, 4, 5]);
}
