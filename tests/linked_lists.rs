use linked_lists::{DynamicLinkedList, StaticLinkedList, MAX_SIZE};

fn contents(list: &StaticLinkedList<i32>) -> Vec<i32> {
    let mut out = Vec::new();
    let mut i: usize = 0;
    while let Some(v) = list.get(i) {
        out.push(v);
        i += 1;
    }
    out
}

#[test]
fn test_dynamic_linked_list_operations() {
    let mut list = DynamicLinkedList::new() as DynamicLinkedList<i32>;

    list.insert(10);
    list.insert(20);
    list.insert(30);
}

#[test]
fn test_static_linked_list() {
    let mut list = StaticLinkedList::<i32>::new();

    list.insert(10);
    list.insert(20);
    list.insert(30);

    let mut current = list.head_index();
    assert!(current.is_some());
    let first_idx = current.unwrap();
    assert_eq!(list.node_data(first_idx), Some(10));

    current = list.node_next(first_idx);
    assert!(current.is_some());
    let second_idx = current.unwrap();
    assert_eq!(list.node_data(second_idx), Some(20));

    current = list.node_next(second_idx);
    assert!(current.is_some());
    let third_idx = current.unwrap();
    assert_eq!(list.node_data(third_idx), Some(30));

    current = list.node_next(third_idx);
    assert!(current.is_none());

    assert!(list.delete_at_index(1));

    current = list.head_index();
    assert!(current.is_some());
    let first_idx = current.unwrap();
    assert_eq!(list.node_data(first_idx), Some(10));

    current = list.node_next(first_idx);
    assert!(current.is_some());
    let second_idx = current.unwrap();
    assert_eq!(list.node_data(second_idx), Some(30));

    current = list.node_next(second_idx);
    assert!(current.is_none());

    assert!(list.update_element_at_index(1, 99));
    assert_eq!(list.node_data(second_idx), Some(99));

    assert_eq!(list.get(0), Some(10));
    assert_eq!(list.get(1), Some(99));
    assert_eq!(list.get(2), None);

    assert!(list.find(10));
    assert!(list.find(99));
    assert!(!list.find(20));
}

#[test]
fn static_new_is_empty_and_takes_top_slot_first() {
    let mut list = StaticLinkedList::<i32>::new();
    assert_eq!(list.head_index(), None);
    assert_eq!(list.get(0), None);
    for i in 0..MAX_SIZE {
        assert_eq!(list.node_data(i), None);
        assert_eq!(list.node_next(i), None);
    }
    list.insert(1);
    assert_eq!(list.head_index(), Some(MAX_SIZE - 1));
    list.insert(2);
    assert_eq!(list.node_next(MAX_SIZE - 1), Some(MAX_SIZE - 2));
}

#[test]
fn static_slots_hold_data_exactly_when_reachable() {
    let mut list = StaticLinkedList::<i32>::new();
    for v in 0..10 {
        list.insert(v);
    }
    assert!(list.delete_at_index(3));
    assert!(list.delete_element(7));
    list.insert_at_index(2, 42);
    let mut reachable = vec![false; MAX_SIZE];
    let mut current = list.head_index();
    let mut steps = 0;
    while let Some(i) = current {
        assert!(!reachable[i]);
        reachable[i] = true;
        current = list.node_next(i);
        steps += 1;
        assert!(steps <= MAX_SIZE);
    }
    assert_eq!(steps, 9);
    for i in 0..MAX_SIZE {
        assert_eq!(list.node_data(i).is_some(), reachable[i]);
    }
}

#[test]
fn static_delete_element_twice() {
    let mut list = StaticLinkedList::<i32>::new();
    list.insert(1);
    list.insert(2);
    list.insert(3);
    assert!(list.delete_element(2));
    assert_eq!(contents(&list), vec![1, 3]);
    assert!(!list.delete_element(2));
    assert_eq!(contents(&list), vec![1, 3]);
}

#[test]
fn static_delete_element_removes_first_of_equal_values() {
    let mut list = StaticLinkedList::<i32>::new();
    list.insert(5);
    list.insert(6);
    list.insert(5);
    assert!(list.delete_element(5));
    assert_eq!(contents(&list), vec![6, 5]);
    assert!(list.delete_element(5));
    assert_eq!(contents(&list), vec![6]);
    assert!(list.delete_element(6));
    assert_eq!(contents(&list), Vec::<i32>::new());
    assert_eq!(list.head_index(), None);
}

#[test]
fn static_insert_then_get_round_trip() {
    let mut list = StaticLinkedList::<i32>::new();
    list.insert(7);
    list.insert(8);
    list.insert(9);
    assert_eq!(list.get(0), Some(7));
    assert_eq!(list.get(1), Some(8));
    assert_eq!(list.get(2), Some(9));
    assert_eq!(list.get(3), None);
}

#[test]
fn static_insert_at_index_keeps_order() {
    let mut list = StaticLinkedList::<i32>::new();
    list.insert(1);
    list.insert(2);
    list.insert(3);
    list.insert_at_index(1, 9);
    assert_eq!(contents(&list), vec![1, 9, 2, 3]);
    list.insert_at_index(4, 10);
    assert_eq!(contents(&list), vec![1, 9, 2, 3, 10]);
}

#[test]
fn static_insert_at_index_bounds() {
    let mut empty = StaticLinkedList::<i32>::new();
    empty.insert_at_index(0, 4);
    assert_eq!(contents(&empty), vec![4]);

    let mut list = StaticLinkedList::<i32>::new();
    list.insert(1);
    list.insert(2);
    list.insert_at_index(5, 4);
    assert_eq!(contents(&list), vec![1, 2]);
    list.insert_at_index(3, 4);
    assert_eq!(contents(&list), vec![1, 2]);
    // A rejected index consumes no slot: the next insert takes the top one.
    list.insert_at_index(0, 0);
    assert_eq!(list.head_index(), Some(MAX_SIZE - 3));
}

#[test]
fn static_capacity_boundary() {
    let mut list = StaticLinkedList::<i32>::new();
    for v in 0..(MAX_SIZE as i32 + 1) {
        list.insert(v);
    }
    assert_eq!(list.get(MAX_SIZE - 1), Some(MAX_SIZE as i32 - 1));
    assert_eq!(list.get(MAX_SIZE), None);
    assert!(!list.find(MAX_SIZE as i32));
    list.insert_at_index(0, -1);
    assert_eq!(list.get(0), Some(0));
    assert!(list.delete_at_index(0));
    list.insert_at_index(0, -1);
    assert_eq!(list.get(0), Some(-1));
    assert_eq!(list.get(MAX_SIZE), None);
}

#[test]
fn static_delete_then_insert_reuses_slot() {
    let mut list = StaticLinkedList::<i32>::new();
    list.insert(10);
    list.insert(20);
    list.insert(30);
    let first = list.head_index().unwrap();
    let second = list.node_next(first).unwrap();
    let third = list.node_next(second).unwrap();
    assert!(list.delete_at_index(1));
    list.insert(40);
    assert_eq!(list.node_next(third), Some(second));
    assert_eq!(list.node_data(second), Some(40));
    assert_eq!(list.node_data(first), Some(10));
    assert_eq!(list.node_data(third), Some(30));
    assert_eq!(contents(&list), vec![10, 30, 40]);
}

#[test]
fn static_scenario_delete_update_query() {
    let mut list = StaticLinkedList::<i32>::new();
    list.insert(10);
    list.insert(20);
    list.insert(30);
    assert!(list.delete_at_index(1));
    assert!(list.update_element_at_index(1, 99));
    assert_eq!(list.get(0), Some(10));
    assert_eq!(list.get(1), Some(99));
    assert_eq!(list.get(2), None);
    assert!(list.find(10));
    assert!(list.find(99));
    assert!(!list.find(20));
}

#[test]
fn static_failures_leave_list_unchanged() {
    let mut list = StaticLinkedList::<i32>::new();
    assert!(!list.delete_at_index(0));
    assert!(!list.delete_element(1));
    assert!(!list.update_element(1, 2));
    assert!(!list.update_element_at_index(0, 2));
    list.insert(1);
    list.insert(2);
    assert!(!list.delete_at_index(2));
    assert!(!list.delete_at_index(7));
    assert!(!list.update_element_at_index(2, 5));
    assert!(!list.update_element(3, 5));
    assert_eq!(contents(&list), vec![1, 2]);
}

#[test]
fn static_update_element_replaces_first_match_in_place() {
    let mut list = StaticLinkedList::<i32>::new();
    list.insert(4);
    list.insert(5);
    list.insert(4);
    let head = list.head_index();
    assert!(list.update_element(4, 8));
    assert_eq!(contents(&list), vec![8, 5, 4]);
    assert_eq!(list.head_index(), head);
    assert!(list.delete_at_index(2));
    assert_eq!(contents(&list), vec![8, 5]);
}

#[test]
fn dynamic_insert_and_to_vec() {
    let mut list = DynamicLinkedList::<i32>::new();
    assert_eq!(list.to_vec(), Vec::<i32>::new());
    list.insert(10);
    list.insert(20);
    list.insert(30);
    assert_eq!(list.to_vec(), vec![10, 20, 30]);
}

#[test]
fn dynamic_insert_at_index() {
    let mut list = DynamicLinkedList::<i32>::new();
    list.insert_at_index(0, 1);
    assert_eq!(list.to_vec(), vec![1]);
    list.insert(2);
    list.insert(3);
    list.insert_at_index(1, 9);
    assert_eq!(list.to_vec(), vec![1, 9, 2, 3]);
    list.insert_at_index(4, 7);
    assert_eq!(list.to_vec(), vec![1, 9, 2, 3, 7]);
    list.insert_at_index(9, 5);
    assert_eq!(list.to_vec(), vec![1, 9, 2, 3, 7]);
}

#[test]
fn dynamic_delete_element() {
    let mut list = DynamicLinkedList::<i32>::new();
    assert!(!list.delete_element(1));
    list.insert(1);
    list.insert(2);
    list.insert(1);
    list.insert(3);
    assert!(list.delete_element(2));
    assert_eq!(list.to_vec(), vec![1, 1, 3]);
    assert!(!list.delete_element(2));
    assert_eq!(list.to_vec(), vec![1, 1, 3]);
    assert!(list.delete_element(1));
    assert_eq!(list.to_vec(), vec![1, 3]);
    assert!(list.delete_element(3));
    assert_eq!(list.to_vec(), vec![1]);
}

#[test]
fn dynamic_matches_static_contents() {
    let mut a = DynamicLinkedList::<i32>::new();
    let mut b = StaticLinkedList::<i32>::new();
    for v in [3, 1, 4, 1, 5] {
        a.insert(v);
        b.insert(v);
    }
    a.insert_at_index(2, 9);
    b.insert_at_index(2, 9);
    assert!(a.delete_element(1));
    assert!(b.delete_element(1));
    assert_eq!(a.to_vec(), contents(&b));
}
