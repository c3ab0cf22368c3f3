use ds_list::{DoublyLinkedList, List, ListError, SinglyLinkedList};

#[test]
fn push_back_run_indexes_singly() {
    let mut fl: SinglyLinkedList<i32> = SinglyLinkedList::new();
    let values = [4, -7, 0, 12, 4];
    for v in values {
        fl.push_back(v);
    }
    assert_eq!(fl.len(), values.len());
    for (i, v) in values.iter().enumerate() {
        assert_eq!(fl.get(i), Some(*v));
    }
}

#[test]
fn push_back_run_indexes_doubly() {
    let mut dl: DoublyLinkedList<i32> = DoublyLinkedList::new();
    let values = [4, -7, 0, 12, 4];
    for v in values {
        dl.push_back(v);
    }
    assert_eq!(dl.len(), values.len());
    for (i, v) in values.iter().enumerate() {
        assert_eq!(dl.get(i), Some(*v));
    }
}

#[test]
fn push_front_run_front_is_last_pushed_singly() {
    let mut fl: SinglyLinkedList<i32> = SinglyLinkedList::new();
    for v in [3, 1, 9] {
        fl.push_front(v);
        assert_eq!(fl.get(0), Some(v));
    }
}

#[test]
fn push_front_run_front_is_last_pushed_doubly() {
    let mut dl: DoublyLinkedList<i32> = DoublyLinkedList::new();
    for v in [3, 1, 9] {
        dl.push_front(v);
        assert_eq!(dl.get(0), Some(v));
    }
}

#[test]
fn pop_front_empty_error_kind_singly() {
    let mut fl: SinglyLinkedList<i32> = SinglyLinkedList::new();
    assert_eq!(fl.pop_front(), Err(ListError::EmptyContainer));
    assert_eq!(fl.pop_back(), Err(ListError::EmptyContainer));
}

#[test]
fn pop_front_empty_error_kind_doubly() {
    let mut dl: DoublyLinkedList<i32> = DoublyLinkedList::new();
    assert_eq!(dl.pop_front(), Err(ListError::EmptyContainer));
    assert_eq!(dl.pop_back(), Err(ListError::EmptyContainer));
}

#[test]
fn pop_front_drains_in_insertion_order_singly() {
    let mut fl: SinglyLinkedList<i32> = SinglyLinkedList::new();
    for v in [1, 2, 3] {
        fl.push_back(v);
    }
    assert_eq!(fl.pop_front(), Ok(1));
    assert_eq!(fl.pop_front(), Ok(2));
    assert_eq!(fl.pop_front(), Ok(3));
    assert_eq!(fl.len(), 0);
    assert!(fl.is_empty());
}

#[test]
fn pop_front_drains_in_insertion_order_doubly() {
    let mut dl: DoublyLinkedList<i32> = DoublyLinkedList::new();
    for v in [1, 2, 3] {
        dl.push_back(v);
    }
    assert_eq!(dl.pop_front(), Ok(1));
    assert_eq!(dl.pop_front(), Ok(2));
    assert_eq!(dl.pop_front(), Ok(3));
    assert_eq!(dl.len(), 0);
    assert!(dl.is_empty());
}

#[test]
fn pop_back_drains_in_reverse_order_doubly() {
    let mut dl: DoublyLinkedList<i32> = DoublyLinkedList::new();
    for v in [5, 6, 1] {
        dl.push_back(v);
    }
    assert_eq!(dl.pop_back(), Ok(1));
    assert_eq!(dl.len(), 2);
    assert_eq!(dl.pop_back(), Ok(6));
    assert_eq!(dl.len(), 1);
    assert_eq!(dl.pop_back(), Ok(5));
    assert_eq!(dl.len(), 0);
}

#[test]
fn is_sorted_single_element() {
    let mut fl: SinglyLinkedList<i32> = SinglyLinkedList::new();
    fl.push_back(42);
    assert!(fl.is_sorted());

    let mut dl: DoublyLinkedList<i32> = DoublyLinkedList::new();
    dl.push_back(42);
    assert!(dl.is_sorted());
}

#[test]
fn is_sorted_equal_adjacent_elements() {
    let mut fl: SinglyLinkedList<i32> = SinglyLinkedList::new();
    fl.push_back(7);
    fl.push_back(7);
    fl.push_back(8);
    assert!(fl.is_sorted());

    let mut dl: DoublyLinkedList<i32> = DoublyLinkedList::new();
    dl.push_back(7);
    dl.push_back(7);
    dl.push_back(8);
    assert!(dl.is_sorted());
}

#[test]
fn is_sorted_doubly_detects_inversion() {
    let mut dl: DoublyLinkedList<i32> = DoublyLinkedList::new();
    dl.push_back(5);
    dl.push_back(6);
    dl.push_back(1);
    assert_eq!(dl.is_sorted(), false);
    let empty: DoublyLinkedList<i32> = DoublyLinkedList::new();
    assert_eq!(empty.is_sorted(), true);
}

#[test]
fn get_out_of_range_doubly() {
    let mut dl: DoublyLinkedList<i32> = DoublyLinkedList::new();
    dl.push_back(10);
    dl.push_back(20);
    assert_eq!(dl.get(2), None);
    assert_eq!(dl.get(100), None);
}

#[test]
fn ascending_scenario_singly() {
    let mut fl: SinglyLinkedList<i32> = SinglyLinkedList::new();
    fl.push_back(10);
    fl.push_back(20);
    fl.push_back(30);
    assert_eq!(fl.len(), 3);
    assert_eq!(fl.get(0), Some(10));
    assert_eq!(fl.get(1), Some(20));
    assert_eq!(fl.get(2), Some(30));
    assert_eq!(fl.is_sorted(), true);
}

#[test]
fn pop_back_scenario_doubly_after_mixed_pushes() {
    let mut dl: DoublyLinkedList<i32> = DoublyLinkedList::new();
    dl.push_back(2);
    dl.push_front(1);
    dl.push_back(3);
    assert_eq!(dl.pop_back(), Ok(3));
    assert_eq!(dl.pop_front(), Ok(1));
    assert_eq!(dl.pop_back(), Ok(2));
    assert_eq!(dl.pop_back(), Err(ListError::EmptyContainer));
}

#[test]
fn reuse_after_draining() {
    let mut dl: DoublyLinkedList<i32> = DoublyLinkedList::new();
    dl.push_back(1);
    assert_eq!(dl.pop_front(), Ok(1));
    dl.push_front(4);
    dl.push_back(9);
    assert_eq!(dl.len(), 2);
    assert_eq!(dl.get(0), Some(4));
    assert_eq!(dl.get(1), Some(9));
}
