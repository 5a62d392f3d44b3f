use linked_lists::silly1::{List, Stack};

#[test]
fn walk_aboot() {
    let mut list = List::new(); // [_]

    list.push_left(0); // [0,_]
    list.push_right(1); // [0,_1]
    assert_eq!(list.peek_left(), Some(&0));
    assert_eq!(list.peek_right(), Some(&1));

    list.push_left(2); // [0, 2, _, 1]
    list.push_left(3); // [0, 2, 3, _, 1]
    list.push_right(4); // [0, 2, 3, _, 4, 1]

    while list.go_left() {} // [_, 0, 2, 3, 4, 1]

    assert_eq!(list.pop_left(), None);
    assert_eq!(list.pop_right(), Some(0)); // [_, 2, 3, 4, 1]
    assert_eq!(list.pop_right(), Some(2)); // [_, 3, 4, 1]

    list.push_left(5); // [5, _, 3, 4, 1]

    assert_eq!(list.pop_right(), Some(3)); // [5, _, 4, 1]
    assert_eq!(list.pop_left(), Some(5)); // [_, 4, 1]
    assert_eq!(list.pop_right(), Some(4)); // [_, 1]
    assert_eq!(list.pop_right(), Some(1)); // [_]

    assert_eq!(list.pop_right(), None);
    assert_eq!(list.pop_left(), None);
}

#[test]
fn walk_to_left_end_then_peek() {
    let mut list = List::new();
    list.push_left(0);
    list.push_right(1);
    list.push_left(2);
    list.push_left(3);
    list.push_right(4);
    while list.go_left() {}
    assert_eq!(list.peek_right(), Some(&0));
    assert_eq!(list.peek_left(), None);
    assert_eq!(list.pop_right(), Some(0));
    assert_eq!(list.pop_right(), Some(2));
    assert_eq!(list.pop_left(), None);
}

#[test]
fn step_on_empty_side_changes_nothing() {
    let mut list = List::new();
    assert!(!list.go_left());
    assert!(!list.go_right());
    list.push_right(7);
    assert!(!list.go_left());
    assert_eq!(list.peek_left(), None);
    assert_eq!(list.peek_right(), Some(&7));
    list.go_right();
    assert!(!list.go_right());
    assert_eq!(list.peek_left(), Some(&7));
    assert_eq!(list.peek_right(), None);
}

#[test]
fn push_then_step_across_keeps_push_order() {
    let mut list = List::new();
    for i in 0..5 {
        list.push_left(i);
    }
    let mut steps = 0;
    while list.go_left() {
        steps += 1;
    }
    assert_eq!(steps, 5);
    for i in 0..5 {
        assert_eq!(list.pop_right(), Some(i));
    }
    assert_eq!(list.pop_right(), None);

    for i in 0..5 {
        list.push_right(i);
    }
    while list.go_right() {}
    for i in 0..5 {
        assert_eq!(list.pop_left(), Some(i));
    }
    assert_eq!(list.pop_left(), None);
}

#[test]
fn peek_mut_changes_the_nearest_element() {
    let mut list = List::new();
    list.push_left(1);
    list.push_right(2);
    if let Some(x) = list.peek_left_mut() {
        *x = 10;
    }
    if let Some(x) = list.peek_right_mut() {
        *x = 20;
    }
    assert_eq!(list.pop_left(), Some(10));
    assert_eq!(list.pop_right(), Some(20));
    assert!(list.peek_left_mut().is_none());
    assert!(list.peek_right_mut().is_none());
}

#[test]
fn stack_is_lifo() {
    let mut s = Stack::new();
    assert_eq!(s.pop(), None);
    assert_eq!(s.peek(), None);
    s.push(1);
    s.push(2);
    assert_eq!(s.peek(), Some(&2));
    if let Some(x) = s.peek_mut() {
        *x = 3;
    }
    assert_eq!(s.pop(), Some(3));
    assert_eq!(s.pop(), Some(1));
    assert_eq!(s.pop(), None);
}

#[test]
fn dropping_tall_stacks_does_not_overflow() {
    let mut list = List::new();
    for i in 0..200_000u32 {
        list.push_left(i);
        list.push_right(i);
    }
    drop(list);
}
