use linked_lists::fifth::List;

#[test]
fn fifth_basics() {
    let mut list = List::new();
    // empty list behavior check
    assert_eq!(list.pop(), None);

    // populate list
    list.push(1);
    list.push(2);
    list.push(3);

    // check normal removal
    assert_eq!(list.pop(), Some(1));
    assert_eq!(list.pop(), Some(2));

    // push more just to make sure nothing's corrupted
    list.push(4);
    list.push(5);

    // check normal removal
    assert_eq!(list.pop(), Some(3));
    assert_eq!(list.pop(), Some(4));

    // check exhaustion
    assert_eq!(list.pop(), Some(5));
    assert_eq!(list.pop(), None);

    // check the exhaustion case fixed the tail
    list.push(6);
    list.push(7);

    // check normal removal
    assert_eq!(list.pop(), Some(6));
    assert_eq!(list.pop(), Some(7));
    assert_eq!(list.pop(), None);
}

#[test]
fn queue_keeps_strings_in_order() {
    let mut list = List::new();
    list.push(String::from("a"));
    list.push(String::from("b"));
    assert_eq!(list.pop().as_deref(), Some("a"));
    list.push(String::from("c"));
    assert_eq!(list.pop().as_deref(), Some("b"));
    assert_eq!(list.pop().as_deref(), Some("c"));
    assert_eq!(list.pop(), None);
}
