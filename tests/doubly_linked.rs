use linked_lists::fourth::List;
use std::cell::Cell;
use std::rc::Rc;

struct Counted {
    live: Rc<Cell<usize>>,
}

impl Counted {
    fn new(live: &Rc<Cell<usize>>) -> Counted {
        live.set(live.get() + 1);
        Counted { live: live.clone() }
    }
}

impl Drop for Counted {
    fn drop(&mut self) {
        self.live.set(self.live.get() - 1);
    }
}

#[test]
fn fourth_basics() {
    let mut list = List::new();
    // empty list behavior check
    assert_eq!(list.pop_front(), None);
    // populate list
    list.push_front(1);
    list.push_front(2);
    list.push_front(3);
    // check normal removal
    assert_eq!(list.pop_front(), Some(3));
    assert_eq!(list.pop_front(), Some(2));
    // push more to list, check nothing is corrupted
    list.push_front(4);
    list.push_front(5);
    // check normal removal
    assert_eq!(list.pop_front(), Some(5));
    assert_eq!(list.pop_front(), Some(4));
    // check exhaustion
    assert_eq!(list.pop_front(), Some(1));
    assert_eq!(list.pop_front(), None);
}

#[test]
fn front_pops_reverse_push_order() {
    let mut list = List::new();
    for i in 0..10 {
        list.push_front(i);
    }
    for i in (0..10).rev() {
        assert_eq!(list.pop_front(), Some(i));
    }
    assert_eq!(list.pop_front(), None);
}

#[test]
fn mixed_ends() {
    let mut list = List::new();
    list.push_back(1);
    list.push_front(0);
    list.push_back(2);
    list.push_front(-1);
    // -1, 0, 1, 2
    assert_eq!(list.peek_front(), Some(&-1));
    assert_eq!(list.peek_back(), Some(&2));
    assert_eq!(list.pop_back(), Some(2));
    assert_eq!(list.pop_front(), Some(-1));
    list.push_back(3);
    // 0, 1, 3
    assert_eq!(list.pop_back(), Some(3));
    assert_eq!(list.pop_back(), Some(1));
    assert_eq!(list.peek_front(), Some(&0));
    assert_eq!(list.peek_back(), Some(&0));
    assert_eq!(list.pop_front(), Some(0));
    assert_eq!(list.peek_front(), None);
    assert_eq!(list.peek_back(), None);
    assert_eq!(list.pop_back(), None);
}

#[test]
fn back_behaves_as_queue_from_front() {
    let mut list = List::new();
    for i in 0..5 {
        list.push_back(i);
    }
    for i in 0..5 {
        assert_eq!(list.pop_front(), Some(i));
    }
    assert_eq!(list.pop_front(), None);
}

#[test]
fn pop_on_empty_is_idempotent() {
    let mut list: List<u32> = List::new();
    for _ in 0..3 {
        assert_eq!(list.pop_front(), None);
        assert_eq!(list.pop_back(), None);
    }
    list.push_front(7);
    assert_eq!(list.pop_back(), Some(7));
    for _ in 0..3 {
        assert_eq!(list.pop_front(), None);
        assert_eq!(list.pop_back(), None);
    }
}

#[test]
fn freed_slots_are_reused() {
    let mut list = List::new();
    for i in 0..4 {
        list.push_back(i);
    }
    assert_eq!(list.pop_front(), Some(0));
    assert_eq!(list.pop_back(), Some(3));
    list.push_front(10);
    list.push_back(11);
    // 10, 1, 2, 11
    assert_eq!(list.pop_front(), Some(10));
    assert_eq!(list.pop_front(), Some(1));
    assert_eq!(list.pop_front(), Some(2));
    assert_eq!(list.pop_front(), Some(11));
    assert_eq!(list.pop_front(), None);
}

#[test]
fn clear_releases_a_long_list() {
    let mut list = List::new();
    for i in 0..200_000u32 {
        list.push_back(i);
    }
    list.clear();
    assert_eq!(list.pop_front(), None);
    assert_eq!(list.peek_back(), None);
    list.push_front(1);
    assert_eq!(list.pop_back(), Some(1));
}

#[test]
fn dropping_a_long_list_does_not_overflow() {
    let mut list = List::new();
    for i in 0..200_000u32 {
        list.push_front(i);
    }
    drop(list);
}

#[test]
fn discarding_releases_every_element() {
    let live = Rc::new(Cell::new(0));
    let mut list = List::new();
    for i in 0..1000 {
        if i % 2 == 0 {
            list.push_front(Counted::new(&live));
        } else {
            list.push_back(Counted::new(&live));
        }
    }
    assert_eq!(live.get(), 1000);
    drop(list.pop_front());
    drop(list.pop_back());
    assert_eq!(live.get(), 998);
    list.clear();
    assert_eq!(live.get(), 0);
    for _ in 0..10 {
        list.push_back(Counted::new(&live));
    }
    assert_eq!(live.get(), 10);
    drop(list);
    assert_eq!(live.get(), 0);
}
