use lists::deque::List;

#[test]
fn fourth_basics() {
    let mut list = List::new();

    // ---- front ----
    assert_eq!(list.pop_front(), None);

    list.push_front(1);
    list.push_front(2);
    list.push_front(3);

    assert_eq!(list.pop_front(), Some(3));
    assert_eq!(list.pop_front(), Some(2));

    list.push_front(4);
    list.push_front(5);

    assert_eq!(list.pop_front(), Some(5));
    assert_eq!(list.pop_front(), Some(4));

    assert_eq!(list.pop_front(), Some(1));
    assert_eq!(list.pop_front(), None);

    // ---- back ----
    assert_eq!(list.pop_back(), None);

    list.push_back(1);
    list.push_back(2);
    list.push_back(3);

    assert_eq!(list.pop_back(), Some(3));
    assert_eq!(list.pop_back(), Some(2));

    list.push_back(4);
    list.push_back(5);

    assert_eq!(list.pop_back(), Some(5));
    assert_eq!(list.pop_back(), Some(4));

    assert_eq!(list.pop_back(), Some(1));
    assert_eq!(list.pop_back(), None);
}

#[test]
fn fourth_peek() {
    let mut list = List::new();
    assert!(list.peek_front().unwrap().is_none());
    assert!(list.peek_back().unwrap().is_none());
    assert!(list.peek_front_mut().unwrap().is_none());
    assert!(list.peek_back_mut().unwrap().is_none());

    list.push_front(1);
    list.push_front(2);
    list.push_front(3);

    let guard = list.peek_front().unwrap().unwrap();
    assert_eq!(*list.read(&guard), 3);
    list.release_read(guard);

    {
        let a = list.peek_front_mut().unwrap().unwrap();
        list.write(&a, 4);
        list.release_write(a);
    }

    let guard = list.peek_front().unwrap().unwrap();
    assert_eq!(*list.read(&guard), 4);
    list.release_read(guard);

    let guard = list.peek_front_mut().unwrap().unwrap();
    assert_eq!(*list.read_exclusive(&guard), 4);
    list.release_write(guard);

    let guard = list.peek_back().unwrap().unwrap();
    assert_eq!(*list.read(&guard), 1);
    list.release_read(guard);

    let guard = list.peek_back_mut().unwrap().unwrap();
    assert_eq!(*list.read_exclusive(&guard), 1);
    list.release_write(guard);
}

#[test]
fn fourth_into_iter() {
    let mut list = List::new();

    list.push_front(1);
    list.push_front(2);
    list.push_front(3);

    let mut iter = list.into_iter();
    assert_eq!(iter.next(), Some(3));
    assert_eq!(iter.next_back(), Some(1));
    assert_eq!(iter.next(), Some(2));
    assert_eq!(iter.next_back(), None);
    assert_eq!(iter.next(), None);
}

#[test]
fn front_pushes_pop_in_reverse() {
    let mut list = List::new();
    for i in 1..=5 {
        list.push_front(i);
    }
    for i in (1..=5).rev() {
        assert_eq!(list.pop_front(), Some(i));
    }
    assert_eq!(list.pop_front(), None);
}

#[test]
fn back_pushes_pop_in_order() {
    let mut list = List::new();
    for i in 1..=5 {
        list.push_back(i);
    }
    for i in 1..=5 {
        assert_eq!(list.pop_front(), Some(i));
    }
    assert_eq!(list.pop_front(), None);
}

#[test]
fn pop_on_empty_changes_nothing() {
    let mut list = List::new();
    assert_eq!(list.pop_front(), None);
    assert_eq!(list.pop_front(), None);
    assert_eq!(list.pop_back(), None);
    assert_eq!(list.pop_back(), None);
    list.push_back(9);
    assert_eq!(list.pop_front(), Some(9));
    assert_eq!(list.pop_back(), None);
    assert_eq!(list.pop_front(), None);
}

#[test]
fn interleaved_ends_keep_order() {
    let mut list = List::new();
    list.push_back(2);
    list.push_front(1);
    list.push_back(3);
    // now 1, 2, 3
    assert_eq!(list.pop_back(), Some(3));
    list.push_front(0);
    // now 0, 1, 2
    assert_eq!(list.pop_front(), Some(0));
    assert_eq!(list.pop_back(), Some(2));
    assert_eq!(list.pop_front(), Some(1));
    assert_eq!(list.pop_front(), None);
    assert_eq!(list.pop_back(), None);
}

#[test]
fn write_guard_mutation_is_read_back() {
    let mut list = List::new();
    list.push_back(String::from("old"));
    list.push_back(String::from("end"));

    let guard = list.peek_front_mut().unwrap().unwrap();
    list.write(&guard, String::from("new"));
    list.release_write(guard);

    let guard = list.peek_front().unwrap().unwrap();
    assert_eq!(list.read(&guard), "new");
    list.release_read(guard);

    assert_eq!(list.pop_front(), Some(String::from("new")));
    assert_eq!(list.pop_front(), Some(String::from("end")));
}

#[test]
fn conflicting_claims_are_refused() {
    let mut list = List::new();
    list.push_front(10);

    // A shared claim shuts out an exclusive one, but not another shared one.
    let first = list.peek_front().unwrap().unwrap();
    assert!(list.peek_front_mut().is_err());
    assert!(list.peek_back_mut().is_err());
    let second = list.peek_front().unwrap().unwrap();
    assert_eq!(*list.read(&first), 10);
    assert_eq!(*list.read(&second), 10);
    list.release_read(first);
    assert!(list.peek_front_mut().is_err());
    list.release_read(second);

    // An exclusive claim shuts out every other claim.
    let writer = list.peek_front_mut().unwrap().unwrap();
    assert!(list.peek_front().is_err());
    assert!(list.peek_back().is_err());
    assert!(list.peek_back_mut().is_err());
    list.write(&writer, 11);
    list.release_write(writer);

    assert_eq!(list.pop_front(), Some(11));
}

#[test]
fn claims_on_both_ends_at_once() {
    let mut list = List::new();
    list.push_back('a');
    list.push_back('b');
    list.push_back('c');

    let front = list.peek_front().unwrap().unwrap();
    let back = list.peek_back_mut().unwrap().unwrap();
    assert_eq!(*list.read(&front), 'a');
    list.write(&back, 'z');
    assert_eq!(*list.read_exclusive(&back), 'z');
    list.release_write(back);
    list.release_read(front);

    assert_eq!(list.pop_back(), Some('z'));
    assert_eq!(list.pop_back(), Some('b'));
    assert_eq!(list.pop_back(), Some('a'));
}

#[test]
fn slots_are_reused_across_pops() {
    let mut list = List::new();
    for round in 0..3 {
        for i in 0..4 {
            list.push_back(round * 10 + i);
        }
        for i in 0..4 {
            assert_eq!(list.pop_front(), Some(round * 10 + i));
        }
        assert_eq!(list.pop_front(), None);
    }
}

#[test]
fn drop_long_list_is_not_recursive() {
    let mut list = List::new();
    for i in 0..100_000u64 {
        list.push_back(i);
    }
    assert_eq!(list.pop_front(), Some(0));
    assert_eq!(list.pop_back(), Some(99_999));
    // The deque goes out of scope here; teardown walks the arena slot by
    // slot, so a long chain must not overflow the stack.
}

#[test]
fn long_cursor_walks_both_ways() {
    let mut list = List::new();
    for i in 0..1_000u32 {
        list.push_back(i);
    }
    let mut iter = list.into_iter();
    for i in 0..500u32 {
        assert_eq!(iter.next(), Some(i));
        assert_eq!(iter.next_back(), Some(999 - i));
    }
    assert_eq!(iter.next(), None);
    assert_eq!(iter.next_back(), None);
}
