use data_structures::Deque;

#[test]
fn test_deque() {
    let mut deque: Deque<i32> = Deque::new();
    deque.push_back(2);
    deque.push_back(3);
    assert_eq!(deque.pop_back(), Some(3));
    assert_eq!(deque.pop_back(), Some(2));

    deque.push_front(3);
    deque.push_front(2);
    assert_eq!(deque.pop_front(), Some(2));
    assert_eq!(deque.pop_front(), Some(3));

    deque.push_back(3);
    deque.push_back(2);
    assert_eq!(deque.pop_front(), Some(3));
    assert_eq!(deque.pop_front(), Some(2));
}

#[test]
fn test_empty() {
    let empty_deque: Deque<i32> = Deque::new();
    assert_eq!(empty_deque.is_empty(), true);

    let mut nonempty_deque = Deque::new();
    nonempty_deque.push_back(1);
    nonempty_deque.push_back(2);
    assert_eq!(nonempty_deque.is_empty(), false);
}

#[test]
fn test_push_back() {
    let mut deque = Deque::new();

    deque.push_back(1);
    deque.push_back(2);

    assert_eq!(deque.pop_front(), Some(1));
    assert_eq!(deque.pop_front(), Some(2));
    assert_eq!(deque.pop_front(), None);
}

#[test]
fn test_push_front() {
    let mut deque = Deque::new();

    deque.push_front(1);
    deque.push_front(2);

    assert_eq!(deque.pop_front(), Some(2));
    assert_eq!(deque.pop_front(), Some(1));
    assert_eq!(deque.pop_front(), None);
}

#[test]
fn test_pop_back() {
    let mut deque = Deque::new();

    deque.push_back(1);
    deque.push_back(2);
    assert_eq!(deque.pop_back(), Some(2));
    assert_eq!(deque.pop_back(), Some(1));
    assert_eq!(deque.pop_back(), None);
}

#[test]
fn test_mixed_ends() {
    let mut deque = Deque::new();
    deque.push_front(2);
    deque.push_back(3);
    deque.push_front(1);
    assert_eq!(deque.pop_back(), Some(3));
    assert_eq!(deque.pop_front(), Some(1));
    assert_eq!(deque.pop_front(), Some(2));
    assert!(deque.is_empty());
}
