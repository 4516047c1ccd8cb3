use algorithms::deque::Deque;

#[test]
fn deque_basics() {
    let mut queue = Deque::new();

    // Check empty queue behaves right
    assert_eq!(queue.pop_front(), None);

    // Populate Deque
    queue.push_front(1);
    queue.push_front(2);
    queue.push_front(3);

    // Check normal removal
    assert_eq!(queue.pop_front(), Some(3));
    assert_eq!(queue.pop_front(), Some(2));

    // Push some more just to make sure nothing's corrupted
    queue.push_front(4);
    queue.push_front(5);

    // Check normal removal
    assert_eq!(queue.pop_front(), Some(5));
    assert_eq!(queue.pop_front(), Some(4));

    // Check exhaustion
    assert_eq!(queue.pop_front(), Some(1));
    assert_eq!(queue.pop_front(), None);

    // ---- back -----

    // Check empty Deque behaves right
    assert_eq!(queue.pop_back(), None);

    // Populate Deque
    queue.push_back(1);
    queue.push_back(2);
    queue.push_back(3);

    // Check normal removal
    assert_eq!(queue.pop_back(), Some(3));
    assert_eq!(queue.pop_back(), Some(2));

    // Push some more just to make sure nothing's corrupted
    queue.push_back(4);
    queue.push_back(5);

    // Check normal removal
    assert_eq!(queue.pop_back(), Some(5));
    assert_eq!(queue.pop_back(), Some(4));

    // Check exhaustion
    assert_eq!(queue.pop_back(), Some(1));
    assert_eq!(queue.pop_back(), None);
}

#[test]
fn deque_peek() {
    let mut queue = Deque::new();
    assert!(queue.peek_front().is_none());
    assert!(queue.peek_back().is_none());
    assert!(queue.peek_front_mut().is_none());
    assert!(queue.peek_back_mut().is_none());

    queue.push_front(1);
    queue.push_front(2);
    queue.push_front(3);

    assert_eq!(&*queue.peek_front().unwrap(), &3);
    assert_eq!(&mut *queue.peek_front_mut().unwrap(), &mut 3);
    assert_eq!(&*queue.peek_back().unwrap(), &1);
    assert_eq!(&mut *queue.peek_back_mut().unwrap(), &mut 1);
}

#[test]
fn deque_into_iter() {
    let mut queue = Deque::new();
    queue.push_front(1);
    queue.push_front(2);
    queue.push_front(3);

    let mut iter = queue.into_iter();
    assert_eq!(iter.next(), Some(3));
    assert_eq!(iter.next_back(), Some(1));
    assert_eq!(iter.next(), Some(2));
    assert_eq!(iter.next_back(), None);
    assert_eq!(iter.next(), None);
}

#[test]
fn deque_both_ends_and_peek_mut() {
    let mut queue = Deque::new();
    queue.push_back(2);
    queue.push_front(1);
    queue.push_back(3);
    *queue.peek_front_mut().unwrap() = 10;
    *queue.peek_back_mut().unwrap() = 30;
    assert_eq!(queue.peek_front(), Some(&10));
    assert_eq!(queue.peek_back(), Some(&30));
    assert_eq!(queue.pop_back(), Some(30));
    assert_eq!(queue.pop_back(), Some(2));
    assert_eq!(queue.pop_back(), Some(10));
    assert_eq!(queue.pop_front(), None);
}
