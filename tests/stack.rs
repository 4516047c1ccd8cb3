use algorithms::stack::Stack;

#[test]
fn unsafe_stack_basics() {
    let mut stack = Stack::new();
    assert_eq!(stack.peek(), None);
    stack.push(1);
    stack.push(2);
    stack.push(3);
    assert_eq!(stack.peek(), Some(&3));
    assert_eq!(stack.pop(), Some(3));
    assert_eq!(stack.pop(), Some(2));
    assert_eq!(stack.pop(), Some(1));
    assert_eq!(stack.pop(), None);
}

#[test]
fn stack_peek_mut() {
    let mut stack = Stack::new();
    assert!(stack.peek_mut().is_none());
    stack.push(1);
    stack.push(2);
    *stack.peek_mut().unwrap() = 20;
    assert_eq!(stack.pop(), Some(20));
    assert_eq!(stack.peek(), Some(&1));
}
