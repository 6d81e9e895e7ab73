use algos::linked_lists::{Queue, Stack};

#[test]
fn test_enque() {
    let mut queue = Queue::new();
    queue.enque(1);
    queue.enque(2);
    queue.enque(3);
    queue.enque(4);
    queue.enque(5);
    assert_eq!(queue.size(), 5);
    assert_eq!(*queue.peek().unwrap(), 1);
    assert_eq!(*queue.peek_tail().unwrap(), 5);
}

#[test]
fn queue_deque_in_order() {
    let mut queue = Queue::new();
    queue.enque(1);
    queue.enque(2);
    queue.enque(3);
    queue.enque(4);
    queue.enque(5);
    let first = queue.deque();
    assert_eq!(queue.size(), 4);
    assert_eq!(first, 1);
    queue.deque();
    queue.deque();
    let fourth = queue.deque();
    assert_eq!(queue.size(), 1);
    assert_eq!(fourth, 4);
    assert_eq!(*queue.peek().unwrap(), 5);
    assert_eq!(*queue.peek_tail().unwrap(), 5);
    queue.deque();
    assert_eq!(queue.size(), 0);
    assert!(queue.peek().is_none());
}

#[test]
fn test_queue_peek() {
    let mut queue = Queue::new();
    queue.enque(1);
    queue.enque(2);
    assert_eq!(*queue.peek().unwrap(), 1);
}

#[test]
fn test_push() {
    let mut stack = Stack::new();
    stack.push(1);
    stack.push(2);
    stack.push(3);
    assert_eq!(stack.size(), 3);
    assert_eq!(*stack.peek().unwrap(), 3);
}

#[test]
fn test_pop() {
    let mut stack = Stack::new();
    stack.push(1);
    stack.push(2);
    stack.push(3);
    let node = stack.pop(3);
    assert_eq!(stack.size(), 2);
    assert_eq!(node.unwrap(), 3);
    assert_eq!(*stack.peek().unwrap(), 2);
}

#[test]
fn test_stack_peek() {
    let mut stack = Stack::new();
    stack.push(1);
    stack.push(2);
    assert_eq!(*stack.peek().unwrap(), 2);
}

#[test]
fn stack_pop_empty_is_none() {
    let mut stack: Stack<i64> = Stack::new();
    assert_eq!(stack.pop(0), None);
    stack.push(7);
    assert_eq!(stack.pop(0), Some(7));
    assert_eq!(stack.pop(0), None);
    assert!(stack.peek().is_none());
}
