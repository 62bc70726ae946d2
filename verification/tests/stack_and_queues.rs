use data_structures::{List, Queue, Stack};

#[test]
fn test_stack_push_and_pop() {
    let mut stack = Stack::new();
    stack.push(1);
    stack.push(2);

    assert!(stack.size == 2);
    assert!(stack.pop() == Some(2));
    assert!(stack.pop() == Some(1));
    assert!(stack.pop() == None);
}

#[test]
fn test_stack_empty_pop() {
    let mut stack: Stack<i32> = Stack::new();
    assert_eq!(stack.pop(), None);
    assert_eq!(stack.size, 0);
}

#[test]
fn test_stack_print_walks() {
    let mut stack = Stack::new();
    stack.push(10);
    stack.push(20);
    stack.print();
    data_structures::stack::print_stack(&stack);
    data_structures::stack::print_stack_recur(&stack);
    assert_eq!(stack.pop(), Some(20));
}

#[test]
fn test_queue() {
    let mut queue: Queue<i32> = Queue::new();
    queue.enqueue(2);
    queue.enqueue(3);
    assert_eq!(queue.dequeue(), Some(2));
    assert_eq!(queue.dequeue(), Some(3));
    queue.enqueue(5);
    queue.enqueue(6);
    assert_eq!(queue.dequeue(), Some(5));
    assert_eq!(queue.dequeue(), Some(6));
}

#[test]
fn test_queue_interleaved() {
    let mut queue: Queue<i32> = Queue::new();
    assert_eq!(queue.dequeue(), None);
    queue.enqueue(1);
    queue.enqueue(2);
    assert_eq!(queue.dequeue(), Some(1));
    queue.enqueue(3);
    assert_eq!(queue.dequeue(), Some(2));
    assert_eq!(queue.dequeue(), Some(3));
    assert_eq!(queue.dequeue(), None);
}

#[test]
fn test_basics() {
    let mut list: List<i32> = List::new();

    assert_eq!(list.pop(), None);

    list.push(1);
    list.push(2);
    list.push(3);

    assert_eq!(list.pop(), Some(1));
    assert_eq!(list.pop(), Some(2));

    list.push(4);
    list.push(5);

    assert_eq!(list.pop(), Some(3));
    assert_eq!(list.pop(), Some(4));
    assert_eq!(list.pop(), Some(5));
    assert_eq!(list.pop(), None);
}
