use array_list::priority_queue::{Priority, PriorityQueue, Stack};

#[test]
fn priority_queue_it_works() {
    let mut deque = PriorityQueue::<u8>::default();
    deque.enqueue(1, 1);
    deque.enqueue(0, 42);
    assert_eq!(42, deque.dequeue().unwrap());
    assert_eq!(1, deque.dequeue().unwrap());
    assert!(deque.dequeue().is_none());
}

#[test]
fn priority() {
    let mut deque = PriorityQueue::<u32>::new();
    deque.enqueue(42, 1);
    deque.enqueue(42, 2);
    deque.enqueue(0, 3);
    deque.enqueue(-5, 4);
    deque.enqueue(3, 5);
    deque.enqueue(-5, 6);
    deque.enqueue(0, 7);
    let mut deq = vec![];
    while let Some(item) = deque.dequeue() {
        deq.push(item);
    }
    assert_eq!(vec![6, 4, 7, 3, 5, 2, 1], deq);
}

#[test]
fn priority_queue_names_leave_by_priority() {
    let mut queue = PriorityQueue::<&str>::new();
    queue.enqueue(1, "a");
    queue.enqueue(0, "b");
    assert_eq!(Some("b"), queue.dequeue());
    assert_eq!(Some("a"), queue.dequeue());
    assert_eq!(None, queue.dequeue());
    assert_eq!(None, queue.dequeue());
}

#[test]
fn priority_queue_refills_an_emptied_priority() {
    let mut queue = PriorityQueue::<u8>::new();
    queue.enqueue(5, 1);
    queue.enqueue(i64::MIN, 2);
    queue.enqueue(i64::MAX, 3);
    assert_eq!(Some(2), queue.dequeue());
    queue.enqueue(5, 4);
    queue.enqueue(i64::MIN, 5);
    assert_eq!(Some(5), queue.dequeue());
    assert_eq!(Some(4), queue.dequeue());
    assert_eq!(Some(1), queue.dequeue());
    assert_eq!(Some(3), queue.dequeue());
    assert_eq!(None, queue.dequeue());
}

#[test]
fn stack_is_last_in_first_out() {
    let mut stack = Stack::<u8>::new();
    assert!(stack.is_empty());
    assert_eq!(None, stack.pop());
    stack.push(1);
    stack.push(2);
    stack.push(3);
    assert!(!stack.is_empty());
    assert_eq!(Some(3), stack.pop());
    assert_eq!(Some(2), stack.pop());
    stack.push(4);
    assert_eq!(Some(4), stack.pop());
    assert_eq!(Some(1), stack.pop());
    assert_eq!(None, stack.pop());
    assert!(stack.is_empty());
}

#[test]
fn priority_new_is_an_empty_bucket() {
    let mut bucket = Priority::<u8>::new(-7);
    assert_eq!(-7, bucket.priority);
    assert!(bucket.stack.is_empty());
    bucket.stack.push(9);
    assert_eq!(Some(9), bucket.stack.pop());
}
