use rust_study::linked_list::LinkedList;
use rust_study::queue::Queue;
use rust_study::ring_buffer::RingBuffer;
use rust_study::stack::Stack;
use rust_study::tree::Tree;
use rust_study::vec_queue;

#[test]
fn stack_test() {
    let mut test_stack: Stack<i32> = Stack::new(3);
    test_stack.push(1);
    test_stack.push(2);
    test_stack.push(3);
    assert_eq!(test_stack.pop().unwrap(), 3);
    assert_eq!(test_stack.pop().unwrap(), 2);
    assert_eq!(test_stack.pop().unwrap(), 1);
}

#[test]
#[should_panic]
fn stack_overflow_test() {
    let mut test_stack: Stack<i32> = Stack::new(2);
    test_stack.push(1);
    test_stack.push(2);
    test_stack.push(3);
}

#[test]
#[should_panic]
fn stack_underflow_test() {
    let mut test_stack: Stack<i32> = Stack::new(1);
    test_stack.pop().unwrap();
}

#[test]
fn queue_test() {
    let mut test_queue: Queue<i32> = Queue::new(3);
    test_queue.enqueue(1);
    test_queue.enqueue(2);
    test_queue.enqueue(3);
    assert_eq!(test_queue.dequeue().unwrap(), 1);
    assert_eq!(test_queue.dequeue().unwrap(), 2);
    assert_eq!(test_queue.dequeue().unwrap(), 3);
}

#[test]
#[should_panic]
fn queue_overflow_test() {
    let mut test_queue: Queue<i32> = Queue::new(2);
    test_queue.enqueue(1);
    test_queue.enqueue(2);
    test_queue.enqueue(3);
}

#[test]
#[should_panic]
fn queue_underflow_test() {
    let mut test_queue: Queue<i32> = Queue::new(1);
    test_queue.dequeue().unwrap();
}

#[test]
fn ring_buffer_test() {
    let mut test_ring_buffer: RingBuffer = RingBuffer::new(3);
    test_ring_buffer.enqueue(1).unwrap();
    test_ring_buffer.enqueue(2).unwrap();
    test_ring_buffer.enqueue(3).unwrap();
    assert_eq!(test_ring_buffer.dequeue().unwrap(), 1);
    assert_eq!(test_ring_buffer.dequeue().unwrap(), 2);
    assert_eq!(test_ring_buffer.dequeue().unwrap(), 3);
}

#[test]
#[should_panic]
fn ring_buffer_overflow_test() {
    let mut test_ring_buffer: RingBuffer = RingBuffer::new(2);
    test_ring_buffer.enqueue(1).unwrap();
    test_ring_buffer.enqueue(2).unwrap();
    test_ring_buffer.enqueue(3).unwrap();
}

#[test]
#[should_panic]
fn ring_buffer_underflow_test() {
    let mut test_ring_buffer: RingBuffer = RingBuffer::new(3);
    test_ring_buffer.enqueue(1).unwrap();
    test_ring_buffer.enqueue(2).unwrap();
    test_ring_buffer.enqueue(3).unwrap();
    test_ring_buffer.dequeue().unwrap();
    test_ring_buffer.dequeue().unwrap();
    test_ring_buffer.dequeue().unwrap();
    test_ring_buffer.dequeue().unwrap();
}

#[test]
fn test_new_tree() {
    let tree = Tree::new(10);
    assert_eq!(tree.get_label(), &10);
    assert!(tree.get_left().is_none());
    assert!(tree.get_right().is_none());
}

#[test]
fn test_insert_left() {
    let mut tree = Tree::new(10);
    tree.insert(5);
    assert!(tree.get_left().is_some());
    assert_eq!(tree.get_left().unwrap().get_label(), &5);
}

#[test]
fn test_insert_right() {
    let mut tree = Tree::new(10);
    tree.insert(15);
    assert!(tree.get_right().is_some());
    assert_eq!(tree.get_right().unwrap().get_label(), &15);
}

#[test]
fn test_insert() {
    let mut tree = Tree::new(10);
    tree.insert(5);
    tree.insert(15);
    tree.insert(3);
    tree.insert(7);
    tree.insert(12);
    tree.insert(18);

    assert_eq!(tree.get_left().unwrap().get_label(), &5);
    assert_eq!(tree.get_left().unwrap().get_left().unwrap().get_label(), &3);
    assert_eq!(tree.get_left().unwrap().get_right().unwrap().get_label(), &7);

    assert_eq!(tree.get_right().unwrap().get_label(), &15);
    assert_eq!(tree.get_right().unwrap().get_left().unwrap().get_label(), &12);
    assert_eq!(tree.get_right().unwrap().get_right().unwrap().get_label(), &18);
}

#[test]
fn stack_full_and_empty() {
    let mut s: Stack<i32> = Stack::new(2);
    assert!(s.is_empty());
    s.push(1);
    s.push(2);
    assert!(s.is_full());
    assert_eq!(s.pop(), Ok(2));
    assert_eq!(s.pop(), Ok(1));
    assert_eq!(s.pop(), Err("Stack is empty"));
}

#[test]
fn stack_lifo_law_example() {
    let mut s: Stack<i32> = Stack::new(4);
    s.push(7);
    s.push(8);
    assert_eq!(s.pop(), Ok(8));
    s.push(9);
    assert_eq!(s.pop(), Ok(9));
    assert_eq!(s.pop(), Ok(7));
}

#[test]
fn queue_underflow_error_message() {
    let mut q: Queue<i32> = Queue::new(2);
    assert_eq!(q.dequeue(), Err("Queue underflow!"));
    q.enqueue(4);
    assert_eq!(q.dequeue(), Ok(4));
    assert_eq!(q.dequeue(), Err("Queue underflow!"));
}

#[test]
fn queue_fifo_law_example() {
    let mut q: Queue<i32> = Queue::new(4);
    q.enqueue(1);
    q.enqueue(2);
    assert_eq!(q.dequeue(), Ok(1));
    q.enqueue(3);
    assert_eq!(q.dequeue(), Ok(2));
    assert_eq!(q.dequeue(), Ok(3));
}

#[test]
fn ring_buffer_wraps_around() {
    let mut r = RingBuffer::new(2);
    assert_eq!(r.enqueue(1), Ok(()));
    assert_eq!(r.enqueue(2), Ok(()));
    assert_eq!(r.enqueue(3), Err("Ring buffer is full"));
    assert_eq!(r.dequeue(), Some(1));
    assert_eq!(r.enqueue(3), Ok(()));
    assert_eq!(r.dequeue(), Some(2));
    assert_eq!(r.enqueue(4), Ok(()));
    assert_eq!(r.dequeue(), Some(3));
    assert_eq!(r.dequeue(), Some(4));
    assert_eq!(r.dequeue(), None);
}

#[test]
fn ring_buffer_of_size_zero_is_always_full() {
    let mut r = RingBuffer::new(0);
    assert_eq!(r.enqueue(1), Err("Ring buffer is full"));
    assert_eq!(r.dequeue(), None);
}

#[test]
fn tree_search_and_duplicates() {
    let mut tree = Tree::new(10);
    for x in [5, 15, 3, 7, 12, 18] {
        tree.insert(x);
    }
    for x in [10, 5, 15, 3, 7, 12, 18] {
        assert!(tree.search(x));
    }
    for x in [0, 4, 6, 11, 20] {
        assert!(!tree.search(x));
    }
    tree.insert(7);
    assert_eq!(tree.get_label(), &10);
    assert_eq!(tree.get_left().unwrap().get_right().unwrap().get_label(), &7);
    assert!(tree.get_left().unwrap().get_right().unwrap().get_left().is_none());
    assert!(tree.get_left().unwrap().get_right().unwrap().get_right().is_none());
}

#[test]
fn linked_list_operations() {
    let mut list = LinkedList::new_list();
    list.insert_head(1);
    list.insert_head(2);
    list.insert_head(3);
    list.delete_top();
    assert!(list.search_cell(3).is_none());
    {
        let cell = list.search_cell(2).unwrap();
        cell.insert(9);
    }
    assert!(list.search_cell(9).is_some());
    {
        let cell = list.search_cell(2).unwrap();
        cell.delete();
    }
    assert!(list.search_cell(9).is_none());
    assert!(list.search_cell(1).is_some());
    list.delete_top();
    list.delete_top();
    assert!(list.search_cell(1).is_none());
    list.delete_top();
    assert!(list.search_cell(2).is_none());
}

#[test]
fn vec_queue_operations() {
    let mut q = vec_queue::Queue::new();
    q.enqueue(1);
    q.enqueue(2);
    q.enqueue(5);
    assert_eq!(q.dequeue(), Some(1));
    assert_eq!(q.dequeue(), Some(2));
    assert_eq!(q.dequeue(), Some(5));
    assert_eq!(q.dequeue(), None);
}
