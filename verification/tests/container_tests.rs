use btree_storage::mem_table;
use btree_storage::queue::Queue;
use btree_storage::stack::Stack;

#[test]
fn queue_is_first_in_first_out() {
    let mut q: Queue<u32> = Queue::new();
    assert!(q.is_empty());
    assert_eq!(q.length(), 0);
    assert!(q.peek().is_none());
    q.enqueue(1);
    q.enqueue(2);
    q.enqueue(3);
    assert_eq!(q.length(), 3);
    assert_eq!(q.peek(), Some(&1));
    assert_eq!(q.dequeue(), 1);
    assert_eq!(q.dequeue(), 2);
    assert_eq!(q.dequeue(), 3);
    assert!(q.is_empty());
}

#[test]
fn stack_is_last_in_first_out() {
    let mut s: Stack<u32> = Stack::new();
    assert!(s.is_empty());
    assert_eq!(s.pop(), None);
    s.push(1);
    s.push(2);
    s.push(3);
    assert_eq!(s.length(), 3);
    assert_eq!(s.peek(), Some(&3));
    assert_eq!(s.pop(), Some(3));
    assert_eq!(s.pop(), Some(2));
    assert_eq!(s.pop(), Some(1));
    assert_eq!(s.pop(), None);
}

#[test]
fn mem_table_get_index_on_empty_table() {
    let m = mem_table::new();
    assert_eq!(m.get_index(b"anything"), Err(0));
}
