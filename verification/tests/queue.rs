use kv_priority_queue::{as_u32_be, PriorityQueue, PriorityQueueImpl};

#[test]
fn check_as_u32_be() {
    assert_eq!(as_u32_be(&[0, 0, 0, 1]), 1);
    assert_eq!(as_u32_be(&[0xf0, 0x9f, 0x8f, 0xb3]), 4036988851);
}

#[test]
fn check_is_empty() {
    let mut queue = PriorityQueueImpl::new();
    assert!(queue.is_empty());

    queue.insert(vec![0], 5);
    assert!(!queue.is_empty());
}

#[test]
fn check_size_empty() {
    let queue = PriorityQueueImpl::new();
    assert!(queue.is_empty());
    assert_eq!(queue.size(), 0);
}

#[test]
fn check_size() {
    let mut queue = PriorityQueueImpl::new();
    assert!(queue.is_empty());
    assert_eq!(queue.size(), 0);

    queue.insert(vec![0], 5);
    queue.insert(vec![1], 10);
    queue.insert(vec![2], 3);

    assert!(!queue.is_empty());
    assert_eq!(queue.size(), 3);
}

#[test]
fn check_insert() {
    let mut queue = PriorityQueueImpl::new();
    assert!(queue.is_empty());

    queue.insert(vec![0], 5);
    assert_eq!(queue.size(), 1);
}

#[test]
fn check_insert_many() {
    let mut queue = PriorityQueueImpl::new();
    assert!(queue.is_empty());

    queue.insert(vec![0], 10);
    queue.insert(vec![1], 9);
    queue.insert(vec![2], 8);
    queue.insert(vec![3], 7);
    queue.insert(vec![4], 6);
    queue.insert(vec![5], 5);
    queue.insert(vec![6], 4);
    queue.insert(vec![7], 3);
    queue.insert(vec![8], 2);
    queue.insert(vec![9], 1);
    assert_eq!(queue.size(), 10);
    assert!(!queue.is_empty());
}

#[test]
fn check_insert_duplicate() {
    let mut queue = PriorityQueueImpl::new();
    assert!(queue.is_empty());

    queue.insert(vec![4], 10);
    queue.insert(vec![5], 8);
    queue.insert(vec![6], 10);
    assert_eq!(queue.size(), 3);
    assert!(!queue.is_empty());
    assert_eq!(queue.peek(), Some(vec![6]));
    assert_eq!(queue.pop(), Some(vec![6]));
    assert_eq!(queue.peek(), Some(vec![4]));
    assert_eq!(queue.pop(), Some(vec![4]));
    assert_eq!(queue.size(), 1);
    assert_eq!(queue.pop(), Some(vec![5]));
    assert!(queue.is_empty());
    assert_eq!(queue.size(), 0);
}

#[test]
fn check_peek_empty() {
    let queue = PriorityQueueImpl::new();
    assert!(queue.is_empty());
    assert_eq!(queue.peek(), None);
}

#[test]
fn check_peek() {
    let mut queue = PriorityQueueImpl::new();
    assert!(queue.is_empty());

    queue.insert(vec![0], 5);
    assert_eq!(queue.peek(), Some(vec![0]));
    assert!(!queue.is_empty());
    assert_eq!(queue.size(), 1);
    assert_eq!(queue.peek(), Some(vec![0]));
}

#[test]
fn check_pop_empty() {
    let mut queue = PriorityQueueImpl::new();
    assert!(queue.is_empty());

    assert_eq!(queue.size(), 0);
    assert_eq!(queue.pop(), None);
}

#[test]
fn check_pop() {
    let mut queue = PriorityQueueImpl::new();
    assert!(queue.is_empty());

    queue.insert(vec![0], 5);
    assert_eq!(queue.pop(), Some(vec![0]));
    assert!(queue.is_empty());
    assert_eq!(queue.size(), 0);
    assert_eq!(queue.pop(), None);
}

#[test]
fn it_works() {
    let mut queue = PriorityQueueImpl::new();
    assert!(queue.is_empty());

    queue.insert(vec![0], 5);
    assert!(!queue.is_empty());
    assert_eq!(queue.peek(), Some(vec![0]));

    queue.insert(vec![1], 10);
    queue.insert(vec![2], 3);
    queue.insert(vec![3], 4);
    queue.insert(vec![4], 6);

    assert_eq!(queue.pop(), Some(vec![1]));
    assert_eq!(queue.pop(), Some(vec![4]));
    assert_eq!(queue.pop(), Some(vec![0]));
    assert_eq!(queue.pop(), Some(vec![3]));
    assert_eq!(queue.pop(), Some(vec![2]));

    assert!(queue.is_empty());
}

#[test]
fn check_new_instances() {
    let mut queue_first = PriorityQueueImpl::new();
    let mut queue_second = PriorityQueueImpl::new();
    assert!(queue_first.is_empty());
    assert!(queue_second.is_empty());

    queue_first.insert(vec![0], 5);
    assert_eq!(queue_first.peek(), Some(vec![0]));
    assert!(!queue_first.is_empty());
    assert!(queue_second.is_empty());

    queue_second.insert(vec![0], 5);
    assert_eq!(queue_first.peek(), Some(vec![0]));
    assert_eq!(queue_second.peek(), Some(vec![0]));
    assert!(!queue_first.is_empty());
    assert!(!queue_second.is_empty());
}
