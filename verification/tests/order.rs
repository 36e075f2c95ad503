use kv_priority_queue::store::priority_key;
use kv_priority_queue::{PriorityQueue, PriorityQueueImpl};

fn drain(queue: &mut PriorityQueueImpl) -> Vec<Vec<u8>> {
    let mut served = Vec::new();
    while let Some(element) = queue.pop() {
        served.push(element);
    }
    served
}

#[test]
fn priority_key_is_big_endian() {
    assert_eq!(priority_key(0), (0, 0, 0, 0, 0, 0, 0, 0));
    assert_eq!(priority_key(1), (0, 0, 0, 0, 0, 0, 0, 1));
    assert_eq!(priority_key(256), (0, 0, 0, 0, 0, 0, 1, 0));
    assert_eq!(priority_key(0x0102_0304_0506_0708), (1, 2, 3, 4, 5, 6, 7, 8));
    assert_eq!(priority_key(u64::MAX), (255, 255, 255, 255, 255, 255, 255, 255));
}

#[test]
fn priority_key_order_is_numeric_order() {
    let priorities: [u64; 12] = [
        0,
        1,
        255,
        256,
        257,
        65535,
        65536,
        0x00ff_ffff_ffff_ffff,
        0x0100_0000_0000_0000,
        0x0100_0000_0000_0001,
        u64::MAX - 1,
        u64::MAX,
    ];
    for low in priorities {
        for high in priorities {
            assert_eq!(priority_key(low) < priority_key(high), low < high);
            assert_eq!(priority_key(low) == priority_key(high), low == high);
        }
    }
}

#[test]
fn size_counts_every_insert() {
    let mut queue = PriorityQueueImpl::new();
    for i in 0..100u64 {
        queue.insert(vec![i as u8], i % 7);
        assert_eq!(queue.size(), i as usize + 1);
    }
    assert_eq!(queue.size(), 100);
}

#[test]
fn size_counts_equal_payloads_at_one_priority() {
    let mut queue = PriorityQueueImpl::new();
    queue.insert(vec![1, 2], 9);
    queue.insert(vec![1, 2], 9);
    queue.insert(vec![1, 2], 9);
    assert_eq!(queue.size(), 3);
    assert_eq!(drain(&mut queue), vec![vec![1, 2], vec![1, 2], vec![1, 2]]);
}

#[test]
fn empty_and_size_and_peek_and_pop_agree() {
    let mut queue = PriorityQueueImpl::new();
    assert!(queue.is_empty());
    assert_eq!(queue.size(), 0);
    assert_eq!(queue.peek(), None);
    assert_eq!(queue.pop(), None);
    assert!(queue.is_empty());

    queue.insert(vec![3], 1);
    assert!(!queue.is_empty());
    assert_ne!(queue.size(), 0);
    assert_ne!(queue.peek(), None);
    assert_ne!(queue.pop(), None);

    assert!(queue.is_empty());
    assert_eq!(queue.size(), 0);
    assert_eq!(queue.peek(), None);
    assert_eq!(queue.pop(), None);
}

#[test]
fn pop_serves_priorities_that_never_rise() {
    let priorities: [u64; 10] = [5, 300, 5, 0, u64::MAX, 256, 255, 300, 1 << 40, 5];
    let mut queue = PriorityQueueImpl::new();
    for (i, priority) in priorities.iter().enumerate() {
        queue.insert(vec![i as u8], *priority);
    }
    let served = drain(&mut queue);
    assert_eq!(served.len(), priorities.len());
    for pair in served.windows(2) {
        let first = priorities[pair[0][0] as usize];
        let second = priorities[pair[1][0] as usize];
        assert!(first >= second);
    }
    assert!(queue.is_empty());
}

#[test]
fn pop_serves_the_last_comer_of_a_priority_first() {
    let mut queue = PriorityQueueImpl::new();
    queue.insert(vec![1], 7);
    queue.insert(vec![2], 3);
    queue.insert(vec![3], 7);
    queue.insert(vec![4], 3);
    queue.insert(vec![5], 7);
    assert_eq!(
        drain(&mut queue),
        vec![vec![5], vec![3], vec![1], vec![4], vec![2]]
    );
}

#[test]
fn pop_orders_priorities_across_byte_boundaries() {
    let mut queue = PriorityQueueImpl::new();
    queue.insert(vec![0], 255);
    queue.insert(vec![1], 256);
    queue.insert(vec![2], 1);
    queue.insert(vec![3], 0x0100_0000_0000_0000);
    queue.insert(vec![4], 0x00ff_ffff_ffff_ffff);
    queue.insert(vec![5], 65536);
    assert_eq!(queue.peek(), Some(vec![3]));
    assert_eq!(
        drain(&mut queue),
        vec![vec![3], vec![4], vec![5], vec![1], vec![0], vec![2]]
    );
}

#[test]
fn insert_above_the_top_then_pop_restores_the_queue() {
    let mut queue = PriorityQueueImpl::new();
    queue.insert(vec![1], 4);
    queue.insert(vec![2], 9);
    queue.insert(vec![3], 9);
    assert_eq!(queue.pop(), Some(vec![3]));
    assert_eq!(queue.size(), 2);
    assert_eq!(queue.peek(), Some(vec![2]));
    queue.insert(vec![4], 12);
    assert_eq!(queue.pop(), Some(vec![4]));
    assert_eq!(drain(&mut queue), vec![vec![2], vec![1]]);
}

#[test]
fn peek_does_not_change_the_queue() {
    let mut queue = PriorityQueueImpl::new();
    queue.insert(vec![1], 2);
    queue.insert(vec![2], 2);
    for _ in 0..3 {
        assert_eq!(queue.peek(), Some(vec![2]));
        assert_eq!(queue.size(), 2);
    }
    assert_eq!(drain(&mut queue), vec![vec![2], vec![1]]);
}

#[test]
fn empty_payloads_are_elements() {
    let mut queue = PriorityQueueImpl::new();
    queue.insert(vec![], 1);
    queue.insert(vec![], 1);
    queue.insert(vec![7], 0);
    assert_eq!(queue.size(), 3);
    assert_eq!(queue.peek(), Some(vec![]));
    assert_eq!(drain(&mut queue), vec![vec![], vec![], vec![7]]);
}

#[test]
fn long_payloads_come_back_whole() {
    let mut queue = PriorityQueueImpl::new();
    let long: Vec<u8> = (0..70000u32).map(|i| (i % 251) as u8).collect();
    queue.insert(vec![1], 3);
    queue.insert(long.clone(), 3);
    assert_eq!(queue.peek(), Some(long.clone()));
    assert_eq!(queue.pop(), Some(long));
    assert_eq!(queue.pop(), Some(vec![1]));
}

#[test]
fn a_priority_can_be_used_again_after_it_emptied() {
    let mut queue = PriorityQueueImpl::new();
    queue.insert(vec![1], 6);
    assert_eq!(queue.pop(), Some(vec![1]));
    assert!(queue.is_empty());
    queue.insert(vec![2], 6);
    queue.insert(vec![3], 6);
    assert_eq!(queue.size(), 2);
    assert_eq!(drain(&mut queue), vec![vec![3], vec![2]]);
}

#[test]
fn can_insert_holds_for_elements_of_ordinary_length() {
    let mut queue = PriorityQueueImpl::new();
    assert!(queue.can_insert(&vec![], 0));
    assert!(queue.can_insert(&vec![1, 2, 3], u64::MAX));
    queue.insert(vec![1, 2, 3], u64::MAX);
    queue.insert(vec![4], u64::MAX);
    assert!(queue.can_insert(&vec![0; 70000], u64::MAX));
    assert!(queue.can_insert(&vec![9], 17));
    assert_eq!(queue.size(), 2);
    assert_eq!(queue.peek(), Some(vec![4]));
}

#[test]
fn queues_do_not_share_state() {
    let mut first = PriorityQueueImpl::new();
    let mut second = PriorityQueueImpl::new();
    first.insert(vec![1], 10);
    first.insert(vec![2], 20);
    assert_eq!(second.size(), 0);
    assert_eq!(second.peek(), None);

    second.insert(vec![9], 5);
    assert_eq!(first.size(), 2);
    assert_eq!(first.peek(), Some(vec![2]));

    assert_eq!(first.pop(), Some(vec![2]));
    assert_eq!(second.size(), 1);
    assert_eq!(second.peek(), Some(vec![9]));

    assert_eq!(second.pop(), Some(vec![9]));
    assert_eq!(first.size(), 1);
    assert_eq!(first.peek(), Some(vec![1]));
}
