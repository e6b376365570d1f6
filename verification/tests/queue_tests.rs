use microps_utils::handle_queue::{
    create_queue_head, queue_init, queue_peek, queue_pop, queue_push,
};
use microps_utils::queue::{Queue, QueueEntry};

#[test]
fn queue_is_first_in_first_out() {
    let mut q: Queue<u32> = Queue::new();
    assert!(q.peek().is_none());
    q.push(QueueEntry::new(1));
    q.push(QueueEntry::new(2));
    q.push(QueueEntry::new(3));
    assert_eq!(q.peek(), Some(&1));
    assert_eq!(*q.pop().unwrap().data(), 1);
    assert_eq!(*q.pop().unwrap().data(), 2);
    q.push(QueueEntry::new(4));
    assert_eq!(*q.pop().unwrap().data(), 3);
    assert_eq!(*q.pop().unwrap().data(), 4);
    assert!(q.pop().is_none());
    assert!(q.peek().is_none());
}

#[test]
fn push_then_pop_on_empty_queue_gives_the_value_back() {
    let mut q: Queue<String> = Queue::new();
    q.push(QueueEntry::new(String::from("frame")));
    let e = q.pop().unwrap();
    assert_eq!(e.data(), "frame");
    assert!(q.pop().is_none());
}

#[test]
fn foreach_changes_every_value_in_order() {
    let mut q: Queue<u32> = Queue::new();
    for v in [10, 20, 30] {
        q.push(QueueEntry::new(v));
    }
    let mut seen: Vec<u32> = Vec::new();
    q.foreach(|v| {
        seen.push(v);
        v + 1
    });
    assert_eq!(seen, vec![10, 20, 30]);
    assert_eq!(*q.pop().unwrap().data(), 11);
    assert_eq!(*q.pop().unwrap().data(), 21);
    assert_eq!(*q.pop().unwrap().data(), 31);
    assert!(q.pop().is_none());
}

#[test]
fn foreach_on_empty_queue_calls_nothing() {
    let mut q: Queue<u8> = Queue::new();
    let mut calls = 0;
    q.foreach(|v| {
        calls += 1;
        v
    });
    assert_eq!(calls, 0);
}

#[test]
fn handle_queue_counts_and_orders_handles() {
    let mut q = create_queue_head();
    assert_eq!(q.num(), 0);
    assert_eq!(queue_peek(&q), None);
    assert_eq!(queue_pop(&mut q), None);
    assert_eq!(queue_push(&mut q, 0x1000), 0x1000);
    assert_eq!(queue_push(&mut q, 0x2000), 0x2000);
    assert_eq!(q.num(), 2);
    assert_eq!(queue_peek(&q), Some(0x1000));
    assert_eq!(queue_pop(&mut q), Some(0x1000));
    assert_eq!(q.num(), 1);
    assert_eq!(queue_pop(&mut q), Some(0x2000));
    assert_eq!(queue_pop(&mut q), None);
    assert_eq!(q.num(), 0);
}

#[test]
fn queue_init_empties_the_queue() {
    let mut q = create_queue_head();
    queue_push(&mut q, 7);
    queue_push(&mut q, 8);
    queue_init(&mut q);
    assert_eq!(q.num(), 0);
    assert_eq!(queue_peek(&q), None);
    queue_push(&mut q, 9);
    assert_eq!(queue_pop(&mut q), Some(9));
}
