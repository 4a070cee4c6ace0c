use burst_capture::Fifo;

#[test]
fn empty_queue_has_nothing() {
    let mut q: Fifo<u32> = Fifo::new();
    assert_eq!(q.len(), 0);
    assert!(q.peek().is_none());
    assert!(q.dequeue().is_none());
}

#[test]
fn peek_does_not_remove() {
    let mut q: Fifo<u32> = Fifo::new();
    q.enqueue(7);
    q.enqueue(8);
    assert_eq!(q.peek(), Some(&7));
    assert_eq!(q.peek(), Some(&7));
    assert_eq!(q.len(), 2);
    assert_eq!(q.dequeue(), Some(7));
    assert_eq!(q.peek(), Some(&8));
}

#[test]
fn order_kept_across_growth_with_interleaved_dequeues() {
    let mut q: Fifo<u64> = Fifo::with_capacity(3);
    let mut next_in: u64 = 0;
    let mut next_out: u64 = 0;
    for round in 0..200u64 {
        for _ in 0..(round % 5 + 2) {
            q.enqueue(next_in);
            next_in += 1;
        }
        for _ in 0..(round % 3 + 1) {
            assert_eq!(q.dequeue(), Some(next_out));
            next_out += 1;
        }
    }
    while let Some(v) = q.dequeue() {
        assert_eq!(v, next_out);
        next_out += 1;
    }
    assert_eq!(next_out, next_in);
    assert!(next_in > 3);
}

#[test]
fn order_kept_past_default_capacity() {
    let mut q: Fifo<(usize, u64)> = Fifo::new();
    for i in 0..300usize {
        q.enqueue((i, i as u64 * 10));
    }
    for i in 0..100usize {
        assert_eq!(q.dequeue(), Some((i, i as u64 * 10)));
    }
    for i in 300..1500usize {
        q.enqueue((i, i as u64 * 10));
    }
    assert_eq!(q.len(), 1400);
    for i in 100..1500usize {
        assert_eq!(q.dequeue(), Some((i, i as u64 * 10)));
    }
    assert!(q.dequeue().is_none());
}

#[test]
fn wraps_around_without_growing_order() {
    let mut q: Fifo<String> = Fifo::with_capacity(2);
    q.enqueue("a".to_string());
    q.enqueue("b".to_string());
    assert_eq!(q.dequeue(), Some("a".to_string()));
    q.enqueue("c".to_string());
    q.enqueue("d".to_string());
    assert_eq!(q.dequeue(), Some("b".to_string()));
    assert_eq!(q.dequeue(), Some("c".to_string()));
    assert_eq!(q.dequeue(), Some("d".to_string()));
    assert_eq!(q.dequeue(), None);
}
