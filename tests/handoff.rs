use uring_echo::handoff::{Completion, HandoffQueue};

fn c(handle: usize, result: i32) -> Completion {
    Completion { handle, result }
}

#[test]
fn handoff_is_fifo() {
    let mut q = HandoffQueue::new();
    assert!(q.is_empty());
    q.push(c(1, 10));
    q.push(c(2, 20));
    q.push(c(1, 0));
    assert_eq!(q.len(), 3);
    assert_eq!(q.pop(), Some(c(1, 10)));
    assert_eq!(q.pop(), Some(c(2, 20)));
    assert_eq!(q.pop(), Some(c(1, 0)));
    assert_eq!(q.pop(), None);
}

#[test]
fn handoff_order_under_interleaving() {
    let mut q = HandoffQueue::new();
    q.push_all(&[c(0, 1), c(0, 2)]);
    assert_eq!(q.pop(), Some(c(0, 1)));
    q.push_all(&[c(0, 3)]);
    q.push(c(0, 4));
    let rest = q.drain();
    assert_eq!(rest, vec![c(0, 2), c(0, 3), c(0, 4)]);
    assert!(q.is_empty());
}
