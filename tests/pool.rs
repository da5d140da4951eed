use uring_echo::pool::{BufferPool, BUF_SIZE};

#[test]
fn pool_allocates_then_reuses() {
    let mut p = BufferPool::new();
    assert_eq!(p.len(), 0);
    assert_eq!(p.acquire(), Some(0));
    assert_eq!(p.acquire(), Some(1));
    assert_eq!(p.len(), 2);
    assert_eq!(p.buffer(1).len(), BUF_SIZE);
    assert!(p.buffer(1).iter().all(|&b| b == 0));
    p.release(0);
    assert!(p.is_free(0));
    assert!(!p.is_free(1));
    assert_eq!(p.free_count(), 1);
    assert_eq!(p.acquire(), Some(0));
    assert_eq!(p.len(), 2);
    assert_eq!(p.free_count(), 0);
}

#[test]
fn pool_reuses_most_recent_first() {
    let mut p = BufferPool::new();
    p.acquire();
    p.acquire();
    p.acquire();
    p.release(2);
    p.release(0);
    assert_eq!(p.acquire(), Some(0));
    assert_eq!(p.acquire(), Some(2));
    assert_eq!(p.acquire(), Some(3));
}

#[test]
fn pool_fill_and_span() {
    let mut p = BufferPool::new();
    let i = p.acquire().unwrap();
    assert_eq!(p.fill(i, b"hello"), 5);
    assert_eq!(p.span(i, 0, 5), b"hello".to_vec());
    assert_eq!(p.span(i, 1, 3), b"ell".to_vec());
    assert_eq!(p.fill(i, b"HE"), 2);
    assert_eq!(p.span(i, 0, 5), b"HEllo".to_vec());
    let big = vec![7u8; BUF_SIZE + 10];
    assert_eq!(p.fill(i, &big), BUF_SIZE);
    assert!(p.buffer(i).iter().all(|&b| b == 7));
}
