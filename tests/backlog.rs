use uring_echo::backlog::{Backlog, Entry};
use uring_echo::server::Op;

#[test]
fn backlog_retries_in_order() {
    let mut b = Backlog::new();
    assert_eq!(b.next(), None);
    assert!(!b.pushed());
    let e1 = Entry { handle: 1, op: Op::PollIn { fd: 4 } };
    let e2 = Entry { handle: 2, op: Op::Read { fd: 5, buf: 0, len: 2048 } };
    b.defer(e1);
    b.defer(e2);
    assert_eq!(b.len(), 2);
    assert_eq!(b.next(), Some(e1));
    // the ring was full: nothing is taken, the same entry comes next time
    assert_eq!(b.next(), Some(e1));
    assert!(b.pushed());
    assert_eq!(b.next(), Some(e2));
    assert!(b.pushed());
    assert_eq!(b.len(), 0);
}
