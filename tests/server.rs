use uring_echo::handoff::{Completion, HandoffQueue};
use uring_echo::pool::BUF_SIZE;
use uring_echo::server::{Action, EchoServer, Op};
use uring_echo::table::Token;

fn done(handle: usize, result: i32) -> Completion {
    Completion { handle, result }
}

/// Accepts connection `fd` and returns the handle of its poll.
fn connect(s: &mut EchoServer, fd: i32) -> usize {
    match s.complete(done(s.accept_handle(), fd)) {
        Action::Submit { handle, op: Op::PollIn { fd: f } } => {
            assert_eq!(f, fd);
            handle
        }
        other => panic!("unexpected {:?}", other),
    }
}

#[test]
fn accept_starts_polling() {
    let mut s = EchoServer::new(3, 3);
    assert_eq!(s.accept_handle(), 0);
    assert_eq!(s.token(0), Some(Token::Accept));
    assert_eq!(s.pending_accepts(), 3);
    assert_eq!(s.accept_submission(), Action::Submit { handle: 0, op: Op::Accept { fd: 3 } });
    assert!(s.accept_pushed());
    assert!(s.accept_pushed());
    assert!(s.accept_pushed());
    assert!(!s.accept_pushed());
    assert_eq!(s.pending_accepts(), 0);
    let h = connect(&mut s, 7);
    assert_eq!(h, 1);
    assert_eq!(s.token(1), Some(Token::Poll { fd: 7 }));
    assert_eq!(s.pending_accepts(), 1);
}

#[test]
fn ping_scenario() {
    let mut s = EchoServer::new(3, 1);
    let h = connect(&mut s, 9);
    let a = s.complete(done(h, 1));
    assert_eq!(a, Action::Submit { handle: h, op: Op::Read { fd: 9, buf: 0, len: BUF_SIZE } });
    assert_eq!(s.receive(h, b"ping"), Some(4));
    let a = s.complete(done(h, 4));
    let op = Op::Write { fd: 9, buf: 0, offset: 0, len: 4 };
    assert_eq!(a, Action::Submit { handle: h, op });
    assert_eq!(s.payload(op), Some(b"ping".to_vec()));
    let a = s.complete(done(h, 4));
    assert_eq!(a, Action::Submit { handle: h, op: Op::PollIn { fd: 9 } });
    assert_eq!(s.token(h), Some(Token::Poll { fd: 9 }));
    assert!(s.pool().is_free(0));
    // the client closes
    let a = s.complete(done(h, 1));
    assert_eq!(a, Action::Submit { handle: h, op: Op::Read { fd: 9, buf: 0, len: BUF_SIZE } });
    assert_eq!(s.complete(done(h, 0)), Action::Close { fd: 9 });
    assert_eq!(s.token(h), None);
    assert!(s.pool().is_free(0));
    assert_eq!(s.complete(done(h, 5)), Action::Unknown { handle: h, result: 5 });
}

#[test]
fn echo_round_trip_full_buffer() {
    let mut s = EchoServer::new(3, 1);
    let h = connect(&mut s, 4);
    s.complete(done(h, 1));
    let data: Vec<u8> = (0..BUF_SIZE).map(|i| (i % 251) as u8).collect();
    assert_eq!(s.receive(h, &data), Some(BUF_SIZE));
    let a = s.complete(done(h, BUF_SIZE as i32));
    let op = Op::Write { fd: 4, buf: 0, offset: 0, len: BUF_SIZE };
    assert_eq!(a, Action::Submit { handle: h, op });
    assert_eq!(s.payload(op), Some(data));
}

#[test]
fn multi_chunk_echo_in_order() {
    let mut s = EchoServer::new(3, 1);
    let h = connect(&mut s, 4);
    let message: Vec<u8> = (0..5000u32).map(|i| (i * 7 % 256) as u8).collect();
    let mut echoed: Vec<u8> = Vec::new();
    for chunk in message.chunks(BUF_SIZE) {
        let buf = match s.complete(done(h, 1)) {
            Action::Submit { op: Op::Read { buf, .. }, .. } => buf,
            other => panic!("unexpected {:?}", other),
        };
        assert_eq!(s.receive(h, chunk), Some(chunk.len()));
        let a = s.complete(done(h, chunk.len() as i32));
        let op = Op::Write { fd: 4, buf, offset: 0, len: chunk.len() };
        assert_eq!(a, Action::Submit { handle: h, op });
        echoed.extend(s.payload(op).unwrap());
        s.complete(done(h, chunk.len() as i32));
    }
    assert_eq!(echoed, message);
}

#[test]
fn partial_writes_resume_at_tail() {
    let mut s = EchoServer::new(3, 1);
    let h = connect(&mut s, 5);
    s.complete(done(h, 1));
    s.receive(h, b"0123456789");
    s.complete(done(h, 10));
    let a = s.complete(done(h, 4));
    let op = Op::Write { fd: 5, buf: 0, offset: 4, len: 6 };
    assert_eq!(a, Action::Submit { handle: h, op });
    assert_eq!(s.payload(op), Some(b"456789".to_vec()));
    assert_eq!(s.token(h), Some(Token::Write { fd: 5, buf: 0, offset: 4, len: 10 }));
    let a = s.complete(done(h, 2));
    let op = Op::Write { fd: 5, buf: 0, offset: 6, len: 4 };
    assert_eq!(a, Action::Submit { handle: h, op });
    assert_eq!(s.payload(op), Some(b"6789".to_vec()));
    assert!(!s.pool().is_free(0));
    let a = s.complete(done(h, 0));
    assert_eq!(a, Action::Submit { handle: h, op });
    let a = s.complete(done(h, 4));
    assert_eq!(a, Action::Submit { handle: h, op: Op::PollIn { fd: 5 } });
    assert!(s.pool().is_free(0));
}

#[test]
fn buffers_not_shared_between_connections() {
    let mut s = EchoServer::new(3, 2);
    let h1 = connect(&mut s, 10);
    let h2 = connect(&mut s, 11);
    s.complete(done(h1, 1));
    s.complete(done(h2, 1));
    let b1 = match s.token(h1) {
        Some(Token::Read { buf, .. }) => buf,
        other => panic!("unexpected {:?}", other),
    };
    let b2 = match s.token(h2) {
        Some(Token::Read { buf, .. }) => buf,
        other => panic!("unexpected {:?}", other),
    };
    assert_ne!(b1, b2);
    // h1's peer closes; its buffer goes to h2's next read after h2 echoes
    assert_eq!(s.complete(done(h1, 0)), Action::Close { fd: 10 });
    s.receive(h2, b"abc");
    s.complete(done(h2, 3));
    s.complete(done(h2, 3));
    let a = s.complete(done(h2, 1));
    assert_eq!(a, Action::Submit { handle: h2, op: Op::Read { fd: 11, buf: b2, len: BUF_SIZE } });
    let h3 = connect(&mut s, 12);
    assert_eq!(h3, h1);
    let a = s.complete(done(h3, 1));
    assert_eq!(a, Action::Submit { handle: h3, op: Op::Read { fd: 12, buf: b1, len: BUF_SIZE } });
}

#[test]
fn errors_leave_tokens_unchanged() {
    let mut s = EchoServer::new(3, 1);
    s.accept_pushed();
    let a = s.complete(done(0, -11));
    assert_eq!(a, Action::Failed { handle: 0, token: Token::Accept, result: -11 });
    assert_eq!(s.pending_accepts(), 1);
    let h = connect(&mut s, 6);
    s.complete(done(h, 1));
    let a = s.complete(done(h, -104));
    assert_eq!(a, Action::Failed { handle: h, token: Token::Read { fd: 6, buf: 0 }, result: -104 });
    assert_eq!(s.token(h), Some(Token::Read { fd: 6, buf: 0 }));
    assert!(!s.pool().is_free(0));
}

#[test]
fn oversized_read_and_unknown_handle() {
    let mut s = EchoServer::new(3, 1);
    let h = connect(&mut s, 6);
    s.complete(done(h, 1));
    let big = BUF_SIZE as i32 + 1;
    assert_eq!(s.complete(done(h, big)), Action::Invalid { handle: h, result: big });
    assert_eq!(s.token(h), Some(Token::Read { fd: 6, buf: 0 }));
    assert_eq!(s.complete(done(99, 1)), Action::Unknown { handle: 99, result: 1 });
    assert_eq!(s.receive(99, b"x"), None);
    assert_eq!(s.payload(Op::PollIn { fd: 6 }), None);
    assert_eq!(s.payload(Op::Write { fd: 6, buf: 7, offset: 0, len: 1 }), None);
}

#[test]
fn completions_dispatched_in_handoff_order() {
    let mut s = EchoServer::new(3, 1);
    let h = connect(&mut s, 8);
    let mut q = HandoffQueue::new();
    q.push(done(h, 1));
    s.complete(done(h, 1));
    s.receive(h, b"xy");
    q.push(done(h, 2));
    q.push(done(h, 2));
    q.pop();
    let mut actions = Vec::new();
    while let Some(c) = q.pop() {
        actions.push(s.complete(c));
    }
    assert_eq!(
        actions,
        vec![
            Action::Submit { handle: h, op: Op::Write { fd: 8, buf: 0, offset: 0, len: 2 } },
            Action::Submit { handle: h, op: Op::PollIn { fd: 8 } },
        ]
    );
}
