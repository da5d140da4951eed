use crate::pool::{acquired, can_acquire, released, BUF_SIZE};
use crate::server::{lemma_received_wf, lemma_step_wf, payload, received, step, Action, Op, ServerModel};
use crate::table::Token;
use vstd::prelude::*;

verus! {

/// The sum of a sequence of byte counts.
pub open spec fn total(ws: Seq<i32>) -> int
    decreases ws.len(),
{
    if ws.len() == 0 {
        0
    } else {
        ws[0] + total(ws.drop_first())
    }
}

/// The server after the completions `ws` for handle `h`, one after another,
/// and the actions they gave, in order.
pub open spec fn run(m: ServerModel, h: usize, ws: Seq<i32>) -> (ServerModel, Seq<Action>)
    decreases ws.len(),
{
    if ws.len() == 0 {
        (m, Seq::empty())
    } else {
        let (m1, a) = step(m, h, ws[0]);
        let (m2, rest) = run(m1, h, ws.drop_first());
        (m2, seq![a] + rest)
    }
}

proof fn lemma_total_ge_last(ws: Seq<i32>)
    requires
        ws.len() > 0,
        forall|i: int| 0 <= i < ws.len() ==> ws[i] >= 0,
    ensures
        total(ws) >= ws.last(),
    decreases ws.len(),
{
    assert(ws[0] >= 0);
    if ws.len() > 1 {
        assert(forall|i: int| 0 <= i < ws.drop_first().len() ==> ws.drop_first()[i] == ws[i + 1]);
        lemma_total_ge_last(ws.drop_first());
        assert(ws.drop_first().last() == ws.last());
    } else {
        assert(total(ws.drop_first()) == 0);
    }
}

/// A write that the kernel completes in pieces `ws`, which add up to what was
/// left of it, is resumed once after each piece but the last, each time at
/// exactly the unwritten tail; only the last piece returns the connection to
/// polling and its buffer to the pool.
pub proof fn lemma_partial_writes(
    m: ServerModel,
    h: usize,
    fd: i32,
    buf: usize,
    offset: usize,
    len: usize,
    ws: Seq<i32>,
)
    requires
        m.table.get(h) == Some(Token::Write { fd, buf, offset, len }),
        ws.len() > 0,
        forall|i: int| 0 <= i < ws.len() ==> ws[i] >= 0,
        ws.last() > 0,
        offset + total(ws) == len,
    ensures
        run(m, h, ws).1.len() == ws.len(),
        forall|i: int|
            0 <= i < ws.len() - 1 ==> {
                let at = offset + total(ws.take(i + 1));
                #[trigger] run(m, h, ws).1[i] == Action::Submit {
                    handle: h,
                    op: Op::Write { fd, buf, offset: at as usize, len: (len - at) as usize },
                }
            },
        run(m, h, ws).1.last() == (Action::Submit { handle: h, op: Op::PollIn { fd } }),
        run(m, h, ws).0.table.get(h) == Some(Token::Poll { fd }),
        run(m, h, ws).0.pool == released(m.pool, buf),
    decreases ws.len(),
{
    let (m1, a) = step(m, h, ws[0]);
    let rest = ws.drop_first();
    if ws.len() == 1 {
        assert(total(rest) == 0);
        assert(run(m1, h, rest).1 =~= Seq::<Action>::empty());
    } else {
        lemma_total_ge_last(rest);
        assert(rest.last() == ws.last());
        let at = (offset + ws[0]) as usize;
        assert(m1.table.get(h) == Some(Token::Write { fd, buf, offset: at, len }));
        assert(forall|i: int| 0 <= i < rest.len() ==> rest[i] == ws[i + 1]);
        lemma_partial_writes(m1, h, fd, buf, at, len, rest);
        let acts = run(m, h, ws).1;
        assert(acts == seq![a] + run(m1, h, rest).1);
        assert forall|i: int| 0 <= i < ws.len() - 1 implies {
            let at2 = offset + total(ws.take(i + 1));
            #[trigger] acts[i] == Action::Submit {
                handle: h,
                op: Op::Write { fd, buf, offset: at2 as usize, len: (len - at2) as usize },
            }
        } by {
            assert(ws.take(i + 1).drop_first() =~= rest.take(i));
            assert(total(ws.take(i + 1)) == ws[0] + total(rest.take(i)));
            if i == 0 {
                assert(rest.take(0) =~= Seq::<i32>::empty());
            } else {
                assert(acts[i] == run(m1, h, rest).1[i - 1]);
                assert(rest.take(i) == rest.take((i - 1) + 1));
            }
        }
        assert(m1.pool == m.pool);
    }
}

/// A read that completes with no bytes closes the connection: its buffer is
/// the next one that the pool lends, its handle is dropped, and no later
/// completion under that handle submits anything until it is reused.
pub proof fn lemma_peer_close(m: ServerModel, h: usize, fd: i32, buf: usize)
    requires
        m.wf(),
        m.table.get(h) == Some(Token::Read { fd, buf }),
    ensures
        step(m, h, 0).1 == (Action::Close { fd }),
        step(m, h, 0).0.table.get(h) is None,
        step(m, h, 0).0.pool.free.contains(buf),
        acquired(step(m, h, 0).0.pool).1 == buf,
        forall|r: i32| #[trigger] step(step(m, h, 0).0, h, r).1 == (Action::Unknown { handle: h, result: r }),
{
    let m2 = step(m, h, 0).0;
    assert(m2.pool.free.last() == buf);
    assert(m2.pool.free[m2.pool.free.len() - 1] == buf);
}

/// No two live tokens borrow the same buffer, and a borrowed buffer is never
/// free.
pub proof fn lemma_buffer_exclusive(m: ServerModel, h1: usize, h2: usize)
    requires
        m.wf(),
        m.holds(h1) is Some,
        m.holds(h2) is Some,
        h1 != h2,
    ensures
        m.holds(h1) != m.holds(h2),
        !m.pool.free.contains(m.holds(h1).unwrap()),
{
}

/// One echo of `chunk` on a polling connection: the poll completes, the
/// chunk is read, the read completes with its length, and the write of it
/// completes whole. The server after it, and the bytes that the write sent.
pub open spec fn echo_once(m: ServerModel, h: usize, chunk: Seq<u8>) -> (ServerModel, Seq<u8>) {
    let m1 = step(m, h, 0).0;
    let m2 = received(m1, h, chunk).0;
    let (m3, a3) = step(m2, h, chunk.len() as i32);
    let sent = match a3 {
        Action::Submit { op, .. } => match payload(m3, op) {
            Some(p) => p,
            None => Seq::empty(),
        },
        _ => Seq::empty(),
    };
    (step(m3, h, chunk.len() as i32).0, sent)
}

/// Echoes of each of `chunks` in turn, and all the bytes sent, in order.
pub open spec fn echo_all(m: ServerModel, h: usize, chunks: Seq<Seq<u8>>) -> (ServerModel, Seq<u8>)
    decreases chunks.len(),
{
    if chunks.len() == 0 {
        (m, Seq::empty())
    } else {
        let (m1, s1) = echo_once(m, h, chunks[0]);
        let (m2, s2) = echo_all(m1, h, chunks.drop_first());
        (m2, s1 + s2)
    }
}

/// Bytes that arrive on a polling connection, no more than a buffer holds,
/// are written back unchanged and in order: the read fills a buffer, and the
/// write that follows covers exactly the bytes received.
pub proof fn lemma_echo_round_trip(m: ServerModel, h: usize, fd: i32, data: Seq<u8>)
    requires
        m.wf(),
        m.table.get(h) == Some(Token::Poll { fd }),
        can_acquire(m.pool),
        0 < data.len() <= BUF_SIZE,
    ensures
        ({
            let (m1, a1) = step(m, h, 0);
            let b = acquired(m.pool).1;
            let (m2, n) = received(m1, h, data);
            let (m3, a3) = step(m2, h, data.len() as i32);
            &&& a1 == Action::Submit { handle: h, op: Op::Read { fd, buf: b, len: BUF_SIZE } }
            &&& n == Some(data.len() as usize)
            &&& a3 == Action::Submit {
                handle: h,
                op: Op::Write { fd, buf: b, offset: 0, len: data.len() as usize },
            }
            &&& payload(m3, Op::Write { fd, buf: b, offset: 0, len: data.len() as usize }) == Some(data)
        }),
        echo_once(m, h, data).1 == data,
        echo_once(m, h, data).0.wf(),
        echo_once(m, h, data).0.table.get(h) == Some(Token::Poll { fd }),
        can_acquire(echo_once(m, h, data).0.pool),
{
    let (m1, a1) = step(m, h, 0);
    let b = acquired(m.pool).1;
    lemma_step_wf(m, h, 0);
    assert(m1.table.get(h) == Some(Token::Read { fd, buf: b }));
    assert(m1.holds(h) == Some(b));
    let (m2, n) = received(m1, h, data);
    lemma_received_wf(m1, h, data);
    let old_b = m1.pool.buffers[b as int];
    assert(m2.pool.buffers[b as int] == crate::pool::filled(old_b, data.subrange(0, data.len() as int)));
    assert(data.subrange(0, data.len() as int) =~= data);
    let l = data.len() as i32;
    assert(m2.table.get(h) == Some(Token::Read { fd, buf: b }));
    let (m3, a3) = step(m2, h, l);
    lemma_step_wf(m2, h, l);
    assert(m3.pool == m2.pool);
    assert(m2.pool.buffers[b as int].subrange(0, data.len() as int) =~= data);
    let m4 = step(m3, h, l).0;
    lemma_step_wf(m3, h, l);
    assert(m4.pool.free.len() > 0);
}

/// Bytes that arrive in several chunks, each no more than a buffer holds,
/// are written back whole, in their order, none twice and none dropped; the
/// connection is polling again afterwards.
pub proof fn lemma_echo_chunks(m: ServerModel, h: usize, fd: i32, chunks: Seq<Seq<u8>>)
    requires
        m.wf(),
        m.table.get(h) == Some(Token::Poll { fd }),
        can_acquire(m.pool),
        forall|i: int| 0 <= i < chunks.len() ==> 0 < (#[trigger] chunks[i]).len() <= BUF_SIZE,
    ensures
        echo_all(m, h, chunks).1 == chunks.flatten(),
        echo_all(m, h, chunks).0.wf(),
        echo_all(m, h, chunks).0.table.get(h) == Some(Token::Poll { fd }),
    decreases chunks.len(),
{
    if chunks.len() > 0 {
        assert(0 < chunks[0].len() <= BUF_SIZE);
        lemma_echo_round_trip(m, h, fd, chunks[0]);
        let m1 = echo_once(m, h, chunks[0]).0;
        let rest = chunks.drop_first();
        assert(forall|i: int| 0 <= i < rest.len() ==> rest[i] == chunks[i + 1]);
        lemma_echo_chunks(m1, h, fd, rest);
    }
}

} // verus!
