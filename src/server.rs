use crate::handoff::Completion;
use crate::pool::{acquired, can_acquire, filled, released, BufferPool, PoolModel, BUF_SIZE};
use crate::table::{can_insert, inserted, removed, replaced, TableModel, Token, TokenTable};
use vstd::prelude::*;

verus! {

/// An operation to push onto the submission queue.
#[derive(Clone, Copy, Debug, PartialEq, Eq, Structural)]
pub enum Op {
    /// Accept a connection on the listening socket `fd`.
    Accept { fd: i32 },
    /// Wait until `fd` is readable.
    PollIn { fd: i32 },
    /// Read up to `len` bytes from `fd` into the start of buffer `buf`.
    Read { fd: i32, buf: usize, len: usize },
    /// Write `len` bytes of buffer `buf`, from `offset` on, to `fd`.
    Write { fd: i32, buf: usize, offset: usize, len: usize },
}

/// What the server asks of its driver after one completion.
#[derive(Clone, Copy, Debug, PartialEq, Eq, Structural)]
pub enum Action {
    /// Push `op` tagged with `handle`.
    Submit { handle: usize, op: Op },
    /// The peer closed: close `fd`; nothing more is submitted for it.
    Close { fd: i32 },
    /// The operation of `handle` failed with `result` (a negated errno);
    /// `token` is its last state, which is left as it was.
    Failed { handle: usize, token: Token, result: i32 },
    /// A read of `handle` reported more bytes than its buffer holds.
    Invalid { handle: usize, result: i32 },
    /// No handle or buffer index is left to serve the completion of
    /// `handle`; nothing changed.
    Exhausted { handle: usize, result: i32 },
    /// No live token is kept under `handle`.
    Unknown { handle: usize, result: i32 },
}

/// The state of the server: its tokens, its buffers, and how many accept
/// operations are owed to the submission queue.
pub ghost struct ServerModel {
    pub table: TableModel,
    pub pool: PoolModel,
    pub accepts: int,
}

/// The buffer that a token borrows, if any.
pub open spec fn borrowed(t: Token) -> Option<usize> {
    match t {
        Token::Read { buf, .. } => Some(buf),
        Token::Write { buf, .. } => Some(buf),
        _ => None,
    }
}

impl ServerModel {
    /// The buffer borrowed by the live token under `h`, if any.
    pub open spec fn holds(self, h: usize) -> Option<usize> {
        match self.table.get(h) {
            Some(t) => borrowed(t),
            None => None,
        }
    }

    /// Table and pool are well formed; a borrowed buffer exists, is not free
    /// and is borrowed by one token only; a write in flight stays inside its
    /// buffer.
    pub open spec fn wf(self) -> bool {
        &&& self.table.wf()
        &&& self.pool.wf()
        &&& 0 <= self.accepts <= usize::MAX
        &&& forall|h: usize| #[trigger] self.holds(h) is Some ==> {
            &&& self.holds(h).unwrap() < self.pool.buffers.len()
            &&& !self.pool.free.contains(self.holds(h).unwrap())
        }
        &&& forall|h1: usize, h2: usize|
            #[trigger] self.holds(h1) is Some && #[trigger] self.holds(h2) is Some && h1 != h2
                ==> self.holds(h1) != self.holds(h2)
        &&& forall|h: usize| #[trigger] self.table.get(h) is Some ==> match self.table.get(h).unwrap() {
            Token::Write { offset, len, .. } => offset < len <= BUF_SIZE,
            _ => true,
        }
    }
}

/// `n + 1`, held at `usize::MAX`.
pub open spec fn bump(n: int) -> int {
    if n < usize::MAX {
        n + 1
    } else {
        n
    }
}

/// The server after one completion `(h, result)`, and what it asks for.
pub open spec fn step(m: ServerModel, h: usize, result: i32) -> (ServerModel, Action) {
    match m.table.get(h) {
        None => (m, Action::Unknown { handle: h, result }),
        Some(t) => if result < 0 {
            let accepts = if t is Accept { bump(m.accepts) } else { m.accepts };
            (ServerModel { accepts, ..m }, Action::Failed { handle: h, token: t, result })
        } else {
            match t {
                Token::Accept => if !can_insert(m.table) {
                    (m, Action::Exhausted { handle: h, result })
                } else {
                    let (table, nh) = inserted(m.table, Token::Poll { fd: result });
                    (
                        ServerModel { table, pool: m.pool, accepts: bump(m.accepts) },
                        Action::Submit { handle: nh, op: Op::PollIn { fd: result } },
                    )
                },
                Token::Poll { fd } => if !can_acquire(m.pool) {
                    (m, Action::Exhausted { handle: h, result })
                } else {
                    let (pool, b) = acquired(m.pool);
                    (
                        ServerModel {
                            table: replaced(m.table, h, Token::Read { fd, buf: b }),
                            pool,
                            accepts: m.accepts,
                        },
                        Action::Submit { handle: h, op: Op::Read { fd, buf: b, len: BUF_SIZE } },
                    )
                },
                Token::Read { fd, buf } => if result == 0 {
                    (
                        ServerModel {
                            table: removed(m.table, h),
                            pool: released(m.pool, buf),
                            accepts: m.accepts,
                        },
                        Action::Close { fd },
                    )
                } else if result > BUF_SIZE {
                    (m, Action::Invalid { handle: h, result })
                } else {
                    let n = result as usize;
                    (
                        ServerModel {
                            table: replaced(m.table, h, Token::Write { fd, buf, offset: 0, len: n }),
                            ..m
                        },
                        Action::Submit { handle: h, op: Op::Write { fd, buf, offset: 0, len: n } },
                    )
                },
                Token::Write { fd, buf, offset, len } => if offset + result >= len {
                    (
                        ServerModel {
                            table: replaced(m.table, h, Token::Poll { fd }),
                            pool: released(m.pool, buf),
                            accepts: m.accepts,
                        },
                        Action::Submit { handle: h, op: Op::PollIn { fd } },
                    )
                } else {
                    let at = (offset + result) as usize;
                    (
                        ServerModel {
                            table: replaced(m.table, h, Token::Write { fd, buf, offset: at, len }),
                            ..m
                        },
                        Action::Submit {
                            handle: h,
                            op: Op::Write { fd, buf, offset: at, len: (len - at) as usize },
                        },
                    )
                },
            }
        },
    }
}

/// Every step keeps the server well formed.
pub proof fn lemma_step_wf(m: ServerModel, h: usize, result: i32)
    requires
        m.wf(),
    ensures
        step(m, h, result).0.wf(),
{
    let m2 = step(m, h, result).0;
    match m.table.get(h) {
        None => {},
        Some(t) => {
            if result < 0 {
                assert forall|k: usize| #[trigger] m2.holds(k) == m.holds(k) by {}
                assert forall|k: usize| #[trigger] m2.table.get(k) == m.table.get(k) by {}
            } else {
                match t {
                    Token::Accept => if can_insert(m.table) {
                        let nh = inserted(m.table, Token::Poll { fd: result }).1;
                        assert(m.table.get(nh) is None) by {
                            if m.table.vacant.len() > 0 {
                                assert(m.table.vacant[m.table.vacant.len() - 1] == nh);
                            }
                        }
                        assert forall|k: usize| k != nh implies #[trigger] m2.table.get(k) == m.table.get(k) by {}
                        assert forall|k: usize| k != nh implies #[trigger] m2.holds(k) == m.holds(k) by {
                            assert(m2.table.get(k) == m.table.get(k));
                        }
                        assert(m2.holds(nh) is None);
                        assert(m2.table.wf()) by {
                            if m.table.vacant.len() > 0 {
                                let v = m.table.vacant;
                                assert forall|i: int| 0 <= i < m2.table.vacant.len() implies {
                                    &&& (#[trigger] m2.table.vacant[i]) < m2.table.slots.len()
                                    &&& m2.table.slots[m2.table.vacant[i] as int] is None
                                } by {
                                    assert(m2.table.vacant[i] == v[i]);
                                    assert(v[i] != v[v.len() - 1]);
                                }
                            } else {
                                assert forall|i: int| 0 <= i < m2.table.vacant.len() implies {
                                    &&& (#[trigger] m2.table.vacant[i]) < m2.table.slots.len()
                                    &&& m2.table.slots[m2.table.vacant[i] as int] is None
                                } by {
                                    assert(m2.table.slots[m2.table.vacant[i] as int]
                                        == m.table.slots[m.table.vacant[i] as int]);
                                }
                            }
                        }
                    },
                    Token::Poll { fd } => if can_acquire(m.pool) {
                        lemma_poll_wf(m, h, fd, result);
                    },
                    Token::Read { fd, buf } => {
                        if result == 0 {
                            lemma_release_wf(m, h, buf, None);
                        } else if result > BUF_SIZE {
                        } else {
                            let nt = Token::Write { fd, buf, offset: 0, len: result as usize };
                            assert forall|k: usize| k != h implies #[trigger] m2.table.get(k) == m.table.get(k) by {}
                            assert forall|k: usize| #[trigger] m2.holds(k) == m.holds(k) by {
                                if k != h {
                                    assert(m2.table.get(k) == m.table.get(k));
                                }
                            }
                            lemma_replaced_wf(m.table, h, nt);
                        }
                    },
                    Token::Write { fd, buf, offset, len } => {
                        if offset + result >= len {
                            lemma_release_wf(m, h, buf, Some(fd));
                        } else {
                            let nt = Token::Write { fd, buf, offset: (offset + result) as usize, len };
                            assert forall|k: usize| k != h implies #[trigger] m2.table.get(k) == m.table.get(k) by {}
                            assert forall|k: usize| #[trigger] m2.holds(k) == m.holds(k) by {
                                if k != h {
                                    assert(m2.table.get(k) == m.table.get(k));
                                }
                            }
                            lemma_replaced_wf(m.table, h, nt);
                        }
                    },
                }
            }
        },
    }
}

proof fn lemma_replaced_wf(t: TableModel, h: usize, nt: Token)
    requires
        t.wf(),
        t.get(h) is Some,
    ensures
        replaced(t, h, nt).wf(),
{
    let t2 = replaced(t, h, nt);
    assert forall|i: int| 0 <= i < t2.vacant.len() implies {
        &&& (#[trigger] t2.vacant[i]) < t2.slots.len()
        &&& t2.slots[t2.vacant[i] as int] is None
    } by {
        assert(t.vacant[i] != h);
    }
}

proof fn lemma_poll_wf(m: ServerModel, h: usize, fd: i32, result: i32)
    requires
        m.wf(),
        m.table.get(h) == Some(Token::Poll { fd }),
        can_acquire(m.pool),
        result >= 0,
    ensures
        step(m, h, result).0.wf(),
{
    let (pool, b) = acquired(m.pool);
    let m2 = step(m, h, result).0;
    lemma_replaced_wf(m.table, h, Token::Read { fd, buf: b });
    assert forall|k: usize| k != h implies #[trigger] m2.table.get(k) == m.table.get(k) by {}
    assert forall|k: usize| k != h implies #[trigger] m2.holds(k) == m.holds(k) by {
        assert(m2.table.get(k) == m.table.get(k));
    }
    assert(m2.holds(h) == Some(b));
    let f = m.pool.free;
    if f.len() > 0 {
        assert(b == f[f.len() - 1]);
        assert(f.contains(b));
        assert forall|k: usize| k != h && #[trigger] m.holds(k) is Some implies m.holds(k) != Some(b) by {}
        assert forall|x: usize| pool.free.contains(x) implies m.pool.free.contains(x) by {
            let i = choose|i: int| 0 <= i < pool.free.len() && pool.free[i] == x;
            assert(f[i] == x);
        }
        assert(!pool.free.contains(b)) by {
            if pool.free.contains(b) {
                let i = choose|i: int| 0 <= i < pool.free.len() && pool.free[i] == b;
                assert(f[i] == b && f[f.len() - 1] == b);
            }
        }
        assert forall|i: int| 0 <= i < pool.buffers.len() implies (#[trigger] pool.buffers[i]).len() == BUF_SIZE by {}
        assert(pool.free.no_duplicates());
        assert forall|i: int| 0 <= i < pool.free.len() implies (#[trigger] pool.free[i]) < pool.buffers.len() by {
            assert(pool.free[i] == f[i]);
        }
    } else {
        assert(b == m.pool.buffers.len());
        assert forall|i: int| 0 <= i < pool.buffers.len() implies (#[trigger] pool.buffers[i]).len() == BUF_SIZE by {
            if i < m.pool.buffers.len() {
                assert(pool.buffers[i] == m.pool.buffers[i]);
            }
        }
        assert forall|i: int| 0 <= i < pool.free.len() implies (#[trigger] pool.free[i]) < pool.buffers.len() by {
            assert(m.pool.free[i] < m.pool.buffers.len());
        }
    }
}

proof fn lemma_release_wf(m: ServerModel, h: usize, buf: usize, next: Option<i32>)
    requires
        m.wf(),
        m.holds(h) == Some(buf),
        next is None ==> m.table.get(h) matches Some(Token::Read { .. }),
        next is Some ==> m.table.get(h) matches Some(Token::Write { .. }),
    ensures
        ({
            let table = match next {
                None => removed(m.table, h),
                Some(fd) => replaced(m.table, h, Token::Poll { fd }),
            };
            (ServerModel { table, pool: released(m.pool, buf), accepts: m.accepts }).wf()
        }),
{
    let table = match next {
        None => removed(m.table, h),
        Some(fd) => replaced(m.table, h, Token::Poll { fd }),
    };
    let m2 = ServerModel { table, pool: released(m.pool, buf), accepts: m.accepts };
    assert forall|k: usize| k != h implies #[trigger] m2.table.get(k) == m.table.get(k) by {}
    assert forall|k: usize| k != h implies #[trigger] m2.holds(k) == m.holds(k) by {
        assert(m2.table.get(k) == m.table.get(k));
    }
    assert(m2.holds(h) is None);
    match next {
        None => {
            assert(!m.table.vacant.contains(h));
            assert forall|i: int| 0 <= i < m2.table.vacant.len() implies {
                &&& (#[trigger] m2.table.vacant[i]) < m2.table.slots.len()
                &&& m2.table.slots[m2.table.vacant[i] as int] is None
            } by {
                if i < m.table.vacant.len() {
                    assert(m2.table.vacant[i] == m.table.vacant[i]);
                }
            }
            assert forall|i: int, j: int|
                0 <= i < m2.table.vacant.len() && 0 <= j < m2.table.vacant.len() && i != j implies
                m2.table.vacant[i] != m2.table.vacant[j] by {
                if i < m.table.vacant.len() && j < m.table.vacant.len() {
                } else if i < m.table.vacant.len() {
                    assert(m.table.vacant.contains(m2.table.vacant[i]));
                } else {
                    assert(m.table.vacant.contains(m2.table.vacant[j]));
                }
            }
        },
        Some(fd) => {
            lemma_replaced_wf(m.table, h, Token::Poll { fd });
        },
    }
    let f = m.pool.free;
    let f2 = m2.pool.free;
    assert(!f.contains(buf));
    assert forall|i: int, j: int| 0 <= i < f2.len() && 0 <= j < f2.len() && i != j implies f2[i] != f2[j] by {
        if i < f.len() && j < f.len() {
        } else if i < f.len() {
            assert(f.contains(f2[i]));
        } else {
            assert(f.contains(f2[j]));
        }
    }
    assert forall|k: usize| #[trigger] m2.holds(k) is Some implies !f2.contains(m2.holds(k).unwrap()) by {
        assert(k != h);
        assert(m.holds(k) != Some(buf));
        if f2.contains(m2.holds(k).unwrap()) {
            let i = choose|i: int| 0 <= i < f2.len() && f2[i] == m2.holds(k).unwrap();
            if i < f.len() {
                assert(f[i] == f2[i]);
                assert(f.contains(m.holds(k).unwrap()));
            }
        }
    }
}

/// The server after the bytes `data` arrived for the read in flight under
/// `h`, and how many of them the buffer took.
pub open spec fn received(m: ServerModel, h: usize, data: Seq<u8>) -> (ServerModel, Option<usize>) {
    match m.table.get(h) {
        Some(Token::Read { buf, .. }) => {
            let n = if data.len() <= BUF_SIZE { data.len() } else { BUF_SIZE as nat };
            let pool = PoolModel {
                buffers: m.pool.buffers.update(
                    buf as int,
                    filled(m.pool.buffers[buf as int], data.subrange(0, n as int)),
                ),
                free: m.pool.free,
            };
            (ServerModel { pool, ..m }, Some(n as usize))
        },
        _ => (m, None),
    }
}

/// Storing received bytes keeps the server well formed.
pub proof fn lemma_received_wf(m: ServerModel, h: usize, data: Seq<u8>)
    requires
        m.wf(),
    ensures
        received(m, h, data).0.wf(),
        received(m, h, data).0.table == m.table,
        received(m, h, data).0.pool.free == m.pool.free,
        received(m, h, data).0.pool.buffers.len() == m.pool.buffers.len(),
{
    let m2 = received(m, h, data).0;
    if let Some(Token::Read { buf, .. }) = m.table.get(h) {
        assert(m.holds(h) == Some(buf));
        assert forall|k: usize| #[trigger] m2.holds(k) == m.holds(k) by {}
        assert forall|k: usize| #[trigger] m2.table.get(k) == m.table.get(k) by {}
        assert forall|i: int| 0 <= i < m2.pool.buffers.len() implies (#[trigger] m2.pool.buffers[i]).len() == BUF_SIZE by {
            if i != buf {
                assert(m2.pool.buffers[i] == m.pool.buffers[i]);
            }
        }
    }
}

/// The bytes that a write operation sends, when it names a buffer and stays
/// inside it.
pub open spec fn payload(m: ServerModel, op: Op) -> Option<Seq<u8>> {
    match op {
        Op::Write { buf, offset, len, .. } => if buf < m.pool.buffers.len() && offset + len
            <= BUF_SIZE {
            Some(m.pool.buffers[buf as int].subrange(offset as int, offset + len))
        } else {
            None
        },
        _ => None,
    }
}

/// An echo server over a ring: it keeps one token per operation in flight,
/// turns each completion into the next operation, and lends buffers out of
/// a pool for the reads and writes.
pub struct EchoServer {
    table: TokenTable,
    pool: BufferPool,
    accepts: usize,
    listener: i32,
    accept_handle: usize,
}

impl EchoServer {
    /// The model of the server.
    pub closed spec fn model(&self) -> ServerModel {
        ServerModel { table: self.table.model(), pool: self.pool.model(), accepts: self.accepts as int }
    }

    /// The server is well formed.
    pub open spec fn wf(&self) -> bool {
        self.model().wf()
    }

    /// The listening socket.
    pub closed spec fn listener_spec(&self) -> i32 {
        self.listener
    }

    /// The handle of the standing accept.
    pub closed spec fn accept_handle_spec(&self) -> usize {
        self.accept_handle
    }

    /// A server on the listening socket `listener` that owes `concurrency`
    /// accept operations to the ring.
    pub fn new(listener: i32, concurrency: usize) -> (r: EchoServer)
        ensures
            r.wf(),
            r.model().table.slots == seq![Some(Token::Accept)],
            r.model().table.vacant == Seq::<usize>::empty(),
            r.model().pool.buffers == Seq::<Seq<u8>>::empty(),
            r.model().pool.free == Seq::<usize>::empty(),
            r.model().accepts == concurrency,
            r.listener_spec() == listener,
            r.accept_handle_spec() == 0,
    {
        let mut table = TokenTable::new();
        let h = table.insert(Token::Accept);
        let accept_handle: usize = match h {
            Some(h) => h,
            None => 0,
        };
        let r = EchoServer { table, pool: BufferPool::new(), accepts: concurrency, listener, accept_handle };
        proof {
            assert(r.model().table.slots =~= seq![Some(Token::Accept)]);
            assert forall|k: usize| #[trigger] r.model().holds(k) is None by {}
        }
        r
    }

    /// The handle of the standing accept.
    pub fn accept_handle(&self) -> (r: usize)
        ensures
            r == self.accept_handle_spec(),
    {
        self.accept_handle
    }

    /// The accept operation to push, tagged with its handle.
    pub fn accept_submission(&self) -> (r: Action)
        ensures
            r == (Action::Submit {
                handle: self.accept_handle_spec(),
                op: Op::Accept { fd: self.listener_spec() },
            }),
    {
        Action::Submit { handle: self.accept_handle, op: Op::Accept { fd: self.listener } }
    }

    /// How many accept operations are owed to the ring.
    pub fn pending_accepts(&self) -> (r: usize)
        ensures
            r == self.model().accepts,
    {
        self.accepts
    }

    /// Records that one owed accept operation was pushed; false, and nothing
    /// changes, when none was owed.
    pub fn accept_pushed(&mut self) -> (r: bool)
        requires
            old(self).wf(),
        ensures
            r <==> old(self).model().accepts > 0,
            final(self).model() == (ServerModel {
                accepts: if r { old(self).model().accepts - 1 } else { old(self).model().accepts },
                ..old(self).model()
            }),
            final(self).wf(),
            final(self).listener_spec() == old(self).listener_spec(),
            final(self).accept_handle_spec() == old(self).accept_handle_spec(),
    {
        if self.accepts > 0 {
            self.accepts = self.accepts - 1;
            proof {
                assert forall|k: usize| #[trigger] self.model().holds(k) == old(self).model().holds(k) by {}
                assert forall|k: usize| #[trigger] self.model().table.get(k) == old(self).model().table.get(k) by {}
            }
            true
        } else {
            false
        }
    }

    /// The live token under `h`, if any.
    pub fn token(&self, h: usize) -> (r: Option<Token>)
        ensures
            r == self.model().table.get(h),
    {
        self.table.get(h)
    }

    /// The buffer pool.
    pub fn pool(&self) -> (r: &BufferPool)
        ensures
            r.model() == self.model().pool,
    {
        &self.pool
    }

    /// Processes one completion: updates the token under its handle and
    /// says what to do next.
    pub fn complete(&mut self, c: Completion) -> (r: Action)
        requires
            old(self).wf(),
        ensures
            (final(self).model(), r) == step(old(self).model(), c.handle, c.result),
            final(self).wf(),
            final(self).listener_spec() == old(self).listener_spec(),
            final(self).accept_handle_spec() == old(self).accept_handle_spec(),
    {
        proof {
            lemma_step_wf(self.model(), c.handle, c.result);
        }
        let ghost m = self.model();
        let h = c.handle;
        let result = c.result;
        let t = match self.table.get(h) {
            Some(t) => t,
            None => {
                return Action::Unknown { handle: h, result };
            },
        };
        if result < 0 {
            if let Token::Accept = t {
                if self.accepts < usize::MAX {
                    self.accepts = self.accepts + 1;
                }
            }
            proof {
                assert(self.model() == step(m, h, result).0);
            }
            return Action::Failed { handle: h, token: t, result };
        }
        match t {
            Token::Accept => {
                match self.table.insert(Token::Poll { fd: result }) {
                    Some(nh) => {
                        if self.accepts < usize::MAX {
                            self.accepts = self.accepts + 1;
                        }
                        Action::Submit { handle: nh, op: Op::PollIn { fd: result } }
                    },
                    None => Action::Exhausted { handle: h, result },
                }
            },
            Token::Poll { fd } => {
                match self.pool.acquire() {
                    Some(b) => {
                        self.table.set(h, Token::Read { fd, buf: b });
                        Action::Submit { handle: h, op: Op::Read { fd, buf: b, len: BUF_SIZE } }
                    },
                    None => Action::Exhausted { handle: h, result },
                }
            },
            Token::Read { fd, buf } => {
                if result == 0 {
                    proof {
                        assert(m.holds(h) == Some(buf));
                    }
                    self.pool.release(buf);
                    self.table.remove(h);
                    Action::Close { fd }
                } else if result as usize > BUF_SIZE {
                    Action::Invalid { handle: h, result }
                } else {
                    let n = result as usize;
                    self.table.set(h, Token::Write { fd, buf, offset: 0, len: n });
                    Action::Submit { handle: h, op: Op::Write { fd, buf, offset: 0, len: n } }
                }
            },
            Token::Write { fd, buf, offset, len } => {
                let written = result as usize;
                proof {
                    assert(m.table.get(h) is Some);
                    assert(offset < len <= BUF_SIZE);
                }
                if offset + written >= len {
                    proof {
                        assert(m.holds(h) == Some(buf));
                    }
                    self.pool.release(buf);
                    self.table.set(h, Token::Poll { fd });
                    Action::Submit { handle: h, op: Op::PollIn { fd } }
                } else {
                    let at = offset + written;
                    self.table.set(h, Token::Write { fd, buf, offset: at, len });
                    Action::Submit { handle: h, op: Op::Write { fd, buf, offset: at, len: len - at } }
                }
            },
        }
    }

    /// Stores the bytes `data` that arrived for the read in flight under `h`
    /// in its buffer, as far as the buffer reaches, and returns how many it
    /// took; `None`, and nothing changes, when no read is in flight there.
    pub fn receive(&mut self, h: usize, data: &[u8]) -> (r: Option<usize>)
        requires
            old(self).wf(),
        ensures
            (final(self).model(), r) == received(old(self).model(), h, data@),
            final(self).wf(),
            final(self).listener_spec() == old(self).listener_spec(),
            final(self).accept_handle_spec() == old(self).accept_handle_spec(),
    {
        let ghost m = self.model();
        match self.table.get(h) {
            Some(Token::Read { buf, .. }) => {
                proof {
                    assert(m.holds(h) == Some(buf));
                }
                let n = self.pool.fill(buf, data);
                proof {
                    let m2 = received(m, h, data@).0;
                    assert(self.model().pool.buffers == m2.pool.buffers);
                    assert(self.model() == m2);
                    lemma_received_wf(m, h, data@);
                }
                Some(n)
            },
            _ => None,
        }
    }

    /// The bytes that the write operation `op` sends; `None` for any other
    /// operation, or a write outside the pool's buffers.
    pub fn payload(&self, op: Op) -> (r: Option<Vec<u8>>)
        requires
            self.wf(),
        ensures
            r is Some <==> payload(self.model(), op) is Some,
            r is Some ==> r.unwrap()@ == payload(self.model(), op).unwrap(),
    {
        match op {
            Op::Write { buf, offset, len, .. } => {
                if buf < self.pool.len() && offset <= BUF_SIZE && len <= BUF_SIZE - offset {
                    Some(self.pool.span(buf, offset, len))
                } else {
                    None
                }
            },
            _ => None,
        }
    }
}

} // verus!

