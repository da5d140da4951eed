use vstd::prelude::*;

verus! {

/// Bytes of each buffer in the pool.
pub const BUF_SIZE: usize = 2048;

/// A growable set of fixed-size byte buffers, lent out by index. Freed
/// indices are handed out again, most recently freed first; a new buffer is
/// only allocated when none is free.
pub struct BufferPool {
    bufs: Vec<Vec<u8>>,
    free: Vec<usize>,
}

/// What a pool holds: its buffers and its free indices, in the order they
/// were released.
pub ghost struct PoolModel {
    pub buffers: Seq<Seq<u8>>,
    pub free: Seq<usize>,
}

/// The bytes that a read of `data` leaves in `buf`: the first bytes replaced,
/// the rest kept.
pub open spec fn filled(buf: Seq<u8>, data: Seq<u8>) -> Seq<u8> {
    data + buf.subrange(data.len() as int, buf.len() as int)
}

/// Whether `acquire` has a buffer to lend: a free one, or an index left for
/// a new one.
pub open spec fn can_acquire(p: PoolModel) -> bool {
    p.free.len() > 0 || p.buffers.len() < usize::MAX
}

/// The pool after `acquire`, and the index it returns.
pub open spec fn acquired(p: PoolModel) -> (PoolModel, usize) {
    if p.free.len() > 0 {
        (PoolModel { buffers: p.buffers, free: p.free.drop_last() }, p.free.last())
    } else {
        (
            PoolModel { buffers: p.buffers.push(Seq::new(BUF_SIZE as nat, |i: int| 0u8)), free: p.free },
            p.buffers.len() as usize,
        )
    }
}

/// The pool after `release(index)`.
pub open spec fn released(p: PoolModel, index: usize) -> PoolModel {
    PoolModel { buffers: p.buffers, free: p.free.push(index) }
}

impl PoolModel {
    /// Every buffer has `BUF_SIZE` bytes; free indices are distinct and name
    /// existing buffers.
    pub open spec fn wf(self) -> bool {
        &&& forall|i: int| 0 <= i < self.buffers.len() ==> (#[trigger] self.buffers[i]).len() == BUF_SIZE
        &&& self.free.no_duplicates()
        &&& forall|i: int| 0 <= i < self.free.len() ==> (#[trigger] self.free[i]) < self.buffers.len()
    }
}

impl BufferPool {
    /// The model of the pool.
    pub closed spec fn model(&self) -> PoolModel {
        PoolModel { buffers: self.bufs@.map_values(|b: Vec<u8>| b@), free: self.free@ }
    }

    /// A pool with no buffers.
    pub fn new() -> (r: BufferPool)
        ensures
            r.model().buffers == Seq::<Seq<u8>>::empty(),
            r.model().free == Seq::<usize>::empty(),
            r.model().wf(),
    {
        let r = BufferPool { bufs: Vec::new(), free: Vec::new() };
        assert(r.model().buffers =~= Seq::<Seq<u8>>::empty());
        r
    }

    /// Number of buffers ever allocated.
    pub fn len(&self) -> (r: usize)
        ensures
            r == self.model().buffers.len(),
    {
        self.bufs.len()
    }

    /// Number of buffers that are free.
    pub fn free_count(&self) -> (r: usize)
        ensures
            r == self.model().free.len(),
    {
        self.free.len()
    }

    /// Whether buffer `index` is free.
    pub fn is_free(&self, index: usize) -> (r: bool)
        ensures
            r == self.model().free.contains(index),
    {
        let mut i: usize = 0;
        while i < self.free.len()
            invariant
                i <= self.free@.len(),
                forall|j: int| 0 <= j < i ==> self.free@[j] != index,
            decreases self.free@.len() - i,
        {
            if self.free[i] == index {
                return true;
            }
            i = i + 1;
        }
        false
    }

    /// Lends out a buffer: the most recently released one, else a new zeroed
    /// one under the next index; `None` only when every index is taken.
    pub fn acquire(&mut self) -> (r: Option<usize>)
        requires
            old(self).model().wf(),
        ensures
            r is Some <==> can_acquire(old(self).model()),
            r is Some ==> (final(self).model(), r.unwrap()) == acquired(old(self).model()),
            r is Some ==> r.unwrap() < final(self).model().buffers.len(),
            r is None ==> final(self).model() == old(self).model(),
            final(self).model().wf(),
    {
        let ghost old_model = self.model();
        match self.free.pop() {
            Some(index) => {
                proof {
                    assert(self.model().buffers =~= old_model.buffers);
                    assert(self.model().free =~= old_model.free.drop_last());
                    assert(self.model().free.no_duplicates());
                    assert forall|i: int| 0 <= i < self.model().free.len() implies
                        (#[trigger] self.model().free[i]) < self.model().buffers.len() by {
                        assert(self.model().free[i] == old_model.free[i]);
                    }
                    assert(index == old_model.free[old_model.free.len() - 1]);
                }
                Some(index)
            },
            None => {
                if self.bufs.len() == usize::MAX {
                    return None;
                }
                let index = self.bufs.len();
                let mut buf: Vec<u8> = Vec::new();
                let mut i: usize = 0;
                while i < BUF_SIZE
                    invariant
                        i <= BUF_SIZE,
                        buf@ == Seq::new(i as nat, |j: int| 0u8),
                    decreases BUF_SIZE - i,
                {
                    buf.push(0u8);
                    i = i + 1;
                    assert(buf@ =~= Seq::new(i as nat, |j: int| 0u8));
                }
                self.bufs.push(buf);
                proof {
                    assert(self.model().buffers =~= old_model.buffers.push(
                        Seq::new(BUF_SIZE as nat, |j: int| 0u8),
                    ));
                }
                Some(index)
            },
        }
    }

    /// Takes buffer `index` back. It must be lent out, not free.
    pub fn release(&mut self, index: usize)
        requires
            index < old(self).model().buffers.len(),
            !old(self).model().free.contains(index),
            old(self).model().wf(),
        ensures
            final(self).model() == released(old(self).model(), index),
            final(self).model().wf(),
    {
        let ghost old_model = self.model();
        self.free.push(index);
        proof {
            assert(self.model().buffers =~= old_model.buffers);
            assert(self.model().free =~= old_model.free.push(index));
            assert forall|i: int, j: int|
                0 <= i < self.free@.len() && 0 <= j < self.free@.len() && i != j implies
                self.free@[i] != self.free@[j] by {
                if i < old_model.free.len() && j < old_model.free.len() {
                } else if i < old_model.free.len() {
                    assert(old_model.free.contains(self.free@[i]));
                } else {
                    assert(old_model.free.contains(self.free@[j]));
                }
            }
        }
    }

    /// The whole of buffer `index`.
    pub fn buffer(&self, index: usize) -> (r: &[u8])
        requires
            index < self.model().buffers.len(),
        ensures
            r@ == self.model().buffers[index as int],
    {
        self.bufs[index].as_slice()
    }

    /// A copy of `len` bytes of buffer `index` from `offset` on.
    pub fn span(&self, index: usize, offset: usize, len: usize) -> (r: Vec<u8>)
        requires
            index < self.model().buffers.len(),
            offset + len <= BUF_SIZE,
            self.model().wf(),
        ensures
            r@ == self.model().buffers[index as int].subrange(offset as int, offset + len),
    {
        let buf = &self.bufs[index];
        assert(self.model().buffers[index as int] == buf@);
        let mut out: Vec<u8> = Vec::new();
        let mut i: usize = 0;
        while i < len
            invariant
                i <= len,
                offset + len <= BUF_SIZE,
                buf@.len() == BUF_SIZE,
                buf@ == self.model().buffers[index as int],
                out@ == buf@.subrange(offset as int, offset + i),
            decreases len - i,
        {
            out.push(buf[offset + i]);
            i = i + 1;
            assert(out@ =~= buf@.subrange(offset as int, offset + i));
        }
        out
    }

    /// Writes received bytes into the start of buffer `index`, as a read
    /// into it does: at most `BUF_SIZE` of them, and returns how many.
    pub fn fill(&mut self, index: usize, data: &[u8]) -> (r: usize)
        requires
            index < old(self).model().buffers.len(),
            old(self).model().wf(),
        ensures
            final(self).model().wf(),
            r as int == if data@.len() <= BUF_SIZE { data@.len() as int } else { BUF_SIZE as int },
            final(self).model().free == old(self).model().free,
            final(self).model().buffers == old(self).model().buffers.update(
                index as int,
                filled(old(self).model().buffers[index as int], data@.subrange(0, r as int)),
            ),
    {
        let n: usize = if data.len() <= BUF_SIZE { data.len() } else { BUF_SIZE };
        let ghost old_model = self.model();
        let ghost old_buf = old_model.buffers[index as int];
        assert(old_buf == self.bufs@[index as int]@);
        let mut buf: Vec<u8> = Vec::new();
        let mut i: usize = 0;
        while i < BUF_SIZE
            invariant
                i <= BUF_SIZE,
                n <= data@.len(),
                n <= BUF_SIZE,
                old_buf.len() == BUF_SIZE,
                old_buf == self.bufs@[index as int]@,
                index < self.bufs@.len(),
                buf@.len() == i,
                forall|j: int| 0 <= j < i ==> #[trigger] buf@[j] == if j < n { data@[j] } else { old_buf[j] },
            decreases BUF_SIZE - i,
        {
            if i < n {
                buf.push(data[i]);
            } else {
                buf.push(self.bufs[index][i]);
            }
            i = i + 1;
        }
        assert(buf@ =~= filled(old_buf, data@.subrange(0, n as int)));
        self.bufs.set(index, buf);
        proof {
            assert(self.model().free =~= old_model.free);
            assert(self.model().buffers =~= old_model.buffers.update(
                index as int,
                filled(old_buf, data@.subrange(0, n as int)),
            ));
        }
        n
    }
}

} // verus!
