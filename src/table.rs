use vstd::prelude::*;

verus! {

/// The state of one operation in flight, kept under its handle.
#[derive(Clone, Copy, Debug, PartialEq, Eq, Structural)]
pub enum Token {
    /// The standing intent to accept connections.
    Accept,
    /// Waiting for connection `fd` to become readable.
    Poll { fd: i32 },
    /// A read from `fd` into buffer `buf` is in flight.
    Read { fd: i32, buf: usize },
    /// A write to `fd` of bytes `offset..len` of buffer `buf` is in flight.
    Write { fd: i32, buf: usize, offset: usize, len: usize },
}

/// What a table holds: one slot per handle ever given out, and the vacant
/// handles in the order they were freed.
pub ghost struct TableModel {
    pub slots: Seq<Option<Token>>,
    pub vacant: Seq<usize>,
}

impl TableModel {
    /// Vacant handles are distinct and name empty slots.
    pub open spec fn wf(self) -> bool {
        &&& self.vacant.no_duplicates()
        &&& forall|i: int| 0 <= i < self.vacant.len() ==> {
            &&& (#[trigger] self.vacant[i]) < self.slots.len()
            &&& self.slots[self.vacant[i] as int] is None
        }
    }

    /// The token under handle `h`, if it is live.
    pub open spec fn get(self, h: usize) -> Option<Token> {
        if h < self.slots.len() {
            self.slots[h as int]
        } else {
            None
        }
    }
}

/// Whether `insert` has a handle to give: a vacant one, or a new one left.
pub open spec fn can_insert(m: TableModel) -> bool {
    m.vacant.len() > 0 || m.slots.len() < usize::MAX
}

/// The table after inserting `t`, and the handle it went under: the most
/// recently freed handle, else a new one.
pub open spec fn inserted(m: TableModel, t: Token) -> (TableModel, usize) {
    if m.vacant.len() > 0 {
        let h = m.vacant.last();
        (TableModel { slots: m.slots.update(h as int, Some(t)), vacant: m.vacant.drop_last() }, h)
    } else {
        (TableModel { slots: m.slots.push(Some(t)), vacant: m.vacant }, m.slots.len() as usize)
    }
}

/// The table after removing the token under `h`.
pub open spec fn removed(m: TableModel, h: usize) -> TableModel {
    TableModel { slots: m.slots.update(h as int, None), vacant: m.vacant.push(h) }
}

/// The table after replacing the token under `h` by `t`.
pub open spec fn replaced(m: TableModel, h: usize, t: Token) -> TableModel {
    TableModel { slots: m.slots.update(h as int, Some(t)), vacant: m.vacant }
}

/// An arena of tokens keyed by handle. A removed handle is reused by the next
/// insertion, with nothing to tell it from the handle it was before.
pub struct TokenTable {
    slots: Vec<Option<Token>>,
    vacant: Vec<usize>,
}

impl TokenTable {
    /// The model of the table.
    pub closed spec fn model(&self) -> TableModel {
        TableModel { slots: self.slots@, vacant: self.vacant@ }
    }

    /// An empty table.
    pub fn new() -> (r: TokenTable)
        ensures
            r.model().slots == Seq::<Option<Token>>::empty(),
            r.model().vacant == Seq::<usize>::empty(),
            r.model().wf(),
    {
        TokenTable { slots: Vec::new(), vacant: Vec::new() }
    }

    /// The token under `h`, if it is live.
    pub fn get(&self, h: usize) -> (r: Option<Token>)
        ensures
            r == self.model().get(h),
    {
        if h < self.slots.len() {
            self.slots[h]
        } else {
            None
        }
    }

    /// Stores `t` and returns its handle; `None` only when every handle is
    /// taken.
    pub fn insert(&mut self, t: Token) -> (r: Option<usize>)
        requires
            old(self).model().wf(),
        ensures
            r is Some <==> can_insert(old(self).model()),
            r is Some ==> (final(self).model(), r.unwrap()) == inserted(old(self).model(), t),
            r is None ==> final(self).model() == old(self).model(),
            final(self).model().wf(),
    {
        let ghost m = self.model();
        match self.vacant.pop() {
            Some(h) => {
                proof {
                    assert(h == m.vacant[m.vacant.len() - 1]);
                    assert(self.vacant@ =~= m.vacant.drop_last());
                }
                self.slots.set(h, Some(t));
                proof {
                    assert forall|i: int| 0 <= i < self.vacant@.len() implies {
                        &&& (#[trigger] self.vacant@[i]) < self.slots@.len()
                        &&& self.slots@[self.vacant@[i] as int] is None
                    } by {
                        assert(self.vacant@[i] == m.vacant[i]);
                        assert(m.vacant[i] != m.vacant[m.vacant.len() - 1]);
                    }
                }
                Some(h)
            },
            None => {
                if self.slots.len() == usize::MAX {
                    return None;
                }
                let h = self.slots.len();
                self.slots.push(Some(t));
                proof {
                    assert forall|i: int| 0 <= i < self.vacant@.len() implies {
                        &&& (#[trigger] self.vacant@[i]) < self.slots@.len()
                        &&& self.slots@[self.vacant@[i] as int] is None
                    } by {
                        assert(self.slots@[self.vacant@[i] as int] == m.slots[m.vacant[i] as int]);
                    }
                }
                Some(h)
            },
        }
    }

    /// Replaces the live token under `h` by `t`.
    pub fn set(&mut self, h: usize, t: Token)
        requires
            old(self).model().wf(),
            old(self).model().get(h) is Some,
        ensures
            final(self).model() == replaced(old(self).model(), h, t),
            final(self).model().wf(),
    {
        let ghost m = self.model();
        self.slots.set(h, Some(t));
        proof {
            assert forall|i: int| 0 <= i < self.vacant@.len() implies {
                &&& (#[trigger] self.vacant@[i]) < self.slots@.len()
                &&& self.slots@[self.vacant@[i] as int] is None
            } by {
                assert(m.vacant[i] != h);
            }
        }
    }

    /// Removes the live token under `h`; its handle becomes vacant.
    pub fn remove(&mut self, h: usize)
        requires
            old(self).model().wf(),
            old(self).model().get(h) is Some,
        ensures
            final(self).model() == removed(old(self).model(), h),
            final(self).model().wf(),
    {
        let ghost m = self.model();
        self.slots.set(h, None);
        self.vacant.push(h);
        proof {
            assert(!m.vacant.contains(h));
            assert forall|i: int| 0 <= i < self.vacant@.len() implies {
                &&& (#[trigger] self.vacant@[i]) < self.slots@.len()
                &&& self.slots@[self.vacant@[i] as int] is None
            } by {
                if i < m.vacant.len() {
                    assert(self.vacant@[i] == m.vacant[i]);
                }
            }
            assert forall|i: int, j: int|
                0 <= i < self.vacant@.len() && 0 <= j < self.vacant@.len() && i != j implies
                self.vacant@[i] != self.vacant@[j] by {
                if i < m.vacant.len() && j < m.vacant.len() {
                } else if i < m.vacant.len() {
                    assert(m.vacant.contains(self.vacant@[i]));
                } else {
                    assert(m.vacant.contains(self.vacant@[j]));
                }
            }
        }
    }
}

} // verus!
