use std::collections::VecDeque;
use vstd::prelude::*;

verus! {

/// One completion taken off the ring: the handle it was submitted under and
/// its result (a negated errno when negative).
#[derive(Clone, Copy, Debug, PartialEq, Eq, Structural)]
pub struct Completion {
    pub handle: usize,
    pub result: i32,
}

/// The first-in first-out queue through which completions pass from the side
/// that takes them off the ring to the side that processes them.
pub struct HandoffQueue {
    items: VecDeque<Completion>,
}

impl HandoffQueue {
    /// The completions waiting, oldest first.
    pub closed spec fn pending(&self) -> Seq<Completion> {
        self.items@
    }

    /// An empty queue.
    pub fn new() -> (r: HandoffQueue)
        ensures
            r.pending() == Seq::<Completion>::empty(),
    {
        HandoffQueue { items: VecDeque::new() }
    }

    /// Appends `c` behind every completion already waiting.
    pub fn push(&mut self, c: Completion)
        ensures
            final(self).pending() == old(self).pending().push(c),
    {
        self.items.push_back(c);
    }

    /// Takes the oldest waiting completion, if any.
    pub fn pop(&mut self) -> (r: Option<Completion>)
        ensures
            old(self).pending().len() == 0 ==> r is None && final(self).pending() == old(self).pending(),
            old(self).pending().len() > 0 ==> r == Some(old(self).pending()[0])
                && final(self).pending() == old(self).pending().drop_first(),
    {
        let r = self.items.pop_front();
        proof {
            if old(self).items@.len() > 0 {
                assert(self.items@ =~= old(self).items@.drop_first());
            }
        }
        r
    }

    /// Number of waiting completions.
    pub fn len(&self) -> (r: usize)
        ensures
            r == self.pending().len(),
    {
        self.items.len()
    }

    /// Whether nothing is waiting.
    pub fn is_empty(&self) -> (r: bool)
        ensures
            r <==> self.pending().len() == 0,
    {
        self.items.len() == 0
    }

    /// Appends each of `cs`, in order.
    pub fn push_all(&mut self, cs: &[Completion])
        ensures
            final(self).pending() == old(self).pending() + cs@,
    {
        let mut i: usize = 0;
        while i < cs.len()
            invariant
                i <= cs@.len(),
                self.pending() == old(self).pending() + cs@.subrange(0, i as int),
            decreases cs@.len() - i,
        {
            self.push(cs[i]);
            i = i + 1;
            assert(old(self).pending() + cs@.subrange(0, i as int) =~= (old(self).pending()
                + cs@.subrange(0, (i - 1) as int)).push(cs@[i - 1]));
        }
        assert(cs@.subrange(0, i as int) =~= cs@);
    }

    /// Takes every waiting completion, oldest first, leaving the queue empty.
    pub fn drain(&mut self) -> (r: Vec<Completion>)
        ensures
            r@ == old(self).pending(),
            final(self).pending() == Seq::<Completion>::empty(),
    {
        let mut out: Vec<Completion> = Vec::new();
        while !self.is_empty()
            invariant
                out@ + self.pending() == old(self).pending(),
            decreases self.pending().len(),
        {
            let c = self.pop();
            match c {
                Some(c) => {
                    out.push(c);
                    assert(out@ + self.pending() =~= old(self).pending());
                },
                None => {},
            }
        }
        assert(out@ =~= out@ + self.pending());
        out
    }
}

/// The queue after a run of `push` (`Some`) and `pop` (`None`) calls from
/// `q`, and what the pops returned, in order.
pub open spec fn replay(q: Seq<Completion>, calls: Seq<Option<Completion>>) -> (Seq<Completion>, Seq<Completion>)
    decreases calls.len(),
{
    if calls.len() == 0 {
        (q, Seq::empty())
    } else {
        match calls[0] {
            Some(c) => replay(q.push(c), calls.drop_first()),
            None => if q.len() > 0 {
                let (q2, popped) = replay(q.drop_first(), calls.drop_first());
                (q2, seq![q[0]] + popped)
            } else {
                replay(q, calls.drop_first())
            },
        }
    }
}

/// The completions pushed by a run of calls, in order.
pub open spec fn pushes(calls: Seq<Option<Completion>>) -> Seq<Completion>
    decreases calls.len(),
{
    if calls.len() == 0 {
        Seq::empty()
    } else {
        match calls[0] {
            Some(c) => seq![c] + pushes(calls.drop_first()),
            None => pushes(calls.drop_first()),
        }
    }
}

/// However pushes and pops interleave, the pops return the completions in
/// the order they were pushed, behind those already waiting, and what is
/// still waiting comes after them in that same order.
pub proof fn lemma_handoff_order(q: Seq<Completion>, calls: Seq<Option<Completion>>)
    ensures
        replay(q, calls).1 + replay(q, calls).0 == q + pushes(calls),
    decreases calls.len(),
{
    if calls.len() > 0 {
        let rest = calls.drop_first();
        match calls[0] {
            Some(c) => {
                lemma_handoff_order(q.push(c), rest);
                assert(q.push(c) + pushes(rest) =~= q + (seq![c] + pushes(rest)));
            },
            None => {
                if q.len() > 0 {
                    lemma_handoff_order(q.drop_first(), rest);
                    let (q2, popped) = replay(q.drop_first(), rest);
                    assert(seq![q[0]] + popped + q2 =~= seq![q[0]] + (popped + q2));
                    assert(seq![q[0]] + (q.drop_first() + pushes(rest)) =~= q + pushes(rest));
                } else {
                    lemma_handoff_order(q, rest);
                }
            },
        }
    } else {
        assert(q + Seq::<Completion>::empty() =~= q);
        assert(Seq::<Completion>::empty() + q =~= q);
    }
}

} // verus!
