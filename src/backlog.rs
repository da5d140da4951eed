use crate::server::Op;
use std::collections::VecDeque;
use vstd::prelude::*;

verus! {

/// An operation waiting for room in the submission queue, with its handle.
#[derive(Clone, Copy, Debug, PartialEq, Eq, Structural)]
pub struct Entry {
    pub handle: usize,
    pub op: Op,
}

/// Operations not yet pushed because the submission queue was full. Each
/// tick pushes them oldest first and stops at the first refusal, so that
/// what is left is retried on the next tick in the same order.
pub struct Backlog {
    items: VecDeque<Entry>,
}

impl Backlog {
    /// The waiting operations, oldest first.
    pub closed spec fn waiting(&self) -> Seq<Entry> {
        self.items@
    }

    /// An empty backlog.
    pub fn new() -> (r: Backlog)
        ensures
            r.waiting() == Seq::<Entry>::empty(),
    {
        Backlog { items: VecDeque::new() }
    }

    /// Queues `e` behind every waiting operation.
    pub fn defer(&mut self, e: Entry)
        ensures
            final(self).waiting() == old(self).waiting().push(e),
    {
        self.items.push_back(e);
    }

    /// The oldest waiting operation, if any.
    pub fn next(&self) -> (r: Option<Entry>)
        ensures
            r is Some <==> self.waiting().len() > 0,
            r is Some ==> r.unwrap() == self.waiting()[0],
    {
        if self.items.len() > 0 {
            Some(self.items[0])
        } else {
            None
        }
    }

    /// Records that the oldest waiting operation was pushed; false, and
    /// nothing changes, when none was waiting.
    pub fn pushed(&mut self) -> (r: bool)
        ensures
            r <==> old(self).waiting().len() > 0,
            r ==> final(self).waiting() == old(self).waiting().drop_first(),
            !r ==> final(self).waiting() == old(self).waiting(),
    {
        let r = self.items.pop_front();
        proof {
            if old(self).items@.len() > 0 {
                assert(self.items@ =~= old(self).items@.drop_first());
            }
        }
        r.is_some()
    }

    /// Number of waiting operations.
    pub fn len(&self) -> (r: usize)
        ensures
            r == self.waiting().len(),
    {
        self.items.len()
    }
}

} // verus!
