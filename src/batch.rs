//! Update batches handed to user channels, and the bounded free-list that
//! recycles their buffers so the hot path does not allocate.

use vstd::prelude::*;
use crate::value::{SubId, Value};

verus! {

/// Most buffers the pool keeps.
pub const BATCH_POOL_CAP: usize = 1000;

/// Updates for one user channel: `(handle identity, value)` pairs in wire
/// order.
#[derive(Debug)]
pub struct Batch {
    items: Vec<(SubId, Value)>,
}

impl Batch {
    pub closed spec fn items(&self) -> Seq<(SubId, Value)> {
        self.items@
    }

    /// A batch holding `items`, reusing their buffer.
    pub fn from_vec(items: Vec<(SubId, Value)>) -> (r: Batch)
        ensures
            r.items() == items@,
    {
        Batch { items }
    }

    pub fn push(&mut self, v: (SubId, Value))
        ensures
            final(self).items() == old(self).items().push(v),
    {
        self.items.push(v);
    }

    pub fn len(&self) -> (r: usize)
        ensures
            r == self.items().len(),
    {
        self.items.len()
    }

    /// Take every pair out, in order, leaving the batch empty.
    pub fn consume(&mut self) -> (r: Vec<(SubId, Value)>)
        ensures
            r@ == old(self).items(),
            final(self).items() == Seq::<(SubId, Value)>::empty(),
    {
        self.items.split_off(0)
    }

    /// The buffer, for the pool to keep.
    pub fn into_inner(self) -> (r: Vec<(SubId, Value)>)
        ensures
            r@ == self.items(),
    {
        self.items
    }
}

/// A bounded free-list of empty update buffers.
pub struct BatchPool {
    free: Vec<Vec<(SubId, Value)>>,
}

impl BatchPool {
    /// Number of buffers kept.
    pub closed spec fn kept(&self) -> nat {
        self.free@.len()
    }

    /// At most `BATCH_POOL_CAP` buffers, all empty.
    pub closed spec fn wf(&self) -> bool {
        &&& self.free@.len() <= BATCH_POOL_CAP
        &&& forall|i: int| 0 <= i < self.free@.len() ==> (#[trigger] self.free@[i])@.len() == 0
    }

    pub fn new() -> (r: BatchPool)
        ensures
            r.wf(),
            r.kept() == 0,
    {
        BatchPool { free: Vec::new() }
    }

    /// A new empty batch, on a recycled buffer when one is kept.
    pub fn take(&mut self) -> (r: Batch)
        requires
            old(self).wf(),
        ensures
            final(self).wf(),
            r.items() == Seq::<(SubId, Value)>::empty(),
            old(self).kept() > 0 ==> final(self).kept() == old(self).kept() - 1,
            old(self).kept() == 0 ==> final(self).kept() == 0,
    {
        match self.free.pop() {
            Some(v) => {
                assert(v@.len() == 0);
                assert(v@ =~= Seq::<(SubId, Value)>::empty());
                Batch { items: v }
            },
            None => Batch { items: Vec::new() },
        }
    }

    /// Keep the buffer of a batch that was sent, if there is room.
    pub fn give_back(&mut self, b: Batch)
        requires
            old(self).wf(),
        ensures
            final(self).wf(),
            old(self).kept() < BATCH_POOL_CAP ==> final(self).kept() == old(self).kept() + 1,
            old(self).kept() == BATCH_POOL_CAP ==> final(self).kept() == old(self).kept(),
    {
        if self.free.len() < BATCH_POOL_CAP {
            let mut v = b.into_inner();
            v.clear();
            self.free.push(v);
        }
    }
}

} // verus!
