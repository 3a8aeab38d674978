//! The bookkeeping of a batched GPU recording pass.
//!
//! While a batch is open, dispatches are recorded into one command buffer
//! that still refers to every buffer id it binds. Freeing a buffer then would
//! let the pool hand the id out again while the recording points at it, so
//! frees are deferred until the batch is submitted. This module decides, for
//! each free, whether it happens now or later, and which buffers a submit
//! releases; the device calls themselves are the caller's.
use vstd::prelude::*;

verus! {

/// Whether a batch is open, and the buffers whose release waits for its submit.
pub struct BatchState {
    open: bool,
    pending: Vec<i32>,
}

impl BatchState {
    /// Nothing waits while no batch is open.
    #[verifier::type_invariant]
    spec fn wf(self) -> bool {
        !self.open ==> self.pending@.len() == 0
    }

    pub closed spec fn spec_open(self) -> bool {
        self.open
    }

    /// The buffers released during the open batch, in release order.
    pub closed spec fn deferred(self) -> Seq<i32> {
        self.pending@
    }

    /// No batch open, nothing deferred.
    pub fn new() -> (res: Self)
        ensures
            !res.spec_open(),
            res.deferred() == Seq::<i32>::empty(),
    {
        BatchState { open: false, pending: Vec::new() }
    }

    pub fn is_open(&self) -> (res: bool)
        ensures
            res == self.spec_open(),
            !res ==> self.deferred().len() == 0,
    {
        proof {
            use_type_invariant(self);
        }
        self.open
    }

    /// Open a batch (one may not already be open).
    pub fn begin(&mut self)
        requires
            !old(self).spec_open(),
        ensures
            final(self).spec_open(),
            final(self).deferred() == Seq::<i32>::empty(),
    {
        proof {
            use_type_invariant(&*self);
        }
        self.open = true;
    }

    /// Release `buf`: outside a batch it is freed at once (`Some(buf)`); inside
    /// one it waits for the submit (`None`).
    pub fn release(&mut self, buf: i32) -> (res: Option<i32>)
        ensures
            final(self).spec_open() == old(self).spec_open(),
            old(self).spec_open() ==> res is None && final(self).deferred() == old(
                self,
            ).deferred().push(buf),
            !old(self).spec_open() ==> res == Some(buf) && final(self).deferred() == old(
                self,
            ).deferred(),
    {
        if self.open {
            let mut q: Vec<i32> = Vec::new();
            std::mem::swap(&mut q, &mut self.pending);
            q.push(buf);
            self.pending = q;
            None
        } else {
            Some(buf)
        }
    }

    /// Close the batch (one must be open) after its submit: the buffers to
    /// free now, in the order they were released.
    pub fn end(&mut self) -> (res: Vec<i32>)
        requires
            old(self).spec_open(),
        ensures
            !final(self).spec_open(),
            final(self).deferred() == Seq::<i32>::empty(),
            res@ == old(self).deferred(),
    {
        let mut out: Vec<i32> = Vec::new();
        std::mem::swap(&mut out, &mut self.pending);
        self.open = false;
        out
    }
}

/// One step of a batch: `next` is what `release(buf)` leaves of `prev`
/// while the batch is open (its `ensures`).
pub open spec fn released(prev: BatchState, buf: i32, next: BatchState) -> bool {
    &&& next.spec_open() == prev.spec_open()
    &&& next.deferred() == prev.deferred().push(buf)
}

proof fn lemma_batch_prefix(states: Seq<BatchState>, bufs: Seq<i32>, i: int)
    requires
        states.len() == bufs.len() + 1,
        states[0].spec_open(),
        states[0].deferred() == Seq::<i32>::empty(),
        forall|k: int| 0 <= k < bufs.len() ==> released(states[k], #[trigger] bufs[k], states[k + 1]),
        0 <= i <= bufs.len(),
    ensures
        states[i].spec_open(),
        states[i].deferred() == bufs.subrange(0, i),
    decreases i,
{
    if i > 0 {
        lemma_batch_prefix(states, bufs, i - 1);
        assert(released(states[i - 1], bufs[i - 1], states[i]));
        assert(bufs.subrange(0, i) =~= bufs.subrange(0, i - 1).push(bufs[i - 1]));
    } else {
        assert(bufs.subrange(0, 0) =~= Seq::<i32>::empty());
    }
}

/// A batch over any number of releases: from `begin` (open, nothing queued),
/// each `release(bufs[i])` leaves the batch open, so it frees nothing then
/// (`release` answers `None` while open) and only queues the buffer; what
/// `end` hands back to free after the submit is exactly `bufs`, in release
/// order.
pub proof fn lemma_batch_releases(states: Seq<BatchState>, bufs: Seq<i32>)
    requires
        states.len() == bufs.len() + 1,
        states[0].spec_open(),
        states[0].deferred() == Seq::<i32>::empty(),
        forall|k: int| 0 <= k < bufs.len() ==> released(states[k], #[trigger] bufs[k], states[k + 1]),
    ensures
        forall|i: int| 0 <= i <= bufs.len() ==> (#[trigger] states[i]).spec_open(),
        states.last().deferred() == bufs,
{
    assert forall|i: int| 0 <= i <= bufs.len() implies (#[trigger] states[i]).spec_open() by {
        lemma_batch_prefix(states, bufs, i);
    }
    lemma_batch_prefix(states, bufs, bufs.len() as int);
    assert(bufs.subrange(0, bufs.len() as int) =~= bufs);
}

} // verus!
