//! The reclamation capability the queue leans on: a thread pins the
//! reclaimer for the duration of an operation, retires nodes it has
//! unlinked, and the reclaimer hands a retired node back for destruction
//! only once no pin taken before the retirement is still active.  Here the
//! grace-period bookkeeping is a pin counter and a list of retired node
//! ids: nothing is released while any pin is held.

use vstd::prelude::*;

verus! {

pub struct Reclaimer {
    pinned: usize,
    retired: Vec<usize>,
}

impl Reclaimer {
    /// How many pins are currently held.
    pub closed spec fn pin_count(&self) -> nat {
        self.pinned as nat
    }

    /// The ids retired so far and not yet released, oldest first.
    pub closed spec fn retired_ids(&self) -> Seq<usize> {
        self.retired@
    }

    pub fn new() -> (r: Self)
        ensures
            r.pin_count() == 0,
            r.retired_ids() == Seq::<usize>::empty(),
    {
        Reclaimer { pinned: 0, retired: Vec::new() }
    }

    /// Mark the start of an operation that may observe the current nodes.
    pub fn pin(&mut self)
        requires
            old(self).pin_count() < usize::MAX,
        ensures
            final(self).pin_count() == old(self).pin_count() + 1,
            final(self).retired_ids() == old(self).retired_ids(),
    {
        self.pinned = self.pinned + 1;
    }

    /// Schedule a node for destruction once no overlapping pin remains.
    pub fn retire(&mut self, id: usize)
        ensures
            final(self).retired_ids() == old(self).retired_ids().push(id),
            final(self).pin_count() == old(self).pin_count(),
    {
        self.retired.push(id);
    }

    /// Release one pin.  The retired nodes come back for destruction only
    /// when the last pin goes away; until then nothing is released.
    pub fn unpin(&mut self) -> (freed: Vec<usize>)
        requires
            old(self).pin_count() >= 1,
        ensures
            final(self).pin_count() == old(self).pin_count() - 1,
            old(self).pin_count() > 1 ==> {
                &&& freed@ == Seq::<usize>::empty()
                &&& final(self).retired_ids() == old(self).retired_ids()
            },
            old(self).pin_count() == 1 ==> {
                &&& freed@ == old(self).retired_ids()
                &&& final(self).retired_ids() == Seq::<usize>::empty()
            },
    {
        self.pinned = self.pinned - 1;
        if self.pinned == 0 {
            let mut freed: Vec<usize> = Vec::new();
            core::mem::swap(&mut freed, &mut self.retired);
            freed
        } else {
            Vec::new()
        }
    }
}

} // verus!
