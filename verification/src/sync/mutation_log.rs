//! The in-memory queue of committed mutations on their way to the
//! controller. The engine records each commit here; whoever forwards to
//! the controller takes the buffered mutations out in order.

use vstd::prelude::*;
use crate::sync::mutation::{Mutation, MutationModel};

verus! {

/// Models of a sequence of mutations, element by element.
pub open spec fn mutations_view(s: Seq<Mutation>) -> Seq<MutationModel> {
    s.map_values(|m: Mutation| m@)
}

#[derive(Debug)]
pub struct MutationLog {
    buffer: Vec<Mutation>,
}

impl View for MutationLog {
    type V = Seq<MutationModel>;

    closed spec fn view(&self) -> Seq<MutationModel> {
        mutations_view(self.buffer@)
    }
}

impl MutationLog {
    /// Every buffered mutation is well formed.
    pub closed spec fn wf(&self) -> bool {
        forall|i: int| 0 <= i < self.buffer@.len() ==> (#[trigger] self.buffer@[i]).wf()
    }

    pub fn new() -> (r: MutationLog)
        ensures
            r@ == Seq::<MutationModel>::empty(),
            r.wf(),
    {
        MutationLog { buffer: Vec::new() }
    }

    /// Buffers `m` after those already recorded.
    pub fn record(&mut self, m: Mutation)
        requires
            old(self).wf(),
            m.wf(),
        ensures
            final(self)@ == old(self)@.push(m@),
            final(self).wf(),
    {
        self.buffer.push(m);
        assert(mutations_view(self.buffer@) =~= mutations_view(old(self).buffer@).push(m@));
    }

    /// Takes every buffered mutation out, oldest first.
    pub fn take_buffer(&mut self) -> (r: Vec<Mutation>)
        requires
            old(self).wf(),
        ensures
            mutations_view(r@) == old(self)@,
            forall|i: int| 0 <= i < r@.len() ==> (#[trigger] r@[i]).wf(),
            final(self)@ == Seq::<MutationModel>::empty(),
            final(self).wf(),
    {
        let mut out: Vec<Mutation> = Vec::new();
        std::mem::swap(&mut out, &mut self.buffer);
        assert(mutations_view(self.buffer@) =~= Seq::<MutationModel>::empty());
        out
    }

    /// How many mutations are buffered.
    pub fn buffered_len(&self) -> (r: usize)
        ensures
            r == self@.len(),
    {
        self.buffer.len()
    }
}

} // verus!
