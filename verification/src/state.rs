//! The state of a model between timepoints.
//!
//! A model reads what was committed at the last accepted timepoint and writes a
//! proposal beside it. It never sees a proposal, so evaluating it again changes nothing.
use crate::number::Real;
use vstd::prelude::*;

verus! {

/// What a slot reads as: what was committed there, zero for a slot that is not there.
pub open spec fn committed_at(prev: Seq<Real>, slot: usize) -> Real {
    if slot < prev.len() {
        prev[slot as int]
    } else {
        Real { bits: 0 }
    }
}

/// A model's view of its state for one evaluation.
#[derive(Debug)]
pub struct ModelState<'a> {
    /// What was committed.
    pub prev: &'a [Real],
    /// What this evaluation proposes.
    pub next: &'a mut [Real],
}

impl<'a> ModelState<'a> {
    /// What this evaluation proposes, as it stands.
    pub open spec fn proposed(&self) -> Seq<Real> {
        (*self.next)@
    }

    /// The state over what was committed and a buffer for the proposal.
    pub fn new(prev: &'a [Real], next: &'a mut [Real]) -> (r: ModelState<'a>)
        ensures
            r.prev@ == prev@,
            r.proposed() == old(next)@,
            final(next)@ == final(r.next)@,
    {
        ModelState { prev, next }
    }

    /// No state.
    pub fn stateless() -> (r: ModelState<'static>)
        ensures
            r.prev@.len() == 0,
            r.proposed().len() == 0,
    {
        ModelState { prev: &[], next: &mut [] }
    }

    /// The number of slots.
    pub fn len(&self) -> (r: usize)
        ensures
            r == (if self.prev@.len() <= self.proposed().len() {
                self.prev@.len()
            } else {
                self.proposed().len()
            }),
    {
        let a = self.prev.len();
        let b = self.next.len();
        if a <= b {
            a
        } else {
            b
        }
    }

    /// Whether there are no slots.
    pub fn is_empty(&self) -> (r: bool)
        ensures
            r == (self.prev@.len() == 0 || self.proposed().len() == 0),
    {
        self.len() == 0
    }

    /// Everything that was committed.
    pub fn committed(&self) -> (r: &[Real])
        ensures
            r@ == self.prev@,
    {
        self.prev
    }

    /// What was committed in a slot; zero for a slot that is not there.
    pub fn get(&self, slot: usize) -> (r: Real)
        ensures
            r == committed_at(self.prev@, slot),
    {
        if slot < self.prev.len() {
            self.prev[slot]
        } else {
            Real::zero()
        }
    }

    /// Proposes a value for a slot. One that is not there takes none. What the slots
    /// read as stays what it was.
    pub fn set(&mut self, slot: usize, value: Real)
        ensures
            final(self).prev@ == old(self).prev@,
            forall|other: usize| #[trigger]
                committed_at(final(self).prev@, other) == committed_at(old(self).prev@, other),
            slot < old(self).proposed().len() ==> final(self).proposed() == old(self).proposed().update(
                slot as int,
                value,
            ),
            slot >= old(self).proposed().len() ==> final(self).proposed() == old(self).proposed(),
    {
        if slot < self.next.len() {
            self.next[slot] = value;
        }
    }
}

} // verus!
