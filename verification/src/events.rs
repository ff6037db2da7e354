//! Crossings of a monitored expression.
use crate::number::Real;
use crate::search::{first_where, lemma_first_where};
use vstd::prelude::*;

verus! {

/// In which direction a crossing fires.
#[derive(Clone, Copy, Debug, PartialEq, Eq, Structural)]
pub enum CrossDir {
    Rising,
    Falling,
    Either,
}

impl Default for CrossDir {
    fn default() -> (r: CrossDir)
        ensures
            r == CrossDir::Either,
    {
        CrossDir::Either
    }
}

/// The expression rises through zero: it was negative, and is so no longer.
pub open spec fn rises(prev: Real, now: Real) -> bool {
    prev.lt(Real { bits: 0 }) && (Real { bits: 0 }).le(now)
}

/// The expression falls through zero: it was not negative, and now is.
pub open spec fn falls(prev: Real, now: Real) -> bool {
    (Real { bits: 0 }).le(prev) && now.lt(Real { bits: 0 })
}

/// Whether a crossing in this direction fires.
pub open spec fn crosses(dir: CrossDir, prev: Real, now: Real) -> bool {
    match dir {
        CrossDir::Rising => rises(prev, now),
        CrossDir::Falling => falls(prev, now),
        CrossDir::Either => rises(prev, now) || falls(prev, now),
    }
}

impl CrossDir {
    /// The direction that a number stands for: `1` is rising, `-1` falling, and any other
    /// number either way.
    pub fn from_lrm(dir: i64) -> (r: CrossDir)
        ensures
            r == (if dir == 1 {
                CrossDir::Rising
            } else if dir == -1 {
                CrossDir::Falling
            } else {
                CrossDir::Either
            }),
    {
        if dir == 1 {
            CrossDir::Rising
        } else if dir == -1 {
            CrossDir::Falling
        } else {
            CrossDir::Either
        }
    }

    /// Whether the step from `prev` to `now` fires.
    pub fn fires(self, prev: Real, now: Real) -> (r: bool)
        ensures
            r == crosses(self, prev, now),
    {
        let zero = Real::zero();
        let rising = prev.less(zero) && zero.at_most(now);
        let falling = zero.at_most(prev) && now.less(zero);
        match self {
            CrossDir::Rising => rising,
            CrossDir::Falling => falling,
            CrossDir::Either => rising || falling,
        }
    }
}

/// No step crosses in both directions.
pub proof fn a_step_crosses_one_way(prev: Real, now: Real)
    ensures
        !(rises(prev, now) && falls(prev, now)),
{
}

/// An expression that arrives at zero and rises from there fires once, on arrival.
pub proof fn landing_on_zero_fires_once(prev: Real, zero: Real, next: Real)
    requires
        !zero.nan(),
        zero.rank() == 0,
        prev.lt(zero),
    ensures
        rises(prev, zero),
        !rises(zero, next),
{
}

/// A step without a change of sign does not fire.
pub proof fn no_sign_change_is_no_crossing(dir: CrossDir, prev: Real, now: Real)
    requires
        prev.lt(Real { bits: 0 }) == now.lt(Real { bits: 0 }),
    ensures
        !crosses(dir, prev, now),
{
}

/// Where a model reports what it monitors.
pub trait EventSink {
    /// The monitored expression of this slot has this value.
    fn monitor(&mut self, slot: usize, value: Real, dir: CrossDir);

    /// The run has to stop at this time.
    fn breakpoint(&mut self, t: Real);
}

/// A sink that keeps everything it is told, in order.
#[derive(Debug)]
pub struct RecordingEventSink {
    pub monitors: Vec<(usize, Real, CrossDir)>,
    pub breakpoints: Vec<Real>,
}

/// Being a report of this slot.
pub open spec fn is_of_slot(slot: usize) -> spec_fn((usize, Real, CrossDir)) -> bool {
    |m: (usize, Real, CrossDir)| m.0 == slot
}

/// The place of the first report of this slot.
pub open spec fn slot_index(monitors: Seq<(usize, Real, CrossDir)>, slot: usize) -> int {
    first_where(monitors, is_of_slot(slot))
}

impl RecordingEventSink {
    /// A sink that was told nothing yet.
    pub fn new() -> (r: RecordingEventSink)
        ensures
            r.monitors@ == Seq::<(usize, Real, CrossDir)>::empty(),
            r.breakpoints@ == Seq::<Real>::empty(),
    {
        RecordingEventSink { monitors: Vec::new(), breakpoints: Vec::new() }
    }

    /// The value first reported for a slot.
    pub fn value_of(&self, slot: usize) -> (r: Option<Real>)
        ensures
            r == (if slot_index(self.monitors@, slot) < self.monitors@.len() {
                Some(self.monitors@[slot_index(self.monitors@, slot)].1)
            } else {
                None
            }),
    {
        let mut k: usize = 0;
        while k < self.monitors.len() && self.monitors[k].0 != slot
            invariant
                k <= self.monitors@.len(),
                forall|j: int| 0 <= j < k ==> (#[trigger] self.monitors@[j]).0 != slot,
            decreases self.monitors@.len() - k,
        {
            k += 1;
        }
        proof {
            lemma_first_where(self.monitors@, is_of_slot(slot), k as int);
        }
        if k < self.monitors.len() {
            Some(self.monitors[k].1)
        } else {
            None
        }
    }
}

impl EventSink for RecordingEventSink {
    fn monitor(&mut self, slot: usize, value: Real, dir: CrossDir)
        ensures
            final(self).monitors@ == old(self).monitors@.push((slot, value, dir)),
            final(self).breakpoints@ == old(self).breakpoints@,
    {
        self.monitors.push((slot, value, dir));
    }

    fn breakpoint(&mut self, t: Real)
        ensures
            final(self).monitors@ == old(self).monitors@,
            final(self).breakpoints@ == old(self).breakpoints@.push(t),
    {
        self.breakpoints.push(t);
    }
}

} // verus!
