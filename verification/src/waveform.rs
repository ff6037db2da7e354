//! The value of a source that follows a waveform.
use crate::netlist::Waveform;
use crate::number::{gives_one, gives_one_of_four, Real};
use vstd::prelude::*;

verus! {

/// The part of its cycle that a pulse is in.
#[derive(Clone, Copy, Debug, PartialEq, Eq, Structural)]
pub enum PulsePhase {
    /// Before the first edge, or after the falling one.
    Low,
    /// On the rising edge.
    Rising,
    /// Between the edges.
    High,
    /// On the falling edge.
    Falling,
}

/// The part of its cycle that a pulse is in at a time. `since` is the time since the
/// cycle began; the rising edge, the pulse and the falling edge end at `rise_end`,
/// `high_end` and `fall_end` of it.
pub open spec fn pulse_phase_at(
    t: Real,
    td: Real,
    since: Real,
    rise_end: Real,
    high_end: Real,
    fall_end: Real,
) -> PulsePhase {
    if t.lt(td) {
        PulsePhase::Low
    } else if since.lt(rise_end) {
        PulsePhase::Rising
    } else if since.lt(high_end) {
        PulsePhase::High
    } else if since.lt(fall_end) {
        PulsePhase::Falling
    } else {
        PulsePhase::Low
    }
}

/// The part of its cycle that a pulse is in at a time.
pub fn pulse_phase(
    t: Real,
    td: Real,
    since: Real,
    rise_end: Real,
    high_end: Real,
    fall_end: Real,
) -> (r: PulsePhase)
    ensures
        r == pulse_phase_at(t, td, since, rise_end, high_end, fall_end),
{
    if t.less(td) {
        PulsePhase::Low
    } else if since.less(rise_end) {
        PulsePhase::Rising
    } else if since.less(high_end) {
        PulsePhase::High
    } else if since.less(fall_end) {
        PulsePhase::Falling
    } else {
        PulsePhase::Low
    }
}

/// A pulse without rise time is never on its rising edge, so nothing is divided by
/// that time.
pub proof fn an_ideal_step_has_no_edge(
    t: Real,
    td: Real,
    since: Real,
    rise_end: Real,
    high_end: Real,
    fall_end: Real,
)
    requires
        rise_end.rank() == 0,
        since.rank() >= 0,
    ensures
        pulse_phase_at(t, td, since, rise_end, high_end, fall_end) != PulsePhase::Rising,
{
}

/// A pulse without fall time, whose falling edge ends where it begins, is never on that
/// edge, so nothing is divided by that time either.
pub proof fn an_ideal_fall_has_no_edge(
    t: Real,
    td: Real,
    since: Real,
    rise_end: Real,
    high_end: Real,
    fall_end: Real,
)
    requires
        fall_end.le(high_end),
    ensures
        pulse_phase_at(t, td, since, rise_end, high_end, fall_end) != PulsePhase::Falling,
{
}

/// `since` is the time since the pulse's cycle began: the time since the delay, less
/// whole periods where the period is positive.
pub open spec fn is_elapsed<M: Fn(Real, Real) -> Real, R: Fn(Real, Real) -> Real>(
    minus: M,
    rest: R,
    t: Real,
    td: Real,
    per: Real,
    since: Real,
) -> bool {
    exists|delayed: Real|
        #[trigger] call_ensures(minus, (t, td), delayed) && if (Real { bits: 0 }).lt(per) {
            call_ensures(rest, (delayed, per), since)
        } else {
            since == delayed
        }
}

/// `into` is the time since the falling edge began.
pub open spec fn is_into_fall<M: Fn(Real, Real) -> Real>(
    minus: M,
    since: Real,
    tr: Real,
    pw: Real,
    into: Real,
) -> bool {
    exists|after_rise: Real| #[trigger]
        call_ensures(minus, (since, tr), after_rise) && call_ensures(minus, (after_rise, pw), into)
}

/// `v` is the value of a pulse that is in the phase which these times tell.
pub open spec fn is_pulse_value<M: Fn(Real, Real) -> Real, A: Fn(Real, Real, Real, Real) -> Real>(
    w: Waveform,
    t: Real,
    minus: M,
    ramp: A,
    since: Real,
    high_end: Real,
    fall_end: Real,
    v: Real,
) -> bool {
    &&& w matches Waveform::Pulse { v1, v2, td, tr, tf, pw, per }
    &&& match pulse_phase_at(t, td, since, tr, high_end, fall_end) {
        PulsePhase::Low => v == v1,
        PulsePhase::Rising => call_ensures(ramp, (v1, v2, since, tr), v),
        PulsePhase::High => v == v2,
        PulsePhase::Falling => exists|into: Real| #[trigger]
            is_into_fall(minus, since, tr, pw, into) && call_ensures(ramp, (v2, v1, into, tf), v),
    }
}

/// The times that tell the phase of a pulse: since its cycle began, and the ends of the
/// pulse and of its falling edge.
pub open spec fn are_pulse_times<
    P: Fn(Real, Real) -> Real,
    M: Fn(Real, Real) -> Real,
    R: Fn(Real, Real) -> Real,
>(
    w: Waveform,
    t: Real,
    plus: P,
    minus: M,
    rest: R,
    since: Real,
    high_end: Real,
    fall_end: Real,
) -> bool {
    &&& w matches Waveform::Pulse { v1, v2, td, tr, tf, pw, per }
    &&& is_elapsed(minus, rest, t, td, per, since)
    &&& call_ensures(plus, (tr, pw), high_end)
    &&& call_ensures(plus, (high_end, tf), fall_end)
}

/// `v` is the value of a waveform at a time.
pub open spec fn is_waveform_value<
    P: Fn(Real, Real) -> Real,
    M: Fn(Real, Real) -> Real,
    R: Fn(Real, Real) -> Real,
    A: Fn(Real, Real, Real, Real) -> Real,
    S: Fn(Real, Real, Real, Real) -> Real,
>(w: Waveform, t: Real, plus: P, minus: M, rest: R, ramp: A, sine: S, v: Real) -> bool {
    match w {
        Waveform::Sin { offset, amplitude, freq } => call_ensures(
            sine,
            (offset, amplitude, freq, t),
            v,
        ),
        Waveform::Pulse { .. } => exists|since: Real, high_end: Real, fall_end: Real| #[trigger]
            are_pulse_times(w, t, plus, minus, rest, since, high_end, fall_end)
                && is_pulse_value(w, t, minus, ramp, since, high_end, fall_end, v),
    }
}

/// The value of a waveform at a time. `plus` and `minus` add and subtract, `rest` gives
/// what is left of a time after whole periods, `ramp` the value on a straight line from
/// one value to another so far into its length, and `sine` that of a sine with an offset,
/// an amplitude and a frequency.
pub fn waveform_value<
    P: Fn(Real, Real) -> Real,
    M: Fn(Real, Real) -> Real,
    R: Fn(Real, Real) -> Real,
    A: Fn(Real, Real, Real, Real) -> Real,
    S: Fn(Real, Real, Real, Real) -> Real,
>(w: Waveform, t: Real, plus: &P, minus: &M, rest: &R, ramp: &A, sine: &S) -> (v: Real)
    requires
        forall|a: Real, b: Real| #[trigger] call_requires(*plus, (a, b)),
        forall|a: Real, b: Real| #[trigger] call_requires(*minus, (a, b)),
        forall|a: Real, b: Real| #[trigger] call_requires(*rest, (a, b)),
        forall|a: Real, b: Real, c: Real, d: Real| #[trigger] call_requires(*ramp, (a, b, c, d)),
        forall|a: Real, b: Real, c: Real, d: Real| #[trigger] call_requires(*sine, (a, b, c, d)),
    ensures
        is_waveform_value(w, t, *plus, *minus, *rest, *ramp, *sine, v),
{
    match w {
        Waveform::Sin { offset, amplitude, freq } => sine(offset, amplitude, freq, t),
        Waveform::Pulse { v1, v2, td, tr, tf, pw, per } => {
            let delayed = minus(t, td);
            let since = if Real::zero().less(per) {
                rest(delayed, per)
            } else {
                delayed
            };
            assert(is_elapsed(*minus, *rest, t, td, per, since));
            let high_end = plus(tr, pw);
            let fall_end = plus(high_end, tf);
            let v = match pulse_phase(t, td, since, tr, high_end, fall_end) {
                PulsePhase::Low => v1,
                PulsePhase::Rising => ramp(v1, v2, since, tr),
                PulsePhase::High => v2,
                PulsePhase::Falling => {
                    let after_rise = minus(since, tr);
                    let into = minus(after_rise, pw);
                    assert(is_into_fall(*minus, since, tr, pw, into));
                    ramp(v2, v1, into, tf)
                },
            };
            assert(are_pulse_times(w, t, *plus, *minus, *rest, since, high_end, fall_end));
            assert(is_pulse_value(w, t, *minus, *ramp, since, high_end, fall_end, v));
            v
        },
    }
}

/// Before its delay a pulse has its first value.
pub proof fn a_pulse_waits_for_its_delay<
    P: Fn(Real, Real) -> Real,
    M: Fn(Real, Real) -> Real,
    R: Fn(Real, Real) -> Real,
    A: Fn(Real, Real, Real, Real) -> Real,
    S: Fn(Real, Real, Real, Real) -> Real,
>(w: Waveform, t: Real, plus: P, minus: M, rest: R, ramp: A, sine: S, v: Real)
    requires
        is_waveform_value(w, t, plus, minus, rest, ramp, sine, v),
        w is Pulse,
        t.lt(w->td),
    ensures
        v == w->v1,
{
}

/// A pulse whose period is not positive is a single shot: once the time since its delay
/// is past the end of its falling edge, and so past every edge, it has its first value.
pub proof fn a_single_shot_ends<
    P: Fn(Real, Real) -> Real,
    M: Fn(Real, Real) -> Real,
    R: Fn(Real, Real) -> Real,
    A: Fn(Real, Real, Real, Real) -> Real,
    S: Fn(Real, Real, Real, Real) -> Real,
>(w: Waveform, t: Real, plus: P, minus: M, rest: R, ramp: A, sine: S, v: Real)
    requires
        is_waveform_value(w, t, plus, minus, rest, ramp, sine, v),
        w is Pulse,
        !(Real { bits: 0 }).lt(w->per),
        forall|delayed: Real, high_end: Real, fall_end: Real|
            #![trigger call_ensures(minus, (t, w->td), delayed), call_ensures(plus, (w->tr, w->pw), high_end), call_ensures(plus, (high_end, w->tf), fall_end)]
            call_ensures(minus, (t, w->td), delayed) && call_ensures(plus, (w->tr, w->pw), high_end)
                && call_ensures(plus, (high_end, w->tf), fall_end) ==> w->tr.le(high_end)
                && high_end.le(fall_end) && fall_end.le(delayed),
    ensures
        v == w->v1,
{
    let (since, high_end, fall_end) = choose|since: Real, high_end: Real, fall_end: Real| #[trigger]
        are_pulse_times(w, t, plus, minus, rest, since, high_end, fall_end) && is_pulse_value(
            w,
            t,
            minus,
            ramp,
            since,
            high_end,
            fall_end,
            v,
        );
    assert(call_ensures(minus, (t, w->td), since));
}

/// A pulse repeats: at two times after its delay that are equally far into a cycle, such
/// as a whole period apart, it has the same value.
pub proof fn a_pulse_repeats<
    P: Fn(Real, Real) -> Real,
    M: Fn(Real, Real) -> Real,
    R: Fn(Real, Real) -> Real,
    A: Fn(Real, Real, Real, Real) -> Real,
    S: Fn(Real, Real, Real, Real) -> Real,
>(
    w: Waveform,
    t: Real,
    later: Real,
    plus: P,
    minus: M,
    rest: R,
    ramp: A,
    sine: S,
    v: Real,
    u: Real,
)
    requires
        is_waveform_value(w, t, plus, minus, rest, ramp, sine, v),
        is_waveform_value(w, later, plus, minus, rest, ramp, sine, u),
        w is Pulse,
        !t.lt(w->td),
        !later.lt(w->td),
        gives_one(plus),
        gives_one(minus),
        gives_one_of_four(ramp),
        forall|x: Real, y: Real| #[trigger]
            is_elapsed(minus, rest, t, w->td, w->per, x) && #[trigger] is_elapsed(
                minus,
                rest,
                later,
                w->td,
                w->per,
                y,
            ) ==> x == y,
    ensures
        v == u,
{
    let (since, high_end, fall_end) = choose|since: Real, high_end: Real, fall_end: Real| #[trigger]
        are_pulse_times(w, t, plus, minus, rest, since, high_end, fall_end) && is_pulse_value(
            w,
            t,
            minus,
            ramp,
            since,
            high_end,
            fall_end,
            v,
        );
    let (again, high_again, fall_again) = choose|since: Real, high_end: Real, fall_end: Real|
        #[trigger]
        are_pulse_times(w, later, plus, minus, rest, since, high_end, fall_end) && is_pulse_value(
            w,
            later,
            minus,
            ramp,
            since,
            high_end,
            fall_end,
            u,
        );
    assert(since == again);
    assert(high_end == high_again);
    assert(fall_end == fall_again);
}

/// The number lies between the two others, or is one of them.
pub open spec fn between(a: Real, b: Real, x: Real) -> bool {
    (a.le(x) && x.le(b)) || (b.le(x) && x.le(a))
}

/// A pulse never leaves the range between its two values, where no ramp does that is
/// asked within its length, and the time into an edge lies within the edge.
pub proof fn a_pulse_stays_between_its_values<
    P: Fn(Real, Real) -> Real,
    M: Fn(Real, Real) -> Real,
    R: Fn(Real, Real) -> Real,
    A: Fn(Real, Real, Real, Real) -> Real,
    S: Fn(Real, Real, Real, Real) -> Real,
>(w: Waveform, t: Real, plus: P, minus: M, rest: R, ramp: A, sine: S, v: Real)
    requires
        is_waveform_value(w, t, plus, minus, rest, ramp, sine, v),
        w is Pulse,
        !w->v1.nan(),
        !w->v2.nan(),
        forall|a: Real, b: Real, c: Real, d: Real, x: Real| #[trigger]
            call_ensures(ramp, (a, b, c, d), x) && (Real { bits: 0 }).le(c) && c.le(d) ==> between(
                a,
                b,
                x,
            ),
        forall|since: Real| #[trigger]
            is_elapsed(minus, rest, t, w->td, w->per, since) && !t.lt(w->td) ==> (Real {
                bits: 0,
            }).le(since),
        forall|since: Real, high_end: Real, fall_end: Real, into: Real|
            #![trigger are_pulse_times(w, t, plus, minus, rest, since, high_end, fall_end), is_into_fall(minus, since, w->tr, w->pw, into)]
            are_pulse_times(w, t, plus, minus, rest, since, high_end, fall_end) && is_into_fall(
                minus,
                since,
                w->tr,
                w->pw,
                into,
            ) && !since.lt(high_end) && since.lt(fall_end) ==> (Real { bits: 0 }).le(into)
                && into.le(w->tf),
    ensures
        between(w->v1, w->v2, v),
{
}

} // verus!
