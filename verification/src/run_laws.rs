//! What a run does: which analysis it makes of a deck, what its sources do over time,
//! which crossings fire, and what several devices in parallel contribute.
use crate::ac_laws::sums;
use crate::analysis::{ac_contexts, AnalysisCtx, AnalysisKind};
use crate::args::Analysis;
use crate::device_laws::orders;
use crate::events::{is_of_slot, slot_index, CrossDir, RecordingEventSink};
use crate::multiplicity::{
    bounds_asked, cell_sum, copies, is_multiple, scale_sources, scale_stamps, Cell,
};
use crate::netlist::{Netlist, Waveform};
use crate::noise::{can_read_table, NoiseSource};
use crate::number::{Real, ONE};
use crate::search::lemma_first_where_holds;
use crate::session::{plan_run, GateError, Run};
use crate::stamps::{tightest, Stamp};
use crate::state::ModelState;
use crate::waveform::{
    are_pulse_times, is_elapsed, is_pulse_value, is_waveform_value, waveform_value,
};
use vstd::prelude::*;

verus! {

// ---- which analysis is run ------------------------------------------------

/// A run makes the analysis that is asked for, a sweep where a DC analysis finds a sweep
/// card, and makes it only of a deck that has the card for it and whose own card, if it
/// asks for a transient, an AC or a noise run, asks for that very one. A plot is refused
/// of an operating point alone.
pub proof fn a_run_makes_the_analysis_asked_for(
    net: &Netlist,
    analysis: Analysis,
    plot: bool,
    r: Result<Run, GateError>,
)
    requires
        call_ensures(plan_run, (net, analysis, plot), r),
    ensures
        r matches Ok(run) ==> {
            &&& run is Transient <==> analysis is Transient
            &&& run is Ac <==> analysis is Ac
            &&& run is Noise <==> analysis is Noise
            &&& run is Sweep <==> analysis is Dc && net.dc is Some
            &&& run is OperatingPoint <==> analysis is Dc && net.dc is None
        },
        r is Ok <==> {
            &&& net.analysis is Tran ==> analysis is Transient
            &&& net.analysis is Ac ==> analysis is Ac
            &&& net.analysis is Noise ==> analysis is Noise
            &&& analysis is Transient ==> net.tran is Some
            &&& analysis is Ac ==> net.ac is Some
            &&& analysis is Noise ==> net.noise is Some
            &&& plot ==> !(analysis is Dc && net.dc is None)
        },
        r matches Err(e) ==> {
            &&& e is DeckWantsTransient <==> net.analysis is Tran && !(analysis is Transient)
            &&& e is DeckWantsAc <==> net.analysis is Ac && !(analysis is Ac)
            &&& e is DeckWantsNoise <==> net.analysis is Noise && !(analysis is Noise)
            &&& e is NoTransientCard ==> analysis is Transient && net.tran is None
            &&& e is NoAcCard ==> analysis is Ac && net.ac is None
            &&& e is NoNoiseCard ==> analysis is Noise && net.noise is None
            &&& e is NotACurve ==> plot && analysis is Dc && net.dc is None
        },
{
}

// ---- waveforms ------------------------------------------------------------

/// The time into its cycle at which a pulse is, so long after its delay: what is left
/// after whole periods, or all of it where the period is not positive.
pub open spec fn into_cycle(after_delay: int, period: int) -> int {
    if period > 0 {
        after_delay % period
    } else {
        after_delay
    }
}

/// The operation gives numbers.
pub open spec fn gives_numbers<F: Fn(Real, Real) -> Real>(f: F) -> bool {
    forall|a: Real, b: Real, c: Real| #[trigger] call_ensures(f, (a, b), c) ==> !c.nan()
}

/// A pulse has its first value up to its delay. In each cycle it then rises on a straight
/// line to its second value over its rise time, keeps that for its width, falls back on a
/// straight line over its fall time, and keeps its first value for the rest.
pub proof fn a_pulse_goes_through_its_cycle<
    P: Fn(Real, Real) -> Real,
    M: Fn(Real, Real) -> Real,
    R: Fn(Real, Real) -> Real,
    A: Fn(Real, Real, Real, Real) -> Real,
    S: Fn(Real, Real, Real, Real) -> Real,
>(
    v1: Real,
    v2: Real,
    td: Real,
    tr: Real,
    tf: Real,
    pw: Real,
    per: Real,
    t: Real,
    plus: &P,
    minus: &M,
    rest: &R,
    ramp: &A,
    sine: &S,
    v: Real,
    val: spec_fn(Real) -> int,
    line: spec_fn(Real, Real, int, int) -> Real,
)
    requires
        call_ensures(
            waveform_value::<P, M, R, A, S>,
            (
                Waveform::Pulse { v1, v2, td, tr, tf, pw, per },
                t,
                plus,
                minus,
                rest,
                ramp,
                sine,
            ),
            v,
        ),
        sums(*plus, val),
        forall|a: Real, b: Real, c: Real| #[trigger]
            call_ensures(*minus, (a, b), c) ==> val(c) == val(a) - val(b),
        forall|a: Real, b: Real, c: Real| #[trigger]
            call_ensures(*rest, (a, b), c) && val(b) > 0 ==> val(c) == val(a) % val(b),
        forall|a: Real, b: Real, c: Real, d: Real, x: Real| #[trigger]
            call_ensures(*ramp, (a, b, c, d), x) ==> x == line(a, b, val(c), val(d)),
        gives_numbers(*plus),
        gives_numbers(*minus),
        gives_numbers(*rest),
        orders(val),
        !t.nan() && !td.nan() && !tr.nan() && !tf.nan() && !pw.nan() && !per.nan(),
        val(Real { bits: 0 }) == 0,
        val(tr) >= 0,
        val(pw) >= 0,
        val(tf) >= 0,
    ensures
        val(t) < val(td) ==> v == v1,
        val(t) >= val(td) ==> {
            let since = into_cycle(val(t) - val(td), val(per));
            let fall = val(tr) + val(pw);
            &&& since < val(tr) ==> v == line(v1, v2, since, val(tr))
            &&& val(tr) <= since < fall ==> v == v2
            &&& fall <= since < fall + val(tf) ==> v == line(v2, v1, since - fall, val(tf))
            &&& since >= fall + val(tf) ==> v == v1
        },
{
    let w = Waveform::Pulse { v1, v2, td, tr, tf, pw, per };
    assert(is_waveform_value(w, t, *plus, *minus, *rest, *ramp, *sine, v));
    let (since, high_end, fall_end) = choose|since: Real, high_end: Real, fall_end: Real| #[trigger]
        are_pulse_times(w, t, *plus, *minus, *rest, since, high_end, fall_end) && is_pulse_value(
            w,
            t,
            *minus,
            *ramp,
            since,
            high_end,
            fall_end,
            v,
        );
    assert(is_elapsed(*minus, *rest, t, td, per, since));
    let zero = Real { bits: 0 };
    assert(!zero.nan());
    assert(zero.lt(per) <==> val(zero) < val(per));
    assert(!since.nan() && !high_end.nan() && !fall_end.nan());
    assert(val(since) == into_cycle(val(t) - val(td), val(per)));
    assert(val(high_end) == val(tr) + val(pw));
    assert(val(fall_end) == val(high_end) + val(tf));
    assert(t.lt(td) <==> val(t) < val(td));
    assert(since.lt(tr) <==> val(since) < val(tr));
    assert(since.lt(high_end) <==> val(since) < val(high_end));
    assert(since.lt(fall_end) <==> val(since) < val(fall_end));
}

/// A sine source has the value that the sine gives for its own offset, amplitude and
/// frequency at the time.
pub proof fn a_sine_takes_its_own_numbers<
    P: Fn(Real, Real) -> Real,
    M: Fn(Real, Real) -> Real,
    R: Fn(Real, Real) -> Real,
    A: Fn(Real, Real, Real, Real) -> Real,
    S: Fn(Real, Real, Real, Real) -> Real,
>(
    offset: Real,
    amplitude: Real,
    freq: Real,
    t: Real,
    plus: &P,
    minus: &M,
    rest: &R,
    ramp: &A,
    sine: &S,
    v: Real,
)
    requires
        call_ensures(
            waveform_value::<P, M, R, A, S>,
            (Waveform::Sin { offset, amplitude, freq }, t, plus, minus, rest, ramp, sine),
            v,
        ),
    ensures
        call_ensures(*sine, (offset, amplitude, freq, t), v),
{
}

// ---- crossings ------------------------------------------------------------

/// A crossing fires exactly on a change of sign, where zero counts as positive, in its
/// own direction; one for either direction fires whenever one of the others does.
pub proof fn a_crossing_fires_on_a_change_of_sign(
    prev: Real,
    now: Real,
    rising: bool,
    falling: bool,
    either: bool,
    val: spec_fn(Real) -> int,
)
    requires
        call_ensures(CrossDir::fires, (CrossDir::Rising, prev, now), rising),
        call_ensures(CrossDir::fires, (CrossDir::Falling, prev, now), falling),
        call_ensures(CrossDir::fires, (CrossDir::Either, prev, now), either),
        prev.lt(Real { bits: 0 }) <==> val(prev) < 0,
        now.lt(Real { bits: 0 }) <==> val(now) < 0,
        (Real { bits: 0 }).le(prev) <==> val(prev) >= 0,
        (Real { bits: 0 }).le(now) <==> val(now) >= 0,
    ensures
        rising <==> val(prev) < 0 <= val(now),
        falling <==> val(now) < 0 <= val(prev),
        either <==> rising || falling,
{
}

/// The directions are numbered: one for rising, minus one for falling, and every other
/// number for either.
pub proof fn directions_are_numbered(dir: i64, r: CrossDir)
    requires
        call_ensures(CrossDir::from_lrm, (dir,), r),
    ensures
        r is Rising <==> dir == 1,
        r is Falling <==> dir == -1,
{
}

/// The value of a slot is the one that was reported first for it, if any was.
pub proof fn a_slot_reads_its_first_report(sink: &RecordingEventSink, slot: usize, r: Option<Real>)
    requires
        call_ensures(RecordingEventSink::value_of, (sink, slot), r),
    ensures
        r is None <==> forall|i: int|
            0 <= i < sink.monitors@.len() ==> (#[trigger] sink.monitors@[i]).0 != slot,
        r matches Some(v) ==> exists|i: int|
            {
                &&& 0 <= i < sink.monitors@.len()
                &&& (#[trigger] sink.monitors@[i]).0 == slot
                &&& sink.monitors@[i].1 == v
                &&& forall|j: int| 0 <= j < i ==> (#[trigger] sink.monitors@[j]).0 != slot
            },
{
    let holds = is_of_slot(slot);
    let all = sink.monitors@;
    lemma_first_where_holds(all, holds);
    let k = slot_index(all, slot);
    assert forall|j: int| 0 <= j < k implies (#[trigger] all[j]).0 != slot by {
        assert(!holds(all[j]));
    }
    if k < all.len() {
        assert(holds(all[k]));
        assert(all[k].0 == slot);
    }
}

// ---- several devices ------------------------------------------------------

/// A multiple of a device contributes to every cell what so many of them in parallel do,
/// and asks for the same bounds on the step as one.
pub proof fn a_multiple_contributes_its_copies<F: Fn(Real) -> Real>(
    stamps: &Vec<Stamp>,
    times: &F,
    scaled: Vec<Stamp>,
    cell: Cell,
    val: spec_fn(Real) -> int,
    m: nat,
)
    requires
        call_ensures(scale_stamps::<F>, (stamps, times), scaled),
        forall|x: Real, y: Real| #[trigger] call_ensures(*times, (x,), y) ==> val(y) == m * val(x),
    ensures
        cell_sum(scaled@, cell, val) == m * cell_sum(stamps@, cell, val),
        bounds_asked(scaled@) == bounds_asked(stamps@),
{
    crate::multiplicity::several_devices_contribute_several_times(
        *times,
        stamps@,
        scaled@,
        cell,
        val,
        m,
    );
    lemma_copies(stamps@, m, cell, val);
}

proof fn lemma_copies(one: Seq<Stamp>, m: nat, cell: Cell, val: spec_fn(Real) -> int)
    ensures
        cell_sum(copies(one, m), cell, val) == m * cell_sum(one, cell, val),
    decreases m,
{
    let s = cell_sum(one, cell, val);
    if m > 0 {
        lemma_copies(one, (m - 1) as nat, cell, val);
        crate::multiplicity::lemma_cell_sum_concat(copies(one, (m - 1) as nat), one, cell, val);
        assert((m - 1) * s + s == m * s) by (nonlinear_arith);
    } else {
        assert(0 * s == 0);
    }
}

/// The noise of a multiple stands between the same nodes, in the same order and of the
/// same shape, with every density that many times as large and no frequency moved.
pub proof fn a_multiple_makes_its_noise<F: Fn(Real) -> Real>(
    sources: &Vec<(usize, usize, NoiseSource)>,
    times: &F,
    scaled: Vec<(usize, usize, NoiseSource)>,
    i: int,
    val: spec_fn(Real) -> int,
    m: nat,
)
    requires
        call_ensures(scale_sources::<F>, (sources, times), scaled),
        forall|x: Real, y: Real| #[trigger] call_ensures(*times, (x,), y) ==> val(y) == m * val(x),
        0 <= i < sources@.len(),
    ensures
        scaled@.len() == sources@.len(),
        scaled@[i].0 == sources@[i].0,
        scaled@[i].1 == sources@[i].1,
        match (sources@[i].2, scaled@[i].2) {
            (NoiseSource::White { psd: one }, NoiseSource::White { psd: many }) => val(many) == m
                * val(one),
            (
                NoiseSource::Flicker { coeff: one, exponent: e },
                NoiseSource::Flicker { coeff: many, exponent: f },
            ) => val(many) == m * val(one) && e == f,
            (
                NoiseSource::Table { points: one, interp: a },
                NoiseSource::Table { points: many, interp: b },
            ) => a == b && many@.len() == one@.len() && forall|k: int|
                0 <= k < one@.len() ==> (#[trigger] many@[k]).0 == one@[k].0 && val(many@[k].1) == m
                    * val(one@[k].1),
            _ => false,
        },
{
    assert(scaled@.len() == sources@.len());
    assert(scaled@[i].0 == sources@[i].0);
}

/// A device is a multiple exactly if its multiplicity is not one.
pub proof fn one_is_no_multiple(m: Real, r: bool)
    requires
        call_ensures(is_multiple, (m,), r),
    ensures
        r <==> !(m.le(Real { bits: ONE }) && (Real { bits: ONE }).le(m)),
{
}

/// After any number of requests the bound on the step is one of them, positive and finite,
/// and no positive, finite one is below it; without such a one there is no bound.
pub proof fn the_tightest_request_stays(requests: Seq<Real>)
    ensures
        match bound_after(requests) {
            None => forall|i: int|
                0 <= i < requests.len() ==> !(#[trigger] requests[i]).positive_finite(),
            Some(b) => b.positive_finite() && requests.contains(b) && forall|i: int|
                0 <= i < requests.len() && (#[trigger] requests[i]).positive_finite() ==> b.le(
                    requests[i],
                ),
        },
    decreases requests.len(),
{
    if requests.len() > 0 {
        let fewer = requests.drop_last();
        the_tightest_request_stays(fewer);
        let last = requests.last();
        assert(requests[requests.len() - 1] == last);
        if let Some(b) = bound_after(fewer) {
            let k = choose|k: int| 0 <= k < fewer.len() && fewer[k] == b;
            assert(requests[k] == b);
        }
        assert forall|i: int| 0 <= i < fewer.len() implies requests[i] == #[trigger] fewer[i] by {}
        if let Some(b) = bound_after(requests) {
            assert forall|i: int|
                0 <= i < requests.len() && (#[trigger] requests[i]).positive_finite() implies b.le(
                requests[i],
            ) by {
                if i < fewer.len() {
                    assert(fewer[i] == requests[i]);
                }
            }
        } else {
            assert forall|i: int| 0 <= i < requests.len() implies !(
            #[trigger] requests[i]).positive_finite() by {
                if i < fewer.len() {
                    assert(fewer[i] == requests[i]);
                }
            }
        }
    }
}

/// The bound on the step that requests one after the other lead to.
pub open spec fn bound_after(requests: Seq<Real>) -> Option<Real>
    decreases requests.len(),
{
    if requests.len() == 0 {
        None
    } else {
        tightest(bound_after(requests.drop_last()), requests.last())
    }
}

// ---- evaluations ----------------------------------------------------------

/// A phase of an analysis is known under its own names: `static` and `dc`, `tran`, `ac`
/// and `noise`. No analysis is in a phase of any other name.
pub proof fn a_phase_goes_by_its_name(
    phase: &str,
    dc: bool,
    transient: bool,
    ac: bool,
    noise: bool,
)
    requires
        call_ensures(AnalysisKind::matches_phase, (AnalysisKind::Dc, phase), dc),
        call_ensures(AnalysisKind::matches_phase, (AnalysisKind::Transient, phase), transient),
        call_ensures(AnalysisKind::matches_phase, (AnalysisKind::Ac, phase), ac),
        call_ensures(AnalysisKind::matches_phase, (AnalysisKind::Noise, phase), noise),
    ensures
        dc <==> phase@ == "static"@ || phase@ == "dc"@,
        transient <==> phase@ == "tran"@,
        ac <==> phase@ == "ac"@,
        noise <==> phase@ == "noise"@,
{
    reveal_strlit("static");
    reveal_strlit("dc");
    reveal_strlit("tran");
    reveal_strlit("ac");
    reveal_strlit("noise");
    assert("dc"@[0] != "ac"@[0]);
    assert("static"@.len() == 6 && "dc"@.len() == 2 && "tran"@.len() == 4 && "ac"@.len() == 2
        && "noise"@.len() == 5);
}

/// The evaluations of the static analyses are first ones, those of a transient run are
/// not; only a transient one has a time and only one at a frequency has that. No
/// evaluation starts within an integration, and all are at one temperature.
pub proof fn an_evaluation_knows_its_own(
    t: Real,
    f: Real,
    dc: AnalysisCtx,
    transient: AnalysisCtx,
    ac: AnalysisCtx,
    ac_at: AnalysisCtx,
    noise: AnalysisCtx,
)
    requires
        call_ensures(AnalysisCtx::dc, (), dc),
        call_ensures(AnalysisCtx::transient, (t,), transient),
        call_ensures(AnalysisCtx::ac, (), ac),
        call_ensures(AnalysisCtx::ac_at, (f,), ac_at),
        call_ensures(AnalysisCtx::noise, (), noise),
    ensures
        dc.kind is Dc && transient.kind is Transient && ac.kind is Ac && ac_at.kind is Ac
            && noise.kind is Noise,
        dc.is_initial_step && ac.is_initial_step && ac_at.is_initial_step && noise.is_initial_step,
        !transient.is_initial_step,
        transient.time == t,
        ac_at.freq == f,
        dc.time.bits == 0 && ac.time.bits == 0 && ac_at.time.bits == 0 && noise.time.bits == 0,
        dc.freq.bits == 0 && ac.freq.bits == 0 && transient.freq.bits == 0 && noise.freq.bits == 0,
        dc.temp == transient.temp && dc.temp == ac.temp && dc.temp == ac_at.temp && dc.temp
            == noise.temp,
        dc.ddt_coeff.bits == 0 && transient.ddt_coeff.bits == 0 && ac.ddt_coeff.bits == 0
            && noise.ddt_coeff.bits == 0,
{
}

/// A sweep is evaluated once at each of its frequencies, in order, where devices differ
/// from one to another, and once in all where none does.
pub proof fn a_sweep_is_evaluated_at_its_frequencies(
    per_point: bool,
    f: &Vec<Real>,
    r: Vec<AnalysisCtx>,
)
    requires
        call_ensures(ac_contexts, (per_point, f), r),
    ensures
        !per_point ==> r@.len() == 1 && r@[0].freq.bits == 0 && r@[0].kind is Ac,
        per_point ==> r@.len() == f@.len() && forall|i: int|
            0 <= i < r@.len() ==> (#[trigger] r@[i]).freq == f@[i] && r@[i].kind is Ac
                && r@[i].is_initial_step,
{
}

/// Changing one thing of an evaluation changes no other.
pub proof fn an_evaluation_keeps_the_rest(
    c: AnalysisCtx,
    temp: Real,
    coeff: Real,
    rate: Real,
    weight: Real,
    first: bool,
    warmer: AnalysisCtx,
    integrated: AnalysisCtx,
    weighted: AnalysisCtx,
    started: AnalysisCtx,
)
    requires
        call_ensures(AnalysisCtx::with_temp, (c, temp), warmer),
        call_ensures(AnalysisCtx::with_ddt, (c, coeff, rate), integrated),
        call_ensures(AnalysisCtx::with_ddt_prev2, (c, weight), weighted),
        call_ensures(AnalysisCtx::with_initial_step, (c, first), started),
    ensures
        warmer.temp == temp,
        integrated.ddt_coeff == coeff && integrated.ddt_prev_rate_weight == rate,
        weighted.ddt_prev2_weight == weight,
        started.is_initial_step == first,
        warmer.kind == c.kind && integrated.kind == c.kind && weighted.kind == c.kind
            && started.kind == c.kind,
        warmer.time == c.time && integrated.time == c.time && weighted.time == c.time
            && started.time == c.time,
        warmer.freq == c.freq && integrated.freq == c.freq && weighted.freq == c.freq
            && started.freq == c.freq,
        integrated.temp == c.temp && weighted.temp == c.temp && started.temp == c.temp,
        warmer.ddt_coeff == c.ddt_coeff && weighted.ddt_coeff == c.ddt_coeff && started.ddt_coeff
            == c.ddt_coeff,
        warmer.ddt_prev_rate_weight == c.ddt_prev_rate_weight && weighted.ddt_prev_rate_weight
            == c.ddt_prev_rate_weight && started.ddt_prev_rate_weight == c.ddt_prev_rate_weight,
        warmer.ddt_prev2_weight == c.ddt_prev2_weight && integrated.ddt_prev2_weight
            == c.ddt_prev2_weight && started.ddt_prev2_weight == c.ddt_prev2_weight,
        warmer.is_initial_step == c.is_initial_step && integrated.is_initial_step
            == c.is_initial_step && weighted.is_initial_step == c.is_initial_step,
{
}

// ---- state ----------------------------------------------------------------

/// A slot reads what was committed there, whatever is proposed, and zero where there is no
/// such slot; a state is empty exactly if it has no slot.
pub proof fn a_slot_reads_what_was_committed<'a>(
    state: &ModelState<'a>,
    slot: usize,
    value: Real,
    size: usize,
    empty: bool,
)
    requires
        call_ensures(ModelState::<'a>::get, (state, slot), value),
        call_ensures(ModelState::<'a>::len, (state,), size),
        call_ensures(ModelState::<'a>::is_empty, (state,), empty),
    ensures
        slot < state.prev@.len() ==> value == state.prev@[slot as int],
        slot >= state.prev@.len() ==> value == (Real { bits: 0 }),
        size <= state.prev@.len() && size <= state.proposed().len(),
        size == state.prev@.len() || size == state.proposed().len(),
        empty <==> size == 0,
{
}

// ---- tables ---------------------------------------------------------------

/// A table of numbers in order can be read at every number, and a table that is not empty
/// at no encoding of none.
pub proof fn a_table_is_read_at_every_frequency(points: &Vec<(Real, Real)>, f: Real, r: bool)
    requires
        call_ensures(can_read_table, (points, f), r),
        forall|i: int, j: int|
            0 <= i < j < points@.len() ==> points@[i].0.total_rank() <= points@[j].0.total_rank(),
        forall|i: int| 0 <= i < points@.len() ==> !(#[trigger] points@[i]).0.nan(),
    ensures
        !f.nan() ==> r,
        f.nan() && points@.len() > 0 ==> !r,
{
    if !f.nan() {
        crate::noise::a_sorted_table_covers_every_frequency(points@, f);
    }
}

} // verus!
