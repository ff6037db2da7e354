//! What a model is told about the evaluation it is asked for.
use crate::number::Real;
use crate::text::same_text;
use vstd::prelude::*;

verus! {

/// The encoding of the nominal temperature, 300.15 K.
pub const TEMP_NOMINAL: u64 = 0x4072_c266_6666_6666;

/// Which analysis is running.
#[derive(Clone, Copy, Debug, PartialEq, Eq, Structural)]
pub enum AnalysisKind {
    /// An operating point or a sweep of it.
    Dc,
    /// A timepoint of a transient run.
    Transient,
    /// The linearization for an AC sweep.
    Ac,
    /// The linearization for a noise sweep.
    Noise,
}

/// The analysis during which a phase is active, if there is one.
pub open spec fn phase_analysis(phase: Seq<char>) -> Option<AnalysisKind> {
    if phase == "static"@ || phase == "dc"@ {
        Some(AnalysisKind::Dc)
    } else if phase == "tran"@ {
        Some(AnalysisKind::Transient)
    } else if phase == "ac"@ {
        Some(AnalysisKind::Ac)
    } else if phase == "noise"@ {
        Some(AnalysisKind::Noise)
    } else {
        None
    }
}

impl AnalysisKind {
    /// Whether this analysis is the phase of that name. There is no phase `ic` or
    /// `nodeset` here, so no analysis is in one.
    pub fn matches_phase(self, phase: &str) -> (r: bool)
        ensures
            r == (phase_analysis(phase@) == Some(self)),
    {
        if same_text(phase, "static") || same_text(phase, "dc") {
            self == AnalysisKind::Dc
        } else if same_text(phase, "tran") {
            self == AnalysisKind::Transient
        } else if same_text(phase, "ac") {
            self == AnalysisKind::Ac
        } else if same_text(phase, "noise") {
            self == AnalysisKind::Noise
        } else {
            false
        }
    }
}

/// No phase is active during two analyses.
pub proof fn a_phase_has_one_analysis(phase: Seq<char>, a: AnalysisKind, b: AnalysisKind)
    requires
        phase_analysis(phase) == Some(a),
        phase_analysis(phase) == Some(b),
    ensures
        a == b,
{
}

/// What is known of an evaluation.
#[derive(Clone, Copy, Debug, PartialEq, Eq, Structural)]
pub struct AnalysisCtx {
    pub kind: AnalysisKind,
    /// The time, in seconds; zero outside a transient run.
    pub time: Real,
    /// The temperature, in kelvin.
    pub temp: Real,
    /// Whether this is the first evaluation of the analysis. A static solve always is.
    pub is_initial_step: bool,
    /// The integrator's coefficient on the change of a charge.
    pub ddt_coeff: Real,
    /// The integrator's weight on the previous rate of a charge.
    pub ddt_prev_rate_weight: Real,
    /// The integrator's weight on the charge from two accepted steps back.
    pub ddt_prev2_weight: Real,
    /// The frequency, in hertz; zero outside an AC sweep.
    pub freq: Real,
}

/// An evaluation of this kind at time zero and nominal temperature, outside any
/// integration.
pub open spec fn plain_context(kind: AnalysisKind, is_initial_step: bool) -> AnalysisCtx {
    AnalysisCtx {
        kind,
        time: Real { bits: 0 },
        temp: Real { bits: TEMP_NOMINAL },
        is_initial_step,
        ddt_coeff: Real { bits: 0 },
        ddt_prev_rate_weight: Real { bits: 0 },
        ddt_prev2_weight: Real { bits: 0 },
        freq: Real { bits: 0 },
    }
}

fn context(kind: AnalysisKind, is_initial_step: bool) -> (r: AnalysisCtx)
    ensures
        r == plain_context(kind, is_initial_step),
{
    AnalysisCtx {
        kind,
        time: Real::zero(),
        temp: Real::from_bits(TEMP_NOMINAL),
        is_initial_step,
        ddt_coeff: Real::zero(),
        ddt_prev_rate_weight: Real::zero(),
        ddt_prev2_weight: Real::zero(),
        freq: Real::zero(),
    }
}

impl AnalysisCtx {
    /// An operating point at the nominal temperature.
    pub fn dc() -> (r: AnalysisCtx)
        ensures
            r == plain_context(AnalysisKind::Dc, true),
    {
        context(AnalysisKind::Dc, true)
    }

    /// A timepoint at the nominal temperature. It is not the first one unless
    /// [`AnalysisCtx::with_initial_step`] says so.
    pub fn transient(time: Real) -> (r: AnalysisCtx)
        ensures
            r == (AnalysisCtx { time, ..plain_context(AnalysisKind::Transient, false) }),
    {
        let mut r = context(AnalysisKind::Transient, false);
        r.time = time;
        r
    }

    /// The linearization for an AC sweep, at the nominal temperature.
    pub fn ac() -> (r: AnalysisCtx)
        ensures
            r == plain_context(AnalysisKind::Ac, true),
    {
        context(AnalysisKind::Ac, true)
    }

    /// The linearization for a noise sweep, at the nominal temperature.
    pub fn noise() -> (r: AnalysisCtx)
        ensures
            r == plain_context(AnalysisKind::Noise, true),
    {
        context(AnalysisKind::Noise, true)
    }

    /// The linearization at one frequency of an AC sweep.
    pub fn ac_at(freq: Real) -> (r: AnalysisCtx)
        ensures
            r == (AnalysisCtx { freq, ..plain_context(AnalysisKind::Ac, true) }),
    {
        let mut r = context(AnalysisKind::Ac, true);
        r.freq = freq;
        r
    }

    /// The same evaluation at another temperature.
    pub fn with_temp(self, temp: Real) -> (r: AnalysisCtx)
        ensures
            r == (AnalysisCtx { temp, ..self }),
    {
        let mut r = self;
        r.temp = temp;
        r
    }

    /// The same evaluation within an integration.
    pub fn with_ddt(self, ddt_coeff: Real, ddt_prev_rate_weight: Real) -> (r: AnalysisCtx)
        ensures
            r == (AnalysisCtx { ddt_coeff, ddt_prev_rate_weight, ..self }),
    {
        let mut r = self;
        r.ddt_coeff = ddt_coeff;
        r.ddt_prev_rate_weight = ddt_prev_rate_weight;
        r
    }

    /// The same evaluation with a weight on the charge from two accepted steps back.
    pub fn with_ddt_prev2(self, ddt_prev2_weight: Real) -> (r: AnalysisCtx)
        ensures
            r == (AnalysisCtx { ddt_prev2_weight, ..self }),
    {
        let mut r = self;
        r.ddt_prev2_weight = ddt_prev2_weight;
        r
    }

    /// The same evaluation, as the first one or as a later one.
    pub fn with_initial_step(self, is_initial_step: bool) -> (r: AnalysisCtx)
        ensures
            r == (AnalysisCtx { is_initial_step, ..self }),
    {
        let mut r = self;
        r.is_initial_step = is_initial_step;
        r
    }
}

/// The evaluations that a small-signal sweep makes: one at each frequency where some device
/// contributes differently at different ones, else a single one.
pub fn ac_contexts(per_point: bool, f: &Vec<Real>) -> (r: Vec<AnalysisCtx>)
    ensures
        per_point ==> r@ == Seq::new(
            f@.len(),
            |i: int| (AnalysisCtx { freq: f@[i], ..plain_context(AnalysisKind::Ac, true) }),
        ),
        !per_point ==> r@ == seq![plain_context(AnalysisKind::Ac, true)],
{
    let mut r: Vec<AnalysisCtx> = Vec::new();
    if !per_point {
        r.push(AnalysisCtx::ac());
        assert(r@ =~= seq![plain_context(AnalysisKind::Ac, true)]);
        return r;
    }
    let mut i: usize = 0;
    while i < f.len()
        invariant
            i <= f@.len(),
            r@.len() == i,
            forall|j: int|
                0 <= j < i ==> #[trigger] r@[j] == (AnalysisCtx {
                    freq: f@[j],
                    ..plain_context(AnalysisKind::Ac, true)
                }),
        decreases f@.len() - i,
    {
        r.push(AnalysisCtx::ac_at(f[i]));
        i += 1;
    }
    assert(r@ =~= Seq::new(
        f@.len(),
        |i: int| (AnalysisCtx { freq: f@[i], ..plain_context(AnalysisKind::Ac, true) }),
    ));
    r
}

} // verus!
