//! What a simulation run does: which analysis, on which card of the deck.
use crate::args::Analysis;
use crate::library::{files_reached_by, is_reached, keep_reached, reached_sources, LibraryFile};
use crate::netlist::{AnalysisCard, Netlist};
use crate::refusal::{is_answer, refuse_transient_approximations, Refusal, Token};
use crate::text::{decimal, decimal_text};
use vstd::prelude::*;

verus! {

/// Why a deck cannot be run as asked.
#[derive(Clone, Copy, Debug, PartialEq, Eq, Structural)]
pub enum GateError {
    /// The deck asks for a transient run, and another one is to be made.
    DeckWantsTransient,
    /// The deck asks for an AC sweep, and another run is to be made.
    DeckWantsAc,
    /// The deck asks for a noise sweep, and another run is to be made.
    DeckWantsNoise,
    /// A transient run on a deck without its card.
    NoTransientCard,
    /// An AC sweep on a deck without its card.
    NoAcCard,
    /// A noise sweep on a deck without its card.
    NoNoiseCard,
    /// A plot of a single operating point.
    NotACurve,
}

impl GateError {
    /// What to tell the user.
    pub open spec fn text(self) -> Seq<char> {
        match self {
            GateError::DeckWantsTransient => "deck requests transient analysis (`.tran`); pass `--tran` to run it"@,
            GateError::DeckWantsAc => "deck requests AC analysis (`.ac`); pass `--ac` to run it"@,
            GateError::DeckWantsNoise => "deck requests noise analysis (`.noise`); pass `--noise` to run it"@,
            GateError::NoTransientCard => "transient analysis requested but the deck has no parseable `.tran <tstep> <tstop>` card"@,
            GateError::NoAcCard => "AC analysis requested but the deck has no parseable `.ac dec <points-per-decade> <fstart> <fstop>` card (only the `dec` sweep type is supported)"@,
            GateError::NoNoiseCard => "noise analysis requested but the deck has no parseable `.noise V(<out>) <source> dec <points-per-decade> <fstart> <fstop>` card (only the `dec` sweep type and a single-node `V(<out>)` probe are supported)"@,
            GateError::NotACurve => "--plot supports a transient run (--tran), an AC sweep (--ac), a noise sweep (--noise), or a `.dc` sweep; a DC operating point is a single point, not a curve"@,
        }
    }

    /// What to tell the user.
    pub fn message(&self) -> (r: String)
        ensures
            r@ == self.text(),
    {
        match self {
            GateError::DeckWantsTransient => "deck requests transient analysis (`.tran`); pass `--tran` to run it".to_owned(),
            GateError::DeckWantsAc => "deck requests AC analysis (`.ac`); pass `--ac` to run it".to_owned(),
            GateError::DeckWantsNoise => "deck requests noise analysis (`.noise`); pass `--noise` to run it".to_owned(),
            GateError::NoTransientCard => "transient analysis requested but the deck has no parseable `.tran <tstep> <tstop>` card".to_owned(),
            GateError::NoAcCard => "AC analysis requested but the deck has no parseable `.ac dec <points-per-decade> <fstart> <fstop>` card (only the `dec` sweep type is supported)".to_owned(),
            GateError::NoNoiseCard => "noise analysis requested but the deck has no parseable `.noise V(<out>) <source> dec <points-per-decade> <fstart> <fstop>` card (only the `dec` sweep type and a single-node `V(<out>)` probe are supported)".to_owned(),
            GateError::NotACurve => "--plot supports a transient run (--tran), an AC sweep (--ac), a noise sweep (--noise), or a `.dc` sweep; a DC operating point is a single point, not a curve".to_owned(),
        }
    }
}

/// What is wrong with running this analysis on the deck, if anything: first what the
/// deck's own card asks for, then what the analysis needs of the deck.
pub open spec fn gate_fault(net: Netlist, analysis: Analysis) -> Option<GateError> {
    if net.analysis == AnalysisCard::Tran && analysis != Analysis::Transient {
        Some(GateError::DeckWantsTransient)
    } else if net.analysis == AnalysisCard::Ac && analysis != Analysis::Ac {
        Some(GateError::DeckWantsAc)
    } else if net.analysis == AnalysisCard::Noise && analysis != Analysis::Noise {
        Some(GateError::DeckWantsNoise)
    } else if analysis == Analysis::Transient && net.tran is None {
        Some(GateError::NoTransientCard)
    } else if analysis == Analysis::Ac && net.ac is None {
        Some(GateError::NoAcCard)
    } else if analysis == Analysis::Noise && net.noise is None {
        Some(GateError::NoNoiseCard)
    } else {
        None
    }
}

/// Rejects an analysis that the deck does not ask for, or that it has no card for.
pub fn gate_analysis(net: &Netlist, analysis: Analysis) -> (r: Result<(), GateError>)
    ensures
        match r {
            Ok(_) => gate_fault(*net, analysis) is None,
            Err(e) => gate_fault(*net, analysis) == Some(e),
        },
{
    if net.analysis == AnalysisCard::Tran && analysis != Analysis::Transient {
        return Err(GateError::DeckWantsTransient);
    }
    if net.analysis == AnalysisCard::Ac && analysis != Analysis::Ac {
        return Err(GateError::DeckWantsAc);
    }
    if net.analysis == AnalysisCard::Noise && analysis != Analysis::Noise {
        return Err(GateError::DeckWantsNoise);
    }
    if analysis == Analysis::Transient && net.tran.is_none() {
        return Err(GateError::NoTransientCard);
    }
    if analysis == Analysis::Ac && net.ac.is_none() {
        return Err(GateError::NoAcCard);
    }
    if analysis == Analysis::Noise && net.noise.is_none() {
        return Err(GateError::NoNoiseCard);
    }
    Ok(())
}

/// What is run.
#[derive(Clone, Copy, Debug, PartialEq, Eq, Structural)]
pub enum Run {
    OperatingPoint,
    Sweep,
    Transient,
    Ac,
    Noise,
}

/// What an analysis runs on the deck.
pub open spec fn run_of(net: Netlist, analysis: Analysis) -> Run {
    match analysis {
        Analysis::Transient => Run::Transient,
        Analysis::Ac => Run::Ac,
        Analysis::Noise => Run::Noise,
        Analysis::Dc => if net.dc is Some {
            Run::Sweep
        } else {
            Run::OperatingPoint
        },
    }
}

/// Decides what is run, or why nothing is. A plot is drawn of a curve only, which a
/// single operating point is not.
pub fn plan_run(net: &Netlist, analysis: Analysis, plot: bool) -> (r: Result<Run, GateError>)
    ensures
        match r {
            Ok(run) => {
                &&& gate_fault(*net, analysis) is None
                &&& run == run_of(*net, analysis)
                &&& !(plot && run == Run::OperatingPoint)
            },
            Err(e) => match gate_fault(*net, analysis) {
                Some(fault) => e == fault,
                None => {
                    &&& plot
                    &&& run_of(*net, analysis) == Run::OperatingPoint
                    &&& e == GateError::NotACurve
                },
            },
        },
{
    match gate_analysis(net, analysis) {
        Ok(_) => {},
        Err(e) => {
            return Err(e);
        },
    }
    let run = match analysis {
        Analysis::Transient => Run::Transient,
        Analysis::Ac => Run::Ac,
        Analysis::Noise => Run::Noise,
        Analysis::Dc => if net.dc.is_some() {
            Run::Sweep
        } else {
            Run::OperatingPoint
        },
    };
    if plot && run == Run::OperatingPoint {
        return Err(GateError::NotACurve);
    }
    Ok(run)
}

/// A deck whose card asks for an analysis runs under that analysis only, and has
/// what it needs.
pub proof fn a_card_fixes_its_analysis(net: Netlist, analysis: Analysis)
    requires
        gate_fault(net, analysis) is None,
    ensures
        net.analysis == AnalysisCard::Tran ==> analysis == Analysis::Transient && net.tran is Some,
        net.analysis == AnalysisCard::Ac ==> analysis == Analysis::Ac && net.ac is Some,
        net.analysis == AnalysisCard::Noise ==> analysis == Analysis::Noise && net.noise is Some,
{
}

/// The word for an analysis.
pub open spec fn analysis_name(analysis: Analysis) -> Seq<char> {
    match analysis {
        Analysis::Dc => "Dc"@,
        Analysis::Transient => "Transient"@,
        Analysis::Ac => "Ac"@,
        Analysis::Noise => "Noise"@,
    }
}

/// The line that opens a run.
pub fn sim_line(netlist: &str, model: &Option<String>, analysis: Analysis) -> (r: String)
    ensures
        r@ == "[va-cli] sim netlist="@ + netlist@ + " model="@ + (match *model {
            Some(m) => m@,
            None => "<none>"@,
        }) + " analysis="@ + analysis_name(analysis),
{
    let mut r = "[va-cli] sim netlist=".to_owned();
    r.append(netlist);
    r.append(" model=");
    match model {
        Some(m) => r.append(m.as_str()),
        None => r.append("<none>"),
    }
    r.append(" analysis=");
    match analysis {
        Analysis::Dc => r.append("Dc"),
        Analysis::Transient => r.append("Transient"),
        Analysis::Ac => r.append("Ac"),
        Analysis::Noise => r.append("Noise"),
    }
    r
}

/// Refuses a transient run of a deck that reaches a model which the run would get wrong.
/// The sources of the library's files are given with their paths and tokens; those that
/// the deck does not reach are left alone, and so is every other analysis.
pub fn refuse_run(
    analysis: Analysis,
    net: &Netlist,
    files: &Vec<LibraryFile>,
    sources: Vec<(String, Vec<Token>)>,
) -> (r: Result<(), Refusal>)
    ensures
        analysis != Analysis::Transient ==> r is Ok,
        analysis == Analysis::Transient ==> exists|reached: Seq<Seq<char>>| #[trigger]
            is_reached(*net, files@, reached) && is_answer(
                reached_sources(sources@, reached),
                r,
            ),
{
    match analysis {
        Analysis::Transient => {
            let reached = files_reached_by(net, files);
            let kept = keep_reached(sources, &reached);
            refuse_transient_approximations(&kept)
        },
        _ => Ok(()),
    }
}

/// The warning about crossings that missed their tolerance, where there are any.
pub fn unresolved_warning(events: usize) -> (r: Option<String>)
    ensures
        match r {
            Some(line) => {
                &&& events > 0
                &&& line@ == "[va-cli] warning: "@ + decimal(events as nat) + " crossing(s) fired without meeting the time_tol/expr_tol                  their `cross(...)` site asked for — the step control hit its retry limit or                  the minimum timestep. Loosen the tolerance, or lower `.tran`'s step."@
            },
            None => events == 0,
        },
{
    if events == 0 {
        return None;
    }
    let mut line = "[va-cli] warning: ".to_owned();
    line.append(decimal_text(events as u64).as_str());
    line.append(" crossing(s) fired without meeting the time_tol/expr_tol                  their `cross(...)` site asked for — the step control hit its retry limit or                  the minimum timestep. Loosen the tolerance, or lower `.tran`'s step.");
    Some(line)
}

/// What the line about a written plot calls it.
pub open spec fn plot_name(run: Run) -> Seq<char> {
    match run {
        Run::Transient => "transient"@,
        Run::Ac => "AC"@,
        Run::Noise => "noise"@,
        _ => "sweep"@,
    }
}

/// The line that says where a plot was written. An operating point has no plot.
pub fn plot_line(run: Run, path: &str) -> (r: String)
    requires
        run != Run::OperatingPoint,
    ensures
        r@ == "[va-cli] wrote "@ + plot_name(run) + " plot to "@ + path@,
{
    let mut line = "[va-cli] wrote ".to_owned();
    let name = match run {
        Run::Transient => "transient",
        Run::Ac => "AC",
        Run::Noise => "noise",
        _ => "sweep",
    };
    line.append(name);
    line.append(" plot to ");
    line.append(path);
    line
}

} // verus!
