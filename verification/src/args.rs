//! The command line.
use crate::search::{first_where, lemma_first_where};
use crate::text::{begins_with, same_text, split, split_at_char, starts_with, texts};
use vstd::prelude::*;

verus! {

/// Which analysis to run.
#[derive(Clone, Copy, Debug, PartialEq, Eq, Structural)]
pub enum Analysis {
    /// A DC operating point or sweep.
    Dc,
    /// A transient run.
    Transient,
    /// A small-signal AC sweep.
    Ac,
    /// A small-signal noise sweep.
    Noise,
}

impl Default for Analysis {
    fn default() -> (r: Analysis)
        ensures
            r == Analysis::Dc,
    {
        Analysis::Dc
    }
}

/// The time discretization of a transient run.
#[derive(Clone, Copy, Debug, PartialEq, Eq, Structural)]
pub enum Integration {
    /// Second-order trapezoidal.
    Trapezoidal,
    /// Backward Euler.
    BackwardEuler,
    /// Gear, of second order.
    Gear,
}

impl Default for Integration {
    fn default() -> (r: Integration)
        ensures
            r == Integration::Trapezoidal,
    {
        Integration::Trapezoidal
    }
}

/// The method that a word stands for.
pub open spec fn integration_of(s: Seq<char>) -> Option<Integration> {
    if s == "be"@ || s == "backward-euler"@ || s == "backward_euler"@ {
        Some(Integration::BackwardEuler)
    } else if s == "trap"@ || s == "trapezoidal"@ {
        Some(Integration::Trapezoidal)
    } else if s == "gear"@ || s == "bdf2"@ {
        Some(Integration::Gear)
    } else {
        None
    }
}

impl Integration {
    /// The method that the argument of `--integration` stands for.
    pub fn parse(s: &str) -> (r: Option<Integration>)
        ensures
            r == integration_of(s@),
    {
        if same_text(s, "be") || same_text(s, "backward-euler") || same_text(s, "backward_euler") {
            Some(Integration::BackwardEuler)
        } else if same_text(s, "trap") || same_text(s, "trapezoidal") {
            Some(Integration::Trapezoidal)
        } else if same_text(s, "gear") || same_text(s, "bdf2") {
            Some(Integration::Gear)
        } else {
            None
        }
    }
}

/// Being this word.
pub open spec fn is_word(word: Seq<char>) -> spec_fn(String) -> bool {
    |a: String| a@ == word
}

/// The place of the first argument that is this word.
pub open spec fn argument_index(args: Seq<String>, word: Seq<char>) -> int {
    first_where(args, is_word(word))
}

/// The argument after the first one that is this flag.
pub open spec fn flag_value(args: Seq<String>, flag: Seq<char>) -> Option<String> {
    let k = argument_index(args, flag);
    if k + 1 < args.len() {
        Some(args[k + 1])
    } else {
        None
    }
}

/// Some argument is this word.
pub open spec fn has_argument(args: Seq<String>, word: Seq<char>) -> bool {
    argument_index(args, word) < args.len()
}

fn find_argument(args: &Vec<String>, word: &str) -> (r: usize)
    ensures
        r == argument_index(args@, word@),
        r <= args@.len(),
{
    let mut k: usize = 0;
    while k < args.len() && !same_text(args[k].as_str(), word)
        invariant
            k <= args@.len(),
            forall|j: int| 0 <= j < k ==> (#[trigger] args@[j])@ != word@,
        decreases args@.len() - k,
    {
        k += 1;
    }
    proof {
        lemma_first_where(args@, is_word(word@), k as int);
    }
    k
}

/// The value that follows a flag.
pub fn parse_flag(args: &Vec<String>, flag: &str) -> (r: Option<String>)
    ensures
        r == flag_value(args@, flag@),
{
    let k = find_argument(args, flag);
    if k < args.len() && args.len() - k > 1 {
        Some(args[k + 1].clone())
    } else {
        None
    }
}

/// What the first argument asks for.
#[derive(Clone, Debug, PartialEq, Eq)]
pub enum Command {
    Sim,
    Check,
    Help,
    /// No command of this program.
    Unknown(String),
}

/// What the first argument asks for.
pub open spec fn command_of(args: Seq<String>) -> Command {
    if args.len() == 0 || args[0]@ == "--help"@ || args[0]@ == "-h"@ {
        Command::Help
    } else if args[0]@ == "sim"@ {
        Command::Sim
    } else if args[0]@ == "check"@ {
        Command::Check
    } else {
        Command::Unknown(args[0])
    }
}

/// What the first argument asks for.
pub fn command(args: &Vec<String>) -> (r: Command)
    ensures
        r == command_of(args@),
{
    if args.len() == 0 || same_text(args[0].as_str(), "--help") || same_text(
        args[0].as_str(),
        "-h",
    ) {
        Command::Help
    } else if same_text(args[0].as_str(), "sim") {
        Command::Sim
    } else if same_text(args[0].as_str(), "check") {
        Command::Check
    } else {
        Command::Unknown(args[0].clone())
    }
}

/// What is wrong with the arguments.
#[derive(Clone, Debug, PartialEq, Eq)]
pub enum ArgError {
    /// `sim` without a netlist.
    NoNetlist,
    /// `check` without a file or directory.
    NoModels,
    /// `--integration` with a word that names no method.
    UnknownIntegration(String),
    /// No command of this program.
    UnknownCommand(String),
}

impl ArgError {
    /// What to tell the user.
    pub open spec fn text(self) -> Seq<char> {
        match self {
            ArgError::NoNetlist => "expected a netlist path"@,
            ArgError::NoModels => "expected at least one model file or directory"@,
            ArgError::UnknownIntegration(word) => "unknown integration method `"@ + word@
                + "` (expected be, trap or gear)"@,
            ArgError::UnknownCommand(word) => "unknown subcommand `"@ + word@ + "`"@,
        }
    }

    /// What to tell the user.
    pub fn message(&self) -> (r: String)
        ensures
            r@ == self.text(),
    {
        match self {
            ArgError::NoNetlist => "expected a netlist path".to_owned(),
            ArgError::NoModels => "expected at least one model file or directory".to_owned(),
            ArgError::UnknownIntegration(word) => {
                let mut r = "unknown integration method `".to_owned();
                r.append(word.as_str());
                r.append("` (expected be, trap or gear)");
                r
            },
            ArgError::UnknownCommand(word) => {
                let mut r = "unknown subcommand `".to_owned();
                r.append(word.as_str());
                r.append("`");
                r
            },
        }
    }
}

/// What `check` is asked to do.
#[derive(Clone, Debug, PartialEq, Eq)]
pub struct CheckArgs {
    pub paths: Vec<String>,
    pub codegen: bool,
}

/// The arguments that are no flags, in order.
pub open spec fn plain_arguments(args: Seq<String>) -> Seq<String>
    decreases args.len(),
{
    if args.len() == 0 {
        Seq::empty()
    } else if begins_with(args.last()@, "--"@) {
        plain_arguments(args.drop_last())
    } else {
        plain_arguments(args.drop_last()).push(args.last())
    }
}

/// Reads the arguments of `check`.
pub fn cmd_check(args: &Vec<String>) -> (r: Result<CheckArgs, ArgError>)
    ensures
        match r {
            Ok(c) => {
                &&& c.codegen == has_argument(args@, "--codegen"@)
                &&& c.paths@ == plain_arguments(args@)
                &&& c.paths@.len() > 0
            },
            Err(e) => e == ArgError::NoModels && plain_arguments(args@).len() == 0,
        },
{
    let codegen = find_argument(args, "--codegen") < args.len();
    let mut paths: Vec<String> = Vec::new();
    let mut i: usize = 0;
    assert(args@.subrange(0, 0) =~= Seq::empty());
    while i < args.len()
        invariant
            i <= args@.len(),
            paths@ == plain_arguments(args@.subrange(0, i as int)),
        decreases args@.len() - i,
    {
        proof {
            let upto = args@.subrange(0, i + 1);
            assert(upto.drop_last() =~= args@.subrange(0, i as int));
            assert(upto.last() == args@[i as int]);
        }
        if !starts_with(args[i].as_str(), "--") {
            paths.push(args[i].clone());
        }
        i += 1;
    }
    assert(args@.subrange(0, i as int) =~= args@);
    if paths.len() == 0 {
        return Err(ArgError::NoModels);
    }
    Ok(CheckArgs { paths, codegen })
}

/// What `sim` is asked to do.
#[derive(Clone, Debug, PartialEq, Eq)]
pub struct SimArgs {
    pub netlist: String,
    /// The model file or directory.
    pub model: Option<String>,
    /// Where to write a plot.
    pub plot: Option<String>,
    pub analysis: Analysis,
    pub integration: Integration,
    /// The quantities to report; all of them where none is named.
    pub report: Vec<String>,
}

/// The analysis that the flags select: the first of `--tran`, `--ac`, `--noise`.
pub open spec fn analysis_of(args: Seq<String>) -> Analysis {
    if has_argument(args, "--tran"@) {
        Analysis::Transient
    } else if has_argument(args, "--ac"@) {
        Analysis::Ac
    } else if has_argument(args, "--noise"@) {
        Analysis::Noise
    } else {
        Analysis::Dc
    }
}

/// The names that `--report` lists.
pub open spec fn report_of(args: Seq<String>) -> Seq<Seq<char>> {
    match flag_value(args, "--report"@) {
        Some(list) => split(list@, ','),
        None => Seq::empty(),
    }
}

/// The word after `--integration` that names no method, if there is one.
pub open spec fn bad_integration(args: Seq<String>) -> Option<String> {
    match flag_value(args, "--integration"@) {
        Some(word) => if integration_of(word@) is None {
            Some(word)
        } else {
            None
        },
        None => None,
    }
}

/// Reads the arguments of `sim`.
pub fn cmd_sim(args: &Vec<String>) -> (r: Result<SimArgs, ArgError>)
    ensures
        match r {
            Ok(s) => {
                &&& args@.len() > 0
                &&& s.netlist == args@[0]
                &&& s.model == flag_value(args@, "--model"@)
                &&& s.plot == flag_value(args@, "--plot"@)
                &&& s.analysis == analysis_of(args@)
                &&& bad_integration(args@) is None
                &&& s.integration == (match flag_value(args@, "--integration"@) {
                    Some(word) => integration_of(word@)->0,
                    None => Integration::Trapezoidal,
                })
                &&& texts(s.report@) == report_of(args@)
            },
            Err(e) => if args@.len() == 0 {
                e == ArgError::NoNetlist
            } else {
                &&& bad_integration(args@) is Some
                &&& e == ArgError::UnknownIntegration(bad_integration(args@)->0)
            },
        },
{
    if args.len() == 0 {
        return Err(ArgError::NoNetlist);
    }
    let integration = match parse_flag(args, "--integration") {
        Some(word) => match Integration::parse(word.as_str()) {
            Some(method) => method,
            None => {
                return Err(ArgError::UnknownIntegration(word));
            },
        },
        None => Integration::default(),
    };
    let report = match parse_flag(args, "--report") {
        Some(list) => split_at_char(list.as_str(), ','),
        None => {
            let none: Vec<String> = Vec::new();
            assert(texts(none@) =~= Seq::empty());
            none
        },
    };
    let analysis = if find_argument(args, "--tran") < args.len() {
        Analysis::Transient
    } else if find_argument(args, "--ac") < args.len() {
        Analysis::Ac
    } else if find_argument(args, "--noise") < args.len() {
        Analysis::Noise
    } else {
        Analysis::Dc
    };
    Ok(
        SimArgs {
            netlist: args[0].clone(),
            model: parse_flag(args, "--model"),
            plot: parse_flag(args, "--plot"),
            analysis,
            integration,
            report,
        },
    )
}

} // verus!
