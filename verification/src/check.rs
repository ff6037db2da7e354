//! Checking model files: the verdict on each file, the lines that say so, and the
//! tally over all of them.
use crate::listing::{
    listing, mfactor_texts, said, say, say_all, skipped_clause, skipped_text, unplaceable_clause,
    unplaceable_text, warn_mfactor_double_scaling, Line, LineView,
};
use crate::refusal::{
    approximated, approximations_in, first_refusal, prefixed, refusal_block, refusal_detail,
    refusal_headline, Cause, FrontendFault, Token,
};
use crate::text::{
    contains_text, decimal, decimal_text, has_text, join, join_texts, lines, same_text, texts,
};
use vstd::prelude::*;

verus! {

/// Whether a source can be proved to declare no module: the word `module` stands
/// nowhere in it, and no directive could bring one in. Nothing is proved of a source
/// that cannot be read.
pub open spec fn declares_none(source: Option<String>) -> bool {
    match source {
        Some(s) => !contains_text(s@, "module"@) && !contains_text(s@, "`include"@),
        None => false,
    }
}

/// Whether a source can be proved to declare no module.
pub fn cannot_declare_a_module(source: &Option<String>) -> (r: bool)
    ensures
        r == declares_none(*source),
{
    match source {
        Some(s) => !has_text(s.as_str(), "module") && !has_text(s.as_str(), "`include"),
        None => false,
    }
}

/// Whether a file of this extension is a model.
pub fn is_model_extension(extension: &str) -> (r: bool)
    ensures
        r == (extension@ == "va"@ || extension@ == "vams"@),
{
    same_text(extension, "va") || same_text(extension, "vams")
}

// ---- what became of a file ------------------------------------------------

/// An elaborated module, as far as a status line tells of it.
#[derive(Clone, Debug, PartialEq, Eq)]
pub struct ModuleShape {
    pub name: String,
    pub ports: usize,
    pub nodes: usize,
    pub params: usize,
    pub functions: usize,
    pub scales_by_mfactor: bool,
}

/// Why no instance can be generated for a module.
#[derive(Clone, Debug, PartialEq, Eq)]
pub struct GeneratorFault {
    pub error: String,
    pub causes: Vec<Cause>,
}

/// What became of a module of a parsed file.
#[derive(Clone, Debug, PartialEq, Eq)]
pub enum ModuleOutcome {
    /// It elaborated; `fault` says why no instance of it can be generated, if so.
    Elaborated { shape: ModuleShape, fault: Option<GeneratorFault> },
    /// It did not elaborate.
    Failed { name: String, error: String },
}

/// How far a file came, with what was skipped on the way.
#[derive(Clone, Debug, PartialEq, Eq)]
pub enum ParseOutcome {
    Unreadable { error: String },
    NotPreprocessed { error: String, skipped: Vec<String> },
    NotLexed { error: String, skipped: Vec<String> },
    NotParsed { fault: FrontendFault, causes: Vec<Cause>, skipped: Vec<String> },
    Parsed { modules: Vec<ModuleOutcome>, skipped: Vec<String> },
}

/// A file of a library that is checked.
#[derive(Clone, Debug, PartialEq, Eq)]
pub struct CheckedFile {
    pub path: String,
    /// The text of the file, where it could be read.
    pub source: Option<String>,
    pub outcome: ParseOutcome,
    /// The tokens of the text, where it has any.
    pub tokens: Vec<Token>,
}

/// The verdict on a file.
#[derive(Clone, Copy, Debug, PartialEq, Eq, Structural)]
pub enum Verdict {
    /// It declares a module, and every one of its modules is fine.
    Passed,
    /// It declares a module, or may declare one, and something failed.
    Failed,
    /// It declares no module.
    NoModule,
}

/// A module is fine when it elaborated and, where that is asked for, an instance of
/// it can be generated.
pub open spec fn module_fine(m: ModuleOutcome, codegen: bool) -> bool {
    m matches ModuleOutcome::Elaborated { shape, fault } && !(codegen && fault is Some)
}

/// What was skipped on the way to the outcome.
pub open spec fn skipped_by(outcome: ParseOutcome) -> Seq<String> {
    match outcome {
        ParseOutcome::Unreadable { .. } => Seq::empty(),
        ParseOutcome::NotPreprocessed { skipped, .. } => skipped@,
        ParseOutcome::NotLexed { skipped, .. } => skipped@,
        ParseOutcome::NotParsed { skipped, .. } => skipped@,
        ParseOutcome::Parsed { skipped, .. } => skipped@,
    }
}

/// The verdict on a file.
pub open spec fn verdict_on(f: CheckedFile, codegen: bool) -> Verdict {
    if declares_none(f.source) {
        Verdict::NoModule
    } else {
        match f.outcome {
            ParseOutcome::Parsed { modules, .. } => if modules@.len() == 0 {
                Verdict::NoModule
            } else if forall|i: int|
                0 <= i < modules@.len() ==> module_fine(#[trigger] modules@[i], codegen) {
                Verdict::Passed
            } else {
                Verdict::Failed
            },
            _ => Verdict::Failed,
        }
    }
}

/// The file was parsed, or failed, on less source than it names.
pub open spec fn incomplete(f: CheckedFile) -> bool {
    skipped_by(f.outcome).len() > 0
}

/// The source uses an operator that a transient run only approximates.
pub open spec fn uses_approximation(f: CheckedFile) -> bool {
    approximated(f.tokens@).len() > 0
}

// ---- the tally ------------------------------------------------------------

/// What a run found, split so that the number of passes does not absorb what is not
/// one.
#[derive(Clone, Copy, Debug, PartialEq, Eq, Structural)]
pub struct CheckTally {
    pub passed: usize,
    /// Of the passes, those on an incomplete file.
    pub passed_incomplete: usize,
    pub failed: usize,
    /// Of the failures, those on an incomplete file.
    pub failed_incomplete: usize,
    pub no_module: usize,
    /// Of the passes, those that use an operator a transient run only approximates.
    pub passed_approximated: usize,
}

impl Default for CheckTally {
    fn default() -> (r: CheckTally)
        ensures
            r.passed == 0,
            r.passed_incomplete == 0,
            r.failed == 0,
            r.failed_incomplete == 0,
            r.no_module == 0,
            r.passed_approximated == 0,
    {
        CheckTally {
            passed: 0,
            passed_incomplete: 0,
            failed: 0,
            failed_incomplete: 0,
            no_module: 0,
            passed_approximated: 0,
        }
    }
}

/// The number of files with the property.
pub open spec fn count(files: Seq<CheckedFile>, holds: spec_fn(CheckedFile) -> bool) -> nat
    decreases files.len(),
{
    if files.len() == 0 {
        0
    } else if holds(files.last()) {
        count(files.drop_last(), holds) + 1
    } else {
        count(files.drop_last(), holds)
    }
}

impl CheckTally {
    /// The tally counts these files.
    pub open spec fn counts(self, files: Seq<CheckedFile>, codegen: bool) -> bool {
        &&& self.passed == count(
            files,
            |f: CheckedFile| verdict_on(f, codegen) == Verdict::Passed,
        )
        &&& self.passed_incomplete == count(
            files,
            |f: CheckedFile| verdict_on(f, codegen) == Verdict::Passed && incomplete(f),
        )
        &&& self.failed == count(
            files,
            |f: CheckedFile| verdict_on(f, codegen) == Verdict::Failed,
        )
        &&& self.failed_incomplete == count(
            files,
            |f: CheckedFile| verdict_on(f, codegen) == Verdict::Failed && incomplete(f),
        )
        &&& self.no_module == count(
            files,
            |f: CheckedFile| verdict_on(f, codegen) == Verdict::NoModule,
        )
        &&& self.passed_approximated == count(
            files,
            |f: CheckedFile| verdict_on(f, codegen) == Verdict::Passed && uses_approximation(f),
        )
    }

    /// The parts are parts of their wholes.
    pub open spec fn consistent(self) -> bool {
        &&& self.passed_incomplete <= self.passed
        &&& self.passed_approximated <= self.passed
        &&& self.failed_incomplete <= self.failed
    }

    /// The number of files that the tally speaks of.
    pub open spec fn files(self) -> int {
        self.passed + self.failed + self.no_module
    }

    /// Adds another tally to this one.
    pub fn add_assign(&mut self, rhs: CheckTally)
        requires
            old(self).consistent(),
            rhs.consistent(),
            old(self).files() + rhs.files() <= usize::MAX,
        ensures
            final(self).passed == old(self).passed + rhs.passed,
            final(self).passed_incomplete == old(self).passed_incomplete + rhs.passed_incomplete,
            final(self).failed == old(self).failed + rhs.failed,
            final(self).failed_incomplete == old(self).failed_incomplete + rhs.failed_incomplete,
            final(self).no_module == old(self).no_module + rhs.no_module,
            final(self).passed_approximated == old(self).passed_approximated
                + rhs.passed_approximated,
            final(self).consistent(),
    {
        self.passed = self.passed + rhs.passed;
        self.passed_incomplete = self.passed_incomplete + rhs.passed_incomplete;
        self.failed = self.failed + rhs.failed;
        self.failed_incomplete = self.failed_incomplete + rhs.failed_incomplete;
        self.no_module = self.no_module + rhs.no_module;
        self.passed_approximated = self.passed_approximated + rhs.passed_approximated;
    }
}

/// Counting goes up by one at a time.
proof fn lemma_count_step(files: Seq<CheckedFile>, holds: spec_fn(CheckedFile) -> bool, i: int)
    requires
        0 <= i < files.len(),
    ensures
        count(files.subrange(0, i + 1), holds) == count(files.subrange(0, i), holds) + (if holds(
            files[i],
        ) {
            1nat
        } else {
            0nat
        }),
{
    assert(files.subrange(0, i + 1).drop_last() =~= files.subrange(0, i));
}

proof fn lemma_count_le(
    files: Seq<CheckedFile>,
    a: spec_fn(CheckedFile) -> bool,
    b: spec_fn(CheckedFile) -> bool,
)
    requires
        forall|f: CheckedFile| #[trigger] a(f) ==> b(f),
    ensures
        count(files, a) <= count(files, b),
    decreases files.len(),
{
    if files.len() > 0 {
        lemma_count_le(files.drop_last(), a, b);
        assert(a(files.last()) ==> b(files.last()));
    }
}

proof fn lemma_count_verdicts(files: Seq<CheckedFile>, codegen: bool)
    ensures
        count(files, |f: CheckedFile| verdict_on(f, codegen) == Verdict::Passed) + count(
            files,
            |f: CheckedFile| verdict_on(f, codegen) == Verdict::Failed,
        ) + count(files, |f: CheckedFile| verdict_on(f, codegen) == Verdict::NoModule)
            == files.len(),
    decreases files.len(),
{
    if files.len() > 0 {
        lemma_count_verdicts(files.drop_last(), codegen);
    }
}

/// A tally that counts files is consistent, and every file is in exactly one of its
/// three parts.
pub proof fn a_tally_is_consistent(tally: CheckTally, files: Seq<CheckedFile>, codegen: bool)
    requires
        tally.counts(files, codegen),
    ensures
        tally.consistent(),
        tally.files() == files.len(),
{
    let passed = |f: CheckedFile| verdict_on(f, codegen) == Verdict::Passed;
    let failed = |f: CheckedFile| verdict_on(f, codegen) == Verdict::Failed;
    lemma_count_le(
        files,
        |f: CheckedFile| verdict_on(f, codegen) == Verdict::Passed && incomplete(f),
        passed,
    );
    lemma_count_le(
        files,
        |f: CheckedFile| verdict_on(f, codegen) == Verdict::Passed && uses_approximation(f),
        passed,
    );
    lemma_count_le(
        files,
        |f: CheckedFile| verdict_on(f, codegen) == Verdict::Failed && incomplete(f),
        failed,
    );
    lemma_count_verdicts(files, codegen);
}

/// Asking for instances is a strictly later stage: what passes with it passes
/// without it, and what fails without it fails with it.
pub proof fn codegen_is_a_later_stage(
    frontend: CheckTally,
    with_codegen: CheckTally,
    files: Seq<CheckedFile>,
)
    requires
        frontend.counts(files, false),
        with_codegen.counts(files, true),
    ensures
        with_codegen.passed <= frontend.passed,
        frontend.failed <= with_codegen.failed,
        frontend.no_module == with_codegen.no_module,
{
    assert forall|f: CheckedFile| verdict_on(f, true) == Verdict::Passed implies verdict_on(
        f,
        false,
    ) == Verdict::Passed by {
        if let ParseOutcome::Parsed { modules, .. } = f.outcome {
            assert forall|i: int| 0 <= i < modules@.len() implies module_fine(
                #[trigger] modules@[i],
                false,
            ) by {
                assert(module_fine(modules@[i], true));
            }
        }
    }
    lemma_count_le(
        files,
        |f: CheckedFile| verdict_on(f, true) == Verdict::Passed,
        |f: CheckedFile| verdict_on(f, false) == Verdict::Passed,
    );
    lemma_count_le(
        files,
        |f: CheckedFile| verdict_on(f, false) == Verdict::Failed,
        |f: CheckedFile| verdict_on(f, true) == Verdict::Failed,
    );
    lemma_count_le(
        files,
        |f: CheckedFile| verdict_on(f, false) == Verdict::NoModule,
        |f: CheckedFile| verdict_on(f, true) == Verdict::NoModule,
    );
    lemma_count_le(
        files,
        |f: CheckedFile| verdict_on(f, true) == Verdict::NoModule,
        |f: CheckedFile| verdict_on(f, false) == Verdict::NoModule,
    );
}

// ---- the lines about a file -----------------------------------------------

/// The lines under a verdict that explain a refusal.
pub open spec fn detail_lines(causes: Seq<Cause>) -> Seq<LineView> {
    match first_refusal(causes) {
        Some(block) => listing(prefixed("        "@, lines(block), 1)),
        None => Seq::empty(),
    }
}

fn say_detail(out: &mut Vec<Line>, causes: &Vec<Cause>)
    ensures
        said(final(out)@) == said(old(out)@) + detail_lines(causes@),
{
    match refusal_block(causes) {
        Some(block) => {
            let detail = refusal_detail(block.as_str());
            say_all(out, &detail);
        },
        None => {
            assert(said(out@) =~= said(out@) + detail_lines(causes@));
        },
    }
}

/// A status line: the stage, the file, and what is said of it.
pub open spec fn status(tag: Seq<char>, path: Seq<char>, text: Seq<char>, skipped: Seq<String>) -> LineView {
    LineView::Listing(tag + path + ": "@ + text + skipped_text(texts(skipped)))
}

fn say_status(out: &mut Vec<Line>, tag: &str, path: &String, text: &str, skipped: &Vec<String>)
    ensures
        said(final(out)@) == said(old(out)@).push(status(tag@, path@, text@, skipped@)),
{
    let mut line = tag.to_owned();
    line.append(path.as_str());
    line.append(": ");
    line.append(text);
    line.append(skipped_clause(skipped).as_str());
    say(out, line);
}

/// What is said of a file before any module is elaborated.
pub open spec fn early_lines(f: CheckedFile) -> Seq<LineView> {
    if declares_none(f.source) {
        seq![LineView::Listing("  [none ] "@ + f.path@ + ": declares no module (no `module` keyword in the source, and no `` `include `` to introduce one)"@)]
    } else {
        match f.outcome {
            ParseOutcome::Unreadable { error } => seq![
                LineView::Listing("  [read ] "@ + f.path@ + ": "@ + error@),
            ],
            ParseOutcome::NotPreprocessed { error, skipped } => seq![
                status("  [pp   ] "@, f.path@, error@, skipped@),
            ],
            ParseOutcome::NotLexed { error, skipped } => seq![
                status("  [lex  ] "@, f.path@, error@, skipped@),
            ],
            ParseOutcome::NotParsed { fault, causes, skipped } => seq![
                status("  [parse] "@, f.path@, headline(fault), skipped@),
            ] + detail_lines(causes@),
            ParseOutcome::Parsed { .. } => Seq::empty(),
        }
    }
}

/// The one-line verdict about a frontend error.
pub open spec fn headline(fault: FrontendFault) -> Seq<char> {
    match fault {
        FrontendFault::Refused(what) => "refused: "@ + what@,
        FrontendFault::Other(text) => text@,
    }
}

fn say_early(out: &mut Vec<Line>, f: &CheckedFile)
    ensures
        said(final(out)@) == said(old(out)@) + early_lines(*f),
{
    let ghost start = said(out@);
    if cannot_declare_a_module(&f.source) {
        let mut line = "  [none ] ".to_owned();
        line.append(f.path.as_str());
        line.append(": declares no module (no `module` keyword in the source, and no `` `include `` to introduce one)");
        say(out, line);
    } else {
        match &f.outcome {
            ParseOutcome::Unreadable { error } => {
                let mut line = "  [read ] ".to_owned();
                line.append(f.path.as_str());
                line.append(": ");
                line.append(error.as_str());
                say(out, line);
            },
            ParseOutcome::NotPreprocessed { error, skipped } => {
                say_status(out, "  [pp   ] ", &f.path, error.as_str(), skipped);
            },
            ParseOutcome::NotLexed { error, skipped } => {
                say_status(out, "  [lex  ] ", &f.path, error.as_str(), skipped);
            },
            ParseOutcome::NotParsed { fault, causes, skipped } => {
                let text = refusal_headline(fault);
                say_status(out, "  [parse] ", &f.path, text.as_str(), skipped);
                say_detail(out, causes);
            },
            ParseOutcome::Parsed { .. } => {},
        }
    }
    assert(said(out@) =~= start + early_lines(*f));
}

/// What is said of an elaborated module: its name and its counts.
pub open spec fn shape_text(shape: ModuleShape, skipped: nat) -> Seq<char> {
    "module `"@ + shape.name@ + "` ("@ + decimal(shape.ports as nat) + " ports, "@ + decimal(
        shape.nodes as nat,
    ) + " nodes, "@ + decimal(shape.params as nat) + " params, "@ + decimal(
        shape.functions as nat,
    ) + " funcs)"@ + unplaceable_text(shape.ports as nat, skipped)
}

/// What is said of a module that failed.
pub open spec fn module_error_text(name: Seq<char>, error: Seq<char>) -> Seq<char> {
    "module `"@ + name + "`: "@ + error
}

/// The lines about one module of a parsed file.
pub open spec fn module_lines(
    path: Seq<char>,
    m: ModuleOutcome,
    skipped: Seq<String>,
    codegen: bool,
) -> Seq<LineView> {
    match m {
        ModuleOutcome::Elaborated { shape, fault } => {
            let warnings = if shape.scales_by_mfactor {
                mfactor_texts(shape.name@, path)
            } else {
                Seq::empty()
            };
            if codegen && fault is Some {
                warnings + seq![
                    status(
                        "  [cgen ] "@,
                        path,
                        module_error_text(shape.name@, fault->0.error@),
                        skipped,
                    ),
                ] + detail_lines(fault->0.causes@)
            } else {
                warnings + seq![
                    status("  [ok   ] "@, path, shape_text(shape, skipped.len()), skipped),
                ]
            }
        },
        ModuleOutcome::Failed { name, error } => seq![
            status("  [elab ] "@, path, module_error_text(name@, error@), skipped),
        ],
    }
}

fn shape_clause(shape: &ModuleShape, skipped: &Vec<String>) -> (r: String)
    ensures
        r@ == shape_text(*shape, skipped@.len()),
{
    let mut r = "module `".to_owned();
    r.append(shape.name.as_str());
    r.append("` (");
    r.append(decimal_text(shape.ports as u64).as_str());
    r.append(" ports, ");
    r.append(decimal_text(shape.nodes as u64).as_str());
    r.append(" nodes, ");
    r.append(decimal_text(shape.params as u64).as_str());
    r.append(" params, ");
    r.append(decimal_text(shape.functions as u64).as_str());
    r.append(" funcs)");
    r.append(unplaceable_clause(shape.ports, skipped).as_str());
    r
}

fn module_error(name: &String, error: &String) -> (r: String)
    ensures
        r@ == module_error_text(name@, error@),
{
    let mut r = "module `".to_owned();
    r.append(name.as_str());
    r.append("`: ");
    r.append(error.as_str());
    r
}

fn say_module(
    out: &mut Vec<Line>,
    path: &String,
    m: &ModuleOutcome,
    skipped: &Vec<String>,
    codegen: bool,
) -> (fine: bool)
    ensures
        said(final(out)@) == said(old(out)@) + module_lines(path@, *m, skipped@, codegen),
        fine == module_fine(*m, codegen),
{
    let ghost start = said(out@);
    match m {
        ModuleOutcome::Elaborated { shape, fault } => {
            if shape.scales_by_mfactor {
                warn_mfactor_double_scaling(out, shape.name.as_str(), path.as_str());
            }
            match fault {
                Some(fault) => {
                    if codegen {
                        let text = module_error(&shape.name, &fault.error);
                        say_status(out, "  [cgen ] ", path, text.as_str(), skipped);
                        say_detail(out, &fault.causes);
                        assert(said(out@) =~= start + module_lines(path@, *m, skipped@, codegen));
                        return false;
                    }
                },
                None => {},
            }
            let text = shape_clause(shape, skipped);
            say_status(out, "  [ok   ] ", path, text.as_str(), skipped);
            assert(said(out@) =~= start + module_lines(path@, *m, skipped@, codegen));
            true
        },
        ModuleOutcome::Failed { name, error } => {
            let text = module_error(name, error);
            say_status(out, "  [elab ] ", path, text.as_str(), skipped);
            assert(said(out@) =~= start + module_lines(path@, *m, skipped@, codegen));
            false
        },
    }
}

/// The lines about the first `upto` modules of a parsed file.
pub open spec fn modules_lines(
    path: Seq<char>,
    modules: Seq<ModuleOutcome>,
    skipped: Seq<String>,
    codegen: bool,
    upto: int,
) -> Seq<LineView>
    decreases upto,
{
    if upto <= 0 {
        Seq::empty()
    } else {
        modules_lines(path, modules, skipped, codegen, upto - 1) + module_lines(
            path,
            modules[upto - 1],
            skipped,
            codegen,
        )
    }
}

/// What is said of a parsed file once the modules of all files are known.
pub open spec fn late_lines(f: CheckedFile, codegen: bool) -> Seq<LineView> {
    if declares_none(f.source) {
        Seq::empty()
    } else {
        match f.outcome {
            ParseOutcome::Parsed { modules, skipped } => if modules@.len() == 0 {
                seq![status("  [none ] "@, f.path@, "declares no module"@, skipped@)]
            } else {
                let all = modules_lines(
                    f.path@,
                    modules@,
                    skipped@,
                    codegen,
                    modules@.len() as int,
                );
                if verdict_on(f, codegen) == Verdict::Passed && uses_approximation(f) {
                    all.push(
                        LineView::Listing(
                            "  [approx] "@ + f.path@ + ": builds, but uses "@ + join(
                                approximated(f.tokens@),
                                ", "@,
                            ) + " (approximated in transient)"@,
                        ),
                    )
                } else {
                    all
                }
            },
            _ => Seq::empty(),
        }
    }
}

fn say_late(out: &mut Vec<Line>, f: &CheckedFile, codegen: bool) -> (r: (Verdict, bool))
    requires
        !declares_none(f.source),
        f.outcome is Parsed,
    ensures
        said(final(out)@) == said(old(out)@) + late_lines(*f, codegen),
        r.0 == verdict_on(*f, codegen),
        r.0 == Verdict::Passed ==> r.1 == uses_approximation(*f),
{
    let ghost start = said(out@);
    match &f.outcome {
        ParseOutcome::Parsed { modules, skipped } => {
            if modules.len() == 0 {
                say_status(out, "  [none ] ", &f.path, "declares no module", skipped);
                assert(said(out@) =~= start + late_lines(*f, codegen));
                return (Verdict::NoModule, false);
            }
            let mut fine = true;
            let mut i: usize = 0;
            assert(said(out@) =~= start + modules_lines(f.path@, modules@, skipped@, codegen, 0));
            while i < modules.len()
                invariant
                    i <= modules@.len(),
                    fine == (forall|j: int|
                        0 <= j < i ==> module_fine(#[trigger] modules@[j], codegen)),
                    said(out@) == start + modules_lines(
                        f.path@,
                        modules@,
                        skipped@,
                        codegen,
                        i as int,
                    ),
                decreases modules@.len() - i,
            {
                let ok = say_module(out, &f.path, &modules[i], skipped, codegen);
                fine = fine && ok;
                i += 1;
                assert(said(out@) =~= start + modules_lines(
                    f.path@,
                    modules@,
                    skipped@,
                    codegen,
                    i as int,
                ));
            }
            if !fine {
                return (Verdict::Failed, false);
            }
            let used = approximations_in(&f.tokens);
            assert(texts(used@).len() == used@.len());
            if used.len() > 0 {
                let mut line = "  [approx] ".to_owned();
                line.append(f.path.as_str());
                line.append(": builds, but uses ");
                line.append(join_texts(&used, ", ").as_str());
                line.append(" (approximated in transient)");
                say(out, line);
                assert(said(out@) =~= start + late_lines(*f, codegen));
                return (Verdict::Passed, true);
            }
            (Verdict::Passed, false)
        },
        _ => (Verdict::Failed, false),
    }
}

// ---- a library ------------------------------------------------------------

/// What is said before any module is elaborated, over all files.
pub open spec fn all_early(files: Seq<CheckedFile>) -> Seq<LineView>
    decreases files.len(),
{
    if files.len() == 0 {
        Seq::empty()
    } else {
        all_early(files.drop_last()) + early_lines(files.last())
    }
}

/// What is said once the modules of all files are known, over all files.
pub open spec fn all_late(files: Seq<CheckedFile>, codegen: bool) -> Seq<LineView>
    decreases files.len(),
{
    if files.len() == 0 {
        Seq::empty()
    } else {
        all_late(files.drop_last(), codegen) + late_lines(files.last(), codegen)
    }
}

fn anything_skipped(outcome: &ParseOutcome) -> (r: bool)
    ensures
        r == (skipped_by(*outcome).len() > 0),
{
    match outcome {
        ParseOutcome::Unreadable { .. } => false,
        ParseOutcome::NotPreprocessed { skipped, .. } => skipped.len() > 0,
        ParseOutcome::NotLexed { skipped, .. } => skipped.len() > 0,
        ParseOutcome::NotParsed { skipped, .. } => skipped.len() > 0,
        ParseOutcome::Parsed { skipped, .. } => skipped.len() > 0,
    }
}

/// Checks the files of one directory, whose modules form one library: what is said of
/// them, and the tally.
pub fn check_group(group: &Vec<CheckedFile>, codegen: bool) -> (r: (CheckTally, Vec<Line>))
    ensures
        r.0.counts(group@, codegen),
        said(r.1@) == all_early(group@) + all_late(group@, codegen),
{
    let mut out: Vec<Line> = Vec::new();
    let mut i: usize = 0;
    assert(group@.subrange(0, 0) =~= Seq::empty());
    assert(said(out@) =~= all_early(group@.subrange(0, 0)));
    while i < group.len()
        invariant
            i <= group@.len(),
            said(out@) == all_early(group@.subrange(0, i as int)),
        decreases group@.len() - i,
    {
        say_early(&mut out, &group[i]);
        i += 1;
        proof {
            let upto = group@.subrange(0, i as int);
            assert(upto.drop_last() =~= group@.subrange(0, i - 1));
            assert(upto.last() == group@[i - 1]);
        }
    }
    assert(group@.subrange(0, i as int) =~= group@);
    let ghost early = said(out@);
    let mut tally = CheckTally::default();
    let mut i: usize = 0;
    assert(said(out@) =~= early + all_late(group@.subrange(0, 0), codegen));
    while i < group.len()
        invariant
            i <= group@.len(),
            tally.counts(group@.subrange(0, i as int), codegen),
            said(out@) == early + all_late(group@.subrange(0, i as int), codegen),
        decreases group@.len() - i,
    {
        let f = &group[i];
        let ghost before = said(out@);
        proof {
            lemma_tally_step(group@, codegen, i as int);
            let upto = group@.subrange(0, i + 1);
            assert(upto.drop_last() =~= group@.subrange(0, i as int));
            assert(upto.last() == group@[i as int]);
            assert(all_late(upto, codegen) =~= all_late(group@.subrange(0, i as int), codegen)
                + late_lines(*f, codegen));
            a_tally_is_consistent(tally, group@.subrange(0, i as int), codegen);
            assert(group@.len() == group.len());
        }
        let parsed = match &f.outcome {
            ParseOutcome::Parsed { .. } => true,
            _ => false,
        };
        let mut verdict = Verdict::Failed;
        let mut approximate = false;
        if cannot_declare_a_module(&f.source) {
            verdict = Verdict::NoModule;
        } else if parsed {
            let late = say_late(&mut out, f, codegen);
            verdict = late.0;
            approximate = late.1;
        }
        assert(said(out@) =~= before + late_lines(*f, codegen));
        let partial = anything_skipped(&f.outcome);
        match verdict {
            Verdict::Passed => {
                tally.passed = tally.passed + 1;
                if partial {
                    tally.passed_incomplete = tally.passed_incomplete + 1;
                }
                if approximate {
                    tally.passed_approximated = tally.passed_approximated + 1;
                }
            },
            Verdict::Failed => {
                tally.failed = tally.failed + 1;
                if partial {
                    tally.failed_incomplete = tally.failed_incomplete + 1;
                }
            },
            Verdict::NoModule => {
                tally.no_module = tally.no_module + 1;
            },
        }
        i += 1;
        assert(said(out@) =~= early + all_late(group@.subrange(0, i as int), codegen));
    }
    assert(group@.subrange(0, i as int) =~= group@);
    (tally, out)
}

proof fn lemma_tally_step(files: Seq<CheckedFile>, codegen: bool, i: int)
    requires
        0 <= i < files.len(),
    ensures
        ({
            let a = files.subrange(0, i);
            let b = files.subrange(0, i + 1);
            let f = files[i];
            let v = verdict_on(f, codegen);
            let one = |c: bool|
                if c {
                    1nat
                } else {
                    0nat
                };
            let passed = |f: CheckedFile| verdict_on(f, codegen) == Verdict::Passed;
            let passed_incomplete = |f: CheckedFile|
                verdict_on(f, codegen) == Verdict::Passed && incomplete(f);
            let failed = |f: CheckedFile| verdict_on(f, codegen) == Verdict::Failed;
            let failed_incomplete = |f: CheckedFile|
                verdict_on(f, codegen) == Verdict::Failed && incomplete(f);
            let no_module = |f: CheckedFile| verdict_on(f, codegen) == Verdict::NoModule;
            let approximate = |f: CheckedFile|
                verdict_on(f, codegen) == Verdict::Passed && uses_approximation(f);
            &&& count(b, passed) == count(a, passed) + one(v == Verdict::Passed)
            &&& count(b, passed_incomplete) == count(a, passed_incomplete) + one(
                v == Verdict::Passed && incomplete(f),
            )
            &&& count(b, failed) == count(a, failed) + one(v == Verdict::Failed)
            &&& count(b, failed_incomplete) == count(a, failed_incomplete) + one(
                v == Verdict::Failed && incomplete(f),
            )
            &&& count(b, no_module) == count(a, no_module) + one(v == Verdict::NoModule)
            &&& count(b, approximate) == count(a, approximate) + one(
                v == Verdict::Passed && uses_approximation(f),
            )
        }),
{
    lemma_count_step(files, |f: CheckedFile| verdict_on(f, codegen) == Verdict::Passed, i);
    lemma_count_step(
        files,
        |f: CheckedFile| verdict_on(f, codegen) == Verdict::Passed && incomplete(f),
        i,
    );
    lemma_count_step(files, |f: CheckedFile| verdict_on(f, codegen) == Verdict::Failed, i);
    lemma_count_step(
        files,
        |f: CheckedFile| verdict_on(f, codegen) == Verdict::Failed && incomplete(f),
        i,
    );
    lemma_count_step(files, |f: CheckedFile| verdict_on(f, codegen) == Verdict::NoModule, i);
    lemma_count_step(
        files,
        |f: CheckedFile| verdict_on(f, codegen) == Verdict::Passed && uses_approximation(f),
        i,
    );
}

// ---- all libraries --------------------------------------------------------

/// The files of all groups, one group after the other.
pub open spec fn all_files(groups: Seq<Vec<CheckedFile>>) -> Seq<CheckedFile>
    decreases groups.len(),
{
    if groups.len() == 0 {
        Seq::empty()
    } else {
        all_files(groups.drop_last()) + groups.last()@
    }
}

/// What is said of the groups, one after the other.
pub open spec fn group_lines(groups: Seq<Vec<CheckedFile>>, codegen: bool) -> Seq<LineView>
    decreases groups.len(),
{
    if groups.len() == 0 {
        Seq::empty()
    } else {
        group_lines(groups.drop_last(), codegen) + all_early(groups.last()@) + all_late(
            groups.last()@,
            codegen,
        )
    }
}

/// The closing lines about a tally.
pub open spec fn summary_texts(tally: CheckTally, codegen: bool) -> Seq<Seq<char>> {
    let stages = if codegen {
        "the frontend + codegen (lex → parse → elaborate → build_instance)"@
    } else {
        "the frontend (lex → parse → elaborate)"@
    };
    let whole = (tally.passed - tally.passed_incomplete) as nat;
    let whole_failed = (tally.failed - tally.failed_incomplete) as nat;
    seq![
        "\n"@ + decimal(tally.passed as nat) + "/"@ + decimal(
            (tally.passed + tally.failed) as nat,
        ) + " files declaring a module passed "@ + stages,
        "  "@ + decimal(tally.no_module as nat) + " further file(s) declare no module at all (macro/nature headers, statement fragments) — not checkable models, and no longer counted as passes"@,
        "  of the "@ + decimal(tally.passed as nat) + " passes, "@ + decimal(
            tally.passed_incomplete as nat,
        ) + " are on an incomplete module (an unresolved `include was dropped); "@ + decimal(whole) + " are self-contained"@,
        "  "@ + decimal(tally.failed_incomplete as nat) + " of the "@ + decimal(
            tally.failed as nat,
        ) + " failures also dropped an unresolved `include (truncated distributions, not gaps)"@,
        "  => self-contained files declaring a module: "@ + decimal(whole) + "/"@ + decimal(
            whole + whole_failed,
        ),
        "  of the "@ + decimal(tally.passed as nat) + " passes, "@ + decimal(
            tally.passed_approximated as nat,
        ) + " use an operator approximated in transient (absdelay)"@,
        "  "@ + decimal(tally.files() as nat) + " file(s) scanned in total"@,
    ]
}

impl CheckTally {
    /// The closing lines about a run.
    pub fn summary(&self, codegen: bool) -> (r: Vec<String>)
        requires
            self.consistent(),
            self.files() <= usize::MAX,
        ensures
            texts(r@) == summary_texts(*self, codegen),
    {
        let passed = decimal_text(self.passed as u64);
        let whole: usize = self.passed - self.passed_incomplete;
        let whole_total: usize = whole + (self.failed - self.failed_incomplete);
        let with_module: usize = self.passed + self.failed;
        let total: usize = with_module + self.no_module;

        let mut first = "\n".to_owned();
        first.append(passed.as_str());
        first.append("/");
        first.append(decimal_text(with_module as u64).as_str());
        first.append(" files declaring a module passed ");
        if codegen {
            first.append("the frontend + codegen (lex → parse → elaborate → build_instance)");
        } else {
            first.append("the frontend (lex → parse → elaborate)");
        }

        let mut headers = "  ".to_owned();
        headers.append(decimal_text(self.no_module as u64).as_str());
        headers.append(" further file(s) declare no module at all (macro/nature headers, statement fragments) — not checkable models, and no longer counted as passes");

        let mut partial = "  of the ".to_owned();
        partial.append(passed.as_str());
        partial.append(" passes, ");
        partial.append(decimal_text(self.passed_incomplete as u64).as_str());
        partial.append(" are on an incomplete module (an unresolved `include was dropped); ");
        partial.append(decimal_text(whole as u64).as_str());
        partial.append(" are self-contained");

        let mut truncated = "  ".to_owned();
        truncated.append(decimal_text(self.failed_incomplete as u64).as_str());
        truncated.append(" of the ");
        truncated.append(decimal_text(self.failed as u64).as_str());
        truncated.append(" failures also dropped an unresolved `include (truncated distributions, not gaps)");

        let mut self_contained = "  => self-contained files declaring a module: ".to_owned();
        self_contained.append(decimal_text(whole as u64).as_str());
        self_contained.append("/");
        self_contained.append(decimal_text(whole_total as u64).as_str());

        let mut approximate = "  of the ".to_owned();
        approximate.append(passed.as_str());
        approximate.append(" passes, ");
        approximate.append(decimal_text(self.passed_approximated as u64).as_str());
        approximate.append(" use an operator approximated in transient (absdelay)");

        let mut scanned = "  ".to_owned();
        scanned.append(decimal_text(total as u64).as_str());
        scanned.append(" file(s) scanned in total");

        let mut r: Vec<String> = Vec::new();
        r.push(first);
        r.push(headers);
        r.push(partial);
        r.push(truncated);
        r.push(self_contained);
        r.push(approximate);
        r.push(scanned);
        assert(texts(r@) =~= summary_texts(*self, codegen));
        r
    }
}

proof fn lemma_count_concat(
    a: Seq<CheckedFile>,
    b: Seq<CheckedFile>,
    holds: spec_fn(CheckedFile) -> bool,
)
    ensures
        count(a + b, holds) == count(a, holds) + count(b, holds),
    decreases b.len(),
{
    if b.len() == 0 {
        assert(a + b =~= a);
    } else {
        assert((a + b).drop_last() =~= a + b.drop_last());
        lemma_count_concat(a, b.drop_last(), holds);
    }
}

/// The tally over two libraries together is the sum of their tallies.
pub proof fn tallies_add_up(
    a: CheckTally,
    b: CheckTally,
    sum: CheckTally,
    first: Seq<CheckedFile>,
    second: Seq<CheckedFile>,
    codegen: bool,
)
    requires
        a.counts(first, codegen),
        b.counts(second, codegen),
        sum.passed == a.passed + b.passed,
        sum.passed_incomplete == a.passed_incomplete + b.passed_incomplete,
        sum.failed == a.failed + b.failed,
        sum.failed_incomplete == a.failed_incomplete + b.failed_incomplete,
        sum.no_module == a.no_module + b.no_module,
        sum.passed_approximated == a.passed_approximated + b.passed_approximated,
    ensures
        sum.counts(first + second, codegen),
{
    lemma_count_concat(
        first,
        second,
        |f: CheckedFile| verdict_on(f, codegen) == Verdict::Passed,
    );
    lemma_count_concat(
        first,
        second,
        |f: CheckedFile| verdict_on(f, codegen) == Verdict::Passed && incomplete(f),
    );
    lemma_count_concat(
        first,
        second,
        |f: CheckedFile| verdict_on(f, codegen) == Verdict::Failed,
    );
    lemma_count_concat(
        first,
        second,
        |f: CheckedFile| verdict_on(f, codegen) == Verdict::Failed && incomplete(f),
    );
    lemma_count_concat(
        first,
        second,
        |f: CheckedFile| verdict_on(f, codegen) == Verdict::NoModule,
    );
    lemma_count_concat(
        first,
        second,
        |f: CheckedFile| verdict_on(f, codegen) == Verdict::Passed && uses_approximation(f),
    );
}

proof fn lemma_all_files_grow(groups: Seq<Vec<CheckedFile>>, i: int)
    requires
        0 <= i <= groups.len(),
    ensures
        all_files(groups.subrange(0, i)).len() <= all_files(groups).len(),
    decreases groups.len() - i,
{
    if i == groups.len() {
        assert(groups.subrange(0, i) =~= groups);
    } else {
        assert(groups.subrange(0, i + 1).drop_last() =~= groups.subrange(0, i));
        lemma_all_files_grow(groups, i + 1);
    }
}

/// Checks every group of files and closes with a summary. The files of a group stand
/// in one directory; groups come in the order of their directories.
pub fn check_models(groups: &Vec<Vec<CheckedFile>>, codegen: bool) -> (r: (CheckTally, Vec<Line>))
    requires
        all_files(groups@).len() <= usize::MAX,
    ensures
        r.0.counts(all_files(groups@), codegen),
        said(r.1@) == group_lines(groups@, codegen) + listing(summary_texts(r.0, codegen)),
{
    let mut out: Vec<Line> = Vec::new();
    let mut tally = CheckTally::default();
    let mut i: usize = 0;
    assert(groups@.subrange(0, 0) =~= Seq::empty());
    assert(said(out@) =~= Seq::empty());
    while i < groups.len()
        invariant
            i <= groups@.len(),
            all_files(groups@).len() <= usize::MAX,
            tally.counts(all_files(groups@.subrange(0, i as int)), codegen),
            said(out@) == group_lines(groups@.subrange(0, i as int), codegen),
        decreases groups@.len() - i,
    {
        let (more, mut lines) = check_group(&groups[i], codegen);
        let ghost before = tally;
        let ghost done = groups@.subrange(0, i as int);
        proof {
            let upto = groups@.subrange(0, i + 1);
            assert(upto.drop_last() =~= done);
            assert(upto.last() == groups@[i as int]);
            lemma_all_files_grow(groups@, i + 1);
            a_tally_is_consistent(tally, all_files(done), codegen);
            a_tally_is_consistent(more, groups@[i as int]@, codegen);
        }
        tally.add_assign(more);
        proof {
            tallies_add_up(
                before,
                more,
                tally,
                all_files(done),
                groups@[i as int]@,
                codegen,
            );
        }
        let ghost old_out = out@;
        let ghost new_lines = lines@;
        out.append(&mut lines);
        i += 1;
        proof {
            assert(said(out@) =~= said(old_out) + said(new_lines));
            assert(said(out@) =~= group_lines(groups@.subrange(0, i as int), codegen));
        }
    }
    assert(groups@.subrange(0, i as int) =~= groups@);
    proof {
        a_tally_is_consistent(tally, all_files(groups@), codegen);
    }
    let closing = tally.summary(codegen);
    say_all(&mut out, &closing);
    (tally, out)
}

/// The files of group `g` among the first `upto`, in order.
pub open spec fn members(group_of: Seq<usize>, g: int, upto: int) -> Seq<usize>
    decreases upto,
{
    if upto <= 0 {
        Seq::empty()
    } else if group_of[upto - 1] == g {
        members(group_of, g, upto - 1).push((upto - 1) as usize)
    } else {
        members(group_of, g, upto - 1)
    }
}

/// Groups files by their directory. `group_of` gives for each file the place of its
/// directory among the `count` directories; the result lists for each directory the
/// places of its files, in order.
pub fn group_files(group_of: &Vec<usize>, count: usize) -> (r: Vec<Vec<usize>>)
    requires
        forall|i: int| 0 <= i < group_of@.len() ==> #[trigger] group_of@[i] < count,
    ensures
        r@.len() == count,
        forall|g: int|
            0 <= g < count ==> (#[trigger] r@[g])@ == members(
                group_of@,
                g,
                group_of@.len() as int,
            ),
{
    let mut r: Vec<Vec<usize>> = Vec::new();
    let mut g: usize = 0;
    while g < count
        invariant
            g <= count,
            r@.len() == g,
            forall|h: int|
                0 <= h < g ==> (#[trigger] r@[h])@ == members(
                    group_of@,
                    h,
                    group_of@.len() as int,
                ),
        decreases count - g,
    {
        let mut group: Vec<usize> = Vec::new();
        let mut i: usize = 0;
        while i < group_of.len()
            invariant
                i <= group_of@.len(),
                group@ == members(group_of@, g as int, i as int),
            decreases group_of@.len() - i,
        {
            if group_of[i] == g {
                group.push(i);
            }
            i += 1;
        }
        r.push(group);
        g += 1;
    }
    r
}

} // verus!
