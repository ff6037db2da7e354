use va_sim::args::Analysis;
use va_sim::check::{
    cannot_declare_a_module, check_group, check_models, group_files, is_model_extension,
    CheckTally, CheckedFile, GeneratorFault, ModuleOutcome, ModuleShape, ParseOutcome,
};
use va_sim::library::{
    compiled_line, files_reached_by, keep_reached, library_file, merge_keeping_first,
    merge_keeping_last, model_files, stage_context, DirectoryEntry, GatheredLibrary, LibraryFile,
    ModuleSummary, Stage,
};
use va_sim::listing::{
    library_warnings, skipped_clause, unplaceable_clause, warn_unplaceable_module, Line,
};
use va_sim::netlist::{AnalysisCard, Device, Module, Netlist};
use va_sim::refusal::{
    approximations_in, refusal_block, refusal_detail, refusal_headline, refusal_report,
    refuse_transient_approximations, step_triggers_in, Cause, FrontendFault, Token,
};
use va_sim::session::refuse_run;

fn words(w: &[&str]) -> Vec<String> {
    w.iter().map(|s| s.to_string()).collect()
}

// A lexer for these tests: names, `@`, `(`, and one token for anything else.
fn lex(src: &str) -> Vec<Token> {
    let mut tokens = Vec::new();
    for line in src.lines() {
        let code = line.split("//").next().unwrap();
        let mut name = String::new();
        for c in code.chars().chain(" ".chars()) {
            if c.is_ascii_alphanumeric() || c == '_' {
                name.push(c);
                continue;
            }
            if !name.is_empty() {
                let word = std::mem::take(&mut name);
                if word == "absdelay" || word == "module" || word == "analog" {
                    tokens.push(Token::Keyword(word));
                } else {
                    tokens.push(Token::Ident(word));
                }
            }
            match c {
                '@' => tokens.push(Token::At),
                '(' => tokens.push(Token::LParen),
                ' ' => {}
                _ => tokens.push(Token::Other),
            }
        }
    }
    tokens
}

fn models(sources: &[(&str, &str)]) -> Vec<(String, Vec<Token>)> {
    sources.iter().map(|(p, s)| (p.to_string(), lex(s))).collect()
}

fn shape(name: &str) -> ModuleShape {
    ModuleShape {
        name: name.to_string(),
        ports: 2,
        nodes: 2,
        params: 1,
        functions: 0,
        scales_by_mfactor: false,
    }
}

fn fine(name: &str) -> ModuleOutcome {
    ModuleOutcome::Elaborated { shape: shape(name), fault: None }
}

fn file(path: &str, source: &str, outcome: ParseOutcome) -> CheckedFile {
    CheckedFile {
        path: path.to_string(),
        source: Some(source.to_string()),
        outcome,
        tokens: lex(source),
    }
}

fn parsed(modules: Vec<ModuleOutcome>, skipped: &[&str]) -> ParseOutcome {
    ParseOutcome::Parsed { modules, skipped: words(skipped) }
}

fn listing(lines: &[Line]) -> Vec<String> {
    lines
        .iter()
        .map(|l| match l {
            Line::Listing(s) => s.clone(),
            Line::Warning(s) => format!("! {s}"),
        })
        .collect()
}

// ---- refusals ----

#[test]
fn a_transient_run_refuses_an_approximated_operator() {
    let delayed = models(&[(
        "delay_line.va",
        "module d(p,n); electrical p,n; analog I(p,n) <+ absdelay(V(p,n), 1u); endmodule",
    )]);
    let refusal = refuse_transient_approximations(&delayed).expect_err("absdelay is folded");
    assert!(refusal.what.contains("absdelay"), "{}", refusal.what);
    assert!(refusal.why.contains("refused"), "{}", refusal.why);
    assert!(refusal.instead.contains("--ac") && refusal.instead.contains("unaffected"));
    let plain = models(&[(
        "r.va",
        "module r(p,n); electrical p,n; analog I(p,n) <+ V(p,n); endmodule",
    )]);
    refuse_transient_approximations(&plain).expect("an ordinary model is fine");
}

#[test]
fn a_transient_run_refuses_a_step_scoped_trigger() {
    let model = "
module im(p, n);
  inout p, n;
  electrical p, n;
  real k;
  analog begin
    @(initial_model) k = 1.0;
    I(p, n) <+ V(p, n) / 1000.0;
  end
endmodule
";
    assert_eq!(step_triggers_in(&lex(model)), words(&["initial_model"]));
    let refusal = refuse_transient_approximations(&models(&[("im.va", model)])).unwrap_err();
    assert!(refusal.what.contains("initial_model"), "{}", refusal.what);
    assert!(refusal.what.contains("every timepoint"), "{}", refusal.what);
}

#[test]
fn a_transient_run_accepts_final_step() {
    let model = "
module fs(p, n);
  real k;
  analog begin
    k = 0.0;
    @(final_step) k = 1.0;
    I(p, n) <+ V(p, n) / 1000.0;
  end
endmodule
";
    assert!(step_triggers_in(&lex(model)).is_empty());
    refuse_transient_approximations(&models(&[("fs.va", model)])).expect("nothing to refuse");
}

#[test]
fn a_bare_mention_of_a_trigger_word_is_not_an_event_control() {
    let model = "
module m(p, n);
  real initial_model;
  analog begin
    // mentions initial_model and initial_instance in prose
    initial_model = 2.0;
    I(p, n) <+ V(p, n) / initial_model;
  end
endmodule
";
    assert!(step_triggers_in(&lex(model)).is_empty());
    refuse_transient_approximations(&models(&[("m.va", model)])).expect("nothing to refuse here");
}

#[test]
fn triggers_come_in_the_order_of_the_table() {
    let model = "@(initial_model) k = 1; @(initial_instance) k = 2; @(initial_model) k = 3;";
    assert_eq!(step_triggers_in(&lex(model)), words(&["initial_instance", "initial_model"]));
}

#[test]
fn transient_approximations_are_detected_by_token_not_by_substring() {
    let uses_it = "module p(a); analog I(a) <+ absdelay(V(a), 1u) + absdelay(V(a), 2u); endmodule";
    assert_eq!(approximations_in(&lex(uses_it)), words(&["absdelay"]));
    let diode = "module diode(a, c);\ninout a, c;\nelectrical a, c;\nparameter real Is = 1e-14;\nparameter real N = 1.0;\nanalog I(a, c) <+ Is * (limexp(V(a, c) / (N * $vt)) - 1.0);\nendmodule\n";
    assert!(approximations_in(&lex(diode)).is_empty());
    let decoy = "// absdelay is not used here\nmodule m(a);\nelectrical a;\nreal absdelay_count;\nanalog absdelay_count = 1.0;\nendmodule\n";
    assert!(approximations_in(&lex(decoy)).is_empty());
}

#[test]
fn every_offender_is_named() {
    let all = models(&[
        ("a.va", "x = absdelay(y);"),
        ("b.va", "fine"),
        ("c.va", "@(initial_instance) k = absdelay(1);"),
    ]);
    let refusal = refuse_transient_approximations(&all).unwrap_err();
    let lines: Vec<&str> = refusal.what.lines().collect();
    assert_eq!(lines.len(), 3);
    assert_eq!(
        lines[0],
        "a.va uses `absdelay`, which folds to its undelayed input (a true delay needs an \
         interpolated history buffer)"
    );
    assert!(lines[1].starts_with("c.va uses `absdelay`"));
    assert!(lines[2].starts_with("c.va uses `@(initial_instance)`, whose body"));
    assert_eq!(refusal.tracking, "docs/proposals/absdelay.md stage 2");
}

#[test]
fn every_refusal_says_what_was_refused_and_why() {
    let causes = vec![
        Cause::Other,
        Cause::Unsupported("`absdelay` below a quotient".to_string()),
        Cause::Refused("never reached".to_string()),
    ];
    let block = refusal_block(&causes).expect("a refusal must be recognised as one");
    assert!(block.starts_with("refused: `absdelay` below a quotient\n"), "{block}");
    assert!(block.contains("why:"), "{block}");
    assert!(block.contains("tracking:"), "{block}");
    let own = "refused: x\n  why:      y\n  tracking: z".to_string();
    assert_eq!(refusal_block(&vec![Cause::Refused(own.clone())]), Some(own.clone()));
    assert_eq!(
        refusal_report(&own),
        words(&["[va-cli] refused: x", "[va-cli]   why:      y", "[va-cli]   tracking: z"])
    );
    assert_eq!(
        refusal_detail("refused: x\r\n  why: y\n\n"),
        words(&["          why: y", "        "])
    );
    assert!(refusal_detail("refused: x").is_empty());
}

#[test]
fn an_ordinary_error_is_not_mistaken_for_a_refusal() {
    assert!(refusal_block(&vec![Cause::Other, Cause::Other]).is_none());
    assert!(refusal_block(&vec![]).is_none());
    assert_eq!(refusal_headline(&FrontendFault::Refused("x".to_string())), "refused: x");
    assert_eq!(refusal_headline(&FrontendFault::Other("parse error".to_string())), "parse error");
}

// ---- libraries ----

fn deck(names: &[&str]) -> Netlist {
    Netlist {
        devices: names
            .iter()
            .enumerate()
            .map(|(i, m)| Device {
                name: format!("X{i}"),
                model: m.to_string(),
                terminals: vec![],
                value: None,
                params: vec![],
                controls: vec![],
                waveform: None,
                ac: None,
                ic: None,
            })
            .collect(),
        node_order: vec![],
        nodes: vec![],
        analysis: AnalysisCard::Tran,
        tran: None,
        dc: None,
        ac: None,
        noise: None,
    }
}

fn library(path: &str, modules: &[(&str, &[&str])]) -> LibraryFile {
    let summaries: Vec<ModuleSummary> = modules
        .iter()
        .map(|(n, i)| ModuleSummary { name: n.to_string(), instances: words(i) })
        .collect();
    library_file(path.to_string(), &summaries)
}

#[test]
fn transient_refusal_is_scoped_to_the_files_a_deck_reaches() {
    let files = vec![
        library("folded.va", &[("folded", &[])]),
        library("plain.va", &[("plain", &[])]),
        library("wrapper.va", &[("wrapper", &["plain"])]),
    ];
    let sources = [
        ("folded.va", "analog I(p, n) <+ absdelay(V(p, n), 1e-6);"),
        ("plain.va", "analog I(p, n) <+ V(p, n) / 1000.0;"),
        ("wrapper.va", "plain inner(a, b);"),
    ];
    let reached_sources = |reached: &[String]| {
        let kept: Vec<(&str, &str)> =
            sources.iter().filter(|(p, _)| reached.iter().any(|r| r == p)).copied().collect();
        models(&kept)
    };
    let mut reached = files_reached_by(&deck(&["wrapper", "vsource"]), &files);
    reached.sort();
    assert_eq!(reached, words(&["plain.va", "wrapper.va"]));
    refuse_transient_approximations(&reached_sources(&reached))
        .expect("a deck that never places the folded model is not refused");
    let reached2 = files_reached_by(&deck(&["folded", "vsource"]), &files);
    assert_eq!(reached2, words(&["folded.va"]));
    let refusal = refuse_transient_approximations(&reached_sources(&reached2)).unwrap_err();
    assert!(refusal.what.contains("absdelay"));
}

#[test]
fn only_a_transient_run_of_a_reached_model_is_refused() {
    let files = vec![library("folded.va", &[("folded", &[])]), library("plain.va", &[("plain", &[])])];
    let sources = || {
        models(&[
            ("plain.va", "analog I(p, n) <+ V(p, n) / 1000.0;"),
            ("folded.va", "analog I(p, n) <+ absdelay(V(p, n), 1e-6);"),
        ])
    };
    for analysis in [Analysis::Dc, Analysis::Ac, Analysis::Noise] {
        assert!(refuse_run(analysis, &deck(&["folded"]), &files, sources()).is_ok());
    }
    assert!(refuse_run(Analysis::Transient, &deck(&["plain"]), &files, sources()).is_ok());
    let e = refuse_run(Analysis::Transient, &deck(&["folded"]), &files, sources()).unwrap_err();
    assert!(e.what.starts_with("folded.va uses `absdelay`"), "{}", e.what);
}

#[test]
fn a_cycle_of_instances_is_walked_once() {
    let files = vec![
        library("a.va", &[("a", &["b"])]),
        library("b.va", &[("b", &["c", "a"]), ("b2", &[])]),
        library("c.va", &[("c", &["b"])]),
        library("d.va", &[("d", &["a"])]),
    ];
    assert_eq!(files_reached_by(&deck(&["c", "c"]), &files), words(&["c.va", "b.va", "a.va"]));
    assert!(files_reached_by(&deck(&["nothing"]), &files).is_empty());
    let shadowed = vec![library("v.va", &[("vsource", &[]), ("resistor", &[])])];
    assert!(files_reached_by(&deck(&["vsource"]), &shadowed).is_empty());
    assert_eq!(files_reached_by(&deck(&["resistor"]), &shadowed), words(&["v.va"]));
}

#[test]
fn a_directory_gives_its_models() {
    let entry = |p: &str, e: Option<&str>| DirectoryEntry {
        path: p.to_string(),
        extension: e.map(|s| s.to_string()),
    };
    let mut entries = vec![
        entry("m/b.vams", Some("vams")),
        entry("m/readme.md", Some("md")),
        entry("m/a.va", Some("va")),
        entry("m/c", None),
    ];
    let sorted = words(&["m/a.va", "m/b.vams"]);
    assert_eq!(model_files("m", &entries), Ok(sorted.clone()));
    entries.swap(0, 2);
    assert_eq!(model_files("m", &entries), Ok(sorted));
    assert_eq!(
        model_files("m", &entries[1..2].to_vec()),
        Err("no `.va`/`.vams` model files found in m".to_string())
    );
    assert!(is_model_extension("va") && is_model_extension("vams") && !is_model_extension("VA"));
    assert_eq!(
        compiled_line(2, "models"),
        "[va-cli] compiled 2 Verilog-A module(s) from models"
    );
}

#[test]
fn a_library_is_gathered_file_by_file() {
    let mut lib: GatheredLibrary<u32, u32> = GatheredLibrary::new();
    let summary = |n: &str, i: &[&str]| ModuleSummary { name: n.to_string(), instances: words(i) };
    lib.take(
        "a.va".to_string(),
        &vec![summary("a", &["b"]), summary("a2", &["b", "c"])],
        vec![("electrical".to_string(), 1)],
        vec![],
    );
    lib.take(
        "b.va".to_string(),
        &vec![summary("b", &[])],
        vec![("electrical".to_string(), 2)],
        vec![("Voltage".to_string(), 3)],
    );
    assert_eq!(lib.files.len(), 2);
    assert_eq!(lib.files[0].modules, words(&["a", "a2"]));
    assert_eq!(lib.files[0].instantiates, words(&["b", "b", "c"]));
    assert_eq!(lib.files[1].path, "b.va");
    assert_eq!(lib.disciplines, vec![("electrical".to_string(), 1)]);
    assert_eq!(lib.natures, vec![("Voltage".to_string(), 3)]);
    let kept = keep_reached(
        vec![("a.va".to_string(), 1), ("b.va".to_string(), 2)],
        &words(&["b.va", "x.va"]),
    );
    assert_eq!(kept, vec![("b.va".to_string(), 2)]);
    assert_eq!(stage_context(Stage::Reading, "m.va"), "reading model m.va");
    assert_eq!(stage_context(Stage::Parsing, "m.va"), "parsing m.va");
    assert_eq!(stage_context(Stage::Lexing, "m.va"), "lexing m.va");
    assert_eq!(stage_context(Stage::Preprocessing, "m.va"), "preprocessing m.va");
}

#[test]
fn declarations_are_merged_by_name() {
    let pair = |n: &str, v: u32| (n.to_string(), v);
    let mut first = vec![pair("electrical", 1)];
    merge_keeping_first(&mut first, vec![pair("electrical", 2), pair("optical", 3)]);
    assert_eq!(first, vec![pair("electrical", 1), pair("optical", 3)]);
    let mut last = vec![pair("electrical", 1)];
    merge_keeping_last(&mut last, vec![pair("electrical", 2), pair("optical", 3)]);
    assert_eq!(last, vec![pair("electrical", 2), pair("optical", 3)]);
}

// ---- checking files ----

#[test]
fn check_group_resolves_cross_file_instantiation() {
    let group = vec![
        file("leg.va", "module leg(p, n); endmodule", parsed(vec![fine("leg")], &[])),
        file("top.va", "module top(a, b); leg l1(a, b); endmodule", parsed(vec![fine("top")], &[])),
    ];
    let (tally, lines) = check_group(&group, false);
    assert_eq!(tally.passed, 2);
    assert_eq!(
        listing(&lines),
        words(&[
            "  [ok   ] leg.va: module `leg` (2 ports, 2 nodes, 1 params, 0 funcs)",
            "  [ok   ] top.va: module `top` (2 ports, 2 nodes, 1 params, 0 funcs)",
        ])
    );
}

#[test]
fn check_group_does_not_resolve_an_instance_missing_from_its_own_group() {
    let group = vec![file(
        "top.va",
        "module top(a, b); leg l1(a, b); endmodule",
        parsed(
            vec![ModuleOutcome::Failed {
                name: "top".to_string(),
                error: "instance `l1` references unknown module `leg`".to_string(),
            }],
            &[],
        ),
    )];
    let (tally, lines) = check_group(&group, false);
    assert_eq!(tally.passed, 0);
    assert_eq!(tally.failed, 1);
    assert_eq!(
        listing(&lines),
        words(&["  [elab ] top.va: module `top`: instance `l1` references unknown module `leg`"])
    );
}

#[test]
fn check_group_codegen_flag_is_a_strictly_later_stage() {
    let group = vec![file(
        "nested_ddt.va",
        "module m(p, n); analog I(p, n) <+ ddt(ddt(c * V(p, n))); endmodule",
        parsed(
            vec![ModuleOutcome::Elaborated {
                shape: shape("m"),
                fault: Some(GeneratorFault {
                    error: "unsupported: a second derivative".to_string(),
                    causes: vec![Cause::Unsupported("a second derivative".to_string())],
                }),
            }],
            &[],
        ),
    )];
    let (frontend, _) = check_group(&group, false);
    let (with_codegen, lines) = check_group(&group, true);
    assert_eq!(frontend.passed, 1, "the module elaborates");
    assert_eq!(with_codegen.passed, 0);
    assert_eq!(with_codegen.failed, 1);
    let out = listing(&lines);
    assert_eq!(out[0], "  [cgen ] nested_ddt.va: module `m`: unsupported: a second derivative");
    assert!(out[1].starts_with("          why:      stated above"), "{}", out[1]);
    assert_eq!(out.len(), 3);
}

#[test]
fn a_dropped_include_and_a_module_less_file_are_not_counted_as_clean_passes() {
    let group = vec![
        file("whole.va", "module whole(p, n); endmodule", parsed(vec![fine("whole")], &[])),
        file(
            "hollow.va",
            "module hollow(p, n); `include \"body.include\" endmodule",
            parsed(vec![fine("hollow")], &["body.include"]),
        ),
        file("header.va", "`define SOME_MACRO 1\n", parsed(vec![], &[])),
    ];
    let (tally, lines) = check_group(&group, false);
    assert_eq!(tally.failed, 0);
    assert_eq!(tally.no_module, 1);
    assert_eq!(tally.passed, 2);
    assert_eq!(tally.passed_incomplete, 1);
    let out = listing(&lines);
    assert!(out[0].starts_with("  [none ] header.va: declares no module (no `module` keyword"));
    assert!(out[2].ends_with(" [after skipping unresolved `include: body.include]"), "{}", out[2]);
}

#[test]
fn a_preprocess_failure_on_a_dropped_include_is_counted_as_incomplete() {
    let failure = |skipped: &[&str]| ParseOutcome::NotPreprocessed {
        error: "undefined macro".to_string(),
        skipped: words(skipped),
    };
    let group = vec![
        file("truncated.va", "`include \"x\"\nmodule truncated(p, n);", failure(&["x"])),
        file("broken.va", "module genuinely_broken(p, n);", failure(&[])),
    ];
    let (tally, lines) = check_group(&group, false);
    assert_eq!(tally.passed, 0);
    assert_eq!(tally.no_module, 0);
    assert_eq!(tally.failed, 2);
    assert_eq!(tally.failed_incomplete, 1);
    assert_eq!(
        listing(&lines),
        words(&[
            "  [pp   ] truncated.va: undefined macro [after skipping unresolved `include: x]",
            "  [pp   ] broken.va: undefined macro",
        ])
    );
}

#[test]
fn a_provably_module_less_fragment_is_not_a_failing_model() {
    let failure = || ParseOutcome::NotParsed {
        fault: FrontendFault::Other("unexpected `begin`".to_string()),
        causes: vec![Cause::Other],
        skipped: vec![],
    };
    let group = vec![
        file("fragment.va", "begin\n  real x;\n  x = 1.0;\nend\n", failure()),
        file(
            "has_keyword.va",
            "begin\n  // this fragment belongs to a module\n  real x;\nend\n",
            failure(),
        ),
        file(
            "has_include.va",
            "`include \"never_shipped.include\"\nbegin\n  real x;\nend\n",
            failure(),
        ),
    ];
    let (tally, _) = check_group(&group, false);
    assert_eq!(tally.passed, 0);
    assert_eq!(tally.no_module, 1);
    assert_eq!(tally.failed, 2);
}

#[test]
fn the_module_less_proof_is_one_directional() {
    assert!(cannot_declare_a_module(&Some("real x;\n".to_string())));
    assert!(!cannot_declare_a_module(&Some("real x;\nendmodule\n".to_string())));
    assert!(!cannot_declare_a_module(&None));
    assert!(cannot_declare_a_module(&Some(String::new())));
    assert!(cannot_declare_a_module(&Some("modul e".to_string())));
    assert!(!cannot_declare_a_module(&Some("mmodule".to_string())));
}

#[test]
fn only_a_portless_module_is_reported_as_unplaceable() {
    assert_eq!(unplaceable_clause(2, &vec![]), "");
    let note = unplaceable_clause(0, &vec![]);
    assert!(note.contains("no ports"), "{note}");
    assert!(note.contains("deck"), "{note}");
    assert_eq!(unplaceable_clause(0, &words(&["disciplines.vams"])), "");
    let mut lines = Vec::new();
    warn_unplaceable_module(&mut lines, "smpl_ckt", "c.va");
    assert_eq!(lines.len(), 3);
    match &lines[0] {
        Line::Warning(s) => assert!(s.starts_with("[va-cli] warning: c.va: module `smpl_ckt`")),
        Line::Listing(s) => panic!("{s}"),
    }
}

#[test]
fn a_library_is_warned_about() {
    let module = |name: &str, ports: Vec<Vec<usize>>, scales: bool| Module {
        name: name.to_string(),
        params: vec![],
        ports,
        nodes: vec![],
        queried_ports: vec![],
        scales_by_mfactor: scales,
    };
    let modules = vec![
        module("bad", vec![vec![]], true),
        module("bare", vec![], false),
        module("good", vec![vec![]], false),
    ];
    let out = listing(&library_warnings(&modules, "lib"));
    assert_eq!(out.len(), 6);
    assert!(out[0].starts_with("! [va-cli] warning: lib: module `bare` declares no ports"));
    assert!(out[3].starts_with("! [va-cli] warning: lib: module `bad` multiplies a flow"));
}

#[test]
fn skipped_directives_are_listed() {
    assert_eq!(skipped_clause(&vec![]), "");
    assert_eq!(
        skipped_clause(&words(&["a", "b"])),
        " [after skipping unresolved `include: a, b]"
    );
}

#[test]
fn each_stage_has_its_own_line() {
    let group = vec![
        CheckedFile {
            path: "gone.va".to_string(),
            source: None,
            outcome: ParseOutcome::Unreadable { error: "no such file".to_string() },
            tokens: vec![],
        },
        file(
            "lex.va",
            "module",
            ParseOutcome::NotLexed { error: "bad character".to_string(), skipped: vec![] },
        ),
        file(
            "refused.va",
            "module",
            ParseOutcome::NotParsed {
                fault: FrontendFault::Refused("`absdelta`".to_string()),
                causes: vec![Cause::Refused("refused: `absdelta`\n  why: because".to_string())],
                skipped: words(&["h"]),
            },
        ),
        file("none.va", "module `include", parsed(vec![], &["h"])),
        file(
            "approx.va",
            "module a; analog x = absdelay(y); endmodule",
            parsed(
                vec![ModuleOutcome::Elaborated {
                    shape: ModuleShape { scales_by_mfactor: true, ..shape("a") },
                    fault: None,
                }],
                &[],
            ),
        ),
    ];
    let (tally, lines) = check_group(&group, false);
    let out = listing(&lines);
    assert_eq!(out[0], "  [read ] gone.va: no such file");
    assert_eq!(out[1], "  [lex  ] lex.va: bad character");
    assert_eq!(
        out[2],
        "  [parse] refused.va: refused: `absdelta` [after skipping unresolved `include: h]"
    );
    assert_eq!(out[3], "          why: because");
    assert_eq!(
        out[4],
        "  [none ] none.va: declares no module [after skipping unresolved `include: h]"
    );
    assert!(out[5].starts_with("! [va-cli] warning: approx.va: module `a` multiplies a flow"));
    assert_eq!(out[8], "  [ok   ] approx.va: module `a` (2 ports, 2 nodes, 1 params, 0 funcs)");
    assert_eq!(
        out[9],
        "  [approx] approx.va: builds, but uses absdelay (approximated in transient)"
    );
    assert_eq!(out.len(), 10);
    assert_eq!(
        tally,
        CheckTally {
            passed: 1,
            passed_incomplete: 0,
            failed: 3,
            failed_incomplete: 1,
            no_module: 1,
            passed_approximated: 1,
        }
    );
}

#[test]
fn groups_add_up_to_a_summary() {
    let a = vec![
        file("a/x.va", "module", parsed(vec![fine("x")], &[])),
        file("a/y.va", "module", parsed(vec![fine("y")], &["inc"])),
    ];
    let b = vec![
        file("b/z.va", "nothing", parsed(vec![], &[])),
        file(
            "b/w.va",
            "module",
            ParseOutcome::NotLexed { error: "e".to_string(), skipped: words(&["inc"]) },
        ),
    ];
    let (tally, lines) = check_models(&vec![a, b], true);
    assert_eq!(tally.passed + tally.failed + tally.no_module, 4);
    let out = listing(&lines);
    assert_eq!(
        out[out.len() - 7..].to_vec(),
        words(&[
            "\n2/3 files declaring a module passed the frontend + codegen (lex → parse → \
             elaborate → build_instance)",
            "  1 further file(s) declare no module at all (macro/nature headers, statement \
             fragments) — not checkable models, and no longer counted as passes",
            "  of the 2 passes, 1 are on an incomplete module (an unresolved `include was \
             dropped); 1 are self-contained",
            "  1 of the 1 failures also dropped an unresolved `include (truncated distributions, \
             not gaps)",
            "  => self-contained files declaring a module: 1/1",
            "  of the 2 passes, 0 use an operator approximated in transient (absdelay)",
            "  4 file(s) scanned in total",
        ])
    );
    assert_eq!(group_files(&vec![1, 0, 1], 2), vec![vec![1], vec![0, 2]]);
}
