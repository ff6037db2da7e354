use va_sim::args::{
    cmd_check, cmd_sim, command, parse_flag, Analysis, ArgError, Command, Integration,
};

fn args(words: &[&str]) -> Vec<String> {
    words.iter().map(|w| w.to_string()).collect()
}

#[test]
fn analysis_default_is_dc() {
    assert_eq!(Analysis::default(), Analysis::Dc);
}

#[test]
fn integration_words_name_their_methods() {
    for word in ["be", "backward-euler", "backward_euler"] {
        assert_eq!(Integration::parse(word), Some(Integration::BackwardEuler));
    }
    for word in ["trap", "trapezoidal"] {
        assert_eq!(Integration::parse(word), Some(Integration::Trapezoidal));
    }
    for word in ["gear", "bdf2"] {
        assert_eq!(Integration::parse(word), Some(Integration::Gear));
    }
    assert_eq!(Integration::parse("Gear"), None);
    assert_eq!(Integration::parse(""), None);
    assert_eq!(Integration::default(), Integration::Trapezoidal);
}

#[test]
fn a_flag_gives_the_word_after_its_first_occurrence() {
    let a = args(&["deck.net", "--model", "m.va", "--model", "n.va"]);
    assert_eq!(parse_flag(&a, "--model"), Some("m.va".to_string()));
    assert_eq!(parse_flag(&a, "--plot"), None);
    assert_eq!(parse_flag(&args(&["deck.net", "--model"]), "--model"), None);
}

#[test]
fn the_first_word_is_the_command() {
    assert_eq!(command(&args(&["sim", "x"])), Command::Sim);
    assert_eq!(command(&args(&["check"])), Command::Check);
    assert_eq!(command(&args(&[])), Command::Help);
    assert_eq!(command(&args(&["-h"])), Command::Help);
    assert_eq!(command(&args(&["--help"])), Command::Help);
    assert_eq!(command(&args(&["run"])), Command::Unknown("run".to_string()));
}

#[test]
fn check_takes_paths_and_a_flag() {
    let c = cmd_check(&args(&["models", "--codegen", "a.va"])).unwrap();
    assert_eq!(c.paths, args(&["models", "a.va"]));
    assert!(c.codegen);
    assert!(!cmd_check(&args(&["a.va"])).unwrap().codegen);
    let e = cmd_check(&args(&["--codegen"])).unwrap_err();
    assert_eq!(e, ArgError::NoModels);
    assert_eq!(e.message(), "expected at least one model file or directory");
}

#[test]
fn sim_reads_its_flags() {
    let s = cmd_sim(&args(&[
        "deck.net", "--tran", "--model", "m.va", "--plot", "o.svg", "--report", "mid,V(in)",
        "--integration", "gear",
    ]))
    .unwrap();
    assert_eq!(s.netlist, "deck.net");
    assert_eq!(s.model, Some("m.va".to_string()));
    assert_eq!(s.plot, Some("o.svg".to_string()));
    assert_eq!(s.analysis, Analysis::Transient);
    assert_eq!(s.integration, Integration::Gear);
    assert_eq!(s.report, args(&["mid", "V(in)"]));

    let plain = cmd_sim(&args(&["deck.net"])).unwrap();
    assert_eq!(plain.analysis, Analysis::Dc);
    assert_eq!(plain.integration, Integration::Trapezoidal);
    assert!(plain.report.is_empty());
    assert_eq!(cmd_sim(&args(&["d", "--noise", "--ac"])).unwrap().analysis, Analysis::Ac);
    assert_eq!(cmd_sim(&args(&["d", "--noise"])).unwrap().analysis, Analysis::Noise);
}

#[test]
fn sim_errors_are_told() {
    let e = cmd_sim(&args(&[])).unwrap_err();
    assert_eq!(e, ArgError::NoNetlist);
    assert_eq!(e.message(), "expected a netlist path");
    let e = cmd_sim(&args(&["d", "--integration", "rk4"])).unwrap_err();
    assert_eq!(e, ArgError::UnknownIntegration("rk4".to_string()));
    assert_eq!(e.message(), "unknown integration method `rk4` (expected be, trap or gear)");
    assert_eq!(
        ArgError::UnknownCommand("run".to_string()).message(),
        "unknown subcommand `run`"
    );
}
