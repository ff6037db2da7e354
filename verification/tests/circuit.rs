use va_sim::ac::{linearize, AcSweep, AcSweepKind, Grid};
use va_sim::args::Analysis;
use va_sim::block::{embed, embed_rhs, split_solution};
use va_sim::assembly::Assembly;
use va_sim::circuit::{branch_currents, build_instances, couple, quantities, Builder, Built};
use va_sim::device::{build_instance, check_terminals, deferred, Part};
use va_sim::multiplicity::scale_stamps;
use va_sim::netlist::{
    AcCard, AcSpec, AcSweepKindCard, AnalysisCard, DcSweep, Device, Module, Netlist, NodeDecl,
    NoiseCard, Param, Waveform, GROUND,
};
use va_sim::number::Real;
use va_sim::place::{build_from_model, split_multiplicity, BuildError, Placement};
use va_sim::quantity::Quantity;
use va_sim::reference::{at, Capacitor, Resistor, VSource, Vccs, Vcvs};
use va_sim::session::{
    gate_analysis, plan_run, plot_line, sim_line, unresolved_warning, GateError, Run,
};
use va_sim::solve::{
    ac_excitation, ac_sweep, initial_solution, noise_contributors, noise_input, noise_output,
    noise_sweep, set_value, sweep_points, sweep_source, transient_window, SetupError,
};
use va_sim::stamps::{DenseStamp, Stamp};
use va_sim::waveform::waveform_value;

fn r(x: f64) -> Real {
    Real::from_bits(x.to_bits())
}

fn f(x: Real) -> f64 {
    f64::from_bits(x.bits)
}

fn add(a: Real, b: Real) -> Real {
    r(f(a) + f(b))
}

fn spell(x: Real) -> String {
    format!("{}", f(x))
}

fn device(name: &str, model: &str, terminals: &[usize], value: Option<f64>) -> Device {
    Device {
        name: name.to_string(),
        model: model.to_string(),
        terminals: terminals.to_vec(),
        value: value.map(r),
        params: Vec::new(),
        controls: Vec::new(),
        waveform: None,
        ac: None,
        ic: None,
    }
}

fn with_params(mut d: Device, params: &[(&str, f64)]) -> Device {
    d.params = params.iter().map(|(n, v)| (n.to_string(), r(*v))).collect();
    d
}

fn with_controls(mut d: Device, controls: &[&str]) -> Device {
    d.controls = controls.iter().map(|c| c.to_string()).collect();
    d
}

fn net(nodes: &[&str], devices: Vec<Device>) -> Netlist {
    let mut names: Vec<(String, usize)> =
        nodes.iter().enumerate().map(|(i, n)| (n.to_string(), i)).collect();
    names.push(("gnd".to_string(), GROUND));
    Netlist {
        devices,
        node_order: nodes.iter().map(|n| n.to_string()).collect(),
        nodes: names,
        analysis: AnalysisCard::Op,
        tran: None,
        dc: None,
        ac: None,
        noise: None,
    }
}

fn node(name: &str, access: Option<&str>, units: Option<&str>) -> NodeDecl {
    NodeDecl {
        name: name.to_string(),
        access: access.map(|s| s.to_string()),
        units: units.map(|s| s.to_string()),
    }
}

fn param(name: &str, default: f64) -> Param {
    Param { name: name.to_string(), default: r(default), is_local: false }
}

fn module(name: &str, params: Vec<Param>, ports: &[&[usize]], nodes: Vec<NodeDecl>) -> Module {
    Module {
        name: name.to_string(),
        params,
        ports: ports.iter().map(|p| p.to_vec()).collect(),
        nodes,
        queried_ports: Vec::new(),
        scales_by_mfactor: false,
    }
}

fn electrical(names: &[&str]) -> Vec<NodeDecl> {
    names.iter().map(|n| node(n, Some("V"), Some("V"))).collect()
}

fn no_claims(n: &Netlist) -> Vec<usize> {
    vec![0; n.devices.len()]
}

fn divider() -> Netlist {
    net(
        &["in", "mid"],
        vec![
            device("V1", "vsource", &[0, GROUND], Some(1.0)),
            device("R1", "resistor", &[0, 1], Some(1000.0)),
            device("R2", "resistor", &[1, GROUND], Some(1000.0)),
        ],
    )
}

// What a part contributes at the solution `x`, for the linear devices. A compiled model
// contributes as a conductance between its first two nodes.
fn contributions(part: &Part, x: &Vec<Real>, conductance: &dyn Fn(&Placement) -> f64) -> Vec<Stamp> {
    let v = |i: usize| f(at(x, i));
    match part {
        Part::VoltageSource { p, n, branch, value } => {
            VSource::new(*p, *n, *branch, *value).load(r(v(*p) - v(*n) - f(*value)), x)
        }
        Part::Resistor { p, n, resistance } => {
            let g = 1.0 / f(*resistance);
            Resistor::new(*p, *n, *resistance).load(r(g * (v(*p) - v(*n))), r(g))
        }
        Part::Capacitor { p, n, capacitance } => {
            Capacitor::new(*p, *n, *capacitance).load(r(f(*capacitance) * (v(*p) - v(*n))))
        }
        Part::Vccs { p, n, cp, cn, gain } => {
            Vccs::new(*p, *n, *cp, *cn, *gain).load(r(f(*gain) * (v(*cp) - v(*cn))))
        }
        Part::Vcvs { p, n, cp, cn, branch, gain } => Vcvs::new(*p, *n, *cp, *cn, *branch, *gain)
            .load(r(v(*p) - v(*n) - f(*gain) * (v(*cp) - v(*cn))), x),
        Part::Inductor { p, n, branch, inductance } => {
            va_sim::reference::Inductor::new(*p, *n, *branch, *inductance).load(
                r(v(*p) - v(*n)),
                r(f(*inductance) * v(*branch)),
                x,
            )
        }
        Part::Cccs { p, n, control, gain } => {
            let i = f(*gain) * v(*control);
            vec![
                Stamp::Residual { row: *p, value: r(i) },
                Stamp::Residual { row: *n, value: r(-i) },
                Stamp::Jacobian { row: *p, col: *control, value: *gain },
                Stamp::Jacobian { row: *n, col: *control, value: r(-f(*gain)) },
            ]
        }
        Part::Ccvs { p, n, control, branch, gain } => {
            let mut all = VSource::new(*p, *n, *branch, r(0.0))
                .load(r(v(*p) - v(*n) - f(*gain) * v(*control)), x);
            all.push(Stamp::Jacobian { row: *branch, col: *control, value: r(-f(*gain)) });
            all
        }
        Part::Compiled { placement, .. } => {
            let g = conductance(placement);
            let (p, n) = (placement.nodes[0], placement.nodes[1]);
            let one = va_sim::reference::stamp_conductance(p, n, r(g * (v(p) - v(n))), r(g));
            match placement.multiplicity {
                Some(m) => scale_stamps(&one, &|a: Real| r(f(a) * f(m))),
                None => one,
            }
        }
        _ => panic!("not a linear device"),
    }
}

fn gauss(mut a: Vec<f64>, mut b: Vec<f64>, n: usize) -> Vec<f64> {
    for k in 0..n {
        let mut p = k;
        for i in k..n {
            if a[i * n + k].abs() > a[p * n + k].abs() {
                p = i;
            }
        }
        for j in 0..n {
            a.swap(k * n + j, p * n + j);
        }
        b.swap(k, p);
        for i in (k + 1)..n {
            let q = a[i * n + k] / a[k * n + k];
            for j in k..n {
                a[i * n + j] -= q * a[k * n + j];
            }
            b[i] -= q * b[k];
        }
    }
    let mut x = vec![0.0; n];
    for k in (0..n).rev() {
        let mut s = b[k];
        for j in (k + 1)..n {
            s -= a[k * n + j] * x[j];
        }
        x[k] = s / a[k * n + k];
    }
    x
}

fn solve_with(built: &Built, conductance: &dyn Fn(&Placement) -> f64) -> Vec<f64> {
    let dim = built.dim;
    let zero = vec![r(0.0); dim];
    let mut sink = DenseStamp::new(dim);
    for part in &built.parts {
        for s in contributions(part, &zero, conductance) {
            sink.deposit(s, &add);
        }
    }
    let a: Vec<f64> = sink.jacobian.iter().map(|v| f(*v)).collect();
    let b: Vec<f64> = sink.residual.iter().map(|v| -f(*v)).collect();
    gauss(a, b, dim)
}

fn solve(n: &Netlist) -> Vec<f64> {
    let built = build_instances(n, &Vec::new(), &no_claims(n)).expect("builds");
    solve_with(&built, &|_| 0.0)
}

// ---- primitives ----

#[test]
fn branch_currents_maps_the_divider_source_to_its_branch_index() {
    let n = divider();
    let currents = branch_currents(&n, &Vec::new(), &no_claims(&n)).expect("branch currents");
    assert_eq!(currents, vec![("V1".to_string(), 2)]);
    let x = solve(&n);
    assert!((x[2] - (-0.0005)).abs() < 1e-9, "I(V1) = {}", x[2]);
}

#[test]
fn divider_solves_with_reference_models() {
    let x = solve(&divider());
    assert!((x[0] - 1.0).abs() < 1e-9, "V(in) = {}", x[0]);
    assert!((x[1] - 0.5).abs() < 1e-9, "V(mid) = {}", x[1]);
}

#[test]
fn controlled_sources_amplify_by_their_stated_gain() {
    let n = net(
        &["in", "mid", "eout", "gout"],
        vec![
            device("V1", "vsource", &[0, GROUND], Some(3.0)),
            device("R1", "resistor", &[0, 1], Some(2000.0)),
            device("R2", "resistor", &[1, GROUND], Some(1000.0)),
            device("E1", "vcvs", &[2, GROUND, 1, GROUND], Some(4.0)),
            device("R3", "resistor", &[2, GROUND], Some(1000.0)),
            device("G1", "vccs", &[3, GROUND, 1, GROUND], Some(2e-3)),
            device("R4", "resistor", &[3, GROUND], Some(500.0)),
        ],
    );
    let x = solve(&n);
    assert!((x[1] - 1.0).abs() < 1e-9, "V(mid) = {}", x[1]);
    assert!((x[2] - 4.0).abs() < 1e-9, "V(eout) = {}", x[2]);
    assert!((x[3] + 1.0).abs() < 1e-9, "V(gout) = {}", x[3]);
}

#[test]
fn current_controlled_sources_sense_a_named_branch() {
    // The sources come before the element that they sense.
    let n = net(
        &["in", "s", "fout", "hout"],
        vec![
            with_controls(device("F1", "cccs", &[2, GROUND], Some(3.0)), &["VS"]),
            with_controls(device("H1", "ccvs", &[3, GROUND], Some(2000.0)), &["VS"]),
            device("V1", "vsource", &[0, GROUND], Some(1.0)),
            device("R1", "resistor", &[0, 1], Some(1000.0)),
            device("VS", "vsource", &[1, GROUND], Some(0.0)),
            device("R2", "resistor", &[2, GROUND], Some(200.0)),
            device("R3", "resistor", &[3, GROUND], Some(1000.0)),
        ],
    );
    let x = solve(&n);
    assert!((x[2] + 0.6).abs() < 1e-9, "V(fout) = {}", x[2]);
    assert!((x[3] - 2.0).abs() < 1e-9, "V(hout) = {}", x[3]);
    // Every part stands at the place of its device, waiting or not.
    let built = build_instances(&n, &Vec::new(), &no_claims(&n)).unwrap();
    assert_eq!(built.parts.len(), n.devices.len());
    assert!(matches!(built.parts[0], Part::Cccs { control: 5, .. }));
    assert!(matches!(built.parts[1], Part::Ccvs { control: 5, branch: 6, .. }));
    assert!(matches!(built.parts[2], Part::VoltageSource { branch: 4, .. }));
    assert_eq!(
        built.currents,
        vec![("V1".to_string(), 4), ("VS".to_string(), 5), ("H1".to_string(), 6)]
    );
}

#[test]
fn a_controller_without_a_branch_row_is_rejected() {
    let n = net(
        &["in", "o"],
        vec![
            device("V1", "vsource", &[0, GROUND], Some(1.0)),
            device("R1", "resistor", &[0, GROUND], Some(1000.0)),
            with_controls(device("F1", "cccs", &[1, GROUND], Some(2.0)), &["R1"]),
            device("R2", "resistor", &[1, GROUND], Some(100.0)),
        ],
    );
    let e = build_instances(&n, &Vec::new(), &no_claims(&n)).unwrap_err();
    let msg = e.message(spell);
    assert!(msg.contains("R1"), "{msg}");
    assert!(msg.contains("branch current"), "{msg}");
}

#[test]
fn branch_currents_are_identified_by_name_not_by_device_order() {
    let n = net(
        &["in", "out"],
        vec![
            device("L1", "inductor", &[0, 1], Some(1e-3)),
            device("V1", "vsource", &[0, GROUND], Some(2.0)),
            device("R1", "resistor", &[1, GROUND], Some(1000.0)),
        ],
    );
    let currents = branch_currents(&n, &Vec::new(), &no_claims(&n)).expect("resolves");
    let x = solve(&n);
    let idx = |name: &str| currents.iter().find(|(n, _)| n == name).unwrap().1;
    assert!((x[idx("V1")] + 2e-3).abs() < 1e-9, "I(V1) = {}", x[idx("V1")]);
    assert!((x[idx("L1")] - 2e-3).abs() < 1e-9, "I(L1) = {}", x[idx("L1")]);
    assert_ne!(idx("V1"), idx("L1"), "each element owns a distinct row");
}

#[test]
fn each_primitive_builds_its_part() {
    let none: Vec<Module> = Vec::new();
    let d = device("D1", "diode", &[0, 1], None);
    assert!(check_terminals(&d, &none));
    match build_instance(&d, &none, 5).unwrap() {
        Part::Diode { p, n, saturation, ideality, thermal } => {
            assert_eq!((p, n), (0, 1));
            assert_eq!(f(saturation), 1e-14);
            assert_eq!(f(ideality), 1.0);
            assert_eq!(f(thermal), 1.380_649e-23 * 300.15 / 1.602_176_634e-19);
        }
        other => panic!("{other:?}"),
    }
    let q = device("Q1", "bjt", &[0, 1, 2], None);
    match build_instance(&q, &none, 5).unwrap() {
        Part::Transistor { b, c, e, saturation, forward_gain, reverse_gain, .. } => {
            assert_eq!((c, b, e), (0, 1, 2));
            assert_eq!(f(saturation), 1e-15);
            assert_eq!(f(forward_gain), 100.0);
            assert_eq!(f(reverse_gain), 1.0);
        }
        other => panic!("{other:?}"),
    }
    let mut sin = device("V1", "vsource", &[0, 1], None);
    let wave = Waveform::Sin { offset: r(0.0), amplitude: r(5.0), freq: r(1e3) };
    sin.waveform = Some(wave);
    match build_instance(&sin, &none, 5).unwrap() {
        Part::WaveformSource { branch, waveform, .. } => {
            assert_eq!(branch, 5);
            assert_eq!(waveform, wave);
        }
        other => panic!("{other:?}"),
    }
    assert_eq!(sin.value, None);
    let part = build_instance(&device("L1", "inductor", &[0, 1], None), &none, 7).unwrap();
    assert_eq!(part.branch(), Some(7));
    assert_eq!(part.claim_end(7), 8);
    assert!(deferred("mutual") && deferred("cccs") && deferred("ccvs") && !deferred("vsource"));
    assert!(!check_terminals(&device("G1", "vccs", &[0, 1, 2], None), &none));
}

#[test]
fn what_cannot_be_built_says_why() {
    let none: Vec<Module> = Vec::new();
    let say = |d: Device| build_instance(&d, &none, 3).unwrap_err().message(spell);
    assert_eq!(
        say(device("V1", "vsource", &[0], None)),
        "`V1` is a 1-terminal device line, but `vsource` needs at least two nodes"
    );
    assert_eq!(say(device("R1", "resistor", &[0, 1], None)), "device `R1` needs a value");
    assert_eq!(say(device("C1", "capacitor", &[0, 1], None)), "device `C1` needs a value");
    assert_eq!(
        say(device("Q1", "bjt", &[0, 1], None)),
        "device `Q1` (model `bjt`) needs exactly 3 terminals (c, b, e), found 2"
    );
    assert_eq!(
        say(device("X1", "nosuch", &[0, 1], None)),
        "device `X1` references unknown model `nosuch` (no compiled `--model` matched, and it is \
         not a built-in primitive)"
    );
}

#[test]
fn couplings_name_two_inductors() {
    let inductors = vec![
        device("L1", "inductor", &[0, GROUND], Some(1e-3)),
        device("L2", "inductor", &[1, GROUND], Some(4e-3)),
        device("R1", "resistor", &[1, GROUND], Some(50.0)),
    ];
    let currents = vec![("L1".to_string(), 2), ("L2".to_string(), 3)];
    let k = |controls: &[&str]| {
        let d = with_controls(device("K1", "mutual", &[], Some(0.9)), controls);
        couple(&d, &inductors, &currents, 4)
    };
    match k(&["L1", "L2"]).unwrap() {
        Part::Mutual { first, second, l1, l2, coupling } => {
            assert_eq!((first, second), (2, 3));
            assert_eq!((f(l1), f(l2), f(coupling)), (1e-3, 4e-3, 0.9));
        }
        other => panic!("{other:?}"),
    }
    let say = |controls: &[&str]| k(controls).unwrap_err().message(spell);
    assert_eq!(say(&["L1"]), "`K1` must name exactly two inductors");
    assert_eq!(say(&["L1", "R1"]), "`K1` couples `R1`, which is not an inductor");
    assert_eq!(say(&["L1", "L1"]), "`K1` couples `L1` to itself");
    let d = with_controls(device("K1", "mutual", &[], Some(0.9)), &["L1", "L2"]);
    let e = couple(&d, &inductors, &vec![("L1".to_string(), 2)], 4).unwrap_err();
    assert_eq!(e.message(spell), "`L2` has no branch row");
    let bare = device("F1", "cccs", &[0, 1], Some(1.0));
    let e = couple(&bare, &inductors, &currents, 4).unwrap_err();
    assert_eq!(e.message(spell), "`F1` names no controlling element");
}

// ---- placing models ----

fn conductance_model(params: Vec<Param>) -> Module {
    module("gm", params, &[&[0], &[1]], electrical(&["p", "n"]))
}

#[test]
fn m_yields_to_a_model_that_declares_its_own_m() {
    let modules = vec![conductance_model(vec![param("m", 0.5)])];
    let current = |params: &[(&str, f64)]| {
        let n = net(
            &["a"],
            vec![
                device("V1", "vsource", &[0, GROUND], Some(4.0)),
                with_params(device("X1", "gm", &[0, GROUND], None), params),
            ],
        );
        let built = build_instances(&n, &modules, &no_claims(&n)).expect("builds");
        let x = solve_with(&built, &|p| p.settings[0].map_or(0.5, f));
        x[1].abs()
    };
    let as_param = current(&[("m", 0.25)]);
    assert!((as_param - 0.25 * 4.0).abs() < 1e-9, "{as_param:e}");
    let as_multiplicity = current(&[("mult", 3.0)]);
    assert!((as_multiplicity - 3.0 * 0.5 * 4.0).abs() < 1e-9, "{as_multiplicity:e}");
}

#[test]
fn an_m_of_three_equals_three_instances_in_parallel() {
    let modules = vec![module("res", vec![param("r", 1000.0)], &[&[0], &[1]], electrical(&["p", "n"]))];
    let solve = |devices: Vec<Device>| {
        let mut all = vec![device("V1", "vsource", &[0, GROUND], Some(4.0))];
        all.extend(devices);
        let n = net(&["a"], all);
        let built = build_instances(&n, &modules, &no_claims(&n)).expect("builds");
        let x = solve_with(&built, &|p| 1.0 / p.settings[0].map_or(1000.0, f));
        x[1].abs()
    };
    let multiplied =
        solve(vec![with_params(device("X1", "res", &[0, GROUND], None), &[("m", 3.0)])]);
    let parallel = solve(vec![
        device("X1", "res", &[0, GROUND], None),
        device("X2", "res", &[0, GROUND], None),
        device("X3", "res", &[0, GROUND], None),
    ]);
    assert!((multiplied - parallel).abs() < 1e-12, "{multiplied:e} vs {parallel:e}");
    assert!((multiplied - 3.0 * 4.0 / 1000.0).abs() < 1e-12, "{multiplied:e}");
}

#[test]
fn a_nonsensical_multiplicity_is_rejected() {
    let m = conductance_model(vec![]);
    for (name, v) in [("m", 0.0), ("m", -2.0), ("mult", f64::NAN), ("mult", f64::INFINITY)] {
        let e = split_multiplicity(&m, &vec![(name.to_string(), r(v))]).unwrap_err();
        let msg = e.message(spell);
        assert!(msg.contains("multiplicity"), "{msg}");
        assert!(msg.contains(&format!("`{name}={v}`")), "{msg}");
    }
    let declares = conductance_model(vec![param("mult", 1.0)]);
    let e = split_multiplicity(&declares, &vec![("mult".to_string(), r(2.0))]).unwrap_err();
    assert!(matches!(e, BuildError::AmbiguousMultiplicity { .. }));
    assert!(e.message(spell).contains("ambiguous"));
}

#[test]
fn the_last_multiplicity_counts_and_the_rest_stays_in_order() {
    let m = conductance_model(vec![param("a", 0.0), param("b", 0.0)]);
    let settings: Vec<(String, Real)> = [("a", 1.0), ("m", 2.0), ("b", 3.0), ("mult", 4.0)]
        .iter()
        .map(|(n, v)| (n.to_string(), r(*v)))
        .collect();
    let (multiplicity, rest) = split_multiplicity(&m, &settings).unwrap();
    assert_eq!(multiplicity, Some(r(4.0)));
    assert_eq!(rest, vec![("a".to_string(), r(1.0)), ("b".to_string(), r(3.0))]);
}

#[test]
fn an_optional_trailing_port_may_be_left_off_the_deck() {
    let mut m = module("selfheat", vec![], &[&[0], &[1], &[2]], electrical(&["p", "n", "dt"]));
    m.queried_ports = vec![2];
    let modules = vec![m];
    let current = |terminals: &[usize]| {
        let n = net(
            &["a"],
            vec![
                device("V1", "vsource", &[0, GROUND], Some(1.0)),
                device("X1", "selfheat", terminals, None),
            ],
        );
        let built = build_instances(&n, &modules, &no_claims(&n)).expect("builds");
        let dim = built.dim;
        let zero = vec![r(0.0); dim];
        let mut sink = DenseStamp::new(dim);
        for part in &built.parts {
            let unconnected = match part {
                Part::Compiled { placement, .. } => placement.unconnected.contains(&2),
                _ => false,
            };
            let g = if unconnected { 1.0 / 4000.0 } else { 1.0 / 1000.0 };
            for s in contributions(part, &zero, &|_| g) {
                sink.deposit(s, &add);
            }
            if let Part::Compiled { placement, .. } = part {
                for s in va_sim::reference::stamp_conductance(
                    placement.nodes[2],
                    GROUND,
                    r(0.0),
                    r(1e-3),
                ) {
                    sink.deposit(s, &add);
                }
            }
        }
        let a: Vec<f64> = sink.jacobian.iter().map(|v| f(*v)).collect();
        let b: Vec<f64> = sink.residual.iter().map(|v| -f(*v)).collect();
        gauss(a, b, dim)[1].abs()
    };
    let connected = current(&[0, GROUND, GROUND]);
    let omitted = current(&[0, GROUND]);
    assert!((connected - 1e-3).abs() < 1e-9, "{connected}");
    assert!((omitted - 2.5e-4).abs() < 1e-9, "{omitted}");
}

#[test]
fn a_short_deck_line_is_still_an_error_for_a_non_optional_port() {
    let m = module("plain", vec![], &[&[0], &[1], &[2]], electrical(&["p", "n", "x"]));
    let e = build_from_model(&m, None, &vec![], &vec![0, GROUND], 1).unwrap_err();
    let msg = e.message(spell);
    assert!(msg.contains("plain"), "{msg}");
    assert!(msg.contains("not optional") && msg.contains("$port_connected"), "{msg}");
    assert!(msg.contains("port #3"), "{msg}");
    assert!(msg.contains("(`x`)"), "{msg}");
}

#[test]
fn a_vector_port_is_connected_as_a_whole() {
    let mut m = module("bus", vec![], &[&[0], &[1, 2, 3]], electrical(&["a", "b0", "b1", "b2"]));
    m.queried_ports = vec![1];
    let e = build_from_model(&m, None, &vec![], &vec![0, 1], 2).unwrap_err();
    match e {
        BuildError::PartialPort { connected, width, port, .. } => {
            assert_eq!((connected, width, port), (2, 3, 2));
        }
        other => panic!("{other:?}"),
    }
    let p = build_from_model(&m, None, &vec![], &vec![0], 2).unwrap();
    assert_eq!(p.unconnected, vec![1]);
    assert_eq!(p.nodes, vec![0, 2, 3, 4]);
    assert_eq!(p.next_unknown, 5);
    let whole = build_from_model(&m, None, &vec![], &vec![0, 1, 0, GROUND], 2).unwrap();
    assert!(whole.unconnected.is_empty());
    assert_eq!(whole.nodes, vec![0, 1, 0, GROUND]);
}

#[test]
fn a_deck_cannot_override_a_localparam() {
    let mut m = conductance_model(vec![param("r", 1000.0), param("scale", 2.0)]);
    m.params[1].is_local = true;
    let set = |name: &str| {
        build_from_model(&m, None, &vec![(name.to_string(), r(5.0))], &vec![0, GROUND], 1)
    };
    assert_eq!(set("r").unwrap().settings, vec![Some(r(5.0)), None]);
    let msg = set("scale").unwrap_err().message(spell);
    assert!(msg.contains("scale") && msg.contains("localparam"), "{msg}");
}

#[test]
fn an_x_line_with_the_wrong_port_count_is_rejected() {
    let tee = module("tee", vec![], &[&[0], &[1], &[2], &[3]], electrical(&["a", "b", "c", "d"]));
    let msg = build_from_model(&tee, None, &vec![], &vec![0, 1, 2], 3).unwrap_err().message(spell);
    assert!(msg.contains("tee"), "{msg}");
    assert!(msg.contains('4') && msg.contains('3'), "{msg}");
    let msg =
        build_from_model(&tee, None, &vec![], &vec![0, 1, 2, 0, 1], 3).unwrap_err().message(spell);
    assert_eq!(msg, "model `tee` declares 4 port node(s), device connects 5");
}

#[test]
fn param_given_reports_whether_the_deck_set_the_parameter() {
    let m = conductance_model(vec![param("r", 1000.0)]);
    let modules = vec![Module { name: "pg".to_string(), ..m }];
    let current = |params: &[(&str, f64)]| {
        let n = net(
            &["a"],
            vec![
                device("V1", "vsource", &[0, GROUND], Some(1.0)),
                with_params(device("X1", "pg", &[0, GROUND], None), params),
            ],
        );
        let built = build_instances(&n, &modules, &no_claims(&n)).expect("builds");
        solve_with(&built, &|p| 1.0 / p.settings[0].map_or(1.0e6, f))[1].abs()
    };
    let given = current(&[("r", 1000.0)]);
    let not_given = current(&[]);
    assert!((given - 1e-3).abs() < 1e-9, "{given}");
    assert!((not_given - 1e-6).abs() < 1e-12, "{not_given}");
    assert!(given / not_given > 100.0);
}

#[test]
fn a_positional_value_also_counts_as_given() {
    let m = conductance_model(vec![param("r", 1000.0)]);
    let modules = vec![Module { name: "resistor".to_string(), ..m }];
    let current = |value: Option<f64>| {
        let n = net(
            &["a"],
            vec![
                device("V1", "vsource", &[0, GROUND], Some(1.0)),
                device("R1", "resistor", &[0, GROUND], value),
            ],
        );
        let built = build_instances(&n, &modules, &no_claims(&n)).expect("builds");
        assert!(matches!(built.parts[1], Part::Compiled { module: 0, .. }));
        solve_with(&built, &|p| 1.0 / p.settings[0].map_or(1.0e6, f))[1].abs()
    };
    let positional = current(Some(2000.0));
    assert!((positional - 5e-4).abs() < 1e-9, "{positional}");
    let no_value = current(None);
    assert!((no_value - 1e-6).abs() < 1e-12, "{no_value}");
}

#[test]
fn a_named_setting_wins_over_the_position() {
    let m = conductance_model(vec![param("r", 1.0), param("s", 1.0)]);
    let named = vec![("r".to_string(), r(7.0))];
    let p = build_from_model(&m, Some(r(3.0)), &named, &vec![0, 1], 2).unwrap();
    assert_eq!(p.settings, vec![Some(r(7.0)), None]);
    let q = build_from_model(&m, Some(r(3.0)), &vec![], &vec![0, 1], 2).unwrap();
    assert_eq!(q.settings, vec![Some(r(3.0)), None]);
}

#[test]
fn an_unknown_parameter_override_is_rejected_by_name() {
    let m = Module { name: "diode".to_string(), ..conductance_model(vec![param("N", 1.0), param("Is", 1e-14)]) };
    let named = vec![("Isat".to_string(), r(1e-12)), ("N".to_string(), r(1.3))];
    let e = build_from_model(&m, None, &named, &vec![0, 1], 2).unwrap_err();
    assert_eq!(
        e.message(spell),
        "model `diode` has no parameter `Isat` (it declares: Is, N)"
    );
    let bare = conductance_model(vec![]);
    let e = build_from_model(&bare, None, &named, &vec![0, 1], 2).unwrap_err();
    assert_eq!(e.message(spell), "model `gm` has no parameter `Isat` (it declares: none)");
}

#[test]
fn a_models_implicit_ground_is_the_circuits_ground() {
    // `V(o) <+ 3.0` against the model's own reference node.
    let pot = module("pot", vec![], &[&[0]], electrical(&["o", "gnd"]));
    let p = build_from_model(&pot, None, &vec![], &vec![0], 1).unwrap();
    assert_eq!(p.nodes, vec![0, GROUND]);
    assert_eq!(p.next_unknown, 1);
    let as_source = net(
        &["out"],
        vec![
            device("V1", "vsource", &[p.nodes[0], p.nodes[1]], Some(3.0)),
            device("R1", "resistor", &[0, GROUND], Some(1000.0)),
        ],
    );
    assert!((solve(&as_source)[0] - 3.0).abs() < 1e-9);
    // A port of that name is wired by the deck.
    let wired = module("pot", vec![], &[&[0], &[1]], electrical(&["o", "gnd"]));
    let p = build_from_model(&wired, None, &vec![], &vec![0, 1], 2).unwrap();
    assert_eq!(p.nodes, vec![0, 1]);
}

// ---- quantities ----

fn motor_nodes() -> Vec<NodeDecl> {
    vec![
        node("shaft", Some("Omega"), Some("rads/s")),
        node("p", Some("V"), Some("V")),
        node("n", Some("V"), Some("V")),
    ]
}

#[test]
fn quantities_use_each_disciplines_own_access_function_and_units() {
    let damper = module(
        "damper",
        vec![param("d", 0.1)],
        &[&[0], &[1]],
        vec![
            node("shaft", Some("Omega"), Some("rads/s")),
            node("ref", Some("Omega"), Some("rads/s")),
        ],
    );
    let n = net(
        &["shaft"],
        vec![with_params(device("X1", "damper", &[0, GROUND], None), &[("d", 0.1)])],
    );
    let qs = quantities(&n, &vec![damper], &vec![0]).expect("quantities");
    let shaft = qs.iter().find(|q| q.name == "shaft").expect("shaft reported");
    assert_eq!(shaft.label, "Omega(shaft)");
    assert_eq!(shaft.unit, "rads/s");
    let line = shaft.render("20.000000");
    assert!(line.contains("Omega(shaft)"), "{line}");
    assert!(line.contains("rads/s"), "{line}");
    assert!(!line.contains(" V"), "{line}");
    assert_eq!(qs.len(), 1, "a grounded terminal is no entry of the solution vector");
}

#[test]
fn quantities_cover_nodes_and_branch_currents_of_a_primitive_deck() {
    let n = divider();
    let qs = quantities(&n, &Vec::new(), &no_claims(&n)).expect("quantities");
    let labels: Vec<&str> = qs.iter().map(|q| q.label.as_str()).collect();
    assert!(labels.contains(&"V(in)"), "{labels:?}");
    assert!(labels.contains(&"V(mid)"), "{labels:?}");
    assert!(labels.contains(&"I(V1)"), "{labels:?}");
    let mut idx: Vec<usize> = qs.iter().map(|q| q.index).collect();
    let len = idx.len();
    idx.sort_unstable();
    idx.dedup();
    assert_eq!(idx.len(), len, "a quantity was reported twice: {labels:?}");
    assert!(qs.iter().all(|q| q.unit == "V" || q.unit == "A"), "{qs:?}");
}

#[test]
fn a_mixed_discipline_circuit_reports_each_quantity_in_its_own_terms() {
    let motor = module("motor", vec![], &[&[0], &[1], &[2]], motor_nodes());
    let n = net(
        &["drive", "shaft"],
        vec![
            device("V1", "vsource", &[0, GROUND], Some(1.0)),
            device("X1", "motor", &[1, 0, GROUND], None),
        ],
    );
    // The model's own branch row is one unknown beyond its nodes.
    let qs = quantities(&n, &vec![motor], &vec![0, 1]).expect("quantities");
    let shaft = qs.iter().find(|q| q.name == "shaft").expect("shaft");
    assert_eq!(shaft.label, "Omega(shaft)");
    assert_eq!(shaft.unit, "rads/s");
    let drive = qs.iter().find(|q| q.name == "drive").expect("drive");
    assert_eq!(drive.label, "V(drive)");
    assert_eq!(drive.unit, "V");
    assert_ne!(shaft.index, drive.index);
    let b0 = qs.iter().find(|q| q.name == "X1.b0").expect("the branch row");
    assert_eq!(b0.label, "X1.b0");
    assert_eq!(b0.unit, "");
    assert_eq!(b0.index, 3);
    assert!(!b0.is_potential);
}

#[test]
fn every_unknown_is_named_once() {
    let inner = module(
        "inner",
        vec![],
        &[&[0], &[1]],
        vec![
            node("p", None, None),
            node("n", None, None),
            node("x", Some("Temp"), Some("K")),
            node("y", None, None),
        ],
    );
    let n = net(
        &["a", "b"],
        vec![
            device("X1", "inner", &[0, 1], None),
            device("V1", "vsource", &[0, GROUND], Some(1.0)),
            device("X2", "inner", &[1, GROUND], None),
            with_controls(device("H1", "ccvs", &[1, GROUND], Some(1.0)), &["V1"]),
        ],
    );
    let built = build_instances(&n, &vec![inner], &vec![2, 0, 1, 0]).unwrap();
    let labels: Vec<(String, usize)> =
        built.quantities.iter().map(|q| (q.label.clone(), q.index)).collect();
    let want: Vec<(String, usize)> = [
        ("V(a)", 0),
        ("V(b)", 1),
        ("I(V1)", 6),
        ("I(H1)", 10),
        ("Temp(X1.x)", 2),
        ("V(X1.y)", 3),
        ("X1.b0", 4),
        ("X1.b1", 5),
        ("Temp(X2.x)", 7),
        ("V(X2.y)", 8),
        ("X2.b0", 9),
    ]
    .iter()
    .map(|(l, i)| (l.to_string(), *i))
    .collect();
    assert_eq!(labels, want);
    assert_eq!(built.dim, 11);
    let mut idx: Vec<usize> = built.quantities.iter().map(|q| q.index).collect();
    idx.sort_unstable();
    assert_eq!(idx, (0..built.dim).collect::<Vec<_>>());
}

#[test]
fn the_first_model_on_a_net_names_its_discipline() {
    let a = module("a", vec![], &[&[0]], vec![node("x", Some("First"), Some("u1"))]);
    let b = module("b", vec![], &[&[0]], vec![node("x", Some("Second"), Some("u2"))]);
    let n = net(
        &["n"],
        vec![device("X1", "a", &[0], None), device("X2", "b", &[0], None)],
    );
    let qs = quantities(&n, &vec![a, b], &vec![0, 0]).unwrap();
    assert_eq!(qs[0].label, "First(n)");
    assert_eq!(qs[0].unit, "u1");
}

#[test]
fn a_builder_goes_device_by_device() {
    let n = divider();
    let none: Vec<Module> = Vec::new();
    let mut state = Builder::new(n.node_order.len());
    for d in &n.devices {
        let part = build_instance(d, &none, state.next_unknown).unwrap();
        let end = part.claim_end(state.next_unknown);
        state.record(d, &none, &part, end);
    }
    assert_eq!(state.next_unknown, 3);
    assert_eq!(state.currents, vec![("V1".to_string(), 2)]);
    let by_steps: Vec<Quantity> = state.quantities(&n.node_order);
    let whole = quantities(&n, &none, &no_claims(&n)).unwrap();
    assert_eq!(by_steps, whole);
}

// ---- analyses ----

#[test]
fn transient_deck_is_rejected() {
    let mut n = divider();
    n.analysis = AnalysisCard::Tran;
    n.tran = Some((r(1e-5), r(5e-3)));
    assert!(gate_analysis(&n, Analysis::Dc).is_err());
    gate_analysis(&n, Analysis::Transient).expect("a transient run is accepted");
}

#[test]
fn ac_deck_needs_the_ac_flag_and_an_ac_card() {
    let mut n = divider();
    n.analysis = AnalysisCard::Ac;
    n.ac = Some(AcCard {
        kind: AcSweepKindCard::Dec,
        points: 10,
        fstart: r(1.0),
        fstop: r(1e6),
    });
    assert!(gate_analysis(&n, Analysis::Dc).is_err());
    gate_analysis(&n, Analysis::Ac).expect("AC analysis is accepted");
    assert!(gate_analysis(&divider(), Analysis::Ac).is_err());
}

#[test]
fn each_gate_has_its_own_reason() {
    let fault = |card: AnalysisCard, analysis: Analysis| {
        let mut n = divider();
        n.analysis = card;
        gate_analysis(&n, analysis).unwrap_err()
    };
    assert_eq!(fault(AnalysisCard::Tran, Analysis::Dc), GateError::DeckWantsTransient);
    assert_eq!(fault(AnalysisCard::Ac, Analysis::Dc), GateError::DeckWantsAc);
    assert_eq!(fault(AnalysisCard::Noise, Analysis::Ac), GateError::DeckWantsNoise);
    assert_eq!(fault(AnalysisCard::Op, Analysis::Transient), GateError::NoTransientCard);
    assert_eq!(fault(AnalysisCard::Op, Analysis::Ac), GateError::NoAcCard);
    assert_eq!(fault(AnalysisCard::Op, Analysis::Noise), GateError::NoNoiseCard);
    assert_eq!(
        GateError::DeckWantsTransient.message(),
        "deck requests transient analysis (`.tran`); pass `--tran` to run it"
    );
    assert!(GateError::NoNoiseCard.message().contains("single-node `V(<out>)` probe"));
}

#[test]
fn only_a_curve_is_plotted() {
    let mut n = divider();
    assert_eq!(plan_run(&n, Analysis::Dc, false), Ok(Run::OperatingPoint));
    assert_eq!(plan_run(&n, Analysis::Dc, true), Err(GateError::NotACurve));
    assert!(GateError::NotACurve.message().contains("a single point, not a curve"));
    n.dc = Some(DcSweep {
        source: "V1".to_string(),
        start: r(0.0),
        stop: r(1.0),
        step: r(0.1),
    });
    assert_eq!(plan_run(&n, Analysis::Dc, true), Ok(Run::Sweep));
    n.tran = Some((r(1e-6), r(1e-3)));
    assert_eq!(plan_run(&n, Analysis::Transient, true), Ok(Run::Transient));
    assert_eq!(plan_run(&n, Analysis::Noise, true), Err(GateError::NoNoiseCard));
}

#[test]
fn a_run_is_announced() {
    assert_eq!(
        sim_line(
            "circuits/rectifier.net",
            &Some("models/diode.va".to_string()),
            Analysis::Transient
        ),
        "[va-cli] sim netlist=circuits/rectifier.net model=models/diode.va analysis=Transient"
    );
    assert_eq!(
        sim_line("d.net", &None, Analysis::Dc),
        "[va-cli] sim netlist=d.net model=<none> analysis=Dc"
    );
    assert_eq!(unresolved_warning(0), None);
    let w = unresolved_warning(2).unwrap();
    assert!(w.starts_with("[va-cli] warning: 2 crossing(s) fired"), "{w}");
}

#[test]
fn ac_analysis_needs_an_excited_source() {
    let mut n = net(
        &["in", "out"],
        vec![
            device("V1", "vsource", &[0, GROUND], Some(1.0)),
            device("R1", "resistor", &[0, 1], Some(1000.0)),
            device("C1", "capacitor", &[1, GROUND], Some(1e-6)),
        ],
    );
    let polar = |m: Real, deg: Real| {
        let p = f(deg).to_radians();
        (r(f(m) * p.cos()), r(f(m) * p.sin()))
    };
    let currents = vec![("V1".to_string(), 2)];
    let e = ac_excitation(&n, &currents, 3, polar).unwrap_err();
    assert_eq!(e, SetupError::NoExcitation { sources: 1 });
    assert!(e.message().contains("none of this deck's 1 voltage source(s)"), "{}", e.message());
    n.devices[0].ac = Some(AcSpec { magnitude: r(2.0), phase_deg: r(0.0) });
    let b = ac_excitation(&n, &currents, 3, polar).unwrap();
    assert_eq!(b[2], (r(2.0), r(0.0)));
    assert_eq!(b[0], (r(0.0), r(0.0)));
}

#[test]
fn rc_lowpass_response() {
    let (res, cap) = (1000.0, 1e-6);
    let mut n = net(
        &["in", "out"],
        vec![
            device("V1", "vsource", &[0, GROUND], Some(5.0)),
            device("R1", "resistor", &[0, 1], Some(res)),
            device("C1", "capacitor", &[1, GROUND], Some(cap)),
        ],
    );
    n.devices[0].ac = Some(AcSpec { magnitude: r(1.0), phase_deg: r(0.0) });
    let built = build_instances(&n, &Vec::new(), &no_claims(&n)).unwrap();
    let x_dc = vec![r(5.0), r(5.0), r(0.0)];
    let mut stamps = Vec::new();
    for part in &built.parts {
        stamps.extend(contributions(part, &x_dc, &|_| 0.0));
    }
    let lin = linearize(&stamps, 3, &add);
    let excitation =
        ac_excitation(&n, &built.currents, 3, |m: Real, _: Real| (m, r(0.0))).unwrap();
    for freq in [1.0, 10.0, 159.0, 1e3, 1e6] {
        let omega = 2.0 * std::f64::consts::PI * freq;
        let w: Vec<Real> = lin.c.iter().map(|c| r(omega * f(*c))).collect();
        let a = embed(&lin.g, &w, 3, false);
        let b = embed_rhs(&excitation, 3);
        let sol = gauss(
            a.iter().map(|v| f(*v)).collect(),
            b.iter().map(|v| f(*v)).collect(),
            6,
        );
        let x = split_solution(&sol.iter().map(|v| r(*v)).collect(), 3);
        let (re, im) = (f(x[1].0), f(x[1].1));
        let wrc = omega * res * cap;
        let mag = (re * re + im * im).sqrt();
        assert!((mag - 1.0 / (1.0 + wrc * wrc).sqrt()).abs() < 1e-6, "f={freq}: {mag}");
        assert!((im.atan2(re) - (-wrc.atan())).abs() < 1e-6, "f={freq}");
    }
}

#[test]
fn a_block_matrix_holds_both_parts() {
    let g: Vec<Real> = [1.0, 2.0, 3.0, 4.0].iter().map(|v| r(*v)).collect();
    let w: Vec<Real> = [5.0, 6.0, 7.0, 8.0].iter().map(|v| r(*v)).collect();
    let plain: Vec<f64> = embed(&g, &w, 2, false).iter().map(|v| f(*v)).collect();
    assert_eq!(
        plain,
        vec![
            1.0, 2.0, -5.0, -6.0, 3.0, 4.0, -7.0, -8.0, 5.0, 6.0, 1.0, 2.0, 7.0, 8.0, 3.0, 4.0
        ]
    );
    let turned: Vec<f64> = embed(&g, &w, 2, true).iter().map(|v| f(*v)).collect();
    assert_eq!(
        turned,
        vec![
            1.0, 3.0, -5.0, -7.0, 2.0, 4.0, -6.0, -8.0, 5.0, 7.0, 1.0, 3.0, 6.0, 8.0, 2.0, 4.0
        ]
    );
    let z = vec![(r(1.0), r(2.0)), (r(3.0), r(4.0))];
    let b = embed_rhs(&z, 2);
    assert_eq!(b, vec![r(1.0), r(3.0), r(2.0), r(4.0)]);
    assert_eq!(split_solution(&b, 2), z);
}

// The points of a sweep, computed as its grid asks for.
fn frequencies(s: &AcSweep) -> Vec<f64> {
    let (start, stop) = (f(s.fstart), f(s.fstop));
    let per = match s.grid() {
        Grid::Walk { per, .. } => per as f64,
        _ => 10.0,
    };
    let ratio = per.powf(1.0 / s.points as f64);
    let step = (stop - start) / s.points.saturating_sub(1) as f64;
    let all = s.frequencies(
        &|i: usize| r(start + step * i as f64),
        r(stop * ratio.sqrt()),
        &|x: Real| r(f(x) * ratio),
        &|x: Real| (f(x) - stop).abs() < stop * 1e-9,
    );
    all.iter().map(|v| f(*v)).collect()
}

fn sweep(fstart: f64, fstop: f64, points: usize, kind: AcSweepKind) -> AcSweep {
    AcSweep { fstart: r(fstart), fstop: r(fstop), points, kind }
}

#[test]
fn each_sweep_type_spaces_its_points_its_own_way() {
    let dec = frequencies(&AcSweep::dec(r(1.0), r(1000.0), 1));
    assert_eq!(dec.len(), 4);
    for (got, want) in dec.iter().zip([1.0, 10.0, 100.0, 1000.0]) {
        assert!((got - want).abs() < 1e-9, "dec grid {dec:?}");
    }
    let oct = frequencies(&sweep(1.0, 8.0, 1, AcSweepKind::Oct));
    assert_eq!(oct.len(), 4);
    for (got, want) in oct.iter().zip([1.0, 2.0, 4.0, 8.0]) {
        assert!((got - want).abs() < 1e-9, "oct grid {oct:?}");
    }
    let lin = frequencies(&sweep(20.0, 100.0, 5, AcSweepKind::Lin));
    assert_eq!(lin, vec![20.0, 40.0, 60.0, 80.0, 100.0]);
}

#[test]
fn every_sweep_type_ends_exactly_on_fstop() {
    let cases = [
        AcSweep::dec(r(1.0), r(1e6), 7),
        sweep(3.0, 9999.0, 3, AcSweepKind::Oct),
        sweep(1.0, 1e5, 37, AcSweepKind::Lin),
        // A walk that steps past the end by less than half a step.
        sweep(1.0, 1.9, 2, AcSweepKind::Oct),
        sweep(1.0, 80.0, 1, AcSweepKind::Dec),
    ];
    for c in cases {
        let all = frequencies(&c);
        assert_eq!(*all.last().expect("a non-empty grid"), f(c.fstop), "{:?}", c.kind);
        assert_eq!(all[0], f(c.fstart), "and start exactly on fstart");
        assert!(all.windows(2).all(|w| w[1] > w[0]), "{:?} must increase: {all:?}", c.kind);
    }
}

#[test]
fn degenerate_sweeps_are_handled() {
    assert_eq!(frequencies(&sweep(50.0, 500.0, 1, AcSweepKind::Lin)), vec![50.0]);
    assert!(frequencies(&sweep(50.0, 500.0, 0, AcSweepKind::Lin)).is_empty());
    assert!(frequencies(&sweep(500.0, 50.0, 5, AcSweepKind::Dec)).is_empty());
}

#[test]
fn frequencies_cover_start_to_stop_at_the_requested_density() {
    let all = frequencies(&sweep(1.0, 100.0, 2, AcSweepKind::default()));
    assert!((all[0] - 1.0).abs() < 1e-9);
    assert!((*all.last().unwrap() - 100.0).abs() < 1e-9);
    assert_eq!(all.len(), 5, "{all:?}");
}

#[test]
fn frequencies_single_point_when_start_equals_stop() {
    assert_eq!(frequencies(&sweep(1e3, 1e3, 10, AcSweepKind::default())), vec![1e3]);
}

#[test]
fn frequencies_empty_on_a_degenerate_sweep() {
    assert!(frequencies(&sweep(0.0, 100.0, 10, AcSweepKind::default())).is_empty());
}

// ---- sweeps, waveforms, initial conditions ----

fn dc_points(start: f64, stop: f64, step: f64) -> Vec<f64> {
    let n = ((stop - start) / step).round().max(0.0) as usize;
    let lead = (stop - start) * step;
    sweep_points(r(start), r(step), r(lead), n, |i: usize| r(start + step * i as f64))
        .iter()
        .map(|v| f(*v))
        .collect()
}

#[test]
fn a_sweep_covers_its_range() {
    assert_eq!(dc_points(0.0, 1.0, 0.25), vec![0.0, 0.25, 0.5, 0.75, 1.0]);
    assert_eq!(dc_points(1.0, 0.0, -0.5), vec![1.0, 0.5, 0.0]);
    assert_eq!(dc_points(0.0, 1.0, 0.0), vec![0.0]);
    assert_eq!(dc_points(0.0, 1.0, -0.5), vec![0.0]);
    assert_eq!(dc_points(2.0, 2.0, 0.5), vec![2.0]);
}

#[test]
fn a_sweep_sets_its_source() {
    let mut n = divider();
    let card = |source: &str| DcSweep {
        source: source.to_string(),
        start: r(0.0),
        stop: r(1.0),
        step: r(0.5),
    };
    assert_eq!(sweep_source(&n, &card("V1")), Ok(0));
    let e = sweep_source(&n, &card("V9")).unwrap_err();
    assert_eq!(e.message(), "`.dc` sweeps unknown device `V9`");
    let e = sweep_source(&n, &card("R1")).unwrap_err();
    assert_eq!(e.message(), "`.dc` can only sweep a voltage source; `R1` is a `resistor`");
    set_value(&mut n.devices, 0, r(0.5));
    assert_eq!(n.devices[0].value, Some(r(0.5)));
    assert_eq!(n.devices[0].name, "V1");
    assert_eq!(n.devices[1].value, Some(r(1000.0)));
}

#[test]
fn a_circuit_is_assembled_as_models_claim_their_rows() {
    let modules = vec![module("amp", vec![], &[&[0], &[1]], electrical(&["p", "n", "mid"]))];
    let mut f1 = device("F1", "cccs", &[0, GROUND], Some(2.0));
    f1.controls = vec!["V1".to_string()];
    let mut h1 = device("H1", "ccvs", &[1, GROUND], Some(3.0));
    h1.controls = vec!["V1".to_string()];
    let n = net(
        &["a", "b"],
        vec![
            f1,
            device("X1", "amp", &[0, 1], None),
            h1,
            device("V1", "vsource", &[0, GROUND], Some(1.0)),
        ],
    );
    let mut work = Assembly::new(&n);
    let mut order = Vec::new();
    work.skip(&n, &modules);
    while work.device(&n) < n.devices.len() {
        assert!(work.ready(&n, &modules));
        order.push(work.device(&n));
        let part = work.plan(&n, &modules).expect("plans");
        // The model claims two rows past its nodes.
        let more = if matches!(part, Part::Compiled { .. }) { 2 } else { 0 };
        let end = part.claim_end(work.state.next_unknown) + more;
        work.take(&n, &modules, part, end);
        work.skip(&n, &modules);
    }
    assert_eq!(order, vec![1, 3, 0, 2]);
    let built = work.finish(&n, &modules);
    assert_eq!(built.dim, 7);
    assert_eq!(built.currents, vec![("V1".to_string(), 5), ("H1".to_string(), 6)]);
    let labels: Vec<&str> = built.quantities.iter().map(|q| q.label.as_str()).collect();
    assert_eq!(labels, vec!["V(a)", "V(b)", "I(V1)", "I(H1)", "V(X1.mid)", "X1.b0", "X1.b1"]);
    let at_once = build_instances(&n, &modules, &vec![0, 2, 0, 0]).expect("builds");
    assert_eq!(at_once.dim, built.dim);
    assert_eq!(at_once.currents, built.currents);
    assert_eq!(at_once.quantities, built.quantities);
    assert!(matches!(built.parts[0], Part::Cccs { control: 5, .. }));
    assert!(matches!(built.parts[2], Part::Ccvs { control: 5, branch: 6, .. }));

    let short = net(&["a"], vec![device("E1", "vcvs", &[0], Some(1.0))]);
    assert!(!Assembly::new(&short).ready(&short, &vec![]));
    let broken = vec![module("amp", vec![], &[&[3]], electrical(&["p"]))];
    assert!(!broken[0].is_well_formed());
    assert!(!Assembly::new(&n).ready(&n, &broken));
}

#[test]
fn a_model_library_places_an_arbitrary_port_count() {
    let modules = vec![
        module("scaler", vec![param("k", 1.0)], &[&[0], &[1]], electrical(&["i", "o"])),
        module("tee", vec![], &[&[0], &[1], &[2], &[3]], electrical(&["a", "b", "c", "d"])),
    ];
    let n = net(
        &["a", "b", "c", "d"],
        vec![
            device("V1", "vsource", &[0, GROUND], Some(2.0)),
            device("V2", "vsource", &[2, GROUND], Some(4.0)),
            device("X1", "tee", &[0, 1, 2, 3], None),
            device("R1", "resistor", &[1, GROUND], Some(1000.0)),
            device("R2", "resistor", &[3, GROUND], Some(1000.0)),
        ],
    );
    let dev = &n.devices[2];
    assert_eq!(dev.terminals.len(), 4, "four nodes, which no other letter allows");
    let placed = build_from_model(&modules[1], dev.value, &dev.params, &dev.terminals, 4).unwrap();
    assert_eq!(placed.nodes, vec![0, 1, 2, 3]);
    assert_eq!(placed.next_unknown, 4);
    let built = build_instances(&n, &modules, &no_claims(&n)).expect("builds");
    // Each arm of the tee is a conductance of one millisiemens.
    let zero = vec![r(0.0); built.dim];
    let mut sink = DenseStamp::new(built.dim);
    for part in &built.parts {
        let stamps = match part {
            Part::Compiled { module: 1, placement } => {
                let p = &placement.nodes;
                let mut all = Resistor::new(p[0], p[1], r(1e3)).load(r(0.0), r(1e-3));
                all.extend(Resistor::new(p[2], p[3], r(1e3)).load(r(0.0), r(1e-3)));
                all
            }
            other => contributions(other, &zero, &|_| 0.0),
        };
        for s in stamps {
            sink.deposit(s, &add);
        }
    }
    let a: Vec<f64> = sink.jacobian.iter().map(|v| f(*v)).collect();
    let b: Vec<f64> = sink.residual.iter().map(|v| -f(*v)).collect();
    let x = gauss(a, b, built.dim);
    assert!((x[1] - 1.0).abs() < 1e-9, "V(b) = {}", x[1]);
    assert!((x[3] - 2.0).abs() < 1e-9, "V(d) = {}", x[3]);
}

#[test]
fn a_left_off_port_floats_whatever_its_name() {
    let mut m = module(
        "opt",
        vec![],
        &[&[0], &[1]],
        electrical(&["p", "gnd", "mid"]),
    );
    m.queried_ports = vec![1];
    let placed = build_from_model(&m, None, &vec![], &vec![0], 5).unwrap();
    assert_eq!(placed.unconnected, vec![1]);
    assert_eq!(placed.nodes, vec![0, 5, 6]);
    let inner = module("inner", vec![], &[&[0]], electrical(&["p", "gnd", "mid"]));
    let placed = build_from_model(&inner, None, &vec![], &vec![0], 5).unwrap();
    assert_eq!(placed.nodes, vec![0, GROUND, 5]);
}

#[test]
fn a_localparam_is_not_set_by_position_either() {
    let local = Param { name: "k".to_string(), default: r(1.0), is_local: true };
    let m = module("m", vec![local, param("r", 2.0)], &[&[0]], electrical(&["p"]));
    let e = build_from_model(&m, Some(r(5.0)), &vec![], &vec![0], 1).unwrap_err();
    assert!(e.message(|v| format!("{}", f(v))).contains("declares `k` as a `localparam`"));
    let placed =
        build_from_model(&m, None, &vec![("r".to_string(), r(3.0))], &vec![0], 1).unwrap();
    assert_eq!(placed.settings, vec![None, Some(r(3.0))]);
}

#[test]
fn a_discipline_without_units_prints_none() {
    let m = module("tank", vec![], &[&[0]], vec![node("h", Some("Level"), None)]);
    let n = net(&["a"], vec![device("X1", "tank", &[0], None)]);
    let qs = quantities(&n, &vec![m], &no_claims(&n)).unwrap();
    assert_eq!((qs[0].label.as_str(), qs[0].unit.as_str()), ("Level(a)", ""));
}

#[test]
fn parameter_overrides_reach_the_compiled_model() {
    let diode = module(
        "diode",
        vec![param("Is", 1e-14), param("N", 1.0)],
        &[&[0], &[1]],
        electrical(&["a", "c"]),
    );
    // The current at one volt, with what the line sets in place of the defaults.
    let current = |params: &[(&str, f64)]| {
        let dev = with_params(device("D1", "diode", &[0, GROUND], None), params);
        let placed =
            build_from_model(&diode, dev.value, &dev.params, &dev.terminals, 1).expect("places");
        let given = |k: usize| placed.settings[k].map_or(f(diode.params[k].default), f);
        let vt = 1.380_649e-23 * 300.15 / 1.602_176_634e-19;
        given(0) * ((1.0 / (given(1) * vt)).exp() - 1.0)
    };
    let i_with = current(&[("Is", 1e-12), ("N", 1.3)]);
    let i_without = current(&[]);
    let ratio = (i_with / i_without).max(i_without / i_with);
    assert!(ratio > 10.0, "{i_with} vs {i_without}");
    let vt: f64 = 1.380_649e-23 * 300.15 / 1.602_176_634e-19;
    assert_eq!(i_with, 1e-12 * ((1.0 / (1.3 * vt)).exp() - 1.0));
}

#[test]
fn a_missing_control_is_reported_before_the_terminals_are_read() {
    let f1 = with_controls(device("F1", "cccs", &[0], Some(2.0)), &["R1"]);
    let r1 = device("R1", "resistor", &[0, GROUND], Some(1.0));
    let n = net(&["a"], vec![f1, r1]);
    let e = build_instances(&n, &vec![], &no_claims(&n)).unwrap_err();
    assert!(e.message(|v| format!("{}", f(v))).contains("has no branch current to sense"));
    let h1 = with_controls(device("H1", "ccvs", &[], Some(2.0)), &[]);
    let n = net(&["a"], vec![h1]);
    let e = build_instances(&n, &vec![], &no_claims(&n)).unwrap_err();
    assert_eq!(e.message(|v| format!("{}", f(v))), "`H1` names no controlling element");
}

#[test]
fn every_point_of_a_sweep_has_the_same_unknowns() {
    let mut n = divider();
    let claims = vec![0; n.devices.len()];
    let before = build_instances(&n, &vec![], &claims).unwrap();
    set_value(&mut n.devices, 0, r(-7.5));
    let after = build_instances(&n, &vec![], &claims).unwrap();
    assert_eq!(before.dim, after.dim);
    assert_eq!(before.currents, after.currents);
    assert_eq!(before.quantities, after.quantities);
}

fn pulse(v1: f64, v2: f64, td: f64, tr: f64, tf: f64, pw: f64, per: f64, t: f64) -> f64 {
    wave(
        Waveform::Pulse {
            v1: r(v1),
            v2: r(v2),
            td: r(td),
            tr: r(tr),
            tf: r(tf),
            pw: r(pw),
            per: r(per),
        },
        t,
    )
}

fn wave(w: Waveform, t: f64) -> f64 {
    f(waveform_value(
        w,
        r(t),
        &add,
        &|a: Real, b: Real| r(f(a) - f(b)),
        &|a: Real, b: Real| r(f(a) % f(b)),
        &|from: Real, to: Real, into: Real, length: Real| {
            r(f(from) + (f(to) - f(from)) * (f(into) / f(length)))
        },
        &|offset: Real, amplitude: Real, freq: Real, t: Real| {
            r(f(offset) + f(amplitude) * (2.0 * std::f64::consts::PI * f(freq) * f(t)).sin())
        },
    ))
}

#[test]
fn a_sine_starts_at_its_offset() {
    let w = Waveform::Sin { offset: r(0.5), amplitude: r(2.0), freq: r(1e3) };
    assert_eq!(wave(w, 0.0), 0.5);
    assert!((wave(w, 0.25e-3) - 2.5).abs() < 1e-12);
}

#[test]
fn a_pulse_keeps_its_promises() {
    let at = |per: f64, t: f64| pulse(1.0, -3.0, 1.0, 0.5, 0.25, 1.0, per, t);
    assert_eq!(at(4.0, 0.5), 1.0);
    for i in 0..400 {
        let t = 1.0 + i as f64 / 64.0;
        assert_eq!(at(4.0, t), at(4.0, t + 4.0), "{t}");
        assert!((-3.0..=1.0).contains(&at(4.0, t)));
    }
    assert_eq!(at(0.0, 2.0), -3.0);
    for i in 0..100 {
        assert_eq!(at(0.0, 2.75 + i as f64), 1.0);
    }
}

#[test]
fn a_pulse_waveform_follows_its_definition_segment_by_segment() {
    let at = |t: f64| pulse(1.0, 5.0, 10.0, 2.0, 4.0, 8.0, 100.0, t);
    assert_eq!(at(0.0), 1.0, "before the delay");
    assert_eq!(at(9.999), 1.0, "still v1 right up to td");
    assert_eq!(at(10.0), 1.0);
    assert!((at(11.0) - 3.0).abs() < 1e-12, "halfway up the rise");
    assert!((at(12.0) - 5.0).abs() < 1e-12, "top of the rise");
    assert!((at(15.0) - 5.0).abs() < 1e-12, "on the plateau");
    assert!((at(20.0) - 5.0).abs() < 1e-12, "plateau ends at td+tr+pw");
    assert!((at(22.0) - 3.0).abs() < 1e-12, "halfway down the fall");
    assert!((at(24.0) - 1.0).abs() < 1e-12, "back to v1 at the end of the fall");
    assert_eq!(at(50.0), 1.0, "idle until the period repeats");
    assert!((at(111.0) - 3.0).abs() < 1e-12, "halfway up the second rise");
    assert!((at(122.0) - 3.0).abs() < 1e-12, "halfway down the second fall");
}

#[test]
fn a_pulse_can_be_a_single_shot_with_ideal_edges() {
    let at = |t: f64| pulse(0.0, 2.0, 5.0, 0.0, 0.0, 5.0, 0.0, t);
    assert_eq!(at(4.9), 0.0);
    assert_eq!(at(5.0), 2.0, "a zero rise time is an ideal step at td");
    assert_eq!(at(9.9), 2.0);
    assert_eq!(at(10.0), 0.0, "a zero fall time drops instantly");
    assert_eq!(at(1e6), 0.0, "and never repeats");
    assert!(at(1e6).is_finite(), "no division by a zero period");
}

#[test]
fn initial_conditions_seed_the_solution() {
    let mut l = device("L1", "inductor", &[0, 1], Some(1e-3));
    l.ic = Some(r(0.25));
    let mut c1 = device("C1", "capacitor", &[1, GROUND], Some(1e-6));
    c1.ic = Some(r(2.0));
    let mut c2 = device("C2", "capacitor", &[0, 1], Some(1e-6));
    c2.ic = Some(r(3.0));
    let mut grounded = device("C3", "capacitor", &[GROUND, GROUND], Some(1e-6));
    grounded.ic = Some(r(9.0));
    let n = net(
        &["a", "b"],
        vec![l, c1, c2, grounded, device("R1", "resistor", &[0, 1], Some(1.0))],
    );
    let x = initial_solution(&n, 3, &vec![("L1".to_string(), 2)], add);
    assert_eq!(x.iter().map(|v| f(*v)).collect::<Vec<_>>(), vec![5.0, 2.0, 0.25]);
    let none = initial_solution(&divider(), 3, &vec![], add);
    assert_eq!(none, vec![r(0.0); 3]);
}

#[test]
fn a_grounded_capacitor_starts_at_its_condition_either_way_round() {
    for (terminals, want) in [([1, GROUND], 2.5), ([GROUND, 1], -2.5)] {
        let mut c = device("C1", "capacitor", &terminals, Some(1e-6));
        c.ic = Some(r(2.5));
        let x = initial_solution(&net(&["a", "b", "c"], vec![c]), 3, &vec![], add);
        assert_eq!(x, vec![r(0.0), r(want), r(0.0)]);
    }
}

// ---- noise setup ----

fn noise_deck(output: &str, source: &str) -> Netlist {
    let mut n = divider();
    n.noise = Some(NoiseCard {
        output: output.to_string(),
        source: source.to_string(),
        points_per_decade: 5,
        fstart: r(1.0),
        fstop: r(1e3),
    });
    n
}

#[test]
fn a_card_sets_its_analysis_up() {
    let mut n = divider();
    assert_eq!(transient_window(&n), Err(SetupError::NoTransientCard));
    assert_eq!(ac_sweep(&n).unwrap_err(), SetupError::NoAcCard);
    assert_eq!(
        SetupError::NoTransientCard.message(),
        "transient analysis requires a `.tran <tstep> <tstop>` card"
    );
    assert_eq!(
        SetupError::NoAcCard.message(),
        "AC analysis requires an `.ac dec <points-per-decade> <fstart> <fstop>` card"
    );
    n.tran = Some((r(1e-5), r(5e-3)));
    assert_eq!(transient_window(&n), Ok((r(1e-5), r(5e-3))));
    for (card, kind) in [
        (AcSweepKindCard::Dec, AcSweepKind::Dec),
        (AcSweepKindCard::Oct, AcSweepKind::Oct),
        (AcSweepKindCard::Lin, AcSweepKind::Lin),
    ] {
        n.ac = Some(AcCard { kind: card, points: 7, fstart: r(2.0), fstop: r(3.0) });
        let s = ac_sweep(&n).unwrap();
        assert_eq!((s.fstart, s.fstop, s.points, s.kind), (r(2.0), r(3.0), 7, kind));
    }
    let s = noise_sweep(noise_deck("mid", "V1").noise.as_ref().unwrap());
    assert_eq!((s.fstart, s.fstop, s.points, s.kind), (r(1.0), r(1e3), 5, AcSweepKind::Dec));
    assert_eq!(plot_line(Run::Transient, "a.svg"), "[va-cli] wrote transient plot to a.svg");
    assert_eq!(plot_line(Run::Ac, "a.svg"), "[va-cli] wrote AC plot to a.svg");
    assert_eq!(plot_line(Run::Noise, "a.svg"), "[va-cli] wrote noise plot to a.svg");
    assert_eq!(plot_line(Run::Sweep, "a.svg"), "[va-cli] wrote sweep plot to a.svg");
}

#[test]
fn a_noise_card_names_a_net_and_a_source() {
    let n = noise_deck("mid", "V1");
    assert_eq!(noise_output(&n), Ok(1));
    let currents = vec![("V1".to_string(), 2)];
    assert_eq!(noise_input(&n.devices, n.noise.as_ref().unwrap(), &currents), Ok(2));

    assert_eq!(noise_output(&divider()), Err(SetupError::NoNoiseCard));
    assert!(SetupError::NoNoiseCard.message().starts_with("noise analysis requires a `.noise"));
    let e = noise_output(&noise_deck("nowhere", "V1")).unwrap_err();
    assert_eq!(
        e.message(),
        "`.noise` probes V(nowhere), which is not a net in this circuit (nets: in, mid)"
    );
    let card = noise_deck("mid", "V7").noise.unwrap();
    let e = noise_input(&n.devices, &card, &currents).unwrap_err();
    assert_eq!(
        e.message(),
        "`.noise` names `V7` as its input source, which is not a voltage source in this circuit \
         (sources: V1)"
    );
    let e = noise_input(&vec![], &card, &vec![]).unwrap_err();
    assert!(e.message().ends_with("(sources: none)"), "{}", e.message());
    let devices = vec![
        device("L1", "inductor", &[0, 1], Some(1e-3)),
        device("V2", "vsource", &[0, GROUND], Some(1.0)),
    ];
    let currents = vec![("L1".to_string(), 2), ("V2".to_string(), 3)];
    let card = noise_deck("mid", "L1").noise.unwrap();
    let e = noise_input(&devices, &card, &currents).unwrap_err();
    assert_eq!(
        e.message(),
        "`.noise` names `L1` as its input source, which is not a voltage source in this circuit \
         (sources: V2)"
    );
    assert!(SetupError::Silent.message().starts_with("no device in this circuit"));
}

#[test]
fn contributors_are_named_by_their_place() {
    let n = divider();
    let entries = vec![(1usize, vec![r(1.0), r(2.0)]), (7, vec![r(3.0)]), (2, vec![])];
    assert_eq!(
        noise_contributors(&n, &entries),
        vec![
            ("R1".to_string(), vec![r(1.0), r(2.0)]),
            ("R2".to_string(), vec![]),
        ]
    );
}
