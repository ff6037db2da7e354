use va_sim::chart::{plan_chart, ChartKind};
use va_sim::netlist::{AnalysisCard, Device, Netlist, NoiseCard, GROUND};
use va_sim::number::Real;
use va_sim::quantity::{
    bracket_unit, name_non_finite_row, select_quantities, Notation, Quantity,
};
use va_sim::report::{
    ac_heading, ac_line, loudest_first, noise_units, report, report_noise, sweep_heading,
    sweep_line, transient_heading, transient_line, NoiseReport, NoiseRow, NoiseShare,
};

fn r(x: f64) -> Real {
    Real::from_bits(x.to_bits())
}

fn f(x: Real) -> f64 {
    f64::from_bits(x.bits)
}

fn spell(n: Notation, x: Real) -> String {
    match n {
        Notation::Fixed => format!("{:.6}", f(x)),
        Notation::Scientific => format!("{:.6e}", f(x)),
    }
}

fn render(q: &Quantity, x: f64) -> String {
    q.render(&spell(q.notation(r(x)), r(x)))
}

fn quantity(label: &str, unit: &str, index: usize, name: &str, is_potential: bool) -> Quantity {
    Quantity {
        label: label.to_string(),
        unit: unit.to_string(),
        index,
        name: name.to_string(),
        is_potential,
    }
}

fn divider() -> Vec<Quantity> {
    vec![
        quantity("V(in)", "V", 0, "in", true),
        quantity("V(mid)", "V", 1, "mid", true),
        quantity("I(V1)", "A", 2, "V1", false),
    ]
}

fn words(w: &[&str]) -> Vec<String> {
    w.iter().map(|s| s.to_string()).collect()
}

#[test]
fn a_small_potential_is_printed_in_scientific_notation() {
    let q = |label: &str, unit: &str, is_potential: bool| {
        quantity(label, unit, 0, label, is_potential)
    };
    assert_eq!(render(&q("V(in)", "V", true), 0.5), "V(in) = 0.500000 V");
    assert_eq!(render(&q("V(in)", "V", true), 0.0), "V(in) = 0.000000 V");
    assert_eq!(render(&q("V(in)", "V", true), -1e-3), "V(in) = -0.001000 V");
    assert_eq!(render(&q("Wl(wl)", "m", true), 1.5505e-6), "Wl(wl) = 1.550500e-6 m");
    assert_eq!(render(&q("Popt(drop)", "W", true), -3e-6), "Popt(drop) = -3.000000e-6 W");
    assert_eq!(render(&q("I(V1)", "A", false), 0.5), "I(V1) = 5.000000e-1 A");
    assert_eq!(render(&q("X1.b0", "", false), 0.5), "X1.b0 = 5.000000e-1");
    assert_eq!(q("V(in)", "V", true).notation(r(f64::NAN)), Notation::Scientific);
    assert_eq!(q("V(in)", "V", true).notation(r(-0.0)), Notation::Fixed);
    assert_eq!(q("V(in)", "V", true).notation(r(f64::INFINITY)), Notation::Fixed);
}

#[test]
fn compound_units_are_bracketed_before_taking_an_exponent() {
    assert_eq!(bracket_unit("V"), "V");
    assert_eq!(bracket_unit("K"), "K");
    assert_eq!(bracket_unit("rads/s"), "(rads/s)");
    assert_eq!(bracket_unit("N-m"), "(N-m)");
    assert_eq!(bracket_unit(""), "");
}

#[test]
fn narrowing_a_narrowed_list_changes_nothing() {
    let all = divider();
    let selectors = words(&["V1", "V(mid)", "in"]);
    let once = select_quantities(&all, &selectors).unwrap();
    assert_eq!(once.len(), 3);
    assert_eq!(select_quantities(&once, &selectors).unwrap(), once);
}

#[test]
fn select_quantities_matches_by_name_or_label_and_rejects_typos() {
    let all = divider();
    assert_eq!(select_quantities(&all, &vec![]).unwrap(), all);
    let by_name = select_quantities(&all, &words(&["mid"])).unwrap();
    assert_eq!(by_name.len(), 1);
    assert_eq!(by_name[0].label, "V(mid)");
    let by_label = select_quantities(&all, &words(&["V(mid)"])).unwrap();
    assert_eq!(by_label, by_name);
    let dup = select_quantities(&all, &words(&["MID", "mid"])).unwrap();
    assert_eq!(dup, by_name);
    let err = select_quantities(&all, &words(&["midd"])).expect_err("typo must error");
    assert!(err.message().contains("midd"), "{}", err.message());
    assert_eq!(
        err.message(),
        "--report names `midd`, which this circuit does not compute (it has: I(V1), V(in), V(mid))"
    );
    let spaced = select_quantities(&all, &words(&[" v(IN)\t", "V1"])).unwrap();
    assert_eq!(spaced, vec![all[0].clone(), all[2].clone()]);
    // A unit sign outside ASCII keeps its case.
    let omega = vec![quantity("Ω(x)", "", 0, "Ωx", true)];
    assert!(select_quantities(&omega, &words(&["ωx"])).is_err());
    assert_eq!(select_quantities(&omega, &words(&["ΩX"])).unwrap(), omega);
}

#[test]
fn a_non_finite_row_is_named() {
    assert_eq!(
        name_non_finite_row(1, &divider()),
        "the non-finite value is in the equation of `V(mid)` (unknown #1); look at the device(s) \
         contributing to it"
    );
    assert_eq!(
        name_non_finite_row(42, &divider()),
        "the non-finite value is in the equation of unknown #42, which no reported quantity names"
    );
}

#[test]
fn reports_write_each_quantity_at_its_place() {
    let x = vec![r(1.0), r(0.5), r(-5e-4)];
    assert_eq!(
        report(&divider(), &x, &spell),
        words(&[
            "DC operating point:",
            "  V(in) = 1.000000 V",
            "  V(mid) = 0.500000 V",
            "  I(V1) = -5.000000e-4 A",
        ])
    );
    assert_eq!(
        report(&divider(), &vec![r(1.0)], &spell),
        words(&["DC operating point:", "  V(in) = 1.000000 V"])
    );
    assert_eq!(
        sweep_heading("V1", "0", "1", "0.5", 3),
        "DC sweep V1 from 0 to 1 step 0.5 (3 points):"
    );
    assert_eq!(
        sweep_line("V1", "1.000000", &divider(), &x, &spell),
        "  V1=1.000000: V(in)=1.000000 V V(mid)=0.500000 V I(V1)=-5.000000e-4 A"
    );
    assert_eq!(transient_heading(718, "5e-3"), "Transient analysis (718 points, t=0 to t=5e-3s):");
    assert_eq!(
        transient_line("0.000000e0", &divider(), &vec![r(0.0); 3], &spell),
        "  t=0.000000e0s  V(in)=0.000000 V  V(mid)=0.000000 V  I(V1)=0.000000e0 A"
    );
    assert_eq!(ac_heading(2, "1e0", "1e1"), "AC analysis (2 point(s), f=1e0 to 1e1 Hz):");
    let polar = |z: (Real, Real)| {
        let (re, im) = (f(z.0), f(z.1));
        (
            format!("{:.6e}", (re * re + im * im).sqrt()),
            format!("{:.2}", im.atan2(re).to_degrees()),
        )
    };
    assert_eq!(
        ac_line("1.000000e0", &divider(), &vec![(r(0.0), r(-2.0)), (r(1.0), r(0.0))], &polar),
        "  f=1.000000e0Hz  V(in)=2.000000e0 V∠-90.00°  V(mid)=1.000000e0 V∠0.00°"
    );
}

fn noise_net(source_terminal: usize) -> Netlist {
    Netlist {
        devices: vec![Device {
            name: "V1".to_string(),
            model: "vsource".to_string(),
            terminals: vec![source_terminal, GROUND],
            value: None,
            params: vec![],
            controls: vec![],
            waveform: None,
            ac: None,
            ic: None,
        }],
        node_order: words(&["in", "shaft"]),
        nodes: vec![],
        analysis: AnalysisCard::Noise,
        tran: None,
        dc: None,
        ac: None,
        noise: Some(NoiseCard {
            output: "shaft".to_string(),
            source: "V1".to_string(),
            points_per_decade: 1,
            fstart: r(1.0),
            fstop: r(10.0),
        }),
    }
}

#[test]
fn noise_is_reported_in_the_units_of_its_output() {
    let qs = vec![
        quantity("V(in)", "V", 0, "in", true),
        quantity("Omega(shaft)", "rads/s", 1, "shaft", true),
    ];
    let u = noise_units(&noise_net(0), &qs);
    assert_eq!(u.output, "Omega(shaft)");
    assert_eq!(u.unit, "(rads/s)");
    assert_eq!(u.source_unit, "V");
    assert_eq!(u.source, "V1");
    let lines = report_noise(
        &u,
        &NoiseReport {
            first: "1e0".to_string(),
            last: "1e1".to_string(),
            rows: vec![
                NoiseRow {
                    frequency: "1.000000e0".to_string(),
                    power: "2.000000e-18".to_string(),
                    amplitude: "1.414214e-9".to_string(),
                    input: Some("4.000000e-18".to_string()),
                },
                NoiseRow {
                    frequency: "1.000000e1".to_string(),
                    power: "1.000000e-18".to_string(),
                    amplitude: "1.000000e-9".to_string(),
                    input: None,
                },
            ],
            total: "3.000000e-9".to_string(),
            input_total: Some("5.000000e-9".to_string()),
            shares: vec![NoiseShare {
                name: "R1".to_string(),
                rms: "3.000000e-9".to_string(),
                percent: "100.0".to_string(),
            }],
        },
    );
    assert_eq!(
        lines,
        words(&[
            "Noise analysis at Omega(shaft) (2 point(s), f=1e0 to 1e1 Hz):",
            "  f=1.000000e0Hz  S=2.000000e-18 (rads/s)^2/Hz  (1.414214e-9 (rads/s)/sqrt(Hz))  \
             Sin=4.000000e-18 V^2/Hz",
            "  f=1.000000e1Hz  S=1.000000e-18 (rads/s)^2/Hz  (1.000000e-9 (rads/s)/sqrt(Hz))",
            "  total integrated output noise = 3.000000e-9 (rads/s) rms",
            "  total integrated input-referred noise (at V1) = 5.000000e-9 V rms",
            "  per-device contribution to the integrated output noise:",
            "    R1       3.000000e-9 (rads/s) rms  (100.0%)",
        ])
    );
    // A source at ground has no potential to take a unit from.
    assert_eq!(noise_units(&noise_net(GROUND), &qs).source_unit, "(rads/s)");
    let none = noise_units(&noise_net(0), &vec![]);
    assert_eq!(none.output, "V(shaft)");
    assert_eq!(none.unit, "V");
}

#[test]
fn devices_are_listed_loudest_first() {
    let powers = vec![r(1.0), r(3.0), r(1.0), r(0.0), r(3.0)];
    assert_eq!(loudest_first(&powers), vec![1, 4, 0, 2, 3]);
    assert_eq!(loudest_first(&vec![]), Vec::<usize>::new());
}

#[test]
fn empty_waveform_is_an_error_not_a_panic() {
    let e = plan_chart(&ChartKind::Transient, &divider(), 2, &vec![], &vec![]).unwrap_err();
    assert_eq!(e, "waveform has no points to plot");
}

#[test]
fn empty_sweep_is_an_error_not_a_panic() {
    let kind = ChartKind::Sweep { source: "V1".to_string() };
    let e = plan_chart(&kind, &divider(), 2, &vec![], &vec![]).unwrap_err();
    assert_eq!(e, "sweep has no points to plot");
}

#[test]
fn a_chart_shows_the_nets_of_a_run() {
    let t = vec![r(0.0), r(1e-3), r(2e-3)];
    let rows = vec![
        vec![r(5.0), r(0.0), r(0.0)],
        vec![r(5.0), r(3.16), r(-0.5)],
        vec![r(5.0), r(f64::NAN), r(-0.2)],
    ];
    let chart = plan_chart(&ChartKind::Transient, &divider(), 2, &t, &rows).unwrap();
    assert_eq!(chart.caption, "Transient analysis");
    assert_eq!(chart.x_label, "Time (s)");
    assert_eq!(chart.y_label, "Voltage (V)");
    assert_eq!(chart.x_range, (r(0.0), r(2e-3)));
    assert_eq!(chart.y_range, (r(0.0), r(5.0)));
    assert!(!chart.widen_x && !chart.widen_y);
    assert_eq!(chart.curves.len(), 2, "currents are not drawn");
    assert_eq!(chart.curves[1].label, "V(mid)");
    assert_eq!(chart.curves[1].color, 1);
    assert_eq!(chart.curves[1].points[1], (r(1e-3), r(3.16)));

    let kind = ChartKind::Sweep { source: "V1".to_string() };
    let flat = plan_chart(&kind, &divider(), 2, &vec![r(1.0)], &vec![vec![r(2.0), r(2.0)]]).unwrap();
    assert_eq!(flat.x_label, "V1 (V)");
    assert!(flat.widen_x && flat.widen_y);
    let many: Vec<Quantity> = (0..8).map(|i| quantity("V(n)", "V", i, "n", true)).collect();
    let c = plan_chart(&kind, &many, 8, &vec![r(0.0)], &vec![vec![r(0.0); 8]]).unwrap();
    assert_eq!(c.curves[7].color, 1);
    let some = vec![quantity("V(n)", "V", 4, "n", true)];
    let c = plan_chart(&kind, &some, 8, &vec![r(0.0)], &vec![vec![r(0.0); 8]]).unwrap();
    assert_eq!(c.curves[0].color, 4, "a net keeps its colour whatever else is drawn");
}

#[test]
fn a_response_is_drawn_over_frequency() {
    let f = vec![r(1.0), r(10.0)];
    let rows = vec![vec![r(0.0), r(-3.0), r(-60.0)], vec![r(-1.0), r(-20.0), r(-80.0)]];
    for (kind, caption, y_label) in [
        (ChartKind::Magnitude, "AC analysis", "Magnitude (dB)"),
        (ChartKind::Phase, "AC analysis", "Phase (deg)"),
        (ChartKind::Noise, "Noise analysis", "Noise density (dB)"),
    ] {
        let c = plan_chart(&kind, &divider(), 3, &f, &rows).unwrap();
        assert_eq!((c.caption.as_str(), c.y_label.as_str()), (caption, y_label));
        assert_eq!(c.x_label, "Frequency (Hz)");
        assert!(c.log_x && !c.widen_x);
        assert_eq!(c.curves.len(), 3, "every shown quantity is drawn");
        assert_eq!(c.y_range, (r(-80.0), r(0.0)));
        assert!(plan_chart(&kind, &divider(), 3, &f[..1].to_vec(), &rows[..1].to_vec())
            .unwrap()
            .widen_x);
        let e = plan_chart(&kind, &divider(), 3, &vec![], &vec![]).unwrap_err();
        assert_eq!(e, "sweep has no points to plot");
    }
    let flat = plan_chart(&ChartKind::Transient, &divider(), 3, &f, &rows).unwrap();
    assert!(!flat.log_x);
}
