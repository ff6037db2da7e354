use va_sim::args::Analysis;
use va_sim::device::Part;
use va_sim::estimate::{
    bracket, dense_table, ladder_table, mesh_table, solver_line, time_range, Cost, Points, Sizing,
    Solver, TimeUnit, SPARSE_THRESHOLD,
};
use va_sim::number::Real;
use va_sim::sizes::bytes;

fn r(x: f64) -> Real {
    Real::from_bits(x.to_bits())
}

fn f(x: Real) -> f64 {
    f64::from_bits(x.bits)
}

fn ms(micros: u64) -> f64 {
    micros as f64 / 1e3
}

// The two ends of a cost, in milliseconds.
fn ends(c: Cost) -> (f64, f64) {
    match c {
        Cost::Between { low, high } => (ms(low), ms(high)),
        Cost::Scaled { cost, dim, of, low, high } => {
            let ratio = dim as f64 / of as f64;
            (
                ms(cost) * ratio.powf(low as f64),
                ms(cost) * ratio.powf(high as f64),
            )
        }
    }
}

fn range(pair: (Cost, Cost)) -> (f64, f64) {
    let lo = ends(pair.0).0;
    let hi = ends(pair.1).1;
    (lo.min(hi), hi.max(lo))
}

fn seconds(s: &Sizing) -> (f64, f64) {
    let (lo, hi) = s.seconds(&end, &evaluate, &count, &plus, &total);
    assert_eq!(seconds_with(s, Solver::Auto), (f(lo), f(hi)));
    (f(lo), f(hi))
}

fn seconds_with(s: &Sizing, solver: Solver) -> (f64, f64) {
    let (lo, hi) = s.seconds_with(solver, &end, &evaluate, &count, &plus, &total);
    (f(lo), f(hi))
}

fn end(c: Cost, upper: bool) -> Real {
    r(if upper { ends(c).1 } else { ends(c).0 })
}

fn evaluate(micros: u64, n: usize) -> Real {
    r(ms(micros) * n as f64)
}

fn count(n: usize, tenths: u64) -> Real {
    r(n as f64 * (tenths as f64 / 10.0))
}

fn plus(a: Real, b: Real) -> Real {
    r(f(a) + f(b))
}

fn total(each: Real, points: Real, start: Real) -> Real {
    r((f(each) * f(points) + f(start)) / 1e3)
}

fn sparse_bracket(dim: usize, analysis: Analysis) -> (f64, f64) {
    let s = sizing(analysis, dim, Points::Exact(1));
    range(s.cost_with(Solver::Sparse).solve)
}

fn sizing(analysis: Analysis, unknowns: usize, points: Points) -> Sizing {
    Sizing {
        analysis,
        devices: 3,
        compiled: 0,
        nonlinear_primitives: 0,
        nodes: unknowns.saturating_sub(1),
        unknowns,
        points,
    }
}

fn spell_range(lo: f64, hi: f64) -> String {
    let unit = TimeUnit::of(r(hi));
    let scale = match unit {
        TimeUnit::Microseconds => 1e-6,
        TimeUnit::Milliseconds => 1e-3,
        TimeUnit::Seconds => 1.0,
        TimeUnit::Minutes => 60.0,
        TimeUnit::Hours => 3600.0,
    };
    let (l, h) = (lo / scale, hi / scale);
    time_range(
        r(l),
        r(hi),
        &|digits: usize| format!("{l:.digits$}"),
        &|digits: usize| format!("{h:.digits$}"),
    )
}

#[test]
fn a_larger_circuit_never_costs_less() {
    let table = dense_table(Analysis::Transient);
    let mut before = (0.0, 0.0);
    for dim in 1..1000 {
        let (lo, hi) = ends(bracket(dim, &table));
        assert!(before.0 <= lo && before.1 <= hi, "{dim}");
        before = (lo, hi);
    }
}

#[test]
fn bracket_between_measured_rows_is_those_rows() {
    let c = bracket(300, &dense_table(Analysis::Transient));
    assert_eq!(c, Cost::Between { low: 3319, high: 14242 });
    assert_eq!(ends(c), (3.319, 14.242));
}

#[test]
fn bracket_at_a_measured_size_uses_that_row_as_the_upper_end() {
    assert_eq!(ends(bracket(202, &dense_table(Analysis::Transient))), (1.39, 3.319));
}

#[test]
fn bracket_beyond_the_table_is_the_exponent_two_and_three_scalings() {
    let (lo, hi) = ends(bracket(1604, &dense_table(Analysis::Transient)));
    assert!((lo - 52.335 * 4.0).abs() < 1e-6, "exponent 2 at 2x: {lo}");
    assert!((hi - 52.335 * 8.0).abs() < 1e-6, "exponent 3 at 2x: {hi}");
    let measured_ratio = 52.335 / 14.242;
    assert!(measured_ratio < 4.0);
}

#[test]
fn bracket_below_the_table_shrinks_and_stays_ordered() {
    let (lo, hi) = ends(bracket(6, &dense_table(Analysis::Transient)));
    assert!(lo < hi, "{lo} < {hi}");
    assert!(hi <= 0.01, "below the first measured row: {hi}");
}

#[test]
fn a_transient_estimate_scales_with_points_and_widens_for_adaptive_stepping() {
    let s = sizing(Analysis::Transient, 300, Points::Adaptive(1000));
    let (lo, hi) = seconds(&s);
    assert!((lo - 3.319 * 1000.0 / 1e3).abs() < 1e-9, "{lo}");
    assert!((hi - 14.242 * 1500.0 / 1e3).abs() < 1e-9, "{hi}");
}

#[test]
fn an_ac_estimate_includes_the_operating_point_solve_a_transient_does_not() {
    let ac = seconds(&sizing(Analysis::Ac, 300, Points::Exact(10)));
    let table = dense_table(Analysis::Ac);
    let grid = (ms(table[4].1) * 10.0 / 1e3, ms(table[5].1) * 10.0 / 1e3);
    assert!(ac.0 > grid.0, "AC low end {} > grid alone {}", ac.0, grid.0);
    assert!(ac.1 > grid.1, "AC high end {} > grid alone {}", ac.1, grid.1);
}

#[test]
fn matrix_memory_is_three_dense_copies_and_doubles_for_a_complex_sweep() {
    let dc = sizing(Analysis::Dc, 100, Points::Exact(1)).matrix_bytes();
    let ac = sizing(Analysis::Ac, 100, Points::Exact(1)).matrix_bytes();
    assert_eq!(dc, 3 * 8 * 100 * 100);
    assert_eq!(ac, 2 * dc);
}

#[test]
fn the_preflight_lines_state_the_size_and_say_the_cost_is_rough() {
    let s = Sizing {
        analysis: Analysis::Transient,
        devices: 4,
        compiled: 1,
        nonlinear_primitives: 0,
        nodes: 3,
        unknowns: 5,
        points: Points::Adaptive(500),
    };
    assert_eq!(s.auxiliary(), 2);
    let (lo, hi) = seconds(&s);
    let (what, cost) = s.lines_with(Solver::Auto, &spell_range(lo, hi));
    assert!(what.contains("4 device(s)"), "{what}");
    assert!(what.contains("5 unknown(s)"), "{what}");
    assert!(what.contains("3 net(s) + 2 auxiliary row(s)"), "{what}");
    assert!(what.contains("~500 points"), "{what}");
    assert!(cost.contains("rough"), "{cost}");
    assert!(cost.contains("i7-1185G7"), "{cost}");
}

#[test]
fn the_rectifier_is_quoted_as_documented() {
    let s = Sizing {
        analysis: Analysis::Transient,
        devices: 4,
        compiled: 1,
        nonlinear_primitives: 0,
        nodes: 2,
        unknowns: 3,
        points: Points::Adaptive(502),
    };
    let (lo, hi) = seconds(&s);
    let (what, cost) = s.lines_with(Solver::Auto, &spell_range(lo, hi));
    assert_eq!(
        what,
        "[va-cli] circuit: 4 device(s) (1 compiled), 3 unknown(s) (2 net(s) + 1 auxiliary row(s)), \
         ~502 points (adaptive, 502 is the card's floor)"
    );
    assert_eq!(
        cost,
        "[va-cli] estimate: 3.1-151.1 ms of solve, 216 B of matrix — rough, dense LU scaled from \
         bench-scale on an i7-1185G7"
    );
}

#[test]
fn a_run_is_sized_by_its_parts() {
    let parts = vec![
        Part::VoltageSource { p: 0, n: 1, branch: 3, value: r(1.0) },
        Part::Diode { p: 0, n: 1, saturation: r(1e-14), ideality: r(1.0), thermal: r(0.025) },
        Part::Resistor { p: 1, n: 2, resistance: r(1e3) },
        Part::Transistor {
            b: 0,
            c: 1,
            e: 2,
            saturation: r(1e-15),
            forward_gain: r(100.0),
            reverse_gain: r(1.0),
            thermal: r(0.025),
        },
    ];
    let s = va_sim::estimate::sizing(Analysis::Dc, &parts, 3, 4, Points::Exact(1));
    assert_eq!((s.devices, s.compiled, s.nonlinear_primitives), (4, 0, 2));
    assert_eq!((s.nodes, s.unknowns, s.points), (3, 4, Points::Exact(1)));
    assert_eq!(s.auxiliary(), 1);
}

#[test]
fn an_operating_point_is_one_solve() {
    let s = sizing(Analysis::Dc, 300, Points::Exact(1));
    let (lo, hi) = seconds(&s);
    let table = dense_table(Analysis::Dc);
    assert!((lo - ms(table[4].1) / 1e3).abs() < 1e-9, "{lo}");
    assert!((hi - ms(table[5].1) / 1e3).abs() < 1e-9, "{hi}");
    let (what, _) = s.lines_with(Solver::Auto, "");
    assert!(what.contains("1 point"), "{what}");
}

#[test]
fn a_wide_range_keeps_significant_digits_at_its_low_end() {
    let text = spell_range(0.003, 0.15);
    assert!(text.starts_with("3.0-"), "{text}");
    let tiny = spell_range(0.00004, 0.15);
    assert!(tiny.starts_with("0.04-"), "{tiny}");
    assert!(text.ends_with("ms"), "{text}");
    assert!(!text.starts_with("0.0"), "{text}");
    assert_eq!(spell_range(1e-7, 5e-4), "0.10-500.00 us".replace("0.10-500.00", "0.1-500.0"));
    assert_eq!(spell_range(1e-6, 0.15), "0.001-150.000 ms");
    assert_eq!(spell_range(4e-8, 0.15), "0.00004-150.00000 ms");
    assert_eq!(spell_range(0.0, 0.15), "0.00-150.00 ms");
    assert_eq!(spell_range(11.0, 50.0), "11-50 s");
    assert_eq!(spell_range(60.0, 600.0), "1.0-10.0 min");
    assert_eq!(spell_range(3600.0, 7200.0), "1.0-2.0 h");
}

#[test]
fn model_evaluation_dominates_a_small_circuit_and_scales_with_compiled_instances() {
    let bare = sizing(Analysis::Transient, 5, Points::Adaptive(500));
    let with_models = Sizing { compiled: 4, ..bare };
    let (solve_only_lo, solve_only_hi) = seconds(&bare);
    let (lo, hi) = seconds(&with_models);
    assert!(lo > solve_only_lo * 10.0, "{lo} vs {solve_only_lo}");
    assert!(hi > solve_only_hi * 10.0, "{hi} vs {solve_only_hi}");
    let one = Sizing { compiled: 1, ..bare };
    let (one_lo, _) = seconds(&one);
    let ratio = (lo - solve_only_lo) / (one_lo - solve_only_lo);
    assert!((ratio - 4.0).abs() < 1e-6, "four instances cost 4x one: {ratio}");
}

#[test]
fn the_bracket_contains_every_measured_deck() {
    let decks = [
        ("rectifier", 3usize, 1usize, 0usize, 502usize, 0.116),
        ("ring_osc", 8, 0, 3, 2001, 0.192),
        ("microring_thermal", 18, 4, 0, 2001, 0.446),
        ("motorway_ramp", 28, 8, 0, 12601, 5.196),
        ("actuator_plant", 5, 2, 0, 1001, 0.120),
    ];
    for (name, unknowns, compiled, nonlinear_primitives, points, measured) in decks {
        let s = Sizing {
            analysis: Analysis::Transient,
            devices: compiled + nonlinear_primitives + 1,
            compiled,
            nonlinear_primitives,
            nodes: unknowns - 1,
            unknowns,
            points: Points::Adaptive(points),
        };
        let (lo, hi) = seconds(&s);
        assert!(
            lo <= measured && measured <= hi,
            "{name}: measured {measured}s outside the estimated {lo}..{hi}s"
        );
    }
}

#[test]
fn every_calibration_table_is_monotone() {
    for (name, table) in [
        ("tran", dense_table(Analysis::Transient)),
        ("dc", dense_table(Analysis::Dc)),
        ("ac", dense_table(Analysis::Ac)),
        ("noise", dense_table(Analysis::Noise)),
        ("sparse tran ladder", ladder_table(Analysis::Transient)),
        ("sparse tran mesh", mesh_table(Analysis::Transient)),
        ("sparse dc ladder", ladder_table(Analysis::Dc)),
        ("sparse dc mesh", mesh_table(Analysis::Dc)),
        ("sparse ac ladder", ladder_table(Analysis::Ac)),
        ("sparse ac mesh", mesh_table(Analysis::Ac)),
        ("sparse noise ladder", ladder_table(Analysis::Noise)),
        ("sparse noise mesh", mesh_table(Analysis::Noise)),
    ] {
        for pair in table.windows(2) {
            assert!(pair[0].0 < pair[1].0, "{name}: dim must ascend");
            assert!(pair[0].1 <= pair[1].1, "{name}: cost must not decrease");
        }
    }
}

#[test]
fn the_sparse_bracket_is_ordered_and_spans_ladder_to_mesh() {
    for analysis in [
        Analysis::Transient,
        Analysis::Dc,
        Analysis::Ac,
        Analysis::Noise,
    ] {
        for dim in [
            1, 5, 11, 12, 30, 300, 500, 1000, 5000, 6402, 20_000, 100_000,
        ] {
            let (lo, hi) = sparse_bracket(dim, analysis);
            assert!(lo > 0.0 && lo <= hi, "dim {dim}: {lo}..{hi}");
        }
    }
    let (lo, hi) = sparse_bracket(1000, Analysis::Transient);
    assert_eq!((lo, hi), (0.602, 6.361));
    let (lo, hi) = sparse_bracket(12_804, Analysis::Transient);
    assert!((lo - 4.173 * 2.0).abs() < 1e-9, "{lo}");
    assert!((hi - 36.798 * 4.0).abs() < 1e-9, "{hi}");
}

#[test]
fn the_estimate_is_calibrated_on_the_path_the_run_takes() {
    let s = sizing(Analysis::Transient, 300, Points::Exact(1000));
    assert_eq!(seconds(&s), seconds_with(&s, Solver::Dense));
    let (dense_lo, _) = seconds_with(&s, Solver::Dense);
    let (_, sparse_hi) = seconds_with(&s, Solver::Sparse);
    assert!(sparse_hi < dense_lo, "sparse {sparse_hi} vs dense {dense_lo}");
    assert!((dense_lo - 3.319).abs() < 1e-9, "{dense_lo}");
    assert!((sparse_hi - 1.326).abs() < 1e-9, "{sparse_hi}");
    let big = sizing(Analysis::Transient, SPARSE_THRESHOLD, Points::Exact(1));
    assert_eq!(seconds(&big), seconds_with(&big, Solver::Sparse));
    let (_, dense_cost) = s.lines_with(Solver::Dense, "1-2 s");
    assert!(dense_cost.contains("dense LU"), "{dense_cost}");
    assert!(dense_cost.contains("of matrix"), "{dense_cost}");
    let (_, sparse_cost) = s.lines_with(Solver::Sparse, "1-2 s");
    assert!(sparse_cost.contains("sparse LU"), "{sparse_cost}");
    assert!(!sparse_cost.contains("of matrix"), "{sparse_cost}");
}

#[test]
fn the_sparse_bracket_contains_both_calibration_circuits() {
    for (dim, ladder, mesh) in [
        (102, 0.061, 0.114),
        (402, 0.217, 0.769),
        (1602, 0.893, 5.339),
    ] {
        let (lo, hi) = sparse_bracket(dim, Analysis::Transient);
        assert!(lo <= ladder && mesh <= hi, "dim {dim}: {lo}..{hi} vs {ladder}, {mesh}");
    }
}

#[test]
fn solver_line_names_the_solver_the_reason_and_the_scope() {
    let dense = solver_line(Solver::Auto, 499);
    assert!(dense.contains("dense LU (499 < 500 unknowns)"), "{dense}");
    let auto = solver_line(Solver::Auto, 500);
    assert!(auto.contains("sparse LU (500 >= 500 unknowns)"), "{auto}");
    assert!(auto.contains("whole run"), "{auto}");
    let forced = solver_line(Solver::Sparse, 12);
    assert!(forced.contains("--solver sparse"), "{forced}");
    assert!(forced.contains("whole run"), "{forced}");
    let ac = solver_line(Solver::Sparse, 12);
    assert!(ac.contains("whole run"), "{ac}");
    let kept = solver_line(Solver::Dense, 10_000);
    assert!(kept.contains("dense LU (--solver dense)"), "{kept}");
}

fn bytes_as_floats(n: u64) -> String {
    let n = n as f64;
    let (kilo, mega) = (format!("{:.1}", n / 1e3), format!("{:.1}", n / 1e6));
    if n < 1e3 {
        format!("{n:.0} B")
    } else if kilo.len() < 6 {
        format!("{kilo} kB")
    } else if mega.len() < 6 {
        format!("{mega} MB")
    } else {
        format!("{:.2} GB", n / 1e9)
    }
}

#[test]
fn bytes_are_spelled_as_floats_are() {
    assert_eq!(bytes(0), "0 B");
    assert_eq!(bytes(216), "216 B");
    assert_eq!(bytes(999), "999 B");
    assert_eq!(bytes(1000), "1.0 kB");
    assert_eq!(bytes(1050), "1.1 kB");
    assert_eq!(bytes(1150), "1.1 kB");
    assert_eq!(bytes(1250), "1.2 kB");
    assert_eq!(bytes(1750), "1.8 kB");
    assert_eq!(bytes(999_949), "999.9 kB");
    assert_eq!(bytes(999_999), "1.0 MB");
    assert_eq!(bytes(999_999_999), "1.00 GB");
    assert_eq!(bytes(15_361_536), "15.4 MB");
    assert_eq!(bytes(2_000_000_000), "2.00 GB");
    let mut n: u64 = 1;
    for step in 0..4000u64 {
        n = n.wrapping_mul(6364136223846793005).wrapping_add(1442695040888963407 + step);
        for shift in [0, 11, 20, 30, 40, 44, 50, 54] {
            let m = n >> shift;
            assert_eq!(bytes(m), bytes_as_floats(m), "{m}");
        }
    }
    for n in (1000..200_000).step_by(50) {
        assert_eq!(bytes(n), bytes_as_floats(n), "{n}");
    }
    for n in (999_900..1_000_100).chain(999_940_000..999_960_000) {
        assert_eq!(bytes(n), bytes_as_floats(n), "{n}");
    }
    for n in [u64::MAX, u64::MAX - 1, 1 << 53, (1 << 53) + 1, (1 << 60) + 3] {
        assert_eq!(bytes(n), bytes_as_floats(n), "{n}");
    }
}
