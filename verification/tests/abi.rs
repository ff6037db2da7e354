use va_sim::analysis::{ac_contexts, AnalysisCtx, AnalysisKind, TEMP_NOMINAL};
use va_sim::events::{CrossDir, EventSink, RecordingEventSink};
use va_sim::multiplicity::{is_multiple, scale_source, scale_sources, scale_stamps};
use va_sim::netlist::GROUND;
use va_sim::noise::{
    read_table, CollectedNoise, Density, NoiseSink, NoiseSource, TableInterp,
};
use va_sim::number::Real;
use va_sim::reference::{
    at, clamp_coupling, Bjt, BjtPoint, Capacitor, Diode, Inductor, Mutual, Resistor, UnknownKind,
    VSource, Vccs, Vcvs,
};
use va_sim::stamps::{DenseStamp, Stamp};
use va_sim::state::ModelState;

const VT_NOMINAL: f64 = 1.380_649e-23 * 300.15 / 1.602_176_634e-19;
const BOLTZMANN: f64 = 1.380_649e-23;
const ELEMENTARY_CHARGE: f64 = 1.602_176_634e-19;

fn r(x: f64) -> Real {
    Real::from_bits(x.to_bits())
}

fn f(x: Real) -> f64 {
    f64::from_bits(x.bits)
}

fn add(a: Real, b: Real) -> Real {
    r(f(a) + f(b))
}

fn reals(xs: &[f64]) -> Vec<Real> {
    xs.iter().map(|x| r(*x)).collect()
}

fn floats(xs: &[Real]) -> Vec<f64> {
    xs.iter().map(|x| f(*x)).collect()
}

fn dense(dim: usize, stamps: &[Stamp]) -> DenseStamp {
    let mut sink = DenseStamp::new(dim);
    for s in stamps {
        sink.deposit(*s, &add);
    }
    sink
}

fn thermal(g: f64, temp: f64) -> f64 {
    4.0 * BOLTZMANN * temp * g
}

fn shot(i: f64) -> f64 {
    2.0 * ELEMENTARY_CHARGE * i.abs()
}

// The density that a reading of a source leaves to be computed.
fn psd(d: Density, freq: f64) -> f64 {
    match d {
        Density::Value(v) => f(v),
        Density::Flicker { coeff, exponent } => f(coeff) / freq.powf(f(exponent)),
        Density::OnLine { f1, p1, f2, p2 } => {
            f(p1) + (f(p2) - f(p1)) * (freq - f(f1)) / (f(f2) - f(f1))
        }
        Density::OnLogLine { f1, p1, f2, p2 } => {
            let (lf1, lf2, lf) = (f(f1).log10(), f(f2).log10(), freq.log10());
            let (lp1, lp2) = (f(p1).log10(), f(p2).log10());
            10f64.powf(lp1 + (lp2 - lp1) * (lf - lf1) / (lf2 - lf1))
        }
    }
}

fn psd_at(source: &NoiseSource, freq: f64) -> f64 {
    psd(source.density(r(freq)), freq)
}

fn points(ps: &[(f64, f64)]) -> Vec<(Real, Real)> {
    ps.iter().map(|(a, b)| (r(*a), r(*b))).collect()
}

fn table_psd_at(ps: &[(f64, f64)], interp: TableInterp, freq: f64) -> f64 {
    psd(read_table(&points(ps), interp, r(freq)), freq)
}

fn resistor_stamps(dev: &Resistor, x: &[f64]) -> Vec<Stamp> {
    let g = 1.0 / f(dev.resistance);
    let x = reals(x);
    let v = f(at(&x, dev.p)) - f(at(&x, dev.n));
    dev.load(r(g * v), r(g))
}

fn source_stamps(dev: &VSource, x: &[f64]) -> Vec<Stamp> {
    let x = reals(x);
    let mismatch = f(at(&x, dev.p)) - f(at(&x, dev.n)) - f(dev.value);
    dev.load(r(mismatch), &x)
}

fn inductor_stamps(dev: &Inductor, x: &[f64]) -> Vec<Stamp> {
    let x = reals(x);
    let voltage = f(at(&x, dev.p)) - f(at(&x, dev.n));
    let flux = f(dev.inductance) * f(at(&x, dev.branch));
    dev.load(r(voltage), r(flux), &x)
}

fn bjt_currents(q: &Bjt, vbe: f64, vbc: f64) -> (f64, f64) {
    let (is, bf, br, vt) = (
        f(q.saturation),
        f(q.forward_gain),
        f(q.reverse_gain),
        f(q.thermal),
    );
    let ibe = (is / bf) * ((vbe / vt).exp() - 1.0);
    let ibc = (is / br) * ((vbc / vt).exp() - 1.0);
    let icc = is * ((vbe / vt).exp() - (vbc / vt).exp());
    (ibe + ibc, icc - ibc)
}

fn bjt_stamps(q: &Bjt, x: &[f64]) -> Vec<Stamp> {
    let x = reals(x);
    let (vb, vc, ve) = (f(at(&x, q.b)), f(at(&x, q.c)), f(at(&x, q.e)));
    let (vbe, vbc) = (vb - ve, vb - vc);
    let (is, bf, br, vt) = (
        f(q.saturation),
        f(q.forward_gain),
        f(q.reverse_gain),
        f(q.thermal),
    );
    let (ib, ic) = bjt_currents(q, vbe, vbc);
    let gbe = (is / (bf * vt)) * (vbe / vt).exp();
    let gbc = (is / (br * vt)) * (vbc / vt).exp();
    let gf = (is / vt) * (vbe / vt).exp();
    let gr = (is / vt) * (vbc / vt).exp();
    q.load(BjtPoint {
        ib: r(ib),
        ic: r(ic),
        sum: r(ib + ic),
        gbe: r(gbe),
        gbc: r(gbc),
        gf: r(gf),
        gr: r(gr),
        base: r(gbe + gbc),
        transfer: r(gf - gr - gbc),
        collector: r(gr + gbc),
        emitter_base: r(gbe + gf - gr),
        emitter: r(gbe + gf),
    })
}

fn bjt() -> Bjt {
    Bjt::new(0, 1, 2, r(1e-15), r(100.0), r(1.0), r(VT_NOMINAL))
}

// ---- numbers ----

#[test]
fn numbers_compare_as_floats_do() {
    let samples = [
        0.0,
        -0.0,
        1.0,
        -1.0,
        1e-310,
        -1e-310,
        1e300,
        -1e300,
        f64::INFINITY,
        f64::NEG_INFINITY,
        f64::NAN,
        -f64::NAN,
    ];
    for a in samples {
        assert_eq!(r(a).is_nan(), a.is_nan());
        assert_eq!(r(a).is_finite(), a.is_finite());
        assert_eq!(r(a).is_positive_finite(), a.is_finite() && a > 0.0);
        assert_eq!(r(a).negated().bits, (-a).to_bits());
        for b in samples {
            assert_eq!(r(a).less(r(b)), a < b, "{a} < {b}");
            assert_eq!(r(a).at_most(r(b)), a <= b, "{a} <= {b}");
            assert_eq!(r(a).equals(r(b)), a == b, "{a} == {b}");
            assert_eq!(
                r(a).total_order_key() < r(b).total_order_key(),
                a.total_cmp(&b).is_lt(),
                "{a} before {b}"
            );
        }
    }
    assert_eq!(f(Real::one()), 1.0);
    assert_eq!(f(Real::zero()), 0.0);
}

// ---- analysis ----

#[test]
fn phase_names_map_to_exactly_one_analysis_each() {
    assert!(AnalysisKind::Dc.matches_phase("dc"));
    assert!(AnalysisKind::Dc.matches_phase("static"));
    assert!(!AnalysisKind::Dc.matches_phase("tran"));

    assert!(AnalysisKind::Transient.matches_phase("tran"));
    assert!(!AnalysisKind::Transient.matches_phase("dc"));
    assert!(!AnalysisKind::Transient.matches_phase("static"));

    assert!(AnalysisKind::Ac.matches_phase("ac"));
    assert!(AnalysisKind::Noise.matches_phase("noise"));
    assert!(!AnalysisKind::Ac.matches_phase("noise"));
}

#[test]
fn phases_this_simulator_has_no_equivalent_of_are_never_active() {
    for kind in [
        AnalysisKind::Dc,
        AnalysisKind::Transient,
        AnalysisKind::Ac,
        AnalysisKind::Noise,
    ] {
        assert!(!kind.matches_phase("ic"));
        assert!(!kind.matches_phase("nodeset"));
    }
}

#[test]
fn the_small_signal_constructors_carry_their_own_kind() {
    assert_eq!(AnalysisCtx::ac().kind, AnalysisKind::Ac);
    assert_eq!(AnalysisCtx::noise().kind, AnalysisKind::Noise);
    assert_eq!(f(AnalysisCtx::ac().time), 0.0);
    assert_eq!(f(AnalysisCtx::noise().time), 0.0);
    assert_eq!(f(AnalysisCtx::ac_at(r(1e3)).freq), 1e3);
    assert!(AnalysisCtx::ac().is_initial_step);
    assert!(!AnalysisCtx::transient(r(1.0)).is_initial_step);
}

#[test]
fn the_dc_constructor_carries_zero_time_and_the_nominal_temperature() {
    let dc = AnalysisCtx::dc();
    assert_eq!(dc.kind, AnalysisKind::Dc);
    assert_eq!(f(dc.time), 0.0);
    assert_eq!(dc.temp.bits, TEMP_NOMINAL);
    assert_eq!(f(dc.temp), 300.15);
    assert_eq!(f(AnalysisCtx::transient(r(2.5e-9)).time), 2.5e-9);
    assert_eq!(f(dc.with_temp(r(400.0)).temp), 400.0);
    assert_eq!(dc.with_temp(r(400.0)).kind, AnalysisKind::Dc);
}

#[test]
fn the_integrator_weights_are_carried() {
    let ctx = AnalysisCtx::transient(r(1e-6))
        .with_ddt(r(2e6), r(1.0))
        .with_ddt_prev2(r(-3.0))
        .with_initial_step(true);
    assert_eq!(f(ctx.ddt_coeff), 2e6);
    assert_eq!(f(ctx.ddt_prev_rate_weight), 1.0);
    assert_eq!(f(ctx.ddt_prev2_weight), -3.0);
    assert!(ctx.is_initial_step);
    assert_eq!(f(ctx.time), 1e-6);
}

// ---- events ----

#[test]
fn direction_maps_the_lrm_spelling() {
    assert_eq!(CrossDir::from_lrm(1), CrossDir::Rising);
    assert_eq!(CrossDir::from_lrm(-1), CrossDir::Falling);
    assert_eq!(CrossDir::from_lrm(0), CrossDir::Either);
    for other in [2, -2, 7, i64::MAX, i64::MIN] {
        assert_eq!(CrossDir::from_lrm(other), CrossDir::Either);
    }
    assert_eq!(CrossDir::default(), CrossDir::Either);
}

#[test]
fn rising_and_falling_are_distinguished() {
    assert!(CrossDir::Rising.fires(r(-1.0), r(1.0)));
    assert!(!CrossDir::Rising.fires(r(1.0), r(-1.0)));
    assert!(CrossDir::Falling.fires(r(1.0), r(-1.0)));
    assert!(!CrossDir::Falling.fires(r(-1.0), r(1.0)));
    assert!(CrossDir::Either.fires(r(-1.0), r(1.0)));
    assert!(CrossDir::Either.fires(r(1.0), r(-1.0)));
}

#[test]
fn no_sign_change_is_not_a_crossing() {
    assert!(!CrossDir::Either.fires(r(1.0), r(2.0)));
    assert!(!CrossDir::Either.fires(r(-2.0), r(-1.0)));
}

#[test]
fn landing_on_zero_fires_once() {
    assert!(CrossDir::Rising.fires(r(-1.0), r(0.0)));
    assert!(!CrossDir::Rising.fires(r(0.0), r(1.0)));
    assert!(CrossDir::Rising.fires(r(-1.0), r(-0.0)));
    assert!(!CrossDir::Either.fires(r(f64::NAN), r(1.0)));
}

#[test]
fn the_recorder_keeps_call_order_and_finds_a_slot() {
    let mut sink = RecordingEventSink::new();
    sink.monitor(1, r(4.0), CrossDir::Rising);
    sink.monitor(0, r(-2.0), CrossDir::Either);
    sink.breakpoint(r(1e-6));
    assert_eq!(sink.monitors.len(), 2);
    assert_eq!(sink.monitors[0].0, 1, "call order is preserved");
    assert_eq!(sink.value_of(0), Some(r(-2.0)));
    assert_eq!(sink.value_of(2), None);
    assert_eq!(sink.breakpoints, vec![r(1e-6)]);
}

// ---- state ----

#[test]
fn a_write_is_never_visible_to_a_read_in_the_same_evaluation() {
    let committed = [r(1.0), r(2.0)];
    let mut scratch = committed;
    {
        let mut st = ModelState::new(&committed, &mut scratch);
        assert_eq!(f(st.get(0)), 1.0);
        st.set(0, r(99.0));
        assert_eq!(f(st.get(0)), 1.0, "get must still read the committed value");
        assert_eq!(f(st.get(1)), 2.0);
    }
    assert_eq!(scratch, [r(99.0), r(2.0)]);
    assert_eq!(committed, [r(1.0), r(2.0)]);
}

#[test]
fn an_unwritten_slot_stays_at_its_committed_value() {
    let committed = [r(5.0), r(6.0), r(7.0)];
    let mut scratch = committed;
    {
        let mut st = ModelState::new(&committed, &mut scratch);
        st.set(1, r(-1.0));
        assert_eq!(st.committed().len(), 3);
    }
    assert_eq!(scratch, [r(5.0), r(-1.0), r(7.0)]);
}

#[test]
fn a_stateless_instance_reads_zero_and_absorbs_writes() {
    let mut st = ModelState::stateless();
    assert_eq!(st.len(), 0);
    assert!(st.is_empty());
    assert_eq!(f(st.get(0)), 0.0);
    st.set(0, r(1.0));
    assert_eq!(f(st.get(0)), 0.0);
}

#[test]
fn out_of_range_access_is_ignored_rather_than_panicking() {
    let committed = [r(1.0)];
    let mut scratch = committed;
    {
        let mut st = ModelState::new(&committed, &mut scratch);
        assert_eq!(f(st.get(7)), 0.0);
        st.set(7, r(3.0));
    }
    assert_eq!(scratch, [r(1.0)]);
}

// ---- stamps ----

#[test]
fn excitation_accumulates_per_row() {
    let mut s = DenseStamp::new(2);
    s.excitation(0, r(1.0), r(0.0), &add);
    s.excitation(0, r(0.5), r(-2.0), &add);
    s.excitation(1, r(-1.0), r(0.0), &add);
    s.excitation(99, r(1e9), r(1e9), &add);
    assert_eq!(s.excitation[0], (r(1.5), r(-2.0)));
    assert_eq!(s.excitation[1], (r(-1.0), r(0.0)));
}

#[test]
fn bound_step_keeps_the_tightest_meaningful_request() {
    let mut s = DenseStamp::new(1);
    assert_eq!(s.bound_step, None);

    s.bound_step(r(1e-6));
    assert_eq!(s.bound_step, Some(r(1e-6)));
    s.bound_step(r(1e-3));
    assert_eq!(s.bound_step, Some(r(1e-6)));
    s.bound_step(r(1e-9));
    assert_eq!(s.bound_step, Some(r(1e-9)));

    let mut z = DenseStamp::new(1);
    z.bound_step(r(0.0));
    z.bound_step(r(-1.0));
    z.bound_step(r(f64::NAN));
    z.bound_step(r(f64::INFINITY));
    assert_eq!(z.bound_step, None);
}

#[test]
fn a_matrix_entry_lands_in_its_own_cell() {
    let mut s = DenseStamp::new(3);
    for row in 0..3 {
        for col in 0..3 {
            s.jacobian(row, col, r((10 * row + col) as f64), &add);
        }
    }
    s.jacobian(GROUND, 0, r(1e9), &add);
    s.jacobian(0, GROUND, r(1e9), &add);
    s.residual(GROUND, r(1e9), &add);
    s.charge(2, r(4.0), &add);
    s.dcharge(2, 1, r(5.0), &add);
    for row in 0..3 {
        for col in 0..3 {
            assert_eq!(f(s.jac(row, col)), (10 * row + col) as f64);
        }
    }
    assert_eq!(f(s.jac(3, 0)), 0.0);
    assert_eq!(floats(&s.residual), vec![0.0; 3]);
    assert_eq!(f(s.charge[2]), 4.0);
    assert_eq!(f(s.dcharge[7]), 5.0);
    assert_eq!(s.dim(), 3);
}

// ---- devices ----

#[test]
fn resistor_stamp_by_hand() {
    let dev = Resistor::new(0, GROUND, r(1000.0));
    let sink = dense(1, &resistor_stamps(&dev, &[2.0]));
    assert!((f(sink.residual[0]) - 2e-3).abs() < 1e-15);
    assert!((f(sink.jac(0, 0)) - 1e-3).abs() < 1e-18);
    assert_eq!(f(sink.charge[0]), 0.0);
    assert_eq!(dev.unknowns(), [0, GROUND]);
}

#[test]
fn capacitor_stamps_its_charge_between_its_terminals() {
    let dev = Capacitor::new(0, 1, r(1e-6));
    let sink = dense(2, &dev.load(r(1e-6 * 3.0)));
    assert_eq!(floats(&sink.charge), vec![1e-6 * 3.0, -1e-6 * 3.0]);
    assert_eq!(floats(&sink.dcharge), vec![1e-6, -1e-6, -1e-6, 1e-6]);
    assert_eq!(floats(&sink.residual), vec![0.0, 0.0]);
}

#[test]
fn resistor_noise_is_thermal_and_bias_independent() {
    let dev = Resistor::new(0, GROUND, r(1000.0));
    let (p, n, source) = dev.noise(r(thermal(1.0 / f(dev.resistance), 300.15)));
    assert_eq!((p, n), (0, GROUND));
    let d = psd_at(&source, 1.0);
    assert!((d - 1.657_6e-23).abs() < 1e-27, "psd = {d}");
    // The current follows the bias; the noise does not.
    let noise = |bias: f64| {
        let sink = dense(1, &resistor_stamps(&dev, &[bias]));
        assert_eq!(f(sink.residual[0]), bias * (1.0 / 1000.0));
        let (_, _, source) = dev.noise(r(thermal(f(sink.jac(0, 0)), 300.15)));
        psd_at(&source, 1.0)
    };
    assert_eq!(noise(2.0), d);
    assert_eq!(noise(100.0), d);
}

#[test]
fn diode_noise_is_shot_not_thermal() {
    let d = Diode::new(0, GROUND, r(1e-14), r(1.0), r(VT_NOMINAL));
    let vd = 0.6;
    let nvt = f(d.ideality) * f(d.thermal);
    let id = f(d.saturation) * ((vd / nvt).exp() - 1.0);
    let gd = (f(d.saturation) / nvt) * (vd / nvt).exp();
    let (p, n, source) = d.noise(r(shot(id)));
    assert_eq!((p, n), (0, GROUND));
    let density = psd_at(&source, 1.0);
    assert!((density - 2.0 * ELEMENTARY_CHARGE * id).abs() < 1e-30);
    assert!((density / thermal(gd, 300.15) - 0.5).abs() < 1e-3);
    let sink = dense(1, &d.load(r(id), r(gd)));
    assert_eq!(f(sink.residual[0]), id);
    assert_eq!(f(sink.jac(0, 0)), gd);
}

#[test]
fn bjt_noise_covers_both_terminal_currents() {
    let q = Bjt::new(0, 1, GROUND, r(1e-15), r(100.0), r(1.0), r(VT_NOMINAL));
    let (ib, ic) = bjt_currents(&q, 0.7, 0.7 - 3.0);
    let sources = q.noise(r(shot(ib)), r(shot(ic)));
    assert_eq!(sources.len(), 2);
    assert_eq!(sources[0].0, 0, "base source is across b-e");
    assert_eq!(sources[0].1, GROUND);
    assert!((psd_at(&sources[0].2, 1.0) - 2.0 * ELEMENTARY_CHARGE * ib).abs() < 1e-30);
    assert_eq!(sources[1].0, 1, "collector source is across c-e");
    assert!((psd_at(&sources[1].2, 1.0) - 2.0 * ELEMENTARY_CHARGE * ic).abs() < 1e-30);
}

#[test]
fn jacobian_columns_sum_to_zero() {
    let q = bjt();
    let sink = dense(3, &bjt_stamps(&q, &[0.65, 1.35, 0.0]));
    for col in 0..3 {
        let sum: f64 = (0..3).map(|row| f(sink.jac(row, col))).sum();
        assert!(sum.abs() < 1e-12, "column {col} sums to {sum}, expected ~0");
    }
    let current: f64 = floats(&sink.residual).iter().sum();
    assert!(current.abs() < 1e-18);
    assert_eq!(q.unknowns(), [0, 1, 2]);
}

#[test]
fn a_vccs_reads_one_pair_and_drives_another() {
    let g = Vccs::new(0, 1, 2, 3, r(0.5));
    let x = reals(&[0.0, 0.0, 4.0, 1.0]);
    let vc = f(at(&x, g.cp)) - f(at(&x, g.cn));
    let sink = dense(4, &g.load(r(f(g.gain) * vc)));
    assert_eq!(f(sink.residual[0]), 1.5, "current out of p");
    assert_eq!(f(sink.residual[1]), -1.5, "current into n");
    assert_eq!(f(sink.jacobian[2]), 0.5, "d(I_p)/d(V_cp)");
    assert_eq!(f(sink.jacobian[3]), -0.5, "d(I_p)/d(V_cn)");
    assert_eq!(f(sink.jacobian[0]), 0.0);
    assert_eq!(f(sink.jacobian[1]), 0.0);
    assert_eq!(g.unknowns(), [0, 1, 2, 3]);
}

#[test]
fn a_vcvs_row_states_its_constraint() {
    let e = Vcvs::new(0, 1, 2, 3, 4, r(10.0));
    let solved = |x: &[f64]| {
        let x = reals(x);
        let v = |i: usize| f(at(&x, i));
        let mismatch = v(e.p) - v(e.n) - f(e.gain) * (v(e.cp) - v(e.cn));
        let sink = dense(5, &e.load(r(mismatch), &x));
        f(sink.residual[4])
    };
    assert_eq!(solved(&[2.0, 0.0, 0.2, 0.0, 0.0]), 0.0, "constraint satisfied");
    assert_eq!(solved(&[1.0, 0.0, 0.2, 0.0, 0.0]), -1.0, "1 V short");
    assert_eq!(e.unknown_kind(4), UnknownKind::Branch);
    assert_eq!(e.unknown_kind(0), UnknownKind::Node);
    let sink = dense(5, &e.load(r(0.0), &reals(&[0.0, 0.0, 0.0, 0.0, 0.25])));
    assert_eq!(f(sink.residual[0]), 0.25);
    assert_eq!(f(sink.residual[1]), -0.25);
    assert_eq!(f(sink.jac(4, 2)), -10.0);
    assert_eq!(f(sink.jac(4, 3)), 10.0);
    assert_eq!(e.unknowns(), [0, 1, 2, 3, 4]);
}

#[test]
fn only_the_branch_current_is_a_constraint_row() {
    let l = Inductor::new(0, 1, 2, r(1e-3));
    assert_eq!(l.unknown_kind(0), UnknownKind::Node);
    assert_eq!(l.unknown_kind(1), UnknownKind::Node);
    assert_eq!(l.unknown_kind(2), UnknownKind::Branch);
    let v = VSource::new(0, 1, 2, r(1.0));
    assert_eq!(v.unknown_kind(1), UnknownKind::Node);
    assert_eq!(v.unknown_kind(2), UnknownKind::Branch);
    assert_eq!(UnknownKind::default(), UnknownKind::Node);
}

#[test]
fn the_stamp_is_flux_on_the_charge_channel() {
    let henries = 2e-3;
    let l = Inductor::new(0, 1, 2, r(henries));
    let sink = dense(3, &inductor_stamps(&l, &[3.0, 1.0, 0.5]));
    assert_eq!(f(sink.residual[2]), -(3.0 - 1.0), "constitutive row residual");
    assert_eq!(f(sink.charge[2]), henries * 0.5, "flux on the charge channel");
    assert_eq!(f(sink.dcharge[2 * 3 + 2]), henries, "d(flux)/di");
    assert_eq!(f(sink.residual[0]), 0.5, "current out of p");
    assert_eq!(f(sink.residual[1]), -0.5, "current into n");
    assert_eq!(f(sink.jacobian[2 * 3]), -1.0);
    assert_eq!(f(sink.jacobian[2 * 3 + 1]), 1.0);
}

#[test]
fn an_inductor_is_a_short_at_dc() {
    let l = Inductor::new(0, 1, 2, r(5.0));
    let r_zero = f(dense(3, &inductor_stamps(&l, &[2.0, 2.0, 0.0])).residual[2]);
    let r_seven = f(dense(3, &inductor_stamps(&l, &[2.0, 2.0, 7.0])).residual[2]);
    assert_eq!(r_zero, r_seven);
    assert_eq!(r_zero, 0.0, "equal terminal voltages satisfy the row");
}

#[test]
fn coupling_contributes_only_off_diagonal_flux() {
    let m = Mutual::new(0, 1, r(2e-3));
    let sink = dense(2, &m.load(r(2e-3 * 5.0), r(2e-3 * 3.0)));
    assert_eq!(f(sink.charge[0]), 2e-3 * 5.0, "row 1 links row 2's current");
    assert_eq!(f(sink.charge[1]), 2e-3 * 3.0, "row 2 links row 1's current");
    assert_eq!(f(sink.dcharge[1]), 2e-3, "d(flux1)/di2");
    assert_eq!(f(sink.dcharge[2]), 2e-3, "d(flux2)/di1");
    assert_eq!(f(sink.dcharge[0]), 0.0);
    assert_eq!(f(sink.dcharge[3]), 0.0);
    assert_eq!(f(sink.residual[0]), 0.0);
    assert_eq!(f(sink.residual[1]), 0.0);
    assert_eq!(m.unknown_kind(0), UnknownKind::Branch);
}

#[test]
fn mutual_inductance_follows_the_coupling_coefficient() {
    let coupled = |l1: f64, l2: f64, k: f64| f(clamp_coupling(r(k))) * (l1 * l2).sqrt();
    assert!((coupled(1e-3, 4e-3, 0.5) - 1e-3).abs() < 1e-15);
    assert!((coupled(1e-3, 4e-3, 1.0) - 2e-3).abs() < 1e-15);
    assert!((coupled(1e-3, 4e-3, 2.5) - 2e-3).abs() < 1e-15);
    assert!((coupled(1e-3, 4e-3, -2.5) + 2e-3).abs() < 1e-15);
}

// ---- multiplicity ----

#[test]
fn a_multiplied_instance_stamps_what_m_copies_stamp() {
    let dev = Resistor::new(0, GROUND, r(1000.0));
    let one = resistor_stamps(&dev, &[2.0]);
    let mut three_times = DenseStamp::new(1);
    for _ in 0..3 {
        for s in &one {
            three_times.deposit(*s, &add);
        }
    }
    let times = |v: Real| r(f(v) * 3.0);
    let multiplied = dense(1, &scale_stamps(&one, &times));
    assert_eq!(multiplied.residual, three_times.residual);
    assert_eq!(multiplied.jacobian, three_times.jacobian);
    assert_eq!(multiplied.charge, three_times.charge);
    assert_eq!(multiplied.dcharge, three_times.dcharge);
}

#[test]
fn multiplicity_one_is_the_identity_and_is_not_wrapped() {
    assert!(!is_multiple(r(1.0)));
    assert!(is_multiple(r(3.0)));
    assert!(is_multiple(r(0.5)));
}

#[test]
fn multiplied_voltage_source_delivers_m_times_the_current() {
    let x = [1.0, 0.25];
    let v = VSource::new(0, GROUND, 1, r(5.0));
    let one = source_stamps(&v, &x);
    let bare = dense(2, &one);
    let scaled = dense(2, &scale_stamps(&one, &|a: Real| r(f(a) * 3.0)));
    assert!((f(scaled.residual[0]) - 3.0 * f(bare.residual[0])).abs() < 1e-12);
    assert!((f(scaled.residual[1]) - 3.0 * f(bare.residual[1])).abs() < 1e-12);
    let enforced = |st: &DenseStamp| -f(st.residual[1]) / f(st.jacobian[2]);
    assert!((enforced(&scaled) - enforced(&bare)).abs() < 1e-12);
}

#[test]
fn the_sources_of_several_devices_keep_their_order_and_ends() {
    let one = vec![
        (0, 1, NoiseSource::White { psd: r(1e-20) }),
        (2, GROUND, NoiseSource::Flicker { coeff: r(2e-20), exponent: r(1.0) }),
        (1, 0, NoiseSource::table(points(&[(1.0, 3e-20), (2.0, 5e-20)]), TableInterp::Log)),
    ];
    let three = scale_sources(&one, &|a: Real| r(f(a) * 4.0));
    assert_eq!(
        three,
        vec![
            (0, 1, NoiseSource::White { psd: r(4e-20) }),
            (2, GROUND, NoiseSource::Flicker { coeff: r(8e-20), exponent: r(1.0) }),
            (1, 0, NoiseSource::table(points(&[(1.0, 12e-20), (2.0, 20e-20)]), TableInterp::Log)),
        ]
    );
}

#[test]
fn a_sweep_is_evaluated_once_or_at_each_frequency() {
    let f = vec![r(1.0), r(10.0)];
    assert_eq!(ac_contexts(false, &f), vec![AnalysisCtx::ac()]);
    assert_eq!(
        ac_contexts(true, &f),
        vec![AnalysisCtx::ac_at(r(1.0)), AnalysisCtx::ac_at(r(10.0))]
    );
    assert!(ac_contexts(true, &vec![]).is_empty());
}

#[test]
fn noise_power_scales_linearly_in_m() {
    let dev = Resistor::new(0, GROUND, r(1000.0));
    let (_, _, one) = dev.noise(r(thermal(1e-3, 300.15)));
    let four = scale_source(&one, &|a: Real| r(f(a) * 4.0));
    assert!((psd_at(&four, 1.0) - 4.0 * psd_at(&one, 1.0)).abs() < 1e-30);
}

#[test]
fn scaling_leaves_the_shape_of_a_source_and_a_step_bound_alone() {
    let double = |a: Real| r(f(a) * 2.0);
    let flicker = NoiseSource::Flicker { coeff: r(1e-19), exponent: r(1.0) };
    assert_eq!(
        scale_source(&flicker, &double),
        NoiseSource::Flicker { coeff: r(2e-19), exponent: r(1.0) }
    );
    let table = NoiseSource::table(points(&[(1.0, 2e-20), (10.0, 5e-20)]), TableInterp::Linear);
    assert_eq!(
        scale_source(&table, &double),
        NoiseSource::table(points(&[(1.0, 4e-20), (10.0, 10e-20)]), TableInterp::Linear)
    );
    let stamps = vec![
        Stamp::BoundStep { dt: r(1e-9) },
        Stamp::Excitation { row: 0, re: r(1.0), im: r(-1.0) },
    ];
    assert_eq!(
        scale_stamps(&stamps, &double),
        vec![
            Stamp::BoundStep { dt: r(1e-9) },
            Stamp::Excitation { row: 0, re: r(2.0), im: r(-2.0) },
        ]
    );
}

// ---- noise sources ----

#[test]
fn flicker_psd_falls_a_decade_per_decade() {
    let source = NoiseSource::Flicker { coeff: r(1e-19), exponent: r(1.0) };
    let at10 = psd_at(&source, 10.0);
    let at100 = psd_at(&source, 100.0);
    assert!((at10 - 1e-20).abs() < 1e-32, "at10 = {at10}");
    assert!((at10 / at100 - 10.0).abs() < 1e-9);
}

#[test]
fn flicker_exponent_is_honoured_not_assumed_to_be_one() {
    let source = NoiseSource::Flicker { coeff: r(1.0), exponent: r(2.0) };
    let a = psd_at(&source, 10.0);
    let b = psd_at(&source, 100.0);
    assert!((a / b - 100.0).abs() < 1e-9, "ratio = {}", a / b);
}

#[test]
fn flicker_psd_at_zero_frequency_is_zero_not_infinite() {
    let source = NoiseSource::Flicker { coeff: r(1e-19), exponent: r(1.0) };
    assert_eq!(psd_at(&source, 0.0), 0.0);
    assert_eq!(psd_at(&source, -1.0), 0.0);
}

struct WhiteOnly(Vec<f64>);

impl NoiseSink for WhiteOnly {
    fn white_current(&mut self, _p: usize, _n: usize, psd: Real) {
        self.0.push(f(psd));
    }
}

#[test]
fn a_sink_that_ignores_flicker_still_compiles_and_drops_it() {
    let mut sink = WhiteOnly(Vec::new());
    sink.white_current(0, 1, r(4e-23));
    sink.flicker_current(0, 1, r(1e-19), r(1.0));
    sink.table_current(0, 1, &points(&[(1.0, 3e-20)]), TableInterp::Linear);
    assert_eq!(sink.0, vec![4e-23]);
}

#[test]
fn linear_table_interpolates_in_frequency_not_in_log_frequency() {
    let ps = [
        (1.0e0, 1.657_580e-23),
        (1.0e1, 3.315_160e-23),
        (1.0e2, 6.636_320e-23),
        (1.0e3, 1.326_064e-22),
    ];
    let got = table_psd_at(&ps, TableInterp::Linear, 55.0);
    let frac = (55.0 - 10.0) / (100.0 - 10.0);
    let want = 3.315_160e-23 + frac * (6.636_320e-23 - 3.315_160e-23);
    assert!((got - want).abs() < 1e-30, "got {got}, want {want}");
    let log_answer = (3.315_160e-23f64 * 6.636_320e-23).sqrt();
    assert!((got - log_answer).abs() > 1e-25);
}

#[test]
fn table_returns_its_own_points_exactly() {
    let ps = [(1.0, 2e-20), (10.0, 5e-20), (100.0, 1e-20)];
    for (freq, p) in ps {
        assert_eq!(table_psd_at(&ps, TableInterp::Linear, freq), p);
    }
}

#[test]
fn table_clamps_outside_its_range_instead_of_extrapolating() {
    let ps = [(10.0, 4e-20), (100.0, 1e-20)];
    assert_eq!(table_psd_at(&ps, TableInterp::Linear, 1.0), 4e-20);
    assert_eq!(table_psd_at(&ps, TableInterp::Linear, 0.0), 4e-20);
    assert_eq!(table_psd_at(&ps, TableInterp::Linear, 1e9), 1e-20);
    assert!(table_psd_at(&ps, TableInterp::Linear, 1e9) > 0.0);
}

#[test]
fn log_table_reproduces_a_power_law_from_two_points() {
    let ps = [(1.0, 1.0), (1e6, 1e-6)];
    for freq in [2.0, 37.0, 1e3, 4.2e4] {
        let got = table_psd_at(&ps, TableInterp::Log, freq);
        assert!(
            (got - 1.0 / freq).abs() < 1e-12 * (1.0 / freq),
            "at {freq} Hz got {got}, want {}",
            1.0 / freq
        );
    }
    let lin = table_psd_at(&ps, TableInterp::Linear, 1e3);
    assert!(lin > 0.99, "linear interpolation gave {lin}");
}

#[test]
fn log_table_falls_back_to_linear_across_a_zero_power_point() {
    let ps = [(1.0, 0.0), (10.0, 1e-20), (100.0, 1e-22)];
    let across_zero = table_psd_at(&ps, TableInterp::Log, 5.5);
    assert!(across_zero.is_finite(), "got {across_zero}");
    assert!((across_zero - 0.5e-20).abs() < 1e-33, "got {across_zero}");
    let log_segment = table_psd_at(&ps, TableInterp::Log, (10.0f64 * 100.0).sqrt());
    assert!((log_segment - 1e-21).abs() < 1e-33, "got {log_segment}");
}

#[test]
fn table_source_sorts_its_points_by_ascending_frequency() {
    let src = NoiseSource::table(
        points(&[(100.0, 1e-22), (1.0, 1e-20), (10.0, 1e-21)]),
        TableInterp::Linear,
    );
    match &src {
        NoiseSource::Table { points, .. } => {
            assert_eq!(f(points[0].0), 1.0);
            assert_eq!(f(points[2].0), 100.0);
        }
        _ => panic!("built a table"),
    }
    assert_eq!(psd_at(&src, 1.0), 1e-20);
    assert_eq!(psd_at(&src, 0.1), 1e-20);
}

#[test]
fn points_of_one_frequency_keep_their_order() {
    let src = NoiseSource::table(
        points(&[(5.0, 1.0), (1.0, 2.0), (5.0, 3.0), (1.0, 4.0)]),
        TableInterp::Linear,
    );
    assert_eq!(
        src,
        NoiseSource::Table {
            points: points(&[(1.0, 2.0), (1.0, 4.0), (5.0, 1.0), (5.0, 3.0)]),
            interp: TableInterp::Linear,
        }
    );
}

#[test]
fn of_two_points_at_one_frequency_the_first_is_read() {
    let ps = [(1.0, 1e-20), (10.0, 2e-20), (10.0, 3e-20)];
    assert_eq!(table_psd_at(&ps, TableInterp::Linear, 10.0), 2e-20);
    assert_eq!(table_psd_at(&ps, TableInterp::Log, 10.0), 2e-20);
    assert_eq!(table_psd_at(&ps, TableInterp::Linear, 10.5), 3e-20);
    let inner = [(1.0, 1e-20), (10.0, 2e-20), (10.0, 3e-20), (100.0, 7e-21)];
    assert_eq!(table_psd_at(&inner, TableInterp::Linear, 10.0), 2e-20);
    assert_eq!(table_psd_at(&inner, TableInterp::Log, 10.0), 2e-20);
    let lowest = [(1.0, 5e-20), (1.0, 6e-20), (2.0, 7e-20)];
    assert_eq!(table_psd_at(&lowest, TableInterp::Linear, 1.0), 5e-20);
}

#[test]
fn a_table_says_where_it_can_be_read() {
    let table = NoiseSource::table(points(&[(10.0, 2e-20), (1.0, 1e-20)]), TableInterp::Linear);
    for freq in [0.0, 1.0, 5.0, 10.0, 1e9] {
        assert!(table.is_readable(r(freq)));
    }
    assert!(!table.is_readable(r(f64::NAN)));
    assert!(NoiseSource::White { psd: r(1.0) }.is_readable(r(f64::NAN)));
}

#[test]
fn empty_table_has_no_power_and_does_not_panic() {
    assert_eq!(table_psd_at(&[], TableInterp::Linear, 1e3), 0.0);
    assert!(NoiseSource::table(vec![], TableInterp::Linear).is_powerless());
}

#[test]
fn a_table_is_powerless_only_if_every_point_is() {
    let all_zero = NoiseSource::table(points(&[(1.0, 0.0), (10.0, 0.0)]), TableInterp::Linear);
    let one_point = NoiseSource::table(points(&[(1.0, 0.0), (10.0, 1e-20)]), TableInterp::Linear);
    assert!(all_zero.is_powerless());
    assert!(!one_point.is_powerless());
    assert!(NoiseSource::White { psd: r(0.0) }.is_powerless());
    assert!(!NoiseSource::White { psd: r(1e-20) }.is_powerless());
}

#[test]
fn collected_noise_records_both_shapes() {
    let mut sink = CollectedNoise::new();
    sink.white_current(0, 1, r(4e-23));
    sink.flicker_current(2, 3, r(1e-19), r(1.0));
    sink.table_current(4, 5, &points(&[(10.0, 1.0), (1.0, 2.0)]), TableInterp::Log);
    assert_eq!(sink.sources[0], (0, 1, NoiseSource::White { psd: r(4e-23) }));
    assert_eq!(
        sink.sources[1],
        (
            2,
            3,
            NoiseSource::Flicker {
                coeff: r(1e-19),
                exponent: r(1.0)
            }
        )
    );
    assert_eq!(
        sink.sources[2],
        (
            4,
            5,
            NoiseSource::Table {
                points: points(&[(1.0, 2.0), (10.0, 1.0)]),
                interp: TableInterp::Log
            }
        )
    );
    assert_eq!(psd_at(&sink.sources[0].2, 1e6), 4e-23);
    assert!((psd_at(&sink.sources[1].2, 10.0) - 1e-20).abs() < 1e-32);
}
