use va_sim::ac::{combine_excitation, linearize, AcSweep, Grid};
use va_sim::analysis::{AnalysisCtx, AnalysisKind};
use va_sim::block::{embed, embed_rhs, split_solution};
use va_sim::netlist::GROUND;
use va_sim::noise::{Density, NoiseSink, NoiseSource, TableInterp};
use va_sim::number::Real;
use va_sim::reference::{at, Capacitor, Diode, Resistor, VSource};
use va_sim::spectrum::{
    adjoint_probe, bucket_of, bucket_sums, counted_intervals, integrate_rms, noise_spectrum,
    per_instance, AcNoiseError, SourceList,
};
use va_sim::stamps::{DenseStamp, Stamp};

const BOLTZMANN: f64 = 1.380_649e-23;
const ELEMENTARY_CHARGE: f64 = 1.602_176_634e-19;
const TEMP_NOMINAL: f64 = 300.15;
const VT_NOMINAL: f64 = BOLTZMANN * TEMP_NOMINAL / ELEMENTARY_CHARGE;

fn r(x: f64) -> Real {
    Real::from_bits(x.to_bits())
}

fn f(x: Real) -> f64 {
    f64::from_bits(x.bits)
}

fn add(a: Real, b: Real) -> Real {
    r(f(a) + f(b))
}

fn minus(a: Real, b: Real) -> Real {
    r(f(a) - f(b))
}

fn gauss(mut a: Vec<f64>, mut b: Vec<f64>, n: usize) -> Vec<f64> {
    for k in 0..n {
        let mut p = k;
        for i in k..n {
            if a[i * n + k].abs() > a[p * n + k].abs() {
                p = i;
            }
        }
        for j in 0..n {
            a.swap(k * n + j, p * n + j);
        }
        b.swap(k, p);
        for i in (k + 1)..n {
            let q = a[i * n + k] / a[k * n + k];
            for j in k..n {
                a[i * n + j] -= q * a[k * n + j];
            }
            b[i] -= q * b[k];
        }
    }
    let mut x = vec![0.0; n];
    for k in (0..n).rev() {
        let mut s = b[k];
        for j in (k + 1)..n {
            s -= a[k * n + j] * x[j];
        }
        x[k] = s / a[k * n + k];
    }
    x
}

enum Dev {
    R(Resistor),
    C(Capacitor),
    V(VSource),
    D(Diode),
    // One siemens to ground, with a white and a flicker source.
    Both,
    Flicker,
    Table,
    // A resistor to ground that drives one ampere of stimulus in an AC analysis.
    Stim(f64, AnalysisCtx),
}

fn contributions(d: &Dev, x: &Vec<Real>) -> Vec<Stamp> {
    let v = |i: usize| f(at(x, i));
    match d {
        Dev::R(d) => {
            let g = 1.0 / f(d.resistance);
            d.load(r(g * (v(d.p) - v(d.n))), r(g))
        }
        Dev::C(d) => d.load(r(f(d.capacitance) * (v(d.p) - v(d.n)))),
        Dev::V(d) => d.load(r(v(d.p) - v(d.n) - f(d.value)), x),
        Dev::D(d) => {
            let vd = v(d.anode) - v(d.cathode);
            d.load(r(diode_current(d, vd)), r(diode_conductance(d, vd)))
        }
        Dev::Both | Dev::Flicker | Dev::Table => {
            vec![Stamp::Jacobian { row: 0, col: 0, value: r(1.0) }]
        }
        Dev::Stim(res, ctx) => {
            let mut all = vec![Stamp::Jacobian { row: 0, col: 0, value: r(1.0 / res) }];
            if ctx.kind == AnalysisKind::Ac {
                all.push(Stamp::Excitation { row: 0, re: r(1.0), im: r(0.0) });
                all.push(Stamp::Excitation { row: GROUND, re: r(-1.0), im: r(0.0) });
            }
            all
        }
    }
}

fn diode_current(d: &Diode, vd: f64) -> f64 {
    f(d.saturation) * ((vd / (f(d.ideality) * f(d.thermal))).exp() - 1.0)
}

fn diode_conductance(d: &Diode, vd: f64) -> f64 {
    let nvt = f(d.ideality) * f(d.thermal);
    f(d.saturation) / nvt * (vd / nvt).exp()
}

fn emit(d: &Dev, x: &Vec<Real>, temp: f64, list: &mut SourceList) {
    match d {
        Dev::D(d) => {
            let vd = f(at(x, d.anode)) - f(at(x, d.cathode));
            let (p, n, source) =
                d.noise(r(2.0 * ELEMENTARY_CHARGE * diode_current(d, vd).abs()));
            list.push(p, n, source);
        }
        Dev::R(d) => {
            let (p, n, source) = d.noise(r(4.0 * BOLTZMANN * temp * (1.0 / f(d.resistance))));
            list.push(p, n, source);
        }
        Dev::Both => {
            list.white_current(0, GROUND, r(1e-22));
            list.flicker_current(0, GROUND, r(1e-19), r(1.0));
        }
        Dev::Flicker => list.flicker_current(0, GROUND, r(1e-19), r(1.0)),
        Dev::Table => list.table_current(
            0,
            GROUND,
            &vec![(r(1e5), r(1e-20)), (r(1.0), r(1e-20)), (r(1e3), r(5e-20))],
            TableInterp::Linear,
        ),
        Dev::C(_) | Dev::V(_) | Dev::Stim(..) => {}
    }
}

fn psd(d: Density, freq: f64) -> f64 {
    match d {
        Density::Value(v) => f(v),
        Density::Flicker { coeff, exponent } => f(coeff) / freq.powf(f(exponent)),
        Density::OnLine { f1, p1, f2, p2 } => {
            f(p1) + (f(p2) - f(p1)) * (freq - f(f1)) / (f(f2) - f(f1))
        }
        Density::OnLogLine { .. } => panic!("no logarithmic table here"),
    }
}

fn frequencies(s: &AcSweep) -> Vec<Real> {
    let Grid::Walk { per, points } = s.grid() else {
        panic!("a logarithmic sweep");
    };
    let stop = f(s.fstop);
    let ratio = (per as f64).powf(1.0 / points as f64);
    s.frequencies(
        &|_: usize| s.fstart,
        r(stop * ratio.sqrt()),
        &|x: Real| r(f(x) * ratio),
        &|x: Real| (f(x) - stop).abs() < stop * 1e-9,
    )
}

struct Spectrum {
    f: Vec<f64>,
    psd: Vec<f64>,
    total: f64,
    input_psd: Vec<f64>,
    input_total: f64,
    per_instance: Vec<(usize, Vec<f64>)>,
}

fn solve_at(g: &Vec<Real>, c: &Vec<Real>, dim: usize, freq: f64, rhs: &Vec<(Real, Real)>, transpose: bool) -> Vec<(Real, Real)> {
    let omega = 2.0 * std::f64::consts::PI * freq;
    let w: Vec<Real> = c.iter().map(|c| r(omega * f(*c))).collect();
    let a = embed(g, &w, dim, transpose);
    let b = embed_rhs(rhs, dim);
    let sol = gauss(
        a.iter().map(|v| f(*v)).collect(),
        b.iter().map(|v| f(*v)).collect(),
        2 * dim,
    );
    split_solution(&sol.iter().map(|v| r(*v)).collect(), dim)
}

fn run(
    devs: &[Dev],
    x_dc: &[f64],
    dim: usize,
    sweep: AcSweep,
    output: usize,
    input: Option<usize>,
    temp: f64,
) -> Result<Spectrum, AcNoiseError> {
    let probe = adjoint_probe(dim, output, input)?;
    let x: Vec<Real> = x_dc.iter().map(|v| r(*v)).collect();
    let mut stamps = Vec::new();
    let mut list = SourceList::new();
    for (i, d) in devs.iter().enumerate() {
        stamps.extend(contributions(d, &x));
        list.turn_to(i);
        emit(d, &x, temp, &mut list);
    }
    let lin = linearize(&stamps, dim, &add);
    let freqs = frequencies(&sweep);
    let ys: Vec<Vec<(Real, Real)>> = freqs
        .iter()
        .map(|fr| solve_at(&lin.g, &lin.c, dim, f(*fr), &probe, true))
        .collect();
    let weigh = |fr: Real, p: (Real, Real), n: (Real, Real), d: Density| {
        let (re, im) = (f(p.0) - f(n.0), f(p.1) - f(n.1));
        r((re * re + im * im) * psd(d, f(fr)))
    };
    let refer = |h: (Real, Real), total: Real| {
        let gain = f(h.0) * f(h.0) + f(h.1) * f(h.1);
        (r(gain), r(f(total) / gain))
    };
    let s = noise_spectrum(&list, devs.len(), &freqs, &ys, input, &weigh, &add, &refer);
    let trapezoid = |f0: Real, f1: Real, p0: Real, p1: Real| {
        r(0.5 * (f(p0) + f(p1)) * (f(f1) - f(f0)))
    };
    let root = |p: Real| r(f(p).max(0.0).sqrt());
    let total = integrate_rms(&freqs, &s.psd, &trapezoid, &add, &root);
    let input_total = integrate_rms(&freqs, &s.input_psd, &trapezoid, &add, &root);
    let floats = |v: &Vec<Real>| v.iter().map(|x| f(*x)).collect::<Vec<f64>>();
    Ok(Spectrum {
        f: floats(&freqs),
        psd: floats(&s.psd),
        total: f(total),
        input_psd: floats(&s.input_psd),
        input_total: f(input_total),
        per_instance: s.per_instance.iter().map(|(i, v)| (*i, floats(v))).collect(),
    })
}

fn run_nominal(devs: &[Dev], x: &[f64], dim: usize, output: usize, input: Option<usize>) -> Spectrum {
    run(devs, x, dim, flat_sweep(), output, input, TEMP_NOMINAL).expect("noise solves")
}

fn flat_sweep() -> AcSweep {
    AcSweep::dec(r(1.0), r(1e6), 10)
}

fn resistor(p: usize, n: usize, value: f64) -> Dev {
    Dev::R(Resistor::new(p, n, r(value)))
}

fn source(p: usize, n: usize, b: usize, value: f64) -> Dev {
    Dev::V(VSource::new(p, n, b, r(value)))
}

#[test]
fn lone_resistor_output_psd_is_4ktr() {
    let s = run_nominal(&[resistor(0, GROUND, 1000.0)], &[0.0], 1, 0, None);
    let expected = 4.0 * BOLTZMANN * TEMP_NOMINAL * 1000.0;
    assert!(!s.psd.is_empty());
    for (fr, p) in s.f.iter().zip(&s.psd) {
        assert!((p - expected).abs() < 1e-24, "f={fr}: psd = {p}, expected {expected}");
    }
}

#[test]
fn parallel_resistors_sum_in_power() {
    let (r1, r2) = (1000.0, 3000.0);
    let s = run_nominal(&[resistor(0, GROUND, r1), resistor(0, GROUND, r2)], &[0.0], 1, 0, None);
    let expected = 4.0 * BOLTZMANN * TEMP_NOMINAL * (r1 * r2 / (r1 + r2));
    assert!((s.psd[0] - expected).abs() < 1e-24, "{} vs {expected}", s.psd[0]);
}

#[test]
fn rc_lowpass_shapes_thermal_noise() {
    let (res, cap) = (1000.0, 1e-6);
    let devs = [resistor(0, GROUND, res), Dev::C(Capacitor::new(0, GROUND, r(cap)))];
    let s = run_nominal(&devs, &[0.0], 1, 0, None);
    let s0 = 4.0 * BOLTZMANN * TEMP_NOMINAL * res;
    for (fr, p) in s.f.iter().zip(&s.psd) {
        let wrc = 2.0 * std::f64::consts::PI * fr * res * cap;
        let expected = s0 / (1.0 + wrc * wrc);
        assert!((p - expected).abs() <= 1e-9 * expected.max(1e-30), "f={fr}: {p} vs {expected}");
    }
    let last = *s.psd.last().unwrap();
    assert!(last < s.psd[0] * 1e-6, "not rolled off: {last}");
}

#[test]
fn resistor_plus_diode_matches_hand_derivation() {
    let (res, vsrc) = (1000.0, 0.7);
    let d = Diode::new(1, GROUND, r(1e-14), r(1.0), r(VT_NOMINAL));
    // The bias at which the resistor carries the diode's current.
    let (mut lo, mut hi) = (0.0, vsrc);
    for _ in 0..200 {
        let mid = 0.5 * (lo + hi);
        if diode_current(&d, mid) < (vsrc - mid) / res {
            lo = mid;
        } else {
            hi = mid;
        }
    }
    let vd = lo;
    let id = diode_current(&d, vd);
    let z = 1.0 / (1.0 / res + diode_conductance(&d, vd));
    let devs = [
        Dev::V(VSource::new(0, GROUND, 2, r(vsrc))),
        Dev::R(Resistor::new(0, 1, r(res))),
        Dev::D(d),
    ];
    let spectrum = run_nominal(&devs, &[vsrc, vd, -id], 3, 1, None);
    let thermal = 4.0 * BOLTZMANN * TEMP_NOMINAL / res;
    let shot = 2.0 * ELEMENTARY_CHARGE * id;
    let expected = (thermal + shot) * z * z;
    for &p in &spectrum.psd {
        assert!((p / expected - 1.0).abs() < 1e-9, "psd = {p}, expected {expected}");
    }
    assert!(shot > thermal, "shot={shot}, thermal={thermal}");
}

#[test]
fn total_is_the_rms_of_the_integrated_psd() {
    let s = run_nominal(&[resistor(0, GROUND, 1000.0)], &[0.0], 1, 0, None);
    let density = 4.0 * BOLTZMANN * TEMP_NOMINAL * 1000.0;
    let expected = (density * (1e6 - 1.0)).sqrt();
    assert!((s.total / expected - 1.0).abs() < 1e-9, "{} vs {expected}", s.total);
}

#[test]
fn a_noiseless_circuit_yields_a_zero_spectrum() {
    let devs = [source(0, GROUND, 1, 5.0), Dev::C(Capacitor::new(0, GROUND, r(1e-6)))];
    let s = run_nominal(&devs, &[5.0, 0.0], 2, 0, None);
    assert!(s.psd.iter().all(|p| *p == 0.0), "{:?}", s.psd);
    assert_eq!(s.total, 0.0);
}

#[test]
fn a_flicker_source_rolls_off_as_one_over_f() {
    let sweep = AcSweep::dec(r(10.0), r(1e4), 1);
    let s = run(&[Dev::Flicker], &[0.0], 1, sweep, 0, None, TEMP_NOMINAL).expect("solves");
    assert_eq!(s.f.len(), 4);
    for (fr, p) in s.f.iter().zip(&s.psd) {
        let expected = 1e-19 / fr;
        assert!((p / expected - 1.0).abs() < 1e-9, "f={fr}: {p} vs {expected}");
    }
}

#[test]
fn a_tabulated_source_is_interpolated_across_the_whole_sweep() {
    let sweep = AcSweep::dec(r(10.0), r(1e4), 1);
    let s = run(&[Dev::Table], &[0.0], 1, sweep, 0, None, TEMP_NOMINAL).expect("solves");
    assert_eq!(s.f.len(), 4);
    for (fr, p) in s.f.iter().zip(&s.psd) {
        let expected = if *fr <= 1e3 {
            1e-20 + (5e-20 - 1e-20) * (fr - 1.0) / (1e3 - 1.0)
        } else {
            5e-20 + (1e-20 - 5e-20) * (fr - 1e3) / (1e5 - 1e3)
        };
        assert!((p / expected - 1.0).abs() < 1e-9, "f={fr}: {p} vs {expected}");
    }
    assert!(s.psd[0] < s.psd[2], "{:?}", s.psd);
    assert!(s.psd[3] < s.psd[2], "{:?}", s.psd);
}

#[test]
fn white_and_flicker_sum_with_a_crossover() {
    let s = run_nominal(&[Dev::Both], &[0.0], 1, 0, None);
    for (fr, p) in s.f.iter().zip(&s.psd) {
        let expected = 1e-22 + 1e-19 / fr;
        assert!((p / expected - 1.0).abs() < 1e-9, "f={fr}: {p} vs {expected}");
    }
    assert!(s.psd[0] > 10.0 * 1e-22);
    assert!((s.psd.last().unwrap() / 1e-22 - 1.0).abs() < 1e-3);
}

#[test]
fn per_device_shares_are_attributed_and_sum_to_the_total() {
    let (r1, r2) = (1000.0, 3000.0);
    let s = run_nominal(&[resistor(0, GROUND, r1), resistor(0, GROUND, r2)], &[0.0], 1, 0, None);
    assert_eq!(s.per_instance.len(), 2);
    assert_eq!(s.per_instance[0].0, 0, "instance 0 is the 1 kΩ");
    assert_eq!(s.per_instance[1].0, 1, "instance 1 is the 3 kΩ");
    let z = 1.0 / (1.0 / r1 + 1.0 / r2);
    for (idx, res) in [(0usize, r1), (1usize, r2)] {
        let expected = 4.0 * BOLTZMANN * TEMP_NOMINAL / res * z * z;
        let got = s.per_instance[idx].1[0];
        assert!((got / expected - 1.0).abs() < 1e-9, "instance {idx}: {got} vs {expected}");
    }
    let ratio = s.per_instance[0].1[0] / s.per_instance[1].1[0];
    assert!((ratio - 3.0).abs() < 1e-9, "ratio = {ratio}");
    for (i, t) in s.psd.iter().enumerate() {
        let sum: f64 = s.per_instance.iter().map(|(_, v)| v[i]).sum();
        assert!((sum / t - 1.0).abs() < 1e-12, "sum {sum} vs total {t}");
    }
}

#[test]
fn identical_devices_remain_distinguishable() {
    let devs = [resistor(0, GROUND, 1000.0), resistor(0, GROUND, 1000.0)];
    let s = run_nominal(&devs, &[0.0], 1, 0, None);
    assert_eq!(s.per_instance.len(), 2, "must not merge into one");
    assert_eq!(s.per_instance[0].1[0], s.per_instance[1].1[0]);
}

#[test]
fn noiseless_devices_are_omitted_from_the_breakdown() {
    let devs = [
        source(0, GROUND, 2, 1.0),
        resistor(0, 1, 1000.0),
        Dev::C(Capacitor::new(1, GROUND, r(1e-9))),
    ];
    let s = run_nominal(&devs, &[1.0, 1.0, 0.0], 3, 1, None);
    assert_eq!(s.per_instance.len(), 1);
    assert_eq!(s.per_instance[0].0, 1, "the resistor is the only contributor");
}

#[test]
fn one_device_with_two_mechanisms_reports_one_combined_share() {
    let s = run_nominal(&[Dev::Both], &[0.0], 1, 0, None);
    assert_eq!(s.per_instance.len(), 1, "one device, one entry");
    for (i, fr) in s.f.iter().enumerate() {
        let expected = 1e-22 + 1e-19 / fr;
        let got = s.per_instance[0].1[i];
        assert!((got / expected - 1.0).abs() < 1e-9, "f={fr}: {got}");
    }
}

#[test]
fn input_referral_divides_by_the_squared_forward_gain() {
    let (r1, r2) = (1000.0, 3000.0);
    let devs = [source(0, GROUND, 2, 1.0), resistor(0, 1, r1), resistor(1, GROUND, r2)];
    let s = run_nominal(&devs, &[1.0, 0.75, 0.0], 3, 1, Some(2));
    let h = r2 / (r1 + r2);
    assert_eq!(s.input_psd.len(), s.psd.len());
    for (out, inp) in s.psd.iter().zip(&s.input_psd) {
        let expected = out / (h * h);
        assert!((inp / expected - 1.0).abs() < 1e-9, "{inp} vs {expected}");
        assert!(inp > out);
    }
    let alone = run_nominal(&devs, &[1.0, 0.75, 0.0], 3, 1, None);
    assert_eq!(alone.psd, s.psd);
    assert_eq!(alone.f, s.f);
    assert_eq!(alone.total, s.total);
    assert_eq!(alone.per_instance, s.per_instance);
    assert!(alone.input_psd.is_empty() && alone.input_total == 0.0);
}

#[test]
fn unity_gain_makes_input_and_output_referral_agree() {
    let devs = [source(0, GROUND, 2, 1.0), resistor(0, 1, 1000.0)];
    let s = run_nominal(&devs, &[1.0, 1.0, 0.0], 3, 1, Some(2));
    let expected = 4.0 * BOLTZMANN * TEMP_NOMINAL * 1000.0;
    assert!((s.psd[0] - expected).abs() < 1e-24, "{} vs {expected}", s.psd[0]);
    for (out, inp) in s.psd.iter().zip(&s.input_psd) {
        assert!((inp / out - 1.0).abs() < 1e-9, "out {out}, in {inp}");
    }
    assert!((s.input_total / s.total - 1.0).abs() < 1e-9);
}

#[test]
fn a_zero_gain_point_is_infinite_and_does_not_poison_the_total() {
    let devs = [resistor(0, GROUND, 1000.0), source(1, GROUND, 2, 1.0)];
    let s = run_nominal(&devs, &[0.0, 0.0, 0.0], 3, 0, Some(2));
    assert!(s.input_psd.iter().all(|p| p.is_infinite()), "{:?}", &s.input_psd[..3]);
    assert!(s.input_total.is_finite(), "{}", s.input_total);
    let expected = 4.0 * BOLTZMANN * TEMP_NOMINAL * 1000.0;
    assert!((s.psd[0] - expected).abs() < 1e-24);
}

#[test]
fn an_input_outside_the_system_is_an_error() {
    let devs = [resistor(0, GROUND, 1000.0)];
    assert!(matches!(
        run(&devs, &[0.0], 1, flat_sweep(), 0, Some(7), TEMP_NOMINAL),
        Err(AcNoiseError::InvalidOutput { index: 7, dim: 1 })
    ));
}

#[test]
fn an_output_outside_the_system_is_an_error() {
    let devs = [resistor(0, GROUND, 1000.0)];
    assert!(matches!(
        run(&devs, &[0.0], 1, flat_sweep(), 5, None, TEMP_NOMINAL),
        Err(AcNoiseError::InvalidOutput { index: 5, dim: 1 })
    ));
    assert_eq!(
        AcNoiseError::InvalidOutput { index: 5, dim: 1 }.message(),
        "noise output unknown 5 is outside the 1-unknown system"
    );
}

#[test]
fn temperature_reaches_the_sources() {
    let devs = [resistor(0, GROUND, 1000.0)];
    let cold = run(&devs, &[0.0], 1, flat_sweep(), 0, None, 150.0).expect("solves");
    let hot = run(&devs, &[0.0], 1, flat_sweep(), 0, None, 300.0).expect("solves");
    assert!((hot.psd[0] / cold.psd[0] - 2.0).abs() < 1e-9);
}

#[test]
fn a_model_supplied_ac_stim_drives_the_circuit_with_the_residual_sign_convention() {
    let (res, cap) = (1000.0, 1e-9);
    let devs = [Dev::Stim(res, AnalysisCtx::ac()), Dev::C(Capacitor::new(0, GROUND, r(cap)))];
    let zero = vec![r(0.0)];
    let mut stamps = Vec::new();
    for d in &devs {
        stamps.extend(contributions(d, &zero));
    }
    let lin = linearize(&stamps, 1, &add);
    let netlist = vec![(r(0.0), r(0.0))];
    let rhs = combine_excitation(&netlist, &lin.excitation, &minus);
    let sweep = frequencies(&AcSweep::dec(r(1e3), r(1e6), 4));
    assert_eq!(sweep.len(), 13);
    for freq in sweep.into_iter().map(f) {
        let x = solve_at(&lin.g, &lin.c, 1, freq, &rhs, false);
        let (re, im) = (f(x[0].0), f(x[0].1));
        let pi = std::f64::consts::PI;
        let wrc = 2.0 * pi * freq * res * cap;
        let expected_mag = res / (1.0 + wrc * wrc).sqrt();
        let expected_phase = pi - wrc.atan();
        let mag = (re * re + im * im).sqrt();
        assert!((mag - expected_mag).abs() / expected_mag < 1e-9, "at {freq} Hz: {mag}");
        assert!((im.atan2(re) - expected_phase).abs() < 1e-9, "at {freq} Hz");
    }
    // The same device excites nothing in a DC load.
    let mut dc = DenseStamp::new(1);
    for s in contributions(&Dev::Stim(res, AnalysisCtx::dc()), &zero) {
        dc.deposit(s, &add);
    }
    assert_eq!(dc.excitation[0], (r(0.0), r(0.0)));
}

#[test]
fn a_powerless_source_is_dropped() {
    let mut list = SourceList::new();
    list.turn_to(3);
    list.push(0, 1, NoiseSource::White { psd: r(0.0) });
    assert!(list.sources.is_empty());
    list.push(0, 1, NoiseSource::White { psd: r(1e-20) });
    list.turn_to(1);
    list.white_current(2, 3, r(1e-20));
    list.white_current(2, 3, r(2e-20));
    assert_eq!(list.contributors(), vec![1, 3]);
    assert_eq!(bucket_of(&vec![1, 3], 5), vec![usize::MAX, 0, usize::MAX, 1, usize::MAX]);
}

#[test]
fn shares_are_summed_and_turned_round() {
    let sums = bucket_sums(&vec![1, 0, 1], 2, &vec![r(1.0), r(2.0), r(4.0)], &add);
    assert_eq!(sums, vec![r(2.0), r(5.0)]);
    let rows = vec![vec![r(1.0), r(2.0)], vec![r(3.0), r(4.0)]];
    assert_eq!(
        per_instance(&vec![7, 9], &rows),
        vec![(7, vec![r(1.0), r(3.0)]), (9, vec![r(2.0), r(4.0)])]
    );
    let densities = vec![r(1.0), r(f64::INFINITY), r(2.0), r(3.0)];
    assert_eq!(counted_intervals(4, &densities), vec![2]);
    assert_eq!(counted_intervals(1, &densities), Vec::<usize>::new());
}
