//! The built-in devices: their unknowns and the contributions they make.
//!
//! A device's numbers (its current, its charge and their derivatives) come computed;
//! what stands here is where each of them goes and with which sign.
use crate::noise::NoiseSource;
use crate::number::{Real, ONE};
use crate::solve::entry;
use crate::stamps::Stamp;
use vstd::prelude::*;

verus! {

/// What an unknown stands for.
#[derive(Clone, Copy, Debug, PartialEq, Eq, Structural)]
pub enum UnknownKind {
    /// The potential of a node; its row is a sum of currents.
    Node,
    /// A branch current; its row is the branch's own law.
    Branch,
}

impl Default for UnknownKind {
    fn default() -> (r: UnknownKind)
        ensures
            r == UnknownKind::Node,
    {
        UnknownKind::Node
    }
}

/// An entry of the solution vector; zero for the reference node.
pub fn at(x: &Vec<Real>, i: usize) -> (r: Real)
    ensures
        r == entry(x@, i),
{
    if i < x.len() {
        x[i]
    } else {
        Real::zero()
    }
}

// ---- the shapes of contributions ------------------------------------------

/// A current `i` from `p` to `n` and its derivative `g` by the voltage between them.
pub open spec fn conductance(p: usize, n: usize, i: Real, g: Real) -> Seq<Stamp> {
    seq![
        Stamp::Residual { row: p, value: i },
        Stamp::Residual { row: n, value: i.opposite() },
        Stamp::Jacobian { row: p, col: p, value: g },
        Stamp::Jacobian { row: p, col: n, value: g.opposite() },
        Stamp::Jacobian { row: n, col: p, value: g.opposite() },
        Stamp::Jacobian { row: n, col: n, value: g },
    ]
}

/// A charge `q` between `p` and `n` and its derivative `c` by the voltage between them.
pub open spec fn capacitance(p: usize, n: usize, q: Real, c: Real) -> Seq<Stamp> {
    seq![
        Stamp::Charge { row: p, value: q },
        Stamp::Charge { row: n, value: q.opposite() },
        Stamp::Dcharge { row: p, col: p, value: c },
        Stamp::Dcharge { row: p, col: n, value: c.opposite() },
        Stamp::Dcharge { row: n, col: p, value: c.opposite() },
        Stamp::Dcharge { row: n, col: n, value: c },
    ]
}

/// A branch current `ib` out of `p` and into `n`.
pub open spec fn branch_flow(p: usize, n: usize, b: usize, ib: Real) -> Seq<Stamp> {
    let one = Real { bits: ONE };
    seq![
        Stamp::Residual { row: p, value: ib },
        Stamp::Residual { row: n, value: ib.opposite() },
        Stamp::Jacobian { row: p, col: b, value: one },
        Stamp::Jacobian { row: n, col: b, value: one.opposite() },
    ]
}

/// The contributions of a current between two nodes.
pub fn stamp_conductance(p: usize, n: usize, i: Real, g: Real) -> (r: Vec<Stamp>)
    ensures
        r@ == conductance(p, n, i, g),
{
    let r: Vec<Stamp> = vec![
        Stamp::Residual { row: p, value: i },
        Stamp::Residual { row: n, value: i.negated() },
        Stamp::Jacobian { row: p, col: p, value: g },
        Stamp::Jacobian { row: p, col: n, value: g.negated() },
        Stamp::Jacobian { row: n, col: p, value: g.negated() },
        Stamp::Jacobian { row: n, col: n, value: g },
    ];
    assert(r@ =~= conductance(p, n, i, g));
    r
}

/// The contributions of a charge between two nodes.
pub fn stamp_charge(p: usize, n: usize, q: Real, c: Real) -> (r: Vec<Stamp>)
    ensures
        r@ == capacitance(p, n, q, c),
{
    let r: Vec<Stamp> = vec![
        Stamp::Charge { row: p, value: q },
        Stamp::Charge { row: n, value: q.negated() },
        Stamp::Dcharge { row: p, col: p, value: c },
        Stamp::Dcharge { row: p, col: n, value: c.negated() },
        Stamp::Dcharge { row: n, col: p, value: c.negated() },
        Stamp::Dcharge { row: n, col: n, value: c },
    ];
    assert(r@ =~= capacitance(p, n, q, c));
    r
}

// ---- two-terminal devices -------------------------------------------------

/// A linear resistor.
#[derive(Clone, Copy, Debug, PartialEq, Eq)]
pub struct Resistor {
    pub p: usize,
    pub n: usize,
    pub resistance: Real,
}

impl Resistor {
    /// A resistor between `p` and `n`.
    pub fn new(p: usize, n: usize, resistance: Real) -> (r: Resistor)
        requires
            (Real { bits: 0 }).lt(resistance),
        ensures
            r == (Resistor { p, n, resistance }),
    {
        Resistor { p, n, resistance }
    }

    /// The unknowns it reads and writes.
    pub fn unknowns(&self) -> (r: [usize; 2])
        ensures
            r@ == seq![self.p, self.n],
    {
        let r: [usize; 2] = [self.p, self.n];
        assert(r@ =~= seq![self.p, self.n]);
        r
    }

    /// Its contributions: the current through it, and its conductance.
    pub fn load(&self, current: Real, conductance: Real) -> (r: Vec<Stamp>)
        ensures
            r@ == self::conductance(self.p, self.n, current, conductance),
    {
        stamp_conductance(self.p, self.n, current, conductance)
    }

    /// Its noise: thermal, of the given density.
    pub fn noise(&self, thermal: Real) -> (r: (usize, usize, NoiseSource))
        ensures
            r == (self.p, self.n, NoiseSource::White { psd: thermal }),
    {
        (self.p, self.n, NoiseSource::White { psd: thermal })
    }
}

/// A linear capacitor.
#[derive(Clone, Copy, Debug, PartialEq, Eq)]
pub struct Capacitor {
    pub p: usize,
    pub n: usize,
    pub capacitance: Real,
}

impl Capacitor {
    /// A capacitor between `p` and `n`.
    pub fn new(p: usize, n: usize, capacitance: Real) -> (r: Capacitor)
        requires
            (Real { bits: 0 }).lt(capacitance),
        ensures
            r == (Capacitor { p, n, capacitance }),
    {
        Capacitor { p, n, capacitance }
    }

    /// The unknowns it reads and writes.
    pub fn unknowns(&self) -> (r: [usize; 2])
        ensures
            r@ == seq![self.p, self.n],
    {
        let r: [usize; 2] = [self.p, self.n];
        assert(r@ =~= seq![self.p, self.n]);
        r
    }

    /// Its contributions: the charge on it, and its capacitance.
    pub fn load(&self, charge: Real) -> (r: Vec<Stamp>)
        ensures
            r@ == self::capacitance(self.p, self.n, charge, self.capacitance),
    {
        stamp_charge(self.p, self.n, charge, self.capacitance)
    }
}

/// A junction diode.
#[derive(Clone, Copy, Debug, PartialEq, Eq)]
pub struct Diode {
    pub anode: usize,
    pub cathode: usize,
    pub saturation: Real,
    pub ideality: Real,
    pub thermal: Real,
}

impl Diode {
    /// A diode from `anode` to `cathode`.
    pub fn new(
        anode: usize,
        cathode: usize,
        saturation: Real,
        ideality: Real,
        thermal: Real,
    ) -> (r: Diode)
        requires
            (Real { bits: 0 }).lt(saturation),
            (Real { bits: 0 }).lt(ideality),
            (Real { bits: 0 }).lt(thermal),
        ensures
            r == (Diode { anode, cathode, saturation, ideality, thermal }),
    {
        Diode { anode, cathode, saturation, ideality, thermal }
    }

    /// The unknowns it reads and writes.
    pub fn unknowns(&self) -> (r: [usize; 2])
        ensures
            r@ == seq![self.anode, self.cathode],
    {
        let r: [usize; 2] = [self.anode, self.cathode];
        assert(r@ =~= seq![self.anode, self.cathode]);
        r
    }

    /// Its contributions: the current through it, and the derivative by its voltage.
    pub fn load(&self, current: Real, conductance: Real) -> (r: Vec<Stamp>)
        ensures
            r@ == self::conductance(self.anode, self.cathode, current, conductance),
    {
        stamp_conductance(self.anode, self.cathode, current, conductance)
    }

    /// Its noise: that of the current across the junction, of the given density.
    pub fn noise(&self, shot: Real) -> (r: (usize, usize, NoiseSource))
        ensures
            r == (self.anode, self.cathode, NoiseSource::White { psd: shot }),
    {
        (self.anode, self.cathode, NoiseSource::White { psd: shot })
    }
}

// ---- devices with a branch current ----------------------------------------

/// An ideal voltage source.
#[derive(Clone, Copy, Debug, PartialEq, Eq)]
pub struct VSource {
    pub p: usize,
    pub n: usize,
    pub branch: usize,
    pub value: Real,
}

/// The contributions of a voltage source. `mismatch` is by how much the voltage
/// between its terminals misses its value.
pub open spec fn source_stamps(d: VSource, mismatch: Real, current: Real) -> Seq<Stamp> {
    let one = Real { bits: ONE };
    seq![
        Stamp::Residual { row: d.branch, value: mismatch },
        Stamp::Jacobian { row: d.branch, col: d.p, value: one },
        Stamp::Jacobian { row: d.branch, col: d.n, value: one.opposite() },
    ] + branch_flow(d.p, d.n, d.branch, current)
}

impl VSource {
    /// A source between `p` and `n` whose current is the unknown `branch`.
    pub fn new(p: usize, n: usize, branch: usize, value: Real) -> (r: VSource)
        ensures
            r == (VSource { p, n, branch, value }),
    {
        VSource { p, n, branch, value }
    }

    /// The unknowns it reads and writes.
    pub fn unknowns(&self) -> (r: [usize; 3])
        ensures
            r@ == seq![self.p, self.n, self.branch],
    {
        let r: [usize; 3] = [self.p, self.n, self.branch];
        assert(r@ =~= seq![self.p, self.n, self.branch]);
        r
    }

    /// What its `i`-th unknown stands for.
    pub fn unknown_kind(&self, i: usize) -> (r: UnknownKind)
        ensures
            r == (if i == 2 {
                UnknownKind::Branch
            } else {
                UnknownKind::Node
            }),
    {
        if i == 2 {
            UnknownKind::Branch
        } else {
            UnknownKind::Node
        }
    }

    /// Its contributions.
    pub fn load(&self, mismatch: Real, x: &Vec<Real>) -> (r: Vec<Stamp>)
        ensures
            r@ == source_stamps(*self, mismatch, entry(x@, self.branch)),
    {
        let one = Real::one();
        let ib = at(x, self.branch);
        let r: Vec<Stamp> = vec![
            Stamp::Residual { row: self.branch, value: mismatch },
            Stamp::Jacobian { row: self.branch, col: self.p, value: one },
            Stamp::Jacobian { row: self.branch, col: self.n, value: one.negated() },
            Stamp::Residual { row: self.p, value: ib },
            Stamp::Residual { row: self.n, value: ib.negated() },
            Stamp::Jacobian { row: self.p, col: self.branch, value: one },
            Stamp::Jacobian { row: self.n, col: self.branch, value: one.negated() },
        ];
        assert(r@ =~= source_stamps(*self, mismatch, ib));
        r
    }
}

/// A linear inductor.
#[derive(Clone, Copy, Debug, PartialEq, Eq)]
pub struct Inductor {
    pub p: usize,
    pub n: usize,
    pub branch: usize,
    pub inductance: Real,
}

/// The contributions of an inductor. `voltage` is the voltage between its terminals
/// and `flux` its inductance times its current.
pub open spec fn inductor_stamps(d: Inductor, voltage: Real, flux: Real, current: Real) -> Seq<Stamp> {
    let one = Real { bits: ONE };
    seq![
        Stamp::Residual { row: d.branch, value: voltage.opposite() },
        Stamp::Jacobian { row: d.branch, col: d.p, value: one.opposite() },
        Stamp::Jacobian { row: d.branch, col: d.n, value: one },
        Stamp::Charge { row: d.branch, value: flux },
        Stamp::Dcharge { row: d.branch, col: d.branch, value: d.inductance },
    ] + branch_flow(d.p, d.n, d.branch, current)
}

impl Inductor {
    /// An inductor between `p` and `n` whose current is the unknown `branch`.
    pub fn new(p: usize, n: usize, branch: usize, inductance: Real) -> (r: Inductor)
        requires
            (Real { bits: 0 }).lt(inductance),
        ensures
            r == (Inductor { p, n, branch, inductance }),
    {
        Inductor { p, n, branch, inductance }
    }

    /// The unknowns it reads and writes.
    pub fn unknowns(&self) -> (r: [usize; 3])
        ensures
            r@ == seq![self.p, self.n, self.branch],
    {
        let r: [usize; 3] = [self.p, self.n, self.branch];
        assert(r@ =~= seq![self.p, self.n, self.branch]);
        r
    }

    /// What its `i`-th unknown stands for.
    pub fn unknown_kind(&self, i: usize) -> (r: UnknownKind)
        ensures
            r == (if i == 2 {
                UnknownKind::Branch
            } else {
                UnknownKind::Node
            }),
    {
        if i == 2 {
            UnknownKind::Branch
        } else {
            UnknownKind::Node
        }
    }

    /// Its contributions.
    pub fn load(&self, voltage: Real, flux: Real, x: &Vec<Real>) -> (r: Vec<Stamp>)
        ensures
            r@ == inductor_stamps(*self, voltage, flux, entry(x@, self.branch)),
    {
        let one = Real::one();
        let ib = at(x, self.branch);
        let r: Vec<Stamp> = vec![
            Stamp::Residual { row: self.branch, value: voltage.negated() },
            Stamp::Jacobian { row: self.branch, col: self.p, value: one.negated() },
            Stamp::Jacobian { row: self.branch, col: self.n, value: one },
            Stamp::Charge { row: self.branch, value: flux },
            Stamp::Dcharge { row: self.branch, col: self.branch, value: self.inductance },
            Stamp::Residual { row: self.p, value: ib },
            Stamp::Residual { row: self.n, value: ib.negated() },
            Stamp::Jacobian { row: self.p, col: self.branch, value: one },
            Stamp::Jacobian { row: self.n, col: self.branch, value: one.negated() },
        ];
        assert(r@ =~= inductor_stamps(*self, voltage, flux, ib));
        r
    }
}

/// Two coupled inductors.
#[derive(Clone, Copy, Debug, PartialEq, Eq)]
pub struct Mutual {
    pub first: usize,
    pub second: usize,
    pub inductance: Real,
}

/// The contributions of a coupling. Each branch takes the flux of the other's current.
pub open spec fn mutual_stamps(d: Mutual, flux_of_second: Real, flux_of_first: Real) -> Seq<Stamp> {
    seq![
        Stamp::Charge { row: d.first, value: flux_of_second },
        Stamp::Dcharge { row: d.first, col: d.second, value: d.inductance },
        Stamp::Charge { row: d.second, value: flux_of_first },
        Stamp::Dcharge { row: d.second, col: d.first, value: d.inductance },
    ]
}

/// A coefficient of coupling, brought into the range from minus one to one.
pub open spec fn clamped(k: Real) -> Real {
    let one = Real { bits: ONE };
    if k.lt(one.opposite()) {
        one.opposite()
    } else if one.lt(k) {
        one
    } else {
        k
    }
}

/// Brings a coefficient of coupling into the range from minus one to one.
pub fn clamp_coupling(k: Real) -> (r: Real)
    ensures
        r == clamped(k),
{
    let one = Real::one();
    let minus_one = one.negated();
    if k.less(minus_one) {
        minus_one
    } else if one.less(k) {
        one
    } else {
        k
    }
}

impl Mutual {
    /// A coupling of two branches by a mutual inductance.
    pub fn new(first: usize, second: usize, inductance: Real) -> (r: Mutual)
        ensures
            r == (Mutual { first, second, inductance }),
    {
        Mutual { first, second, inductance }
    }

    /// The unknowns it reads and writes.
    pub fn unknowns(&self) -> (r: [usize; 2])
        ensures
            r@ == seq![self.first, self.second],
    {
        let r: [usize; 2] = [self.first, self.second];
        assert(r@ =~= seq![self.first, self.second]);
        r
    }

    /// What its unknowns stand for: both are branch currents.
    pub fn unknown_kind(&self, i: usize) -> (r: UnknownKind)
        ensures
            r == UnknownKind::Branch,
    {
        UnknownKind::Branch
    }

    /// Its contributions.
    pub fn load(&self, flux_of_second: Real, flux_of_first: Real) -> (r: Vec<Stamp>)
        ensures
            r@ == mutual_stamps(*self, flux_of_second, flux_of_first),
    {
        let r: Vec<Stamp> = vec![
            Stamp::Charge { row: self.first, value: flux_of_second },
            Stamp::Dcharge { row: self.first, col: self.second, value: self.inductance },
            Stamp::Charge { row: self.second, value: flux_of_first },
            Stamp::Dcharge { row: self.second, col: self.first, value: self.inductance },
        ];
        assert(r@ =~= mutual_stamps(*self, flux_of_second, flux_of_first));
        r
    }
}

// ---- controlled sources ---------------------------------------------------

/// A voltage-controlled current source.
#[derive(Clone, Copy, Debug, PartialEq, Eq)]
pub struct Vccs {
    pub p: usize,
    pub n: usize,
    pub cp: usize,
    pub cn: usize,
    pub gain: Real,
}

/// The contributions of a voltage-controlled current source.
pub open spec fn vccs_stamps(d: Vccs, current: Real) -> Seq<Stamp> {
    seq![
        Stamp::Residual { row: d.p, value: current },
        Stamp::Residual { row: d.n, value: current.opposite() },
        Stamp::Jacobian { row: d.p, col: d.cp, value: d.gain },
        Stamp::Jacobian { row: d.p, col: d.cn, value: d.gain.opposite() },
        Stamp::Jacobian { row: d.n, col: d.cp, value: d.gain.opposite() },
        Stamp::Jacobian { row: d.n, col: d.cn, value: d.gain },
    ]
}

impl Vccs {
    /// A current from `p` to `n` that the voltage between `cp` and `cn` controls.
    pub fn new(p: usize, n: usize, cp: usize, cn: usize, gain: Real) -> (r: Vccs)
        ensures
            r == (Vccs { p, n, cp, cn, gain }),
    {
        Vccs { p, n, cp, cn, gain }
    }

    /// The unknowns it reads and writes.
    pub fn unknowns(&self) -> (r: [usize; 4])
        ensures
            r@ == seq![self.p, self.n, self.cp, self.cn],
    {
        let r: [usize; 4] = [self.p, self.n, self.cp, self.cn];
        assert(r@ =~= seq![self.p, self.n, self.cp, self.cn]);
        r
    }

    /// Its contributions.
    pub fn load(&self, current: Real) -> (r: Vec<Stamp>)
        ensures
            r@ == vccs_stamps(*self, current),
    {
        let r: Vec<Stamp> = vec![
            Stamp::Residual { row: self.p, value: current },
            Stamp::Residual { row: self.n, value: current.negated() },
            Stamp::Jacobian { row: self.p, col: self.cp, value: self.gain },
            Stamp::Jacobian { row: self.p, col: self.cn, value: self.gain.negated() },
            Stamp::Jacobian { row: self.n, col: self.cp, value: self.gain.negated() },
            Stamp::Jacobian { row: self.n, col: self.cn, value: self.gain },
        ];
        assert(r@ =~= vccs_stamps(*self, current));
        r
    }
}

/// A voltage-controlled voltage source.
#[derive(Clone, Copy, Debug, PartialEq, Eq)]
pub struct Vcvs {
    pub p: usize,
    pub n: usize,
    pub cp: usize,
    pub cn: usize,
    pub branch: usize,
    pub gain: Real,
}

/// The contributions of a voltage-controlled voltage source. `mismatch` is by how much
/// its voltage misses the controlled one.
pub open spec fn vcvs_stamps(d: Vcvs, mismatch: Real, current: Real) -> Seq<Stamp> {
    let one = Real { bits: ONE };
    seq![
        Stamp::Residual { row: d.branch, value: mismatch },
        Stamp::Jacobian { row: d.branch, col: d.p, value: one },
        Stamp::Jacobian { row: d.branch, col: d.n, value: one.opposite() },
        Stamp::Jacobian { row: d.branch, col: d.cp, value: d.gain.opposite() },
        Stamp::Jacobian { row: d.branch, col: d.cn, value: d.gain },
    ] + branch_flow(d.p, d.n, d.branch, current)
}

impl Vcvs {
    /// A voltage between `p` and `n` that the voltage between `cp` and `cn` controls.
    pub fn new(p: usize, n: usize, cp: usize, cn: usize, branch: usize, gain: Real) -> (r: Vcvs)
        ensures
            r == (Vcvs { p, n, cp, cn, branch, gain }),
    {
        Vcvs { p, n, cp, cn, branch, gain }
    }

    /// The unknowns it reads and writes.
    pub fn unknowns(&self) -> (r: [usize; 5])
        ensures
            r@ == seq![self.p, self.n, self.cp, self.cn, self.branch],
    {
        let r: [usize; 5] = [self.p, self.n, self.cp, self.cn, self.branch];
        assert(r@ =~= seq![self.p, self.n, self.cp, self.cn, self.branch]);
        r
    }

    /// What its `i`-th unknown stands for.
    pub fn unknown_kind(&self, i: usize) -> (r: UnknownKind)
        ensures
            r == (if i == 4 {
                UnknownKind::Branch
            } else {
                UnknownKind::Node
            }),
    {
        if i == 4 {
            UnknownKind::Branch
        } else {
            UnknownKind::Node
        }
    }

    /// Its contributions.
    pub fn load(&self, mismatch: Real, x: &Vec<Real>) -> (r: Vec<Stamp>)
        ensures
            r@ == vcvs_stamps(*self, mismatch, entry(x@, self.branch)),
    {
        let one = Real::one();
        let ib = at(x, self.branch);
        let r: Vec<Stamp> = vec![
            Stamp::Residual { row: self.branch, value: mismatch },
            Stamp::Jacobian { row: self.branch, col: self.p, value: one },
            Stamp::Jacobian { row: self.branch, col: self.n, value: one.negated() },
            Stamp::Jacobian { row: self.branch, col: self.cp, value: self.gain.negated() },
            Stamp::Jacobian { row: self.branch, col: self.cn, value: self.gain },
            Stamp::Residual { row: self.p, value: ib },
            Stamp::Residual { row: self.n, value: ib.negated() },
            Stamp::Jacobian { row: self.p, col: self.branch, value: one },
            Stamp::Jacobian { row: self.n, col: self.branch, value: one.negated() },
        ];
        assert(r@ =~= vcvs_stamps(*self, mismatch, ib));
        r
    }
}

// ---- the transistor -------------------------------------------------------

/// A bipolar transistor.
#[derive(Clone, Copy, Debug, PartialEq, Eq)]
pub struct Bjt {
    pub b: usize,
    pub c: usize,
    pub e: usize,
    pub saturation: Real,
    pub forward_gain: Real,
    pub reverse_gain: Real,
    pub thermal: Real,
}

/// The computed currents and conductances of a transistor: the base and the collector
/// current, their sum, and the derivatives by the junction voltages.
#[derive(Clone, Copy, Debug, PartialEq, Eq)]
pub struct BjtPoint {
    pub ib: Real,
    pub ic: Real,
    /// `ib + ic`.
    pub sum: Real,
    pub gbe: Real,
    pub gbc: Real,
    pub gf: Real,
    pub gr: Real,
    /// `gbe + gbc`.
    pub base: Real,
    /// `gf - gr - gbc`.
    pub transfer: Real,
    /// `gr + gbc`.
    pub collector: Real,
    /// `gbe + gf - gr`.
    pub emitter_base: Real,
    /// `gbe + gf`.
    pub emitter: Real,
}

/// The contributions of a transistor. What flows into the emitter is what flows out of
/// the base and the collector.
pub open spec fn bjt_stamps(d: Bjt, v: BjtPoint) -> Seq<Stamp> {
    seq![
        Stamp::Residual { row: d.b, value: v.ib },
        Stamp::Residual { row: d.c, value: v.ic },
        Stamp::Residual { row: d.e, value: v.sum.opposite() },
        Stamp::Jacobian { row: d.b, col: d.b, value: v.base },
        Stamp::Jacobian { row: d.b, col: d.c, value: v.gbc.opposite() },
        Stamp::Jacobian { row: d.b, col: d.e, value: v.gbe.opposite() },
        Stamp::Jacobian { row: d.c, col: d.b, value: v.transfer },
        Stamp::Jacobian { row: d.c, col: d.c, value: v.collector },
        Stamp::Jacobian { row: d.c, col: d.e, value: v.gf.opposite() },
        Stamp::Jacobian { row: d.e, col: d.b, value: v.emitter_base.opposite() },
        Stamp::Jacobian { row: d.e, col: d.c, value: v.gr.opposite() },
        Stamp::Jacobian { row: d.e, col: d.e, value: v.emitter },
    ]
}

impl Bjt {
    /// A transistor with its base, collector and emitter.
    pub fn new(
        b: usize,
        c: usize,
        e: usize,
        saturation: Real,
        forward_gain: Real,
        reverse_gain: Real,
        thermal: Real,
    ) -> (r: Bjt)
        requires
            (Real { bits: 0 }).lt(saturation),
            (Real { bits: 0 }).lt(forward_gain),
            (Real { bits: 0 }).lt(reverse_gain),
            (Real { bits: 0 }).lt(thermal),
        ensures
            r == (Bjt { b, c, e, saturation, forward_gain, reverse_gain, thermal }),
    {
        Bjt { b, c, e, saturation, forward_gain, reverse_gain, thermal }
    }

    /// The unknowns it reads and writes.
    pub fn unknowns(&self) -> (r: [usize; 3])
        ensures
            r@ == seq![self.b, self.c, self.e],
    {
        let r: [usize; 3] = [self.b, self.c, self.e];
        assert(r@ =~= seq![self.b, self.c, self.e]);
        r
    }

    /// Its contributions.
    pub fn load(&self, v: BjtPoint) -> (r: Vec<Stamp>)
        ensures
            r@ == bjt_stamps(*self, v),
    {
        let r: Vec<Stamp> = vec![
            Stamp::Residual { row: self.b, value: v.ib },
            Stamp::Residual { row: self.c, value: v.ic },
            Stamp::Residual { row: self.e, value: v.sum.negated() },
            Stamp::Jacobian { row: self.b, col: self.b, value: v.base },
            Stamp::Jacobian { row: self.b, col: self.c, value: v.gbc.negated() },
            Stamp::Jacobian { row: self.b, col: self.e, value: v.gbe.negated() },
            Stamp::Jacobian { row: self.c, col: self.b, value: v.transfer },
            Stamp::Jacobian { row: self.c, col: self.c, value: v.collector },
            Stamp::Jacobian { row: self.c, col: self.e, value: v.gf.negated() },
            Stamp::Jacobian { row: self.e, col: self.b, value: v.emitter_base.negated() },
            Stamp::Jacobian { row: self.e, col: self.c, value: v.gr.negated() },
            Stamp::Jacobian { row: self.e, col: self.e, value: v.emitter },
        ];
        assert(r@ =~= bjt_stamps(*self, v));
        r
    }

    /// Its noise: that of the base and that of the collector current, each against the
    /// emitter.
    pub fn noise(&self, base: Real, collector: Real) -> (r: Vec<(usize, usize, NoiseSource)>)
        ensures
            r@ == seq![
                (self.b, self.e, NoiseSource::White { psd: base }),
                (self.c, self.e, NoiseSource::White { psd: collector }),
            ],
    {
        let mut r: Vec<(usize, usize, NoiseSource)> = Vec::new();
        r.push((self.b, self.e, NoiseSource::White { psd: base }));
        r.push((self.c, self.e, NoiseSource::White { psd: collector }));
        assert(r@ =~= seq![
            (self.b, self.e, NoiseSource::White { psd: base }),
            (self.c, self.e, NoiseSource::White { psd: collector }),
        ]);
        r
    }
}

// ---- Kirchhoff's current law ----------------------------------------------

/// The sum of what the contributions add to the residuals, each number valued by `val`.
pub open spec fn residual_sum(stamps: Seq<Stamp>, val: spec_fn(Real) -> int) -> int
    decreases stamps.len(),
{
    if stamps.len() == 0 {
        0
    } else {
        residual_sum(stamps.drop_last(), val) + (match stamps.last() {
            Stamp::Residual { value, .. } => val(value),
            _ => 0,
        })
    }
}

/// The sum of what the contributions add to the derivatives by one unknown.
pub open spec fn column_sum(stamps: Seq<Stamp>, col: usize, val: spec_fn(Real) -> int) -> int
    decreases stamps.len(),
{
    if stamps.len() == 0 {
        0
    } else {
        column_sum(stamps.drop_last(), col, val) + (match stamps.last() {
            Stamp::Jacobian { col: c, value, .. } => if c == col {
                val(value)
            } else {
                0
            },
            _ => 0,
        })
    }
}

/// The sum of what the contributions add to the charges.
pub open spec fn charge_sum(stamps: Seq<Stamp>, val: spec_fn(Real) -> int) -> int
    decreases stamps.len(),
{
    if stamps.len() == 0 {
        0
    } else {
        charge_sum(stamps.drop_last(), val) + (match stamps.last() {
            Stamp::Charge { value, .. } => val(value),
            _ => 0,
        })
    }
}

/// The sum of what the contributions add to the derivatives of the charges by one
/// unknown.
pub open spec fn charge_column_sum(stamps: Seq<Stamp>, col: usize, val: spec_fn(Real) -> int) -> int
    decreases stamps.len(),
{
    if stamps.len() == 0 {
        0
    } else {
        charge_column_sum(stamps.drop_last(), col, val) + (match stamps.last() {
            Stamp::Dcharge { col: c, value, .. } => if c == col {
                val(value)
            } else {
                0
            },
            _ => 0,
        })
    }
}

/// The value of the opposite number is the opposite value.
pub open spec fn is_odd(val: spec_fn(Real) -> int) -> bool {
    forall|x: Real| #[trigger] val(x.opposite()) == -val(x)
}

/// What flows into a two-terminal device flows out of it, and so do the derivatives by
/// each unknown.
pub proof fn a_conductance_conserves_current(
    p: usize,
    n: usize,
    i: Real,
    g: Real,
    col: usize,
    val: spec_fn(Real) -> int,
)
    requires
        is_odd(val),
    ensures
        residual_sum(conductance(p, n, i, g), val) == 0,
        column_sum(conductance(p, n, i, g), col, val) == 0,
{
    reveal_with_fuel(residual_sum, 7);
    reveal_with_fuel(column_sum, 7);
}

/// The charges on the two sides of a capacitor are opposite, and so are their
/// derivatives by each unknown.
pub proof fn a_capacitance_conserves_charge(
    p: usize,
    n: usize,
    q: Real,
    c: Real,
    col: usize,
    val: spec_fn(Real) -> int,
)
    requires
        is_odd(val),
    ensures
        charge_sum(capacitance(p, n, q, c), val) == 0,
        charge_column_sum(capacitance(p, n, q, c), col, val) == 0,
{
    reveal_with_fuel(charge_sum, 7);
    reveal_with_fuel(charge_column_sum, 7);
}

/// The branch current of a source or an inductor leaves one node and enters the other.
pub proof fn a_branch_conserves_current(
    p: usize,
    n: usize,
    b: usize,
    ib: Real,
    col: usize,
    val: spec_fn(Real) -> int,
)
    requires
        is_odd(val),
    ensures
        residual_sum(branch_flow(p, n, b, ib), val) == 0,
        column_sum(branch_flow(p, n, b, ib), col, val) == 0,
{
    reveal_with_fuel(residual_sum, 5);
    reveal_with_fuel(column_sum, 5);
}

/// A controlled current leaves one node and enters the other.
pub proof fn a_controlled_current_is_conserved(
    d: Vccs,
    current: Real,
    col: usize,
    val: spec_fn(Real) -> int,
)
    requires
        is_odd(val),
    ensures
        residual_sum(vccs_stamps(d, current), val) == 0,
        column_sum(vccs_stamps(d, current), col, val) == 0,
{
    reveal_with_fuel(residual_sum, 7);
    reveal_with_fuel(column_sum, 7);
}

/// The currents of a transistor sum to zero, and so do their derivatives by each of its
/// terminals, where its sums and differences are exact.
pub proof fn a_transistor_conserves_current(
    d: Bjt,
    v: BjtPoint,
    col: usize,
    val: spec_fn(Real) -> int,
)
    requires
        is_odd(val),
        val(v.sum) == val(v.ib) + val(v.ic),
        val(v.base) == val(v.gbe) + val(v.gbc),
        val(v.transfer) == val(v.gf) - val(v.gr) - val(v.gbc),
        val(v.collector) == val(v.gr) + val(v.gbc),
        val(v.emitter_base) == val(v.gbe) + val(v.gf) - val(v.gr),
        val(v.emitter) == val(v.gbe) + val(v.gf),
    ensures
        residual_sum(bjt_stamps(d, v), val) == 0,
        column_sum(bjt_stamps(d, v), col, val) == 0,
{
    reveal_with_fuel(residual_sum, 13);
    reveal_with_fuel(column_sum, 13);
}

} // verus!
