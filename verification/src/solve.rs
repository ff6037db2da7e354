//! What each analysis solves: the sources it sweeps, excites or probes, and the
//! values it starts from.
use crate::ac::{AcSweep, AcSweepKind};
use crate::build_message::{list_texts, listed};
use crate::circuit::{current_index, find_current};
use crate::netlist::{AcSpec, AcSweepKindCard, DcSweep, Device, Netlist, NoiseCard};
use crate::number::Real;
use crate::search::{first_where, lemma_first_where};
use crate::text::{decimal, decimal_text, join, join_texts, same_text, texts};
use vstd::prelude::*;

verus! {

/// Being a device of this name.
pub open spec fn is_device_named(name: Seq<char>) -> spec_fn(Device) -> bool {
    |d: Device| d.name@ == name
}

/// The place of the first device of this name.
pub open spec fn device_index(devices: Seq<Device>, name: Seq<char>) -> int {
    first_where(devices, is_device_named(name))
}

/// The place of the first device of this name; the number of devices where there is
/// none.
pub fn find_device(devices: &Vec<Device>, name: &str) -> (r: usize)
    ensures
        r == device_index(devices@, name@),
        r <= devices@.len(),
{
    let mut k: usize = 0;
    while k < devices.len() && !same_text(devices[k].name.as_str(), name)
        invariant
            k <= devices@.len(),
            forall|j: int| 0 <= j < k ==> (#[trigger] devices@[j]).name@ != name@,
        decreases devices@.len() - k,
    {
        k += 1;
    }
    proof {
        lemma_first_where(devices@, is_device_named(name@), k as int);
    }
    k
}

// ---- what can be wrong ----------------------------------------------------

/// Why an analysis cannot be set up.
#[derive(Clone, Debug, PartialEq, Eq)]
pub enum SetupError {
    /// `.dc` sweeps a device that is not there.
    UnknownSweep { source: String },
    /// `.dc` sweeps something else than a voltage source.
    NotAVoltageSource { source: String, model: String },
    /// The deck has no `.tran` card.
    NoTransientCard,
    /// The deck has no `.ac` card.
    NoAcCard,
    /// No source is excited.
    NoExcitation { sources: usize },
    /// The deck has no `.noise` card.
    NoNoiseCard,
    /// `.noise` observes a net that is not there.
    UnknownNet { output: String, nets: Vec<String> },
    /// `.noise` refers to a source that has no branch current.
    UnknownInput { source: String, sources: Vec<String> },
    /// No device contributes any noise.
    Silent,
}

impl SetupError {
    /// What to tell the user.
    pub open spec fn text(self) -> Seq<char> {
        match self {
            SetupError::UnknownSweep { source } => "`.dc` sweeps unknown device `"@ + source@
                + "`"@,
            SetupError::NotAVoltageSource { source, model } =>
                "`.dc` can only sweep a voltage source; `"@ + source@ + "` is a `"@ + model@
                + "`"@,
            SetupError::NoTransientCard => "transient analysis requires a `.tran <tstep> <tstop>` card"@,
            SetupError::NoAcCard => "AC analysis requires an `.ac dec <points-per-decade> <fstart> <fstop>` card"@,
            SetupError::NoExcitation { sources } => "AC analysis needs at least one source with an `AC <magnitude>` spec; none of this deck's "@ + decimal(sources as nat) + " voltage source(s) has one (the response would be identically zero)"@,
            SetupError::NoNoiseCard => "noise analysis requires a `.noise V(<out>) <source> dec <ppd> <fstart> <fstop>` card"@,
            SetupError::UnknownNet { output, nets } => "`.noise` probes V("@ + output@
                + "), which is not a net in this circuit (nets: "@ + join(texts(nets@), ", "@)
                + ")"@,
            SetupError::UnknownInput { source, sources } => "`.noise` names `"@ + source@
                + "` as its input source, which is not a voltage source in this circuit (sources: "@ + listed(texts(sources@)) + ")"@,
            SetupError::Silent => "no device in this circuit contributes any noise, so the spectrum would be identically zero. A device is only a noise source if it says so: a resistor and the reference diode contribute thermal/shot noise inherently, and a compiled Verilog-A model contributes exactly what its own `white_noise()`/`flicker_noise()`/`noise_table()` calls declare — a model with none is silent by construction, not by omission in this simulator"@,
        }
    }

    /// What to tell the user.
    pub fn message(&self) -> (r: String)
        ensures
            r@ == self.text(),
    {
        match self {
            SetupError::UnknownSweep { source } => {
                let mut r = "`.dc` sweeps unknown device `".to_owned();
                r.append(source.as_str());
                r.append("`");
                r
            },
            SetupError::NotAVoltageSource { source, model } => {
                let mut r = "`.dc` can only sweep a voltage source; `".to_owned();
                r.append(source.as_str());
                r.append("` is a `");
                r.append(model.as_str());
                r.append("`");
                r
            },
            SetupError::NoTransientCard => "transient analysis requires a `.tran <tstep> <tstop>` card".to_owned(),
            SetupError::NoAcCard => "AC analysis requires an `.ac dec <points-per-decade> <fstart> <fstop>` card".to_owned(),
            SetupError::NoExcitation { sources } => {
                let mut r = "AC analysis needs at least one source with an `AC <magnitude>` spec; none of this deck's ".to_owned();
                r.append(decimal_text(*sources as u64).as_str());
                r.append(" voltage source(s) has one (the response would be identically zero)");
                r
            },
            SetupError::NoNoiseCard => "noise analysis requires a `.noise V(<out>) <source> dec <ppd> <fstart> <fstop>` card".to_owned(),
            SetupError::UnknownNet { output, nets } => {
                let mut r = "`.noise` probes V(".to_owned();
                r.append(output.as_str());
                r.append("), which is not a net in this circuit (nets: ");
                r.append(join_texts(nets, ", ").as_str());
                r.append(")");
                r
            },
            SetupError::UnknownInput { source, sources } => {
                let mut r = "`.noise` names `".to_owned();
                r.append(source.as_str());
                r.append("` as its input source, which is not a voltage source in this circuit (sources: ");
                r.append(list_texts(sources).as_str());
                r.append(")");
                r
            },
            SetupError::Silent => "no device in this circuit contributes any noise, so the spectrum would be identically zero. A device is only a noise source if it says so: a resistor and the reference diode contribute thermal/shot noise inherently, and a compiled Verilog-A model contributes exactly what its own `white_noise()`/`flicker_noise()`/`noise_table()` calls declare — a model with none is silent by construction, not by omission in this simulator".to_owned(),
        }
    }
}

// ---- the cards of a deck --------------------------------------------------

/// The step and the end of a transient run.
pub fn transient_window(net: &Netlist) -> (r: Result<(Real, Real), SetupError>)
    ensures
        match net.tran {
            Some(window) => r == Ok::<(Real, Real), SetupError>(window),
            None => r == Err::<(Real, Real), SetupError>(SetupError::NoTransientCard),
        },
{
    match net.tran {
        Some(window) => Ok(window),
        None => Err(SetupError::NoTransientCard),
    }
}

/// The spacing that an `.ac` card asks for.
pub open spec fn spacing(kind: AcSweepKindCard) -> AcSweepKind {
    match kind {
        AcSweepKindCard::Dec => AcSweepKind::Dec,
        AcSweepKindCard::Oct => AcSweepKind::Oct,
        AcSweepKindCard::Lin => AcSweepKind::Lin,
    }
}

/// The sweep of the `.ac` card.
pub fn ac_sweep(net: &Netlist) -> (r: Result<AcSweep, SetupError>)
    ensures
        match net.ac {
            Some(card) => r == Ok::<AcSweep, SetupError>(
                AcSweep {
                    fstart: card.fstart,
                    fstop: card.fstop,
                    points: card.points,
                    kind: spacing(card.kind),
                },
            ),
            None => r == Err::<AcSweep, SetupError>(SetupError::NoAcCard),
        },
{
    match net.ac {
        Some(card) => {
            let kind = match card.kind {
                AcSweepKindCard::Dec => AcSweepKind::Dec,
                AcSweepKindCard::Oct => AcSweepKind::Oct,
                AcSweepKindCard::Lin => AcSweepKind::Lin,
            };
            Ok(AcSweep { fstart: card.fstart, fstop: card.fstop, points: card.points, kind })
        },
        None => Err(SetupError::NoAcCard),
    }
}

/// The sweep of the `.noise` card, whose points are always spaced by decades: the
/// integrated total takes them to be.
pub fn noise_sweep(card: &NoiseCard) -> (r: AcSweep)
    ensures
        r == (AcSweep {
            fstart: card.fstart,
            fstop: card.fstop,
            points: card.points_per_decade,
            kind: AcSweepKind::Dec,
        }),
{
    AcSweep::dec(card.fstart, card.fstop, card.points_per_decade)
}

// ---- DC sweep -------------------------------------------------------------

/// The device that a `.dc` card sweeps: the first of its name, which must be a
/// voltage source.
pub open spec fn swept_source(devices: Seq<Device>, source: String) -> Result<int, SetupError> {
    let k = device_index(devices, source@);
    if k >= devices.len() {
        Err(SetupError::UnknownSweep { source })
    } else if devices[k].model@ != "vsource"@ {
        Err(SetupError::NotAVoltageSource { source, model: devices[k].model })
    } else {
        Ok(k)
    }
}

/// Finds the device that a `.dc` card sweeps.
pub fn sweep_source(net: &Netlist, sweep: &DcSweep) -> (r: Result<usize, SetupError>)
    ensures
        match r {
            Ok(k) => {
                &&& swept_source(net.devices@, sweep.source) == Ok::<int, SetupError>(k as int)
                &&& k < net.devices@.len()
            },
            Err(e) => swept_source(net.devices@, sweep.source) == Err::<int, SetupError>(e),
        },
{
    let k = find_device(&net.devices, sweep.source.as_str());
    if k == net.devices.len() {
        return Err(SetupError::UnknownSweep { source: sweep.source.clone() });
    }
    if !same_text(net.devices[k].model.as_str(), "vsource") {
        return Err(
            SetupError::NotAVoltageSource {
                source: sweep.source.clone(),
                model: net.devices[k].model.clone(),
            },
        );
    }
    Ok(k)
}

/// Sets the value of one device, as a sweep does at each of its points.
pub fn set_value(devices: &mut Vec<Device>, k: usize, value: Real)
    requires
        k < old(devices)@.len(),
    ensures
        final(devices)@ == old(devices)@.update(
            k as int,
            (Device { value: Some(value), ..old(devices)@[k as int] }),
        ),
{
    devices[k].value = Some(value);
}

/// A sweep takes its start alone when its step is zero or leads away from its end.
/// `lead` is the distance to the end times the step.
pub open spec fn single_point(step: Real, lead: Real) -> bool {
    (!step.nan() && step.rank() == 0) || lead.lt(Real { bits: 0 })
}

/// The values of a sweep: the start alone, or the start and `steps` further points.
/// `point` gives the value so many steps from the start.
pub fn sweep_points<F: Fn(usize) -> Real>(
    start: Real,
    step: Real,
    lead: Real,
    steps: usize,
    point: F,
) -> (r: Vec<Real>)
    requires
        steps < usize::MAX,
        forall|i: usize| #[trigger] call_requires(point, (i,)),
    ensures
        single_point(step, lead) ==> r@ == seq![start],
        !single_point(step, lead) ==> r@.len() == steps + 1 && forall|i: int|
            0 <= i <= steps ==> call_ensures(point, (i as usize,), #[trigger] r@[i]),
{
    let mut r: Vec<Real> = Vec::new();
    if step.equals(Real::zero()) || lead.less(Real::zero()) {
        r.push(start);
        assert(r@ =~= seq![start]);
        return r;
    }
    let mut i: usize = 0;
    while i <= steps
        invariant
            steps < usize::MAX,
            i <= steps + 1,
            r@.len() == i,
            forall|j: usize| #[trigger] call_requires(point, (j,)),
            forall|j: int| 0 <= j < i ==> call_ensures(point, (j as usize,), #[trigger] r@[j]),
        decreases steps + 1 - i,
    {
        r.push(point(i));
        i += 1;
    }
    r
}

// ---- initial conditions ---------------------------------------------------

/// An entry of the solution vector; zero for the reference node.
pub open spec fn entry(x: Seq<Real>, n: usize) -> Real {
    if n < x.len() {
        x[n as int]
    } else {
        Real { bits: 0 }
    }
}

/// What one device's initial condition makes of the solution vector: an inductor's
/// goes to the row of its branch current; another device's is added to the value at
/// its second terminal and goes to its first. Where the first one is the reference node,
/// the second one takes the opposite of the condition.
pub open spec fn seeds<F: Fn(Real, Real) -> Real>(
    dev: Device,
    dim: int,
    currents: Seq<(String, usize)>,
    plus: F,
    before: Seq<Real>,
    after: Seq<Real>,
) -> bool {
    match dev.ic {
        None => after == before,
        Some(ic) => if dev.model@ == "inductor"@ {
            let c = current_index(currents, dev.name@);
            if c < currents.len() && currents[c].1 < dim {
                after == before.update(currents[c].1 as int, ic)
            } else {
                after == before
            }
        } else if dev.terminals@.len() < 2 {
            after == before
        } else if dev.terminals@[0] >= dim {
            if dev.terminals@[1] < dim {
                after == before.update(dev.terminals@[1] as int, ic.opposite())
            } else {
                after == before
            }
        } else {
            let p = dev.terminals@[0] as int;
            exists|v: Real| #[trigger]
                call_ensures(plus, (entry(before, dev.terminals@[1]), ic), v) && after
                    == before.update(p, v)
        },
    }
}

/// The condition of a capacitor with one end at the reference node is exact: the other
/// end alone takes it, with the sign that makes the first terminal's value less the
/// second's the condition.
pub proof fn a_grounded_condition_is_exact<F: Fn(Real, Real) -> Real>(
    dev: Device,
    dim: int,
    currents: Seq<(String, usize)>,
    plus: F,
    before: Seq<Real>,
    after: Seq<Real>,
)
    requires
        seeds(dev, dim, currents, plus, before, after),
        before.len() == dim,
        dev.model@ == "capacitor"@,
        dev.ic is Some,
        dev.terminals@.len() == 2,
        (dev.terminals@[0] < dim) != (dev.terminals@[1] < dim),
    ensures
        after.len() == dim,
        dev.terminals@[1] >= dim ==> call_ensures(
            plus,
            (Real { bits: 0 }, dev.ic->0),
            after[dev.terminals@[0] as int],
        ),
        dev.terminals@[0] >= dim ==> after[dev.terminals@[1] as int] == dev.ic->0.opposite(),
        forall|i: int|
            0 <= i < dim && i != dev.terminals@[0] && i != dev.terminals@[1] ==> #[trigger] after[i]
                == before[i],
{
    reveal_strlit("capacitor");
    reveal_strlit("inductor");
    assert("capacitor"@.len() == 9);
    assert("inductor"@.len() == 8);
}

/// The vectors from zero on that the devices' initial conditions lead through.
pub open spec fn is_seeding<F: Fn(Real, Real) -> Real>(
    devices: Seq<Device>,
    dim: int,
    currents: Seq<(String, usize)>,
    plus: F,
    steps: Seq<Seq<Real>>,
) -> bool {
    &&& steps.len() == devices.len() + 1
    &&& steps[0] == Seq::new(dim as nat, |i: int| Real { bits: 0 })
    &&& forall|i: int|
        0 <= i < devices.len() ==> #[trigger] seeds(
            devices[i],
            dim,
            currents,
            plus,
            steps[i],
            steps[i + 1],
        )
}

/// The solution vector that a transient run starts from: zero, with each device's
/// initial condition applied in the order of the deck. `plus` adds two numbers.
pub fn initial_solution<F: Fn(Real, Real) -> Real>(
    net: &Netlist,
    dim: usize,
    currents: &Vec<(String, usize)>,
    plus: F,
) -> (r: Vec<Real>)
    requires
        forall|a: Real, b: Real| #[trigger] call_requires(plus, (a, b)),
    ensures
        r@.len() == dim,
        exists|steps: Seq<Seq<Real>>|
            #[trigger] is_seeding(net.devices@, dim as int, currents@, plus, steps) && r@
                == steps.last(),
{
    let mut x: Vec<Real> = Vec::new();
    let mut i: usize = 0;
    while i < dim
        invariant
            i <= dim,
            x@.len() == i,
            forall|j: int| 0 <= j < i ==> #[trigger] x@[j] == (Real { bits: 0 }),
        decreases dim - i,
    {
        x.push(Real::zero());
        i += 1;
    }
    let ghost mut steps: Seq<Seq<Real>> = seq![x@];
    assert(x@ =~= Seq::new(dim as nat, |i: int| Real { bits: 0 }));
    let mut d: usize = 0;
    while d < net.devices.len()
        invariant
            forall|a: Real, b: Real| #[trigger] call_requires(plus, (a, b)),
            d <= net.devices@.len(),
            x@.len() == dim,
            steps.len() == d + 1,
            steps[0] == Seq::new(dim as nat, |i: int| Real { bits: 0 }),
            steps.last() == x@,
            forall|j: int|
                0 <= j < d ==> #[trigger] seeds(
                    net.devices@[j],
                    dim as int,
                    currents@,
                    plus,
                    steps[j],
                    steps[j + 1],
                ),
        decreases net.devices@.len() - d,
    {
        let dev = &net.devices[d];
        let ghost before = x@;
        let ghost old_steps = steps;
        match dev.ic {
            None => {},
            Some(ic) => {
                if same_text(dev.model.as_str(), "inductor") {
                    let c = find_current(currents, dev.name.as_str());
                    if c < currents.len() && currents[c].1 < dim {
                        x.set(currents[c].1, ic);
                    }
                } else if dev.terminals.len() >= 2 {
                    let p = dev.terminals[0];
                    let n = dev.terminals[1];
                    if p < dim {
                        let vn = if n < dim {
                            x[n]
                        } else {
                            Real::zero()
                        };
                        assert(vn == entry(x@, n));
                        let v = plus(vn, ic);
                        x.set(p, v);
                    } else if n < dim {
                        x.set(n, ic.negated());
                    }
                }
            },
        }
        proof {
            steps = steps.push(x@);
            assert(seeds(*dev, dim as int, currents@, plus, before, x@));
            assert forall|j: int| 0 <= j < d + 1 implies #[trigger] seeds(
                net.devices@[j],
                dim as int,
                currents@,
                plus,
                steps[j],
                steps[j + 1],
            ) by {
                if j < d {
                    assert(steps[j] == old_steps[j]);
                    assert(steps[j + 1] == old_steps[j + 1]);
                }
            }
        }
        d += 1;
    }
    assert(is_seeding(net.devices@, dim as int, currents@, plus, steps));
    x
}

// ---- AC excitation --------------------------------------------------------

/// The excitation of the device of this name, if it is there and has one.
pub open spec fn excitation_of(devices: Seq<Device>, name: Seq<char>) -> Option<AcSpec> {
    let k = device_index(devices, name);
    if k < devices.len() {
        devices[k].ac
    } else {
        None
    }
}

/// The excitation on a row: that of the last of the first `upto` branch currents
/// that has the row and is excited.
pub open spec fn row_excitation(
    devices: Seq<Device>,
    currents: Seq<(String, usize)>,
    row: int,
    upto: int,
) -> Option<AcSpec>
    decreases upto,
{
    if upto <= 0 {
        None
    } else if currents[upto - 1].1 == row && excitation_of(devices, currents[upto - 1].0@) is Some {
        excitation_of(devices, currents[upto - 1].0@)
    } else {
        row_excitation(devices, currents, row, upto - 1)
    }
}

/// Some branch current is excited.
pub open spec fn any_excitation(devices: Seq<Device>, currents: Seq<(String, usize)>) -> bool {
    exists|k: int|
        0 <= k < currents.len() && excitation_of(devices, (#[trigger] currents[k]).0@) is Some
}

/// The small-signal excitation of a circuit: each excited source drives its own
/// branch row. `phasor` gives the complex number of a magnitude and a phase in
/// degrees.
pub fn ac_excitation<F: Fn(Real, Real) -> (Real, Real)>(
    net: &Netlist,
    currents: &Vec<(String, usize)>,
    dim: usize,
    phasor: F,
) -> (r: Result<Vec<(Real, Real)>, SetupError>)
    requires
        forall|a: Real, b: Real| #[trigger] call_requires(phasor, (a, b)),
        forall|k: int| 0 <= k < currents@.len() ==> (#[trigger] currents@[k]).1 < dim,
    ensures
        match r {
            Ok(b) => {
                &&& any_excitation(net.devices@, currents@)
                &&& b@.len() == dim
                &&& forall|row: int|
                    0 <= row < dim ==> match row_excitation(
                        net.devices@,
                        currents@,
                        row,
                        currents@.len() as int,
                    ) {
                        None => #[trigger] b@[row] == (Real { bits: 0 }, Real { bits: 0 }),
                        Some(ac) => call_ensures(
                            phasor,
                            (ac.magnitude, ac.phase_deg),
                            b@[row],
                        ),
                    }
            },
            Err(e) => {
                &&& !any_excitation(net.devices@, currents@)
                &&& e == SetupError::NoExcitation { sources: currents@.len() as usize }
            },
        },
{
    let mut b: Vec<(Real, Real)> = Vec::new();
    let mut i: usize = 0;
    while i < dim
        invariant
            i <= dim,
            b@.len() == i,
            forall|j: int|
                0 <= j < i ==> #[trigger] b@[j] == (Real { bits: 0 }, Real { bits: 0 }),
        decreases dim - i,
    {
        b.push((Real::zero(), Real::zero()));
        i += 1;
    }
    let mut driven = false;
    let mut k: usize = 0;
    while k < currents.len()
        invariant
            forall|a: Real, c: Real| #[trigger] call_requires(phasor, (a, c)),
            forall|j: int| 0 <= j < currents@.len() ==> (#[trigger] currents@[j]).1 < dim,
            k <= currents@.len(),
            b@.len() == dim,
            driven == (exists|j: int|
                0 <= j < k && excitation_of(net.devices@, (#[trigger] currents@[j]).0@) is Some),
            forall|row: int|
                0 <= row < dim ==> match row_excitation(
                    net.devices@,
                    currents@,
                    row,
                    k as int,
                ) {
                    None => #[trigger] b@[row] == (Real { bits: 0 }, Real { bits: 0 }),
                    Some(ac) => call_ensures(phasor, (ac.magnitude, ac.phase_deg), b@[row]),
                },
        decreases currents@.len() - k,
    {
        let d = find_device(&net.devices, currents[k].0.as_str());
        if d < net.devices.len() {
            if let Some(ac) = net.devices[d].ac {
                assert(excitation_of(net.devices@, currents@[k as int].0@) == Some(ac));
                let z = phasor(ac.magnitude, ac.phase_deg);
                b.set(currents[k].1, z);
                driven = true;
            }
        }
        k += 1;
    }
    if !driven {
        return Err(SetupError::NoExcitation { sources: currents.len() });
    }
    Ok(b)
}

// ---- noise ----------------------------------------------------------------

/// Being a net of this name.
pub open spec fn is_net_named(name: Seq<char>) -> spec_fn((String, usize)) -> bool {
    |n: (String, usize)| n.0@ == name
}

/// The place of the first net of this name.
pub open spec fn net_index(nodes: Seq<(String, usize)>, name: Seq<char>) -> int {
    first_where(nodes, is_net_named(name))
}

/// The unknown that a `.noise` card observes.
pub fn noise_output(net: &Netlist) -> (r: Result<usize, SetupError>)
    ensures
        match net.noise {
            None => r == Err::<usize, SetupError>(SetupError::NoNoiseCard),
            Some(card) => {
                let k = net_index(net.nodes@, card.output@);
                match r {
                    Ok(output) => k < net.nodes@.len() && output == net.nodes@[k].1,
                    Err(e) => {
                        &&& k >= net.nodes@.len()
                        &&& e matches SetupError::UnknownNet { output, nets }
                        &&& output == card.output
                        &&& texts(nets@) == texts(net.node_order@)
                    },
                }
            },
        },
{
    let card = match &net.noise {
        Some(card) => card,
        None => {
            return Err(SetupError::NoNoiseCard);
        },
    };
    let mut k: usize = 0;
    while k < net.nodes.len() && !same_text(net.nodes[k].0.as_str(), card.output.as_str())
        invariant
            k <= net.nodes@.len(),
            forall|j: int| 0 <= j < k ==> (#[trigger] net.nodes@[j]).0@ != card.output@,
        decreases net.nodes@.len() - k,
    {
        k += 1;
    }
    proof {
        lemma_first_where(net.nodes@, is_net_named(card.output@), k as int);
    }
    if k == net.nodes.len() {
        let mut nets: Vec<String> = Vec::new();
        let mut i: usize = 0;
        while i < net.node_order.len()
            invariant
                i <= net.node_order@.len(),
                nets@ =~= net.node_order@.subrange(0, i as int),
            decreases net.node_order@.len() - i,
        {
            nets.push(net.node_order[i].clone());
            i += 1;
        }
        assert(nets@ =~= net.node_order@);
        return Err(SetupError::UnknownNet { output: card.output.clone(), nets });
    }
    Ok(net.nodes[k].1)
}

/// The names of the voltage sources, in the order of the deck.
pub open spec fn voltage_sources(devices: Seq<Device>) -> Seq<Seq<char>>
    decreases devices.len(),
{
    if devices.len() == 0 {
        Seq::empty()
    } else if devices.last().model@ == "vsource"@ {
        voltage_sources(devices.drop_last()).push(devices.last().name@)
    } else {
        voltage_sources(devices.drop_last())
    }
}

/// The name is that of a voltage source with a branch current.
pub open spec fn is_input(
    devices: Seq<Device>,
    currents: Seq<(String, usize)>,
    name: Seq<char>,
) -> bool {
    let d = device_index(devices, name);
    &&& d < devices.len()
    &&& devices[d].model@ == "vsource"@
    &&& current_index(currents, name) < currents.len()
}

/// The row of the source that a `.noise` card refers to. Only a voltage source can be
/// the input, whatever other devices have a branch current.
pub fn noise_input(
    devices: &Vec<Device>,
    card: &NoiseCard,
    currents: &Vec<(String, usize)>,
) -> (r: Result<usize, SetupError>)
    ensures
        match r {
            Ok(input) => {
                &&& is_input(devices@, currents@, card.source@)
                &&& input == currents@[current_index(currents@, card.source@)].1
            },
            Err(e) => {
                &&& !is_input(devices@, currents@, card.source@)
                &&& e matches SetupError::UnknownInput { source, sources }
                &&& source == card.source
                &&& texts(sources@) == voltage_sources(devices@)
            },
        },
{
    let d = find_device(devices, card.source.as_str());
    if d < devices.len() && same_text(devices[d].model.as_str(), "vsource") {
        let k = find_current(currents, card.source.as_str());
        if k < currents.len() {
            return Ok(currents[k].1);
        }
    }
    let mut sources: Vec<String> = Vec::new();
    let mut i: usize = 0;
    assert(devices@.take(0) =~= Seq::empty());
    assert(texts(sources@) =~= Seq::empty());
    while i < devices.len()
        invariant
            i <= devices@.len(),
            texts(sources@) == voltage_sources(devices@.take(i as int)),
        decreases devices@.len() - i,
    {
        let ghost before = texts(sources@);
        assert(devices@.take(i + 1).drop_last() =~= devices@.take(i as int));
        if same_text(devices[i].model.as_str(), "vsource") {
            sources.push(devices[i].name.clone());
            assert(texts(sources@) =~= before.push(devices@[i as int].name@));
        }
        i += 1;
    }
    assert(devices@.take(i as int) =~= devices@);
    Err(SetupError::UnknownInput { source: card.source.clone(), sources })
}

/// The names and series of those entries whose device is in the deck.
pub open spec fn named_series(
    devices: Seq<Device>,
    entries: Seq<(usize, Vec<Real>)>,
) -> Seq<(String, Seq<Real>)>
    decreases entries.len(),
{
    if entries.len() == 0 {
        Seq::empty()
    } else {
        let before = named_series(devices, entries.drop_last());
        let (k, series) = entries.last();
        if k < devices.len() {
            before.push((devices[k as int].name, series@))
        } else {
            before
        }
    }
}

/// Names each contributor to a noise spectrum by the device at its place. An entry
/// without a device is left out.
pub fn noise_contributors(net: &Netlist, entries: &Vec<(usize, Vec<Real>)>) -> (r: Vec<
    (String, Vec<Real>),
>)
    ensures
        r@.map_values(|c: (String, Vec<Real>)| (c.0, c.1@)) == named_series(
            net.devices@,
            entries@,
        ),
{
    let mut r: Vec<(String, Vec<Real>)> = Vec::new();
    let mut i: usize = 0;
    assert(entries@.subrange(0, 0) =~= Seq::empty());
    assert(r@.map_values(|c: (String, Vec<Real>)| (c.0, c.1@)) =~= Seq::empty());
    while i < entries.len()
        invariant
            i <= entries@.len(),
            r@.map_values(|c: (String, Vec<Real>)| (c.0, c.1@)) == named_series(
                net.devices@,
                entries@.subrange(0, i as int),
            ),
        decreases entries@.len() - i,
    {
        proof {
            let upto = entries@.subrange(0, i + 1);
            assert(upto.drop_last() =~= entries@.subrange(0, i as int));
            assert(upto.last() == entries@[i as int]);
        }
        let k = entries[i].0;
        if k < net.devices.len() {
            let mut series: Vec<Real> = Vec::new();
            let mut j: usize = 0;
            while j < entries[i].1.len()
                invariant
                    i < entries@.len(),
                    j <= entries@[i as int].1@.len(),
                    series@ =~= entries@[i as int].1@.subrange(0, j as int),
                decreases entries@[i as int].1@.len() - j,
            {
                series.push(entries[i].1[j]);
                j += 1;
            }
            assert(series@ =~= entries@[i as int].1@);
            let ghost before = r@;
            r.push((net.devices[k].name.clone(), series));
            assert(r@.map_values(|c: (String, Vec<Real>)| (c.0, c.1@)) =~= before.map_values(
                |c: (String, Vec<Real>)| (c.0, c.1@),
            ).push((net.devices@[k as int].name, series@)));
        }
        i += 1;
    }
    assert(entries@.subrange(0, i as int) =~= entries@);
    r
}

} // verus!
