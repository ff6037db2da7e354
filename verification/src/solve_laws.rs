//! What each analysis starts from: the source it sweeps, the values it starts with, the
//! rows it excites and the unknowns it observes.
use crate::ac::AcSweep;
use crate::ac_laws::sums;
use crate::build_laws::{is_listed, is_row_of};
use crate::circuit::{current_index, is_named};
use crate::netlist::{AcSpec, DcSweep, Device, Netlist, NoiseCard};
use crate::number::Real;
use crate::reference::is_odd;
use crate::search::lemma_first_where_holds;
use crate::solve::{
    ac_excitation, ac_sweep, any_excitation, device_index, excitation_of, initial_solution,
    is_device_named, is_net_named, is_seeding, named_series, net_index, noise_contributors,
    noise_input, noise_output, noise_sweep, row_excitation, seeds, set_value, sweep_points, sweep_source,
    voltage_sources, SetupError,
};
use crate::text::texts;
use vstd::prelude::*;

verus! {

/// The device is the first of this name.
pub open spec fn is_device_at(devices: Seq<Device>, name: Seq<char>, d: int) -> bool {
    &&& 0 <= d < devices.len()
    &&& devices[d].name@ == name
    &&& forall|j: int| 0 <= j < d ==> (#[trigger] devices[j]).name@ != name
}

/// Some device has this name.
pub open spec fn is_in_deck(devices: Seq<Device>, name: Seq<char>) -> bool {
    exists|d: int| 0 <= d < devices.len() && (#[trigger] devices[d]).name@ == name
}

proof fn lemma_device(devices: Seq<Device>, name: Seq<char>)
    ensures
        0 <= device_index(devices, name) <= devices.len(),
        device_index(devices, name) < devices.len() ==> is_device_at(
            devices,
            name,
            device_index(devices, name),
        ),
        device_index(devices, name) < devices.len() <==> is_in_deck(devices, name),
        forall|d: int| #[trigger] is_device_at(devices, name, d) ==> d == device_index(devices, name),
{
    let holds = is_device_named(name);
    let k = device_index(devices, name);
    lemma_first_where_holds(devices, holds);
    assert forall|j: int| 0 <= j < k implies (#[trigger] devices[j]).name@ != name by {
        assert(!holds(devices[j]));
    }
    if k < devices.len() {
        assert(holds(devices[k]));
        assert(devices[k].name@ == name);
    }
    assert forall|d: int| #[trigger] is_device_at(devices, name, d) implies d == k by {
        if k < d {
            assert(devices[k].name@ != name);
        }
    }
}

/// The first device of a name is the one that a search for it finds.
pub proof fn lemma_device_is(devices: Seq<Device>, name: Seq<char>, d: int)
    requires
        is_device_at(devices, name, d),
    ensures
        device_index(devices, name) == d,
{
    lemma_device(devices, name);
}

/// A search finds a device exactly if the deck has one of the name.
pub proof fn lemma_device_absent(devices: Seq<Device>, name: Seq<char>)
    ensures
        device_index(devices, name) < devices.len() <==> is_in_deck(devices, name),
{
    lemma_device(devices, name);
}

proof fn lemma_current(currents: Seq<(String, usize)>, name: Seq<char>)
    ensures
        0 <= current_index(currents, name) <= currents.len(),
        current_index(currents, name) < currents.len() ==> is_row_of(
            currents,
            name,
            currents[current_index(currents, name)].1,
        ),
        current_index(currents, name) < currents.len() <==> is_listed(currents, name),
{
    let holds = is_named(name);
    let c = current_index(currents, name);
    lemma_first_where_holds(currents, holds);
    assert forall|j: int| 0 <= j < c implies (#[trigger] currents[j]).0@ != name by {
        assert(!holds(currents[j]));
    }
    if c < currents.len() {
        assert(holds(currents[c]));
        assert(currents[c].0@ == name);
    }
}

// ---- sweeps ---------------------------------------------------------------

/// A sweep moves the first device of the name on its card, and is refused exactly if
/// there is none or it is no voltage source.
pub proof fn a_sweep_moves_the_named_source(
    net: &Netlist,
    sweep: &DcSweep,
    r: Result<usize, SetupError>,
)
    requires
        call_ensures(sweep_source, (net, sweep), r),
    ensures
        r matches Ok(k) ==> is_device_at(net.devices@, sweep.source@, k as int)
            && net.devices@[k as int].model@ == "vsource"@,
        r matches Err(e) ==> {
            &&& !is_in_deck(net.devices@, sweep.source@) ==> e == (SetupError::UnknownSweep {
                source: sweep.source,
            })
            &&& is_in_deck(net.devices@, sweep.source@) ==> exists|d: int| #[trigger]
                is_device_at(net.devices@, sweep.source@, d) && net.devices@[d].model@ != "vsource"@
                    && e == (SetupError::NotAVoltageSource {
                    source: sweep.source,
                    model: net.devices@[d].model,
                })
        },
{
    lemma_device(net.devices@, sweep.source@);
}

/// A sweep starts at its start. It takes one point where its step is zero or leads away
/// from its end, and else one more than it has steps, each as far from the one before it
/// as the step says.
pub proof fn a_sweep_goes_by_its_step<F: Fn(usize) -> Real>(
    start: Real,
    step: Real,
    lead: Real,
    steps: usize,
    point: F,
    r: Vec<Real>,
    val: spec_fn(Real) -> int,
)
    requires
        call_ensures(sweep_points::<F>, (start, step, lead, steps, point), r),
        forall|i: usize, x: Real| #[trigger]
            call_ensures(point, (i,), x) ==> val(x) == val(start) + i * val(step),
        steps < usize::MAX,
    ensures
        r@.len() > 0,
        val(r@[0]) == val(start),
        step.le(Real { bits: 0 }) && (Real { bits: 0 }).le(step) ==> r@.len() == 1,
        lead.lt(Real { bits: 0 }) ==> r@.len() == 1,
        !(step.le(Real { bits: 0 }) && (Real { bits: 0 }).le(step)) && !lead.lt(Real { bits: 0 })
            ==> r@.len() == steps + 1,
        forall|i: int|
            0 <= i < r@.len() - 1 ==> val(r@[i + 1]) == val(#[trigger] r@[i]) + val(step),
{
    let zero: usize = 0;
    assert(zero * val(step) == 0);
    if r@.len() > 1 {
        assert(call_ensures(point, (0int as usize,), r@[0]));
        assert forall|i: int| 0 <= i < r@.len() - 1 implies val(r@[i + 1]) == val(
            #[trigger] r@[i],
        ) + val(step) by {
            let k = i + 1;
            assert(call_ensures(point, (i as usize,), r@[i]));
            assert(call_ensures(point, (k as usize,), r@[k]));
            assert((i + 1) * val(step) == i * val(step) + val(step)) by (nonlinear_arith);
        }
    } else if r@.len() == 1 && !crate::solve::single_point(step, lead) {
        assert(call_ensures(point, (0int as usize,), r@[0]));
    }
}

/// The sweep of an analysis is the one on its card, field by field; that of a noise
/// analysis always goes by decades.
pub proof fn a_card_gives_the_sweep(
    net: &Netlist,
    ac: Result<AcSweep, SetupError>,
    card: &NoiseCard,
    noise: AcSweep,
)
    requires
        call_ensures(ac_sweep, (net,), ac),
        call_ensures(noise_sweep, (card,), noise),
    ensures
        ac is Ok <==> net.ac is Some,
        net.ac matches Some(c) ==> (ac matches Ok(s) && s.fstart == c.fstart && s.fstop == c.fstop
            && s.points == c.points && (s.kind is Dec <==> c.kind is Dec) && (s.kind is Oct
            <==> c.kind is Oct) && (s.kind is Lin <==> c.kind is Lin)),
        noise.fstart == card.fstart,
        noise.fstop == card.fstop,
        noise.points == card.points_per_decade,
        noise.kind is Dec,
{
}

// ---- initial conditions ---------------------------------------------------

/// The unknown that a device's initial condition sets: the branch current of an inductor,
/// the first terminal of another device, or its second one where the first is the
/// reference node.
pub open spec fn is_seeded(
    dev: Device,
    dim: int,
    currents: Seq<(String, usize)>,
    unknown: int,
) -> bool {
    dev.ic is Some && if dev.model@ == "inductor"@ {
        unknown < dim && 0 <= unknown && is_row_of(currents, dev.name@, unknown as usize)
    } else {
        &&& dev.terminals@.len() >= 2
        &&& dev.terminals@[0] < dim ==> unknown == dev.terminals@[0]
        &&& dev.terminals@[0] >= dim ==> unknown == dev.terminals@[1] && unknown < dim
    }
}

proof fn lemma_seeds<F: Fn(Real, Real) -> Real>(
    dev: Device,
    dim: int,
    currents: Seq<(String, usize)>,
    plus: F,
    before: Seq<Real>,
    after: Seq<Real>,
    unknown: int,
)
    requires
        seeds(dev, dim, currents, plus, before, after),
        before.len() == dim,
        0 <= unknown < dim,
        dim <= usize::MAX,
    ensures
        after.len() == dim,
        !is_seeded(dev, dim, currents, unknown) ==> after[unknown] == before[unknown],
{
    lemma_current(currents, dev.name@);
}

proof fn lemma_seeded_len<F: Fn(Real, Real) -> Real>(
    devices: Seq<Device>,
    dim: int,
    currents: Seq<(String, usize)>,
    plus: F,
    steps: Seq<Seq<Real>>,
    i: int,
)
    requires
        is_seeding(devices, dim, currents, plus, steps),
        0 <= i <= devices.len(),
        0 <= dim <= usize::MAX,
    ensures
        steps[i].len() == dim,
    decreases i,
{
    if i > 0 {
        let k = i - 1;
        lemma_seeded_len(devices, dim, currents, plus, steps, k);
        assert(seeds(devices[k], dim, currents, plus, steps[k], steps[k + 1]));
    }
}

proof fn lemma_untouched<F: Fn(Real, Real) -> Real>(
    devices: Seq<Device>,
    dim: int,
    currents: Seq<(String, usize)>,
    plus: F,
    steps: Seq<Seq<Real>>,
    from: int,
    upto: int,
    unknown: int,
)
    requires
        is_seeding(devices, dim, currents, plus, steps),
        0 <= from <= upto <= devices.len(),
        0 <= unknown < dim <= usize::MAX,
        forall|j: int|
            from <= j < upto ==> !is_seeded(#[trigger] devices[j], dim, currents, unknown),
    ensures
        steps[upto][unknown] == steps[from][unknown],
    decreases upto - from,
{
    if from < upto {
        let k = upto - 1;
        lemma_untouched(devices, dim, currents, plus, steps, from, k, unknown);
        lemma_seeded_len(devices, dim, currents, plus, steps, k);
        assert(seeds(devices[k], dim, currents, plus, steps[k], steps[k + 1]));
        lemma_seeds(devices[k], dim, currents, plus, steps[k], steps[k + 1], unknown);
    }
}

/// The initial condition of a device between two unknowns is the value of its first
/// terminal less that of its second, where no later line of the deck sets either of them.
pub proof fn a_run_starts_from_its_voltages<F: Fn(Real, Real) -> Real>(
    net: &Netlist,
    dim: usize,
    currents: &Vec<(String, usize)>,
    plus: F,
    x: Vec<Real>,
    i: int,
    val: spec_fn(Real) -> int,
)
    requires
        call_ensures(initial_solution::<F>, (net, dim, currents, plus), x),
        0 <= i < net.devices@.len(),
        net.devices@[i].ic is Some,
        net.devices@[i].model@ != "inductor"@,
        net.devices@[i].terminals@.len() >= 2,
        net.devices@[i].terminals@[0] < dim,
        net.devices@[i].terminals@[1] != net.devices@[i].terminals@[0],
        forall|j: int|
            i < j < net.devices@.len() ==> !is_seeded(
                #[trigger] net.devices@[j],
                dim as int,
                currents@,
                net.devices@[i].terminals@[0] as int,
            ),
        forall|j: int|
            i < j < net.devices@.len() ==> !is_seeded(
                #[trigger] net.devices@[j],
                dim as int,
                currents@,
                net.devices@[i].terminals@[1] as int,
            ),
        sums(plus, val),
        val(Real { bits: 0 }) == 0,
    ensures
        x@.len() == dim,
        ({
            let (p, n) = (net.devices@[i].terminals@[0], net.devices@[i].terminals@[1]);
            val(x@[p as int]) - (if n < dim {
                val(x@[n as int])
            } else {
                0
            }) == val(net.devices@[i].ic->0)
        }),
{
    let devices = net.devices@;
    let steps = choose|steps: Seq<Seq<Real>>| #[trigger]
        is_seeding(devices, dim as int, currents@, plus, steps) && x@ == steps.last();
    let (p, n) = (devices[i].terminals@[0] as int, devices[i].terminals@[1] as int);
    let last = devices.len() as int;
    lemma_seeded_len(devices, dim as int, currents@, plus, steps, i);
    assert(seeds(devices[i], dim as int, currents@, plus, steps[i], steps[i + 1]));
    lemma_untouched(devices, dim as int, currents@, plus, steps, i + 1, last, p);
    if n < dim {
        lemma_untouched(devices, dim as int, currents@, plus, steps, i + 1, last, n);
    }
}

/// Where the first terminal of a device with an initial condition is the reference node,
/// the second one starts from the opposite of the condition, where no later line sets it.
pub proof fn a_run_starts_from_its_grounded_voltages<F: Fn(Real, Real) -> Real>(
    net: &Netlist,
    dim: usize,
    currents: &Vec<(String, usize)>,
    plus: F,
    x: Vec<Real>,
    i: int,
    val: spec_fn(Real) -> int,
)
    requires
        call_ensures(initial_solution::<F>, (net, dim, currents, plus), x),
        0 <= i < net.devices@.len(),
        net.devices@[i].ic is Some,
        net.devices@[i].model@ != "inductor"@,
        net.devices@[i].terminals@.len() >= 2,
        net.devices@[i].terminals@[0] >= dim,
        net.devices@[i].terminals@[1] < dim,
        forall|j: int|
            i < j < net.devices@.len() ==> !is_seeded(
                #[trigger] net.devices@[j],
                dim as int,
                currents@,
                net.devices@[i].terminals@[1] as int,
            ),
        is_odd(val),
    ensures
        x@.len() == dim,
        0 - val(x@[net.devices@[i].terminals@[1] as int]) == val(net.devices@[i].ic->0),
{
    let devices = net.devices@;
    let steps = choose|steps: Seq<Seq<Real>>| #[trigger]
        is_seeding(devices, dim as int, currents@, plus, steps) && x@ == steps.last();
    let n = devices[i].terminals@[1] as int;
    let last = devices.len() as int;
    lemma_seeded_len(devices, dim as int, currents@, plus, steps, i);
    assert(seeds(devices[i], dim as int, currents@, plus, steps[i], steps[i + 1]));
    lemma_untouched(devices, dim as int, currents@, plus, steps, i + 1, last, n);
}

/// The initial condition of an inductor is its current: the row of its own branch starts
/// from it, where no later line sets that row.
pub proof fn a_run_starts_from_its_currents<F: Fn(Real, Real) -> Real>(
    net: &Netlist,
    dim: usize,
    currents: &Vec<(String, usize)>,
    plus: F,
    x: Vec<Real>,
    i: int,
    row: usize,
)
    requires
        call_ensures(initial_solution::<F>, (net, dim, currents, plus), x),
        0 <= i < net.devices@.len(),
        net.devices@[i].ic is Some,
        net.devices@[i].model@ == "inductor"@,
        is_row_of(currents@, net.devices@[i].name@, row),
        row < dim,
        forall|j: int|
            i < j < net.devices@.len() ==> !is_seeded(
                #[trigger] net.devices@[j],
                dim as int,
                currents@,
                row as int,
            ),
    ensures
        x@.len() == dim,
        x@[row as int] == net.devices@[i].ic->0,
{
    let devices = net.devices@;
    let steps = choose|steps: Seq<Seq<Real>>| #[trigger]
        is_seeding(devices, dim as int, currents@, plus, steps) && x@ == steps.last();
    let last = devices.len() as int;
    lemma_seeded_len(devices, dim as int, currents@, plus, steps, i);
    assert(seeds(devices[i], dim as int, currents@, plus, steps[i], steps[i + 1]));
    lemma_current(currents@, devices[i].name@);
    let c = current_index(currents@, devices[i].name@);
    lemma_same_row(currents@, devices[i].name@, row);
    lemma_untouched(devices, dim as int, currents@, plus, steps, i + 1, last, row as int);
}

proof fn lemma_same_row(currents: Seq<(String, usize)>, name: Seq<char>, row: usize)
    requires
        is_row_of(currents, name, row),
    ensures
        current_index(currents, name) < currents.len(),
        currents[current_index(currents, name)].1 == row,
{
    let holds = is_named(name);
    let k = current_index(currents, name);
    lemma_first_where_holds(currents, holds);
    let c = choose|c: int|
        {
            &&& 0 <= c < currents.len()
            &&& (#[trigger] currents[c]).0@ == name
            &&& currents[c].1 == row
            &&& forall|j: int| 0 <= j < c ==> (#[trigger] currents[j]).0@ != name
        };
    assert(holds(currents[c]));
    if k < c {
        assert(holds(currents[k]));
        assert(currents[k].0@ != name);
    }
}

/// An unknown that no initial condition sets starts from zero.
pub proof fn every_other_unknown_starts_from_zero<F: Fn(Real, Real) -> Real>(
    net: &Netlist,
    dim: usize,
    currents: &Vec<(String, usize)>,
    plus: F,
    x: Vec<Real>,
    unknown: int,
)
    requires
        call_ensures(initial_solution::<F>, (net, dim, currents, plus), x),
        0 <= unknown < dim,
        forall|j: int|
            0 <= j < net.devices@.len() ==> !is_seeded(
                #[trigger] net.devices@[j],
                dim as int,
                currents@,
                unknown,
            ),
    ensures
        x@.len() == dim,
        x@[unknown] == (Real { bits: 0 }),
{
    let devices = net.devices@;
    let steps = choose|steps: Seq<Seq<Real>>| #[trigger]
        is_seeding(devices, dim as int, currents@, plus, steps) && x@ == steps.last();
    let last = devices.len() as int;
    lemma_untouched(devices, dim as int, currents@, plus, steps, 0, last, unknown);
}

// ---- excitation -----------------------------------------------------------

/// A branch current is excited: the first device of its name states an excitation.
pub open spec fn is_excited(
    devices: Seq<Device>,
    current: (String, usize),
    spec: AcSpec,
) -> bool {
    exists|d: int| #[trigger] is_device_at(devices, current.0@, d) && devices[d].ac == Some(spec)
}

proof fn lemma_excited(devices: Seq<Device>, current: (String, usize), spec: AcSpec)
    ensures
        is_excited(devices, current, spec) <==> excitation_of(devices, current.0@) == Some(spec),
{
    lemma_device(devices, current.0@);
    let k = device_index(devices, current.0@);
    if k < devices.len() && devices[k].ac == Some(spec) {
        assert(is_device_at(devices, current.0@, k));
    }
}

proof fn lemma_row_excitation(
    devices: Seq<Device>,
    currents: Seq<(String, usize)>,
    row: int,
    upto: int,
    c: int,
    spec: AcSpec,
)
    requires
        0 <= c < upto <= currents.len(),
        currents[c].1 == row,
        is_excited(devices, currents[c], spec),
        forall|j: int|
            c < j < upto && (#[trigger] currents[j]).1 == row ==> forall|other: AcSpec|
                !#[trigger] is_excited(devices, currents[j], other),
    ensures
        row_excitation(devices, currents, row, upto) == Some(spec),
    decreases upto,
{
    lemma_excited(devices, currents[c], spec);
    if c < upto - 1 {
        let last = currents[upto - 1];
        if last.1 == row && excitation_of(devices, last.0@) is Some {
            let other = excitation_of(devices, last.0@)->0;
            lemma_excited(devices, last, other);
            assert(currents[upto - 1].1 == row);
            assert(!is_excited(devices, currents[upto - 1], other));
        }
        lemma_row_excitation(devices, currents, row, upto - 1, c, spec);
    }
}

proof fn lemma_row_rests(
    devices: Seq<Device>,
    currents: Seq<(String, usize)>,
    row: int,
    upto: int,
)
    requires
        0 <= upto <= currents.len(),
        forall|j: int|
            0 <= j < upto && (#[trigger] currents[j]).1 == row ==> forall|other: AcSpec|
                !#[trigger] is_excited(devices, currents[j], other),
    ensures
        row_excitation(devices, currents, row, upto) is None,
    decreases upto,
{
    if upto > 0 {
        let last = currents[upto - 1];
        if last.1 == row && excitation_of(devices, last.0@) is Some {
            let other = excitation_of(devices, last.0@)->0;
            lemma_excited(devices, last, other);
            assert(!is_excited(devices, currents[upto - 1], other));
        }
        lemma_row_rests(devices, currents, row, upto - 1);
    }
}

/// An excited source drives the row of its own branch current with the phasor of its
/// magnitude and its phase; of several on one row the last counts. No other row is driven.
pub proof fn a_source_drives_its_own_row<F: Fn(Real, Real) -> (Real, Real)>(
    net: &Netlist,
    currents: &Vec<(String, usize)>,
    dim: usize,
    phasor: F,
    b: Vec<(Real, Real)>,
    row: usize,
)
    requires
        call_ensures(ac_excitation::<F>, (net, currents, dim, phasor), Ok(b)),
        row < dim,
    ensures
        b@.len() == dim,
        forall|c: int, spec: AcSpec|
            {
                &&& 0 <= c < currents@.len()
                &&& currents@[c].1 == row
                &&& #[trigger] is_excited(net.devices@, currents@[c], spec)
                &&& forall|j: int|
                    c < j < currents@.len() && (#[trigger] currents@[j]).1 == row ==> forall|
                        other: AcSpec,
                    | !#[trigger] is_excited(net.devices@, currents@[j], other)
            } ==> call_ensures(phasor, (spec.magnitude, spec.phase_deg), b@[row as int]),
        (forall|j: int|
            0 <= j < currents@.len() && (#[trigger] currents@[j]).1 == row ==> forall|other: AcSpec|
                !#[trigger] is_excited(net.devices@, currents@[j], other)) ==> b@[row as int] == (
            Real { bits: 0 },
            Real { bits: 0 },
        ),
{
    let devices = net.devices@;
    let n = currents@.len() as int;
    let r = row as int;
    assert(match row_excitation(devices, currents@, r, n) {
        None => b@[r] == (Real { bits: 0 }, Real { bits: 0 }),
        Some(ac) => call_ensures(phasor, (ac.magnitude, ac.phase_deg), b@[r]),
    });
    assert forall|c: int, spec: AcSpec|
        {
            &&& 0 <= c < currents@.len()
            &&& currents@[c].1 == row
            &&& #[trigger] is_excited(net.devices@, currents@[c], spec)
            &&& forall|j: int|
                c < j < currents@.len() && (#[trigger] currents@[j]).1 == row ==> forall|
                    other: AcSpec,
                | !#[trigger] is_excited(net.devices@, currents@[j], other)
        } implies call_ensures(phasor, (spec.magnitude, spec.phase_deg), b@[row as int]) by {
        lemma_row_excitation(devices, currents@, r, n, c, spec);
    }
    if forall|j: int|
        0 <= j < currents@.len() && (#[trigger] currents@[j]).1 == row ==> forall|other: AcSpec|
            !#[trigger] is_excited(devices, currents@[j], other) {
        lemma_row_rests(devices, currents@, r, n);
    }
}

/// An analysis without any excited source is refused, and only such a one.
pub proof fn an_excitation_is_asked_for<F: Fn(Real, Real) -> (Real, Real)>(
    net: &Netlist,
    currents: &Vec<(String, usize)>,
    dim: usize,
    phasor: F,
    r: Result<Vec<(Real, Real)>, SetupError>,
)
    requires
        call_ensures(ac_excitation::<F>, (net, currents, dim, phasor), r),
    ensures
        r is Err <==> forall|c: int, spec: AcSpec|
            0 <= c < currents@.len() ==> !#[trigger] is_excited(net.devices@, currents@[c], spec),
        r matches Err(e) ==> e == (SetupError::NoExcitation { sources: currents@.len() as usize }),
{
    let devices = net.devices@;
    if any_excitation(devices, currents@) {
        let k = choose|k: int|
            0 <= k < currents@.len() && excitation_of(devices, (#[trigger] currents@[k]).0@) is Some;
        lemma_excited(devices, currents@[k], excitation_of(devices, currents@[k].0@)->0);
    }
    assert forall|c: int, spec: AcSpec|
        0 <= c < currents@.len() && #[trigger] is_excited(
            devices,
            currents@[c],
            spec,
        ) implies any_excitation(devices, currents@) by {
        lemma_excited(devices, currents@[c], spec);
        assert(excitation_of(devices, currents@[c].0@) is Some);
    }
}

// ---- noise ----------------------------------------------------------------

/// A noise analysis observes the unknown of the first net of the name on its card, and is
/// refused exactly if there is no card or no such net.
pub proof fn noise_is_observed_at_the_named_net(net: &Netlist, r: Result<usize, SetupError>)
    requires
        call_ensures(noise_output, (net,), r),
    ensures
        net.noise is None ==> r == Err::<usize, SetupError>(SetupError::NoNoiseCard),
        net.noise matches Some(card) ==> {
            &&& r is Ok <==> is_listed(net.nodes@, card.output@)
            &&& r matches Ok(output) ==> is_row_of(net.nodes@, card.output@, output)
            &&& r matches Err(e) ==> (e matches SetupError::UnknownNet { output, nets } && output
                == card.output && texts(nets@) == texts(net.node_order@))
        },
{
    if let Some(card) = net.noise {
        let name = card.output@;
        let holds = is_net_named(name);
        let k = net_index(net.nodes@, name);
        lemma_first_where_holds(net.nodes@, holds);
        assert forall|j: int| 0 <= j < k implies (#[trigger] net.nodes@[j]).0@ != name by {
            assert(!holds(net.nodes@[j]));
        }
        if k < net.nodes@.len() {
            assert(holds(net.nodes@[k]));
            assert(net.nodes@[k].0@ == name);
        }
    }
}

/// A noise analysis refers to the branch of the first device of the name on its card, and
/// is refused exactly if that is no voltage source or has no branch.
pub proof fn noise_is_referred_to_the_named_source(
    devices: &Vec<Device>,
    card: &NoiseCard,
    currents: &Vec<(String, usize)>,
    r: Result<usize, SetupError>,
)
    requires
        call_ensures(noise_input, (devices, card, currents), r),
    ensures
        r is Ok <==> {
            &&& exists|d: int| #[trigger]
                is_device_at(devices@, card.source@, d) && devices@[d].model@ == "vsource"@
            &&& is_listed(currents@, card.source@)
        },
        r matches Ok(row) ==> is_row_of(currents@, card.source@, row),
        r matches Err(e) ==> (e matches SetupError::UnknownInput { source, sources } && source
            == card.source && forall|name: Seq<char>| #[trigger]
            texts(sources@).contains(name) <==> exists|d: int|
                0 <= d < devices@.len() && (#[trigger] devices@[d]).name@ == name
                    && devices@[d].model@ == "vsource"@),
{
    lemma_device(devices@, card.source@);
    lemma_current(currents@, card.source@);
    lemma_sources(devices@);
    let d = device_index(devices@, card.source@);
    if d < devices@.len() {
        assert(is_device_at(devices@, card.source@, d));
    }
}

proof fn lemma_sources(devices: Seq<Device>)
    ensures
        forall|name: Seq<char>| #[trigger]
            voltage_sources(devices).contains(name) <==> exists|d: int|
                0 <= d < devices.len() && (#[trigger] devices[d]).name@ == name && devices[d].model@
                    == "vsource"@,
    decreases devices.len(),
{
    if devices.len() > 0 {
        let fewer = devices.drop_last();
        lemma_sources(fewer);
        let before = voltage_sources(fewer);
        let all = voltage_sources(devices);
        assert forall|name: Seq<char>| #[trigger] all.contains(name) <==> exists|d: int|
            0 <= d < devices.len() && (#[trigger] devices[d]).name@ == name && devices[d].model@
                == "vsource"@ by {
            if all.contains(name) {
                let k = choose|k: int| 0 <= k < all.len() && all[k] == name;
                if k < before.len() {
                    assert(before[k] == name);
                    assert(before.contains(name));
                    let d = choose|d: int|
                        0 <= d < fewer.len() && (#[trigger] fewer[d]).name@ == name
                            && fewer[d].model@ == "vsource"@;
                    assert(devices[d].name@ == name);
                } else {
                    assert(devices[devices.len() - 1].name@ == name);
                }
            }
            if exists|d: int|
                0 <= d < devices.len() && (#[trigger] devices[d]).name@ == name && devices[d].model@
                    == "vsource"@ {
                let d = choose|d: int|
                    0 <= d < devices.len() && (#[trigger] devices[d]).name@ == name
                        && devices[d].model@ == "vsource"@;
                if d < fewer.len() {
                    assert(fewer[d].name@ == name);
                    assert(before.contains(name));
                    let k = choose|k: int| 0 <= k < before.len() && before[k] == name;
                    assert(all[k] == name);
                } else {
                    assert(all[before.len() as int] == name);
                }
            }
        }
    }
}

/// The contributors of a spectrum are named after the devices at their places, in order,
/// and keep their series.
pub proof fn a_contributor_is_named_after_its_device(
    net: &Netlist,
    entries: &Vec<(usize, Vec<Real>)>,
    r: Vec<(String, Vec<Real>)>,
)
    requires
        call_ensures(noise_contributors, (net, entries), r),
        forall|i: int| 0 <= i < entries@.len() ==> (#[trigger] entries@[i]).0 < net.devices@.len(),
    ensures
        r@.len() == entries@.len(),
        forall|i: int|
            0 <= i < r@.len() ==> (#[trigger] r@[i]).0 == net.devices@[entries@[i].0 as int].name
                && r@[i].1@ == entries@[i].1@,
{
    lemma_named_series(net.devices@, entries@);
    let said = r@.map_values(|c: (String, Vec<Real>)| (c.0, c.1@));
    assert(said.len() == r@.len());
    assert forall|i: int| 0 <= i < r@.len() implies (#[trigger] r@[i]).0
        == net.devices@[entries@[i].0 as int].name && r@[i].1@ == entries@[i].1@ by {
        assert(said[i] == (r@[i].0, r@[i].1@));
        assert(named_series(net.devices@, entries@)[i] == said[i]);
    }
}

proof fn lemma_named_series(devices: Seq<Device>, entries: Seq<(usize, Vec<Real>)>)
    requires
        forall|i: int| 0 <= i < entries.len() ==> (#[trigger] entries[i]).0 < devices.len(),
    ensures
        named_series(devices, entries).len() == entries.len(),
        forall|i: int|
            0 <= i < entries.len() ==> #[trigger] named_series(devices, entries)[i] == (
                devices[entries[i].0 as int].name,
                entries[i].1@,
            ),
    decreases entries.len(),
{
    if entries.len() > 0 {
        let fewer = entries.drop_last();
        assert forall|i: int| 0 <= i < fewer.len() implies (#[trigger] fewer[i]).0 < devices.len() by {
            assert(fewer[i] == entries[i]);
        }
        lemma_named_series(devices, fewer);
        assert(entries[entries.len() - 1].0 < devices.len());
        assert forall|i: int| 0 <= i < entries.len() implies #[trigger] named_series(
            devices,
            entries,
        )[i] == (devices[entries[i].0 as int].name, entries[i].1@) by {
            if i < fewer.len() {
                assert(named_series(devices, fewer)[i] == (
                    devices[fewer[i].0 as int].name,
                    fewer[i].1@,
                ));
            }
        }
    }
}

/// A point of a sweep sets the value of its own device and nothing else.
pub proof fn a_point_sets_one_value(devices: &mut Vec<Device>, k: usize, value: Real, d: int)
    requires
        k < old(devices)@.len(),
        call_ensures(set_value, (devices, k, value), ()),
        0 <= d < old(devices)@.len(),
    ensures
        final(devices)@.len() == old(devices)@.len(),
        d != k ==> final(devices)@[d] == old(devices)@[d],
        d == k ==> {
            let (before, after) = (old(devices)@[d], final(devices)@[d]);
            &&& after.value == Some(value)
            &&& after.name == before.name && after.model == before.model
            &&& after.terminals == before.terminals && after.params == before.params
            &&& after.controls == before.controls && after.waveform == before.waveform
            &&& after.ac == before.ac && after.ic == before.ic
        },
{
}

} // verus!
