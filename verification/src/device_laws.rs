//! What the built-in devices do to the equations: the sums that each of them adds, row
//! by row, and the equations that a line of a circuit puts between its terminals.
use crate::device::{
    build_instance, built_in, check_terminals, deferred, is_model_named, is_plan, model_index,
    reference_instance, Part,
};
use crate::noise::NoiseSource;
use crate::search::lemma_first_where_holds;
use crate::multiplicity::{cell_sum, lemma_cell_sum_concat, Cell};
use crate::netlist::{Device, Module};
use crate::number::{Real, ONE};
use crate::place::BuildError;
use crate::reference::{
    bjt_stamps, branch_flow, capacitance, clamp_coupling, conductance, inductor_stamps, is_odd,
    mutual_stamps, source_stamps, vccs_stamps, vcvs_stamps, Bjt, BjtPoint, Capacitor, Diode,
    Inductor, Mutual, Resistor, UnknownKind, VSource, Vccs, Vcvs,
};
use crate::stamps::Stamp;
use vstd::prelude::*;

verus! {

/// A number that counts only under a condition.
pub open spec fn on(condition: bool, value: int) -> int {
    if condition {
        value
    } else {
        0
    }
}

/// What a unit is worth.
pub open spec fn unit(val: spec_fn(Real) -> int) -> int {
    val(Real { bits: ONE })
}

/// What a conductance between two nodes is worth by the voltage of one node: it rises
/// with that of the first and falls with that of the second.
pub open spec fn across(node: usize, p: usize, n: usize, value: int) -> int {
    on(node == p, value) - on(node == n, value)
}

/// The number that a solution gives an unknown; that of zero for the reference node.
pub open spec fn solved(x: Seq<Real>, unknown: usize, val: spec_fn(Real) -> int) -> int {
    if unknown < x.len() {
        val(x[unknown as int])
    } else {
        val(Real { bits: 0 })
    }
}

/// The number that a line states; that of zero where it states none.
pub open spec fn stated(dev: Device, val: spec_fn(Real) -> int) -> int {
    match dev.value {
        Some(v) => val(v),
        None => val(Real { bits: 0 }),
    }
}

// ---- what each device adds, row by row ------------------------------------

/// The current of a resistor leaves its first node and enters its second, and rises with
/// the voltage between them.
pub proof fn a_resistor_carries_its_current(
    d: &Resistor,
    i: Real,
    g: Real,
    stamps: Vec<Stamp>,
    cell: Cell,
    val: spec_fn(Real) -> int,
)
    requires
        call_ensures(Resistor::load, (d, i, g), stamps),
        is_odd(val),
    ensures
        cell_sum(stamps@, cell, val) == match cell {
            Cell::Residual { row } => across(row, d.p, d.n, val(i)),
            Cell::Jacobian { row, col } => across(row, d.p, d.n, across(col, d.p, d.n, val(g))),
            _ => 0,
        },
{
    assert(stamps@ == conductance(d.p, d.n, i, g));
    reveal_with_fuel(cell_sum, 7);
}

/// The current of a diode leaves its anode and enters its cathode, and rises with the
/// voltage from the one to the other.
pub proof fn a_diode_carries_its_current(
    d: &Diode,
    i: Real,
    g: Real,
    stamps: Vec<Stamp>,
    cell: Cell,
    val: spec_fn(Real) -> int,
)
    requires
        call_ensures(Diode::load, (d, i, g), stamps),
        is_odd(val),
    ensures
        cell_sum(stamps@, cell, val) == match cell {
            Cell::Residual { row } => across(row, d.anode, d.cathode, val(i)),
            Cell::Jacobian { row, col } => across(
                row,
                d.anode,
                d.cathode,
                across(col, d.anode, d.cathode, val(g)),
            ),
            _ => 0,
        },
{
    assert(stamps@ == conductance(d.anode, d.cathode, i, g));
    reveal_with_fuel(cell_sum, 7);
}

/// A capacitor holds its charge on its first node and the opposite on its second; the
/// charge rises with the voltage between them at the rate of its capacitance.
pub proof fn a_capacitor_holds_its_charge(
    d: &Capacitor,
    q: Real,
    stamps: Vec<Stamp>,
    cell: Cell,
    val: spec_fn(Real) -> int,
)
    requires
        call_ensures(Capacitor::load, (d, q), stamps),
        is_odd(val),
    ensures
        cell_sum(stamps@, cell, val) == match cell {
            Cell::Charge { row } => across(row, d.p, d.n, val(q)),
            Cell::Dcharge { row, col } => across(row, d.p, d.n, across(col, d.p, d.n, val(d.capacitance))),
            _ => 0,
        },
{
    assert(stamps@ == capacitance(d.p, d.n, q, d.capacitance));
    reveal_with_fuel(cell_sum, 7);
}

/// A voltage source puts the mismatch of its voltage in its own row, which reads the
/// voltage of its first node less that of its second; its current leaves the first node and
/// enters the second.
pub proof fn a_voltage_source_sets_its_voltage(
    d: &VSource,
    mismatch: Real,
    x: &Vec<Real>,
    stamps: Vec<Stamp>,
    cell: Cell,
    val: spec_fn(Real) -> int,
)
    requires
        call_ensures(VSource::load, (d, mismatch, x), stamps),
        is_odd(val),
    ensures
        cell_sum(stamps@, cell, val) == match cell {
            Cell::Residual { row } => on(row == d.branch, val(mismatch)) + across(
                row,
                d.p,
                d.n,
                solved(x@, d.branch, val),
            ),
            Cell::Jacobian { row, col } => on(row == d.branch, across(col, d.p, d.n, unit(val))) + on(
                col == d.branch,
                across(row, d.p, d.n, unit(val)),
            ),
            _ => 0,
        },
{
    let ib = if d.branch < x@.len() {
        x@[d.branch as int]
    } else {
        Real { bits: 0 }
    };
    let flow = branch_flow(d.p, d.n, d.branch, ib);
    assert(stamps@ == source_stamps(*d, mismatch, ib));
    lemma_cell_sum_concat(stamps@.take(3), flow, cell, val);
    assert(stamps@ =~= stamps@.take(3) + flow);
    reveal_with_fuel(cell_sum, 5);
}

/// The row of an inductor takes its flux against the voltage of its first node less that
/// of its second; its current leaves the first node and enters the second.
pub proof fn an_inductor_turns_flux_into_voltage(
    d: &Inductor,
    voltage: Real,
    flux: Real,
    x: &Vec<Real>,
    stamps: Vec<Stamp>,
    cell: Cell,
    val: spec_fn(Real) -> int,
)
    requires
        call_ensures(Inductor::load, (d, voltage, flux, x), stamps),
        is_odd(val),
    ensures
        cell_sum(stamps@, cell, val) == match cell {
            Cell::Residual { row } => across(row, d.p, d.n, solved(x@, d.branch, val)) - on(
                row == d.branch,
                val(voltage),
            ),
            Cell::Jacobian { row, col } => on(
                col == d.branch,
                across(row, d.p, d.n, unit(val)),
            ) - on(row == d.branch, across(col, d.p, d.n, unit(val))),
            Cell::Charge { row } => on(row == d.branch, val(flux)),
            Cell::Dcharge { row, col } => on(
                row == d.branch && col == d.branch,
                val(d.inductance),
            ),
            _ => 0,
        },
{
    let ib = if d.branch < x@.len() {
        x@[d.branch as int]
    } else {
        Real { bits: 0 }
    };
    let flow = branch_flow(d.p, d.n, d.branch, ib);
    assert(stamps@ == inductor_stamps(*d, voltage, flux, ib));
    lemma_cell_sum_concat(stamps@.take(5), flow, cell, val);
    assert(stamps@ =~= stamps@.take(5) + flow);
    reveal_with_fuel(cell_sum, 6);
}

/// Of two coupled branches each takes the flux that the current of the other causes, at the
/// rate of the mutual inductance, and neither takes one of its own.
pub proof fn coupled_branches_take_the_flux_of_the_other(
    d: &Mutual,
    flux_of_second: Real,
    flux_of_first: Real,
    stamps: Vec<Stamp>,
    cell: Cell,
    val: spec_fn(Real) -> int,
)
    requires
        call_ensures(Mutual::load, (d, flux_of_second, flux_of_first), stamps),
        is_odd(val),
    ensures
        cell_sum(stamps@, cell, val) == match cell {
            Cell::Charge { row } => on(row == d.first, val(flux_of_second)) + on(
                row == d.second,
                val(flux_of_first),
            ),
            Cell::Dcharge { row, col } => on(
                row == d.first && col == d.second,
                val(d.inductance),
            ) + on(row == d.second && col == d.first, val(d.inductance)),
            _ => 0,
        },
{
    assert(stamps@ == mutual_stamps(*d, flux_of_second, flux_of_first));
    reveal_with_fuel(cell_sum, 5);
}

/// A voltage-controlled current source carries its current from its first output node to
/// its second; the current rises with the voltage between the control nodes at the rate of
/// its gain, and with no other.
pub proof fn a_controlled_current_follows_its_control(
    d: &Vccs,
    current: Real,
    stamps: Vec<Stamp>,
    cell: Cell,
    val: spec_fn(Real) -> int,
)
    requires
        call_ensures(Vccs::load, (d, current), stamps),
        is_odd(val),
    ensures
        cell_sum(stamps@, cell, val) == match cell {
            Cell::Residual { row } => across(row, d.p, d.n, val(current)),
            Cell::Jacobian { row, col } => across(row, d.p, d.n, across(col, d.cp, d.cn, val(d.gain))),
            _ => 0,
        },
{
    assert(stamps@ == vccs_stamps(*d, current));
    reveal_with_fuel(cell_sum, 7);
}

/// A voltage-controlled voltage source reads in its own row the voltage between its output
/// nodes less its gain times that between its control nodes; its current leaves the first
/// output node and enters the second, and no control node carries any.
pub proof fn a_controlled_voltage_follows_its_control(
    d: &Vcvs,
    mismatch: Real,
    x: &Vec<Real>,
    stamps: Vec<Stamp>,
    cell: Cell,
    val: spec_fn(Real) -> int,
)
    requires
        call_ensures(Vcvs::load, (d, mismatch, x), stamps),
        is_odd(val),
    ensures
        cell_sum(stamps@, cell, val) == match cell {
            Cell::Residual { row } => on(row == d.branch, val(mismatch)) + across(
                row,
                d.p,
                d.n,
                solved(x@, d.branch, val),
            ),
            Cell::Jacobian { row, col } => on(
                row == d.branch,
                across(col, d.p, d.n, unit(val)) - across(col, d.cp, d.cn, val(d.gain)),
            ) + on(col == d.branch, across(row, d.p, d.n, unit(val))),
            _ => 0,
        },
{
    let ib = if d.branch < x@.len() {
        x@[d.branch as int]
    } else {
        Real { bits: 0 }
    };
    let flow = branch_flow(d.p, d.n, d.branch, ib);
    assert(stamps@ == vcvs_stamps(*d, mismatch, ib));
    lemma_cell_sum_concat(stamps@.take(5), flow, cell, val);
    assert(stamps@ =~= stamps@.take(5) + flow);
    reveal_with_fuel(cell_sum, 6);
}

/// The computed sums of a transistor's operating point are those of its currents and of
/// its conductances.
pub open spec fn adds_up(v: BjtPoint, val: spec_fn(Real) -> int) -> bool {
    &&& val(v.sum) == val(v.ib) + val(v.ic)
    &&& val(v.base) == val(v.gbe) + val(v.gbc)
    &&& val(v.transfer) == val(v.gf) - val(v.gr) - val(v.gbc)
    &&& val(v.collector) == val(v.gr) + val(v.gbc)
    &&& val(v.emitter_base) == val(v.gbe) + val(v.gf) - val(v.gr)
    &&& val(v.emitter) == val(v.gbe) + val(v.gf)
}

/// How the base current rises with the voltage of a node: by `gbe` with the voltage from
/// the base to the emitter, and by `gbc` with that from the base to the collector.
pub open spec fn base_slope(d: Bjt, v: BjtPoint, node: usize, val: spec_fn(Real) -> int) -> int {
    across(node, d.b, d.e, val(v.gbe)) + across(node, d.b, d.c, val(v.gbc))
}

/// How the collector current rises with the voltage of a node: by `gf` with the voltage
/// from the base to the emitter; with that from the base to the collector it falls by
/// `gr` and `gbc`.
pub open spec fn collector_slope(d: Bjt, v: BjtPoint, node: usize, val: spec_fn(Real) -> int) -> int {
    across(node, d.b, d.e, val(v.gf)) - across(node, d.b, d.c, val(v.gr) + val(v.gbc))
}

/// A transistor draws its base current at the base, its collector current at the collector
/// and the opposite of their sum at the emitter; the derivatives of the three rows are those
/// of the three currents.
pub proof fn a_transistor_draws_its_currents(
    d: &Bjt,
    v: BjtPoint,
    stamps: Vec<Stamp>,
    cell: Cell,
    val: spec_fn(Real) -> int,
)
    requires
        call_ensures(Bjt::load, (d, v), stamps),
        adds_up(v, val),
        is_odd(val),
    ensures
        cell_sum(stamps@, cell, val) == match cell {
            Cell::Residual { row } => across(row, d.b, d.e, val(v.ib)) + across(row, d.c, d.e, val(v.ic)),
            Cell::Jacobian { row, col } => across(row, d.b, d.e, base_slope(*d, v, col, val)) + across(
                row,
                d.c,
                d.e,
                collector_slope(*d, v, col, val),
            ),
            _ => 0,
        },
{
    assert(stamps@ == bjt_stamps(*d, v));
    reveal_with_fuel(cell_sum, 13);
}

// ---- what a line puts between its terminals -------------------------------

proof fn lemma_names_differ()
    ensures
        "vsource"@ != "vccs"@,
        "vsource"@ != "vcvs"@,
        "vsource"@ != "inductor"@,
        "vsource"@ != "resistor"@,
        "vsource"@ != "capacitor"@,
        "vsource"@ != "diode"@,
        "vsource"@ != "bjt"@,
        "vccs"@ != "vcvs"@,
        "vccs"@ != "inductor"@,
        "vccs"@ != "resistor"@,
        "vccs"@ != "capacitor"@,
        "vccs"@ != "diode"@,
        "vccs"@ != "bjt"@,
        "vcvs"@ != "inductor"@,
        "vcvs"@ != "resistor"@,
        "vcvs"@ != "capacitor"@,
        "vcvs"@ != "diode"@,
        "vcvs"@ != "bjt"@,
        "inductor"@ != "resistor"@,
        "inductor"@ != "capacitor"@,
        "inductor"@ != "diode"@,
        "inductor"@ != "bjt"@,
        "resistor"@ != "capacitor"@,
        "resistor"@ != "diode"@,
        "resistor"@ != "bjt"@,
        "capacitor"@ != "diode"@,
        "capacitor"@ != "bjt"@,
        "diode"@ != "bjt"@,
{
    reveal_strlit("vsource");
    reveal_strlit("vccs");
    reveal_strlit("vcvs");
    reveal_strlit("inductor");
    reveal_strlit("resistor");
    reveal_strlit("capacitor");
    reveal_strlit("diode");
    reveal_strlit("bjt");
    assert("vccs"@[2] != "vcvs"@[2]);
    assert("inductor"@[0] != "resistor"@[0]);
    assert("vsource"@.len() == 7 && "vccs"@.len() == 4 && "vcvs"@.len() == 4);
    assert("inductor"@.len() == 8 && "resistor"@.len() == 8 && "capacitor"@.len() == 9);
    assert("diode"@.len() == 5 && "bjt"@.len() == 3);
}

/// No model of the library has this name.
pub open spec fn names_none(compiled: Seq<Module>, name: Seq<char>) -> bool {
    forall|i: int| 0 <= i < compiled.len() ==> #[trigger] compiled[i].name@ != name
}

proof fn lemma_no_model(compiled: Seq<Module>, name: Seq<char>)
    requires
        names_none(compiled, name),
    ensures
        model_index(compiled, name) == compiled.len(),
{
    let named = is_model_named(name);
    lemma_first_where_holds(compiled, named);
    if model_index(compiled, name) < compiled.len() {
        assert(named(compiled[model_index(compiled, name)]));
    }
}

/// The name of a line's model decides what it builds: the sources, the controlled
/// sources and the inductor come before every compiled model, a compiled model comes
/// before the other primitives, and of two compiled models of one name the first counts.
/// A source and an inductor need two terminals, a transistor three, a resistor and a
/// capacitor a value.
pub proof fn a_model_name_decides_what_is_built(
    dev: &Device,
    compiled: &Vec<Module>,
    next: usize,
    r: Result<Part, BuildError>,
)
    requires
        call_ensures(build_instance, (dev, compiled, next), r),
    ensures
        dev.model@ == "vsource"@ ==> (r is Ok <==> dev.terminals@.len() >= 2),
        dev.model@ == "inductor"@ ==> (r is Ok <==> dev.terminals@.len() >= 2),
        dev.model@ == "vccs"@ ==> r is Ok,
        dev.model@ == "vcvs"@ ==> r is Ok,
        r matches Ok(part) ==> {
            &&& dev.model@ == "vsource"@ <==> (part is VoltageSource || part is WaveformSource)
            &&& part is WaveformSource ==> dev.waveform is Some
            &&& part is VoltageSource ==> dev.waveform is None
            &&& dev.model@ == "inductor"@ <==> part is Inductor
            &&& dev.model@ == "vccs"@ <==> part is Vccs
            &&& dev.model@ == "vcvs"@ <==> part is Vcvs
            &&& part is Resistor ==> dev.model@ == "resistor"@
            &&& part is Capacitor ==> dev.model@ == "capacitor"@
            &&& part is Diode ==> dev.model@ == "diode"@
            &&& part is Transistor ==> dev.model@ == "bjt"@
            &&& !(part is Mutual) && !(part is Cccs) && !(part is Ccvs)
            &&& part matches Part::Compiled { module, .. } ==> {
                &&& module < compiled@.len()
                &&& compiled@[module as int].name@ == dev.model@
                &&& forall|i: int| 0 <= i < module ==> #[trigger] compiled@[i].name@ != dev.model@
            }
        },
        names_none(compiled@, dev.model@) ==> {
            &&& dev.model@ == "resistor"@ ==> (r is Ok <==> dev.value is Some)
            &&& dev.model@ == "capacitor"@ ==> (r is Ok <==> dev.value is Some)
            &&& dev.model@ == "diode"@ ==> r is Ok
            &&& dev.model@ == "bjt"@ ==> (r is Ok <==> dev.terminals@.len() == 3)
        },
        r is Ok && names_none(compiled@, dev.model@) ==> !(r->Ok_0 is Compiled),
        r is Err && names_none(compiled@, dev.model@) ==> {
            &&& dev.model@ == "resistor"@ ==> r->Err_0 == (BuildError::NeedsValue {
                device: dev.name,
            })
            &&& dev.model@ == "capacitor"@ ==> r->Err_0 == (BuildError::NeedsValue {
                device: dev.name,
            })
            &&& r->Err_0 matches BuildError::UnknownModel { device, model } ==> device == dev.name
                && model == dev.model && dev.model@ != "bjt"@
        },
        !names_none(compiled@, dev.model@) && r is Ok && (dev.model@ == "resistor"@ || dev.model@
            == "capacitor"@ || dev.model@ == "diode"@ || dev.model@ == "bjt"@)
            ==> r->Ok_0 is Compiled,
{
    lemma_names_differ();
    assert(is_plan(*dev, compiled@, next as int, r));
    let k = model_index(compiled@, dev.model@);
    let named = is_model_named(dev.model@);
    if names_none(compiled@, dev.model@) {
        lemma_no_model(compiled@, dev.model@);
    } else {
        let i = choose|i: int| 0 <= i < compiled@.len() && #[trigger] compiled@[i].name@ == dev.model@;
        lemma_first_where_holds(compiled@, named);
        assert(named(compiled@[i]));
    }
    if k < compiled@.len() {
        lemma_first_where_holds(compiled@, named);
        assert(named(compiled@[k]));
        assert forall|i: int| 0 <= i < k implies #[trigger] compiled@[i].name@ != dev.model@ by {
            assert(!named(compiled@[i]));
        }
    }
}

/// A line `R a b value` carries a current from `a` to `b`.
pub proof fn a_resistor_line_joins_its_terminals(
    dev: &Device,
    compiled: &Vec<Module>,
    next: usize,
    d: &Resistor,
    i: Real,
    g: Real,
    stamps: Vec<Stamp>,
    cell: Cell,
    val: spec_fn(Real) -> int,
)
    requires
        call_ensures(
            build_instance,
            (dev, compiled, next),
            Ok(Part::Resistor { p: d.p, n: d.n, resistance: d.resistance }),
        ),
        call_ensures(Resistor::load, (d, i, g), stamps),
        is_odd(val),
    ensures
        ({
            let t = dev.terminals@;
            cell_sum(stamps@, cell, val) == match cell {
                Cell::Residual { row } => across(row, t[0], t[1], val(i)),
                Cell::Jacobian { row, col } => across(row, t[0], t[1], across(col, t[0], t[1], val(g))),
                _ => 0,
            }
        }),
{
    lemma_names_differ();
    a_resistor_carries_its_current(d, i, g, stamps, cell, val);
}

/// A line `C a b value` holds a charge on `a` against `b`, at the rate of the stated
/// value.
pub proof fn a_capacitor_line_joins_its_terminals(
    dev: &Device,
    compiled: &Vec<Module>,
    next: usize,
    d: &Capacitor,
    q: Real,
    stamps: Vec<Stamp>,
    cell: Cell,
    val: spec_fn(Real) -> int,
)
    requires
        call_ensures(
            build_instance,
            (dev, compiled, next),
            Ok(Part::Capacitor { p: d.p, n: d.n, capacitance: d.capacitance }),
        ),
        call_ensures(Capacitor::load, (d, q), stamps),
        is_odd(val),
    ensures
        ({
            let t = dev.terminals@;
            cell_sum(stamps@, cell, val) == match cell {
                Cell::Charge { row } => across(row, t[0], t[1], val(q)),
                Cell::Dcharge { row, col } => across(row, t[0], t[1], across(col, t[0], t[1], stated(*dev, val))),
                _ => 0,
            }
        }),
{
    lemma_names_differ();
    a_capacitor_holds_its_charge(d, q, stamps, cell, val);
}

/// A line `D a b` carries a current from its anode `a` to its cathode `b`.
pub proof fn a_diode_line_joins_its_terminals(
    dev: &Device,
    compiled: &Vec<Module>,
    next: usize,
    d: &Diode,
    i: Real,
    g: Real,
    stamps: Vec<Stamp>,
    cell: Cell,
    val: spec_fn(Real) -> int,
)
    requires
        call_ensures(
            build_instance,
            (dev, compiled, next),
            Ok(Part::Diode {
                p: d.anode,
                n: d.cathode,
                saturation: d.saturation,
                ideality: d.ideality,
                thermal: d.thermal,
            }),
        ),
        call_ensures(Diode::load, (d, i, g), stamps),
        is_odd(val),
    ensures
        ({
            let t = dev.terminals@;
            cell_sum(stamps@, cell, val) == match cell {
                Cell::Residual { row } => across(row, t[0], t[1], val(i)),
                Cell::Jacobian { row, col } => across(row, t[0], t[1], across(col, t[0], t[1], val(g))),
                _ => 0,
            }
        }),
{
    lemma_names_differ();
    a_diode_carries_its_current(d, i, g, stamps, cell, val);
}

/// A line `Q c b e` draws the collector current at `c`, the base current at `b` and the
/// opposite of their sum at `e`.
pub proof fn a_transistor_line_joins_its_terminals(
    dev: &Device,
    compiled: &Vec<Module>,
    next: usize,
    d: &Bjt,
    v: BjtPoint,
    stamps: Vec<Stamp>,
    cell: Cell,
    val: spec_fn(Real) -> int,
)
    requires
        call_ensures(
            build_instance,
            (dev, compiled, next),
            Ok(Part::Transistor {
                b: d.b,
                c: d.c,
                e: d.e,
                saturation: d.saturation,
                forward_gain: d.forward_gain,
                reverse_gain: d.reverse_gain,
                thermal: d.thermal,
            }),
        ),
        call_ensures(Bjt::load, (d, v), stamps),
        adds_up(v, val),
        is_odd(val),
    ensures
        ({
            let t = dev.terminals@;
            cell_sum(stamps@, cell, val) == match cell {
                Cell::Residual { row } => on(row == t[0], val(v.ic)) + on(row == t[1], val(v.ib)) - on(
                    row == t[2],
                    val(v.ib) + val(v.ic),
                ),
                Cell::Jacobian { row, col } => {
                    let base = across(col, t[1], t[2], val(v.gbe)) + across(
                        col,
                        t[1],
                        t[0],
                        val(v.gbc),
                    );
                    let collector = across(col, t[1], t[2], val(v.gf)) - across(
                        col,
                        t[1],
                        t[0],
                        val(v.gr) + val(v.gbc),
                    );
                    on(row == t[0], collector) + on(row == t[1], base) - on(
                        row == t[2],
                        base + collector,
                    )
                },
                _ => 0,
            }
        }),
{
    lemma_names_differ();
    a_transistor_draws_its_currents(d, v, stamps, cell, val);
}

/// A line `V a b value` sets the voltage of `a` less that of `b` in a row of its own, and
/// lets its current out of `a` and into `b`.
pub proof fn a_source_line_joins_its_terminals(
    dev: &Device,
    compiled: &Vec<Module>,
    next: usize,
    d: &VSource,
    mismatch: Real,
    x: &Vec<Real>,
    stamps: Vec<Stamp>,
    cell: Cell,
    val: spec_fn(Real) -> int,
)
    requires
        call_ensures(
            build_instance,
            (dev, compiled, next),
            Ok(Part::VoltageSource { p: d.p, n: d.n, branch: d.branch, value: d.value }),
        ),
        call_ensures(VSource::load, (d, mismatch, x), stamps),
        is_odd(val),
    ensures
        ({
            let t = dev.terminals@;
            cell_sum(stamps@, cell, val) == match cell {
                Cell::Residual { row } => on(row == next, val(mismatch)) + across(
                    row,
                    t[0],
                    t[1],
                    solved(x@, next, val),
                ),
                Cell::Jacobian { row, col } => on(row == next, across(col, t[0], t[1], unit(val))) + on(
                    col == next,
                    across(row, t[0], t[1], unit(val)),
                ),
                _ => 0,
            }
        }),
{
    lemma_names_differ();
    a_voltage_source_sets_its_voltage(d, mismatch, x, stamps, cell, val);
}

/// A line `L a b value` takes its flux, at the rate of the stated value, against the
/// voltage of `a` less that of `b`, and lets its current out of `a` and into `b`.
pub proof fn an_inductor_line_joins_its_terminals(
    dev: &Device,
    compiled: &Vec<Module>,
    next: usize,
    d: &Inductor,
    voltage: Real,
    flux: Real,
    x: &Vec<Real>,
    stamps: Vec<Stamp>,
    cell: Cell,
    val: spec_fn(Real) -> int,
)
    requires
        call_ensures(
            build_instance,
            (dev, compiled, next),
            Ok(Part::Inductor { p: d.p, n: d.n, branch: d.branch, inductance: d.inductance }),
        ),
        call_ensures(Inductor::load, (d, voltage, flux, x), stamps),
        is_odd(val),
    ensures
        ({
            let t = dev.terminals@;
            cell_sum(stamps@, cell, val) == match cell {
                Cell::Residual { row } => across(row, t[0], t[1], solved(x@, next, val)) - on(
                    row == next,
                    val(voltage),
                ),
                Cell::Jacobian { row, col } => on(
                    col == next,
                    across(row, t[0], t[1], unit(val)),
                ) - on(row == next, across(col, t[0], t[1], unit(val))),
                Cell::Charge { row } => on(row == next, val(flux)),
                Cell::Dcharge { row, col } => on(row == next && col == next, stated(*dev, val)),
                _ => 0,
            }
        }),
{
    lemma_names_differ();
    an_inductor_turns_flux_into_voltage(d, voltage, flux, x, stamps, cell, val);
}

/// A line `G a b c d gain` carries a current from `a` to `b` that rises with the voltage of
/// `c` less that of `d`, at the rate of the gain.
pub proof fn a_controlled_current_line_joins_its_terminals(
    dev: &Device,
    compiled: &Vec<Module>,
    next: usize,
    d: &Vccs,
    current: Real,
    stamps: Vec<Stamp>,
    cell: Cell,
    val: spec_fn(Real) -> int,
)
    requires
        call_ensures(
            build_instance,
            (dev, compiled, next),
            Ok(Part::Vccs { p: d.p, n: d.n, cp: d.cp, cn: d.cn, gain: d.gain }),
        ),
        call_ensures(Vccs::load, (d, current), stamps),
        is_odd(val),
    ensures
        ({
            let t = dev.terminals@;
            cell_sum(stamps@, cell, val) == match cell {
                Cell::Residual { row } => across(row, t[0], t[1], val(current)),
                Cell::Jacobian { row, col } => across(row, t[0], t[1], across(col, t[2], t[3], stated(*dev, val))),
                _ => 0,
            }
        }),
{
    lemma_names_differ();
    a_controlled_current_follows_its_control(d, current, stamps, cell, val);
}

/// A line `E a b c d gain` enforces in a row of its own that the voltage of `a` less that of
/// `b` is the gain times the voltage of `c` less that of `d`; its current leaves `a` and
/// enters `b`, and no other node carries any.
pub proof fn a_controlled_voltage_line_joins_its_terminals(
    dev: &Device,
    compiled: &Vec<Module>,
    next: usize,
    d: &Vcvs,
    mismatch: Real,
    x: &Vec<Real>,
    stamps: Vec<Stamp>,
    cell: Cell,
    val: spec_fn(Real) -> int,
)
    requires
        call_ensures(
            build_instance,
            (dev, compiled, next),
            Ok(Part::Vcvs {
                p: d.p,
                n: d.n,
                cp: d.cp,
                cn: d.cn,
                branch: d.branch,
                gain: d.gain,
            }),
        ),
        call_ensures(Vcvs::load, (d, mismatch, x), stamps),
        is_odd(val),
    ensures
        ({
            let t = dev.terminals@;
            cell_sum(stamps@, cell, val) == match cell {
                Cell::Residual { row } => on(row == next, val(mismatch)) + across(
                    row,
                    t[0],
                    t[1],
                    solved(x@, next, val),
                ),
                Cell::Jacobian { row, col } => on(
                    row == next,
                    across(col, t[0], t[1], unit(val)) - across(col, t[2], t[3], stated(*dev, val)),
                ) + on(col == next, across(row, t[0], t[1], unit(val))),
                _ => 0,
            }
        }),
{
    lemma_names_differ();
    a_controlled_voltage_follows_its_control(d, mismatch, x, stamps, cell, val);
}

/// A source line that states a waveform follows it between its two terminals, with the
/// next unknown as its current; one that states none holds its value, or zero.
pub proof fn a_source_line_follows_its_waveform(
    dev: &Device,
    compiled: &Vec<Module>,
    next: usize,
    part: Part,
)
    requires
        dev.model@ == "vsource"@,
        call_ensures(build_instance, (dev, compiled, next), Ok(part)),
    ensures
        dev.waveform matches Some(w) ==> (part matches Part::WaveformSource {
            p,
            n,
            branch,
            waveform,
        } && p == dev.terminals@[0] && n == dev.terminals@[1] && branch == next && waveform == w),
        dev.waveform is None ==> (part matches Part::VoltageSource { p, n, branch, value } && p
            == dev.terminals@[0] && n == dev.terminals@[1] && branch == next && match dev.value {
            Some(v) => value == v,
            None => value == (Real { bits: 0 }),
        }),
{
}

/// A resistor has the value that its line states, and a built-in diode and a built-in
/// transistor have the same parameters on every line, all above zero.
pub proof fn a_primitive_has_its_parameters(
    dev: &Device,
    other: &Device,
    one: Part,
    two: Part,
)
    requires
        call_ensures(reference_instance, (dev,), Ok(one)),
        call_ensures(reference_instance, (other,), Ok(two)),
    ensures
        one matches Part::Resistor { resistance, .. } ==> dev.value == Some(resistance),
        one matches Part::Capacitor { capacitance, .. } ==> dev.value == Some(capacitance),
        match (one, two) {
            (
                Part::Diode { saturation, ideality, thermal, .. },
                Part::Diode { saturation: s, ideality: i, thermal: t, .. },
            ) => s == saturation && i == ideality && t == thermal,
            (
                Part::Transistor { saturation, forward_gain, reverse_gain, thermal, .. },
                Part::Transistor { saturation: s, forward_gain: f, reverse_gain: r, thermal: t, .. },
            ) => s == saturation && f == forward_gain && r == reverse_gain && t == thermal,
            (
                Part::Diode { thermal, .. },
                Part::Transistor { thermal: t, .. },
            ) => t == thermal,
            _ => true,
        },
{
}

// ---- noise ----------------------------------------------------------------

/// The noise of a resistor and of a diode stands between its two nodes, that of a
/// transistor's base and of its collector current each between that node and the
/// emitter. Each is white, of the density that was handed in.
pub proof fn noise_stands_between_the_nodes(
    resistor: &Resistor,
    diode: &Diode,
    bjt: &Bjt,
    a: Real,
    b: Real,
    one: (usize, usize, NoiseSource),
    two: (usize, usize, NoiseSource),
    three: Vec<(usize, usize, NoiseSource)>,
)
    requires
        call_ensures(Resistor::noise, (resistor, a), one),
        call_ensures(Diode::noise, (diode, a), two),
        call_ensures(Bjt::noise, (bjt, a, b), three),
    ensures
        one.0 == resistor.p && one.1 == resistor.n,
        one.2 matches NoiseSource::White { psd } && psd == a,
        two.0 == diode.anode && two.1 == diode.cathode,
        two.2 matches NoiseSource::White { psd } && psd == a,
        three@.len() == 2,
        three@[0].0 == bjt.b && three@[0].1 == bjt.e,
        three@[0].2 matches NoiseSource::White { psd } && psd == a,
        three@[1].0 == bjt.c && three@[1].1 == bjt.e,
        three@[1].2 matches NoiseSource::White { psd } && psd == b,
{
}

/// Of two numbers the one that compares as smaller is the smaller one.
pub open spec fn orders(val: spec_fn(Real) -> int) -> bool {
    forall|a: Real, b: Real| !a.nan() && !b.nan() ==> (#[trigger] a.lt(b) <==> val(a) < val(b))
}

/// A coefficient of coupling keeps its value where that lies between minus one and one;
/// beyond them it becomes the nearer of the two.
pub proof fn a_coupling_is_brought_into_range(k: Real, r: Real, val: spec_fn(Real) -> int)
    requires
        call_ensures(clamp_coupling, (k,), r),
        is_odd(val),
        unit(val) > 0,
        orders(val),
        !k.nan(),
    ensures
        -unit(val) <= val(r) <= unit(val),
        -unit(val) <= val(k) <= unit(val) ==> r == k,
        val(k) > unit(val) ==> val(r) == unit(val),
        val(k) < -unit(val) ==> val(r) == -unit(val),
{
    let one = Real { bits: ONE };
    assert(val(one.opposite()) == -val(one));
    assert(!one.nan() && !one.opposite().nan());
    assert(k.lt(one.opposite()) <==> val(k) < val(one.opposite()));
    assert(one.lt(k) <==> val(one) < val(k));
}

// ---- unknowns -------------------------------------------------------------

/// The contribution is between unknowns of the list.
pub open spec fn stays_within(stamp: Stamp, unknowns: Seq<usize>) -> bool {
    match stamp {
        Stamp::Residual { row, .. } => unknowns.contains(row),
        Stamp::Jacobian { row, col, .. } => unknowns.contains(row) && unknowns.contains(col),
        Stamp::Charge { row, .. } => unknowns.contains(row),
        Stamp::Dcharge { row, col, .. } => unknowns.contains(row) && unknowns.contains(col),
        Stamp::Excitation { row, .. } => unknowns.contains(row),
        Stamp::BoundStep { .. } => true,
    }
}

/// A resistor contributes only between its own unknowns.
pub proof fn a_resistor_stays_between_its_unknowns(
    d: &Resistor,
    i: Real,
    g: Real,
    stamps: Vec<Stamp>,
    unknowns: [usize; 2],
    k: int,
)
    requires
        call_ensures(Resistor::load, (d, i, g), stamps),
        call_ensures(Resistor::unknowns, (d,), unknowns),
        0 <= k < stamps@.len(),
    ensures
        stays_within(stamps@[k], unknowns@),
{
    let u = unknowns@;
    assert(u.contains(u[0]));
    assert(u.contains(u[1]));
    assert(u.len() == 2);
}

/// A capacitor contributes only between its own unknowns.
pub proof fn a_capacitor_stays_between_its_unknowns(
    d: &Capacitor,
    q: Real,
    stamps: Vec<Stamp>,
    unknowns: [usize; 2],
    k: int,
)
    requires
        call_ensures(Capacitor::load, (d, q), stamps),
        call_ensures(Capacitor::unknowns, (d,), unknowns),
        0 <= k < stamps@.len(),
    ensures
        stays_within(stamps@[k], unknowns@),
{
    let u = unknowns@;
    assert(u.contains(u[0]));
    assert(u.contains(u[1]));
    assert(u.len() == 2);
}

/// A diode contributes only between its own unknowns.
pub proof fn a_diode_stays_between_its_unknowns(
    d: &Diode,
    current: Real,
    g: Real,
    stamps: Vec<Stamp>,
    unknowns: [usize; 2],
    k: int,
)
    requires
        call_ensures(Diode::load, (d, current, g), stamps),
        call_ensures(Diode::unknowns, (d,), unknowns),
        0 <= k < stamps@.len(),
    ensures
        stays_within(stamps@[k], unknowns@),
{
    let u = unknowns@;
    assert(u.contains(u[0]));
    assert(u.contains(u[1]));
    assert(u.len() == 2);
}

/// A voltage source contributes only between its own unknowns, of which the
/// last is its branch current.
pub proof fn a_voltage_source_stays_between_its_unknowns(
    d: &VSource,
    mismatch: Real,
    x: &Vec<Real>,
    stamps: Vec<Stamp>,
    unknowns: [usize; 3],
    k: int,
    i: usize,
    kind: UnknownKind,
)
    requires
        call_ensures(VSource::load, (d, mismatch, x), stamps),
        call_ensures(VSource::unknowns, (d,), unknowns),
        call_ensures(VSource::unknown_kind, (d, i), kind),
        i < 3,
        0 <= k < stamps@.len(),
    ensures
        stays_within(stamps@[k], unknowns@),
        kind is Branch <==> i == 2,
        unknowns@[2] == d.branch,
{
    let u = unknowns@;
    assert(u.contains(u[0]));
    assert(u.contains(u[1]));
    assert(u.contains(u[2]));
    assert(u.len() == 3);
}

/// An inductor contributes only between its own unknowns, of which the last is its
/// branch current.
pub proof fn an_inductor_stays_between_its_unknowns(
    d: &Inductor,
    voltage: Real,
    flux: Real,
    x: &Vec<Real>,
    stamps: Vec<Stamp>,
    unknowns: [usize; 3],
    k: int,
    i: usize,
    kind: UnknownKind,
)
    requires
        call_ensures(Inductor::load, (d, voltage, flux, x), stamps),
        call_ensures(Inductor::unknowns, (d,), unknowns),
        call_ensures(Inductor::unknown_kind, (d, i), kind),
        i < 3,
        0 <= k < stamps@.len(),
    ensures
        stays_within(stamps@[k], unknowns@),
        kind is Branch <==> i == 2,
        unknowns@[2] == d.branch,
{
    let u = unknowns@;
    assert(u.contains(u[0]));
    assert(u.contains(u[1]));
    assert(u.contains(u[2]));
    assert(u.len() == 3);
}

/// A coupling contributes only between its own unknowns, which are both branch
/// currents.
pub proof fn a_coupling_stays_between_its_unknowns(
    d: &Mutual,
    flux_of_second: Real,
    flux_of_first: Real,
    stamps: Vec<Stamp>,
    unknowns: [usize; 2],
    k: int,
    i: usize,
    kind: UnknownKind,
)
    requires
        call_ensures(Mutual::load, (d, flux_of_second, flux_of_first), stamps),
        call_ensures(Mutual::unknowns, (d,), unknowns),
        call_ensures(Mutual::unknown_kind, (d, i), kind),
        i < 2,
        0 <= k < stamps@.len(),
    ensures
        stays_within(stamps@[k], unknowns@),
        kind is Branch,
{
    let u = unknowns@;
    assert(u.contains(u[0]));
    assert(u.contains(u[1]));
    assert(u.len() == 2);
}

/// A voltage-controlled current source contributes only between its own unknowns.
pub proof fn a_controlled_current_stays_between_its_unknowns(
    d: &Vccs,
    current: Real,
    stamps: Vec<Stamp>,
    unknowns: [usize; 4],
    k: int,
)
    requires
        call_ensures(Vccs::load, (d, current), stamps),
        call_ensures(Vccs::unknowns, (d,), unknowns),
        0 <= k < stamps@.len(),
    ensures
        stays_within(stamps@[k], unknowns@),
{
    let u = unknowns@;
    assert(u.contains(u[0]));
    assert(u.contains(u[1]));
    assert(u.contains(u[2]));
    assert(u.contains(u[3]));
    assert(u.len() == 4);
}

/// A voltage-controlled voltage source contributes only between its own unknowns,
/// of which the last is its branch current.
pub proof fn a_controlled_voltage_stays_between_its_unknowns(
    d: &Vcvs,
    mismatch: Real,
    x: &Vec<Real>,
    stamps: Vec<Stamp>,
    unknowns: [usize; 5],
    k: int,
    i: usize,
    kind: UnknownKind,
)
    requires
        call_ensures(Vcvs::load, (d, mismatch, x), stamps),
        call_ensures(Vcvs::unknowns, (d,), unknowns),
        call_ensures(Vcvs::unknown_kind, (d, i), kind),
        i < 5,
        0 <= k < stamps@.len(),
    ensures
        stays_within(stamps@[k], unknowns@),
        kind is Branch <==> i == 4,
        unknowns@[4] == d.branch,
{
    let u = unknowns@;
    assert(u.contains(u[0]));
    assert(u.contains(u[1]));
    assert(u.contains(u[2]));
    assert(u.contains(u[3]));
    assert(u.contains(u[4]));
    assert(u.len() == 5);
}

/// A transistor contributes only between its own unknowns.
pub proof fn a_transistor_stays_between_its_unknowns(
    d: &Bjt,
    v: BjtPoint,
    stamps: Vec<Stamp>,
    unknowns: [usize; 3],
    k: int,
)
    requires
        call_ensures(Bjt::load, (d, v), stamps),
        call_ensures(Bjt::unknowns, (d,), unknowns),
        0 <= k < stamps@.len(),
    ensures
        stays_within(stamps@[k], unknowns@),
{
    let u = unknowns@;
    assert(u.contains(u[0]));
    assert(u.contains(u[1]));
    assert(u.contains(u[2]));
    assert(u.len() == 3);
}

// ---- lines that are not built ---------------------------------------------

/// A source or an inductor with fewer than two terminals is told how many it has, and so is
/// a transistor with another number than three; a line whose model is neither compiled nor
/// built in is told its name.
pub proof fn a_line_is_told_what_it_lacks(
    dev: &Device,
    compiled: &Vec<Module>,
    next: usize,
    e: BuildError,
)
    requires
        call_ensures(build_instance, (dev, compiled, next), Err(e)),
    ensures
        dev.model@ == "vsource"@ || dev.model@ == "inductor"@ ==> dev.terminals@.len() < 2 && (
        e matches BuildError::TooFewTerminals { device, terminals, model } && device == dev.name
            && terminals == dev.terminals@.len() && model == dev.model),
        dev.model@ == "bjt"@ && names_none(compiled@, dev.model@) ==> (
        e matches BuildError::TransistorTerminals { device, terminals } && device == dev.name
            && terminals == dev.terminals@.len() && terminals != 3),
        names_none(compiled@, dev.model@) && !is_primitive(dev.model@) ==> (
        e matches BuildError::UnknownModel { device, model } && device == dev.name && model
            == dev.model),
{
    lemma_names_differ();
    assert(dev.terminals.len() == dev.terminals@.len());
    assert(is_plan(*dev, compiled@, next as int, Err(e)));
    if names_none(compiled@, dev.model@) {
        lemma_no_model(compiled@, dev.model@);
    }
}

/// The model is one of the built-in primitives without a coupling.
pub open spec fn is_primitive(model: Seq<char>) -> bool {
    model == "vsource"@ || model == "vccs"@ || model == "vcvs"@ || model == "inductor"@ || model
        == "resistor"@ || model == "capacitor"@ || model == "diode"@ || model == "bjt"@
}

/// A line of a controlled source is let through with four terminals, one of a primitive or
/// of no known model with two; sources, inductors, couplings and compiled models are
/// checked where they are built.
pub proof fn a_line_has_the_terminals_of_its_letter(
    dev: &Device,
    compiled: &Vec<Module>,
    enough: bool,
)
    requires
        call_ensures(check_terminals, (dev, compiled), enough),
    ensures
        dev.model@ == "vccs"@ || dev.model@ == "vcvs"@ ==> (enough <==> dev.terminals@.len() >= 4),
        dev.model@ == "vsource"@ || dev.model@ == "inductor"@ || couples_to_others(dev.model@)
            ==> enough,
        !is_primitive(dev.model@) && !couples_to_others(dev.model@) && names_none(
            compiled@,
            dev.model@,
        ) ==> (enough <==> dev.terminals@.len() >= 2),
        (dev.model@ == "resistor"@ || dev.model@ == "capacitor"@ || dev.model@ == "diode"@
            || dev.model@ == "bjt"@) && names_none(compiled@, dev.model@) ==> (enough
            <==> dev.terminals@.len() >= 2),
        !names_none(compiled@, dev.model@) && dev.model@ != "vccs"@ && dev.model@ != "vcvs"@
            ==> enough,
{
    lemma_names_differ();
    lemma_coupling_names_differ();
    assert(crate::device::is_deferred(dev.model@) == couples_to_others(dev.model@));
    if names_none(compiled@, dev.model@) {
        lemma_no_model(compiled@, dev.model@);
    } else {
        let i = choose|i: int| 0 <= i < compiled@.len() && #[trigger] compiled@[i].name@ == dev.model@;
        lemma_first_where_holds(compiled@, is_model_named(dev.model@));
        assert(is_model_named(dev.model@)(compiled@[i]));
    }
}

/// The model couples to other elements.
pub open spec fn couples_to_others(model: Seq<char>) -> bool {
    model == "cccs"@ || model == "ccvs"@ || model == "mutual"@
}

proof fn lemma_coupling_names_differ()
    ensures
        forall|m: Seq<char>| #[trigger]
            couples_to_others(m) ==> m != "vccs"@ && m != "vcvs"@ && m != "resistor"@ && m
                != "capacitor"@ && m != "diode"@ && m != "bjt"@,
{
    reveal_strlit("cccs");
    reveal_strlit("ccvs");
    reveal_strlit("mutual");
    reveal_strlit("vccs");
    reveal_strlit("vcvs");
    reveal_strlit("resistor");
    reveal_strlit("capacitor");
    reveal_strlit("diode");
    reveal_strlit("bjt");
    assert("cccs"@[0] != "vccs"@[0] && "cccs"@[0] != "vcvs"@[0]);
    assert("ccvs"@[0] != "vccs"@[0] && "ccvs"@[0] != "vcvs"@[0]);
    assert("cccs"@.len() == 4 && "ccvs"@.len() == 4 && "mutual"@.len() == 6);
    assert("vccs"@.len() == 4 && "vcvs"@.len() == 4 && "resistor"@.len() == 8 && "capacitor"@.len()
        == 9 && "diode"@.len() == 5 && "bjt"@.len() == 3);
}

/// Whether a model waits for others, and whether it is built in whatever is compiled, goes
/// by its name alone.
pub proof fn a_model_waits_by_its_name(model: &str, waits: bool, always: bool)
    requires
        call_ensures(deferred, (model,), waits),
        call_ensures(built_in, (model,), always),
    ensures
        waits <==> couples_to_others(model@),
        always <==> couples_to_others(model@) || model@ == "vsource"@ || model@ == "vccs"@
            || model@ == "vcvs"@ || model@ == "inductor"@,
{
}

} // verus!
