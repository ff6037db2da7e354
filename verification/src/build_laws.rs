//! What a deck's circuit is made of: each part between the nets that its line names, each
//! coupling to the branches that it names, and each quantity under its own name.
use crate::assembly::Assembly;
use crate::circuit::{
    after_first, after_second, auxiliary_rows, branch_currents, build_instances, buildable, couple,
    coupling_plan, current_index, declared, first_parts, inductor_index, internal_potentials,
    is_first_error, is_inductor_named, is_named, is_second_error, lemma_most_rows_grows, most_rows,
    node_at, part_decls, planned_first, planned_second, recorded, reported, second_parts, Built,
    BuilderView,
};
use crate::device::{is_deferred, is_plan, lemma_claim_bound, most_claimed, Part};
use crate::multiplicity::{cell_sum, Cell};
use crate::netlist::{Device, Module, Netlist, NodeDecl};
use crate::number::Real;
use crate::place::{is_placement_error, BuildError};
use crate::place_laws::is_claimed;
use crate::quantity::{auxiliary_view, potential_view, views, Quantity, QuantityView};
use crate::reference::{is_odd, Mutual};
use crate::search::lemma_first_where_holds;
use crate::stamps::Stamp;
use crate::text::decimal;
use vstd::prelude::*;

verus! {

// ---- couplings ------------------------------------------------------------

/// The row is that of the first branch current of this name.
pub open spec fn is_row_of(currents: Seq<(String, usize)>, name: Seq<char>, row: usize) -> bool {
    exists|c: int|
        {
            &&& 0 <= c < currents.len()
            &&& (#[trigger] currents[c]).0@ == name
            &&& currents[c].1 == row
            &&& forall|j: int| 0 <= j < c ==> (#[trigger] currents[j]).0@ != name
        }
}

/// The device is the first inductor of this name.
pub open spec fn is_inductor_at(devices: Seq<Device>, name: Seq<char>, d: int) -> bool {
    &&& 0 <= d < devices.len()
    &&& devices[d].name@ == name
    &&& devices[d].model@ == "inductor"@
    &&& forall|j: int|
        0 <= j < d ==> !((#[trigger] devices[j]).name@ == name && devices[j].model@ == "inductor"@)
}

proof fn lemma_row(currents: Seq<(String, usize)>, name: Seq<char>)
    ensures
        ({
            let c = current_index(currents, name);
            &&& 0 <= c <= currents.len()
            &&& c < currents.len() ==> is_row_of(currents, name, currents[c].1)
            &&& c == currents.len() ==> forall|j: int|
                0 <= j < currents.len() ==> (#[trigger] currents[j]).0@ != name
        }),
{
    let holds = is_named(name);
    let c = current_index(currents, name);
    lemma_first_where_holds(currents, holds);
    assert forall|j: int| 0 <= j < c implies (#[trigger] currents[j]).0@ != name by {
        assert(!holds(currents[j]));
    }
    if c < currents.len() {
        assert(holds(currents[c]));
        assert(currents[c].0@ == name);
    }
}

proof fn lemma_inductor(devices: Seq<Device>, name: Seq<char>)
    ensures
        ({
            let d = inductor_index(devices, name);
            &&& 0 <= d <= devices.len()
            &&& d < devices.len() ==> is_inductor_at(devices, name, d)
            &&& d == devices.len() ==> forall|j: int|
                0 <= j < devices.len() ==> !((#[trigger] devices[j]).name@ == name
                    && devices[j].model@ == "inductor"@)
        }),
{
    let holds = is_inductor_named(name);
    let d = inductor_index(devices, name);
    lemma_first_where_holds(devices, holds);
    assert forall|j: int| 0 <= j < d implies !((#[trigger] devices[j]).name@ == name
        && devices[j].model@ == "inductor"@) by {
        assert(!holds(devices[j]));
    }
    if d < devices.len() {
        assert(holds(devices[d]));
    }
}

proof fn lemma_coupling_names()
    ensures
        "mutual"@ != "cccs"@,
        "mutual"@ != "ccvs"@,
        "cccs"@ != "ccvs"@,
{
    reveal_strlit("mutual");
    reveal_strlit("cccs");
    reveal_strlit("ccvs");
    assert("cccs"@[2] != "ccvs"@[2]);
    assert("mutual"@.len() == 6 && "cccs"@.len() == 4 && "ccvs"@.len() == 4);
}

/// The part stands where its line says: a source that a current controls between its two
/// terminals, with the branch of the element that it names first as its control, and a
/// coupling between the branches of the two inductors that it names.
pub open spec fn couples(
    dev: Device,
    devices: Seq<Device>,
    currents: Seq<(String, usize)>,
    next: int,
    part: Part,
) -> bool {
    match part {
        Part::Cccs { p, n, control, gain } => {
            &&& dev.model@ == "cccs"@
            &&& p == dev.terminals@[0] && n == dev.terminals@[1]
            &&& dev.controls@.len() > 0 && is_row_of(currents, dev.controls@[0]@, control)
            &&& dev.value matches Some(v) ==> gain == v
            &&& dev.value is None ==> gain == (Real { bits: 0 })
        },
        Part::Ccvs { p, n, control, branch, gain } => {
            &&& dev.model@ != "cccs"@ && dev.model@ != "mutual"@
            &&& p == dev.terminals@[0] && n == dev.terminals@[1]
            &&& dev.controls@.len() > 0 && is_row_of(currents, dev.controls@[0]@, control)
            &&& branch == next
            &&& dev.value matches Some(v) ==> gain == v
            &&& dev.value is None ==> gain == (Real { bits: 0 })
        },
        Part::Mutual { first, second, l1, l2, coupling } => {
            &&& dev.model@ == "mutual"@
            &&& dev.controls@.len() == 2
            &&& first != second
            &&& is_row_of(currents, dev.controls@[0]@, first)
            &&& is_row_of(currents, dev.controls@[1]@, second)
            &&& dev.value matches Some(v) ==> coupling == v
            &&& dev.value is None ==> coupling == (Real { bits: 0 })
            &&& exists|a: int, b: int|
                {
                    &&& #[trigger] is_inductor_at(devices, dev.controls@[0]@, a)
                    &&& #[trigger] is_inductor_at(devices, dev.controls@[1]@, b)
                    &&& devices[a].value matches Some(v) ==> l1 == v
                    &&& devices[a].value is None ==> l1 == (Real { bits: 0 })
                    &&& devices[b].value matches Some(v) ==> l2 == v
                    &&& devices[b].value is None ==> l2 == (Real { bits: 0 })
                }
        },
        _ => false,
    }
}

proof fn lemma_couples(
    dev: Device,
    devices: Seq<Device>,
    currents: Seq<(String, usize)>,
    next: int,
    part: Part,
)
    requires
        coupling_plan(dev, devices, currents, next) == Ok::<Part, BuildError>(part),
        0 <= next <= usize::MAX,
    ensures
        couples(dev, devices, currents, next, part),
{
    lemma_coupling_names();
    let names = dev.controls@;
    if names.len() > 0 {
        lemma_row(currents, names[0]@);
        lemma_inductor(devices, names[0]@);
    }
    if dev.model@ == "mutual"@ && names.len() == 2 {
        lemma_row(currents, names[1]@);
        lemma_inductor(devices, names[1]@);
        let a = inductor_index(devices, names[0]@);
        let b = inductor_index(devices, names[1]@);
        assert(is_inductor_at(devices, names[0]@, a));
        assert(is_inductor_at(devices, names[1]@, b));
    }
}

/// A device that couples to others takes the branches that it names and no others.
pub proof fn a_coupling_takes_the_branches_it_names(
    dev: &Device,
    devices: &Vec<Device>,
    currents: &Vec<(String, usize)>,
    next: usize,
    part: Part,
)
    requires
        call_ensures(couple, (dev, devices, currents, next), Ok(part)),
    ensures
        couples(*dev, devices@, currents@, next as int, part),
{
    lemma_couples(*dev, devices@, currents@, next as int, part);
}

/// A device that couples to others is refused exactly if an element is not found: one
/// that names no element, or one without a branch current; a coupling that does not name
/// two different inductors.
pub proof fn a_coupling_is_refused_for_cause(
    dev: &Device,
    devices: &Vec<Device>,
    currents: &Vec<(String, usize)>,
    next: usize,
    r: Result<Part, BuildError>,
)
    requires
        call_ensures(couple, (dev, devices, currents, next), r),
    ensures
        dev.model@ != "mutual"@ ==> (r is Ok <==> dev.controls@.len() > 0 && is_listed(
            currents@,
            dev.controls@[0]@,
        )),
        dev.model@ == "mutual"@ ==> (r is Ok <==> {
            &&& dev.controls@.len() == 2
            &&& forall|k: int| 0 <= k < 2 ==> is_inductor(devices@, (#[trigger] dev.controls@[k])@)
            &&& forall|k: int| 0 <= k < 2 ==> is_listed(currents@, (#[trigger] dev.controls@[k])@)
            &&& !(exists|row: usize| #[trigger]
                is_row_of(currents@, dev.controls@[0]@, row) && is_row_of(
                    currents@,
                    dev.controls@[1]@,
                    row,
                ))
        }),
{
    lemma_coupling_names();
    let names = dev.controls@;
    if names.len() > 0 {
        lemma_row(currents@, names[0]@);
        lemma_inductor(devices@, names[0]@);
        lemma_listed(currents@, names[0]@);
        lemma_is_inductor(devices@, names[0]@);
    }
    if names.len() == 2 {
        lemma_row(currents@, names[1]@);
        lemma_inductor(devices@, names[1]@);
        lemma_listed(currents@, names[1]@);
        lemma_is_inductor(devices@, names[1]@);
        let (a, b) = (current_index(currents@, names[0]@), current_index(currents@, names[1]@));
        if a < currents@.len() && b < currents@.len() {
            if currents@[a].1 == currents@[b].1 {
                assert(is_row_of(currents@, names[0]@, currents@[a].1));
                assert(is_row_of(currents@, names[1]@, currents@[a].1));
            } else {
                assert forall|row: usize| #[trigger]
                    is_row_of(currents@, names[0]@, row) implies !is_row_of(
                    currents@,
                    names[1]@,
                    row,
                ) by {
                    lemma_one_row(currents@, names[0]@, row, currents@[a].1);
                    if is_row_of(currents@, names[1]@, row) {
                        lemma_one_row(currents@, names[1]@, row, currents@[b].1);
                    }
                }
            }
        }
        let (i, j) = (0int, 1int);
        assert(names[i] == dev.controls@[0] && names[j] == dev.controls@[1]);
    }
}

/// Some branch current has this name.
pub open spec fn is_listed(currents: Seq<(String, usize)>, name: Seq<char>) -> bool {
    exists|c: int| 0 <= c < currents.len() && (#[trigger] currents[c]).0@ == name
}

/// Some inductor has this name.
pub open spec fn is_inductor(devices: Seq<Device>, name: Seq<char>) -> bool {
    exists|d: int|
        0 <= d < devices.len() && (#[trigger] devices[d]).name@ == name && devices[d].model@
            == "inductor"@
}

proof fn lemma_listed(currents: Seq<(String, usize)>, name: Seq<char>)
    ensures
        is_listed(currents, name) <==> current_index(currents, name) < currents.len(),
{
    lemma_row(currents, name);
}

proof fn lemma_is_inductor(devices: Seq<Device>, name: Seq<char>)
    ensures
        is_inductor(devices, name) <==> inductor_index(devices, name) < devices.len(),
{
    lemma_inductor(devices, name);
    let d = inductor_index(devices, name);
    if d < devices.len() {
        assert(devices[d].name@ == name);
    }
}

proof fn lemma_one_row(currents: Seq<(String, usize)>, name: Seq<char>, a: usize, b: usize)
    requires
        is_row_of(currents, name, a),
        is_row_of(currents, name, b),
    ensures
        a == b,
{
    let c = choose|c: int|
        {
            &&& 0 <= c < currents.len()
            &&& (#[trigger] currents[c]).0@ == name
            &&& currents[c].1 == a
            &&& forall|j: int| 0 <= j < c ==> (#[trigger] currents[j]).0@ != name
        };
    let d = choose|d: int|
        {
            &&& 0 <= d < currents.len()
            &&& (#[trigger] currents[d]).0@ == name
            &&& currents[d].1 == b
            &&& forall|j: int| 0 <= j < d ==> (#[trigger] currents[j]).0@ != name
        };
    assert(c == d) by {
        if c < d {
            assert(currents[c].0@ != name);
        }
        if d < c {
            assert(currents[d].0@ != name);
        }
    }
}

/// A line `K l1 l2 k` lets the branch of each named inductor take the flux that the
/// current of the other causes.
pub proof fn a_coupling_line_joins_its_inductors(
    dev: &Device,
    devices: &Vec<Device>,
    currents: &Vec<(String, usize)>,
    next: usize,
    l1: Real,
    l2: Real,
    coupling: Real,
    d: &Mutual,
    flux_of_second: Real,
    flux_of_first: Real,
    stamps: Vec<Stamp>,
    row: usize,
    col: usize,
    val: spec_fn(Real) -> int,
)
    requires
        call_ensures(
            couple,
            (dev, devices, currents, next),
            Ok(Part::Mutual { first: d.first, second: d.second, l1, l2, coupling }),
        ),
        call_ensures(Mutual::load, (d, flux_of_second, flux_of_first), stamps),
        is_row_of(currents@, dev.controls@[0]@, row),
        is_row_of(currents@, dev.controls@[1]@, col),
        is_odd(val),
    ensures
        row != col,
        cell_sum(stamps@, Cell::Charge { row }, val) == val(flux_of_second),
        cell_sum(stamps@, Cell::Charge { row: col }, val) == val(flux_of_first),
        cell_sum(stamps@, Cell::Dcharge { row, col }, val) == val(d.inductance),
        cell_sum(stamps@, Cell::Dcharge { row: col, col: row }, val) == val(d.inductance),
        cell_sum(stamps@, Cell::Dcharge { row, col: row }, val) == 0,
{
    lemma_couples(
        *dev,
        devices@,
        currents@,
        next as int,
        Part::Mutual { first: d.first, second: d.second, l1, l2, coupling },
    );
    lemma_one_row(currents@, dev.controls@[0]@, row, d.first);
    lemma_one_row(currents@, dev.controls@[1]@, col, d.second);
    crate::device_laws::coupled_branches_take_the_flux_of_the_other(
        d,
        flux_of_second,
        flux_of_first,
        stamps,
        Cell::Charge { row },
        val,
    );
    crate::device_laws::coupled_branches_take_the_flux_of_the_other(
        d,
        flux_of_second,
        flux_of_first,
        stamps,
        Cell::Charge { row: col },
        val,
    );
    crate::device_laws::coupled_branches_take_the_flux_of_the_other(
        d,
        flux_of_second,
        flux_of_first,
        stamps,
        Cell::Dcharge { row, col },
        val,
    );
    crate::device_laws::coupled_branches_take_the_flux_of_the_other(
        d,
        flux_of_second,
        flux_of_first,
        stamps,
        Cell::Dcharge { row: col, col: row },
        val,
    );
    crate::device_laws::coupled_branches_take_the_flux_of_the_other(
        d,
        flux_of_second,
        flux_of_first,
        stamps,
        Cell::Dcharge { row, col: row },
        val,
    );
}

// ---- the whole circuit ----------------------------------------------------

/// The part stands between the nets that its line names: the first terminals in order, a
/// transistor's as collector, base and emitter.
pub open spec fn stands_between(dev: Device, part: Part) -> bool {
    let t = dev.terminals@;
    match part {
        Part::VoltageSource { p, n, .. } => p == t[0] && n == t[1],
        Part::WaveformSource { p, n, waveform, .. } => p == t[0] && n == t[1] && dev.waveform
            == Some(waveform),
        Part::Vccs { p, n, cp, cn, .. } => p == t[0] && n == t[1] && cp == t[2] && cn == t[3],
        Part::Vcvs { p, n, cp, cn, .. } => p == t[0] && n == t[1] && cp == t[2] && cn == t[3],
        Part::Inductor { p, n, .. } => p == t[0] && n == t[1],
        Part::Resistor { p, n, resistance } => p == t[0] && n == t[1] && dev.value == Some(
            resistance,
        ),
        Part::Capacitor { p, n, capacitance } => p == t[0] && n == t[1] && dev.value == Some(
            capacitance,
        ),
        Part::Diode { p, n, .. } => p == t[0] && n == t[1],
        Part::Transistor { b, c, e, .. } => c == t[0] && b == t[1] && e == t[2],
        Part::Cccs { p, n, .. } => p == t[0] && n == t[1],
        Part::Ccvs { p, n, .. } => p == t[0] && n == t[1],
        Part::Mutual { .. } => true,
        Part::Compiled { .. } => true,
    }
}

proof fn lemma_planned_first(
    net: Netlist,
    compiled: Seq<Module>,
    claims: Seq<usize>,
    first: Seq<Option<Part>>,
    i: int,
)
    requires
        planned_first(net, compiled, claims, first),
        0 <= i < first.len() <= net.devices@.len(),
    ensures
        ({
            let s = after_first(net, compiled, claims, first.subrange(0, i));
            match first[i] {
                None => is_deferred(net.devices@[i].model@),
                Some(part) => !is_deferred(net.devices@[i].model@) && is_plan(
                    net.devices@[i],
                    compiled,
                    s.next,
                    Ok(part),
                ),
            }
        }),
    decreases first.len(),
{
    if i == first.len() - 1 {
        assert(first.drop_last() =~= first.subrange(0, i));
    } else {
        lemma_planned_first(net, compiled, claims, first.drop_last(), i);
        assert(first.drop_last().subrange(0, i) =~= first.subrange(0, i));
    }
}

proof fn lemma_planned_second(
    net: Netlist,
    compiled: Seq<Module>,
    start: BuilderView,
    second: Seq<Option<Part>>,
    i: int,
)
    requires
        planned_second(net, compiled, start, second),
        0 <= i < second.len() <= net.devices@.len(),
    ensures
        ({
            let s = after_second(net, compiled, start, second.subrange(0, i));
            let all = after_second(net, compiled, start, second).currents;
            &&& s.currents.len() <= all.len()
            &&& all.subrange(0, s.currents.len() as int) == s.currents
            &&& match second[i] {
                None => !is_deferred(net.devices@[i].model@),
                Some(part) => is_deferred(net.devices@[i].model@) && coupling_plan(
                    net.devices@[i],
                    net.devices@,
                    s.currents,
                    s.next,
                ) == Ok::<Part, BuildError>(part),
            }
        }),
    decreases second.len(),
{
    let before = after_second(net, compiled, start, second.drop_last()).currents;
    let all = after_second(net, compiled, start, second).currents;
    assert(before.len() <= all.len() && all.subrange(0, before.len() as int) =~= before);
    if i == second.len() - 1 {
        assert(second.drop_last() =~= second.subrange(0, i));
    } else {
        lemma_planned_second(net, compiled, start, second.drop_last(), i);
        assert(second.drop_last().subrange(0, i) =~= second.subrange(0, i));
        let s = after_second(net, compiled, start, second.subrange(0, i)).currents;
        assert(all.subrange(0, s.len() as int) =~= before.subrange(0, s.len() as int));
    }
}

proof fn lemma_plan_stands(dev: Device, compiled: Seq<Module>, next: int, part: Part)
    requires
        is_plan(dev, compiled, next, Ok(part)),
    ensures
        stands_between(dev, part),
        !(part is Cccs) && !(part is Ccvs) && !(part is Mutual),
{
}

proof fn lemma_row_stays(
    all: Seq<(String, usize)>,
    count: int,
    name: Seq<char>,
    row: usize,
)
    requires
        0 <= count <= all.len(),
        is_row_of(all.subrange(0, count), name, row),
    ensures
        is_row_of(all, name, row),
{
    let s = all.subrange(0, count);
    let c = choose|c: int|
        {
            &&& 0 <= c < s.len()
            &&& (#[trigger] s[c]).0@ == name
            &&& s[c].1 == row
            &&& forall|j: int| 0 <= j < c ==> (#[trigger] s[j]).0@ != name
        };
    assert(all[c].0@ == name);
    assert forall|j: int| 0 <= j < c implies (#[trigger] all[j]).0@ != name by {
        assert(s[j].0@ != name);
    }
}

/// Every part of a circuit stands between the nets that its own line names, and a device
/// that couples to others takes the branches that the circuit lists under the names on
/// its line.
pub proof fn every_part_follows_its_line(
    net: &Netlist,
    compiled: &Vec<Module>,
    claims: &Vec<usize>,
    built: Built,
    i: int,
)
    requires
        call_ensures(build_instances, (net, compiled, claims), Ok(built)),
        0 <= i < net.devices@.len(),
    ensures
        built.parts@.len() == net.devices@.len(),
        stands_between(net.devices@[i], built.parts@[i]),
        match built.parts@[i] {
            Part::Cccs { control, .. } => net.devices@[i].controls@.len() > 0 && is_row_of(
                built.currents@,
                net.devices@[i].controls@[0]@,
                control,
            ),
            Part::Ccvs { control, .. } => net.devices@[i].controls@.len() > 0 && is_row_of(
                built.currents@,
                net.devices@[i].controls@[0]@,
                control,
            ),
            Part::Mutual { first, second, .. } => net.devices@[i].controls@.len() == 2 && is_row_of(
                built.currents@,
                net.devices@[i].controls@[0]@,
                first,
            ) && is_row_of(built.currents@, net.devices@[i].controls@[1]@, second),
            _ => true,
        },
{
    lemma_parts_follow(net, compiled, claims, built, i);
}

proof fn lemma_parts_follow(
    net: &Netlist,
    compiled: &Vec<Module>,
    claims: &Vec<usize>,
    built: Built,
    i: int,
)
    requires
        built.is_of(*net, compiled@, claims@),
        0 <= i < net.devices@.len(),
    ensures
        built.parts@.len() == net.devices@.len(),
        stands_between(net.devices@[i], built.parts@[i]),
        match built.parts@[i] {
            Part::Cccs { control, .. } => net.devices@[i].controls@.len() > 0 && is_row_of(
                built.currents@,
                net.devices@[i].controls@[0]@,
                control,
            ),
            Part::Ccvs { control, .. } => net.devices@[i].controls@.len() > 0 && is_row_of(
                built.currents@,
                net.devices@[i].controls@[0]@,
                control,
            ),
            Part::Mutual { first, second, .. } => net.devices@[i].controls@.len() == 2 && is_row_of(
                built.currents@,
                net.devices@[i].controls@[0]@,
                first,
            ) && is_row_of(built.currents@, net.devices@[i].controls@[1]@, second),
            _ => true,
        },
{
    let first = first_parts(*net, built.parts@);
    let second = second_parts(*net, built.parts@);
    let start = after_first(*net, compiled@, claims@, first);
    let dev = net.devices@[i];
    assert(built.is_of(*net, compiled@, claims@));
    lemma_planned_first(*net, compiled@, claims@, first, i);
    lemma_planned_second(*net, compiled@, start, second, i);
    if !is_deferred(dev.model@) {
        let s = after_first(*net, compiled@, claims@, first.subrange(0, i));
        lemma_plan_stands(dev, compiled@, s.next, built.parts@[i]);
    } else {
        let s = after_second(*net, compiled@, start, second.subrange(0, i));
        let part = built.parts@[i];
        let n = s.currents.len() as int;
        lemma_coupled_rows(dev, net.devices@, s.currents, s.next, part);
        assert(built.currents@.subrange(0, n) == s.currents);
        match part {
            Part::Cccs { control, .. } => {
                lemma_row_stays(built.currents@, n, dev.controls@[0]@, control);
            },
            Part::Ccvs { control, .. } => {
                lemma_row_stays(built.currents@, n, dev.controls@[0]@, control);
            },
            Part::Mutual { first, second, .. } => {
                lemma_row_stays(built.currents@, n, dev.controls@[0]@, first);
                lemma_row_stays(built.currents@, n, dev.controls@[1]@, second);
            },
            _ => {},
        }
    }
}

proof fn lemma_coupled_rows(
    dev: Device,
    devices: Seq<Device>,
    currents: Seq<(String, usize)>,
    next: int,
    part: Part,
)
    requires
        coupling_plan(dev, devices, currents, next) == Ok::<Part, BuildError>(part),
    ensures
        stands_between(dev, part),
        match part {
            Part::Cccs { control, .. } => dev.controls@.len() > 0 && is_row_of(
                currents,
                dev.controls@[0]@,
                control,
            ),
            Part::Ccvs { control, .. } => dev.controls@.len() > 0 && is_row_of(
                currents,
                dev.controls@[0]@,
                control,
            ),
            Part::Mutual { first, second, .. } => dev.controls@.len() == 2 && is_row_of(
                currents,
                dev.controls@[0]@,
                first,
            ) && is_row_of(currents, dev.controls@[1]@, second),
            _ => false,
        },
{
    let names = dev.controls@;
    if names.len() > 0 {
        lemma_row(currents, names[0]@);
    }
    if names.len() == 2 {
        lemma_row(currents, names[1]@);
    }
}

// ---- quantities -----------------------------------------------------------

/// A quantity is the potential of a node of this name at this place: its label is the
/// name inside the access function that the node declares, `V` where it declares none;
/// its unit is the declared one, none where only an access function is declared, and `V`
/// where neither is.
pub open spec fn is_potential_of(
    q: Quantity,
    access: Option<String>,
    units: Option<String>,
    name: Seq<char>,
    place: usize,
) -> bool {
    &&& q.is_potential
    &&& q.index == place
    &&& q.name@ == name
    &&& access matches Some(a) ==> q.label@ == a@ + "("@ + name + ")"@
    &&& access is None ==> q.label@ == "V"@ + "("@ + name + ")"@
    &&& units matches Some(u) ==> q.unit@ == u@
    &&& units is None && access is Some ==> q.unit@ == Seq::<char>::empty()
    &&& units is None && access is None ==> q.unit@ == "V"@
}

/// A quantity is the branch current of a device of this name at this place.
pub open spec fn is_current_of(q: Quantity, name: Seq<char>, place: usize) -> bool {
    &&& !q.is_potential
    &&& q.index == place
    &&& q.name@ == name
    &&& q.label@ == "I("@ + name + ")"@
    &&& q.unit@ == "A"@
}

/// After the nets a circuit reports each of its branch currents, in order, as the current
/// of its device in amperes.
pub proof fn currents_are_reported_after_the_nets(
    net: &Netlist,
    compiled: &Vec<Module>,
    claims: &Vec<usize>,
    built: Built,
    k: int,
)
    requires
        call_ensures(build_instances, (net, compiled, claims), Ok(built)),
        0 <= k < built.currents@.len(),
    ensures
        net.node_order@.len() + k < built.quantities@.len(),
        is_current_of(
            built.quantities@[net.node_order@.len() + k],
            built.currents@[k].0@,
            built.currents@[k].1,
        ),
{
    let nets = net.node_order@.len() as int;
    let end = built.end_state(*net, compiled@, claims@);
    assert(built.is_of(*net, compiled@, claims@));
    let all = views(built.quantities@);
    assert(all == reported(net.node_order@, end));
    assert(all.len() == built.quantities@.len());
    assert(all[nets + k] == built.quantities@[nets + k]@);
    assert(all[nets + k] == crate::quantity::current_view(
        built.currents@[k].0@,
        built.currents@[k].1,
    ));
}

/// Every branch current that a circuit lists is that of one of its devices, under the
/// name of the device.
pub proof fn every_listed_current_has_its_device(
    net: &Netlist,
    compiled: &Vec<Module>,
    claims: &Vec<usize>,
    built: Built,
    k: int,
)
    requires
        call_ensures(build_instances, (net, compiled, claims), Ok(built)),
        0 <= k < built.currents@.len(),
    ensures
        exists|i: int|
            {
                &&& 0 <= i < net.devices@.len()
                &&& (#[trigger] net.devices@[i]).name == built.currents@[k].0
                &&& carries(built.parts@[i], built.currents@[k].1)
            },
{
    let first = first_parts(*net, built.parts@);
    let second = second_parts(*net, built.parts@);
    assert(built.is_of(*net, compiled@, claims@));
    lemma_first_currents(*net, compiled@, claims@, first, built.parts@);
    let start = after_first(*net, compiled@, claims@, first);
    lemma_second_currents(*net, compiled@, start, second, built.parts@);
    assert(owned(*net, built.parts@, built.currents@));
    assert(is_owned(*net, built.parts@, built.currents@[k]));
}

/// The part has a branch current of its own at this row.
pub open spec fn carries(part: Part, row: usize) -> bool {
    match part {
        Part::VoltageSource { branch, .. } => branch == row,
        Part::WaveformSource { branch, .. } => branch == row,
        Part::Vcvs { branch, .. } => branch == row,
        Part::Inductor { branch, .. } => branch == row,
        Part::Ccvs { branch, .. } => branch == row,
        _ => false,
    }
}

spec fn is_owned(net: Netlist, parts: Seq<Part>, current: (String, usize)) -> bool {
    exists|i: int|
        {
            &&& 0 <= i < net.devices@.len()
            &&& (#[trigger] net.devices@[i]).name == current.0
            &&& carries(parts[i], current.1)
        }
}

spec fn owned(net: Netlist, parts: Seq<Part>, currents: Seq<(String, usize)>) -> bool {
    forall|k: int| 0 <= k < currents.len() ==> is_owned(net, parts, #[trigger] currents[k])
}

proof fn lemma_owned_push(
    net: Netlist,
    parts: Seq<Part>,
    s: BuilderView,
    compiled: Seq<Module>,
    i: int,
    end: int,
)
    requires
        owned(net, parts, s.currents),
        0 <= i < net.devices@.len(),
    ensures
        owned(net, parts, recorded(s, net.devices@[i], compiled, parts[i], end).currents),
{
    let after = recorded(s, net.devices@[i], compiled, parts[i], end).currents;
    assert forall|k: int| 0 <= k < after.len() implies is_owned(net, parts, #[trigger] after[k]) by {
        if k < s.currents.len() {
            assert(is_owned(net, parts, s.currents[k]));
        } else {
            assert(net.devices@[i].name == after[k].0);
        }
    }
}

proof fn lemma_first_currents(
    net: Netlist,
    compiled: Seq<Module>,
    claims: Seq<usize>,
    first: Seq<Option<Part>>,
    parts: Seq<Part>,
)
    requires
        first.len() <= net.devices@.len(),
        forall|i: int|
            0 <= i < first.len() ==> ((#[trigger] first[i]) matches Some(part) ==> part == parts[i]),
    ensures
        owned(net, parts, after_first(net, compiled, claims, first).currents),
    decreases first.len(),
{
    if first.len() > 0 {
        let fewer = first.drop_last();
        assert forall|i: int| 0 <= i < fewer.len() implies ((#[trigger] fewer[i]) matches Some(part)
            ==> part == parts[i]) by {
            assert(fewer[i] == first[i]);
        }
        lemma_first_currents(net, compiled, claims, fewer, parts);
        let i = first.len() - 1;
        if let Some(part) = first[i] {
            let s = after_first(net, compiled, claims, fewer);
            lemma_owned_push(
                net,
                parts,
                s,
                compiled,
                i,
                part.end_of_claim(s.next) + crate::circuit::extra_rows(part, claims[i]),
            );
        }
    }
}

proof fn lemma_second_currents(
    net: Netlist,
    compiled: Seq<Module>,
    start: BuilderView,
    second: Seq<Option<Part>>,
    parts: Seq<Part>,
)
    requires
        second.len() <= net.devices@.len(),
        owned(net, parts, start.currents),
        forall|i: int|
            0 <= i < second.len() ==> ((#[trigger] second[i]) matches Some(part) ==> part
                == parts[i]),
    ensures
        owned(net, parts, after_second(net, compiled, start, second).currents),
    decreases second.len(),
{
    if second.len() > 0 {
        let fewer = second.drop_last();
        assert forall|i: int| 0 <= i < fewer.len() implies ((#[trigger] fewer[i]) matches Some(part)
            ==> part == parts[i]) by {
            assert(fewer[i] == second[i]);
        }
        lemma_second_currents(net, compiled, start, fewer, parts);
        let i = second.len() - 1;
        if let Some(part) = second[i] {
            let s = after_second(net, compiled, start, fewer);
            lemma_owned_push(net, parts, s, compiled, i, part.end_of_claim(s.next));
        }
    }
}

/// The nodes of a placed model, and none for a primitive.
pub open spec fn placed_nodes(part: Part) -> Seq<usize> {
    match part {
        Part::Compiled { placement, .. } => placement.nodes@,
        _ => Seq::empty(),
    }
}

/// The first device of the deck whose model has a node at this net is the `d`-th one, and
/// the `k`-th is the first such node of its model.
pub open spec fn is_first_to_reach(parts: Seq<Part>, net: int, d: int, k: int) -> bool {
    &&& 0 <= d < parts.len()
    &&& 0 <= k < placed_nodes(parts[d]).len()
    &&& placed_nodes(parts[d])[k] == net
    &&& forall|j: int| 0 <= j < k ==> #[trigger] placed_nodes(parts[d])[j] != net
    &&& forall|i: int, j: int|
        0 <= i < d && 0 <= j < placed_nodes(parts[i]).len() ==> #[trigger] placed_nodes(parts[i])[j]
            != net
}

/// No device has a model with a node at this net.
pub open spec fn is_reached_by_none(parts: Seq<Part>, net: int) -> bool {
    forall|i: int, j: int|
        0 <= i < parts.len() && 0 <= j < placed_nodes(parts[i]).len() ==> #[trigger] placed_nodes(
            parts[i],
        )[j] != net
}

proof fn lemma_node_at(nodes: Seq<usize>, g: int)
    ensures
        0 <= node_at(nodes, g) <= nodes.len(),
        forall|j: int| 0 <= j < node_at(nodes, g) ==> #[trigger] nodes[j] != g,
        node_at(nodes, g) < nodes.len() ==> nodes[node_at(nodes, g)] == g,
    decreases nodes.len(),
{
    if nodes.len() > 0 && nodes[0] != g {
        let rest = nodes.drop_first();
        lemma_node_at(rest, g);
        assert(node_at(nodes, g) == 1 + node_at(rest, g));
        assert forall|j: int| 0 <= j < node_at(nodes, g) implies #[trigger] nodes[j] != g by {
            if j > 0 {
                assert(rest[j - 1] == nodes[j]);
            }
        }
    }
}

proof fn lemma_first_decls(
    net: Netlist,
    compiled: Seq<Module>,
    claims: Seq<usize>,
    first: Seq<Option<Part>>,
    parts: Seq<Part>,
    g: int,
)
    requires
        first.len() <= parts.len(),
        0 <= g < net.node_order@.len(),
        forall|i: int|
            0 <= i < first.len() ==> match #[trigger] first[i] {
                Some(part) => part == parts[i],
                None => placed_nodes(parts[i]).len() == 0,
            },
    ensures
        ({
            let known = after_first(net, compiled, claims, first).node_decls;
            &&& known.len() == net.node_order@.len()
            &&& forall|d: int, k: int| #[trigger]
                is_first_to_reach(parts, g, d, k) ==> known[g] == (if d < first.len() {
                    Some(part_decls(parts[d], compiled)[k])
                } else {
                    None
                })
            &&& is_reached_by_none(parts, g) ==> known[g] is None
        }),
    decreases first.len(),
{
    if first.len() > 0 {
        let fewer = first.drop_last();
        assert forall|i: int| 0 <= i < fewer.len() implies match #[trigger] fewer[i] {
            Some(part) => part == parts[i],
            None => placed_nodes(parts[i]).len() == 0,
        } by {
            assert(fewer[i] == first[i]);
        }
        lemma_first_decls(net, compiled, claims, fewer, parts, g);
        let last = first.len() - 1;
        let before = after_first(net, compiled, claims, fewer).node_decls;
        let known = after_first(net, compiled, claims, first).node_decls;
        match first[last] {
            Some(part) => {
                let nodes = part.model_nodes();
                let k = node_at(nodes, g);
                lemma_node_at(nodes, g);
                assert(nodes == placed_nodes(parts[last]));
                assert(known[g] == if before[g] is None && k < nodes.len() {
                    Some(part_decls(part, compiled)[k])
                } else {
                    before[g]
                });
                assert forall|d: int, j: int| #[trigger]
                    is_first_to_reach(parts, g, d, j) implies known[g] == (if d < first.len() {
                    Some(part_decls(parts[d], compiled)[j])
                } else {
                    None
                }) by {
                    if d == last {
                        assert(j == k) by {
                            if k < j {
                                assert(placed_nodes(parts[d])[k] != g);
                            }
                            if j < k {
                                assert(nodes[j] != g);
                            }
                        }
                    } else if d > last && k < nodes.len() {
                        assert(placed_nodes(parts[last])[k] != g);
                    }
                }
                if is_reached_by_none(parts, g) && k < nodes.len() {
                    assert(placed_nodes(parts[last])[k] != g);
                }
            },
            None => {
                assert forall|d: int, j: int| #[trigger]
                    is_first_to_reach(parts, g, d, j) implies d != last by {}
            },
        }
    }
}

proof fn lemma_second_decls(
    net: Netlist,
    compiled: Seq<Module>,
    start: BuilderView,
    second: Seq<Option<Part>>,
)
    requires
        forall|i: int|
            0 <= i < second.len() ==> ((#[trigger] second[i]) matches Some(part) ==> placed_nodes(
                part,
            ).len() == 0),
    ensures
        after_second(net, compiled, start, second).node_decls == start.node_decls,
    decreases second.len(),
{
    if second.len() > 0 {
        let fewer = second.drop_last();
        assert forall|i: int| 0 <= i < fewer.len() implies ((#[trigger] fewer[i]) matches Some(part)
            ==> placed_nodes(part).len() == 0) by {
            assert(fewer[i] == second[i]);
        }
        lemma_second_decls(net, compiled, start, fewer);
        if let Some(part) = second.last() {
            assert(second[second.len() - 1] == Some(part));
            assert(part.model_nodes() == placed_nodes(part));
            let before = after_second(net, compiled, start, fewer).node_decls;
            assert forall|g: int| true implies #[trigger] node_at(part.model_nodes(), g) == 0 by {
                lemma_node_at(part.model_nodes(), g);
            }
            assert(declared(before, part.model_nodes(), part_decls(part, compiled)) =~= before);
        }
    }
}

/// A net is reported at its own place under its own name. Its access function and its unit
/// are those that the model of the first device declares which has a node there; a net
/// that no model reaches is reported as a voltage.
pub proof fn a_net_is_reported_as_its_first_model_declares(
    net: &Netlist,
    compiled: &Vec<Module>,
    claims: &Vec<usize>,
    built: Built,
    g: int,
)
    requires
        call_ensures(build_instances, (net, compiled, claims), Ok(built)),
        0 <= g < net.node_order@.len(),
    ensures
        g < built.quantities@.len(),
        is_reached_by_none(built.parts@, g) ==> is_potential_of(
            built.quantities@[g],
            None,
            None,
            net.node_order@[g]@,
            g as usize,
        ),
        forall|d: int, k: int| #[trigger]
            is_first_to_reach(built.parts@, g, d, k) ==> (built.parts@[d] matches Part::Compiled {
                module,
                ..
            } && is_potential_of(
                built.quantities@[g],
                compiled@[module as int].nodes@[k].access,
                compiled@[module as int].nodes@[k].units,
                net.node_order@[g]@,
                g as usize,
            )),
{
    let parts = built.parts@;
    let first = first_parts(*net, parts);
    let second = second_parts(*net, parts);
    let start = after_first(*net, compiled@, claims@, first);
    let end = built.end_state(*net, compiled@, claims@);
    assert(built.is_of(*net, compiled@, claims@));
    assert forall|i: int| 0 <= i < parts.len() && is_deferred(
        net.devices@[i].model@,
    ) implies placed_nodes(#[trigger] parts[i]).len() == 0 by {
        lemma_planned_second(*net, compiled@, start, second, i);
        let s = after_second(*net, compiled@, start, second.subrange(0, i));
        lemma_coupled_rows(net.devices@[i], net.devices@, s.currents, s.next, parts[i]);
    }
    lemma_first_decls(*net, compiled@, claims@, first, parts, g);
    lemma_second_decls(*net, compiled@, start, second);
    let all = views(built.quantities@);
    assert(all == reported(net.node_order@, end));
    assert(all.len() == built.quantities@.len());
    assert(all[g] == built.quantities@[g]@);
    assert(all[g] == potential_view(end.node_decls[g], net.node_order@[g]@, g as usize));
    assert(end.node_decls == start.node_decls);
}

proof fn lemma_internal_named(
    device: Seq<char>,
    nodes: Seq<usize>,
    decls: Seq<NodeDecl>,
    from: int,
    to: int,
    upto: int,
    n: int,
)
    requires
        0 <= n < upto <= nodes.len(),
        from <= nodes[n] < to,
    ensures
        internal_potentials(device, nodes, decls, from, to, upto).contains(
            potential_view(Some(decls[n]), device + "."@ + decls[n].name@, nodes[n]),
        ),
    decreases upto,
{
    let all = internal_potentials(device, nodes, decls, from, to, upto);
    let q = potential_view(Some(decls[n]), device + "."@ + decls[n].name@, nodes[n]);
    if n == upto - 1 {
        assert(all.last() == q);
    } else {
        lemma_internal_named(device, nodes, decls, from, to, upto - 1, n);
        let before = internal_potentials(device, nodes, decls, from, to, upto - 1);
        let k = choose|k: int| 0 <= k < before.len() && before[k] == q;
        assert(all[k] == q);
    }
}

proof fn lemma_internal_stays(
    net: Netlist,
    compiled: Seq<Module>,
    claims: Seq<usize>,
    first: Seq<Option<Part>>,
    i: int,
    q: QuantityView,
)
    requires
        0 <= i < first.len(),
        after_first(net, compiled, claims, first.subrange(0, i + 1)).internal.contains(q),
    ensures
        after_first(net, compiled, claims, first).internal.contains(q),
    decreases first.len(),
{
    if i == first.len() - 1 {
        assert(first.subrange(0, i + 1) =~= first);
    } else {
        assert(first.drop_last().subrange(0, i + 1) =~= first.subrange(0, i + 1));
        lemma_internal_stays(net, compiled, claims, first.drop_last(), i, q);
        let before = after_first(net, compiled, claims, first.drop_last()).internal;
        let all = after_first(net, compiled, claims, first).internal;
        let k = choose|k: int| 0 <= k < before.len() && before[k] == q;
        assert(all[k] == q);
    }
}

proof fn lemma_internal_stays_second(
    net: Netlist,
    compiled: Seq<Module>,
    start: BuilderView,
    second: Seq<Option<Part>>,
    q: QuantityView,
)
    requires
        start.internal.contains(q),
    ensures
        after_second(net, compiled, start, second).internal.contains(q),
    decreases second.len(),
{
    if second.len() > 0 {
        lemma_internal_stays_second(net, compiled, start, second.drop_last(), q);
        let before = after_second(net, compiled, start, second.drop_last()).internal;
        let all = after_second(net, compiled, start, second).internal;
        let k = choose|k: int| 0 <= k < before.len() && before[k] == q;
        assert(all[k] == q);
    }
}

/// A node of a placed model that has an unknown of its own is reported at that unknown,
/// as `device.node` inside the access function that it declares.
pub proof fn an_internal_node_is_named_after_its_device(
    net: &Netlist,
    compiled: &Vec<Module>,
    claims: &Vec<usize>,
    built: Built,
    i: int,
    n: int,
)
    requires
        buildable(*net, compiled@, claims@),
        call_ensures(build_instances, (net, compiled, claims), Ok(built)),
        0 <= i < net.devices@.len(),
        0 <= n < placed_nodes(built.parts@[i]).len(),
        built.parts@[i] matches Part::Compiled { module, .. } && crate::place_laws::is_claimed(
            compiled@[module as int],
            net.devices@[i].terminals@,
            n,
        ),
    ensures
        built.parts@[i] matches Part::Compiled { module, placement } && exists|k: int|
            {
                &&& 0 <= k < built.quantities@.len()
                &&& is_potential_of(
                    #[trigger] built.quantities@[k],
                    compiled@[module as int].nodes@[n].access,
                    compiled@[module as int].nodes@[n].units,
                    net.devices@[i].name@ + "."@ + compiled@[module as int].nodes@[n].name@,
                    placement.nodes@[n],
                )
            },
{
    let parts = built.parts@;
    let first = first_parts(*net, parts);
    let second = second_parts(*net, parts);
    let start = after_first(*net, compiled@, claims@, first);
    let end = built.end_state(*net, compiled@, claims@);
    let dev = net.devices@[i];
    assert(built.is_of(*net, compiled@, claims@));
    lemma_planned_first(*net, compiled@, claims@, first, i);
    lemma_planned_second(*net, compiled@, start, second, i);
    if is_deferred(dev.model@) {
        let s = after_second(*net, compiled@, start, second.subrange(0, i));
        lemma_coupled_rows(dev, net.devices@, s.currents, s.next, parts[i]);
    }
    let s = after_first(*net, compiled@, claims@, first.subrange(0, i));
    if let Part::Compiled { module, placement } = parts[i] {
        let m = compiled@[module as int];
        lemma_room(*net, compiled@, claims@, first, i);
        assert(is_plan(dev, compiled@, s.next, Ok(parts[i])));
        lemma_plan_compiled(dev, compiled@, s.next, parts[i]);
        crate::circuit::lemma_plan_fits(dev, compiled@, s.next, parts[i]);
        crate::place_laws::lemma_claimed_range(m, dev.terminals@, s.next, n);
        assert(placement.nodes@ == crate::place::claimed(
            crate::place::node_slots(m, dev.terminals@),
            s.next,
        ));
        let part = parts[i];
        let to = part.end_of_claim(s.next) + crate::circuit::extra_rows(part, claims@[i]);
        let nodes = part.model_nodes();
        let decls = part_decls(part, compiled@);
        let q = potential_view(Some(decls[n]), dev.name@ + "."@ + decls[n].name@, nodes[n]);
        lemma_internal_named(dev.name@, nodes, decls, s.next, to, nodes.len() as int, n);
        let own = internal_potentials(dev.name@, nodes, decls, s.next, to, nodes.len() as int);
        let upto = first.subrange(0, i + 1);
        assert(upto.drop_last() =~= first.subrange(0, i));
        assert(upto.last() == Some(part));
        let here = after_first(*net, compiled@, claims@, upto).internal;
        let j = choose|j: int| 0 <= j < own.len() && own[j] == q;
        assert(here[s.internal.len() + j] == q);
        lemma_internal_stays(*net, compiled@, claims@, first, i, q);
        lemma_internal_stays_second(*net, compiled@, start, second, q);
        let all = views(built.quantities@);
        let at = choose|at: int| 0 <= at < end.internal.len() && end.internal[at] == q;
        let place = net.node_order@.len() + end.currents.len() + at;
        assert(all[place] == q);
        assert(all.len() == built.quantities@.len());
        assert(built.quantities@[place]@ == q);
        assert(is_potential_of(
            built.quantities@[place],
            m.nodes@[n].access,
            m.nodes@[n].units,
            dev.name@ + "."@ + m.nodes@[n].name@,
            placement.nodes@[n],
        ));
    }
}

proof fn lemma_first_next(
    net: Netlist,
    compiled: Seq<Module>,
    claims: Seq<usize>,
    first: Seq<Option<Part>>,
)
    requires
        buildable(net, compiled, claims),
        planned_first(net, compiled, claims, first),
        first.len() <= net.devices@.len(),
    ensures
        0 <= after_first(net, compiled, claims, first).next <= net.node_order@.len() + most_rows(
            net,
            compiled,
            claims,
            false,
            first.len() as int,
        ),
    decreases first.len(),
{
    if first.len() > 0 {
        let fewer = first.drop_last();
        lemma_first_next(net, compiled, claims, fewer);
        let i = first.len() - 1;
        if let Some(part) = first.last() {
            let s = after_first(net, compiled, claims, fewer);
            lemma_claim_bound(net.devices@[i], compiled, s.next, part);
        }
    }
}

proof fn lemma_planned_prefix(
    net: Netlist,
    compiled: Seq<Module>,
    claims: Seq<usize>,
    first: Seq<Option<Part>>,
    i: int,
)
    requires
        planned_first(net, compiled, claims, first),
        0 <= i <= first.len(),
    ensures
        planned_first(net, compiled, claims, first.subrange(0, i)),
    decreases first.len(),
{
    if i == first.len() {
        assert(first.subrange(0, i) =~= first);
    } else {
        lemma_planned_prefix(net, compiled, claims, first.drop_last(), i);
        assert(first.drop_last().subrange(0, i) =~= first.subrange(0, i));
    }
}

proof fn lemma_room(
    net: Netlist,
    compiled: Seq<Module>,
    claims: Seq<usize>,
    first: Seq<Option<Part>>,
    i: int,
)
    requires
        buildable(net, compiled, claims),
        planned_first(net, compiled, claims, first),
        first.len() == net.devices@.len(),
        0 <= i < first.len(),
        !is_deferred(net.devices@[i].model@),
    ensures
        ({
            let s = after_first(net, compiled, claims, first.subrange(0, i));
            0 <= s.next && s.next + most_claimed(net.devices@[i], compiled) <= usize::MAX
        }),
{
    let n = net.devices@.len() as int;
    lemma_planned_prefix(net, compiled, claims, first, i);
    lemma_first_next(net, compiled, claims, first.subrange(0, i));
    lemma_most_rows_grows(net, compiled, claims, false, i + 1, n);
    lemma_most_rows_grows(net, compiled, claims, true, 0, n);
}

proof fn lemma_plan_compiled(dev: Device, compiled: Seq<Module>, next: int, part: Part)
    requires
        is_plan(dev, compiled, next, Ok(part)),
        part is Compiled,
    ensures
        part matches Part::Compiled { module, placement } && placement.is_of(
            compiled[module as int],
            dev.value,
            dev.params@,
            dev.terminals@,
            next,
        ) && module < compiled.len() && most_claimed(dev, compiled)
            == compiled[module as int].nodes@.len() + 1 && crate::place::can_place(
            compiled[module as int],
            dev.value,
            dev.params@,
            dev.terminals@.len() as int,
        ),
{
}

// ---- how many unknowns there are ------------------------------------------

/// How many of the first nodes of a model are given an unknown of their own.
pub open spec fn own_nodes(module: Module, terminals: Seq<usize>, upto: int) -> int
    decreases upto,
{
    if upto <= 0 {
        0
    } else {
        own_nodes(module, terminals, upto - 1) + if is_claimed(module, terminals, upto - 1) {
            1int
        } else {
            0int
        }
    }
}

/// The unknowns that belong to a part: its branch current, where it has one, and of a
/// compiled model the nodes with an unknown of their own and the auxiliary rows.
pub open spec fn own_unknowns(dev: Device, compiled: Seq<Module>, part: Part, claimed: usize) -> int {
    match part {
        Part::VoltageSource { .. } => 1,
        Part::WaveformSource { .. } => 1,
        Part::Vcvs { .. } => 1,
        Part::Inductor { .. } => 1,
        Part::Ccvs { .. } => 1,
        Part::Compiled { module, .. } => own_nodes(
            compiled[module as int],
            dev.terminals@,
            compiled[module as int].nodes@.len() as int,
        ) + claimed,
        _ => 0,
    }
}

/// The unknowns that belong to the first parts of a circuit.
pub open spec fn all_unknowns(
    net: Netlist,
    compiled: Seq<Module>,
    claims: Seq<usize>,
    parts: Seq<Part>,
    upto: int,
) -> int
    decreases upto,
{
    if upto <= 0 {
        0
    } else {
        all_unknowns(net, compiled, claims, parts, upto - 1) + own_unknowns(
            net.devices@[upto - 1],
            compiled,
            parts[upto - 1],
            claims[upto - 1],
        )
    }
}

/// The same over those parts that wait for others, or over those that do not.
spec fn some_unknowns(
    net: Netlist,
    compiled: Seq<Module>,
    claims: Seq<usize>,
    parts: Seq<Part>,
    waiting: bool,
    upto: int,
) -> int
    decreases upto,
{
    if upto <= 0 {
        0
    } else {
        some_unknowns(net, compiled, claims, parts, waiting, upto - 1) + if is_deferred(
            net.devices@[upto - 1].model@,
        ) == waiting {
            own_unknowns(net.devices@[upto - 1], compiled, parts[upto - 1], claims[upto - 1])
        } else {
            0
        }
    }
}

proof fn lemma_unknowns_split(
    net: Netlist,
    compiled: Seq<Module>,
    claims: Seq<usize>,
    parts: Seq<Part>,
    upto: int,
)
    ensures
        all_unknowns(net, compiled, claims, parts, upto) == some_unknowns(
            net,
            compiled,
            claims,
            parts,
            false,
            upto,
        ) + some_unknowns(net, compiled, claims, parts, true, upto),
    decreases upto,
{
    if upto > 0 {
        lemma_unknowns_split(net, compiled, claims, parts, upto - 1);
    }
}

proof fn lemma_own_nodes(module: Module, terminals: Seq<usize>, upto: int)
    requires
        module.well_formed(),
        terminals.len() <= crate::netlist::port_width(module.ports@, module.ports@.len() as int),
        0 <= upto <= module.nodes@.len(),
    ensures
        crate::place::open_before(crate::place::node_slots(module, terminals), upto) == own_nodes(
            module,
            terminals,
            upto,
        ),
    decreases upto,
{
    if upto > 0 {
        lemma_own_nodes(module, terminals, upto - 1);
        crate::place_laws::lemma_slot_is_open(module, terminals, upto - 1);
    }
}

proof fn lemma_first_unknowns(
    net: Netlist,
    compiled: Seq<Module>,
    claims: Seq<usize>,
    first: Seq<Option<Part>>,
    parts: Seq<Part>,
)
    requires
        buildable(net, compiled, claims),
        planned_first(net, compiled, claims, first),
        first.len() <= net.devices@.len(),
        forall|i: int|
            0 <= i < first.len() ==> ((#[trigger] first[i]) matches Some(part) ==> part == parts[i]),
    ensures
        after_first(net, compiled, claims, first).next == net.node_order@.len() + some_unknowns(
            net,
            compiled,
            claims,
            parts,
            false,
            first.len() as int,
        ),
    decreases first.len(),
{
    if first.len() > 0 {
        let fewer = first.drop_last();
        assert forall|i: int| 0 <= i < fewer.len() implies ((#[trigger] fewer[i]) matches Some(part)
            ==> part == parts[i]) by {
            assert(fewer[i] == first[i]);
        }
        lemma_first_unknowns(net, compiled, claims, fewer, parts);
        let i = first.len() - 1;
        let dev = net.devices@[i];
        if let Some(part) = first[i] {
            let s = after_first(net, compiled, claims, fewer);
            if let Part::Compiled { module, placement } = part {
                lemma_plan_compiled(dev, compiled, s.next, part);
                let m = compiled[module as int];
                assert(m.well_formed());
                lemma_own_nodes(m, dev.terminals@, m.nodes@.len() as int);
            } else {
                lemma_plan_stands(dev, compiled, s.next, part);
            }
        }
    }
}

proof fn lemma_second_unknowns(
    net: Netlist,
    compiled: Seq<Module>,
    claims: Seq<usize>,
    start: BuilderView,
    second: Seq<Option<Part>>,
    parts: Seq<Part>,
)
    requires
        planned_second(net, compiled, start, second),
        second.len() <= net.devices@.len(),
        forall|i: int|
            0 <= i < second.len() ==> ((#[trigger] second[i]) matches Some(part) ==> part
                == parts[i]),
    ensures
        after_second(net, compiled, start, second).next == start.next + some_unknowns(
            net,
            compiled,
            claims,
            parts,
            true,
            second.len() as int,
        ),
    decreases second.len(),
{
    if second.len() > 0 {
        let fewer = second.drop_last();
        assert forall|i: int| 0 <= i < fewer.len() implies ((#[trigger] fewer[i]) matches Some(part)
            ==> part == parts[i]) by {
            assert(fewer[i] == second[i]);
        }
        lemma_second_unknowns(net, compiled, claims, start, fewer, parts);
        let i = second.len() - 1;
        if let Some(part) = second[i] {
            let s = after_second(net, compiled, start, fewer);
            lemma_coupled_rows(net.devices@[i], net.devices@, s.currents, s.next, part);
        }
    }
}

/// A circuit has one unknown for each net, one for each branch current, one for each node
/// of a model that no terminal is wired to, and the auxiliary rows of its models.
pub proof fn a_circuit_has_the_unknowns_of_its_parts(
    net: &Netlist,
    compiled: &Vec<Module>,
    claims: &Vec<usize>,
    built: Built,
)
    requires
        buildable(*net, compiled@, claims@),
        call_ensures(build_instances, (net, compiled, claims), Ok(built)),
    ensures
        built.dim == net.node_order@.len() + all_unknowns(
            *net,
            compiled@,
            claims@,
            built.parts@,
            net.devices@.len() as int,
        ),
{
    let first = first_parts(*net, built.parts@);
    let second = second_parts(*net, built.parts@);
    let start = after_first(*net, compiled@, claims@, first);
    assert(built.is_of(*net, compiled@, claims@));
    lemma_first_unknowns(*net, compiled@, claims@, first, built.parts@);
    lemma_second_unknowns(*net, compiled@, claims@, start, second, built.parts@);
    lemma_unknowns_split(*net, compiled@, claims@, built.parts@, net.devices@.len() as int);
}

proof fn lemma_auxiliary(
    device: Seq<char>,
    nodes: Seq<usize>,
    branch: Option<usize>,
    from: int,
    mid: int,
    to: int,
)
    requires
        0 <= from <= mid,
        to <= usize::MAX,
        branch is None,
        forall|g: usize| from <= g < mid ==> #[trigger] nodes.contains(g),
        forall|g: usize| mid <= g < to ==> !#[trigger] nodes.contains(g),
    ensures
        ({
            let rows = auxiliary_rows(device, nodes, branch, from, to);
            &&& rows.len() == if to >= mid {
                to - mid
            } else {
                0
            }
            &&& forall|j: int|
                0 <= j < rows.len() ==> #[trigger] rows[j] == auxiliary_view(
                    device,
                    j as nat,
                    (mid + j) as usize,
                )
        }),
    decreases to - from,
{
    if to > from {
        lemma_auxiliary(device, nodes, branch, from, mid, to - 1);
        let g = (to - 1) as usize;
        assert(nodes.contains(g) <==> g < mid);
    }
}

/// Each auxiliary row that a model claims behind its nodes is reported without a unit, as
/// `device.b` and its number within the device.
pub proof fn an_auxiliary_row_is_numbered_within_its_device(
    net: &Netlist,
    compiled: &Vec<Module>,
    claims: &Vec<usize>,
    built: Built,
    i: int,
    j: int,
)
    requires
        buildable(*net, compiled@, claims@),
        net.well_wired(),
        call_ensures(build_instances, (net, compiled, claims), Ok(built)),
        0 <= i < net.devices@.len(),
        built.parts@[i] is Compiled,
        0 <= j < claims@[i],
    ensures
        built.parts@[i] matches Part::Compiled { placement, .. } && exists|k: int|
            {
                &&& 0 <= k < built.quantities@.len()
                &&& (#[trigger] built.quantities@[k]).index == placement.next_unknown + j
                &&& built.quantities@[k].name@ == net.devices@[i].name@ + ".b"@ + decimal(j as nat)
                &&& built.quantities@[k].label@ == built.quantities@[k].name@
                &&& built.quantities@[k].unit@.len() == 0
                &&& !built.quantities@[k].is_potential
            },
{
    let parts = built.parts@;
    let first = first_parts(*net, parts);
    let second = second_parts(*net, parts);
    let start = after_first(*net, compiled@, claims@, first);
    let end = built.end_state(*net, compiled@, claims@);
    let dev = net.devices@[i];
    assert(built.is_of(*net, compiled@, claims@));
    lemma_planned_first(*net, compiled@, claims@, first, i);
    lemma_planned_second(*net, compiled@, start, second, i);
    if is_deferred(dev.model@) {
        let s = after_second(*net, compiled@, start, second.subrange(0, i));
        lemma_coupled_rows(dev, net.devices@, s.currents, s.next, parts[i]);
    }
    let s = after_first(*net, compiled@, claims@, first.subrange(0, i));
    if let Part::Compiled { module, placement } = parts[i] {
        let part = parts[i];
        let m = compiled@[module as int];
        lemma_room(*net, compiled@, claims@, first, i);
        lemma_plan_compiled(dev, compiled@, s.next, part);
        crate::circuit::lemma_plan_fits(dev, compiled@, s.next, part);
        let to = part.end_of_claim(s.next) + crate::circuit::extra_rows(part, claims@[i]);
        let nodes = part.model_nodes();
        let decls = part_decls(part, compiled@);
        let mid = placement.next_unknown as int;
        let n = net.devices@.len() as int;
        let nets = net.node_order@.len() as int;
        lemma_planned_prefix(*net, compiled@, claims@, first, i + 1);
        lemma_first_next(*net, compiled@, claims@, first.subrange(0, i + 1));
        lemma_most_rows_grows(*net, compiled@, claims@, false, i + 1, n);
        lemma_most_rows_grows(*net, compiled@, claims@, true, 0, n);
        let upto = first.subrange(0, i + 1);
        assert(upto.drop_last() =~= first.subrange(0, i));
        assert(upto.last() == Some(part));
        lemma_first_unknowns(*net, compiled@, claims@, first.subrange(0, i), parts);
        lemma_some_unknowns_positive(*net, compiled@, claims@, parts, i);
        assert(nets <= s.next);
        crate::place_laws::lemma_claims_are_nodes(m, dev.terminals@, s.next, nets);
        lemma_claim_bound(dev, compiled@, s.next, part);
        lemma_auxiliary(dev.name@, nodes, part.own_branch(), s.next, mid, to);
        let rows = auxiliary_rows(dev.name@, nodes, part.own_branch(), s.next, to);
        let q = auxiliary_view(dev.name@, j as nat, (mid + j) as usize);
        assert(rows[j] == q);
        let here = after_first(*net, compiled@, claims@, upto).internal;
        let own = internal_potentials(dev.name@, nodes, decls, s.next, to, nodes.len() as int);
        assert(here == s.internal + own + rows);
        assert(here[s.internal.len() + own.len() + j] == q);
        lemma_internal_stays(*net, compiled@, claims@, first, i, q);
        lemma_internal_stays_second(*net, compiled@, start, second, q);
        let all = views(built.quantities@);
        let at = choose|at: int| 0 <= at < end.internal.len() && end.internal[at] == q;
        let place = nets + end.currents.len() + at;
        assert(all[place] == q);
        assert(all.len() == built.quantities@.len());
        assert(built.quantities@[place]@ == q);
        assert(built.quantities@[place].index == placement.next_unknown + j);
    }
}

proof fn lemma_some_unknowns_positive(
    net: Netlist,
    compiled: Seq<Module>,
    claims: Seq<usize>,
    parts: Seq<Part>,
    upto: int,
)
    ensures
        some_unknowns(net, compiled, claims, parts, false, upto) >= 0,
    decreases upto,
{
    if upto > 0 {
        lemma_some_unknowns_positive(net, compiled, claims, parts, upto - 1);
        if let Part::Compiled { module, .. } = parts[upto - 1] {
            lemma_own_nodes_positive(
                compiled[module as int],
                net.devices@[upto - 1].terminals@,
                compiled[module as int].nodes@.len() as int,
            );
        }
    }
}

proof fn lemma_own_nodes_positive(module: Module, terminals: Seq<usize>, upto: int)
    ensures
        own_nodes(module, terminals, upto) >= 0,
    decreases upto,
{
    if upto > 0 {
        lemma_own_nodes_positive(module, terminals, upto - 1);
    }
}

// ---- one circuit ----------------------------------------------------------

/// Asking for the branch currents or for the quantities of a deck gives those of its
/// circuit.
pub proof fn the_parts_of_an_answer_agree(
    net: &Netlist,
    compiled: &Vec<Module>,
    claims: &Vec<usize>,
    built: Built,
    currents: Vec<(String, usize)>,
    quantities: Vec<Quantity>,
)
    requires
        call_ensures(build_instances, (net, compiled, claims), Ok(built)),
        call_ensures(branch_currents, (net, compiled, claims), Ok(currents)),
        call_ensures(crate::circuit::quantities, (net, compiled, claims), Ok(quantities)),
    ensures
        currents@ == built.currents@,
        quantities@.len() == built.quantities@.len(),
        forall|k: int|
            0 <= k < quantities@.len() ==> (#[trigger] quantities@[k])@ == built.quantities@[k]@,
{
    let a = choose|a: Built| #[trigger]
        a.is_of(*net, compiled@, claims@) && currents@ == a.currents@;
    let b = choose|b: Built| #[trigger]
        b.is_of(*net, compiled@, claims@) && quantities@ == b.quantities@;
    crate::circuit_laws::a_deck_has_one_circuit(*net, compiled@, claims@, a, built);
    crate::circuit_laws::a_deck_has_one_circuit(*net, compiled@, claims@, b, built);
    let (x, y) = (views(quantities@), views(built.quantities@));
    assert(x.len() == quantities@.len() && y.len() == built.quantities@.len());
    assert forall|k: int| 0 <= k < quantities@.len() implies (#[trigger] quantities@[k])@
        == built.quantities@[k]@ by {
        assert(x[k] == quantities@[k]@ && y[k] == built.quantities@[k]@);
    }
}

/// What is wrong with a deck is wrong with one of its lines: a resistor or a capacitor
/// without a value, a source or an inductor with too few terminals, a model of no known
/// name, or a coupling to what is not there.
pub proof fn an_error_is_about_a_line(
    net: &Netlist,
    compiled: &Vec<Module>,
    claims: &Vec<usize>,
    e: BuildError,
) -> (i: int)
    requires
        call_ensures(build_instances, (net, compiled, claims), Err(e)),
    ensures
        0 <= i < net.devices@.len(),
        ({
            let dev = net.devices@[i];
            match e {
                BuildError::NeedsValue { device } => device == dev.name && dev.value is None && (
                dev.model@ == "resistor"@ || dev.model@ == "capacitor"@),
                BuildError::TooFewTerminals { device, terminals, model } => device == dev.name
                    && terminals == dev.terminals@.len() && model == dev.model && terminals < 2 && (
                dev.model@ == "vsource"@ || dev.model@ == "inductor"@),
                BuildError::TransistorTerminals { device, terminals } => device == dev.name
                    && terminals == dev.terminals@.len() && terminals != 3 && dev.model@ == "bjt"@,
                BuildError::UnknownModel { device, model } => device == dev.name && model
                    == dev.model,
                BuildError::CouplingArity { device } => device == dev.name && dev.model@
                    == "mutual"@ && dev.controls@.len() != 2,
                BuildError::NotAnInductor { device, element } => device == dev.name && dev.model@
                    == "mutual"@ && dev.controls@.contains(element) && !is_inductor(
                    net.devices@,
                    element@,
                ),
                BuildError::SelfCoupling { device, element } => device == dev.name && dev.model@
                    == "mutual"@ && dev.controls@.contains(element),
                BuildError::NoControl { device } => device == dev.name && dev.controls@.len() == 0,
                BuildError::ControlWithoutCurrent { device, element } => device == dev.name
                    && dev.controls@.len() > 0 && element == dev.controls@[0],
                BuildError::NoBranchRow { element } => dev.controls@.contains(element),
                _ => true,
            }
        }),
{
    lemma_coupling_names();
    if exists|first: Seq<Option<Part>>| #[trigger]
        is_first_error(*net, compiled@, claims@, first, e) {
        let first = choose|first: Seq<Option<Part>>| #[trigger]
            is_first_error(*net, compiled@, claims@, first, e);
        let i = first.len() as int;
        let dev = net.devices@[i];
        assert(dev.terminals.len() == dev.terminals@.len());
        let k = crate::device::model_index(compiled@, dev.model@);
        if is_placement_error(compiled@[k], dev.value, dev.params@, dev.terminals@.len() as int, e) {
            crate::place_laws::lemma_placement_error(
                compiled@[k],
                dev.value,
                dev.params@,
                dev.terminals@.len() as int,
                e,
            );
        }
        i
    } else {
        let (first, second) = choose|first: Seq<Option<Part>>, second: Seq<Option<Part>>| #[trigger]
            is_second_error(*net, compiled@, claims@, first, second, e);
        let i = second.len() as int;
        let dev = net.devices@[i];
        let names = dev.controls@;
        if names.len() > 0 {
            lemma_is_inductor(net.devices@, names[0]@);
            assert(names.contains(names[0]));
        }
        if names.len() == 2 {
            lemma_is_inductor(net.devices@, names[1]@);
            assert(names.contains(names[1]));
        }
        i
    }
}

/// A circuit that is built step by step is the one that is built at once: it has the same
/// unknowns, branch currents and quantities, and its parts stand between the nets that
/// their lines name.
pub proof fn building_step_by_step_gives_the_same_circuit(
    assembly: Assembly,
    net: &Netlist,
    compiled: &Vec<Module>,
    claims: &Vec<usize>,
    stepwise: Built,
    at_once: Built,
    i: int,
)
    requires
        call_ensures(Assembly::finish, (assembly, net, compiled), stepwise),
        call_ensures(build_instances, (net, compiled, claims), Ok(at_once)),
        assembly.claims@ == claims@,
        0 <= i < net.devices@.len(),
    ensures
        stepwise.dim == at_once.dim,
        stepwise.currents@ == at_once.currents@,
        stepwise.quantities@.len() == at_once.quantities@.len(),
        forall|k: int|
            0 <= k < stepwise.quantities@.len() ==> (#[trigger] stepwise.quantities@[k])@
                == at_once.quantities@[k]@,
        stepwise.parts@.len() == net.devices@.len(),
        stands_between(net.devices@[i], stepwise.parts@[i]),
        assembly.parts@.len() == stepwise.parts@.len(),
        assembly.parts@[i] == Some(stepwise.parts@[i]),
{
    crate::circuit_laws::a_deck_has_one_circuit(*net, compiled@, claims@, stepwise, at_once);
    lemma_parts_follow(net, compiled, claims, stepwise, i);
    let (x, y) = (views(stepwise.quantities@), views(at_once.quantities@));
    assert(x.len() == stepwise.quantities@.len() && y.len() == at_once.quantities@.len());
    assert forall|k: int| 0 <= k < stepwise.quantities@.len() implies (
    #[trigger] stepwise.quantities@[k])@ == at_once.quantities@[k]@ by {
        assert(x[k] == stepwise.quantities@[k]@ && y[k] == at_once.quantities@[k]@);
    }
    let listed = stepwise.parts@.map_values(|part: Part| Some(part));
    assert(listed.len() == stepwise.parts@.len());
    assert(listed[i] == Some(stepwise.parts@[i]));
}

} // verus!
