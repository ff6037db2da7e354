//! What holds of every circuit that is built.
use crate::circuit::{
    after_first, after_second, auxiliary_rows, buildable, extra_rows, first_parts,
    internal_potentials, is_build_error, is_first_error, is_second_error, lemma_most_rows_grows,
    most_rows, nothing_built, part_decls,
    planned_first, planned_second, recorded, reported, second_parts, Built, BuilderView,
};
use crate::device::{is_plan, lemma_claim_bound, model_index, Part};
use crate::netlist::{port_nodes, Device, Module, Netlist, NodeDecl, GROUND};
use crate::number::Real;
use crate::place::{claimed, node_slots, open_before, wired, BuildError};
use crate::quantity::{views, QuantityView};
use crate::text::texts;
use vstd::prelude::*;

verus! {

/// The places in the solution vector that the quantities stand for.
pub open spec fn rows_of(quantities: Seq<QuantityView>) -> Seq<usize> {
    quantities.map_values(|q: QuantityView| q.index)
}

/// The places in the solution vector that the branch currents stand for.
pub open spec fn current_rows(currents: Seq<(String, usize)>) -> Seq<usize> {
    currents.map_values(|c: (String, usize)| c.1)
}

/// Every unknown claimed so far stands for one branch current or one internal
/// quantity, and for one only.
pub open spec fn rows_named_once(s: BuilderView, nets: int) -> bool {
    let currents = current_rows(s.currents);
    let internal = rows_of(s.internal);
    &&& nets <= s.next <= usize::MAX
    &&& s.node_decls.len() == nets
    &&& currents.no_duplicates()
    &&& internal.no_duplicates()
    &&& forall|r: usize|
        #![trigger currents.contains(r)]
        #![trigger internal.contains(r)]
        !(currents.contains(r) && internal.contains(r))
    &&& forall|r: usize|
        #![trigger currents.contains(r)]
        #![trigger internal.contains(r)]
        (currents.contains(r) || internal.contains(r)) <==> nets <= r < s.next
}

/// No two nodes share an unknown in `[from, to)`.
pub open spec fn distinct_within(nodes: Seq<usize>, from: int, to: int) -> bool {
    forall|i: int, j: int|
        0 <= i < j < nodes.len() && nodes[i] == nodes[j] ==> !(from <= nodes[i] < to)
}

proof fn lemma_potential_rows(
    device: Seq<char>,
    nodes: Seq<usize>,
    decls: Seq<NodeDecl>,
    from: int,
    to: int,
    upto: int,
)
    requires
        0 <= upto <= nodes.len(),
        distinct_within(nodes, from, to),
    ensures
        ({
            let rows = rows_of(internal_potentials(device, nodes, decls, from, to, upto));
            &&& rows.no_duplicates()
            &&& forall|r: usize| #[trigger]
                rows.contains(r) <==> from <= r < to && nodes.subrange(0, upto).contains(r)
        }),
    decreases upto,
{
    let qs = internal_potentials(device, nodes, decls, from, to, upto);
    let rows = rows_of(qs);
    if upto > 0 {
        lemma_potential_rows(device, nodes, decls, from, to, upto - 1);
        let before = internal_potentials(device, nodes, decls, from, to, upto - 1);
        let old_rows = rows_of(before);
        let g = nodes[upto - 1];
        let now = nodes.subrange(0, upto);
        let then = nodes.subrange(0, upto - 1);
        assert(now =~= then.push(g));
        if from <= g < to {
            assert(rows =~= old_rows.push(g));
            if old_rows.contains(g) {
                assert(then.contains(g));
                let j = choose|j: int| 0 <= j < then.len() && then[j] == g;
                assert(nodes[j] == nodes[upto - 1]);
            }
            lemma_push_contains(old_rows, g);
        }
        lemma_push_contains(then, g);
    }
}

proof fn lemma_push_contains(s: Seq<usize>, g: usize)
    ensures
        forall|r: usize| #[trigger] s.push(g).contains(r) <==> s.contains(r) || r == g,
        s.no_duplicates() && !s.contains(g) ==> s.push(g).no_duplicates(),
{
    let t = s.push(g);
    assert forall|r: usize| #[trigger] t.contains(r) <==> s.contains(r) || r == g by {
        if s.contains(r) {
            let j = choose|j: int| 0 <= j < s.len() && s[j] == r;
            assert(t[j] == r);
        }
        assert(t[s.len() as int] == g);
        if t.contains(r) && r != g {
            let j = choose|j: int| 0 <= j < t.len() && t[j] == r;
            assert(s[j] == r);
        }
    }
}

proof fn lemma_concat_contains(a: Seq<usize>, b: Seq<usize>)
    ensures
        forall|r: usize| #[trigger] (a + b).contains(r) <==> a.contains(r) || b.contains(r),
        a.no_duplicates() && b.no_duplicates() && (forall|r: usize|
            !(#[trigger] a.contains(r) && b.contains(r))) ==> (a + b).no_duplicates(),
{
    let t = a + b;
    assert forall|r: usize| #[trigger] t.contains(r) <==> a.contains(r) || b.contains(r) by {
        if a.contains(r) {
            let j = choose|j: int| 0 <= j < a.len() && a[j] == r;
            assert(t[j] == r);
        }
        if b.contains(r) {
            let j = choose|j: int| 0 <= j < b.len() && b[j] == r;
            assert(t[a.len() + j] == r);
        }
        if t.contains(r) {
            let j = choose|j: int| 0 <= j < t.len() && t[j] == r;
            if j < a.len() {
                assert(a[j] == r);
            } else {
                assert(b[j - a.len()] == r);
            }
        }
    }
    if a.no_duplicates() && b.no_duplicates() && (forall|r: usize|
        !(#[trigger] a.contains(r) && b.contains(r))) {
        assert forall|i: int, j: int| 0 <= i < t.len() && 0 <= j < t.len() && i != j implies t[i]
            != t[j] by {
            if i < a.len() && j >= a.len() {
                assert(a.contains(a[i]));
                assert(b.contains(b[j - a.len()]));
            }
            if j < a.len() && i >= a.len() {
                assert(a.contains(a[j]));
                assert(b.contains(b[i - a.len()]));
            }
        }
    }
}

proof fn lemma_auxiliary_rows(
    device: Seq<char>,
    nodes: Seq<usize>,
    branch: Option<usize>,
    from: int,
    to: int,
)
    requires
        0 <= from <= to <= usize::MAX,
    ensures
        ({
            let rows = rows_of(auxiliary_rows(device, nodes, branch, from, to));
            &&& rows.no_duplicates()
            &&& forall|r: usize| #[trigger]
                rows.contains(r) <==> from <= r < to && !nodes.contains(r) && branch != Some(r)
        }),
    decreases to - from,
{
    let qs = auxiliary_rows(device, nodes, branch, from, to);
    if from < to {
        lemma_auxiliary_rows(device, nodes, branch, from, to - 1);
        let before = auxiliary_rows(device, nodes, branch, from, to - 1);
        let g = (to - 1) as usize;
        if !(nodes.contains(g) || branch == Some(g)) {
            assert(rows_of(qs) =~= rows_of(before).push(g));
            lemma_push_contains(rows_of(before), g);
        }
    }
}

/// One more device keeps every unknown named once.
proof fn lemma_record_names_rows(
    s: BuilderView,
    dev: Device,
    compiled: Seq<Module>,
    part: Part,
    end: int,
    nets: int,
)
    requires
        rows_named_once(s, nets),
        0 <= nets,
        s.next <= end <= usize::MAX,
        distinct_within(part.model_nodes(), s.next, end),
        part.own_branch() matches Some(b) ==> s.next <= b < end && !part.model_nodes().contains(b),
    ensures
        rows_named_once(recorded(s, dev, compiled, part, end), nets),
{
    let nodes = part.model_nodes();
    let decls = part_decls(part, compiled);
    let t = recorded(s, dev, compiled, part, end);
    let named = internal_potentials(dev.name@, nodes, decls, s.next, end, nodes.len() as int);
    let extra = auxiliary_rows(dev.name@, nodes, part.own_branch(), s.next, end);
    lemma_potential_rows(dev.name@, nodes, decls, s.next, end, nodes.len() as int);
    lemma_auxiliary_rows(dev.name@, nodes, part.own_branch(), s.next, end);
    assert(nodes.subrange(0, nodes.len() as int) =~= nodes);
    let a = rows_of(s.internal);
    let b = rows_of(named);
    let c = rows_of(extra);
    assert(rows_of(t.internal) =~= a + b + c);
    lemma_concat_contains(a, b);
    lemma_concat_contains(a + b, c);
    let old_currents = current_rows(s.currents);
    let new_currents = current_rows(t.currents);
    match part.own_branch() {
        Some(branch) => {
            assert(new_currents =~= old_currents.push(branch));
            lemma_push_contains(old_currents, branch);
        },
        None => {
            assert(new_currents =~= old_currents);
        },
    }
    assert forall|r: usize| #[trigger] a.contains(r) implies !b.contains(r) by {}
    assert((a + b).no_duplicates());
    assert forall|r: usize| #[trigger] (a + b).contains(r) implies !c.contains(r) by {}
    assert(rows_of(t.internal).no_duplicates());
    assert forall|r: usize|
        #![trigger new_currents.contains(r)]
        #![trigger rows_of(t.internal).contains(r)]
        (new_currents.contains(r) || rows_of(t.internal).contains(r)) <==> nets <= r < t.next by {
        assert(old_currents.contains(r) || a.contains(r) <==> nets <= r < s.next);
    }
}

/// Whatever a slot holds that is not open comes from a terminal.
proof fn lemma_wired_from_terminals(
    flat: Seq<usize>,
    terminals: Seq<usize>,
    count: nat,
    upto: int,
    j: int,
)
    requires
        0 <= upto <= terminals.len(),
        upto <= flat.len(),
        0 <= j < count,
        forall|k: int| 0 <= k < flat.len() ==> #[trigger] flat[k] < count,
        wired(flat, terminals, count, upto)[j] is Some,
    ensures
        exists|k: int|
            0 <= k < upto && wired(flat, terminals, count, upto)[j] == Some(#[trigger] terminals[k]),
    decreases upto,
{
    if upto > 0 {
        crate::place::lemma_wired_len(flat, terminals, count, upto - 1);
        if flat[upto - 1] == j {
            assert(wired(flat, terminals, count, upto)[j] == Some(terminals[upto - 1]));
        } else {
            lemma_wired_from_terminals(flat, terminals, count, upto - 1, j);
        }
    }
}

/// A placed model gives every node a net of the deck, the ground, or an unknown of
/// its own that no other node has.
pub proof fn placed_nodes_are_distinct(
    module: Module,
    terminals: Seq<usize>,
    nets: int,
    next: int,
)
    requires
        module.well_formed(),
        terminals.len() <= crate::netlist::port_width(module.ports@, module.ports@.len() as int),
        forall|t: int|
            0 <= t < terminals.len() ==> #[trigger] terminals[t] < nets || terminals[t] == GROUND,
        0 <= nets <= next,
        next + module.nodes@.len() <= usize::MAX,
    ensures
        ({
            let slots = node_slots(module, terminals);
            let nodes = claimed(slots, next);
            let end = next + open_before(slots, module.nodes@.len() as int);
            &&& nodes.len() == module.nodes@.len()
            &&& forall|i: int|
                0 <= i < nodes.len() ==> #[trigger] nodes[i] < nets || nodes[i] == GROUND || next
                    <= nodes[i] < end
            &&& forall|i: int, j: int|
                0 <= i < j < nodes.len() && nodes[i] == nodes[j] ==> nodes[i] < nets || nodes[i]
                    == GROUND
        }),
{
    let slots = node_slots(module, terminals);
    let nodes = claimed(slots, next);
    let count = module.nodes@.len();
    let flat = port_nodes(module.ports@);
    crate::place::lemma_slots_len(module, terminals);
    crate::netlist::lemma_port_nodes_len(module.ports@);
    crate::place::lemma_port_nodes_in_range(module.ports@, count);
    crate::place::lemma_wired_len(flat, terminals, count, terminals.len() as int);
    let plain = wired(flat, terminals, count, terminals.len() as int);
    assert forall|i: int| 0 <= i < nodes.len() && slots[i] is Some implies #[trigger] nodes[i]
        < nets || nodes[i] == GROUND by {
        if plain[i] is Some {
            lemma_wired_from_terminals(flat, terminals, count, terminals.len() as int, i);
        }
    }
    assert forall|i: int| 0 <= i < nodes.len() && slots[i] is None implies next
        <= #[trigger] nodes[i] < next + open_before(slots, count as int) by {
        crate::place::lemma_open_before_bounds(slots, i + 1, count as int);
        crate::place::lemma_open_before_bounds(slots, 0, i);
        crate::place::lemma_open_before_bounds(slots, 0, count as int);
    }
    assert forall|i: int, j: int|
        0 <= i < j < nodes.len() && nodes[i] == nodes[j] implies nodes[i] < nets || nodes[i]
        == GROUND by {
        crate::place::lemma_open_before_bounds(slots, 0, count as int);
        if slots[i] is None && slots[j] is None {
            crate::place::lemma_open_before_bounds(slots, i + 1, j);
            crate::place::lemma_open_before_bounds(slots, j, count as int);
            crate::place::lemma_open_before_bounds(slots, 0, i);
        }
    }
}

/// The terminals of a line connect to nets of the deck or to ground.
pub open spec fn line_wired(dev: Device, nets: int) -> bool {
    forall|t: int|
        0 <= t < dev.terminals@.len() ==> #[trigger] dev.terminals@[t] < nets
            || dev.terminals@[t] == GROUND
}

proof fn lemma_plan_names_rows(
    s: BuilderView,
    dev: Device,
    compiled: Seq<Module>,
    part: Part,
    extra: int,
    nets: int,
)
    requires
        rows_named_once(s, nets),
        0 <= nets,
        line_wired(dev, nets),
        forall|i: int| 0 <= i < compiled.len() ==> #[trigger] compiled[i].well_formed(),
        is_plan(dev, compiled, s.next, Ok(part)),
        0 <= extra,
        part.end_of_claim(s.next) + extra <= usize::MAX,
        s.next + crate::device::most_claimed(dev, compiled) <= usize::MAX,
    ensures
        rows_named_once(
            recorded(s, dev, compiled, part, part.end_of_claim(s.next) + extra),
            nets,
        ),
{
    let end = part.end_of_claim(s.next) + extra;
    lemma_claim_bound(dev, compiled, s.next, part);
    match part {
        Part::Compiled { module, placement } => {
            let k = model_index(compiled, dev.model@);
            crate::search::lemma_first_where_holds(compiled, |m: Module| m.name@ == dev.model@);
            placed_nodes_are_distinct(compiled[k], dev.terminals@, nets, s.next);
        },
        _ => {},
    }
    lemma_record_names_rows(s, dev, compiled, part, end, nets);
}

proof fn lemma_first_names_rows(
    net: Netlist,
    compiled: Seq<Module>,
    claims: Seq<usize>,
    first: Seq<Option<Part>>,
)
    requires
        buildable(net, compiled, claims),
        net.well_wired(),
        planned_first(net, compiled, claims, first),
        first.len() <= net.devices@.len(),
    ensures
        rows_named_once(
            after_first(net, compiled, claims, first),
            net.node_order@.len() as int,
        ),
        after_first(net, compiled, claims, first).next <= net.node_order@.len() + most_rows(
            net,
            compiled,
            claims,
            false,
            first.len() as int,
        ),
    decreases first.len(),
{
    let nets = net.node_order@.len() as int;
    let n = net.devices@.len() as int;
    lemma_most_rows_grows(net, compiled, claims, false, 0, n);
    lemma_most_rows_grows(net, compiled, claims, true, 0, n);
    if first.len() == 0 {
        assert(rows_of(nothing_built(nets as nat).internal) =~= Seq::empty());
        assert(current_rows(nothing_built(nets as nat).currents) =~= Seq::empty());
    } else {
        let before = first.drop_last();
        let i = first.len() - 1;
        lemma_first_names_rows(net, compiled, claims, before);
        lemma_most_rows_grows(net, compiled, claims, false, i + 1, n);
        match first.last() {
            None => {},
            Some(part) => {
                let s = after_first(net, compiled, claims, before);
                let dev = net.devices@[i];
                assert(line_wired(dev, nets)) by {
                    assert forall|t: int| 0 <= t < dev.terminals@.len() implies #[trigger]
                        dev.terminals@[t] < nets || dev.terminals@[t] == GROUND by {
                        assert(net.devices@[i].terminals@[t] < nets
                            || net.devices@[i].terminals@[t] == GROUND);
                    }
                }
                lemma_claim_bound(dev, compiled, s.next, part);
                lemma_plan_names_rows(
                    s,
                    dev,
                    compiled,
                    part,
                    extra_rows(part, claims[i]),
                    nets,
                );
            },
        }
    }
}

proof fn lemma_second_names_rows(
    net: Netlist,
    compiled: Seq<Module>,
    claims: Seq<usize>,
    start: BuilderView,
    second: Seq<Option<Part>>,
)
    requires
        buildable(net, compiled, claims),
        planned_second(net, compiled, start, second),
        second.len() <= net.devices@.len(),
        rows_named_once(start, net.node_order@.len() as int),
        start.next <= net.node_order@.len() + most_rows(
            net,
            compiled,
            claims,
            false,
            net.devices@.len() as int,
        ),
    ensures
        rows_named_once(
            after_second(net, compiled, start, second),
            net.node_order@.len() as int,
        ),
        after_second(net, compiled, start, second).next <= start.next + most_rows(
            net,
            compiled,
            claims,
            true,
            second.len() as int,
        ),
    decreases second.len(),
{
    let nets = net.node_order@.len() as int;
    let n = net.devices@.len() as int;
    if second.len() > 0 {
        let before = second.drop_last();
        let i = second.len() - 1;
        lemma_second_names_rows(net, compiled, claims, start, before);
        lemma_most_rows_grows(net, compiled, claims, true, i + 1, n);
        match second.last() {
            None => {},
            Some(part) => {
                let s = after_second(net, compiled, start, before);
                lemma_record_names_rows(
                    s,
                    net.devices@[i],
                    compiled,
                    part,
                    part.end_of_claim(s.next),
                    nets,
                );
            },
        }
    }
}

/// Every entry of the solution vector is reported by one quantity, and no quantity
/// stands for anything else.
pub proof fn every_unknown_is_named_once(
    net: Netlist,
    compiled: Seq<Module>,
    claims: Seq<usize>,
    built: Built,
)
    requires
        buildable(net, compiled, claims),
        net.well_wired(),
        built.is_of(net, compiled, claims),
    ensures
        rows_of(views(built.quantities@)).no_duplicates(),
        forall|r: usize| #[trigger]
            rows_of(views(built.quantities@)).contains(r) <==> r < built.dim,
        built.quantities@.len() == built.dim,
{
    let first = first_parts(net, built.parts@);
    let second = second_parts(net, built.parts@);
    let start = after_first(net, compiled, claims, first);
    let end = after_second(net, compiled, start, second);
    let nets = net.node_order@.len() as int;
    lemma_first_names_rows(net, compiled, claims, first);
    lemma_second_names_rows(net, compiled, claims, start, second);
    let rows = rows_of(views(built.quantities@));
    let a = Seq::new(nets as nat, |i: int| i as usize);
    let b = current_rows(end.currents);
    let c = rows_of(end.internal);
    assert(rows =~= a + b + c) by {
        let all = reported(net.node_order@, end);
        assert(rows.len() == all.len());
        assert forall|i: int| 0 <= i < rows.len() implies rows[i] == (a + b + c)[i] by {
            assert(rows[i] == all[i].index);
        }
    }
    assert forall|r: usize| #[trigger] a.contains(r) <==> r < nets by {
        if r < nets {
            assert(a[r as int] == r);
        }
    }
    assert(a.no_duplicates());
    lemma_concat_contains(a, b);
    lemma_concat_contains(a + b, c);
    assert forall|r: usize| !(#[trigger] a.contains(r) && b.contains(r)) by {}
    assert forall|r: usize| !(#[trigger] (a + b).contains(r) && c.contains(r)) by {}
    let all = Seq::new(built.dim as nat, |i: int| i as usize);
    assert forall|r: usize| all.to_set().contains(r) == rows.to_set().contains(r) by {
        if r < built.dim {
            assert(all[r as int] == r);
        }
    }
    assert(all.to_set() =~= rows.to_set());
    assert(all.no_duplicates());
    all.unique_seq_to_set();
    rows.unique_seq_to_set();
}

/// The nets of the deck keep their own places and names.
pub proof fn nets_come_first(
    net: Netlist,
    compiled: Seq<Module>,
    claims: Seq<usize>,
    built: Built,
)
    requires
        built.is_of(net, compiled, claims),
    ensures
        built.quantities@.len() >= net.node_order@.len(),
        forall|i: int|
            0 <= i < net.node_order@.len() ==> (#[trigger] built.quantities@[i])@.index == i
                && built.quantities@[i]@.name == net.node_order@[i]@
                && built.quantities@[i]@.is_potential,
{
    let all = reported(net.node_order@, built.end_state(net, compiled, claims));
    assert(views(built.quantities@).len() == all.len());
    assert(net.node_order.len() == net.node_order@.len());
    assert forall|i: int| 0 <= i < net.node_order@.len() implies (#[trigger] built.quantities@[i])@
        == all[i] by {
        assert(views(built.quantities@)[i] == all[i]);
    }
}

/// The branch current of each part is listed under the name of its device.
pub open spec fn branches_listed(
    net: Netlist,
    parts: Seq<Option<Part>>,
    currents: Seq<(String, usize)>,
) -> bool {
    forall|i: int|
        0 <= i < parts.len() ==> ((#[trigger] parts[i]) matches Some(part)
            ==> (part.own_branch() matches Some(b) ==> currents.contains(
            (net.devices@[i].name, b),
        )))
}

proof fn lemma_listed_stays(
    net: Netlist,
    parts: Seq<Option<Part>>,
    currents: Seq<(String, usize)>,
    more: (String, usize),
)
    requires
        branches_listed(net, parts, currents),
    ensures
        branches_listed(net, parts, currents.push(more)),
        currents.push(more).contains(more),
{
    let now = currents.push(more);
    assert(now[currents.len() as int] == more);
    assert forall|i: int| 0 <= i < parts.len() implies ((#[trigger] parts[i]) matches Some(part)
        ==> (part.own_branch() matches Some(b) ==> now.contains(
        (net.devices@[i].name, b),
    ))) by {
        if let Some(part) = parts[i] {
            if let Some(b) = part.own_branch() {
                let k = choose|k: int|
                    0 <= k < currents.len() && currents[k] == (net.devices@[i].name, b);
                assert(now[k] == (net.devices@[i].name, b));
            }
        }
    }
}

proof fn lemma_record_lists(
    net: Netlist,
    compiled: Seq<Module>,
    s: BuilderView,
    before: Seq<Option<Part>>,
    part: Part,
    end: int,
)
    requires
        branches_listed(net, before, s.currents),
    ensures
        branches_listed(
            net,
            before.push(Some(part)),
            recorded(s, net.devices@[before.len() as int], compiled, part, end).currents,
        ),
{
    if let Some(b) = part.own_branch() {
        lemma_listed_stays(
            net,
            before,
            s.currents,
            (net.devices@[before.len() as int].name, b),
        );
    }
}

proof fn lemma_first_lists(
    net: Netlist,
    compiled: Seq<Module>,
    claims: Seq<usize>,
    first: Seq<Option<Part>>,
)
    ensures
        branches_listed(net, first, after_first(net, compiled, claims, first).currents),
    decreases first.len(),
{
    if first.len() > 0 {
        let before = first.drop_last();
        lemma_first_lists(net, compiled, claims, before);
        let s = after_first(net, compiled, claims, before);
        assert(first =~= before.push(first.last()));
        if let Some(part) = first.last() {
            let i = first.len() - 1;
            lemma_record_lists(
                net,
                compiled,
                s,
                before,
                part,
                part.end_of_claim(s.next) + extra_rows(part, claims[i]),
            );
        }
    }
}

proof fn lemma_second_lists(
    net: Netlist,
    compiled: Seq<Module>,
    start: BuilderView,
    first: Seq<Option<Part>>,
    second: Seq<Option<Part>>,
)
    requires
        branches_listed(net, first, start.currents),
    ensures
        branches_listed(net, first, after_second(net, compiled, start, second).currents),
        branches_listed(net, second, after_second(net, compiled, start, second).currents),
    decreases second.len(),
{
    if second.len() > 0 {
        let before = second.drop_last();
        lemma_second_lists(net, compiled, start, first, before);
        let s = after_second(net, compiled, start, before);
        assert(second =~= before.push(second.last()));
        if let Some(part) = second.last() {
            lemma_record_lists(net, compiled, s, before, part, part.end_of_claim(s.next));
            if let Some(b) = part.own_branch() {
                lemma_listed_stays(
                    net,
                    first,
                    s.currents,
                    (net.devices@[before.len() as int].name, b),
                );
            }
        }
    }
}

/// Every part with a branch current of its own has it listed under the name of its
/// device, whatever the order of the deck.
pub proof fn every_branch_is_listed(
    net: Netlist,
    compiled: Seq<Module>,
    claims: Seq<usize>,
    built: Built,
    i: int,
)
    requires
        built.is_of(net, compiled, claims),
        0 <= i < net.devices@.len(),
        built.parts@[i].own_branch() is Some,
    ensures
        built.currents@.contains((net.devices@[i].name, built.parts@[i].own_branch()->0)),
{
    let first = first_parts(net, built.parts@);
    let second = second_parts(net, built.parts@);
    let start = after_first(net, compiled, claims, first);
    lemma_first_lists(net, compiled, claims, first);
    lemma_second_lists(net, compiled, start, first, second);
    assert(first[i] is Some || second[i] is Some);
}

// ---- a deck has one circuit -----------------------------------------------

/// Two parts claim the same unknowns in the same way.
pub open spec fn same_claims(a: Part, b: Part) -> bool {
    &&& a.own_branch() == b.own_branch()
    &&& a.model_nodes() == b.model_nodes()
    &&& (a is Compiled <==> b is Compiled)
    &&& (a matches Part::Compiled { module, placement } ==> (b matches Part::Compiled {
        module: other,
        placement: placed,
    } && module == other && placement.next_unknown == placed.next_unknown))
}

/// The lines agree in everything that decides which unknowns they claim: their name,
/// model and terminals, and the elements they couple to. Their values, parameters,
/// waveforms, excitations and initial conditions may differ.
pub open spec fn same_line(a: Device, b: Device) -> bool {
    &&& a.name == b.name
    &&& a.model@ == b.model@
    &&& a.terminals@ == b.terminals@
    &&& texts(a.controls@) == texts(b.controls@)
}

/// The decks have the same nets and, but for their numbers, the same lines.
pub open spec fn same_lines(a: Netlist, b: Netlist) -> bool {
    &&& a.node_order@ == b.node_order@
    &&& a.devices@.len() == b.devices@.len()
    &&& forall|i: int| 0 <= i < a.devices@.len() ==> same_line(#[trigger] a.devices@[i], b.devices@[i])
}

proof fn lemma_plan_is_determined(
    dev: Device,
    other: Device,
    compiled: Seq<Module>,
    next: int,
    a: Part,
    b: Part,
)
    requires
        same_line(dev, other),
        is_plan(dev, compiled, next, Ok(a)),
        is_plan(other, compiled, next, Ok(b)),
    ensures
        same_claims(a, b),
{
}

proof fn lemma_same_record(
    s: BuilderView,
    dev: Device,
    other: Device,
    compiled: Seq<Module>,
    a: Part,
    b: Part,
    extra: usize,
)
    requires
        dev.name == other.name,
        same_claims(a, b),
    ensures
        recorded(s, dev, compiled, a, a.end_of_claim(s.next) + extra_rows(a, extra)) == recorded(
            s,
            other,
            compiled,
            b,
            b.end_of_claim(s.next) + extra_rows(b, extra),
        ),
        recorded(s, dev, compiled, a, a.end_of_claim(s.next)) == recorded(
            s,
            other,
            compiled,
            b,
            b.end_of_claim(s.next),
        ),
{
    assert(part_decls(a, compiled) == part_decls(b, compiled));
    assert(a.end_of_claim(s.next) == b.end_of_claim(s.next));
}

proof fn lemma_first_is_determined(
    net: Netlist,
    other: Netlist,
    compiled: Seq<Module>,
    claims: Seq<usize>,
    a: Seq<Option<Part>>,
    b: Seq<Option<Part>>,
)
    requires
        same_lines(net, other),
        planned_first(net, compiled, claims, a),
        planned_first(other, compiled, claims, b),
        a.len() == b.len() <= net.devices@.len(),
    ensures
        after_first(net, compiled, claims, a) == after_first(other, compiled, claims, b),
    decreases a.len(),
{
    if a.len() > 0 {
        let x = a.drop_last();
        let y = b.drop_last();
        lemma_first_is_determined(net, other, compiled, claims, x, y);
        let s = after_first(net, compiled, claims, x);
        let i = a.len() - 1;
        let dev = net.devices@[i];
        assert(same_line(dev, other.devices@[i]));
        if let Some(p) = a.last() {
            if let Some(q) = b.last() {
                lemma_plan_is_determined(dev, other.devices@[i], compiled, s.next, p, q);
                lemma_same_record(s, dev, other.devices@[i], compiled, p, q, claims[i]);
            }
        }
    }
}

proof fn lemma_second_is_determined(
    net: Netlist,
    other: Netlist,
    compiled: Seq<Module>,
    start: BuilderView,
    a: Seq<Option<Part>>,
    b: Seq<Option<Part>>,
)
    requires
        same_lines(net, other),
        planned_second(net, compiled, start, a),
        planned_second(other, compiled, start, b),
        a.len() == b.len() <= net.devices@.len(),
    ensures
        after_second(net, compiled, start, a) == after_second(other, compiled, start, b),
    decreases a.len(),
{
    if a.len() > 0 {
        let x = a.drop_last();
        let y = b.drop_last();
        lemma_second_is_determined(net, other, compiled, start, x, y);
        let s = after_second(net, compiled, start, x);
        let i = a.len() - 1;
        let dev = net.devices@[i];
        assert(same_line(dev, other.devices@[i]));
        if let Some(p) = a.last() {
            if let Some(q) = b.last() {
                assert(same_claims(p, q));
                lemma_same_record(s, dev, other.devices@[i], compiled, p, q, 0);
            }
        }
    }
}

proof fn lemma_first_prefix(
    net: Netlist,
    compiled: Seq<Module>,
    claims: Seq<usize>,
    first: Seq<Option<Part>>,
    k: int,
)
    requires
        planned_first(net, compiled, claims, first),
        0 <= k <= first.len(),
    ensures
        planned_first(net, compiled, claims, first.subrange(0, k)),
    decreases first.len() - k,
{
    if k == first.len() {
        assert(first.subrange(0, k) =~= first);
    } else {
        lemma_first_prefix(net, compiled, claims, first, k + 1);
        assert(first.subrange(0, k + 1).drop_last() =~= first.subrange(0, k));
    }
}

proof fn lemma_second_prefix(
    net: Netlist,
    compiled: Seq<Module>,
    start: BuilderView,
    second: Seq<Option<Part>>,
    k: int,
)
    requires
        planned_second(net, compiled, start, second),
        0 <= k <= second.len(),
    ensures
        planned_second(net, compiled, start, second.subrange(0, k)),
    decreases second.len() - k,
{
    if k == second.len() {
        assert(second.subrange(0, k) =~= second);
    } else {
        lemma_second_prefix(net, compiled, start, second, k + 1);
        assert(second.subrange(0, k + 1).drop_last() =~= second.subrange(0, k));
    }
}

/// Two decks with the same lines, whatever their numbers, have the same unknowns, branch
/// currents and quantities. So a circuit's are those of every point of a sweep.
pub proof fn numbers_do_not_move_unknowns(
    net: Netlist,
    other: Netlist,
    compiled: Seq<Module>,
    claims: Seq<usize>,
    a: Built,
    b: Built,
)
    requires
        same_lines(net, other),
        a.is_of(net, compiled, claims),
        b.is_of(other, compiled, claims),
    ensures
        a.dim == b.dim,
        a.currents@ == b.currents@,
        views(a.quantities@) == views(b.quantities@),
{
    let first = first_parts(net, a.parts@);
    lemma_first_is_determined(
        net,
        other,
        compiled,
        claims,
        first,
        first_parts(other, b.parts@),
    );
    lemma_second_is_determined(
        net,
        other,
        compiled,
        after_first(net, compiled, claims, first),
        second_parts(net, a.parts@),
        second_parts(other, b.parts@),
    );
}

/// A deck and its models determine the unknowns, the branch currents and the quantities
/// of the circuit.
pub proof fn a_deck_has_one_circuit(
    net: Netlist,
    compiled: Seq<Module>,
    claims: Seq<usize>,
    a: Built,
    b: Built,
)
    requires
        a.is_of(net, compiled, claims),
        b.is_of(net, compiled, claims),
    ensures
        a.dim == b.dim,
        a.currents@ == b.currents@,
        views(a.quantities@) == views(b.quantities@),
{
    numbers_do_not_move_unknowns(net, net, compiled, claims, a, b);
}

/// Setting the value of a device, as each point of a sweep does, keeps the lines.
pub proof fn a_sweep_keeps_the_lines(net: Netlist, swept: Netlist, k: int, value: Real)
    requires
        0 <= k < net.devices@.len(),
        swept.node_order@ == net.node_order@,
        swept.devices@ == net.devices@.update(
            k,
            (Device { value: Some(value), ..net.devices@[k] }),
        ),
    ensures
        same_lines(net, swept),
{
}

/// A deck whose circuit can be built has no reason why it cannot.
pub proof fn a_circuit_excludes_every_error(
    net: Netlist,
    compiled: Seq<Module>,
    claims: Seq<usize>,
    built: Built,
    e: BuildError,
)
    requires
        built.is_of(net, compiled, claims),
    ensures
        !is_build_error(net, compiled, claims, e),
{
    let first = first_parts(net, built.parts@);
    let second = second_parts(net, built.parts@);
    let start = after_first(net, compiled, claims, first);
    if exists|f: Seq<Option<Part>>| is_first_error(net, compiled, claims, f, e) {
        let f = choose|f: Seq<Option<Part>>| #[trigger]
            is_first_error(net, compiled, claims, f, e);
        let k = f.len() as int;
        lemma_first_prefix(net, compiled, claims, first, k);
        lemma_first_prefix(net, compiled, claims, first, k + 1);
        lemma_first_is_determined(net, net, compiled, claims, f, first.subrange(0, k));
        let upto = first.subrange(0, k + 1);
        assert(upto.drop_last() =~= first.subrange(0, k));
        assert(upto.last() == first[k]);
        assert(first[k] is Some);
        lemma_no_plan_and_error(
            net.devices@[k],
            compiled,
            after_first(net, compiled, claims, f).next,
            first[k]->0,
            e,
        );
    }
    if exists|f: Seq<Option<Part>>, s: Seq<Option<Part>>|
        is_second_error(net, compiled, claims, f, s, e) {
        let (f, s) = choose|f: Seq<Option<Part>>, s: Seq<Option<Part>>| #[trigger]
            is_second_error(net, compiled, claims, f, s, e);
        let k = s.len() as int;
        lemma_first_is_determined(net, net, compiled, claims, f, first);
        lemma_second_prefix(net, compiled, start, second, k);
        lemma_second_prefix(net, compiled, start, second, k + 1);
        lemma_second_is_determined(net, net, compiled, start, s, second.subrange(0, k));
        let upto = second.subrange(0, k + 1);
        assert(upto.drop_last() =~= second.subrange(0, k));
        assert(upto.last() == second[k]);
        assert(second[k] is Some);
    }
}

proof fn lemma_no_plan_and_error(
    dev: Device,
    compiled: Seq<Module>,
    next: int,
    part: Part,
    e: BuildError,
)
    requires
        is_plan(dev, compiled, next, Ok(part)),
    ensures
        !is_plan(dev, compiled, next, Err(e)),
{
}

} // verus!
