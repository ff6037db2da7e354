//! What a device line makes of a compiled model: which parameters it sets, which nets its
//! ports are wired to, and which unknowns its other nodes are given.
use crate::netlist::{
    lemma_port_nodes_len, lemma_port_width_monotonic, lemma_port_width_prefix, port_nodes,
    port_width, Module, GROUND,
};
use crate::number::Real;
use crate::place::{
    all_settable, build_from_model, can_place, can_set, claimed, first_multiplicity_fault,
    first_param, is_multiplicity, is_param_named, is_placement_error, is_setting_error,
    lemma_port_nodes_in_range, multiplicity_fault, multiplicity_of, node_slots, open_before,
    param_names, parameters_of, port_allowed, port_connected, port_error, ports_allowed,
    ports_left_off, settings_after, value_settable, wired, BuildError, Placement,
};
use crate::search::lemma_first_where_holds;
use crate::text::{is_sorting_of, texts};
use vstd::prelude::*;

verus! {

// ---- settings -------------------------------------------------------------

/// The model has a parameter of this name.
pub open spec fn has_param(module: Module, name: Seq<char>) -> bool {
    exists|k: int| 0 <= k < module.params@.len() && (#[trigger] module.params@[k]).name@ == name
}

/// A setting of this name says how many devices stand in parallel: `mult`, or `m` where
/// the model has no parameter `m`.
pub open spec fn counts_devices(module: Module, name: Seq<char>) -> bool {
    name == "mult"@ || (name == "m"@ && !has_param(module, "m"@))
}

/// The setting is for the `k`-th parameter: the first of its name.
pub open spec fn sets_param(module: Module, setting: (String, Real), k: int) -> bool {
    &&& !counts_devices(module, setting.0@)
    &&& 0 <= k < module.params@.len()
    &&& module.params@[k].name@ == setting.0@
    &&& forall|j: int| 0 <= j < k ==> (#[trigger] module.params@[j]).name@ != setting.0@
}

proof fn lemma_counts_devices(module: Module, name: Seq<char>)
    ensures
        counts_devices(module, name) == is_multiplicity(module, name),
{
    assert(has_param(module, "m"@) == module.declares("m"@)) by {
        if has_param(module, "m"@) {
            let k = choose|k: int|
                0 <= k < module.params@.len() && (#[trigger] module.params@[k]).name@ == "m"@;
            assert(module.params@[k].name@ == "m"@);
        }
        if module.declares("m"@) {
            let k = choose|k: int|
                0 <= k < module.params@.len() && #[trigger] module.params@[k].name@ == "m"@;
            assert(module.params@[k].name@ == "m"@);
        }
    }
}

proof fn lemma_first_named(module: Module, name: Seq<char>, k: int)
    requires
        0 <= k < module.params@.len(),
    ensures
        first_param(module.params@, name) == k <==> (module.params@[k].name@ == name && forall|j: int|
            0 <= j < k ==> (#[trigger] module.params@[j]).name@ != name),
        0 <= first_param(module.params@, name) <= module.params@.len(),
{
    let holds = is_param_named(name);
    lemma_first_where_holds(module.params@, holds);
    let first = first_param(module.params@, name);
    if first == k {
        assert(holds(module.params@[k]));
        assert forall|j: int| 0 <= j < k implies (#[trigger] module.params@[j]).name@ != name by {
            assert(!holds(module.params@[j]));
        }
    }
    if module.params@[k].name@ == name && forall|j: int|
        0 <= j < k ==> (#[trigger] module.params@[j]).name@ != name {
        assert(holds(module.params@[k]));
        if first < k {
            assert(holds(module.params@[first]));
        }
        if first > k {
            assert(!holds(module.params@[k]));
        }
    }
}

proof fn lemma_settings(module: Module, value: Option<Real>, line: Seq<(String, Real)>, k: int)
    requires
        all_settable(module, parameters_of(module, line)),
        0 <= k < module.params@.len(),
    ensures
        settings_after(module, value, parameters_of(module, line)).len() == module.params@.len(),
        forall|i: int|
            {
                &&& 0 <= i < line.len()
                &&& sets_param(module, #[trigger] line[i], k)
                &&& forall|j: int| i < j < line.len() ==> !sets_param(module, #[trigger] line[j], k)
            } ==> settings_after(module, value, parameters_of(module, line))[k] == Some(line[i].1),
        (forall|i: int| 0 <= i < line.len() ==> !sets_param(module, #[trigger] line[i], k))
            ==> settings_after(module, value, parameters_of(module, line))[k] == (if k == 0 {
            value
        } else {
            None
        }),
    decreases line.len(),
{
    if line.len() > 0 {
        let fewer = line.drop_last();
        let last = line.last();
        let named = parameters_of(module, line);
        lemma_counts_devices(module, last.0@);
        assert forall|i: int| 0 <= i < parameters_of(module, fewer).len() implies can_set(
            module,
            #[trigger] parameters_of(module, fewer)[i].0@,
        ) by {
            assert(named[i] == parameters_of(module, fewer)[i]);
        }
        lemma_settings(module, value, fewer, k);
        lemma_first_named(module, last.0@, k);
        if !is_multiplicity(module, last.0@) {
            assert(named.last() == last);
            assert(can_set(module, named[named.len() - 1].0@));
            assert(named.drop_last() =~= parameters_of(module, fewer));
        }
        assert(line[line.len() - 1] == last);
        assert forall|i: int|
            {
                &&& 0 <= i < line.len()
                &&& sets_param(module, #[trigger] line[i], k)
                &&& forall|j: int| i < j < line.len() ==> !sets_param(module, #[trigger] line[j], k)
            } implies settings_after(module, value, named)[k] == Some(line[i].1) by {
            if i < line.len() - 1 {
                assert(fewer[i] == line[i]);
                assert(!sets_param(module, line[line.len() - 1], k));
                assert forall|j: int| i < j < fewer.len() implies !sets_param(
                    module,
                    #[trigger] fewer[j],
                    k,
                ) by {
                    assert(fewer[j] == line[j]);
                }
            }
        }
        if forall|i: int| 0 <= i < line.len() ==> !sets_param(module, #[trigger] line[i], k) {
            assert forall|i: int| 0 <= i < fewer.len() implies !sets_param(
                module,
                #[trigger] fewer[i],
                k,
            ) by {
                assert(fewer[i] == line[i]);
            }
            assert(!sets_param(module, line[line.len() - 1], k));
        }
    }
}

/// A parameter has the value that the last setting of its name on the line gives it. One
/// that no setting names has none of its own, but for the first, which has the value that
/// the line states by position.
pub proof fn a_parameter_has_its_last_setting(
    module: &Module,
    value: Option<Real>,
    line: &Vec<(String, Real)>,
    terminals: &Vec<usize>,
    next: usize,
    r: Placement,
    k: int,
)
    requires
        call_ensures(build_from_model, (module, value, line, terminals, next), Ok(r)),
        0 <= k < module.params@.len(),
    ensures
        r.settings@.len() == module.params@.len(),
        forall|i: int|
            {
                &&& 0 <= i < line@.len()
                &&& sets_param(*module, #[trigger] line@[i], k)
                &&& forall|j: int|
                    i < j < line@.len() ==> !sets_param(*module, #[trigger] line@[j], k)
            } ==> r.settings@[k] == Some(line@[i].1),
        (forall|i: int| 0 <= i < line@.len() ==> !sets_param(*module, #[trigger] line@[i], k))
            ==> r.settings@[k] == (if k == 0 {
            value
        } else {
            None
        }),
{
    lemma_settings(*module, value, line@, k);
}

proof fn lemma_multiplicity(module: Module, line: Seq<(String, Real)>)
    requires
        first_multiplicity_fault(module, line) is None,
    ensures
        forall|i: int|
            {
                &&& 0 <= i < line.len()
                &&& counts_devices(module, (#[trigger] line[i]).0@)
                &&& forall|j: int|
                    i < j < line.len() ==> !counts_devices(module, (#[trigger] line[j]).0@)
            } ==> multiplicity_of(module, line) == Some(line[i].1),
        (forall|i: int| 0 <= i < line.len() ==> !counts_devices(module, (#[trigger] line[i]).0@))
            ==> multiplicity_of(module, line) is None,
        forall|i: int|
            0 <= i < line.len() && counts_devices(module, (#[trigger] line[i]).0@) ==> line[i].1.positive_finite(),
        forall|i: int|
            0 <= i < line.len() && (#[trigger] line[i]).0@ == "mult"@ ==> !has_param(module, "mult"@),
    decreases line.len(),
{
    if line.len() > 0 {
        let fewer = line.drop_last();
        lemma_multiplicity(module, fewer);
        let last = line.last();
        lemma_counts_devices(module, last.0@);
        assert(line[line.len() - 1] == last);
        assert(multiplicity_fault(module, last) is None);
        assert(has_param(module, "mult"@) ==> module.declares("mult"@)) by {
            if has_param(module, "mult"@) {
                let k = choose|k: int|
                    0 <= k < module.params@.len() && (#[trigger] module.params@[k]).name@ == "mult"@;
                assert(module.params@[k].name@ == "mult"@);
            }
        }
        assert forall|i: int|
            0 <= i < line.len() && counts_devices(module, (#[trigger] line[i]).0@) implies line[i].1.positive_finite() by {
            if i < line.len() - 1 {
                assert(fewer[i] == line[i]);
            }
        }
        assert forall|i: int|
            0 <= i < line.len() && (#[trigger] line[i]).0@ == "mult"@ implies !has_param(
            module,
            "mult"@,
        ) by {
            if i < line.len() - 1 {
                assert(fewer[i] == line[i]);
            }
        }
        assert forall|i: int|
            {
                &&& 0 <= i < line.len()
                &&& counts_devices(module, (#[trigger] line[i]).0@)
                &&& forall|j: int|
                    i < j < line.len() ==> !counts_devices(module, (#[trigger] line[j]).0@)
            } implies multiplicity_of(module, line) == Some(line[i].1) by {
            if i < line.len() - 1 {
                assert(fewer[i] == line[i]);
                assert(!counts_devices(module, line[line.len() - 1].0@));
                assert forall|j: int| i < j < fewer.len() implies !counts_devices(
                    module,
                    (#[trigger] fewer[j]).0@,
                ) by {
                    assert(fewer[j] == line[j]);
                }
            }
        }
        if forall|i: int| 0 <= i < line.len() ==> !counts_devices(module, (#[trigger] line[i]).0@) {
            assert forall|i: int| 0 <= i < fewer.len() implies !counts_devices(
                module,
                (#[trigger] fewer[i]).0@,
            ) by {
                assert(fewer[i] == line[i]);
            }
            assert(!counts_devices(module, line[line.len() - 1].0@));
        }
    }
}

/// The line stands for as many devices as its last `mult=` or free `m=` says, which is a
/// positive, finite number; without one it says nothing. A line that is placed has no
/// `mult=` where the model has a parameter of that name.
pub proof fn a_line_counts_its_devices(
    module: &Module,
    value: Option<Real>,
    line: &Vec<(String, Real)>,
    terminals: &Vec<usize>,
    next: usize,
    r: Placement,
)
    requires
        call_ensures(build_from_model, (module, value, line, terminals, next), Ok(r)),
    ensures
        forall|i: int|
            {
                &&& 0 <= i < line@.len()
                &&& counts_devices(*module, (#[trigger] line@[i]).0@)
                &&& forall|j: int|
                    i < j < line@.len() ==> !counts_devices(*module, (#[trigger] line@[j]).0@)
            } ==> r.multiplicity == Some(line@[i].1),
        (forall|i: int|
            0 <= i < line@.len() ==> !counts_devices(*module, (#[trigger] line@[i]).0@))
            ==> r.multiplicity is None,
        forall|i: int|
            0 <= i < line@.len() && counts_devices(*module, (#[trigger] line@[i]).0@)
                ==> line@[i].1.positive_finite(),
        forall|i: int|
            0 <= i < line@.len() && (#[trigger] line@[i]).0@ == "mult"@ ==> !has_param(
                *module,
                "mult"@,
            ),
{
    lemma_multiplicity(*module, line@);
}

// ---- nodes ----------------------------------------------------------------

/// The nodes that the terminals of a line go to, in order: those of the first port, then
/// those of the second, and so on.
pub open spec fn pins(ports: Seq<Vec<usize>>) -> Seq<usize> {
    Seq::new(ports.len(), |i: int| ports[i]@).flatten()
}

proof fn lemma_pins(ports: Seq<Vec<usize>>)
    ensures
        pins(ports) == port_nodes(ports),
        pins(ports).len() == port_width(ports, ports.len() as int),
    decreases ports.len(),
{
    let parts = Seq::new(ports.len(), |i: int| ports[i]@);
    if ports.len() > 0 {
        lemma_pins(ports.drop_last());
        let fewer = Seq::new(ports.drop_last().len(), |i: int| ports.drop_last()[i]@);
        assert(parts =~= fewer.push(ports.last()@));
        fewer.lemma_flatten_push(ports.last()@);
    }
    lemma_port_nodes_len(ports);
}

proof fn lemma_wired(flat: Seq<usize>, terminals: Seq<usize>, count: nat, upto: int, node: int)
    requires
        0 <= upto <= flat.len(),
        upto <= terminals.len(),
        0 <= node < count,
        forall|k: int| 0 <= k < flat.len() ==> #[trigger] flat[k] < count,
    ensures
        wired(flat, terminals, count, upto).len() == count,
        forall|q: int|
            {
                &&& 0 <= q < upto
                &&& #[trigger] flat[q] == node
                &&& forall|p: int| q < p < upto ==> #[trigger] flat[p] != node
            } ==> wired(flat, terminals, count, upto)[node] == Some(terminals[q]),
        (forall|q: int| 0 <= q < upto ==> #[trigger] flat[q] != node) ==> wired(
            flat,
            terminals,
            count,
            upto,
        )[node] is None,
    decreases upto,
{
    if upto > 0 {
        lemma_wired(flat, terminals, count, upto - 1, node);
        assert(flat[upto - 1] < count);
    }
}

/// A node takes part in the wiring: some terminal of the line goes to it.
pub open spec fn is_reached(module: Module, terminals: Seq<usize>, node: int) -> bool {
    exists|q: int| 0 <= q < terminals.len() && #[trigger] pins(module.ports@)[q] == node
}

/// The node is the ground of the circuit: it is called `gnd`, no terminal goes to it, and
/// it is no port of the model.
pub open spec fn is_own_ground(module: Module, terminals: Seq<usize>, node: int) -> bool {
    &&& !is_reached(module, terminals, node)
    &&& module.nodes@[node].name@ == "gnd"@
    &&& !pins(module.ports@).contains(node as usize)
}

proof fn lemma_slots(module: Module, terminals: Seq<usize>, node: int)
    requires
        module.well_formed(),
        terminals.len() <= pins(module.ports@).len(),
        0 <= node < module.nodes@.len(),
    ensures
        node_slots(module, terminals).len() == module.nodes@.len(),
        forall|q: int|
            {
                &&& 0 <= q < terminals.len()
                &&& #[trigger] pins(module.ports@)[q] == node
                &&& forall|p: int|
                    q < p < terminals.len() ==> #[trigger] pins(module.ports@)[p] != node
            } ==> node_slots(module, terminals)[node] == Some(terminals[q]),
        is_own_ground(module, terminals, node) ==> node_slots(module, terminals)[node] == Some(
            GROUND,
        ),
        node_slots(module, terminals)[node] is None <==> !is_reached(module, terminals, node)
            && !is_own_ground(module, terminals, node),
{
    lemma_pins(module.ports@);
    let flat = port_nodes(module.ports@);
    lemma_port_nodes_in_range(module.ports@, module.nodes@.len());
    lemma_wired(flat, terminals, module.nodes@.len(), terminals.len() as int, node);
    if is_reached(module, terminals, node) {
        lemma_last_pin(flat, terminals.len() as int, node);
    }
}

proof fn lemma_last_pin(flat: Seq<usize>, upto: int, node: int)
    requires
        0 <= upto <= flat.len(),
        exists|q: int| 0 <= q < upto && #[trigger] flat[q] == node,
    ensures
        exists|q: int|
            {
                &&& 0 <= q < upto
                &&& #[trigger] flat[q] == node
                &&& forall|p: int| q < p < upto ==> #[trigger] flat[p] != node
            },
    decreases upto,
{
    if flat[upto - 1] == node {
        assert forall|p: int| upto - 1 < p < upto implies #[trigger] flat[p] != node by {}
    } else {
        let q = choose|q: int| 0 <= q < upto && #[trigger] flat[q] == node;
        assert(q < upto - 1);
        lemma_last_pin(flat, upto - 1, node);
    }
}

proof fn lemma_open_claims(slots: Seq<Option<usize>>, i: int, j: int)
    requires
        0 <= i < j <= slots.len(),
    ensures
        0 <= open_before(slots, i) <= open_before(slots, j),
        slots[i] is None ==> open_before(slots, i) < open_before(slots, j),
    decreases j,
{
    if j == i + 1 {
        lemma_open_bounds(slots, i);
    } else {
        lemma_open_claims(slots, i, j - 1);
    }
}

proof fn lemma_open_bounds(slots: Seq<Option<usize>>, upto: int)
    requires
        0 <= upto <= slots.len(),
    ensures
        0 <= open_before(slots, upto) <= upto,
    decreases upto,
{
    if upto > 0 {
        lemma_open_bounds(slots, upto - 1);
    }
}

proof fn lemma_open_surjective(slots: Seq<Option<usize>>, upto: int, rank: int)
    requires
        0 <= upto <= slots.len(),
        0 <= rank < open_before(slots, upto),
    ensures
        exists|n: int| 0 <= n < upto && #[trigger] slots[n] is None && open_before(slots, n) == rank,
    decreases upto,
{
    if slots[upto - 1] is None && open_before(slots, upto - 1) == rank {
    } else {
        lemma_open_surjective(slots, upto - 1, rank);
    }
}

/// The `q`-th terminal of a line goes to the `q`-th pin of the model, so that this node is
/// the net which the line names there. Where several terminals go to one node, the last
/// one counts.
pub proof fn a_terminal_is_wired_to_its_pin(
    module: &Module,
    value: Option<Real>,
    line: &Vec<(String, Real)>,
    terminals: &Vec<usize>,
    next: usize,
    r: Placement,
    q: int,
)
    requires
        module.well_formed(),
        call_ensures(build_from_model, (module, value, line, terminals, next), Ok(r)),
        0 <= q < terminals@.len(),
    ensures
        terminals@.len() <= pins(module.ports@).len(),
        r.nodes@.len() == module.nodes@.len(),
        pins(module.ports@)[q] < module.nodes@.len(),
        (forall|p: int|
            q < p < terminals@.len() ==> #[trigger] pins(module.ports@)[p] != pins(module.ports@)[q])
            ==> r.nodes@[pins(module.ports@)[q] as int] == terminals@[q],
{
    lemma_pins(module.ports@);
    lemma_port_nodes_in_range(module.ports@, module.nodes@.len());
    let node = pins(module.ports@)[q] as int;
    assert(port_nodes(module.ports@)[q] == node);
    lemma_slots(*module, terminals@, node);
}

/// A node that no terminal goes to is the ground of the circuit where it is called `gnd`
/// and is no port. Every other such node is given an unknown of its own: the new unknowns
/// are those from the next free one on, without a gap, in the order of the nodes.
pub proof fn an_unwired_node_claims_its_own_unknown(
    module: &Module,
    value: Option<Real>,
    line: &Vec<(String, Real)>,
    terminals: &Vec<usize>,
    next: usize,
    r: Placement,
)
    requires
        module.well_formed(),
        next + module.nodes@.len() <= usize::MAX,
        call_ensures(build_from_model, (module, value, line, terminals, next), Ok(r)),
    ensures
        r.nodes@.len() == module.nodes@.len(),
        next <= r.next_unknown,
        forall|n: int|
            0 <= n < module.nodes@.len() && is_own_ground(*module, terminals@, n)
                ==> #[trigger] r.nodes@[n] == GROUND,
        forall|n: int|
            0 <= n < module.nodes@.len() && is_claimed(*module, terminals@, n) ==> next
                <= #[trigger] r.nodes@[n] < r.next_unknown,
        forall|m: int, n: int|
            0 <= m < n < module.nodes@.len() && is_claimed(*module, terminals@, m) && is_claimed(
                *module,
                terminals@,
                n,
            ) ==> #[trigger] r.nodes@[m] < #[trigger] r.nodes@[n],
        forall|unknown: usize|
            next <= unknown < r.next_unknown ==> #[trigger] is_claim_of(
                *module,
                terminals@,
                r.nodes@,
                unknown,
            ),
{
    let slots = node_slots(*module, terminals@);
    let count = module.nodes@.len() as int;
    lemma_pins(module.ports@);
    crate::place::lemma_slots_len(*module, terminals@);
    lemma_open_bounds(slots, count);
    assert forall|n: int|
        0 <= n < count && is_own_ground(*module, terminals@, n) implies #[trigger] r.nodes@[n]
        == GROUND by {
        lemma_slots(*module, terminals@, n);
    }
    assert forall|n: int| 0 <= n < count && is_claimed(*module, terminals@, n) implies next
        <= #[trigger] r.nodes@[n] < r.next_unknown by {
        lemma_slots(*module, terminals@, n);
        lemma_open_claims(slots, n, count);
    }
    assert forall|m: int, n: int|
        0 <= m < n < count && is_claimed(*module, terminals@, m) && is_claimed(
            *module,
            terminals@,
            n,
        ) implies #[trigger] r.nodes@[m] < #[trigger] r.nodes@[n] by {
        lemma_slots(*module, terminals@, m);
        lemma_slots(*module, terminals@, n);
        lemma_open_claims(slots, m, n);
        lemma_open_claims(slots, n, count);
    }
    assert forall|unknown: usize| next <= unknown < r.next_unknown implies #[trigger] is_claim_of(
        *module,
        terminals@,
        r.nodes@,
        unknown,
    ) by {
        lemma_open_surjective(slots, count, unknown - next);
        let n = choose|n: int|
            0 <= n < count && #[trigger] slots[n] is None && open_before(slots, n) == unknown - next;
        lemma_slots(*module, terminals@, n);
        assert(r.nodes@[n] == unknown);
    }
}

/// A node with an unknown of its own has one of those that the line claims.
pub proof fn lemma_claimed_range(module: Module, terminals: Seq<usize>, next: int, node: int)
    requires
        module.well_formed(),
        terminals.len() <= port_width(module.ports@, module.ports@.len() as int),
        0 <= node < module.nodes@.len(),
        is_claimed(module, terminals, node),
        0 <= next,
        next + module.nodes@.len() <= usize::MAX,
    ensures
        ({
            let slots = node_slots(module, terminals);
            next <= claimed(slots, next)[node] < next + open_before(slots, module.nodes@.len() as int)
        }),
{
    let slots = node_slots(module, terminals);
    lemma_pins(module.ports@);
    lemma_slots(module, terminals, node);
    lemma_open_bounds(slots, module.nodes@.len() as int);
    lemma_open_claims(slots, node, module.nodes@.len() as int);
}

/// A node is given an unknown of its own exactly if nothing else is given to it.
pub proof fn lemma_slot_is_open(module: Module, terminals: Seq<usize>, node: int)
    requires
        module.well_formed(),
        terminals.len() <= port_width(module.ports@, module.ports@.len() as int),
        0 <= node < module.nodes@.len(),
    ensures
        node_slots(module, terminals)[node] is None <==> is_claimed(module, terminals, node),
{
    lemma_pins(module.ports@);
    lemma_slots(module, terminals, node);
}

/// The unknowns that a line claims are those of nodes of its model, and no node of the
/// model has one behind them.
pub proof fn lemma_claims_are_nodes(module: Module, terminals: Seq<usize>, next: int, nets: int)
    requires
        module.well_formed(),
        terminals.len() <= port_width(module.ports@, module.ports@.len() as int),
        0 <= nets <= next,
        next + module.nodes@.len() <= usize::MAX,
        forall|t: int|
            0 <= t < terminals.len() ==> #[trigger] terminals[t] < nets || terminals[t] == GROUND,
    ensures
        ({
            let slots = node_slots(module, terminals);
            let nodes = claimed(slots, next);
            let end = next + open_before(slots, module.nodes@.len() as int);
            &&& forall|g: usize| next <= g < end ==> #[trigger] nodes.contains(g)
            &&& forall|g: usize| end <= g < usize::MAX ==> !#[trigger] nodes.contains(g)
        }),
{
    let slots = node_slots(module, terminals);
    let nodes = claimed(slots, next);
    let count = module.nodes@.len() as int;
    let end = next + open_before(slots, count);
    crate::place::lemma_slots_len(module, terminals);
    assert forall|g: usize| next <= g < end implies #[trigger] nodes.contains(g) by {
        lemma_open_surjective(slots, count, g - next);
        let n = choose|n: int|
            0 <= n < count && #[trigger] slots[n] is None && open_before(slots, n) == g - next;
        assert(nodes[n] == g);
    }
    crate::circuit_laws::placed_nodes_are_distinct(module, terminals, nets, next);
    lemma_open_bounds(slots, count);
    assert forall|g: usize| end <= g < usize::MAX implies !#[trigger] nodes.contains(g) by {
        if nodes.contains(g) {
            let n = choose|n: int| 0 <= n < nodes.len() && nodes[n] == g;
            assert(nodes[n] < nets || nodes[n] == GROUND || next <= nodes[n] < end);
        }
    }
}

/// The node is given an unknown of its own: no terminal goes to it, and it is not the
/// ground of the circuit.
pub open spec fn is_claimed(module: Module, terminals: Seq<usize>, node: int) -> bool {
    !is_reached(module, terminals, node) && !is_own_ground(module, terminals, node)
}

/// The unknown is that of a node which is given one of its own.
pub open spec fn is_claim_of(
    module: Module,
    terminals: Seq<usize>,
    nodes: Seq<usize>,
    unknown: usize,
) -> bool {
    exists|n: int|
        0 <= n < nodes.len() && is_claimed(module, terminals, n) && #[trigger] nodes[n] == unknown
}

// ---- ports ----------------------------------------------------------------

/// The pins of the ports before this one.
pub open spec fn pins_before(module: Module, port: int) -> int {
    pins(module.ports@.subrange(0, port)).len() as int
}

/// Every pin of the port has a terminal.
pub open spec fn has_every_pin(module: Module, terminals: int, port: int) -> bool {
    pins_before(module, port) + module.ports@[port]@.len() <= terminals
        || module.ports@[port]@.len() == 0
}

/// No pin of the port has a terminal.
pub open spec fn has_no_pin(module: Module, terminals: int, port: int) -> bool {
    terminals <= pins_before(module, port)
}

proof fn lemma_pins_before(module: Module, port: int)
    requires
        0 <= port < module.ports@.len(),
    ensures
        pins_before(module, port) == port_width(module.ports@, port),
        port_width(module.ports@, port + 1) == port_width(module.ports@, port)
            + module.ports@[port]@.len(),
        port_width(module.ports@, port) >= 0,
{
    lemma_pins(module.ports@.subrange(0, port));
    lemma_port_width_prefix(module.ports@, port);
    lemma_port_width_monotonic(module.ports@, 0, port);
}

proof fn lemma_left_off(module: Module, terminals: int, upto: int)
    requires
        0 <= upto <= module.ports@.len(),
        module.ports@.len() <= usize::MAX,
    ensures
        forall|a: int, b: int|
            0 <= a < b < ports_left_off(module, terminals, upto).len() ==> ports_left_off(
                module,
                terminals,
                upto,
            )[a] < ports_left_off(module, terminals, upto)[b],
        forall|a: int|
            0 <= a < ports_left_off(module, terminals, upto).len() ==> (#[trigger] ports_left_off(
                module,
                terminals,
                upto,
            )[a]) < upto,
        forall|i: int|
            0 <= i < upto ==> (#[trigger] ports_left_off(module, terminals, upto).contains(
                i as usize,
            ) <==> !port_connected(module, terminals, i)),
    decreases upto,
{
    if upto > 0 {
        lemma_left_off(module, terminals, upto - 1);
        let before = ports_left_off(module, terminals, upto - 1);
        let all = ports_left_off(module, terminals, upto);
        assert forall|i: int| 0 <= i < upto implies (#[trigger] all.contains(i as usize)
            <==> !port_connected(module, terminals, i)) by {
            if i < upto - 1 {
                assert(before.contains(i as usize) <==> !port_connected(module, terminals, i));
                if before.contains(i as usize) {
                    let k = choose|k: int| 0 <= k < before.len() && before[k] == i as usize;
                    assert(all[k] == i as usize);
                }
                if all.contains(i as usize) {
                    let k = choose|k: int| 0 <= k < all.len() && all[k] == i as usize;
                    assert(before[k] == i as usize);
                }
            } else {
                if !port_connected(module, terminals, i) {
                    assert(all.last() == i as usize);
                } else if all.contains(i as usize) {
                    let k = choose|k: int| 0 <= k < all.len() && all[k] == i as usize;
                    assert(before[k] < upto - 1);
                }
            }
        }
    }
}

/// A line that is placed has no more terminals than the model has pins. It connects each
/// port as a whole or not at all, and leaves off only ports that the model asks about;
/// these are listed, in order.
pub proof fn a_port_is_connected_as_a_whole(
    module: &Module,
    value: Option<Real>,
    line: &Vec<(String, Real)>,
    terminals: &Vec<usize>,
    next: usize,
    r: Placement,
    port: int,
)
    requires
        call_ensures(build_from_model, (module, value, line, terminals, next), Ok(r)),
        0 <= port < module.ports@.len(),
    ensures
        terminals@.len() <= pins(module.ports@).len(),
        has_every_pin(*module, terminals@.len() as int, port) || has_no_pin(
            *module,
            terminals@.len() as int,
            port,
        ),
        r.unconnected@.contains(port as usize) <==> !has_every_pin(
            *module,
            terminals@.len() as int,
            port,
        ),
        r.unconnected@.contains(port as usize) ==> module.queried_ports@.contains(port as usize),
        forall|a: int, b: int|
            0 <= a < b < r.unconnected@.len() ==> r.unconnected@[a] < r.unconnected@[b],
        forall|a: int|
            0 <= a < r.unconnected@.len() ==> #[trigger] r.unconnected@[a] < module.ports@.len(),
{
    let t = terminals@.len() as int;
    let n = module.ports@.len() as int;
    assert(module.ports.len() == n);
    lemma_pins(module.ports@);
    lemma_pins_before(*module, port);
    lemma_left_off(*module, t, n);
    assert(port_allowed(*module, t, port));
    assert(r.unconnected@ == ports_left_off(*module, t, n));
    assert(ports_left_off(*module, t, n).contains(port as usize) <==> !port_connected(
        *module,
        t,
        port,
    ));
}

/// A line is refused exactly if something is wrong with it: a multiplicity that is not
/// positive and finite, or `mult=` where the model has a parameter of that name; a setting
/// of a local parameter or of none, by name or by position; more terminals than pins; a
/// port that is connected in part; or a port left off that the model does not ask about.
pub proof fn a_line_is_refused_for_cause(
    module: &Module,
    value: Option<Real>,
    line: &Vec<(String, Real)>,
    terminals: &Vec<usize>,
    next: usize,
    r: Result<Placement, BuildError>,
)
    requires
        call_ensures(build_from_model, (module, value, line, terminals, next), r),
    ensures
        r is Ok <==> {
            &&& forall|i: int|
                0 <= i < line@.len() && (#[trigger] line@[i]).0@ == "mult"@ ==> !has_param(
                    *module,
                    "mult"@,
                )
            &&& forall|i: int|
                0 <= i < line@.len() && counts_devices(*module, (#[trigger] line@[i]).0@)
                    ==> line@[i].1.positive_finite()
            &&& value is Some && module.params@.len() > 0 ==> !module.params@[0].is_local
            &&& forall|i: int|
                0 <= i < line@.len() && !counts_devices(*module, (#[trigger] line@[i]).0@)
                    ==> is_settable(*module, line@[i])
            &&& terminals@.len() <= pins(module.ports@).len()
            &&& forall|port: int|
                0 <= port < module.ports@.len() ==> #[trigger] is_allowed(
                    *module,
                    terminals@.len() as int,
                    port,
                )
        },
{
    let m = *module;
    lemma_pins(module.ports@);
    lemma_faults(m, line@);
    lemma_named(m, line@);
    assert forall|port: int| 0 <= port < module.ports@.len() implies #[trigger] is_allowed(
        m,
        terminals@.len() as int,
        port,
    ) == port_allowed(m, terminals@.len() as int, port) by {
        lemma_pins_before(m, port);
    }
    if ports_allowed(m, terminals@.len() as int) {
        assert forall|port: int| 0 <= port < module.ports@.len() implies #[trigger] is_allowed(
            m,
            terminals@.len() as int,
            port,
        ) by {
            assert(port_allowed(m, terminals@.len() as int, port));
        }
    } else if terminals@.len() <= pins(module.ports@).len() {
        let port = choose|port: int|
            0 <= port < module.ports@.len() && !#[trigger] port_allowed(
                m,
                terminals@.len() as int,
                port,
            );
        assert(!is_allowed(m, terminals@.len() as int, port));
    }
    assert(r is Ok <==> can_place(m, value, line@, terminals@.len() as int));
}

/// The setting is for a parameter of the model that is not local.
pub open spec fn is_settable(module: Module, setting: (String, Real)) -> bool {
    exists|k: int| #[trigger] sets_param(module, setting, k) && !module.params@[k].is_local
}

/// The port is connected as a whole, or not at all and the model asks about it.
pub open spec fn is_allowed(module: Module, terminals: int, port: int) -> bool {
    has_every_pin(module, terminals, port) || (has_no_pin(module, terminals, port)
        && module.queried_ports@.contains(port as usize))
}

proof fn lemma_faults(module: Module, line: Seq<(String, Real)>)
    ensures
        first_multiplicity_fault(module, line) is None <==> {
            &&& forall|i: int|
                0 <= i < line.len() && (#[trigger] line[i]).0@ == "mult"@ ==> !has_param(
                    module,
                    "mult"@,
                )
            &&& forall|i: int|
                0 <= i < line.len() && counts_devices(module, (#[trigger] line[i]).0@)
                    ==> line[i].1.positive_finite()
        },
    decreases line.len(),
{
    if first_multiplicity_fault(module, line) is None {
        lemma_multiplicity(module, line);
    } else if line.len() > 0 {
        let fewer = line.drop_last();
        lemma_faults(module, fewer);
        if first_multiplicity_fault(module, fewer) is Some {
            if exists|i: int|
                0 <= i < fewer.len() && (#[trigger] fewer[i]).0@ == "mult"@ && has_param(
                    module,
                    "mult"@,
                ) {
                let i = choose|i: int|
                    0 <= i < fewer.len() && (#[trigger] fewer[i]).0@ == "mult"@ && has_param(
                        module,
                        "mult"@,
                    );
                assert(line[i].0@ == "mult"@);
            } else {
                let i = choose|i: int|
                    0 <= i < fewer.len() && counts_devices(module, (#[trigger] fewer[i]).0@)
                        && !fewer[i].1.positive_finite();
                assert(line[i] == fewer[i]);
            }
        } else {
            let last = line.last();
            lemma_counts_devices(module, last.0@);
            assert(line[line.len() - 1] == last);
            assert(multiplicity_fault(module, last) is Some);
            if last.0@ == "mult"@ && module.declares("mult"@) {
                let k = choose|k: int|
                    0 <= k < module.params@.len() && #[trigger] module.params@[k].name@ == "mult"@;
                assert(module.params@[k].name@ == "mult"@);
                assert(has_param(module, "mult"@));
            }
        }
    }
}

proof fn lemma_settable(module: Module, setting: (String, Real))
    requires
        !counts_devices(module, setting.0@),
    ensures
        is_settable(module, setting) == can_set(module, setting.0@),
{
    let k = first_param(module.params@, setting.0@);
    if can_set(module, setting.0@) {
        lemma_first_where_holds(module.params@, is_param_named(setting.0@));
        lemma_first_named(module, setting.0@, k);
        assert(sets_param(module, setting, k));
    }
    if is_settable(module, setting) {
        let j = choose|j: int| #[trigger]
            sets_param(module, setting, j) && !module.params@[j].is_local;
        lemma_first_named(module, setting.0@, j);
    }
}

proof fn lemma_named(module: Module, line: Seq<(String, Real)>)
    ensures
        all_settable(module, parameters_of(module, line)) <==> forall|i: int|
            0 <= i < line.len() && !counts_devices(module, (#[trigger] line[i]).0@) ==> is_settable(
                module,
                line[i],
            ),
    decreases line.len(),
{
    let named = parameters_of(module, line);
    if line.len() > 0 {
        let fewer = line.drop_last();
        let before = parameters_of(module, fewer);
        let last = line.last();
        lemma_named(module, fewer);
        lemma_counts_devices(module, last.0@);
        assert(line[line.len() - 1] == last);
        if !counts_devices(module, last.0@) {
            lemma_settable(module, last);
            assert(named[named.len() - 1] == last);
        }
        if all_settable(module, named) {
            assert forall|i: int| 0 <= i < before.len() implies can_set(
                module,
                #[trigger] before[i].0@,
            ) by {
                assert(named[i] == before[i]);
            }
            assert forall|i: int|
                0 <= i < line.len() && !counts_devices(
                    module,
                    (#[trigger] line[i]).0@,
                ) implies is_settable(module, line[i]) by {
                if i < line.len() - 1 {
                    assert(fewer[i] == line[i]);
                } else {
                    assert(can_set(module, named[named.len() - 1].0@));
                }
            }
        }
        if forall|i: int|
            0 <= i < line.len() && !counts_devices(module, (#[trigger] line[i]).0@) ==> is_settable(
                module,
                line[i],
            ) {
            assert forall|i: int|
                0 <= i < fewer.len() && !counts_devices(
                    module,
                    (#[trigger] fewer[i]).0@,
                ) implies is_settable(module, fewer[i]) by {
                assert(fewer[i] == line[i]);
            }
            assert(all_settable(module, before));
            assert forall|i: int| 0 <= i < named.len() implies can_set(
                module,
                #[trigger] named[i].0@,
            ) by {
                if i < before.len() {
                    assert(named[i] == before[i]);
                    assert(can_set(module, before[i].0@));
                } else {
                    assert(is_settable(module, line[line.len() - 1]));
                }
            }
        }
    }
}

/// A refused line is told what is wrong with it: the setting, the value or the count that
/// is at fault, of the model that it names.
pub proof fn a_refused_line_is_told_why(
    module: &Module,
    value: Option<Real>,
    line: &Vec<(String, Real)>,
    terminals: &Vec<usize>,
    next: usize,
    e: BuildError,
)
    requires
        module.well_formed(),
        call_ensures(build_from_model, (module, value, line, terminals, next), Err(e)),
    ensures
        match e {
            BuildError::AmbiguousMultiplicity { model } => model == module.name && has_param(
                *module,
                "mult"@,
            ) && is_named_on(line@, "mult"@),
            BuildError::BadMultiplicity { name, value: given } => counts_devices(*module, name@)
                && !given.positive_finite() && line@.contains((name, given)),
            BuildError::LocalParameter { model, name } => model == module.name
                && is_local_param(*module, name@) && ((value is Some && name
                == module.params@[0].name) || is_named_on(line@, name@)),
            BuildError::UnknownParameter { model, name, known } => {
                &&& model == module.name
                &&& !has_param(*module, name@)
                &&& is_named_on(line@, name@)
                &&& forall|p: Seq<char>| #[trigger]
                    texts(known@).contains(p) <==> has_param(*module, p)
            },
            BuildError::TooManyTerminals { model, declared, connected } => model == module.name
                && declared == pins(module.ports@).len() && connected == terminals@.len()
                && connected > declared,
            BuildError::PartialPort { model, connected, width, port } => {
                &&& model == module.name
                &&& connected == terminals@.len()
                &&& 1 <= port <= module.ports@.len()
                &&& width == module.ports@[port - 1]@.len()
                &&& pins_before(*module, port - 1) < connected < pins_before(*module, port - 1) + width
            },
            BuildError::RequiredPort { model, declared, connected, port, node } => {
                &&& model == module.name
                &&& declared == pins(module.ports@).len()
                &&& connected == terminals@.len()
                &&& 1 <= port <= module.ports@.len()
                &&& has_no_pin(*module, terminals@.len() as int, port - 1)
                &&& module.ports@[port - 1]@.len() > 0
                &&& !module.queried_ports@.contains((port - 1) as usize)
                &&& node == module.nodes@[module.ports@[port - 1]@[0] as int].name
            },
            _ => false,
        },
{
    let m = *module;
    let t = terminals@.len() as int;
    let named = parameters_of(m, line@);
    lemma_pins(module.ports@);
    assert(terminals.len() == t);
    assert(module.ports.len() == module.ports@.len());
    if first_multiplicity_fault(m, line@) is Some {
        lemma_fault_told(m, line@);
    } else if !value_settable(m, value) || !all_settable(m, named) {
        if !value_settable(m, value) {
            assert(module.params@[0].is_local);
            assert(is_local_param(m, module.params@[0].name@));
        } else {
            let i = choose|i: int|
                {
                    &&& 0 <= i < named.len()
                    &&& !can_set(m, named[i].0@)
                    &&& all_settable(m, named.subrange(0, i))
                    &&& #[trigger] is_setting_error(m, named[i].0, e)
                };
            lemma_named_on(m, line@, i);
            let name = named[i].0;
            let k = first_param(module.params@, name@);
            lemma_first_where_holds(module.params@, is_param_named(name@));
            if k < module.params@.len() {
                lemma_first_named(m, name@, k);
                assert(module.params@[k].name@ == name@);
                assert(is_local_param(m, name@));
            } else {
                assert forall|j: int| 0 <= j < module.params@.len() implies (
                #[trigger] module.params@[j]).name@ != name@ by {
                    assert(!is_param_named(name@)(module.params@[j]));
                }
                if let BuildError::UnknownParameter { known, .. } = e {
                    lemma_known(m, texts(known@));
                }
            }
        }
    } else if t <= port_width(module.ports@, module.ports@.len() as int) {
        let i = choose|i: int|
            {
                &&& 0 <= i < module.ports@.len()
                &&& !port_allowed(m, t, i)
                &&& forall|j: int| 0 <= j < i ==> #[trigger] port_allowed(m, t, j)
                &&& e == #[trigger] port_error(m, t, i)
            };
        lemma_pins_before(m, i);
        assert(module.ports@[i].len() == module.ports@[i]@.len());
    }
}

/// What is wrong with a line that places a model is its multiplicity, a setting or its
/// terminals.
pub proof fn lemma_placement_error(
    module: Module,
    value: Option<Real>,
    settings: Seq<(String, Real)>,
    terminals: int,
    e: BuildError,
)
    requires
        is_placement_error(module, value, settings, terminals, e),
    ensures
        e is AmbiguousMultiplicity || e is BadMultiplicity || e is LocalParameter
            || e is UnknownParameter || e is TooManyTerminals || e is PartialPort
            || e is RequiredPort,
{
    if first_multiplicity_fault(module, settings) is Some {
        lemma_fault_told(module, settings);
    }
}

/// Some setting of the line has this name.
pub open spec fn is_named_on(line: Seq<(String, Real)>, name: Seq<char>) -> bool {
    exists|i: int| 0 <= i < line.len() && (#[trigger] line[i]).0@ == name
}

/// The model has a local parameter of this name.
pub open spec fn is_local_param(module: Module, name: Seq<char>) -> bool {
    exists|k: int|
        0 <= k < module.params@.len() && (#[trigger] module.params@[k]).name@ == name
            && module.params@[k].is_local
}

proof fn lemma_fault_told(module: Module, line: Seq<(String, Real)>)
    requires
        first_multiplicity_fault(module, line) is Some,
    ensures
        match first_multiplicity_fault(module, line)->0 {
            BuildError::AmbiguousMultiplicity { model } => model == module.name && has_param(
                module,
                "mult"@,
            ) && is_named_on(line, "mult"@),
            BuildError::BadMultiplicity { name, value: given } => counts_devices(module, name@)
                && !given.positive_finite() && line.contains((name, given)),
            _ => false,
        },
    decreases line.len(),
{
    if line.len() > 0 {
        let fewer = line.drop_last();
        if first_multiplicity_fault(module, fewer) is Some {
            lemma_fault_told(module, fewer);
            match first_multiplicity_fault(module, fewer)->0 {
                BuildError::AmbiguousMultiplicity { .. } => {
                    let i = choose|i: int| 0 <= i < fewer.len() && (#[trigger] fewer[i]).0@ == "mult"@;
                    assert(line[i].0@ == "mult"@);
                },
                BuildError::BadMultiplicity { name, value: given } => {
                    let i = choose|i: int| 0 <= i < fewer.len() && fewer[i] == (name, given);
                    assert(line[i] == (name, given));
                },
                _ => {},
            }
        } else {
            let last = line.last();
            assert(line[line.len() - 1] == last);
            lemma_counts_devices(module, last.0@);
            assert(multiplicity_fault(module, last) is Some);
            assert(line.contains((last.0, last.1)));
            if last.0@ == "mult"@ && module.declares("mult"@) {
                let k = choose|k: int|
                    0 <= k < module.params@.len() && #[trigger] module.params@[k].name@ == "mult"@;
                assert(module.params@[k].name@ == "mult"@);
            }
        }
    }
}

proof fn lemma_named_on(module: Module, line: Seq<(String, Real)>, i: int)
    requires
        0 <= i < parameters_of(module, line).len(),
    ensures
        is_named_on(line, parameters_of(module, line)[i].0@),
    decreases line.len(),
{
    if line.len() > 0 {
        let fewer = line.drop_last();
        let before = parameters_of(module, fewer);
        if i < before.len() {
            lemma_named_on(module, fewer, i);
            let name = before[i].0@;
            let j = choose|j: int| 0 <= j < fewer.len() && (#[trigger] fewer[j]).0@ == name;
            assert(line[j].0@ == name);
        } else {
            assert(line[line.len() - 1].0@ == parameters_of(module, line)[i].0@);
        }
    }
}

proof fn lemma_known(module: Module, known: Seq<Seq<char>>)
    requires
        is_sorting_of(known, param_names(module)),
    ensures
        forall|p: Seq<char>| #[trigger] known.contains(p) <==> has_param(module, p),
{
    let names = param_names(module);
    names.to_multiset_ensures();
    known.to_multiset_ensures();
    assert forall|p: Seq<char>| #[trigger] known.contains(p) <==> has_param(module, p) by {
        assert(known.contains(p) <==> known.to_multiset().count(p) > 0);
        assert(names.contains(p) <==> names.to_multiset().count(p) > 0);
        if names.contains(p) {
            let k = choose|k: int| 0 <= k < names.len() && names[k] == p;
            assert(module.params@[k].name@ == p);
        }
        if has_param(module, p) {
            let k = choose|k: int|
                0 <= k < module.params@.len() && (#[trigger] module.params@[k]).name@ == p;
            assert(names[k] == p);
        }
    }
}

/// A model is told to be well formed exactly if every pin is one of its nodes and the pins
/// can be counted.
pub proof fn a_well_formed_model_has_its_pins(module: &Module, r: bool)
    requires
        call_ensures(Module::is_well_formed, (module,), r),
    ensures
        r <==> pins(module.ports@).len() <= usize::MAX && forall|i: int, j: int|
            0 <= i < module.ports@.len() && 0 <= j < module.ports@[i]@.len()
                ==> #[trigger] module.ports@[i]@[j] < module.nodes@.len(),
{
    lemma_pins(module.ports@);
}

/// The setting is at fault as a multiplicity: it is `mult=` where the model has a parameter
/// of that name, or says how many devices there are with a number that is none.
pub open spec fn miscounts(module: Module, setting: (String, Real)) -> bool {
    (setting.0@ == "mult"@ && has_param(module, "mult"@)) || (counts_devices(module, setting.0@)
        && !setting.1.positive_finite())
}

proof fn lemma_miscounts(module: Module, setting: (String, Real))
    ensures
        miscounts(module, setting) == (multiplicity_fault(module, setting) is Some),
{
    lemma_counts_devices(module, setting.0@);
    assert(has_param(module, "mult"@) == module.declares("mult"@)) by {
        if has_param(module, "mult"@) {
            let k = choose|k: int|
                0 <= k < module.params@.len() && (#[trigger] module.params@[k]).name@ == "mult"@;
            assert(module.params@[k].name@ == "mult"@);
        }
        if module.declares("mult"@) {
            let k = choose|k: int|
                0 <= k < module.params@.len() && #[trigger] module.params@[k].name@ == "mult"@;
            assert(module.params@[k].name@ == "mult"@);
        }
    }
}

proof fn lemma_first_miscount(module: Module, line: Seq<(String, Real)>) -> (i: int)
    requires
        first_multiplicity_fault(module, line) is Some,
    ensures
        0 <= i < line.len(),
        miscounts(module, line[i]),
        forall|j: int| 0 <= j < i ==> !miscounts(module, #[trigger] line[j]),
        first_multiplicity_fault(module, line) == multiplicity_fault(module, line[i]),
    decreases line.len(),
{
    let fewer = line.drop_last();
    if first_multiplicity_fault(module, fewer) is Some {
        let i = lemma_first_miscount(module, fewer);
        assert(line[i] == fewer[i]);
        assert forall|j: int| 0 <= j < i implies !miscounts(module, #[trigger] line[j]) by {
            assert(fewer[j] == line[j]);
        }
        i
    } else {
        lemma_miscounts(module, line.last());
        let i = line.len() - 1;
        assert forall|j: int| 0 <= j < i implies !miscounts(module, #[trigger] line[j]) by {
            lemma_no_miscount(module, fewer, j);
            assert(fewer[j] == line[j]);
        }
        i
    }
}

proof fn lemma_no_miscount(module: Module, line: Seq<(String, Real)>, j: int)
    requires
        first_multiplicity_fault(module, line) is None,
        0 <= j < line.len(),
    ensures
        !miscounts(module, line[j]),
    decreases line.len(),
{
    if j == line.len() - 1 {
        lemma_miscounts(module, line.last());
    } else {
        lemma_no_miscount(module, line.drop_last(), j);
    }
}

/// Of several things that are wrong with a line the first is told: a multiplicity before a
/// setting and that before the terminals, and of several multiplicities the first on the
/// line.
pub proof fn faults_are_told_in_order(
    module: &Module,
    value: Option<Real>,
    line: &Vec<(String, Real)>,
    terminals: &Vec<usize>,
    next: usize,
    e: BuildError,
) -> (i: int)
    requires
        call_ensures(build_from_model, (module, value, line, terminals, next), Err(e)),
    ensures
        e is AmbiguousMultiplicity || e is BadMultiplicity ==> {
            &&& 0 <= i < line@.len()
            &&& miscounts(*module, line@[i])
            &&& forall|j: int| 0 <= j < i ==> !miscounts(*module, #[trigger] line@[j])
            &&& e is AmbiguousMultiplicity <==> line@[i].0@ == "mult"@ && has_param(*module, "mult"@)
            &&& e matches BuildError::BadMultiplicity { name, value: given } ==> line@[i] == (
                name,
                given,
            )
        },
        !(e is AmbiguousMultiplicity || e is BadMultiplicity) ==> forall|j: int|
            0 <= j < line@.len() ==> !miscounts(*module, #[trigger] line@[j]),
        e is TooManyTerminals || e is PartialPort || e is RequiredPort ==> {
            &&& value is Some && module.params@.len() > 0 ==> !module.params@[0].is_local
            &&& forall|j: int|
                0 <= j < line@.len() && !counts_devices(*module, (#[trigger] line@[j]).0@)
                    ==> is_settable(*module, line@[j])
        },
{
    let m = *module;
    let t = terminals@.len() as int;
    lemma_placement_error(m, value, line@, t, e);
    if first_multiplicity_fault(m, line@) is Some {
        lemma_fault_told(m, line@);
        let i = lemma_first_miscount(m, line@);
        lemma_miscounts(m, line@[i]);
        assert(has_param(m, "mult"@) == m.declares("mult"@)) by {
            if has_param(m, "mult"@) {
                let k = choose|k: int|
                    0 <= k < m.params@.len() && (#[trigger] m.params@[k]).name@ == "mult"@;
                assert(m.params@[k].name@ == "mult"@);
            }
            if m.declares("mult"@) {
                let k = choose|k: int|
                    0 <= k < m.params@.len() && #[trigger] m.params@[k].name@ == "mult"@;
                assert(m.params@[k].name@ == "mult"@);
            }
        }
        i
    } else {
        assert forall|j: int| 0 <= j < line@.len() implies !miscounts(m, #[trigger] line@[j]) by {
            lemma_no_miscount(m, line@, j);
        }
        lemma_named(m, line@);
        0
    }
}

} // verus!
