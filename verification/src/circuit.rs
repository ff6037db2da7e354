//! Building a whole circuit: which unknown each device claims, and which quantity
//! stands for each unknown.
use crate::assembly::{
    is_compiled, lemma_claims_prefix, lemma_coupling_claims, not_waiting, same_claims_made, waited,
    Assembly,
};
use crate::device::{
    has_terminals, is_deferred, is_plan, lemma_claim_bound, model_index, most_claimed,
    value_or_zero, Part,
};
use crate::netlist::{Device, Module, Netlist, NodeDecl};
use crate::number::Real;
use crate::place::BuildError;
use crate::quantity::{
    auxiliary_row, auxiliary_view, branch_current, current_view, potential, potential_view, views,
    Quantity, QuantityView,
};
use crate::search::{first_where, lemma_first_where, lemma_first_where_holds};
use crate::text::same_text;
use vstd::prelude::*;

verus! {

// ---- devices that couple to others ----------------------------------------

/// Being the branch current of this name.
pub open spec fn is_named(name: Seq<char>) -> spec_fn((String, usize)) -> bool {
    |c: (String, usize)| c.0@ == name
}

/// The place of the first branch current of this name.
pub open spec fn current_index(currents: Seq<(String, usize)>, name: Seq<char>) -> int {
    first_where(currents, is_named(name))
}

/// Being an inductor of this name.
pub open spec fn is_inductor_named(name: Seq<char>) -> spec_fn(Device) -> bool {
    |d: Device| d.name@ == name && d.model@ == "inductor"@
}

/// The place of the first inductor of this name.
pub open spec fn inductor_index(devices: Seq<Device>, name: Seq<char>) -> int {
    first_where(devices, is_inductor_named(name))
}

/// The branch and the inductance of the inductor that a coupling names.
pub open spec fn inductor_of(
    dev: Device,
    devices: Seq<Device>,
    currents: Seq<(String, usize)>,
    name: String,
) -> Result<(usize, Real), BuildError> {
    let d = inductor_index(devices, name@);
    let c = current_index(currents, name@);
    if d >= devices.len() {
        Err(BuildError::NotAnInductor { device: dev.name, element: name })
    } else if c >= currents.len() {
        Err(BuildError::NoBranchRow { element: name })
    } else {
        Ok((currents[c].1, value_or_zero(devices[d])))
    }
}

/// The first element that the device names has a branch current to sense.
pub open spec fn senses(dev: Device, currents: Seq<(String, usize)>) -> bool {
    dev.controls@.len() > 0 && current_index(currents, dev.controls@[0]@) < currents.len()
}

/// A current-controlled source has two terminals where the element it names is found.
pub open spec fn has_coupling_terminals(dev: Device, currents: Seq<(String, usize)>) -> bool {
    dev.model@ != "mutual"@ && senses(dev, currents) ==> dev.terminals@.len() >= 2
}

/// What a device builds that couples to elements with a branch current.
pub open spec fn coupling_plan(
    dev: Device,
    devices: Seq<Device>,
    currents: Seq<(String, usize)>,
    next: int,
) -> Result<Part, BuildError> {
    let names = dev.controls@;
    if dev.model@ == "mutual"@ {
        if names.len() != 2 {
            Err(BuildError::CouplingArity { device: dev.name })
        } else {
            match inductor_of(dev, devices, currents, names[0]) {
                Err(e) => Err(e),
                Ok((first, l1)) => match inductor_of(dev, devices, currents, names[1]) {
                    Err(e) => Err(e),
                    Ok((second, l2)) => if first == second {
                        Err(BuildError::SelfCoupling { device: dev.name, element: names[0] })
                    } else {
                        Ok(Part::Mutual { first, second, l1, l2, coupling: value_or_zero(dev) })
                    },
                },
            }
        }
    } else if names.len() == 0 {
        Err(BuildError::NoControl { device: dev.name })
    } else {
        let c = current_index(currents, names[0]@);
        let p = dev.terminals@[0];
        let n = dev.terminals@[1];
        if c >= currents.len() {
            Err(BuildError::ControlWithoutCurrent { device: dev.name, element: names[0] })
        } else if dev.model@ == "cccs"@ {
            Ok(Part::Cccs { p, n, control: currents[c].1, gain: value_or_zero(dev) })
        } else {
            Ok(
                Part::Ccvs {
                    p,
                    n,
                    control: currents[c].1,
                    branch: next as usize,
                    gain: value_or_zero(dev),
                },
            )
        }
    }
}

/// The place of the first branch current of this name; the number of them where
/// there is none.
pub fn find_current(currents: &Vec<(String, usize)>, name: &str) -> (r: usize)
    ensures
        r == current_index(currents@, name@),
        r <= currents@.len(),
{
    let mut k: usize = 0;
    while k < currents.len() && !same_text(currents[k].0.as_str(), name)
        invariant
            k <= currents@.len(),
            forall|j: int| 0 <= j < k ==> (#[trigger] currents@[j]).0@ != name@,
        decreases currents@.len() - k,
    {
        k += 1;
    }
    proof {
        lemma_first_where(currents@, is_named(name@), k as int);
    }
    k
}

fn find_inductor(
    dev: &Device,
    devices: &Vec<Device>,
    currents: &Vec<(String, usize)>,
    name: &String,
) -> (r: Result<(usize, Real), BuildError>)
    ensures
        r == inductor_of(*dev, devices@, currents@, *name),
{
    let mut d: usize = 0;
    while d < devices.len() && !(same_text(devices[d].name.as_str(), name.as_str()) && same_text(
        devices[d].model.as_str(),
        "inductor",
    ))
        invariant
            d <= devices@.len(),
            forall|j: int|
                0 <= j < d ==> !((#[trigger] devices@[j]).name@ == name@ && devices@[j].model@
                    == "inductor"@),
        decreases devices@.len() - d,
    {
        d += 1;
    }
    proof {
        lemma_first_where(devices@, is_inductor_named(name@), d as int);
    }
    if d == devices.len() {
        return Err(
            BuildError::NotAnInductor { device: dev.name.clone(), element: name.clone() },
        );
    }
    let c = find_current(currents, name.as_str());
    if c == currents.len() {
        return Err(BuildError::NoBranchRow { element: name.clone() });
    }
    let inductance = match devices[d].value {
        Some(v) => v,
        None => Real::zero(),
    };
    Ok((currents[c].1, inductance))
}

/// Builds a device that couples to elements which already have their branch rows.
pub fn couple(
    dev: &Device,
    devices: &Vec<Device>,
    currents: &Vec<(String, usize)>,
    next_unknown: usize,
) -> (r: Result<Part, BuildError>)
    requires
        has_coupling_terminals(*dev, currents@),
    ensures
        r == coupling_plan(*dev, devices@, currents@, next_unknown as int),
{
    let value = match dev.value {
        Some(v) => v,
        None => Real::zero(),
    };
    if same_text(dev.model.as_str(), "mutual") {
        if dev.controls.len() != 2 {
            return Err(BuildError::CouplingArity { device: dev.name.clone() });
        }
        let (first, l1) = match find_inductor(dev, devices, currents, &dev.controls[0]) {
            Ok(found) => found,
            Err(e) => {
                return Err(e);
            },
        };
        let (second, l2) = match find_inductor(dev, devices, currents, &dev.controls[1]) {
            Ok(found) => found,
            Err(e) => {
                return Err(e);
            },
        };
        if first == second {
            return Err(
                BuildError::SelfCoupling {
                    device: dev.name.clone(),
                    element: dev.controls[0].clone(),
                },
            );
        }
        return Ok(Part::Mutual { first, second, l1, l2, coupling: value });
    }
    if dev.controls.len() == 0 {
        return Err(BuildError::NoControl { device: dev.name.clone() });
    }
    let c = find_current(currents, dev.controls[0].as_str());
    if c == currents.len() {
        return Err(
            BuildError::ControlWithoutCurrent {
                device: dev.name.clone(),
                element: dev.controls[0].clone(),
            },
        );
    }
    let p = dev.terminals[0];
    let n = dev.terminals[1];
    let control = currents[c].1;
    if same_text(dev.model.as_str(), "cccs") {
        Ok(Part::Cccs { p, n, control, gain: value })
    } else {
        Ok(Part::Ccvs { p, n, control, branch: next_unknown, gain: value })
    }
}

// ---- the unknowns claimed so far ------------------------------------------

/// The unknowns that the devices built so far have claimed, and what is known of them.
#[derive(Debug)]
pub struct Builder {
    /// The first unknown not yet claimed.
    pub next_unknown: usize,
    /// For each net of the deck what the first model attached to it declares.
    pub node_decls: Vec<Option<NodeDecl>>,
    /// The named branch currents, in the order in which they were claimed.
    pub currents: Vec<(String, usize)>,
    /// What compiled models introduced of their own.
    pub internal: Vec<Quantity>,
}

/// What a [`Builder`] says.
#[verifier::ext_equal]
pub struct BuilderView {
    pub next: int,
    pub node_decls: Seq<Option<NodeDecl>>,
    pub currents: Seq<(String, usize)>,
    pub internal: Seq<QuantityView>,
}

impl View for Builder {
    type V = BuilderView;

    open spec fn view(&self) -> BuilderView {
        BuilderView {
            next: self.next_unknown as int,
            node_decls: self.node_decls@,
            currents: self.currents@,
            internal: views(self.internal@),
        }
    }
}

/// Before any device is built only the nets have unknowns.
pub open spec fn nothing_built(nets: nat) -> BuilderView {
    BuilderView {
        next: nets as int,
        node_decls: Seq::new(nets, |i: int| None),
        currents: Seq::empty(),
        internal: Seq::empty(),
    }
}

/// The node declarations of the model that a part places.
pub open spec fn part_decls(part: Part, compiled: Seq<Module>) -> Seq<NodeDecl> {
    match part {
        Part::Compiled { module, .. } => compiled[module as int].nodes@,
        _ => Seq::empty(),
    }
}

/// The place of the first node with the unknown `g`.
pub open spec fn node_at(nodes: Seq<usize>, g: int) -> int {
    first_where(nodes, |x: usize| x == g)
}

/// What the nets know of their disciplines after a model with these nodes is
/// attached: the first model to declare one wins.
pub open spec fn declared(
    before: Seq<Option<NodeDecl>>,
    nodes: Seq<usize>,
    decls: Seq<NodeDecl>,
) -> Seq<Option<NodeDecl>> {
    Seq::new(
        before.len(),
        |g: int|
            {
                let k = node_at(nodes, g);
                if before[g] is None && k < nodes.len() {
                    Some(decls[k])
                } else {
                    before[g]
                }
            },
    )
}

/// The potentials of the first `upto` nodes that have their own unknown in
/// `[from, to)`, named after the device.
pub open spec fn internal_potentials(
    device: Seq<char>,
    nodes: Seq<usize>,
    decls: Seq<NodeDecl>,
    from: int,
    to: int,
    upto: int,
) -> Seq<QuantityView>
    decreases upto,
{
    if upto <= 0 {
        Seq::empty()
    } else {
        let before = internal_potentials(device, nodes, decls, from, to, upto - 1);
        let g = nodes[upto - 1];
        if from <= g < to {
            before.push(
                potential_view(
                    Some(decls[upto - 1]),
                    device + "."@ + decls[upto - 1].name@,
                    g,
                ),
            )
        } else {
            before
        }
    }
}

/// The rows in `[from, to)` that belong neither to a node nor to the device's own
/// current, numbered within the device.
pub open spec fn auxiliary_rows(
    device: Seq<char>,
    nodes: Seq<usize>,
    branch: Option<usize>,
    from: int,
    to: int,
) -> Seq<QuantityView>
    decreases to - from,
{
    if to <= from {
        Seq::empty()
    } else {
        let before = auxiliary_rows(device, nodes, branch, from, to - 1);
        let g = (to - 1) as usize;
        if nodes.contains(g) || branch == Some(g) {
            before
        } else {
            before.push(auxiliary_view(device, before.len(), g))
        }
    }
}

/// What is known after a device is built and its model has claimed every unknown
/// below `end`.
pub open spec fn recorded(
    s: BuilderView,
    dev: Device,
    compiled: Seq<Module>,
    part: Part,
    end: int,
) -> BuilderView {
    let nodes = part.model_nodes();
    let decls = part_decls(part, compiled);
    BuilderView {
        next: end,
        node_decls: declared(s.node_decls, nodes, decls),
        currents: match part.own_branch() {
            Some(branch) => s.currents.push((dev.name, branch)),
            None => s.currents,
        },
        internal: s.internal + internal_potentials(
            dev.name@,
            nodes,
            decls,
            s.next,
            end,
            nodes.len() as int,
        ) + auxiliary_rows(dev.name@, nodes, part.own_branch(), s.next, end),
    }
}

impl Part {
    /// The part's nodes are those of a model in the library.
    pub open spec fn fits(self, compiled: Seq<Module>) -> bool {
        match self {
            Part::Compiled { module, placement } => {
                &&& module < compiled.len()
                &&& placement.nodes@.len() == compiled[module as int].nodes@.len()
            },
            _ => true,
        }
    }
}

fn holds_row(rows: &Vec<usize>, g: usize) -> (r: bool)
    ensures
        r == rows@.contains(g),
{
    let mut k: usize = 0;
    while k < rows.len()
        invariant
            k <= rows@.len(),
            forall|j: int| 0 <= j < k ==> rows@[j] != g,
        decreases rows@.len() - k,
    {
        if rows[k] == g {
            return true;
        }
        k += 1;
    }
    false
}

impl Builder {
    /// Before any device is built only the nets have unknowns.
    pub fn new(nets: usize) -> (r: Builder)
        ensures
            r@ == nothing_built(nets as nat),
    {
        let mut node_decls: Vec<Option<NodeDecl>> = Vec::new();
        let mut i: usize = 0;
        while i < nets
            invariant
                i <= nets,
                node_decls@.len() == i,
                forall|j: int| 0 <= j < i ==> #[trigger] node_decls@[j] is None,
            decreases nets - i,
        {
            node_decls.push(None);
            i += 1;
        }
        let r = Builder {
            next_unknown: nets,
            node_decls,
            currents: Vec::new(),
            internal: Vec::new(),
        };
        assert(r@ =~= nothing_built(nets as nat));
        r
    }

    fn declare_nodes(&mut self, nodes: &Vec<usize>, decls: &Vec<NodeDecl>)
        requires
            nodes@.len() == decls@.len(),
        ensures
            final(self).next_unknown == old(self).next_unknown,
            final(self).currents == old(self).currents,
            final(self).internal == old(self).internal,
            final(self).node_decls@ == declared(old(self).node_decls@, nodes@, decls@),
    {
        let ghost start = self.node_decls@;
        let mut j: usize = 0;
        proof {
            assert forall|g: int| 0 <= #[trigger] node_at(nodes@, g) by {
                crate::search::lemma_first_where_holds(nodes@, |x: usize| x == g);
            }
        }
        while j < nodes.len()
            invariant
                nodes@.len() == decls@.len(),
                j <= nodes@.len(),
                self.next_unknown == old(self).next_unknown,
                self.currents == old(self).currents,
                self.internal == old(self).internal,
                start == old(self).node_decls@,
                self.node_decls@.len() == start.len(),
                forall|g: int|
                    0 <= g < start.len() ==> #[trigger] self.node_decls@[g] == (if start[g] is None
                        && node_at(nodes@, g) < j {
                        Some(decls@[node_at(nodes@, g)])
                    } else {
                        start[g]
                    }),
            decreases nodes@.len() - j,
        {
            let g = nodes[j];
            proof {
                assert forall|h: int| 0 <= h < start.len() implies (#[trigger] node_at(nodes@, h)
                    == j ==> nodes@[j as int] == h) && (nodes@[j as int] == h ==> node_at(nodes@, h)
                    <= j) by {
                    crate::search::lemma_first_where_holds(nodes@, |x: usize| x == h);
                    if nodes@[j as int] == h && node_at(nodes@, h) > j {
                        assert((|x: usize| x == h)(nodes@[j as int]));
                    }
                }
            }
            if g < self.node_decls.len() {
                if self.node_decls[g].is_none() {
                    self.node_decls.set(g, Some(decls[j].copy()));
                }
            }
            j += 1;
        }
        proof {
            assert forall|g: int| 0 <= g < start.len() implies #[trigger] self.node_decls@[g]
                == declared(start, nodes@, decls@)[g] by {
                crate::search::lemma_first_where_holds(nodes@, |x: usize| x == g);
            }
            assert(self.node_decls@ =~= declared(start, nodes@, decls@));
        }
    }

    fn name_nodes(
        &mut self,
        device: &String,
        nodes: &Vec<usize>,
        decls: &Vec<NodeDecl>,
        end: usize,
    )
        requires
            nodes@.len() == decls@.len(),
        ensures
            final(self).next_unknown == old(self).next_unknown,
            final(self).currents == old(self).currents,
            final(self).node_decls == old(self).node_decls,
            views(final(self).internal@) == views(old(self).internal@) + internal_potentials(
                device@,
                nodes@,
                decls@,
                old(self).next_unknown as int,
                end as int,
                nodes@.len() as int,
            ),
    {
        let ghost start = views(self.internal@);
        let from = self.next_unknown;
        let mut j: usize = 0;
        assert(views(self.internal@) =~= start + internal_potentials(
            device@,
            nodes@,
            decls@,
            from as int,
            end as int,
            0,
        ));
        while j < nodes.len()
            invariant
                nodes@.len() == decls@.len(),
                j <= nodes@.len(),
                from == old(self).next_unknown,
                self.next_unknown == old(self).next_unknown,
                self.currents == old(self).currents,
                self.node_decls == old(self).node_decls,
                views(self.internal@) == start + internal_potentials(
                    device@,
                    nodes@,
                    decls@,
                    from as int,
                    end as int,
                    j as int,
                ),
            decreases nodes@.len() - j,
        {
            let g = nodes[j];
            if g >= from && g < end {
                let mut name = device.clone();
                name.append(".");
                name.append(decls[j].name.as_str());
                let decl = Some(decls[j].copy());
                let q = potential(&decl, name, g);
                let ghost before = self.internal@;
                self.internal.push(q);
                assert(views(self.internal@) =~= views(before).push(q@));
            }
            j += 1;
            assert(views(self.internal@) =~= start + internal_potentials(
                device@,
                nodes@,
                decls@,
                from as int,
                end as int,
                j as int,
            ));
        }
    }

    fn name_auxiliary_rows(
        &mut self,
        device: &String,
        nodes: &Vec<usize>,
        branch: Option<usize>,
        end: usize,
    )
        requires
            old(self).next_unknown <= end,
        ensures
            final(self).next_unknown == end,
            final(self).currents == old(self).currents,
            final(self).node_decls == old(self).node_decls,
            views(final(self).internal@) == views(old(self).internal@) + auxiliary_rows(
                device@,
                nodes@,
                branch,
                old(self).next_unknown as int,
                end as int,
            ),
    {
        let ghost start = views(self.internal@);
        let from = self.next_unknown;
        let mut g: usize = from;
        let mut k: usize = 0;
        assert(views(self.internal@) =~= start + auxiliary_rows(
            device@,
            nodes@,
            branch,
            from as int,
            from as int,
        ));
        while g < end
            invariant
                from <= g <= end,
                k <= g - from,
                k == auxiliary_rows(device@, nodes@, branch, from as int, g as int).len(),
                from == old(self).next_unknown,
                self.next_unknown == old(self).next_unknown,
                self.currents == old(self).currents,
                self.node_decls == old(self).node_decls,
                views(self.internal@) == start + auxiliary_rows(
                    device@,
                    nodes@,
                    branch,
                    from as int,
                    g as int,
                ),
            decreases end - g,
        {
            let own = match branch {
                Some(b) => b == g,
                None => false,
            };
            if !own && !holds_row(nodes, g) {
                let q = auxiliary_row(device, k, g);
                let ghost before = self.internal@;
                self.internal.push(q);
                assert(views(self.internal@) =~= views(before).push(q@));
                k += 1;
            }
            g += 1;
            assert(views(self.internal@) =~= start + auxiliary_rows(
                device@,
                nodes@,
                branch,
                from as int,
                g as int,
            ));
        }
        self.next_unknown = end;
    }

    /// Records what a device was built into, once its model has claimed every
    /// unknown below `end`.
    pub fn record(&mut self, dev: &Device, compiled: &Vec<Module>, part: &Part, end: usize)
        requires
            part.fits(compiled@),
            old(self).next_unknown <= end,
        ensures
            final(self)@ == recorded(old(self)@, *dev, compiled@, *part, end as int),
    {
        let ghost start = self@;
        let branch = part.branch();
        match part {
            Part::Compiled { module, placement } => {
                self.declare_nodes(&placement.nodes, &compiled[*module].nodes);
                self.name_nodes(&dev.name, &placement.nodes, &compiled[*module].nodes, end);
                self.name_auxiliary_rows(&dev.name, &placement.nodes, branch, end);
            },
            _ => {
                let none: Vec<usize> = Vec::new();
                proof {
                    assert(none@ =~= part.model_nodes());
                    assert(self.node_decls@ =~= declared(
                        start.node_decls,
                        part.model_nodes(),
                        part_decls(*part, compiled@),
                    ));
                    assert(views(self.internal@) =~= start.internal + internal_potentials(
                        dev.name@,
                        part.model_nodes(),
                        part_decls(*part, compiled@),
                        start.next,
                        end as int,
                        0,
                    ));
                }
                self.name_auxiliary_rows(&dev.name, &none, branch, end);
            },
        }
        if let Some(b) = branch {
            self.currents.push((dev.name.clone(), b));
        }
        assert(self@ =~= recorded(start, *dev, compiled@, *part, end as int));
    }
}

// ---- quantities -----------------------------------------------------------

/// The quantities of a circuit: each net, each named branch current, then what
/// compiled models introduced of their own.
pub open spec fn reported(nets: Seq<String>, s: BuilderView) -> Seq<QuantityView> {
    Seq::new(nets.len(), |i: int| potential_view(s.node_decls[i], nets[i]@, i as usize))
        + s.currents.map_values(|c: (String, usize)| current_view(c.0@, c.1)) + s.internal
}

impl Builder {
    /// The quantities of the circuit, in the order of a report.
    pub fn quantities(self, nets: &Vec<String>) -> (r: Vec<Quantity>)
        requires
            self@.node_decls.len() == nets@.len(),
        ensures
            views(r@) == reported(nets@, self@),
    {
        let ghost all = reported(nets@, self@);
        let mut out: Vec<Quantity> = Vec::new();
        let mut i: usize = 0;
        while i < nets.len()
            invariant
                i <= nets@.len(),
                self@.node_decls.len() == nets@.len(),
                all == reported(nets@, self@),
                views(out@) =~= all.subrange(0, i as int),
            decreases nets@.len() - i,
        {
            let ghost before = views(out@);
            let q = potential(&self.node_decls[i], nets[i].clone(), i);
            out.push(q);
            assert(views(out@) =~= before.push(q@));
            assert(all[i as int] == q@);
            i += 1;
        }
        let mut k: usize = 0;
        while k < self.currents.len()
            invariant
                k <= self.currents@.len(),
                all == reported(nets@, self@),
                views(out@) =~= all.subrange(0, nets@.len() + k),
            decreases self.currents@.len() - k,
        {
            let ghost before = views(out@);
            let q = branch_current(&self.currents[k].0, self.currents[k].1);
            out.push(q);
            assert(views(out@) =~= before.push(q@));
            assert(all[nets@.len() + k] == q@);
            k += 1;
        }
        let mut internal = self.internal;
        let ghost before = out@;
        out.append(&mut internal);
        assert(views(out@) =~= views(before) + views(self.internal@));
        assert(views(out@) =~= all);
        out
    }
}

// ---- the whole circuit ----------------------------------------------------

/// A circuit with its unknowns.
#[derive(Debug)]
pub struct Built {
    /// For each device of the deck, in order, what it builds.
    pub parts: Vec<Part>,
    /// The number of unknowns.
    pub dim: usize,
    /// The named branch currents.
    pub currents: Vec<(String, usize)>,
    /// The quantities, in the order of a report.
    pub quantities: Vec<Quantity>,
}

/// The auxiliary rows that belong to a part: those its model claims, and none for
/// a primitive.
pub open spec fn extra_rows(part: Part, claimed: usize) -> int {
    if part is Compiled {
        claimed as int
    } else {
        0
    }
}

/// What is known after the first devices are built into `first`; a device that
/// waits has none. `claims` gives the auxiliary rows that each model claims.
pub open spec fn after_first(
    net: Netlist,
    compiled: Seq<Module>,
    claims: Seq<usize>,
    first: Seq<Option<Part>>,
) -> BuilderView
    decreases first.len(),
{
    if first.len() == 0 {
        nothing_built(net.node_order@.len())
    } else {
        let s = after_first(net, compiled, claims, first.drop_last());
        let i = first.len() - 1;
        match first.last() {
            None => s,
            Some(part) => recorded(
                s,
                net.devices@[i],
                compiled,
                part,
                part.end_of_claim(s.next) + extra_rows(part, claims[i]),
            ),
        }
    }
}

/// `first` is what the first devices build, in order.
pub open spec fn planned_first(
    net: Netlist,
    compiled: Seq<Module>,
    claims: Seq<usize>,
    first: Seq<Option<Part>>,
) -> bool
    decreases first.len(),
{
    if first.len() == 0 {
        true
    } else {
        let s = after_first(net, compiled, claims, first.drop_last());
        let dev = net.devices@[first.len() - 1];
        &&& planned_first(net, compiled, claims, first.drop_last())
        &&& match first.last() {
            None => is_deferred(dev.model@),
            Some(part) => !is_deferred(dev.model@) && is_plan(dev, compiled, s.next, Ok(part)),
        }
    }
}

/// What is known after the waiting ones among the first devices are built, too.
pub open spec fn after_second(
    net: Netlist,
    compiled: Seq<Module>,
    start: BuilderView,
    second: Seq<Option<Part>>,
) -> BuilderView
    decreases second.len(),
{
    if second.len() == 0 {
        start
    } else {
        let s = after_second(net, compiled, start, second.drop_last());
        match second.last() {
            None => s,
            Some(part) => recorded(
                s,
                net.devices@[second.len() - 1],
                compiled,
                part,
                part.end_of_claim(s.next),
            ),
        }
    }
}

/// `second` is what the waiting ones among the first devices build, in order.
pub open spec fn planned_second(
    net: Netlist,
    compiled: Seq<Module>,
    start: BuilderView,
    second: Seq<Option<Part>>,
) -> bool
    decreases second.len(),
{
    if second.len() == 0 {
        true
    } else {
        let s = after_second(net, compiled, start, second.drop_last());
        let dev = net.devices@[second.len() - 1];
        &&& planned_second(net, compiled, start, second.drop_last())
        &&& match second.last() {
            None => !is_deferred(dev.model@),
            Some(part) => is_deferred(dev.model@) && coupling_plan(
                dev,
                net.devices@,
                s.currents,
                s.next,
            ) == Ok::<Part, BuildError>(part),
        }
    }
}

/// The parts of the devices that do not wait.
pub open spec fn first_parts(net: Netlist, parts: Seq<Part>) -> Seq<Option<Part>> {
    Seq::new(
        parts.len(),
        |i: int|
            if is_deferred(net.devices@[i].model@) {
                None
            } else {
                Some(parts[i])
            },
    )
}

/// The parts of the devices that wait.
pub open spec fn second_parts(net: Netlist, parts: Seq<Part>) -> Seq<Option<Part>> {
    Seq::new(
        parts.len(),
        |i: int|
            if is_deferred(net.devices@[i].model@) {
                Some(parts[i])
            } else {
                None
            },
    )
}

impl Built {
    /// What is known once every device is built.
    pub open spec fn end_state(
        self,
        net: Netlist,
        compiled: Seq<Module>,
        claims: Seq<usize>,
    ) -> BuilderView {
        after_second(
            net,
            compiled,
            after_first(net, compiled, claims, first_parts(net, self.parts@)),
            second_parts(net, self.parts@),
        )
    }

    /// This is the deck's circuit: one part for each device, in the order of the
    /// deck, with the unknowns and the quantities that follow from them.
    pub open spec fn is_of(self, net: Netlist, compiled: Seq<Module>, claims: Seq<usize>) -> bool {
        let first = first_parts(net, self.parts@);
        let end = self.end_state(net, compiled, claims);
        &&& self.parts@.len() == net.devices@.len()
        &&& planned_first(net, compiled, claims, first)
        &&& planned_second(
            net,
            compiled,
            after_first(net, compiled, claims, first),
            second_parts(net, self.parts@),
        )
        &&& self.dim == end.next
        &&& self.currents@ == end.currents
        &&& views(self.quantities@) == reported(net.node_order@, end)
    }
}

/// `e` is about a device that does not wait, and every one before it can be built.
pub open spec fn is_first_error(
    net: Netlist,
    compiled: Seq<Module>,
    claims: Seq<usize>,
    first: Seq<Option<Part>>,
    e: BuildError,
) -> bool {
    &&& first.len() < net.devices@.len()
    &&& planned_first(net, compiled, claims, first)
    &&& !is_deferred(net.devices@[first.len() as int].model@)
    &&& is_plan(
        net.devices@[first.len() as int],
        compiled,
        after_first(net, compiled, claims, first).next,
        Err(e),
    )
}

/// `e` is about a device that waits; every one that does not can be built, and every
/// waiting one before it.
pub open spec fn is_second_error(
    net: Netlist,
    compiled: Seq<Module>,
    claims: Seq<usize>,
    first: Seq<Option<Part>>,
    second: Seq<Option<Part>>,
    e: BuildError,
) -> bool {
    let start = after_first(net, compiled, claims, first);
    let s = after_second(net, compiled, start, second);
    &&& first.len() == net.devices@.len()
    &&& second.len() < net.devices@.len()
    &&& planned_first(net, compiled, claims, first)
    &&& planned_second(net, compiled, start, second)
    &&& is_deferred(net.devices@[second.len() as int].model@)
    &&& coupling_plan(net.devices@[second.len() as int], net.devices@, s.currents, s.next) == Err::<
        Part,
        BuildError,
    >(e)
}

/// `e` is the first reason why the deck's circuit cannot be built.
pub open spec fn is_build_error(
    net: Netlist,
    compiled: Seq<Module>,
    claims: Seq<usize>,
    e: BuildError,
) -> bool {
    ||| exists|first: Seq<Option<Part>>| #[trigger] is_first_error(net, compiled, claims, first, e)
    ||| exists|first: Seq<Option<Part>>, second: Seq<Option<Part>>| #[trigger]
        is_second_error(net, compiled, claims, first, second, e)
}

/// An upper bound on the unknowns that those of the first `upto` devices claim that
/// wait, or that do not.
pub open spec fn most_rows(
    net: Netlist,
    compiled: Seq<Module>,
    claims: Seq<usize>,
    waiting: bool,
    upto: int,
) -> int
    decreases upto,
{
    if upto <= 0 {
        0
    } else {
        let dev = net.devices@[upto - 1];
        let before = most_rows(net, compiled, claims, waiting, upto - 1);
        if is_deferred(dev.model@) == waiting {
            before + most_claimed(dev, compiled) + claims[upto - 1]
        } else {
            before
        }
    }
}

pub proof fn lemma_most_rows_grows(
    net: Netlist,
    compiled: Seq<Module>,
    claims: Seq<usize>,
    waiting: bool,
    i: int,
    j: int,
)
    requires
        0 <= i <= j <= net.devices@.len(),
        claims.len() == net.devices@.len(),
    ensures
        0 <= most_rows(net, compiled, claims, waiting, i) <= most_rows(
            net,
            compiled,
            claims,
            waiting,
            j,
        ),
    decreases j,
{
    if i < j {
        lemma_most_rows_grows(net, compiled, claims, waiting, i, j - 1);
    } else if i > 0 {
        lemma_most_rows_grows(net, compiled, claims, waiting, i - 1, i - 1);
    }
}

/// The device has a branch current of its own: a source, an inductor, or a
/// current-controlled voltage source among the first `done`, which are built last.
pub open spec fn owns_current(net: Netlist, j: int, done: int) -> bool {
    let m = net.devices@[j].model@;
    m == "vsource"@ || m == "vcvs"@ || m == "inductor"@ || (m == "ccvs"@ && j < done)
}

/// Some device of this name has a branch current of its own.
pub open spec fn has_owner(net: Netlist, name: Seq<char>, done: int) -> bool {
    exists|j: int|
        0 <= j < net.devices@.len() && #[trigger] owns_current(net, j, done)
            && net.devices@[j].name@ == name
}

/// The current-controlled source at this place has two terminals where the element it
/// names has a branch current when the source is built.
pub open spec fn coupled_line_has_terminals(net: Netlist, i: int) -> bool {
    let dev = net.devices@[i];
    (dev.model@ == "cccs"@ || dev.model@ == "ccvs"@) && dev.controls@.len() > 0 && has_owner(
        net,
        dev.controls@[0]@,
        i,
    ) ==> dev.terminals@.len() >= 2
}

/// Every branch current belongs to a device of its name.
pub open spec fn currents_owned(net: Netlist, currents: Seq<(String, usize)>, done: int) -> bool {
    forall|k: int| 0 <= k < currents.len() ==> has_owner(net, (#[trigger] currents[k]).0@, done)
}

proof fn lemma_owned_grows(
    net: Netlist,
    currents: Seq<(String, usize)>,
    done: int,
    after: int,
)
    requires
        done <= after,
        currents_owned(net, currents, done),
    ensures
        currents_owned(net, currents, after),
{
    assert forall|k: int| 0 <= k < currents.len() implies has_owner(
        net,
        (#[trigger] currents[k]).0@,
        after,
    ) by {
        let j = choose|j: int|
            0 <= j < net.devices@.len() && #[trigger] owns_current(net, j, done)
                && net.devices@[j].name@ == currents[k].0@;
        assert(owns_current(net, j, after));
    }
}

proof fn lemma_current_found(currents: Seq<(String, usize)>, name: Seq<char>)
    ensures
        0 <= current_index(currents, name),
        current_index(currents, name) < currents.len() ==> currents[current_index(
            currents,
            name,
        )].0@ == name,
{
    lemma_first_where_holds(currents, is_named(name));
}

/// One more device keeps every branch current owned.
proof fn lemma_currents_stay_owned(
    net: Netlist,
    compiled: Seq<Module>,
    currents: Seq<(String, usize)>,
    next: int,
    part: Part,
    i: int,
    done: int,
    after: int,
)
    requires
        0 <= i < net.devices@.len(),
        done <= after,
        currents_owned(net, currents, done),
        if is_deferred(net.devices@[i].model@) {
            coupling_plan(net.devices@[i], net.devices@, currents, next) == Ok::<Part, BuildError>(
                part,
            ) && i < after
        } else {
            is_plan(net.devices@[i], compiled, next, Ok(part))
        },
    ensures
        currents_owned(net, currents, after),
        part.own_branch() matches Some(b) ==> currents_owned(
            net,
            currents.push((net.devices@[i].name, b)),
            after,
        ),
{
    lemma_owned_grows(net, currents, done, after);
    if part.own_branch() is Some {
        assert(owns_current(net, i, after));
        assert(has_owner(net, net.devices@[i].name@, after));
    }
}

/// The deck can be given to [`build_instances`]: its lines have their terminals, the
/// models are well formed, and the unknowns can be counted.
pub open spec fn buildable(net: Netlist, compiled: Seq<Module>, claims: Seq<usize>) -> bool {
    let n = net.devices@.len() as int;
    &&& claims.len() == n
    &&& forall|i: int| 0 <= i < n ==> #[trigger] has_terminals(net.devices@[i], compiled)
    &&& forall|i: int| 0 <= i < n ==> #[trigger] coupled_line_has_terminals(net, i)
    &&& forall|i: int| 0 <= i < compiled.len() ==> #[trigger] compiled[i].well_formed()
    &&& net.node_order@.len() + most_rows(net, compiled, claims, false, n) + most_rows(
        net,
        compiled,
        claims,
        true,
        n,
    ) <= usize::MAX
}

/// A placed model has a node for each of the model's nodes.
pub proof fn lemma_plan_fits(dev: Device, compiled: Seq<Module>, next: int, part: Part)
    requires
        is_plan(dev, compiled, next, Ok(part)),
        forall|i: int| 0 <= i < compiled.len() ==> #[trigger] compiled[i].well_formed(),
    ensures
        part.fits(compiled),
{
    if part is Compiled {
        let k = model_index(compiled, dev.model@);
        crate::search::lemma_first_where_holds(compiled, |m: Module| m.name@ == dev.model@);
        crate::place::lemma_slots_len(compiled[k], dev.terminals@);
    }
}

/// Builds every device of a deck and names every unknown.
///
/// `claims` gives, for each device that places a compiled model, the number of
/// auxiliary rows that the model claims beyond its nodes. Devices that couple to
/// the branch of another element are built last, when every other branch row has
/// its place; each part still stands at the place of its device.
pub fn build_instances(net: &Netlist, compiled: &Vec<Module>, claims: &Vec<usize>) -> (r: Result<
    Built,
    BuildError,
>)
    requires
        buildable(*net, compiled@, claims@),
    ensures
        match r {
            Ok(built) => built.is_of(*net, compiled@, claims@),
            Err(e) => is_build_error(*net, compiled@, claims@, e),
        },
{
    let n: usize = net.devices.len();
    let mut work = Assembly::new(net);
    work.skip(net, compiled);
    proof {
        lemma_most_rows_grows(*net, compiled@, claims@, false, 0, work.parts@.len() as int);
        lemma_most_rows_grows(*net, compiled@, claims@, true, 0, work.done as int);
    }
    while work.device(net) < n
        invariant
            n == net.devices@.len(),
            buildable(*net, compiled@, claims@),
            work.is_of(*net, compiled@),
            work.settled(*net),
            same_claims_made(work.claims@, claims@, work.parts@),
            currents_owned(*net, work.state@.currents, work.done as int),
            work.state@.next <= net.node_order@.len() + most_rows(
                *net,
                compiled@,
                claims@,
                false,
                work.parts@.len() as int,
            ) + most_rows(*net, compiled@, claims@, true, work.done as int),
        decreases 2 * n - work.parts@.len() - work.done,
    {
        let i = work.device(net);
        let dev = &net.devices[i];
        let ghost before = work;
        let ghost s = work.state@;
        let ghost first = not_waiting(*net, work.parts@);
        let ghost waiting = is_deferred(dev.model@);
        proof {
            lemma_most_rows_grows(*net, compiled@, claims@, waiting, i + 1, n as int);
            lemma_most_rows_grows(
                *net,
                compiled@,
                claims@,
                false,
                work.parts@.len() as int,
                n as int,
            );
            lemma_most_rows_grows(*net, compiled@, claims@, true, work.done as int, n as int);
            assert(has_terminals(net.devices@[i as int], compiled@));
            assert(coupled_line_has_terminals(*net, i as int));
            if waiting && senses(*dev, s.currents) {
                lemma_current_found(s.currents, dev.controls@[0]@);
                let k = current_index(s.currents, dev.controls@[0]@);
                assert(has_owner(*net, s.currents[k].0@, work.done as int));
            }
            assert(same_claims_made(work.claims@, claims@, first));
            lemma_claims_prefix(*net, compiled@, work.claims@, claims@, first);
        }
        let part = match work.plan(net, compiled) {
            Ok(part) => part,
            Err(e) => {
                proof {
                    let second = waited(*net, work.parts@, work.done as int);
                    if waiting {
                        assert(is_second_error(*net, compiled@, claims@, first, second, e));
                    } else {
                        assert(second =~= Seq::empty());
                        assert(is_first_error(*net, compiled@, claims@, first, e));
                    }
                }
                return Err(e);
            },
        };
        proof {
            if waiting {
                lemma_coupling_claims(*dev, net.devices@, s.currents, s.next, part);
            } else {
                lemma_claim_bound(*dev, compiled@, s.next, part);
            }
        }
        proof {
            lemma_currents_stay_owned(
                *net,
                compiled@,
                s.currents,
                s.next,
                part,
                i as int,
                work.done as int,
                if waiting {
                    i + 1
                } else {
                    work.done as int
                },
            );
        }
        let own = part.claim_end(work.state.next_unknown);
        let end: usize = match &part {
            Part::Compiled { .. } => own + claims[i],
            _ => own,
        };
        work.take(net, compiled, part, end);
        let ghost after = work;
        assert(same_claims_made(work.claims@, claims@, work.parts@)) by {
            assert forall|j: int|
                0 <= j < after.parts@.len() && is_compiled(#[trigger] after.parts@[j]) implies
                after.claims@[j] == claims@[j] by {
                if j < before.parts@.len() && j != i {
                    assert(is_compiled(before.parts@[j]));
                }
            }
        }
        work.skip(net, compiled);
        proof {
            lemma_owned_grows(
                *net,
                after.state@.currents,
                after.done as int,
                work.done as int,
            );
            lemma_most_rows_grows(
                *net,
                compiled@,
                claims@,
                false,
                after.parts@.len() as int,
                work.parts@.len() as int,
            );
            lemma_most_rows_grows(
                *net,
                compiled@,
                claims@,
                true,
                after.done as int,
                work.done as int,
            );
            assert forall|j: int|
                0 <= j < work.parts@.len() && is_compiled(#[trigger] work.parts@[j]) implies
                work.claims@[j] == claims@[j] by {
                assert(j < after.parts@.len());
                assert(work.parts@.take(after.parts@.len() as int)[j] == after.parts@[j]);
                assert(work.claims@.take(after.claims@.len() as int)[j] == after.claims@[j]);
                assert(is_compiled(after.parts@[j]));
            }
        }
    }
    let ghost whole = work;
    let built = work.finish(net, compiled);
    proof {
        let first = first_parts(*net, built.parts@);
        assert forall|j: int| 0 <= j < first.len() && is_compiled(#[trigger] first[j]) implies
            whole.claims@[j] == claims@[j] by {
            assert(is_compiled(whole.parts@[j]));
        }
        lemma_claims_prefix(*net, compiled@, whole.claims@, claims@, first);
    }
    Ok(built)
}

/// The named branch currents of a deck's circuit, each with its unknown.
pub fn branch_currents(net: &Netlist, compiled: &Vec<Module>, claims: &Vec<usize>) -> (r: Result<
    Vec<(String, usize)>,
    BuildError,
>)
    requires
        buildable(*net, compiled@, claims@),
    ensures
        match r {
            Ok(currents) => exists|built: Built| #[trigger]
                built.is_of(*net, compiled@, claims@) && currents@ == built.currents@,
            Err(e) => is_build_error(*net, compiled@, claims@, e),
        },
{
    match build_instances(net, compiled, claims) {
        Ok(built) => {
            let ghost whole = built;
            let currents = built.currents;
            assert(whole.is_of(*net, compiled@, claims@) && currents@ == whole.currents@);
            Ok(currents)
        },
        Err(e) => Err(e),
    }
}

/// The quantities of a deck's circuit, in the order of a report.
pub fn quantities(net: &Netlist, compiled: &Vec<Module>, claims: &Vec<usize>) -> (r: Result<
    Vec<Quantity>,
    BuildError,
>)
    requires
        buildable(*net, compiled@, claims@),
    ensures
        match r {
            Ok(quantities) => exists|built: Built| #[trigger]
                built.is_of(*net, compiled@, claims@) && quantities@ == built.quantities@,
            Err(e) => is_build_error(*net, compiled@, claims@, e),
        },
{
    match build_instances(net, compiled, claims) {
        Ok(built) => {
            let ghost whole = built;
            let quantities = built.quantities;
            assert(whole.is_of(*net, compiled@, claims@) && quantities@ == whole.quantities@);
            Ok(quantities)
        },
        Err(e) => Err(e),
    }
}

} // verus!
