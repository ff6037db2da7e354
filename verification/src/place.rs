//! Placing a compiled model: which parameters a device line sets, which ports it
//! connects, and which unknown each node of the model is given.
use crate::netlist::{
    lemma_port_nodes_len, lemma_port_width_monotonic, port_nodes, port_width, Module, NodeDecl,
    Param, GROUND,
};
use crate::number::Real;
use crate::search::{first_where, lemma_first_where};
use crate::text::{is_sorting_of, same_text, sorted_texts, texts};
use vstd::prelude::*;

verus! {

/// Why a circuit cannot be built.
#[derive(Clone, Debug)]
pub enum BuildError {
    /// `mult=` on a line whose model declares a parameter `mult`.
    AmbiguousMultiplicity { model: String },
    /// A multiplicity that is not a positive, finite number.
    BadMultiplicity { name: String, value: Real },
    /// A line sets a `localparam`.
    LocalParameter { model: String, name: String },
    /// A line sets a parameter that the model does not declare.
    UnknownParameter { model: String, name: String, known: Vec<String> },
    /// More terminals than the model has port nodes.
    TooManyTerminals { model: String, declared: usize, connected: usize },
    /// The terminals end inside a vector port. Ports are counted from one.
    PartialPort { model: String, connected: usize, width: usize, port: usize },
    /// A port is left off that the model never asks `$port_connected` about.
    RequiredPort { model: String, declared: usize, connected: usize, port: usize, node: String },
    /// A two-terminal device with fewer terminals.
    TooFewTerminals { device: String, terminals: usize, model: String },
    /// A resistor or a capacitor without a value.
    NeedsValue { device: String },
    /// A transistor with another number of terminals than three.
    TransistorTerminals { device: String, terminals: usize },
    /// A model that is neither compiled nor built in.
    UnknownModel { device: String, model: String },
    /// A coupling that does not name two elements.
    CouplingArity { device: String },
    /// A coupling that names something else than an inductor.
    NotAnInductor { device: String, element: String },
    /// An inductor without a branch row.
    NoBranchRow { element: String },
    /// A coupling of an inductor to itself.
    SelfCoupling { device: String, element: String },
    /// A current-controlled source that names no element.
    NoControl { device: String },
    /// A current-controlled source whose element carries no branch current.
    ControlWithoutCurrent { device: String, element: String },
}

/// What a device line makes of a compiled model.
#[derive(Clone, Debug)]
pub struct Placement {
    /// How many identical devices stand in parallel, where the line says so.
    pub multiplicity: Option<Real>,
    /// For each parameter of the model the value that the line gives it, if any.
    pub settings: Vec<Option<Real>>,
    /// The ports left off, in order.
    pub unconnected: Vec<usize>,
    /// For each node of the model its unknown, or [`GROUND`].
    pub nodes: Vec<usize>,
    /// The first unknown not yet claimed.
    pub next_unknown: usize,
}

// ---- multiplicity ---------------------------------------------------------

/// Whether a setting of this name is the multiplicity of the device: `mult` always,
/// `m` unless the model has a parameter `m` of its own.
pub open spec fn is_multiplicity(module: Module, name: Seq<char>) -> bool {
    name == "mult"@ || (name == "m"@ && !module.declares("m"@))
}

/// What is wrong with one setting as a multiplicity, if anything.
pub open spec fn multiplicity_fault(module: Module, setting: (String, Real)) -> Option<BuildError> {
    if setting.0@ == "mult"@ && module.declares("mult"@) {
        Some(BuildError::AmbiguousMultiplicity { model: module.name })
    } else if is_multiplicity(module, setting.0@) && !setting.1.positive_finite() {
        Some(BuildError::BadMultiplicity { name: setting.0, value: setting.1 })
    } else {
        None
    }
}

/// The multiplicity that the settings give: that of the last one that gives one.
pub open spec fn multiplicity_of(module: Module, settings: Seq<(String, Real)>) -> Option<Real>
    decreases settings.len(),
{
    if settings.len() == 0 {
        None
    } else if is_multiplicity(module, settings.last().0@) {
        Some(settings.last().1)
    } else {
        multiplicity_of(module, settings.drop_last())
    }
}

/// The settings that are model parameters, in order.
pub open spec fn parameters_of(module: Module, settings: Seq<(String, Real)>) -> Seq<(String, Real)>
    decreases settings.len(),
{
    if settings.len() == 0 {
        Seq::empty()
    } else if is_multiplicity(module, settings.last().0@) {
        parameters_of(module, settings.drop_last())
    } else {
        parameters_of(module, settings.drop_last()).push(settings.last())
    }
}

/// The fault of the first setting that has one.
pub open spec fn first_multiplicity_fault(
    module: Module,
    settings: Seq<(String, Real)>,
) -> Option<BuildError>
    decreases settings.len(),
{
    if settings.len() == 0 {
        None
    } else {
        match first_multiplicity_fault(module, settings.drop_last()) {
            Some(e) => Some(e),
            None => multiplicity_fault(module, settings.last()),
        }
    }
}

impl Module {
    /// Whether the model declares a parameter of this name.
    pub fn declares_param(&self, name: &str) -> (r: bool)
        ensures
            r == self.declares(name@),
    {
        let mut i: usize = 0;
        while i < self.params.len()
            invariant
                i <= self.params@.len(),
                forall|j: int| 0 <= j < i ==> #[trigger] self.params@[j].name@ != name@,
            decreases self.params@.len() - i,
        {
            if same_text(self.params[i].name.as_str(), name) {
                return true;
            }
            i += 1;
        }
        false
    }
}

/// Parts the instance multiplicity from the model-parameter settings of a device line.
///
/// `mult=` is always the multiplicity, and an error where the model declares a
/// parameter `mult`. `m=` is the multiplicity only where the model declares no `m`.
pub fn split_multiplicity(module: &Module, overrides: &Vec<(String, Real)>) -> (r: Result<
    (Option<Real>, Vec<(String, Real)>),
    BuildError,
>)
    ensures
        match r {
            Ok((multiplicity, rest)) => {
                &&& first_multiplicity_fault(*module, overrides@) is None
                &&& multiplicity == multiplicity_of(*module, overrides@)
                &&& rest@ == parameters_of(*module, overrides@)
            },
            Err(e) => first_multiplicity_fault(*module, overrides@) == Some(e),
        },
{
    let declares_m = module.declares_param("m");
    let declares_mult = module.declares_param("mult");
    let mut multiplicity: Option<Real> = None;
    let mut rest: Vec<(String, Real)> = Vec::new();
    let mut i: usize = 0;
    assert(overrides@.subrange(0, 0) =~= Seq::empty());
    while i < overrides.len()
        invariant
            i <= overrides@.len(),
            declares_m == module.declares("m"@),
            declares_mult == module.declares("mult"@),
            first_multiplicity_fault(*module, overrides@.subrange(0, i as int)) is None,
            multiplicity == multiplicity_of(*module, overrides@.subrange(0, i as int)),
            rest@ == parameters_of(*module, overrides@.subrange(0, i as int)),
        decreases overrides@.len() - i,
    {
        let name = &overrides[i].0;
        let value = overrides[i].1;
        let is_mult = same_text(name.as_str(), "mult");
        let is_m = same_text(name.as_str(), "m");
        proof {
            let upto = overrides@.subrange(0, i + 1);
            assert(upto.drop_last() =~= overrides@.subrange(0, i as int));
            assert(upto.last() == overrides@[i as int]);
            if multiplicity_fault(*module, overrides@[i as int]) is Some {
                lemma_first_fault_stays(*module, overrides@, i + 1);
            }
        }
        if is_mult && declares_mult {
            return Err(BuildError::AmbiguousMultiplicity { model: module.name.clone() });
        }
        if is_mult || (is_m && !declares_m) {
            if !value.is_positive_finite() {
                return Err(BuildError::BadMultiplicity { name: name.clone(), value });
            }
            multiplicity = Some(value);
        } else {
            rest.push((name.clone(), value));
        }
        i += 1;
    }
    assert(overrides@.subrange(0, i as int) =~= overrides@);
    Ok((multiplicity, rest))
}

/// A fault among the first settings is the first fault of all of them.
proof fn lemma_first_fault_stays(module: Module, settings: Seq<(String, Real)>, upto: int)
    requires
        0 <= upto <= settings.len(),
        first_multiplicity_fault(module, settings.subrange(0, upto)) is Some,
    ensures
        first_multiplicity_fault(module, settings) == first_multiplicity_fault(
            module,
            settings.subrange(0, upto),
        ),
    decreases settings.len() - upto,
{
    if upto == settings.len() {
        assert(settings.subrange(0, upto) =~= settings);
    } else {
        assert(settings.subrange(0, upto + 1).drop_last() =~= settings.subrange(0, upto));
        lemma_first_fault_stays(module, settings, upto + 1);
    }
}

// ---- parameters -----------------------------------------------------------

/// Being a parameter of this name.
pub open spec fn is_param_named(name: Seq<char>) -> spec_fn(Param) -> bool {
    |p: Param| p.name@ == name
}

/// The place of the first parameter of this name; the number of parameters where
/// there is none.
pub open spec fn first_param(params: Seq<Param>, name: Seq<char>) -> int {
    first_where(params, is_param_named(name))
}

/// The names of the parameters.
pub open spec fn param_names(module: Module) -> Seq<Seq<char>> {
    module.params@.map_values(|p: Param| p.name@)
}

/// Whether a line can set the parameter of this name.
pub open spec fn can_set(module: Module, name: Seq<char>) -> bool {
    let k = first_param(module.params@, name);
    k < module.params@.len() && !module.params@[k].is_local
}

/// `e` says why a line cannot set the parameter of this name: it is a local one, or
/// the model declares none and `e` lists what it declares.
pub open spec fn is_setting_error(module: Module, name: String, e: BuildError) -> bool {
    if first_param(module.params@, name@) < module.params@.len() {
        e == (BuildError::LocalParameter { model: module.name, name })
    } else {
        &&& e matches BuildError::UnknownParameter { model, name: given, known }
        &&& model == module.name
        &&& given == name
        &&& is_sorting_of(texts(known@), param_names(module))
    }
}

/// What the parameters are set to: the positional value goes to the first one, then
/// each named setting in turn to the one it names.
pub open spec fn settings_after(
    module: Module,
    value: Option<Real>,
    named: Seq<(String, Real)>,
) -> Seq<Option<Real>>
    decreases named.len(),
{
    if named.len() == 0 {
        Seq::new(
            module.params@.len(),
            |k: int|
                if k == 0 {
                    value
                } else {
                    None
                },
        )
    } else {
        settings_after(module, value, named.drop_last()).update(
            first_param(module.params@, named.last().0@),
            Some(named.last().1),
        )
    }
}

/// A value by position sets no `localparam`: it goes to the first parameter, if that can
/// be set.
pub open spec fn value_settable(module: Module, value: Option<Real>) -> bool {
    value is Some && module.params@.len() > 0 ==> !module.params@[0].is_local
}

/// Every named setting can be made.
pub open spec fn all_settable(module: Module, named: Seq<(String, Real)>) -> bool {
    forall|i: int| 0 <= i < named.len() ==> can_set(module, #[trigger] named[i].0@)
}

/// `e` is about the first named setting that cannot be made.
pub open spec fn is_first_setting_error(
    module: Module,
    named: Seq<(String, Real)>,
    e: BuildError,
) -> bool {
    exists|i: int|
        {
            &&& 0 <= i < named.len()
            &&& !can_set(module, named[i].0@)
            &&& all_settable(module, named.subrange(0, i))
            &&& #[trigger] is_setting_error(module, named[i].0, e)
        }
}

/// `e` is about the value by position, or else about the first named setting that cannot
/// be made.
pub open spec fn is_settings_error(
    module: Module,
    value: Option<Real>,
    named: Seq<(String, Real)>,
    e: BuildError,
) -> bool {
    if !value_settable(module, value) {
        e == (BuildError::LocalParameter { model: module.name, name: module.params@[0].name })
    } else {
        is_first_setting_error(module, named, e)
    }
}

fn known_params(module: &Module) -> (r: Vec<String>)
    ensures
        is_sorting_of(texts(r@), param_names(*module)),
{
    let mut names: Vec<String> = Vec::new();
    let mut i: usize = 0;
    while i < module.params.len()
        invariant
            i <= module.params@.len(),
            names@.len() == i,
            forall|j: int| 0 <= j < i ==> #[trigger] names@[j]@ == module.params@[j].name@,
        decreases module.params@.len() - i,
    {
        names.push(module.params[i].name.clone());
        i += 1;
    }
    assert(texts(names@) =~= param_names(*module));
    sorted_texts(&names)
}

/// Applies the positional value and the named settings of a device line.
pub fn apply_settings(
    module: &Module,
    value: Option<Real>,
    named: &Vec<(String, Real)>,
) -> (r: Result<Vec<Option<Real>>, BuildError>)
    ensures
        match r {
            Ok(settings) => {
                &&& value_settable(*module, value)
                &&& all_settable(*module, named@)
                &&& settings@ == settings_after(*module, value, named@)
            },
            Err(e) => is_settings_error(*module, value, named@, e),
        },
{
    if value.is_some() && module.params.len() > 0 && module.params[0].is_local {
        return Err(
            BuildError::LocalParameter {
                model: module.name.clone(),
                name: module.params[0].name.clone(),
            },
        );
    }
    let mut settings: Vec<Option<Real>> = Vec::new();
    let mut k: usize = 0;
    while k < module.params.len()
        invariant
            k <= module.params@.len(),
            settings@.len() == k,
            forall|j: int|
                0 <= j < k ==> #[trigger] settings@[j] == (if j == 0 {
                    value
                } else {
                    None
                }),
        decreases module.params@.len() - k,
    {
        settings.push(
            if k == 0 {
                value
            } else {
                None
            },
        );
        k += 1;
    }
    let mut i: usize = 0;
    assert(named@.subrange(0, 0) =~= Seq::empty());
    assert(settings@ =~= settings_after(*module, value, named@.subrange(0, 0)));
    while i < named.len()
        invariant
            i <= named@.len(),
            settings@.len() == module.params@.len(),
            value_settable(*module, value),
            all_settable(*module, named@.subrange(0, i as int)),
            settings@ == settings_after(*module, value, named@.subrange(0, i as int)),
        decreases named@.len() - i,
    {
        let name = &named[i].0;
        let mut k: usize = 0;
        while k < module.params.len() && !same_text(module.params[k].name.as_str(), name.as_str())
            invariant
                k <= module.params@.len(),
                forall|j: int| 0 <= j < k ==> #[trigger] module.params@[j].name@ != name@,
            decreases module.params@.len() - k,
        {
            k += 1;
        }
        proof {
            lemma_first_where(module.params@, is_param_named(name@), k as int);
        }
        if k == module.params.len() {
            let e = BuildError::UnknownParameter {
                model: module.name.clone(),
                name: name.clone(),
                known: known_params(module),
            };
            assert(is_setting_error(*module, named@[i as int].0, e));
            return Err(e);
        }
        if module.params[k].is_local {
            let e = BuildError::LocalParameter { model: module.name.clone(), name: name.clone() };
            assert(is_setting_error(*module, named@[i as int].0, e));
            return Err(e);
        }
        settings.set(k, Some(named[i].1));
        i += 1;
        proof {
            let upto = named@.subrange(0, i as int);
            assert(upto.drop_last() =~= named@.subrange(0, i - 1));
            assert forall|j: int| 0 <= j < i implies can_set(*module, #[trigger] upto[j].0@) by {
                if j < i - 1 {
                    assert(can_set(*module, named@.subrange(0, i - 1)[j].0@));
                }
            }
        }
    }
    assert(named@.subrange(0, i as int) =~= named@);
    Ok(settings)
}

// ---- ports ----------------------------------------------------------------

/// A port is connected as a whole when its last node is among the first `terminals`
/// port nodes.
pub open spec fn port_connected(module: Module, terminals: int, i: int) -> bool {
    module.ports@[i]@.len() == 0 || port_width(module.ports@, i + 1) <= terminals
}

/// The terminals end inside the port.
pub open spec fn port_split(module: Module, terminals: int, i: int) -> bool {
    port_width(module.ports@, i) < terminals < port_width(module.ports@, i + 1)
}

/// The port may stand as the terminals leave it: connected, or left off by a line
/// whose model asks `$port_connected` about it.
pub open spec fn port_allowed(module: Module, terminals: int, i: int) -> bool {
    port_connected(module, terminals, i) || (!port_split(module, terminals, i)
        && module.queried_ports@.contains(i as usize))
}

/// The error about a port that may not stand as the terminals leave it.
pub open spec fn port_error(module: Module, terminals: int, i: int) -> BuildError {
    if port_split(module, terminals, i) {
        BuildError::PartialPort {
            model: module.name,
            connected: terminals as usize,
            width: module.ports@[i]@.len() as usize,
            port: (i + 1) as usize,
        }
    } else {
        BuildError::RequiredPort {
            model: module.name,
            declared: port_width(module.ports@, module.ports@.len() as int) as usize,
            connected: terminals as usize,
            port: (i + 1) as usize,
            node: module.nodes@[module.ports@[i]@[0] as int].name,
        }
    }
}

/// The ports left off among the first `upto`, in order.
pub open spec fn ports_left_off(module: Module, terminals: int, upto: int) -> Seq<usize>
    decreases upto,
{
    if upto <= 0 {
        Seq::empty()
    } else if port_connected(module, terminals, upto - 1) {
        ports_left_off(module, terminals, upto - 1)
    } else {
        ports_left_off(module, terminals, upto - 1).push((upto - 1) as usize)
    }
}

/// The line connects no more terminals than there are port nodes, and every port
/// may stand as it is left.
pub open spec fn ports_allowed(module: Module, terminals: int) -> bool {
    &&& terminals <= port_width(module.ports@, module.ports@.len() as int)
    &&& forall|i: int| 0 <= i < module.ports@.len() ==> #[trigger] port_allowed(module, terminals, i)
}

/// `e` is about the count of terminals, or else about the first port that may not
/// stand as it is left.
pub open spec fn is_ports_error(module: Module, terminals: int, e: BuildError) -> bool {
    let declared = port_width(module.ports@, module.ports@.len() as int);
    if terminals > declared {
        e == (BuildError::TooManyTerminals {
            model: module.name,
            declared: declared as usize,
            connected: terminals as usize,
        })
    } else {
        exists|i: int|
            {
                &&& 0 <= i < module.ports@.len()
                &&& !port_allowed(module, terminals, i)
                &&& forall|j: int| 0 <= j < i ==> #[trigger] port_allowed(module, terminals, j)
                &&& e == #[trigger] port_error(module, terminals, i)
            }
    }
}

fn holds_index(items: &Vec<usize>, i: usize) -> (r: bool)
    ensures
        r == items@.contains(i),
{
    let mut k: usize = 0;
    while k < items.len()
        invariant
            k <= items@.len(),
            forall|j: int| 0 <= j < k ==> items@[j] != i,
        decreases items@.len() - k,
    {
        if items[k] == i {
            return true;
        }
        k += 1;
    }
    false
}

/// The number of port nodes of a model.
pub fn port_node_count(module: &Module) -> (r: usize)
    requires
        module.well_formed(),
    ensures
        r == port_width(module.ports@, module.ports@.len() as int),
{
    let mut total: usize = 0;
    let mut i: usize = 0;
    while i < module.ports.len()
        invariant
            i <= module.ports@.len(),
            total == port_width(module.ports@, i as int),
            port_width(module.ports@, module.ports@.len() as int) <= usize::MAX,
        decreases module.ports@.len() - i,
    {
        proof {
            lemma_port_width_monotonic(module.ports@, i + 1, module.ports@.len() as int);
        }
        total = total + module.ports[i].len();
        i += 1;
    }
    total
}

/// Checks the number of terminals against the ports, and lists the ports left off.
///
/// Only trailing ports can be left off, and only those that the model asks
/// `$port_connected` about. A vector port is connected as a whole or not at all.
pub fn check_ports(module: &Module, terminals: usize) -> (r: Result<Vec<usize>, BuildError>)
    requires
        module.well_formed(),
    ensures
        match r {
            Ok(left_off) => {
                &&& ports_allowed(*module, terminals as int)
                &&& left_off@ == ports_left_off(
                    *module,
                    terminals as int,
                    module.ports@.len() as int,
                )
            },
            Err(e) => is_ports_error(*module, terminals as int, e),
        },
{
    let declared = port_node_count(module);
    if terminals > declared {
        return Err(
            BuildError::TooManyTerminals {
                model: module.name.clone(),
                declared,
                connected: terminals,
            },
        );
    }
    let mut left_off: Vec<usize> = Vec::new();
    let mut before: usize = 0;
    let mut i: usize = 0;
    while i < module.ports.len()
        invariant
            module.well_formed(),
            declared == port_width(module.ports@, module.ports@.len() as int),
            terminals <= declared,
            i <= module.ports@.len(),
            before == port_width(module.ports@, i as int),
            left_off@ == ports_left_off(*module, terminals as int, i as int),
            forall|j: int|
                0 <= j < i ==> #[trigger] port_allowed(*module, terminals as int, j),
        decreases module.ports@.len() - i,
    {
        proof {
            lemma_port_width_monotonic(module.ports@, i + 1, module.ports@.len() as int);
        }
        let width = module.ports[i].len();
        let end: usize = before + width;
        if width > 0 && terminals < end {
            if terminals > before {
                assert(port_split(*module, terminals as int, i as int));
                return Err(
                    BuildError::PartialPort {
                        model: module.name.clone(),
                        connected: terminals,
                        width,
                        port: i + 1,
                    },
                );
            }
            if !holds_index(&module.queried_ports, i) {
                let first = module.ports[i][0];
                let e = BuildError::RequiredPort {
                    model: module.name.clone(),
                    declared,
                    connected: terminals,
                    port: i + 1,
                    node: module.nodes[first].name.clone(),
                };
                assert(e == port_error(*module, terminals as int, i as int));
                return Err(e);
            }
            left_off.push(i);
        }
        assert(port_allowed(*module, terminals as int, i as int));
        before = end;
        i += 1;
    }
    Ok(left_off)
}

// ---- nodes ----------------------------------------------------------------

/// What the terminals give each node: the `k`-th terminal goes to the `k`-th port node.
pub open spec fn wired(flat: Seq<usize>, terminals: Seq<usize>, count: nat, upto: int) -> Seq<
    Option<usize>,
>
    decreases upto,
{
    if upto <= 0 {
        Seq::new(count, |j: int| None)
    } else {
        wired(flat, terminals, count, upto - 1).update(
            flat[upto - 1] as int,
            Some(terminals[upto - 1]),
        )
    }
}

/// A node called `gnd` that is no port is the circuit's own ground. A port of that name is
/// the deck's to wire, and floats where it is left off.
pub open spec fn grounded(
    nodes: Seq<NodeDecl>,
    ports: Seq<usize>,
    slots: Seq<Option<usize>>,
) -> Seq<Option<usize>> {
    Seq::new(
        slots.len(),
        |j: int|
            if slots[j] is None && nodes[j].name@ == "gnd"@ && !ports.contains(j as usize) {
                Some(GROUND)
            } else {
                slots[j]
            },
    )
}

/// The number of open slots among the first `upto`.
pub open spec fn open_before(slots: Seq<Option<usize>>, upto: int) -> int
    decreases upto,
{
    if upto <= 0 {
        0
    } else if slots[upto - 1] is None {
        open_before(slots, upto - 1) + 1
    } else {
        open_before(slots, upto - 1)
    }
}

/// Every open slot claims the next unknown in turn.
pub open spec fn claimed(slots: Seq<Option<usize>>, next: int) -> Seq<usize> {
    Seq::new(
        slots.len(),
        |j: int|
            match slots[j] {
                Some(g) => g,
                None => (next + open_before(slots, j)) as usize,
            },
    )
}

/// What each node of the model is given before unknowns are claimed.
pub open spec fn node_slots(module: Module, terminals: Seq<usize>) -> Seq<Option<usize>> {
    grounded(
        module.nodes@,
        port_nodes(module.ports@),
        wired(
            port_nodes(module.ports@),
            terminals,
            module.nodes@.len(),
            terminals.len() as int,
        ),
    )
}

pub proof fn lemma_open_before_bounds(slots: Seq<Option<usize>>, i: int, j: int)
    requires
        0 <= i <= j <= slots.len(),
    ensures
        0 <= open_before(slots, i) <= open_before(slots, j) <= open_before(slots, i) + (j - i),
    decreases j,
{
    if i < j {
        lemma_open_before_bounds(slots, i, j - 1);
    } else if i > 0 {
        lemma_open_before_bounds(slots, i - 1, i - 1);
    }
}

pub proof fn lemma_wired_len(flat: Seq<usize>, terminals: Seq<usize>, count: nat, upto: int)
    requires
        upto <= flat.len(),
        forall|k: int| 0 <= k < flat.len() ==> #[trigger] flat[k] < count,
    ensures
        wired(flat, terminals, count, upto).len() == count,
    decreases upto,
{
    if upto > 0 {
        lemma_wired_len(flat, terminals, count, upto - 1);
    }
}

/// Every port node is a node of the model.
pub proof fn lemma_port_nodes_in_range(ports: Seq<Vec<usize>>, count: nat)
    requires
        forall|i: int, j: int|
            0 <= i < ports.len() && 0 <= j < ports[i]@.len() ==> #[trigger] ports[i]@[j] < count,
    ensures
        forall|k: int| 0 <= k < port_nodes(ports).len() ==> #[trigger] port_nodes(ports)[k] < count,
    decreases ports.len(),
{
    if ports.len() > 0 {
        let rest = ports.drop_last();
        assert forall|i: int, j: int|
            0 <= i < rest.len() && 0 <= j < rest[i]@.len() implies #[trigger] rest[i]@[j]
            < count by {
            assert(ports[i]@[j] < count);
        }
        lemma_port_nodes_in_range(rest, count);
        assert forall|k: int| 0 <= k < port_nodes(ports).len() implies #[trigger] port_nodes(
            ports,
        )[k] < count by {
            let split = port_nodes(rest).len();
            if k >= split {
                assert(ports[ports.len() - 1]@[k - split] < count);
            }
        }
    }
}

/// There is a slot for each node of the model.
pub proof fn lemma_slots_len(module: Module, terminals: Seq<usize>)
    requires
        module.well_formed(),
        terminals.len() <= port_width(module.ports@, module.ports@.len() as int),
    ensures
        node_slots(module, terminals).len() == module.nodes@.len(),
{
    lemma_port_nodes_len(module.ports@);
    lemma_port_nodes_in_range(module.ports@, module.nodes@.len());
    lemma_wired_len(
        port_nodes(module.ports@),
        terminals,
        module.nodes@.len(),
        terminals.len() as int,
    );
}

/// The nodes of the ports, one port after the other.
pub fn flat_ports(module: &Module) -> (r: Vec<usize>)
    requires
        module.well_formed(),
    ensures
        r@ == port_nodes(module.ports@),
        forall|k: int| 0 <= k < r@.len() ==> #[trigger] r@[k] < module.nodes@.len(),
{
    let mut flat: Vec<usize> = Vec::new();
    let mut i: usize = 0;
    assert(module.ports@.subrange(0, 0) =~= Seq::empty());
    while i < module.ports.len()
        invariant
            module.well_formed(),
            i <= module.ports@.len(),
            flat@ == port_nodes(module.ports@.subrange(0, i as int)),
            forall|k: int| 0 <= k < flat@.len() ==> #[trigger] flat@[k] < module.nodes@.len(),
        decreases module.ports@.len() - i,
    {
        let port = &module.ports[i];
        let ghost start = flat@;
        let mut j: usize = 0;
        while j < port.len()
            invariant
                module.well_formed(),
                i < module.ports@.len(),
                *port == module.ports@[i as int],
                j <= port@.len(),
                flat@ =~= start + port@.subrange(0, j as int),
                forall|k: int| 0 <= k < flat@.len() ==> #[trigger] flat@[k] < module.nodes@.len(),
            decreases port@.len() - j,
        {
            assert(module.ports@[i as int]@[j as int] < module.nodes@.len());
            flat.push(port[j]);
            j += 1;
        }
        i += 1;
        proof {
            let upto = module.ports@.subrange(0, i as int);
            assert(upto.drop_last() =~= module.ports@.subrange(0, i - 1));
            assert(upto.last() == *port);
            assert(port@.subrange(0, j as int) =~= port@);
        }
    }
    assert(module.ports@.subrange(0, i as int) =~= module.ports@);
    flat
}

/// Gives every node of the model its unknown: a port node the net it is wired to, a
/// node `gnd` that is no port the ground of the circuit, and every other node the next
/// free unknown.
pub fn assign_nodes(module: &Module, terminals: &Vec<usize>, next_unknown: usize) -> (r: (
    Vec<usize>,
    usize,
))
    requires
        module.well_formed(),
        terminals@.len() <= port_width(module.ports@, module.ports@.len() as int),
        next_unknown + module.nodes@.len() <= usize::MAX,
    ensures
        r.0@ == claimed(node_slots(*module, terminals@), next_unknown as int),
        r.1 == next_unknown + open_before(
            node_slots(*module, terminals@),
            module.nodes@.len() as int,
        ),
{
    let flat = flat_ports(module);
    proof {
        lemma_port_nodes_len(module.ports@);
    }
    let n: usize = module.nodes.len();
    let mut slots: Vec<Option<usize>> = Vec::new();
    let mut j: usize = 0;
    while j < n
        invariant
            j <= n,
            slots@.len() == j,
            forall|k: int| 0 <= k < j ==> #[trigger] slots@[k] is None,
        decreases n - j,
    {
        slots.push(None);
        j += 1;
    }
    let mut k: usize = 0;
    assert(slots@ =~= wired(flat@, terminals@, n as nat, 0));
    while k < terminals.len()
        invariant
            k <= terminals@.len() <= flat@.len(),
            n == module.nodes@.len(),
            slots@.len() == n,
            slots@ == wired(flat@, terminals@, n as nat, k as int),
            forall|i: int| 0 <= i < flat@.len() ==> #[trigger] flat@[i] < n,
        decreases terminals@.len() - k,
    {
        slots.set(flat[k], Some(terminals[k]));
        k += 1;
    }
    let ghost before = slots@;
    let mut j: usize = 0;
    while j < n
        invariant
            j <= n,
            n == module.nodes@.len(),
            slots@.len() == n,
            before.len() == n,
            forall|i: int|
                0 <= i < j ==> slots@[i] == #[trigger] grounded(module.nodes@, flat@, before)[i],
            forall|i: int| j <= i < n ==> slots@[i] == #[trigger] before[i],
        decreases n - j,
    {
        if slots[j].is_none() && same_text(module.nodes[j].name.as_str(), "gnd") && !holds_index(
            &flat,
            j,
        ) {
            slots.set(j, Some(GROUND));
        }
        j += 1;
    }
    assert(slots@ =~= node_slots(*module, terminals@));
    let mut nodes: Vec<usize> = Vec::new();
    let mut next: usize = next_unknown;
    let mut j: usize = 0;
    while j < n
        invariant
            j <= n,
            n == slots@.len(),
            next_unknown + n <= usize::MAX,
            next == next_unknown + open_before(slots@, j as int),
            next <= next_unknown + j,
            nodes@.len() == j,
            forall|i: int|
                0 <= i < j ==> nodes@[i] == #[trigger] claimed(slots@, next_unknown as int)[i],
        decreases n - j,
    {
        match slots[j] {
            Some(g) => {
                nodes.push(g);
            },
            None => {
                nodes.push(next);
                next = next + 1;
            },
        }
        j += 1;
    }
    assert(nodes@ =~= claimed(slots@, next_unknown as int));
    (nodes, next)
}

// ---- the whole line -------------------------------------------------------

/// A line with this value, these settings and this many terminals can place the model.
pub open spec fn can_place(
    module: Module,
    value: Option<Real>,
    settings: Seq<(String, Real)>,
    terminals: int,
) -> bool {
    &&& first_multiplicity_fault(module, settings) is None
    &&& value_settable(module, value)
    &&& all_settable(module, parameters_of(module, settings))
    &&& ports_allowed(module, terminals)
}

/// `e` is the first thing wrong with the line: its multiplicity, then its
/// parameters, then its terminals.
pub open spec fn is_placement_error(
    module: Module,
    value: Option<Real>,
    settings: Seq<(String, Real)>,
    terminals: int,
    e: BuildError,
) -> bool {
    let named = parameters_of(module, settings);
    if first_multiplicity_fault(module, settings) is Some {
        first_multiplicity_fault(module, settings) == Some(e)
    } else if !value_settable(module, value) || !all_settable(module, named) {
        is_settings_error(module, value, named, e)
    } else {
        is_ports_error(module, terminals, e)
    }
}

impl Placement {
    /// This is what the line makes of the model when the unknowns from
    /// `next_unknown` on are free.
    pub open spec fn is_of(
        self,
        module: Module,
        value: Option<Real>,
        settings: Seq<(String, Real)>,
        terminals: Seq<usize>,
        next_unknown: int,
    ) -> bool {
        let slots = node_slots(module, terminals);
        &&& self.multiplicity == multiplicity_of(module, settings)
        &&& self.settings@ == settings_after(module, value, parameters_of(module, settings))
        &&& self.unconnected@ == ports_left_off(
            module,
            terminals.len() as int,
            module.ports@.len() as int,
        )
        &&& self.nodes@ == claimed(slots, next_unknown)
        &&& self.next_unknown == next_unknown + open_before(slots, module.nodes@.len() as int)
    }
}

/// Places a compiled model: sets its parameters, checks its terminals and gives
/// each of its nodes an unknown, claiming new ones from `next_unknown` on.
pub fn build_from_model(
    module: &Module,
    value: Option<Real>,
    overrides: &Vec<(String, Real)>,
    terminals: &Vec<usize>,
    next_unknown: usize,
) -> (r: Result<Placement, BuildError>)
    requires
        module.well_formed(),
        next_unknown + module.nodes@.len() <= usize::MAX,
    ensures
        match r {
            Ok(placement) => {
                &&& can_place(*module, value, overrides@, terminals@.len() as int)
                &&& placement.is_of(
                    *module,
                    value,
                    overrides@,
                    terminals@,
                    next_unknown as int,
                )
            },
            Err(e) => {
                &&& !can_place(*module, value, overrides@, terminals@.len() as int)
                &&& is_placement_error(*module, value, overrides@, terminals@.len() as int, e)
            },
        },
{
    let (multiplicity, named) = match split_multiplicity(module, overrides) {
        Ok(split) => split,
        Err(e) => {
            return Err(e);
        },
    };
    let settings = match apply_settings(module, value, &named) {
        Ok(settings) => settings,
        Err(e) => {
            return Err(e);
        },
    };
    let unconnected = match check_ports(module, terminals.len()) {
        Ok(unconnected) => unconnected,
        Err(e) => {
            return Err(e);
        },
    };
    let (nodes, next) = assign_nodes(module, terminals, next_unknown);
    Ok(Placement { multiplicity, settings, unconnected, nodes, next_unknown: next })
}

// ---- what holds of every line ---------------------------------------------

/// The last of the named settings decides what its parameter is set to, whatever the
/// position gives it; a setting leaves every other parameter alone.
pub proof fn the_last_named_setting_wins(
    module: Module,
    value: Option<Real>,
    named: Seq<(String, Real)>,
    k: int,
)
    requires
        named.len() > 0,
        all_settable(module, named),
        0 <= k < module.params@.len(),
    ensures
        ({
            let last = first_param(module.params@, named.last().0@);
            settings_after(module, value, named)[k] == (if k == last {
                Some(named.last().1)
            } else {
                settings_after(module, value, named.drop_last())[k]
            })
        }),
{
    assert(can_set(module, named[named.len() - 1].0@));
    lemma_settings_len(module, value, named.drop_last());
    crate::search::lemma_first_where_holds(
        module.params@,
        |p: Param| p.name@ == named.last().0@,
    );
}

proof fn lemma_settings_len(module: Module, value: Option<Real>, named: Seq<(String, Real)>)
    requires
        all_settable(module, named),
    ensures
        settings_after(module, value, named).len() == module.params@.len(),
    decreases named.len(),
{
    if named.len() > 0 {
        assert forall|i: int| 0 <= i < named.drop_last().len() implies can_set(
            module,
            #[trigger] named.drop_last()[i].0@,
        ) by {
            assert(can_set(module, named[i].0@));
        }
        lemma_settings_len(module, value, named.drop_last());
        assert(can_set(module, named[named.len() - 1].0@));
        crate::search::lemma_first_where_holds(
            module.params@,
            |p: Param| p.name@ == named.last().0@,
        );
    }
}

/// Where the model declares `m`, `m=` is no multiplicity; it stays a parameter.
pub proof fn a_declared_m_stays_a_parameter(module: Module, setting: (String, Real))
    requires
        module.declares("m"@),
        setting.0@ == "m"@,
    ensures
        !is_multiplicity(module, setting.0@),
        multiplicity_fault(module, setting) is None,
        parameters_of(module, seq![setting]) == seq![setting],
        multiplicity_of(module, seq![setting]) is None,
{
    reveal_strlit("m");
    reveal_strlit("mult");
    assert("m"@.len() == 1);
    assert("mult"@.len() == 4);
    reveal_with_fuel(parameters_of, 2);
    reveal_with_fuel(multiplicity_of, 2);
    assert(seq![setting].drop_last() =~= Seq::empty());
    assert(parameters_of(module, seq![setting]) =~= seq![setting]);
}

/// Only trailing ports are left off: behind a port that is left off no later port that
/// has nodes is connected.
pub proof fn only_trailing_ports_are_left_off(module: Module, terminals: int, i: int, j: int)
    requires
        0 <= i < j < module.ports@.len(),
        ports_allowed(module, terminals),
        !port_connected(module, terminals, i),
        module.ports@[j]@.len() > 0,
    ensures
        !port_connected(module, terminals, j),
{
    lemma_port_width_monotonic(module.ports@, i + 1, j + 1);
}

} // verus!
