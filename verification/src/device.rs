//! What each device line builds: a primitive with its unknowns, or a placed model.
use crate::netlist::{Device, Module, Waveform};
use crate::number::Real;
use crate::place::{
    build_from_model, can_place, claimed, is_placement_error, node_slots, open_before, BuildError,
    Placement,
};
use crate::search::{first_where, lemma_first_where};
use crate::text::same_text;
use vstd::prelude::*;

verus! {

/// The encoding of the saturation current of the built-in diode, 1e-14 A.
pub const DIODE_SATURATION: u64 = 0x3d06_849b_86a1_2b9b;

/// The encoding of the saturation current of the built-in transistor, 1e-15 A.
pub const TRANSISTOR_SATURATION: u64 = 0x3cd2_03af_9ee7_5616;

/// The encoding of the forward gain of the built-in transistor, 100.
pub const TRANSISTOR_FORWARD_GAIN: u64 = 0x4059_0000_0000_0000;

/// The encoding of the thermal voltage at the nominal temperature of 300.15 K,
/// 0.025864925786328753 V.
pub const THERMAL_VOLTAGE: u64 = 0x3f9a_7c55_c976_86ed;

/// What one device line builds. The numbers `p`, `n` and so on are the unknowns of
/// its terminals; a `branch` is the unknown of its own current.
#[derive(Clone, Debug)]
pub enum Part {
    /// A constant voltage source.
    VoltageSource { p: usize, n: usize, branch: usize, value: Real },
    /// A voltage source that follows a waveform.
    WaveformSource { p: usize, n: usize, branch: usize, waveform: Waveform },
    /// A voltage-controlled current source.
    Vccs { p: usize, n: usize, cp: usize, cn: usize, gain: Real },
    /// A voltage-controlled voltage source.
    Vcvs { p: usize, n: usize, cp: usize, cn: usize, branch: usize, gain: Real },
    Inductor { p: usize, n: usize, branch: usize, inductance: Real },
    /// A compiled model, by its place in the library.
    Compiled { module: usize, placement: Placement },
    Resistor { p: usize, n: usize, resistance: Real },
    Capacitor { p: usize, n: usize, capacitance: Real },
    Diode { p: usize, n: usize, saturation: Real, ideality: Real, thermal: Real },
    Transistor {
        b: usize,
        c: usize,
        e: usize,
        saturation: Real,
        forward_gain: Real,
        reverse_gain: Real,
        thermal: Real,
    },
    /// Two coupled inductors, by their branches and inductances.
    Mutual { first: usize, second: usize, l1: Real, l2: Real, coupling: Real },
    /// A current-controlled current source.
    Cccs { p: usize, n: usize, control: usize, gain: Real },
    /// A current-controlled voltage source.
    Ccvs { p: usize, n: usize, control: usize, branch: usize, gain: Real },
}

impl Part {
    /// The unknown of the part's own current, where it has one.
    pub open spec fn own_branch(self) -> Option<usize> {
        match self {
            Part::VoltageSource { branch, .. } => Some(branch),
            Part::WaveformSource { branch, .. } => Some(branch),
            Part::Vcvs { branch, .. } => Some(branch),
            Part::Inductor { branch, .. } => Some(branch),
            Part::Ccvs { branch, .. } => Some(branch),
            _ => None,
        }
    }

    /// The first unknown that is free after the part has claimed its own from `next` on.
    pub open spec fn end_of_claim(self, next: int) -> int {
        match self {
            Part::Compiled { placement, .. } => placement.next_unknown as int,
            _ => if self.own_branch() is Some {
                next + 1
            } else {
                next
            },
        }
    }

    /// The unknowns of the nodes of a compiled model; nothing for a primitive.
    pub open spec fn model_nodes(self) -> Seq<usize> {
        match self {
            Part::Compiled { placement, .. } => placement.nodes@,
            _ => Seq::empty(),
        }
    }

    /// The unknown of the part's own current, where it has one.
    pub fn branch(&self) -> (r: Option<usize>)
        ensures
            r == self.own_branch(),
    {
        match self {
            Part::VoltageSource { branch, .. } => Some(*branch),
            Part::WaveformSource { branch, .. } => Some(*branch),
            Part::Vcvs { branch, .. } => Some(*branch),
            Part::Inductor { branch, .. } => Some(*branch),
            Part::Ccvs { branch, .. } => Some(*branch),
            _ => None,
        }
    }

    /// The first unknown that is free after the part has claimed its own from `next` on.
    pub fn claim_end(&self, next: usize) -> (r: usize)
        requires
            self.end_of_claim(next as int) <= usize::MAX,
        ensures
            r == self.end_of_claim(next as int),
    {
        match self {
            Part::Compiled { placement, .. } => placement.next_unknown,
            _ => match self.branch() {
                Some(_) => next + 1,
                None => next,
            },
        }
    }
}

/// A device's value, or zero where the line states none.
pub open spec fn value_or_zero(dev: Device) -> Real {
    match dev.value {
        Some(v) => v,
        None => Real { bits: 0 },
    }
}

/// Being a model of this name.
pub open spec fn is_model_named(name: Seq<char>) -> spec_fn(Module) -> bool {
    |m: Module| m.name@ == name
}

/// The place of the first model of this name; the number of models where there is none.
pub open spec fn model_index(compiled: Seq<Module>, name: Seq<char>) -> int {
    first_where(compiled, is_model_named(name))
}

/// Whether a device couples to other elements, so that it can only be built once
/// they have their branch rows.
pub open spec fn is_deferred(model: Seq<char>) -> bool {
    model == "cccs"@ || model == "ccvs"@ || model == "mutual"@
}

/// Whether a line of this model is always built in, whatever models are compiled.
pub open spec fn is_built_in(model: Seq<char>) -> bool {
    model == "vsource"@ || model == "vccs"@ || model == "vcvs"@ || model == "inductor"@
        || is_deferred(model)
}

/// The line has the terminals that its letter promises. A voltage-controlled source has
/// four, a primitive at least two; a source and an inductor are checked when they
/// are built, a compiled model by its ports, and a device that couples to others once
/// these are found.
pub open spec fn has_terminals(dev: Device, compiled: Seq<Module>) -> bool {
    let m = dev.model@;
    let n = dev.terminals@.len();
    if m == "vsource"@ || m == "inductor"@ || is_deferred(m) {
        true
    } else if m == "vccs"@ || m == "vcvs"@ {
        n >= 4
    } else {
        model_index(compiled, m) < compiled.len() || n >= 2
    }
}

/// An upper bound on the unknowns that the line claims before its model's own
/// auxiliary rows.
pub open spec fn most_claimed(dev: Device, compiled: Seq<Module>) -> nat {
    let k = model_index(compiled, dev.model@);
    if k < compiled.len() {
        compiled[k].nodes@.len() + 1
    } else {
        1
    }
}

/// What a line that names a built-in primitive without a branch row builds.
pub open spec fn reference_plan(dev: Device) -> Result<Part, BuildError> {
    let p = dev.terminals@[0];
    let n = dev.terminals@[1];
    if dev.model@ == "resistor"@ {
        match dev.value {
            Some(v) => Ok(Part::Resistor { p, n, resistance: v }),
            None => Err(BuildError::NeedsValue { device: dev.name }),
        }
    } else if dev.model@ == "capacitor"@ {
        match dev.value {
            Some(v) => Ok(Part::Capacitor { p, n, capacitance: v }),
            None => Err(BuildError::NeedsValue { device: dev.name }),
        }
    } else if dev.model@ == "diode"@ {
        Ok(
            Part::Diode {
                p,
                n,
                saturation: Real { bits: DIODE_SATURATION },
                ideality: Real { bits: crate::number::ONE },
                thermal: Real { bits: THERMAL_VOLTAGE },
            },
        )
    } else if dev.model@ == "bjt"@ {
        if dev.terminals@.len() == 3 {
            Ok(
                Part::Transistor {
                    b: dev.terminals@[1],
                    c: dev.terminals@[0],
                    e: dev.terminals@[2],
                    saturation: Real { bits: TRANSISTOR_SATURATION },
                    forward_gain: Real { bits: TRANSISTOR_FORWARD_GAIN },
                    reverse_gain: Real { bits: crate::number::ONE },
                    thermal: Real { bits: THERMAL_VOLTAGE },
                },
            )
        } else {
            Err(
                BuildError::TransistorTerminals {
                    device: dev.name,
                    terminals: dev.terminals@.len() as usize,
                },
            )
        }
    } else {
        Err(BuildError::UnknownModel { device: dev.name, model: dev.model })
    }
}

/// What a line with its own branch row needs: two terminals.
pub open spec fn too_few(dev: Device) -> BuildError {
    BuildError::TooFewTerminals {
        device: dev.name,
        terminals: dev.terminals@.len() as usize,
        model: dev.model,
    }
}

/// `r` is what the line builds when the unknowns from `next` on are free. The names
/// of the sources and of the inductor come first, then the compiled models, then the
/// remaining primitives.
pub open spec fn is_plan(
    dev: Device,
    compiled: Seq<Module>,
    next: int,
    r: Result<Part, BuildError>,
) -> bool {
    let m = dev.model@;
    let t = dev.terminals@;
    let k = model_index(compiled, m);
    if m == "vsource"@ {
        if t.len() < 2 {
            r == Err::<Part, BuildError>(too_few(dev))
        } else {
            r == Ok::<Part, BuildError>(
                match dev.waveform {
                    Some(waveform) => Part::WaveformSource {
                        p: t[0],
                        n: t[1],
                        branch: next as usize,
                        waveform,
                    },
                    None => Part::VoltageSource {
                        p: t[0],
                        n: t[1],
                        branch: next as usize,
                        value: value_or_zero(dev),
                    },
                },
            )
        }
    } else if m == "vccs"@ {
        r == Ok::<Part, BuildError>(
            Part::Vccs { p: t[0], n: t[1], cp: t[2], cn: t[3], gain: value_or_zero(dev) },
        )
    } else if m == "vcvs"@ {
        r == Ok::<Part, BuildError>(
            Part::Vcvs {
                p: t[0],
                n: t[1],
                cp: t[2],
                cn: t[3],
                branch: next as usize,
                gain: value_or_zero(dev),
            },
        )
    } else if m == "inductor"@ {
        if t.len() < 2 {
            r == Err::<Part, BuildError>(too_few(dev))
        } else {
            r == Ok::<Part, BuildError>(
                Part::Inductor {
                    p: t[0],
                    n: t[1],
                    branch: next as usize,
                    inductance: value_or_zero(dev),
                },
            )
        }
    } else if k < compiled.len() {
        match r {
            Ok(Part::Compiled { module, placement }) => {
                &&& module == k
                &&& can_place(compiled[k], dev.value, dev.params@, t.len() as int)
                &&& placement.is_of(compiled[k], dev.value, dev.params@, t, next)
            },
            Ok(_) => false,
            Err(e) => {
                &&& !can_place(compiled[k], dev.value, dev.params@, t.len() as int)
                &&& is_placement_error(compiled[k], dev.value, dev.params@, t.len() as int, e)
            },
        }
    } else {
        r == reference_plan(dev)
    }
}

/// The place of the first model of this name; the number of models where there is none.
pub fn find_model(compiled: &Vec<Module>, name: &str) -> (r: usize)
    ensures
        r == model_index(compiled@, name@),
        r <= compiled@.len(),
{
    let mut k: usize = 0;
    while k < compiled.len() && !same_text(compiled[k].name.as_str(), name)
        invariant
            k <= compiled@.len(),
            forall|j: int| 0 <= j < k ==> #[trigger] compiled@[j].name@ != name@,
        decreases compiled@.len() - k,
    {
        k += 1;
    }
    proof {
        lemma_first_where(compiled@, is_model_named(name@), k as int);
    }
    k
}

fn stated_value(dev: &Device) -> (r: Real)
    ensures
        r == value_or_zero(*dev),
{
    match dev.value {
        Some(v) => v,
        None => Real::zero(),
    }
}

/// Whether the line has the terminals that its letter promises.
pub fn check_terminals(dev: &Device, compiled: &Vec<Module>) -> (r: bool)
    ensures
        r == has_terminals(*dev, compiled@),
{
    let m = dev.model.as_str();
    let n = dev.terminals.len();
    if same_text(m, "vsource") || same_text(m, "inductor") || deferred(m) {
        true
    } else if same_text(m, "vccs") || same_text(m, "vcvs") {
        n >= 4
    } else {
        find_model(compiled, m) < compiled.len() || n >= 2
    }
}

/// Whether a device waits until the elements it couples to are built.
pub fn deferred(model: &str) -> (r: bool)
    ensures
        r == is_deferred(model@),
{
    same_text(model, "cccs") || same_text(model, "ccvs") || same_text(model, "mutual")
}

/// Whether a line of this model is always built in, whatever models are compiled.
pub fn built_in(model: &str) -> (r: bool)
    ensures
        r == is_built_in(model@),
{
    same_text(model, "vsource") || same_text(model, "vccs") || same_text(model, "vcvs")
        || same_text(model, "inductor") || deferred(model)
}

/// Builds a primitive without a branch row.
pub fn reference_instance(dev: &Device) -> (r: Result<Part, BuildError>)
    requires
        dev.terminals@.len() >= 2,
    ensures
        r == reference_plan(*dev),
{
    let p = dev.terminals[0];
    let n = dev.terminals[1];
    let m = dev.model.as_str();
    if same_text(m, "resistor") {
        match dev.value {
            Some(v) => Ok(Part::Resistor { p, n, resistance: v }),
            None => Err(BuildError::NeedsValue { device: dev.name.clone() }),
        }
    } else if same_text(m, "capacitor") {
        match dev.value {
            Some(v) => Ok(Part::Capacitor { p, n, capacitance: v }),
            None => Err(BuildError::NeedsValue { device: dev.name.clone() }),
        }
    } else if same_text(m, "diode") {
        Ok(
            Part::Diode {
                p,
                n,
                saturation: Real::from_bits(DIODE_SATURATION),
                ideality: Real::one(),
                thermal: Real::from_bits(THERMAL_VOLTAGE),
            },
        )
    } else if same_text(m, "bjt") {
        if dev.terminals.len() == 3 {
            Ok(
                Part::Transistor {
                    b: dev.terminals[1],
                    c: dev.terminals[0],
                    e: dev.terminals[2],
                    saturation: Real::from_bits(TRANSISTOR_SATURATION),
                    forward_gain: Real::from_bits(TRANSISTOR_FORWARD_GAIN),
                    reverse_gain: Real::one(),
                    thermal: Real::from_bits(THERMAL_VOLTAGE),
                },
            )
        } else {
            Err(
                BuildError::TransistorTerminals {
                    device: dev.name.clone(),
                    terminals: dev.terminals.len(),
                },
            )
        }
    } else {
        Err(BuildError::UnknownModel { device: dev.name.clone(), model: dev.model.clone() })
    }
}

/// Builds what one device line asks for, claiming unknowns from `next_unknown` on.
pub fn build_instance(dev: &Device, compiled: &Vec<Module>, next_unknown: usize) -> (r: Result<
    Part,
    BuildError,
>)
    requires
        has_terminals(*dev, compiled@),
        !is_deferred(dev.model@),
        forall|i: int| 0 <= i < compiled@.len() ==> #[trigger] compiled@[i].well_formed(),
        next_unknown + most_claimed(*dev, compiled@) <= usize::MAX,
    ensures
        is_plan(*dev, compiled@, next_unknown as int, r),
{
    let m = dev.model.as_str();
    if same_text(m, "vsource") || same_text(m, "inductor") {
        proof {
            reveal_strlit("vsource");
            reveal_strlit("vccs");
            reveal_strlit("vcvs");
            reveal_strlit("inductor");
            assert("inductor"@.len() != "vccs"@.len());
            assert("inductor"@.len() != "vcvs"@.len());
            assert("inductor"@.len() != "vsource"@.len());
        }
        if dev.terminals.len() < 2 {
            return Err(
                BuildError::TooFewTerminals {
                    device: dev.name.clone(),
                    terminals: dev.terminals.len(),
                    model: dev.model.clone(),
                },
            );
        }
        let p = dev.terminals[0];
        let n = dev.terminals[1];
        let branch = next_unknown;
        if same_text(m, "vsource") {
            return Ok(
                match dev.waveform {
                    Some(waveform) => Part::WaveformSource { p, n, branch, waveform },
                    None => Part::VoltageSource { p, n, branch, value: stated_value(dev) },
                },
            );
        }
        return Ok(Part::Inductor { p, n, branch, inductance: stated_value(dev) });
    }
    if same_text(m, "vccs") || same_text(m, "vcvs") {
        let p = dev.terminals[0];
        let n = dev.terminals[1];
        let cp = dev.terminals[2];
        let cn = dev.terminals[3];
        let gain = stated_value(dev);
        if same_text(m, "vccs") {
            return Ok(Part::Vccs { p, n, cp, cn, gain });
        }
        return Ok(Part::Vcvs { p, n, cp, cn, branch: next_unknown, gain });
    }
    let k = find_model(compiled, m);
    if k < compiled.len() {
        return match build_from_model(
            &compiled[k],
            dev.value,
            &dev.params,
            &dev.terminals,
            next_unknown,
        ) {
            Ok(placement) => Ok(Part::Compiled { module: k, placement }),
            Err(e) => Err(e),
        };
    }
    reference_instance(dev)
}

/// A placed model claims no more unknowns than it has nodes.
pub proof fn lemma_claim_bound(dev: Device, compiled: Seq<Module>, next: int, part: Part)
    requires
        is_plan(dev, compiled, next, Ok(part)),
    ensures
        next <= part.end_of_claim(next) <= next + most_claimed(dev, compiled),
{
    let k = model_index(compiled, dev.model@);
    if part is Compiled {
        let slots = node_slots(compiled[k], dev.terminals@);
        lemma_open_count(slots, compiled[k].nodes@.len() as int);
    }
}

proof fn lemma_open_count(slots: Seq<Option<usize>>, upto: int)
    requires
        0 <= upto,
    ensures
        0 <= open_before(slots, upto) <= upto,
    decreases upto,
{
    if upto > 0 {
        lemma_open_count(slots, upto - 1);
    }
}

} // verus!
