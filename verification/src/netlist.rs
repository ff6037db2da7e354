//! The circuit as the deck states it, and the compiled models its devices name.
use crate::number::Real;
use vstd::prelude::*;

verus! {

/// The index that stands for the reference node. No row of the solution vector
/// belongs to it.
pub const GROUND: usize = usize::MAX;

/// The waveform of a time-varying voltage source.
#[derive(Clone, Copy, Debug, PartialEq, Eq)]
pub enum Waveform {
    /// `SIN(offset amplitude freq)`.
    Sin { offset: Real, amplitude: Real, freq: Real },
    /// `PULSE(v1 v2 td tr tf pw per)`.
    Pulse { v1: Real, v2: Real, td: Real, tr: Real, tf: Real, pw: Real, per: Real },
}

/// A source's small-signal excitation: `AC <magnitude> [phase]`.
#[derive(Clone, Copy, Debug, PartialEq, Eq)]
pub struct AcSpec {
    pub magnitude: Real,
    pub phase_deg: Real,
}

/// One device line of a deck.
#[derive(Clone, Debug)]
pub struct Device {
    pub name: String,
    /// The model that the line names, or the built-in primitive its letter stands for.
    pub model: String,
    /// For each terminal the node it connects to, or [`GROUND`].
    pub terminals: Vec<usize>,
    pub value: Option<Real>,
    /// The `name=value` settings of the line, in order.
    pub params: Vec<(String, Real)>,
    /// The elements that a coupled or current-controlled device names.
    pub controls: Vec<String>,
    pub waveform: Option<Waveform>,
    pub ac: Option<AcSpec>,
    /// The initial condition, `IC=`.
    pub ic: Option<Real>,
}

/// The analysis that a deck's own card asks for.
#[derive(Clone, Copy, Debug, PartialEq, Eq, Structural)]
pub enum AnalysisCard {
    Op,
    Dc,
    Tran,
    Ac,
    Noise,
}

/// A `.dc` card.
#[derive(Clone, Debug)]
pub struct DcSweep {
    pub source: String,
    pub start: Real,
    pub stop: Real,
    pub step: Real,
}

/// How the points of an `.ac` sweep are spaced.
#[derive(Clone, Copy, Debug, PartialEq, Eq, Structural)]
pub enum AcSweepKindCard {
    Dec,
    Oct,
    Lin,
}

/// An `.ac` card.
#[derive(Clone, Copy, Debug, PartialEq, Eq)]
pub struct AcCard {
    pub kind: AcSweepKindCard,
    pub points: usize,
    pub fstart: Real,
    pub fstop: Real,
}

/// A `.noise` card.
#[derive(Clone, Debug)]
pub struct NoiseCard {
    /// The net that is observed.
    pub output: String,
    /// The source that the noise is referred to.
    pub source: String,
    pub points_per_decade: usize,
    pub fstart: Real,
    pub fstop: Real,
}

/// A parsed deck.
#[derive(Clone, Debug)]
pub struct Netlist {
    pub devices: Vec<Device>,
    /// The nets, in the order of their unknowns.
    pub node_order: Vec<String>,
    /// Every name a net goes by, with its unknown or [`GROUND`].
    pub nodes: Vec<(String, usize)>,
    pub analysis: AnalysisCard,
    /// `.tran <tstep> <tstop>`.
    pub tran: Option<(Real, Real)>,
    pub dc: Option<DcSweep>,
    pub ac: Option<AcCard>,
    pub noise: Option<NoiseCard>,
}

impl Netlist {
    /// Every terminal connects to a net of this deck or to ground.
    pub open spec fn well_wired(self) -> bool {
        forall|d: int, t: int|
            0 <= d < self.devices@.len() && 0 <= t < self.devices@[d].terminals@.len() ==> (
            #[trigger] self.devices@[d].terminals@[t] < self.node_order@.len()
                || self.devices@[d].terminals@[t] == GROUND)
    }
}

/// A parameter that a compiled model declares.
#[derive(Clone, Debug)]
pub struct Param {
    pub name: String,
    pub default: Real,
    /// Whether it is a `localparam`, which a deck cannot set.
    pub is_local: bool,
}

/// A node of a compiled model, with what its discipline says of it.
#[derive(Clone, Debug)]
pub struct NodeDecl {
    pub name: String,
    /// The access function of the potential, where a discipline declares one.
    pub access: Option<String>,
    /// The units of the potential, where a discipline declares them.
    pub units: Option<String>,
}

/// A compiled model.
#[derive(Clone, Debug)]
pub struct Module {
    pub name: String,
    pub params: Vec<Param>,
    /// For each declared port its nodes: one, or several for a vector port.
    pub ports: Vec<Vec<usize>>,
    pub nodes: Vec<NodeDecl>,
    /// The ports that the model asks `$port_connected` about.
    pub queried_ports: Vec<usize>,
    /// Whether the body scales a flow contribution by `$mfactor` itself.
    pub scales_by_mfactor: bool,
}

/// The number of nodes in the first `count` ports.
pub open spec fn port_width(ports: Seq<Vec<usize>>, count: int) -> int
    decreases count,
{
    if count <= 0 {
        0
    } else {
        port_width(ports, count - 1) + ports[count - 1]@.len()
    }
}

/// The nodes of the ports, one port after the other.
pub open spec fn port_nodes(ports: Seq<Vec<usize>>) -> Seq<usize>
    decreases ports.len(),
{
    if ports.len() == 0 {
        Seq::empty()
    } else {
        port_nodes(ports.drop_last()) + ports.last()@
    }
}

impl Module {
    /// Every port refers to nodes that the model has, and the port nodes can be counted.
    pub open spec fn well_formed(self) -> bool {
        &&& port_width(self.ports@, self.ports@.len() as int) <= usize::MAX
        &&& forall|i: int, j: int|
            0 <= i < self.ports@.len() && 0 <= j < self.ports@[i]@.len()
                ==> #[trigger] self.ports@[i]@[j] < self.nodes@.len()
    }

    /// Whether the model declares a parameter of this name.
    pub open spec fn declares(self, name: Seq<char>) -> bool {
        exists|i: int| 0 <= i < self.params@.len() && #[trigger] self.params@[i].name@ == name
    }
}

/// Port widths only grow with the number of ports.
pub proof fn lemma_port_width_monotonic(ports: Seq<Vec<usize>>, i: int, j: int)
    requires
        0 <= i <= j <= ports.len(),
    ensures
        0 <= port_width(ports, i) <= port_width(ports, j),
    decreases j,
{
    if i < j {
        lemma_port_width_monotonic(ports, i, j - 1);
    } else if i > 0 {
        lemma_port_width_monotonic(ports, i - 1, i - 1);
    }
}

/// Width counts the port nodes, and a prefix of the ports does not see the rest.
pub proof fn lemma_port_nodes_len(ports: Seq<Vec<usize>>)
    ensures
        port_nodes(ports).len() == port_width(ports, ports.len() as int),
    decreases ports.len(),
{
    if ports.len() > 0 {
        lemma_port_nodes_len(ports.drop_last());
        lemma_port_width_prefix(ports, ports.len() - 1);
    }
}

pub proof fn lemma_port_width_prefix(ports: Seq<Vec<usize>>, count: int)
    requires
        0 <= count <= ports.len(),
    ensures
        port_width(ports.subrange(0, count), count) == port_width(ports, count),
        ports.len() > 0 && count == ports.len() - 1 ==> port_width(ports.drop_last(), count)
            == port_width(ports, count),
    decreases count,
{
    lemma_port_width_agree(ports.subrange(0, count), ports, count);
    if ports.len() > 0 && count == ports.len() - 1 {
        lemma_port_width_agree(ports.drop_last(), ports, count);
    }
}

proof fn lemma_port_width_agree(a: Seq<Vec<usize>>, b: Seq<Vec<usize>>, count: int)
    requires
        0 <= count <= a.len(),
        count <= b.len(),
        forall|i: int| 0 <= i < count ==> a[i] == b[i],
    ensures
        port_width(a, count) == port_width(b, count),
    decreases count,
{
    if count > 0 {
        lemma_port_width_agree(a, b, count - 1);
    }
}

impl Module {
    /// Whether every port refers to nodes that the model has.
    pub fn is_well_formed(&self) -> (r: bool)
        ensures
            r == self.well_formed(),
    {
        let mut width: usize = 0;
        let mut i: usize = 0;
        while i < self.ports.len()
            invariant
                i <= self.ports@.len(),
                width == port_width(self.ports@, i as int),
                forall|a: int, b: int|
                    0 <= a < i && 0 <= b < self.ports@[a]@.len() ==> #[trigger] self.ports@[a]@[b]
                        < self.nodes@.len(),
            decreases self.ports@.len() - i,
        {
            let port = &self.ports[i];
            let mut j: usize = 0;
            while j < port.len()
                invariant
                    i < self.ports@.len(),
                    *port == self.ports@[i as int],
                    j <= port@.len(),
                    forall|b: int|
                        0 <= b < j ==> #[trigger] self.ports@[i as int]@[b] < self.nodes@.len(),
                decreases port@.len() - j,
            {
                if port[j] >= self.nodes.len() {
                    assert(self.ports@[i as int]@[j as int] >= self.nodes@.len());
                    return false;
                }
                j += 1;
            }
            proof {
                lemma_port_width_monotonic(self.ports@, i + 1, self.ports@.len() as int);
            }
            if port.len() > usize::MAX - width {
                return false;
            }
            width = width + port.len();
            i += 1;
        }
        true
    }
}

impl NodeDecl {
    /// The same declaration.
    pub fn copy(&self) -> (r: NodeDecl)
        ensures
            r == *self,
    {
        NodeDecl {
            name: self.name.clone(),
            access: match &self.access {
                Some(a) => Some(a.clone()),
                None => None,
            },
            units: match &self.units {
                Some(u) => Some(u.clone()),
                None => None,
            },
        }
    }
}

} // verus!
