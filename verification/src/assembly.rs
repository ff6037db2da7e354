//! Building a circuit step by step, where the generator of compiled models has its say:
//! only once it has generated a model's instance is it known which unknowns the next
//! device can claim.
use crate::circuit::{
    after_first, after_second, couple, coupling_plan, find_current, first_parts,
    has_coupling_terminals, lemma_plan_fits, nothing_built,
    planned_first, planned_second, recorded, second_parts, Builder, Built,
};
use crate::device::{
    build_instance, check_terminals, deferred, find_model, has_terminals, is_deferred, is_plan,
    lemma_claim_bound, most_claimed, Part,
};
use crate::netlist::{Device, Module, Netlist};
use crate::place::BuildError;
use crate::text::same_text;
use vstd::prelude::*;

verus! {

/// A circuit that is being built. The devices that couple to others come last.
#[derive(Debug)]
pub struct Assembly {
    /// The unknowns claimed so far.
    pub state: Builder,
    /// What the first devices of the deck build; a device that waits builds nothing yet.
    pub parts: Vec<Option<Part>>,
    /// The auxiliary rows that the model of each of these devices has claimed.
    pub claims: Vec<usize>,
    /// The number of devices up to which those that waited are built, too.
    pub done: usize,
}

/// The parts of those devices that do not wait.
pub open spec fn not_waiting(net: Netlist, parts: Seq<Option<Part>>) -> Seq<Option<Part>> {
    Seq::new(
        parts.len(),
        |i: int|
            if is_deferred(net.devices@[i].model@) {
                None
            } else {
                parts[i]
            },
    )
}

/// The parts of those among the first devices that waited.
pub open spec fn waited(net: Netlist, parts: Seq<Option<Part>>, done: int) -> Seq<Option<Part>> {
    Seq::new(
        done as nat,
        |i: int|
            if is_deferred(net.devices@[i].model@) {
                parts[i]
            } else {
                None
            },
    )
}

fn can_couple(dev: &Device, currents: &Vec<(String, usize)>) -> (r: bool)
    ensures
        r == has_coupling_terminals(*dev, currents@),
{
    if same_text(dev.model.as_str(), "mutual") || dev.controls.len() == 0 {
        true
    } else {
        find_current(currents, dev.controls[0].as_str()) == currents.len() || dev.terminals.len()
            >= 2
    }
}

impl Assembly {
    /// What has been built so far is what the deck asks for.
    pub open spec fn is_of(self, net: Netlist, compiled: Seq<Module>) -> bool {
        let first = not_waiting(net, self.parts@);
        let start = after_first(net, compiled, self.claims@, first);
        let second = waited(net, self.parts@, self.done as int);
        &&& self.parts@.len() <= net.devices@.len()
        &&& self.claims@.len() == self.parts@.len()
        &&& self.done <= self.parts@.len()
        &&& self.done > 0 ==> self.parts@.len() == net.devices@.len()
        &&& planned_first(net, compiled, self.claims@, first)
        &&& planned_second(net, compiled, start, second)
        &&& self.state@ == after_second(net, compiled, start, second)
        &&& self.state@.node_decls.len() == net.node_order@.len()
        &&& forall|i: int|
            0 <= i < self.parts@.len() && !is_deferred(net.devices@[i].model@)
                ==> #[trigger] self.parts@[i] is Some
        &&& forall|i: int| 0 <= i < self.done ==> #[trigger] self.parts@[i] is Some
    }

    /// The device whose turn it is; the number of devices where all are built.
    pub open spec fn turn(self, net: Netlist) -> int {
        if self.parts@.len() < net.devices@.len() {
            self.parts@.len() as int
        } else {
            self.done as int
        }
    }

    /// The device whose turn it is can be built now: it does not wait, or it waits and
    /// every one that does not is built.
    pub open spec fn settled(self, net: Netlist) -> bool {
        let i = self.turn(net);
        i < net.devices@.len() ==> (is_deferred(net.devices@[i].model@) <==> self.parts@.len()
            == net.devices@.len())
    }

    /// What the device whose turn it is builds.
    pub open spec fn is_next(
        self,
        net: Netlist,
        compiled: Seq<Module>,
        r: Result<Part, BuildError>,
    ) -> bool {
        let dev = net.devices@[self.turn(net)];
        if is_deferred(dev.model@) {
            r == coupling_plan(dev, net.devices@, self.state@.currents, self.state@.next)
        } else {
            is_plan(dev, compiled, self.state@.next, r)
        }
    }

    /// The line has the terminals that its letter promises, and that a current-controlled
    /// source needs; the models are well formed, and what the line claims can be counted.
    pub open spec fn can_plan(self, net: Netlist, compiled: Seq<Module>) -> bool {
        let dev = net.devices@[self.turn(net)];
        &&& has_terminals(dev, compiled)
        &&& is_deferred(dev.model@) ==> has_coupling_terminals(dev, self.state@.currents)
        &&& forall|i: int| 0 <= i < compiled.len() ==> #[trigger] compiled[i].well_formed()
        &&& self.state@.next + most_claimed(dev, compiled) <= usize::MAX
    }

    /// Nothing is built yet.
    pub fn new(net: &Netlist) -> (r: Assembly)
        ensures
            r.state@ == nothing_built(net.node_order@.len()),
            r.parts@.len() == 0,
            r.done == 0,
            forall|compiled: Seq<Module>| #[trigger] r.is_of(*net, compiled),
    {
        let r = Assembly {
            state: Builder::new(net.node_order.len()),
            parts: Vec::new(),
            claims: Vec::new(),
            done: 0,
        };
        assert(not_waiting(*net, r.parts@) =~= Seq::empty());
        assert(waited(*net, r.parts@, 0) =~= Seq::empty());
        r
    }

    /// The place of the device whose turn it is; the number of devices where all are built.
    pub fn device(&self, net: &Netlist) -> (r: usize)
        ensures
            r == self.turn(*net),
    {
        if self.parts.len() < net.devices.len() {
            self.parts.len()
        } else {
            self.done
        }
    }

    /// Passes over the devices that are not to be built yet, and over those that already
    /// are, up to the next one whose turn it is.
    pub fn skip(&mut self, net: &Netlist, compiled: &Vec<Module>)
        requires
            old(self).is_of(*net, compiled@),
        ensures
            final(self).is_of(*net, compiled@),
            final(self).settled(*net),
            final(self).state@ == old(self).state@,
            final(self).parts@.len() >= old(self).parts@.len(),
            final(self).parts@.take(old(self).parts@.len() as int) == old(self).parts@,
            final(self).claims@.take(old(self).claims@.len() as int) == old(self).claims@,
            final(self).done >= old(self).done,
            forall|i: int|
                old(self).parts@.len() <= i < final(self).parts@.len() ==> (
                #[trigger] final(self).parts@[i]) is None && is_deferred(net.devices@[i].model@),
            forall|i: int|
                old(self).done <= i < final(self).done ==> !is_deferred(
                    (#[trigger] net.devices@[i]).model@,
                ),
    {
        let ghost parts = self.parts@;
        let ghost claims = self.claims@;
        let ghost done = self.done;
        assert(parts.take(parts.len() as int) =~= parts);
        assert(claims.take(claims.len() as int) =~= claims);
        let n: usize = net.devices.len();
        while self.parts.len() < n && deferred(net.devices[self.parts.len()].model.as_str())
            invariant
                n == net.devices@.len(),
                self.is_of(*net, compiled@),
                self.state == old(self).state,
                self.done == done,
                self.parts@.len() >= parts.len(),
                self.parts@.take(parts.len() as int) == parts,
                self.claims@.take(claims.len() as int) == claims,
                parts.len() == claims.len(),
                forall|i: int|
                    parts.len() <= i < self.parts@.len() ==> (#[trigger] self.parts@[i]) is None
                        && is_deferred(net.devices@[i].model@),
            decreases n - self.parts@.len(),
        {
            let ghost before = *self;
            self.parts.push(None);
            self.claims.push(0);
            proof {
                let first = not_waiting(*net, before.parts@);
                assert(self.parts@.take(parts.len() as int) =~= parts);
                assert(self.claims@.take(claims.len() as int) =~= claims);
                assert(not_waiting(*net, self.parts@).drop_last() =~= first);
                lemma_claims_prefix(*net, compiled@, before.claims@, self.claims@, first);
                assert(waited(*net, self.parts@, 0) =~= waited(*net, before.parts@, 0));
            }
        }
        if self.parts.len() == n {
            while self.done < n && !deferred(net.devices[self.done].model.as_str())
                invariant
                    n == net.devices@.len(),
                    self.is_of(*net, compiled@),
                    self.state == old(self).state,
                    self.parts@.len() == n,
                    self.done >= done,
                    self.parts@.len() >= parts.len(),
                    self.parts@.take(parts.len() as int) == parts,
                    self.claims@.take(claims.len() as int) == claims,
                    parts.len() == claims.len(),
                    forall|i: int|
                        parts.len() <= i < self.parts@.len() ==> (#[trigger] self.parts@[i]) is None
                            && is_deferred(net.devices@[i].model@),
                    forall|i: int|
                        done <= i < self.done ==> !is_deferred(
                            (#[trigger] net.devices@[i]).model@,
                        ),
                decreases n - self.done,
            {
                let ghost before = *self;
                self.done = self.done + 1;
                proof {
                    assert(waited(*net, self.parts@, self.done as int).drop_last() =~= waited(
                        *net,
                        before.parts@,
                        before.done as int,
                    ));
                }
            }
        }
    }

    /// Whether what the device whose turn it is builds can be planned.
    pub fn ready(&self, net: &Netlist, compiled: &Vec<Module>) -> (r: bool)
        requires
            self.turn(*net) < net.devices@.len(),
        ensures
            r == self.can_plan(*net, compiled@),
    {
        let dev = &net.devices[self.device(net)];
        let mut k: usize = 0;
        while k < compiled.len()
            invariant
                k <= compiled@.len(),
                forall|i: int| 0 <= i < k ==> #[trigger] compiled@[i].well_formed(),
            decreases compiled@.len() - k,
        {
            if !compiled[k].is_well_formed() {
                return false;
            }
            k += 1;
        }
        let m = find_model(compiled, dev.model.as_str());
        let room = usize::MAX - self.state.next_unknown;
        let fits = if m < compiled.len() {
            compiled[m].nodes.len() < room
        } else {
            room > 0
        };
        fits && check_terminals(dev, compiled) && (!deferred(dev.model.as_str())
            || can_couple(dev, &self.state.currents))
    }

    /// What the device whose turn it is builds.
    pub fn plan(&self, net: &Netlist, compiled: &Vec<Module>) -> (r: Result<Part, BuildError>)
        requires
            self.is_of(*net, compiled@),
            self.turn(*net) < net.devices@.len(),
            self.can_plan(*net, compiled@),
        ensures
            self.is_next(*net, compiled@, r),
    {
        let dev = &net.devices[self.device(net)];
        if deferred(dev.model.as_str()) {
            couple(dev, &net.devices, &self.state.currents, self.state.next_unknown)
        } else {
            build_instance(dev, compiled, self.state.next_unknown)
        }
    }

    /// Takes what the device whose turn it is builds. The unknowns below `end` are then
    /// claimed; a compiled model may have claimed more than its nodes need.
    pub fn take(&mut self, net: &Netlist, compiled: &Vec<Module>, part: Part, end: usize)
        requires
            old(self).is_of(*net, compiled@),
            old(self).settled(*net),
            old(self).turn(*net) < net.devices@.len(),
            old(self).can_plan(*net, compiled@),
            old(self).is_next(*net, compiled@, Ok(part)),
            part.end_of_claim(old(self).state@.next) <= end,
            !(part is Compiled) ==> part.end_of_claim(old(self).state@.next) == end,
        ensures
            final(self).is_of(*net, compiled@),
            final(self).state@ == recorded(
                old(self).state@,
                net.devices@[old(self).turn(*net)],
                compiled@,
                part,
                end as int,
            ),
            final(self).parts@ == (if is_deferred(net.devices@[old(self).turn(*net)].model@) {
                old(self).parts@.update(old(self).turn(*net), Some(part))
            } else {
                old(self).parts@.push(Some(part))
            }),
            final(self).claims@ == (if is_deferred(net.devices@[old(self).turn(*net)].model@) {
                old(self).claims@
            } else {
                old(self).claims@.push((end - part.end_of_claim(old(self).state@.next)) as usize)
            }),
            final(self).done == (if is_deferred(net.devices@[old(self).turn(*net)].model@) {
                old(self).done + 1
            } else {
                old(self).done as int
            }),
    {
        let i = self.device(net);
        assert(i < net.devices.len());
        let dev = &net.devices[i];
        let ghost before = *self;
        let ghost s = self.state@;
        proof {
            if is_deferred(dev.model@) {
                lemma_coupling_claims(*dev, net.devices@, s.currents, s.next, part);
            } else {
                lemma_claim_bound(*dev, compiled@, s.next, part);
                lemma_plan_fits(*dev, compiled@, s.next, part);
            }
        }
        let own = part.claim_end(self.state.next_unknown);
        self.state.record(dev, compiled, &part, end);
        if deferred(dev.model.as_str()) {
            self.parts.set(i, Some(part));
            self.done = i + 1;
            proof {
                assert(not_waiting(*net, self.parts@) =~= not_waiting(*net, before.parts@));
                assert(waited(*net, self.parts@, self.done as int).drop_last() =~= waited(
                    *net,
                    before.parts@,
                    before.done as int,
                ));
            }
        } else {
            self.parts.push(Some(part));
            self.claims.push(end - own);
            proof {
                let first = not_waiting(*net, before.parts@);
                assert(not_waiting(*net, self.parts@).drop_last() =~= first);
                lemma_claims_prefix(*net, compiled@, before.claims@, self.claims@, first);
                assert(waited(*net, self.parts@, 0) =~= waited(*net, before.parts@, 0));
            }
        }
    }

    /// The circuit, once every device is built.
    pub fn finish(self, net: &Netlist, compiled: &Vec<Module>) -> (r: Built)
        requires
            self.is_of(*net, compiled@),
            self.turn(*net) == net.devices@.len(),
        ensures
            r.is_of(*net, compiled@, self.claims@),
            self.parts@ == r.parts@.map_values(|part: Part| Some(part)),
    {
        let ghost n = net.devices@.len();
        let ghost all = self.parts@;
        let ghost claims = self.claims@;
        let dim = self.state.next_unknown;
        let mut currents: Vec<(String, usize)> = Vec::new();
        let mut k: usize = 0;
        while k < self.state.currents.len()
            invariant
                k <= self.state.currents@.len(),
                currents@ =~= self.state.currents@.subrange(0, k as int),
            decreases self.state.currents@.len() - k,
        {
            currents.push((self.state.currents[k].0.clone(), self.state.currents[k].1));
            k += 1;
        }
        assert(currents@ =~= self.state.currents@);
        let quantities = self.state.quantities(&net.node_order);
        let mut parts: Vec<Part> = Vec::new();
        for p in it: self.parts
            invariant
                it.seq() == all,
                all.len() == n,
                forall|j: int| 0 <= j < n ==> #[trigger] all[j] is Some,
                parts@.len() == it.index(),
                forall|j: int| 0 <= j < it.index() ==> Some(#[trigger] parts@[j]) == all[j],
        {
            assert(p == all[it.index() as int]);
            match p {
                Some(part) => {
                    parts.push(part);
                },
                None => {},
            }
        }
        assert(first_parts(*net, parts@) =~= not_waiting(*net, all));
        assert(second_parts(*net, parts@) =~= waited(*net, all, n as int));
        assert(all =~= parts@.map_values(|part: Part| Some(part)));
        Built { parts, dim, currents, quantities }
    }
}

/// What the first devices build depends on what the compiled ones among them claim, and
/// on no other claim.
pub proof fn lemma_claims_prefix(
    net: Netlist,
    compiled: Seq<Module>,
    a: Seq<usize>,
    b: Seq<usize>,
    first: Seq<Option<Part>>,
)
    requires
        same_claims_made(a, b, first),
    ensures
        after_first(net, compiled, a, first) == after_first(net, compiled, b, first),
        planned_first(net, compiled, a, first) == planned_first(net, compiled, b, first),
    decreases first.len(),
{
    if first.len() > 0 {
        let i = first.len() - 1;
        assert(first[i] == first.last());
        assert forall|j: int| 0 <= j < i && is_compiled(#[trigger] first.drop_last()[j]) implies a[j]
            == b[j] by {
            assert(is_compiled(first[j]));
        }
        lemma_claims_prefix(net, compiled, a, b, first.drop_last());
    }
}

/// The part is a compiled model.
pub open spec fn is_compiled(part: Option<Part>) -> bool {
    part matches Some(p) && p is Compiled
}

/// The two lists give the compiled ones among the parts the same claims.
pub open spec fn same_claims_made(a: Seq<usize>, b: Seq<usize>, parts: Seq<Option<Part>>) -> bool {
    forall|i: int| 0 <= i < parts.len() && is_compiled(#[trigger] parts[i]) ==> a[i] == b[i]
}

/// A coupling claims no unknown but that of its own current.
pub proof fn lemma_coupling_claims(
    dev: Device,
    devices: Seq<Device>,
    currents: Seq<(String, usize)>,
    next: int,
    part: Part,
)
    requires
        coupling_plan(dev, devices, currents, next) == Ok::<Part, BuildError>(part),
    ensures
        !(part is Compiled),
        next <= part.end_of_claim(next) <= next + 1,
{
}

} // verus!
