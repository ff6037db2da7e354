//! Noise analysis: which sources count, to which device each belongs, and what the
//! spectrum is made of.
use crate::noise::{is_sorted_table, Density, NoiseSink, NoiseSource, TableInterp};
use crate::number::{Real, INFINITY, ONE};
use crate::stamps::accumulates;
use crate::text::{decimal, decimal_text};
use vstd::prelude::*;

verus! {

/// Why a noise analysis cannot be run.
#[derive(Clone, Copy, Debug, PartialEq, Eq, Structural)]
pub enum AcNoiseError {
    /// The output or the input is no unknown of the circuit.
    InvalidOutput { index: usize, dim: usize },
}

impl AcNoiseError {
    /// What to tell the user.
    pub fn message(&self) -> (r: String)
        ensures
            r@ == (match *self {
                AcNoiseError::InvalidOutput { index, dim } => "noise output unknown "@ + decimal(
                    index as nat,
                ) + " is outside the "@ + decimal(dim as nat) + "-unknown system"@,
            }),
    {
        match self {
            AcNoiseError::InvalidOutput { index, dim } => {
                let mut r = "noise output unknown ".to_owned();
                r.append(decimal_text(*index as u64).as_str());
                r.append(" is outside the ");
                r.append(decimal_text(*dim as u64).as_str());
                r.append("-unknown system");
                r
            },
        }
    }
}

/// What is wrong with an output and an input, if anything: first the output, then the
/// input.
pub open spec fn probe_fault(dim: usize, output: usize, input: Option<usize>) -> Option<AcNoiseError> {
    if output >= dim {
        Some(AcNoiseError::InvalidOutput { index: output, dim })
    } else {
        match input {
            Some(k) => if k >= dim {
                Some(AcNoiseError::InvalidOutput { index: k, dim })
            } else {
                None
            },
            None => None,
        }
    }
}

/// The right-hand side of the adjoint equations: one at the output, zero elsewhere.
/// Both the output and the input have to be unknowns.
pub fn adjoint_probe(dim: usize, output: usize, input: Option<usize>) -> (r: Result<
    Vec<(Real, Real)>,
    AcNoiseError,
>)
    ensures
        match r {
            Ok(e) => {
                &&& probe_fault(dim, output, input) is None
                &&& e@ == Seq::new(
                    dim as nat,
                    |i: int|
                        if i == output {
                            (Real { bits: ONE }, Real { bits: 0 })
                        } else {
                            (Real { bits: 0 }, Real { bits: 0 })
                        },
                )
            },
            Err(fault) => probe_fault(dim, output, input) == Some(fault),
        },
{
    if output >= dim {
        return Err(AcNoiseError::InvalidOutput { index: output, dim });
    }
    if let Some(k) = input {
        if k >= dim {
            return Err(AcNoiseError::InvalidOutput { index: k, dim });
        }
    }
    let mut e: Vec<(Real, Real)> = Vec::new();
    let mut i: usize = 0;
    while i < dim
        invariant
            i <= dim,
            e@.len() == i,
            forall|j: int|
                0 <= j < i ==> #[trigger] e@[j] == (if j == output {
                    (Real { bits: ONE }, Real { bits: 0 })
                } else {
                    (Real { bits: 0 }, Real { bits: 0 })
                }),
        decreases dim - i,
    {
        e.push(
            if i == output {
                (Real::one(), Real::zero())
            } else {
                (Real::zero(), Real::zero())
            },
        );
        i += 1;
    }
    assert(e@ =~= Seq::new(
        dim as nat,
        |i: int|
            if i == output {
                (Real { bits: ONE }, Real { bits: 0 })
            } else {
                (Real { bits: 0 }, Real { bits: 0 })
            },
    ));
    Ok(e)
}

/// An entry of a complex solution; zero for the reference node.
pub fn complex_at(y: &Vec<(Real, Real)>, i: usize) -> (r: (Real, Real))
    ensures
        r == complex_entry(y@, i),
{
    if i < y.len() {
        y[i]
    } else {
        (Real::zero(), Real::zero())
    }
}

// ---- the sources ----------------------------------------------------------

/// The sources that the devices emit, each with the place of its device.
#[derive(Debug)]
pub struct SourceList {
    /// The device, the two ends of the branch, and the source.
    pub sources: Vec<(usize, usize, usize, NoiseSource)>,
    /// The device that is asked.
    pub current: usize,
}

/// The sources after another one is reported: one without any power is dropped.
pub open spec fn with_source(
    sources: Seq<(usize, usize, usize, NoiseSource)>,
    current: usize,
    p: usize,
    n: usize,
    source: NoiseSource,
) -> Seq<(usize, usize, usize, NoiseSource)> {
    if source.powerless() {
        sources
    } else {
        sources.push((current, p, n, source))
    }
}

/// Some source belongs to the device.
pub open spec fn emits(sources: Seq<(usize, usize, usize, NoiseSource)>, id: usize) -> bool {
    exists|i: int| 0 <= i < sources.len() && (#[trigger] sources[i]).0 == id
}

/// The list names exactly the devices that emit a source, in ascending order.
pub open spec fn is_contributors(
    sources: Seq<(usize, usize, usize, NoiseSource)>,
    ids: Seq<usize>,
) -> bool {
    &&& forall|i: int, j: int| 0 <= i < j < ids.len() ==> ids[i] < ids[j]
    &&& forall|id: usize| #[trigger] ids.contains(id) <==> emits(sources, id)
}

impl SourceList {
    /// A list without sources.
    pub fn new() -> (r: SourceList)
        ensures
            r.sources@ == Seq::<(usize, usize, usize, NoiseSource)>::empty(),
            r.current == 0,
    {
        SourceList { sources: Vec::new(), current: 0 }
    }

    /// Turns to the device at this place.
    pub fn turn_to(&mut self, id: usize)
        ensures
            final(self).current == id,
            final(self).sources@ == old(self).sources@,
    {
        self.current = id;
    }

    /// Takes a source of the device that is asked, unless it has no power.
    pub fn push(&mut self, p: usize, n: usize, source: NoiseSource)
        ensures
            final(self).current == old(self).current,
            final(self).sources@ == with_source(
                old(self).sources@,
                old(self).current,
                p,
                n,
                source,
            ),
    {
        if !source.is_powerless() {
            self.sources.push((self.current, p, n, source));
        }
    }

    /// The devices that emit a source, in ascending order, each once.
    pub fn contributors(&self) -> (r: Vec<usize>)
        ensures
            is_contributors(self.sources@, r@),
    {
        let mut ids: Vec<usize> = Vec::new();
        let mut i: usize = 0;
        while i < self.sources.len()
            invariant
                i <= self.sources@.len(),
                is_contributors(self.sources@.subrange(0, i as int), ids@),
            decreases self.sources@.len() - i,
        {
            let id = self.sources[i].0;
            let mut p: usize = 0;
            while p < ids.len() && ids[p] < id
                invariant
                    p <= ids@.len(),
                    forall|k: int| 0 <= k < p ==> ids@[k] < id,
                decreases ids@.len() - p,
            {
                p += 1;
            }
            let ghost before = ids@;
            let ghost old_sources = self.sources@.subrange(0, i as int);
            let ghost new_sources = self.sources@.subrange(0, i + 1);
            if p == ids.len() || ids[p] != id {
                ids.insert(p, id);
                assert(ids@[p as int] == id);
            }
            proof {
                assert(forall|k: int| 0 <= k < before.len() ==> ids@.contains(before[k])) by {
                    assert forall|k: int| 0 <= k < before.len() implies ids@.contains(
                        before[k],
                    ) by {
                        if ids@.len() == before.len() {
                            assert(ids@[k] == before[k]);
                        } else if k < p {
                            assert(ids@[k] == before[k]);
                        } else {
                            assert(ids@[k + 1] == before[k]);
                        }
                    }
                }
                assert(new_sources[i as int].0 == id);
                assert forall|x: usize| #[trigger] ids@.contains(x) <==> emits(
                    new_sources,
                    x,
                ) by {
                    if ids@.contains(x) {
                        let k = choose|k: int| 0 <= k < ids@.len() && ids@[k] == x;
                        if x != id {
                            assert(before.contains(x)) by {
                                if ids@.len() == before.len() {
                                    assert(before[k] == x);
                                } else if k < p {
                                    assert(before[k] == x);
                                } else {
                                    assert(before[k - 1] == x);
                                }
                            }
                            let s = choose|s: int|
                                0 <= s < old_sources.len() && (#[trigger] old_sources[s]).0 == x;
                            assert(new_sources[s].0 == x);
                        }
                    }
                    if emits(new_sources, x) {
                        let s = choose|s: int|
                            0 <= s < new_sources.len() && (#[trigger] new_sources[s]).0 == x;
                        if s < i {
                            assert(old_sources[s].0 == x);
                            assert(before.contains(x));
                            let k = choose|k: int| 0 <= k < before.len() && before[k] == x;
                            assert(ids@.contains(before[k]));
                        } else {
                            assert(ids@[p as int] == x);
                        }
                    }
                }
            }
            i += 1;
        }
        assert(self.sources@.subrange(0, i as int) =~= self.sources@);
        ids
    }
}

impl NoiseSink for SourceList {
    open spec fn kept(&self) -> Seq<(usize, usize, NoiseSource)> {
        self.sources@.map_values(
            |s: (usize, usize, usize, NoiseSource)| (s.1, s.2, s.3),
        )
    }

    fn white_current(&mut self, p: usize, n: usize, psd: Real)
        ensures
            final(self).current == old(self).current,
            final(self).sources@ == with_source(
                old(self).sources@,
                old(self).current,
                p,
                n,
                NoiseSource::White { psd },
            ),
    {
        self.push(p, n, NoiseSource::White { psd });
    }

    fn flicker_current(&mut self, p: usize, n: usize, coeff: Real, exponent: Real)
        ensures
            final(self).current == old(self).current,
            final(self).sources@ == with_source(
                old(self).sources@,
                old(self).current,
                p,
                n,
                NoiseSource::Flicker { coeff, exponent },
            ),
    {
        self.push(p, n, NoiseSource::Flicker { coeff, exponent });
    }

    fn table_current(&mut self, p: usize, n: usize, points: &Vec<(Real, Real)>, interp: TableInterp)
        ensures
            final(self).current == old(self).current,
            exists|sorted: Vec<(Real, Real)>| #[trigger]
                is_sorted_table(points@, sorted@) && final(self).sources@ == with_source(
                    old(self).sources@,
                    old(self).current,
                    p,
                    n,
                    NoiseSource::Table { points: sorted, interp },
                ),
    {
        let mut copy: Vec<(Real, Real)> = Vec::new();
        let mut i: usize = 0;
        while i < points.len()
            invariant
                i <= points@.len(),
                copy@ =~= points@.subrange(0, i as int),
            decreases points@.len() - i,
        {
            copy.push(points[i]);
            i += 1;
        }
        assert(copy@ =~= points@);
        let source = NoiseSource::table(copy, interp);
        assert(source matches NoiseSource::Table { points: s, interp: j } ==> is_sorted_table(
            points@,
            s@,
        ));
        self.push(p, n, source);
    }
}

/// For each of `count` devices its place among the contributors; the largest number for
/// a device that is none.
pub fn bucket_of(contributors: &Vec<usize>, count: usize) -> (r: Vec<usize>)
    requires
        forall|s: int| 0 <= s < contributors@.len() ==> #[trigger] contributors@[s] < count,
        forall|i: int, j: int|
            0 <= i < j < contributors@.len() ==> contributors@[i] < contributors@[j],
    ensures
        r@.len() == count,
        forall|s: int|
            0 <= s < contributors@.len() ==> r@[#[trigger] contributors@[s] as int] == s,
        forall|id: int|
            0 <= id < count && !contributors@.contains(id as usize) ==> #[trigger] r@[id]
                == usize::MAX,
{
    let mut r: Vec<usize> = Vec::new();
    let mut i: usize = 0;
    while i < count
        invariant
            i <= count,
            r@.len() == i,
            forall|j: int| 0 <= j < i ==> #[trigger] r@[j] == usize::MAX,
        decreases count - i,
    {
        r.push(usize::MAX);
        i += 1;
    }
    let mut s: usize = 0;
    while s < contributors.len()
        invariant
            s <= contributors@.len(),
            r@.len() == count,
            forall|k: int| 0 <= k < contributors@.len() ==> #[trigger] contributors@[k] < count,
            forall|i: int, j: int|
                0 <= i < j < contributors@.len() ==> contributors@[i] < contributors@[j],
            forall|k: int| 0 <= k < s ==> r@[#[trigger] contributors@[k] as int] == k,
            forall|id: int|
                0 <= id < count && !contributors@.contains(id as usize) ==> #[trigger] r@[id]
                    == usize::MAX,
        decreases contributors@.len() - s,
    {
        let ghost before = r@;
        r.set(contributors[s], s);
        proof {
            assert(contributors@.contains(contributors@[s as int]));
            assert forall|k: int| 0 <= k < s + 1 implies r@[#[trigger] contributors@[k] as int]
                == k by {
                if k < s {
                    assert(contributors@[k] < contributors@[s as int]);
                }
            }
        }
        s += 1;
    }
    r
}

/// The indices at which the numbers of two ends of an interval are both finite.
pub open spec fn finite_intervals(count: nat, psd: Seq<Real>, upto: int) -> Seq<usize>
    decreases upto,
{
    if upto <= 0 {
        Seq::empty()
    } else {
        let before = finite_intervals(count, psd, upto - 1);
        if upto < count && upto < psd.len() && psd[upto - 1].finite() && psd[upto].finite() {
            before.push((upto - 1) as usize)
        } else {
            before
        }
    }
}

/// The intervals between frequencies that an integral counts: those at both ends of
/// which the density is finite.
pub fn counted_intervals(count: usize, psd: &Vec<Real>) -> (r: Vec<usize>)
    ensures
        r@ == finite_intervals(count as nat, psd@, count as int),
{
    let mut r: Vec<usize> = Vec::new();
    let mut i: usize = 0;
    while i < count
        invariant
            i <= count,
            r@ == finite_intervals(count as nat, psd@, i as int),
        decreases count - i,
    {
        if i + 1 < count && i + 1 < psd.len() && psd[i].is_finite() && psd[i + 1].is_finite() {
            r.push(i);
        }
        i += 1;
    }
    r
}

/// A density referred to the input: the quotient by the gain, or infinity where the
/// input does not reach the output.
pub fn referred_density(gain_squared: Real, quotient: Real) -> (r: Real)
    ensures
        r == (if (Real { bits: 0 }).lt(gain_squared) {
            quotient
        } else {
            Real { bits: INFINITY }
        }),
{
    if Real::zero().less(gain_squared) {
        quotient
    } else {
        Real::from_bits(INFINITY)
    }
}

/// What each contributor adds to the spectrum: for each of them its own series over the
/// frequencies. `rows` holds for each frequency what each contributor adds there.
pub fn per_instance(contributors: &Vec<usize>, rows: &Vec<Vec<Real>>) -> (r: Vec<
    (usize, Vec<Real>),
>)
    requires
        forall|f: int| 0 <= f < rows@.len() ==> (#[trigger] rows@[f])@.len() == contributors@.len(),
    ensures
        r@.len() == contributors@.len(),
        forall|s: int| 0 <= s < r@.len() ==> (#[trigger] r@[s]).0 == contributors@[s],
        forall|s: int|
            0 <= s < r@.len() ==> (#[trigger] r@[s]).1@ == Seq::new(
                rows@.len(),
                |f: int| rows@[f]@[s],
            ),
{
    let mut r: Vec<(usize, Vec<Real>)> = Vec::new();
    let mut s: usize = 0;
    while s < contributors.len()
        invariant
            s <= contributors@.len(),
            forall|f: int|
                0 <= f < rows@.len() ==> (#[trigger] rows@[f])@.len() == contributors@.len(),
            r@.len() == s,
            forall|k: int| 0 <= k < s ==> (#[trigger] r@[k]).0 == contributors@[k],
            forall|k: int|
                0 <= k < s ==> (#[trigger] r@[k]).1@ == Seq::new(
                    rows@.len(),
                    |f: int| rows@[f]@[k],
                ),
        decreases contributors@.len() - s,
    {
        let mut series: Vec<Real> = Vec::new();
        let mut f: usize = 0;
        while f < rows.len()
            invariant
                f <= rows@.len(),
                s < contributors@.len(),
                forall|g: int|
                    0 <= g < rows@.len() ==> (#[trigger] rows@[g])@.len() == contributors@.len(),
                series@.len() == f,
                forall|g: int| 0 <= g < f ==> #[trigger] series@[g] == rows@[g]@[s as int],
            decreases rows@.len() - f,
        {
            series.push(rows[f][s]);
            f += 1;
        }
        assert(series@ =~= Seq::new(rows@.len(), |f: int| rows@[f]@[s as int]));
        r.push((contributors[s], series));
        s += 1;
    }
    r
}

/// The sums from zero on that the sources lead through, each adding to its device's own.
pub open spec fn is_bucketing<F: Fn(Real, Real) -> Real>(
    plus: F,
    places: Seq<usize>,
    slots: nat,
    added: Seq<Real>,
    steps: Seq<Seq<Real>>,
) -> bool {
    &&& steps.len() == added.len() + 1
    &&& steps[0] == Seq::new(slots, |i: int| Real { bits: 0 })
    &&& forall|k: int|
        0 <= k < added.len() ==> #[trigger] accumulates(
            plus,
            steps[k],
            places[k] as int,
            added[k],
            steps[k + 1],
        )
}

/// What the sources of each device add up to at one frequency. `places` gives for each
/// source the place of its device among `slots` ones, `added` what the source adds;
/// `plus` adds two numbers.
pub fn bucket_sums<F: Fn(Real, Real) -> Real>(
    places: &Vec<usize>,
    slots: usize,
    added: &Vec<Real>,
    plus: &F,
) -> (r: Vec<Real>)
    requires
        places@.len() == added@.len(),
        forall|k: int| 0 <= k < places@.len() ==> #[trigger] places@[k] < slots,
        forall|a: Real, b: Real| #[trigger] call_requires(*plus, (a, b)),
    ensures
        r@.len() == slots,
        exists|steps: Seq<Seq<Real>>| #[trigger]
            is_bucketing(*plus, places@, slots as nat, added@, steps) && r@ == steps.last(),
{
    let mut r: Vec<Real> = Vec::new();
    let mut i: usize = 0;
    while i < slots
        invariant
            i <= slots,
            r@.len() == i,
            forall|j: int| 0 <= j < i ==> #[trigger] r@[j] == (Real { bits: 0 }),
        decreases slots - i,
    {
        r.push(Real::zero());
        i += 1;
    }
    assert(r@ =~= Seq::new(slots as nat, |i: int| Real { bits: 0 }));
    let ghost mut steps: Seq<Seq<Real>> = seq![r@];
    let mut k: usize = 0;
    while k < added.len()
        invariant
            places@.len() == added@.len(),
            forall|j: int| 0 <= j < places@.len() ==> #[trigger] places@[j] < slots,
            forall|a: Real, b: Real| #[trigger] call_requires(*plus, (a, b)),
            k <= added@.len(),
            r@.len() == slots,
            steps.len() == k + 1,
            steps[0] == Seq::new(slots as nat, |i: int| Real { bits: 0 }),
            steps.last() == r@,
            forall|j: int|
                0 <= j < k ==> #[trigger] accumulates(
                    *plus,
                    steps[j],
                    places@[j] as int,
                    added@[j],
                    steps[j + 1],
                ),
        decreases added@.len() - k,
    {
        let ghost before = steps;
        let place = places[k];
        let sum = plus(r[place], added[k]);
        r.set(place, sum);
        proof {
            steps = steps.push(r@);
            assert(accumulates(*plus, before.last(), place as int, added@[k as int], r@));
            assert forall|j: int| 0 <= j < k + 1 implies #[trigger] accumulates(
                *plus,
                steps[j],
                places@[j] as int,
                added@[j],
                steps[j + 1],
            ) by {
                if j < k {
                    assert(steps[j] == before[j]);
                    assert(steps[j + 1] == before[j + 1]);
                }
            }
        }
        k += 1;
    }
    assert(is_bucketing(*plus, places@, slots as nat, added@, steps));
    r
}

// ---- the spectrum ---------------------------------------------------------

/// An entry of a complex solution; zero for the reference node.
pub open spec fn complex_entry(y: Seq<(Real, Real)>, i: usize) -> (Real, Real) {
    if i < y.len() {
        y[i as int]
    } else {
        (Real { bits: 0 }, Real { bits: 0 })
    }
}

/// `added` is what a source adds at a frequency: its density there, weighed by the
/// adjoint solution at the two ends of its branch.
pub open spec fn is_added<W: Fn(Real, (Real, Real), (Real, Real), Density) -> Real>(
    weigh: W,
    source: (usize, usize, usize, NoiseSource),
    f: Real,
    y: Seq<(Real, Real)>,
    added: Real,
) -> bool {
    exists|d: Density| #[trigger]
        source.3.is_density(f, d) && call_ensures(
            weigh,
            (f, complex_entry(y, source.1), complex_entry(y, source.2), d),
            added,
        )
}

/// The places of the sources' devices among the contributors.
pub open spec fn is_placing(
    sources: Seq<(usize, usize, usize, NoiseSource)>,
    contributors: Seq<usize>,
    places: Seq<usize>,
) -> bool {
    &&& places.len() == sources.len()
    &&& forall|k: int|
        0 <= k < places.len() ==> #[trigger] places[k] < contributors.len()
            && contributors[places[k] as int] == sources[k].0
}

/// `shares` is what each contributor adds to the density at a frequency.
pub open spec fn is_shares<
    W: Fn(Real, (Real, Real), (Real, Real), Density) -> Real,
    F: Fn(Real, Real) -> Real,
>(
    weigh: W,
    plus: F,
    sources: Seq<(usize, usize, usize, NoiseSource)>,
    places: Seq<usize>,
    slots: nat,
    f: Real,
    y: Seq<(Real, Real)>,
    shares: Seq<Real>,
) -> bool {
    exists|added: Seq<Real>, steps: Seq<Seq<Real>>|
        {
            &&& added.len() == sources.len()
            &&& forall|k: int|
                0 <= k < added.len() ==> is_added(weigh, sources[k], f, y, #[trigger] added[k])
            &&& #[trigger] is_bucketing(plus, places, slots, added, steps)
            &&& shares == steps.last()
        }
}

/// `total` is the sum of the numbers, from the first to the last.
pub open spec fn is_sum<F: Fn(Real, Real) -> Real>(plus: F, items: Seq<Real>, total: Real) -> bool {
    exists|steps: Seq<Real>| #[trigger] is_summing(plus, items, steps) && total == steps.last()
}

/// The sums from zero on that the numbers lead through.
pub open spec fn is_summing<F: Fn(Real, Real) -> Real>(
    plus: F,
    items: Seq<Real>,
    steps: Seq<Real>,
) -> bool {
    &&& steps.len() == items.len() + 1
    &&& steps[0] == (Real { bits: 0 })
    &&& forall|i: int|
        0 <= i < items.len() ==> #[trigger] call_ensures(
            plus,
            (steps[i], items[i]),
            steps[i + 1],
        )
}

/// `density` is the total referred to an input with the adjoint solution `h`.
pub open spec fn is_referred<R: Fn((Real, Real), Real) -> (Real, Real)>(
    refer: R,
    h: (Real, Real),
    total: Real,
    density: Real,
) -> bool {
    exists|g: (Real, Real)| #[trigger]
        call_ensures(refer, (h, total), g) && density == (if (Real { bits: 0 }).lt(g.0) {
            g.1
        } else {
            Real { bits: INFINITY }
        })
}

fn sum<F: Fn(Real, Real) -> Real>(items: &Vec<Real>, plus: &F) -> (total: Real)
    requires
        forall|a: Real, b: Real| #[trigger] call_requires(*plus, (a, b)),
    ensures
        is_sum(*plus, items@, total),
{
    let mut total = Real::zero();
    let ghost mut steps: Seq<Real> = seq![total];
    let mut i: usize = 0;
    while i < items.len()
        invariant
            forall|a: Real, b: Real| #[trigger] call_requires(*plus, (a, b)),
            i <= items@.len(),
            steps.len() == i + 1,
            steps[0] == (Real { bits: 0 }),
            steps.last() == total,
            forall|j: int|
                0 <= j < i ==> #[trigger] call_ensures(
                    *plus,
                    (steps[j], items@[j]),
                    steps[j + 1],
                ),
        decreases items@.len() - i,
    {
        let ghost before = steps;
        total = plus(total, items[i]);
        proof {
            steps = steps.push(total);
            assert forall|j: int| 0 <= j < i + 1 implies #[trigger] call_ensures(
                *plus,
                (steps[j], items@[j]),
                steps[j + 1],
            ) by {
                if j < i {
                    assert(steps[j] == before[j]);
                    assert(steps[j + 1] == before[j + 1]);
                }
            }
        }
        i += 1;
    }
    assert(is_summing(*plus, items@, steps));
    total
}

fn shares_at<W: Fn(Real, (Real, Real), (Real, Real), Density) -> Real, F: Fn(Real, Real) -> Real>(
    sources: &Vec<(usize, usize, usize, NoiseSource)>,
    places: &Vec<usize>,
    slots: usize,
    f: Real,
    y: &Vec<(Real, Real)>,
    weigh: &W,
    plus: &F,
) -> (r: Vec<Real>)
    requires
        places@.len() == sources@.len(),
        forall|k: int| 0 <= k < places@.len() ==> #[trigger] places@[k] < slots,
        forall|k: int| 0 <= k < sources@.len() ==> (#[trigger] sources@[k]).3.readable(f),
        forall|x: Real, p: (Real, Real), n: (Real, Real), d: Density|
            #[trigger] call_requires(*weigh, (x, p, n, d)),
        forall|a: Real, b: Real| #[trigger] call_requires(*plus, (a, b)),
    ensures
        r@.len() == slots,
        is_shares(*weigh, *plus, sources@, places@, slots as nat, f, y@, r@),
{
    let mut added: Vec<Real> = Vec::new();
    let mut k: usize = 0;
    while k < sources.len()
        invariant
            forall|j: int| 0 <= j < sources@.len() ==> (#[trigger] sources@[j]).3.readable(f),
            forall|x: Real, p: (Real, Real), n: (Real, Real), d: Density|
                #[trigger] call_requires(*weigh, (x, p, n, d)),
            k <= sources@.len(),
            added@.len() == k,
            forall|j: int|
                0 <= j < k ==> is_added(*weigh, sources@[j], f, y@, #[trigger] added@[j]),
        decreases sources@.len() - k,
    {
        let s = &sources[k];
        assert(sources@[k as int].3.readable(f));
        let d = s.3.density(f);
        let a = weigh(f, complex_at(y, s.1), complex_at(y, s.2), d);
        assert(is_added(*weigh, sources@[k as int], f, y@, a));
        added.push(a);
        k += 1;
    }
    bucket_sums(places, slots, &added, plus)
}

/// The density at the output over the frequencies, that referred to the input where
/// there is one, and what each contributing device adds.
#[derive(Debug)]
pub struct NoiseSpectrum {
    pub psd: Vec<Real>,
    pub input_psd: Vec<Real>,
    /// For each contributor its place and its series, in the order of the places.
    pub per_instance: Vec<(usize, Vec<Real>)>,
}

/// The places of the contributors.
pub open spec fn contributor_ids(spectrum: NoiseSpectrum) -> Seq<usize> {
    Seq::new(spectrum.per_instance@.len(), |s: int| spectrum.per_instance@[s].0)
}

/// What each contributor adds at the `i`-th frequency.
pub open spec fn shares_of(spectrum: NoiseSpectrum, i: int) -> Seq<Real> {
    Seq::new(spectrum.per_instance@.len(), |s: int| spectrum.per_instance@[s].1@[i])
}

/// `r` is the spectrum of the sources: each contributor's series, the density as their
/// sum, and the density referred to the input where there is one.
pub open spec fn is_spectrum<
    W: Fn(Real, (Real, Real), (Real, Real), Density) -> Real,
    F: Fn(Real, Real) -> Real,
    R: Fn((Real, Real), Real) -> (Real, Real),
>(
    sources: Seq<(usize, usize, usize, NoiseSource)>,
    f: Seq<Real>,
    ys: Seq<Vec<(Real, Real)>>,
    input: Option<usize>,
    weigh: W,
    plus: F,
    refer: R,
    r: NoiseSpectrum,
) -> bool {
    &&& is_contributors(sources, contributor_ids(r))
    &&& forall|s: int|
        0 <= s < r.per_instance@.len() ==> (#[trigger] r.per_instance@[s]).1@.len() == f.len()
    &&& r.psd@.len() == f.len()
    &&& exists|places: Seq<usize>| #[trigger]
        is_placing(sources, contributor_ids(r), places) && forall|i: int|
            0 <= i < f.len() ==> #[trigger] is_shares(
                weigh,
                plus,
                sources,
                places,
                r.per_instance@.len(),
                f[i],
                ys[i]@,
                shares_of(r, i),
            )
    &&& forall|i: int| 0 <= i < f.len() ==> is_sum(plus, shares_of(r, i), #[trigger] r.psd@[i])
    &&& match input {
        None => r.input_psd@.len() == 0,
        Some(k) => r.input_psd@.len() == f.len() && forall|i: int|
            0 <= i < f.len() ==> is_referred(
                refer,
                complex_entry(ys[i]@, k),
                r.psd@[i],
                #[trigger] r.input_psd@[i],
            ),
    }
}

/// The spectrum of the sources at the given frequencies, from the adjoint solution at
/// each of them. `weigh` gives what a density adds through two entries of the solution,
/// `plus` adds two numbers, and `refer` gives the squared gain of an entry and the
/// quotient of a total by it.
pub fn noise_spectrum<
    W: Fn(Real, (Real, Real), (Real, Real), Density) -> Real,
    F: Fn(Real, Real) -> Real,
    R: Fn((Real, Real), Real) -> (Real, Real),
>(
    list: &SourceList,
    devices: usize,
    f: &Vec<Real>,
    ys: &Vec<Vec<(Real, Real)>>,
    input: Option<usize>,
    weigh: &W,
    plus: &F,
    refer: &R,
) -> (r: NoiseSpectrum)
    requires
        f@.len() == ys@.len(),
        forall|k: int| 0 <= k < list.sources@.len() ==> (#[trigger] list.sources@[k]).0 < devices,
        forall|k: int, i: int|
            0 <= k < list.sources@.len() && 0 <= i < f@.len()
                ==> #[trigger] list.sources@[k].3.readable(#[trigger] f@[i]),
        forall|x: Real, p: (Real, Real), n: (Real, Real), d: Density|
            #[trigger] call_requires(*weigh, (x, p, n, d)),
        forall|a: Real, b: Real| #[trigger] call_requires(*plus, (a, b)),
        forall|h: (Real, Real), t: Real| #[trigger] call_requires(*refer, (h, t)),
    ensures
        is_spectrum(list.sources@, f@, ys@, input, *weigh, *plus, *refer, r),
{
    let contributors = list.contributors();
    let slots: usize = contributors.len();
    proof {
        assert forall|s: int| 0 <= s < contributors@.len() implies #[trigger] contributors@[s]
            < devices by {
            assert(contributors@.contains(contributors@[s]));
            assert(emits(list.sources@, contributors@[s]));
            let k = choose|k: int|
                0 <= k < list.sources@.len() && (#[trigger] list.sources@[k]).0
                    == contributors@[s];
            assert(list.sources@[k].0 < devices);
        }
    }
    let buckets = bucket_of(&contributors, devices);
    let mut places: Vec<usize> = Vec::new();
    let mut k: usize = 0;
    while k < list.sources.len()
        invariant
            is_contributors(list.sources@, contributors@),
            buckets@.len() == devices,
            slots == contributors@.len(),
            forall|j: int|
                0 <= j < list.sources@.len() ==> (#[trigger] list.sources@[j]).0 < devices,
            forall|s: int|
                0 <= s < contributors@.len() ==> buckets@[#[trigger] contributors@[s] as int] == s,
            k <= list.sources@.len(),
            places@.len() == k,
            forall|j: int|
                0 <= j < k ==> #[trigger] places@[j] < slots && contributors@[places@[j] as int]
                    == list.sources@[j].0,
        decreases list.sources@.len() - k,
    {
        let id = list.sources[k].0;
        proof {
            assert(list.sources@[k as int].0 < devices);
            assert(emits(list.sources@, id));
            assert(contributors@.contains(id));
            let s = choose|s: int| 0 <= s < contributors@.len() && contributors@[s] == id;
            assert(buckets@[contributors@[s] as int] == s);
        }
        places.push(buckets[id]);
        k += 1;
    }
    let mut rows: Vec<Vec<Real>> = Vec::new();
    let mut psd: Vec<Real> = Vec::new();
    let mut input_psd: Vec<Real> = Vec::new();
    let mut i: usize = 0;
    while i < f.len()
        invariant
            f@.len() == ys@.len(),
            places@.len() == list.sources@.len(),
            forall|j: int| 0 <= j < places@.len() ==> #[trigger] places@[j] < slots,
            slots == contributors@.len(),
            forall|k: int, i: int|
                0 <= k < list.sources@.len() && 0 <= i < f@.len()
                    ==> #[trigger] list.sources@[k].3.readable(#[trigger] f@[i]),
            forall|x: Real, p: (Real, Real), n: (Real, Real), d: Density|
                #[trigger] call_requires(*weigh, (x, p, n, d)),
            forall|a: Real, b: Real| #[trigger] call_requires(*plus, (a, b)),
            forall|h: (Real, Real), t: Real| #[trigger] call_requires(*refer, (h, t)),
            i <= f@.len(),
            rows@.len() == i,
            psd@.len() == i,
            forall|j: int| 0 <= j < i ==> (#[trigger] rows@[j])@.len() == slots,
            forall|j: int|
                0 <= j < i ==> is_shares(
                    *weigh,
                    *plus,
                    list.sources@,
                    places@,
                    slots as nat,
                    f@[j],
                    ys@[j]@,
                    (#[trigger] rows@[j])@,
                ),
            forall|j: int| 0 <= j < i ==> is_sum(*plus, rows@[j]@, #[trigger] psd@[j]),
            match input {
                None => input_psd@.len() == 0,
                Some(k) => input_psd@.len() == i && forall|j: int|
                    0 <= j < i ==> is_referred(
                        *refer,
                        complex_entry(ys@[j]@, k),
                        psd@[j],
                        #[trigger] input_psd@[j],
                    ),
            },
        decreases f@.len() - i,
    {
        assert forall|k: int| 0 <= k < list.sources@.len() implies (
        #[trigger] list.sources@[k]).3.readable(f@[i as int]) by {}
        let shares = shares_at(&list.sources, &places, slots, f[i], &ys[i], weigh, plus);
        let total = sum(&shares, plus);
        if let Some(k) = input {
            let h = complex_at(&ys[i], k);
            let (gain, quotient) = refer(h, total);
            let density = referred_density(gain, quotient);
            assert(call_ensures(*refer, (h, total), (gain, quotient)));
            assert(is_referred(*refer, h, total, density));
            input_psd.push(density);
        }
        psd.push(total);
        rows.push(shares);
        i += 1;
    }
    let shares = per_instance(&contributors, &rows);
    let r = NoiseSpectrum { psd, input_psd, per_instance: shares };
    proof {
        assert(contributor_ids(r) =~= contributors@);
        assert forall|i: int| 0 <= i < f@.len() implies shares_of(r, i) == (
        #[trigger] rows@[i])@ by {
            assert(shares_of(r, i) =~= rows@[i]@);
        }
        assert(is_placing(list.sources@, contributors@, places@));
        assert forall|i: int| 0 <= i < f@.len() implies #[trigger] is_shares(
            *weigh,
            *plus,
            list.sources@,
            places@,
            r.per_instance@.len(),
            f@[i],
            ys@[i]@,
            shares_of(r, i),
        ) by {
            assert(shares_of(r, i) == rows@[i]@);
        }
        assert forall|i: int| 0 <= i < f@.len() implies is_sum(
            *plus,
            shares_of(r, i),
            #[trigger] r.psd@[i],
        ) by {
            assert(shares_of(r, i) == rows@[i]@);
        }
    }
    r
}

/// The areas that an integral adds up: that of each interval at both ends of which the
/// density is finite.
pub open spec fn is_areas<T: Fn(Real, Real, Real, Real) -> Real>(
    trapezoid: T,
    f: Seq<Real>,
    psd: Seq<Real>,
    areas: Seq<Real>,
) -> bool {
    let counted = finite_intervals(f.len(), psd, f.len() as int);
    &&& areas.len() == counted.len()
    &&& forall|k: int|
        0 <= k < areas.len() ==> call_ensures(
            trapezoid,
            (
                f[counted[k] as int],
                f[counted[k] + 1],
                psd[counted[k] as int],
                psd[counted[k] + 1],
            ),
            #[trigger] areas[k],
        )
}

proof fn lemma_intervals_in_range(count: nat, psd: Seq<Real>, upto: int)
    requires
        upto <= usize::MAX,
    ensures
        forall|k: int|
            0 <= k < finite_intervals(count, psd, upto).len() ==> (#[trigger] finite_intervals(
                count,
                psd,
                upto,
            )[k]) + 1 < count && finite_intervals(count, psd, upto)[k] + 1 < psd.len(),
    decreases upto,
{
    if upto > 0 {
        lemma_intervals_in_range(count, psd, upto - 1);
        let before = finite_intervals(count, psd, upto - 1);
        let now = finite_intervals(count, psd, upto);
        assert forall|k: int| 0 <= k < now.len() implies (#[trigger] now[k]) + 1 < count && now[k]
            + 1 < psd.len() by {
            if k < before.len() {
                assert(now[k] == before[k]);
            }
        }
    }
}

/// `r` is the root of the integral of a density: of the sum of the areas of the counted
/// intervals, or nothing over fewer than two points.
pub open spec fn is_rms<
    T: Fn(Real, Real, Real, Real) -> Real,
    F: Fn(Real, Real) -> Real,
    Q: Fn(Real) -> Real,
>(f: Seq<Real>, psd: Seq<Real>, trapezoid: T, plus: F, root: Q, r: Real) -> bool {
    if f.len() < 2 || psd.len() < 2 {
        r == (Real { bits: 0 })
    } else {
        exists|areas: Seq<Real>, power: Real|
            {
                &&& #[trigger] is_areas(trapezoid, f, psd, areas)
                &&& is_sum(plus, areas, power)
                &&& #[trigger] call_ensures(root, (power,), r)
            }
    }
}

/// The root of the integral of a density over its frequencies. An interval with a
/// density that is not finite at one of its ends is left out; there is nothing to
/// integrate over fewer than two points. `trapezoid` gives the area over an interval
/// from its two frequencies and its two densities, `plus` adds two numbers, and `root`
/// takes the root of a power.
pub fn integrate_rms<
    T: Fn(Real, Real, Real, Real) -> Real,
    F: Fn(Real, Real) -> Real,
    Q: Fn(Real) -> Real,
>(f: &Vec<Real>, psd: &Vec<Real>, trapezoid: &T, plus: &F, root: &Q) -> (r: Real)
    requires
        forall|a: Real, b: Real, c: Real, d: Real| #[trigger] call_requires(*trapezoid, (a, b, c, d)),
        forall|a: Real, b: Real| #[trigger] call_requires(*plus, (a, b)),
        forall|a: Real| #[trigger] call_requires(*root, (a,)),
    ensures
        is_rms(f@, psd@, *trapezoid, *plus, *root, r),
{
    if f.len() < 2 || psd.len() < 2 {
        return Real::zero();
    }
    let counted = counted_intervals(f.len(), psd);
    proof {
        lemma_intervals_in_range(f@.len(), psd@, f@.len() as int);
    }
    let mut areas: Vec<Real> = Vec::new();
    let mut k: usize = 0;
    while k < counted.len()
        invariant
            forall|a: Real, b: Real, c: Real, d: Real|
                #[trigger] call_requires(*trapezoid, (a, b, c, d)),
            counted@ == finite_intervals(f@.len(), psd@, f@.len() as int),
            forall|j: int|
                0 <= j < counted@.len() ==> (#[trigger] counted@[j]) + 1 < f@.len() && counted@[j] + 1
                    < psd@.len(),
            k <= counted@.len(),
            areas@.len() == k,
            forall|j: int|
                0 <= j < k ==> call_ensures(
                    *trapezoid,
                    (
                        f@[counted@[j] as int],
                        f@[counted@[j] + 1],
                        psd@[counted@[j] as int],
                        psd@[counted@[j] + 1],
                    ),
                    #[trigger] areas@[j],
                ),
        decreases counted@.len() - k,
    {
        let n: usize = f.len();
        let i = counted[k];
        assert(i + 1 < n);
        areas.push(trapezoid(f[i], f[i + 1], psd[i], psd[i + 1]));
        k += 1;
    }
    assert(is_areas(*trapezoid, f@, psd@, areas@));
    let power = sum(&areas, plus);
    let r = root(power);
    assert(call_ensures(*root, (power,), r));
    r
}

} // verus!
