//! Noise sources: their shapes, and how a tabulated one is read.
use crate::number::Real;
use vstd::prelude::*;

verus! {

/// How a tabulated density is read between its points.
#[derive(Clone, Copy, Debug, PartialEq, Eq, Structural)]
pub enum TableInterp {
    /// On a straight line over frequency and power.
    Linear,
    /// On a straight line over their logarithms.
    Log,
}

/// One noise source, by its shape.
#[derive(Clone, Debug, PartialEq, Eq)]
pub enum NoiseSource {
    /// The same density at every frequency.
    White { psd: Real },
    /// `coeff` over the `exponent`-th power of the frequency.
    Flicker { coeff: Real, exponent: Real },
    /// Read from a table of frequencies and densities, in the order of the frequencies.
    Table { points: Vec<(Real, Real)>, interp: TableInterp },
}

/// What remains to be computed for the density at a frequency.
#[derive(Clone, Copy, Debug, PartialEq, Eq, Structural)]
pub enum Density {
    /// Nothing: this is it.
    Value(Real),
    /// `coeff` over the `exponent`-th power of the frequency.
    Flicker { coeff: Real, exponent: Real },
    /// The place of the frequency on the line from `(f1, p1)` to `(f2, p2)`.
    OnLine { f1: Real, p1: Real, f2: Real, p2: Real },
    /// The same over logarithms.
    OnLogLine { f1: Real, p1: Real, f2: Real, p2: Real },
}

// ---- tables ---------------------------------------------------------------

/// The frequencies ascend in the total order of numbers.
pub open spec fn ascends(points: Seq<(Real, Real)>) -> bool {
    forall|i: int, j: int|
        0 <= i < j < points.len() ==> points[i].0.total_rank() <= points[j].0.total_rank()
}

/// The place `a` comes before the place `b` when points are put in order: its frequency
/// is smaller, or the same and it stood before.
pub open spec fn precedes(points: Seq<(Real, Real)>, a: int, b: int) -> bool {
    let x = points[a].0.total_rank();
    let y = points[b].0.total_rank();
    x < y || (x == y && a < b)
}

/// `order` lists the places of the points, in order.
pub open spec fn is_order(points: Seq<(Real, Real)>, order: Seq<int>) -> bool {
    &&& order.len() == points.len()
    &&& forall|i: int| 0 <= i < order.len() ==> 0 <= #[trigger] order[i] < points.len()
    &&& forall|i: int, j: int|
        0 <= i < j < order.len() ==> precedes(points, #[trigger] order[i], #[trigger] order[j])
}

/// `sorted` holds the points in the order of their frequencies; points of one frequency
/// keep their order.
pub open spec fn is_sorted_table(points: Seq<(Real, Real)>, sorted: Seq<(Real, Real)>) -> bool {
    exists|order: Seq<int>| #[trigger]
        is_order(points, order) && sorted == Seq::new(
            points.len(),
            |i: int| points[order[i]],
        )
}

/// A table put in order ascends.
pub proof fn a_sorted_table_ascends(points: Seq<(Real, Real)>, sorted: Seq<(Real, Real)>)
    requires
        is_sorted_table(points, sorted),
    ensures
        ascends(sorted),
        sorted.len() == points.len(),
{
    let order = choose|order: Seq<int>| #[trigger]
        is_order(points, order) && sorted == Seq::new(points.len(), |i: int| points[order[i]]);
    assert forall|i: int, j: int| 0 <= i < j < sorted.len() implies sorted[i].0.total_rank()
        <= sorted[j].0.total_rank() by {
        assert(precedes(points, order[i], order[j]));
    }
}

fn sort_points(points: &Vec<(Real, Real)>) -> (r: Vec<(Real, Real)>)
    ensures
        is_sorted_table(points@, r@),
{
    let mut r: Vec<(Real, Real)> = Vec::new();
    let ghost mut order: Seq<int> = Seq::empty();
    let mut i: usize = 0;
    while i < points.len()
        invariant
            i <= points@.len(),
            r@.len() == i,
            order.len() == i,
            forall|k: int| 0 <= k < i ==> 0 <= #[trigger] order[k] < i,
            forall|k: int| 0 <= k < i ==> #[trigger] r@[k] == points@[order[k]],
            forall|j: int, k: int|
                0 <= j < k < i ==> precedes(points@, #[trigger] order[j], #[trigger] order[k]),
        decreases points@.len() - i,
    {
        let key = points[i].0.total_order_key();
        let mut p: usize = 0;
        while p < r.len() && r[p].0.total_order_key() <= key
            invariant
                i < points@.len(),
                key == points@[i as int].0.total_rank(),
                p <= r@.len(),
                r@.len() == i,
                forall|k: int| 0 <= k < p ==> (#[trigger] r@[k]).0.total_rank() <= key,
            decreases r@.len() - p,
        {
            p += 1;
        }
        let ghost before = order;
        let ghost old_points = r@;
        r.insert(p, points[i]);
        proof {
            order = order.insert(p as int, i as int);
            assert forall|k: int| 0 <= k < i + 1 implies #[trigger] r@[k] == points@[order[k]] by {
                if k < p {
                    assert(r@[k] == old_points[k]);
                } else if k > p {
                    assert(r@[k] == old_points[k - 1]);
                }
            }
            assert forall|j: int, k: int| 0 <= j < k < i + 1 implies precedes(
                points@,
                #[trigger] order[j],
                #[trigger] order[k],
            ) by {
                if k < p {
                    assert(precedes(points@, before[j], before[k]));
                } else if j > p {
                    assert(precedes(points@, before[j - 1], before[k - 1]));
                } else if k == p {
                    assert(old_points[j].0.total_rank() <= key);
                    assert(before[j] < i);
                } else if j == p {
                    assert(old_points[p as int].0.total_rank() > key);
                    if k - 1 > p {
                        assert(precedes(points@, before[p as int], before[k - 1]));
                    }
                    assert(old_points[k - 1] == points@[before[k - 1]]);
                } else {
                    assert(precedes(points@, before[j], before[k - 1]));
                }
            }
        }
        i += 1;
    }
    assert(is_order(points@, order));
    assert(r@ =~= Seq::new(points@.len(), |k: int| points@[order[k]]));
    r
}

/// The frequency lies on the segment that starts at this place.
pub open spec fn on_segment(points: Seq<(Real, Real)>, f: Real, k: int) -> bool {
    points[k].0.le(f) && f.le(points[k + 1].0)
}

/// Some place of the table tells the density at the frequency: an end of it, or a
/// segment.
pub open spec fn covers(points: Seq<(Real, Real)>, f: Real) -> bool {
    ||| points.len() == 0
    ||| f.le(points[0].0)
    ||| points.last().0.le(f)
    ||| exists|k: int| 0 <= k < points.len() - 1 && #[trigger] on_segment(points, f, k)
}

/// What remains to be computed on the segment that starts at this place. Logarithms are
/// taken only where there are any.
pub open spec fn segment_density(points: Seq<(Real, Real)>, interp: TableInterp, k: int) -> Density {
    let (f1, p1) = points[k];
    let (f2, p2) = points[k + 1];
    let zero = Real { bits: 0 };
    if interp == TableInterp::Log && zero.lt(f1) && zero.lt(p1) && zero.lt(p2) {
        Density::OnLogLine { f1, p1, f2, p2 }
    } else {
        Density::OnLine { f1, p1, f2, p2 }
    }
}

/// The two frequencies are the same.
pub open spec fn same_frequency(a: Real, b: Real) -> bool {
    a.le(b) && b.le(a)
}

/// This is the first point of the table at the frequency.
pub open spec fn is_first_at(points: Seq<(Real, Real)>, f: Real, k: int) -> bool {
    &&& 0 <= k < points.len()
    &&& same_frequency(points[k].0, f)
    &&& forall|j: int| 0 <= j < k ==> !same_frequency(#[trigger] points[j].0, f)
}

/// Some point of the table stands at the frequency.
pub open spec fn has_point_at(points: Seq<(Real, Real)>, f: Real) -> bool {
    exists|k: int| 0 <= k < points.len() && same_frequency(#[trigger] points[k].0, f)
}

/// `d` tells the density of the table at the frequency. Beyond its ends it is that of
/// the nearest end; at a tabulated frequency that of the first point there, without any
/// interpolation; elsewhere that of the first segment on which the frequency lies.
pub open spec fn is_table_density(
    points: Seq<(Real, Real)>,
    interp: TableInterp,
    f: Real,
    d: Density,
) -> bool {
    if points.len() == 0 {
        d == Density::Value(Real { bits: 0 })
    } else if f.le(points[0].0) {
        d == Density::Value(points[0].1)
    } else if points.last().0.lt(f) {
        d == Density::Value(points.last().1)
    } else if has_point_at(points, f) {
        exists|k: int| #[trigger] is_first_at(points, f, k) && d == Density::Value(points[k].1)
    } else {
        exists|k: int|
            {
                &&& 0 <= k < points.len() - 1
                &&& #[trigger] on_segment(points, f, k)
                &&& forall|j: int| 0 <= j < k ==> !#[trigger] on_segment(points, f, j)
                &&& d == segment_density(points, interp, k)
            }
    }
}

/// What remains to be computed for the density of a table at a frequency.
pub fn read_table(points: &Vec<(Real, Real)>, interp: TableInterp, f: Real) -> (r: Density)
    requires
        covers(points@, f),
    ensures
        is_table_density(points@, interp, f, r),
{
    let n: usize = points.len();
    if n == 0 {
        return Density::Value(Real::zero());
    }
    if f.at_most(points[0].0) {
        return Density::Value(points[0].1);
    }
    if points[n - 1].0.less(f) {
        return Density::Value(points[n - 1].1);
    }
    let mut k: usize = 0;
    while k < n
        invariant
            n == points@.len(),
            k <= n,
            n > 0,
            !f.le(points@[0].0),
            !points@.last().0.lt(f),
            forall|j: int| 0 <= j < k ==> !same_frequency(#[trigger] points@[j].0, f),
        decreases n - k,
    {
        if points[k].0.equals(f) {
            assert(same_frequency(points@[k as int].0, f));
            assert(is_first_at(points@, f, k as int));
            return Density::Value(points[k].1);
        }
        k += 1;
    }
    assert(!same_frequency(points@[n - 1].0, f));
    let mut k: usize = 0;
    while !(points[k].0.at_most(f) && f.at_most(points[k + 1].0))
        invariant
            n == points@.len(),
            k < n - 1,
            forall|j: int| 0 <= j < k ==> !#[trigger] on_segment(points@, f, j),
            exists|j: int| 0 <= j < n - 1 && #[trigger] on_segment(points@, f, j),
        decreases n - k,
    {
        assert(!on_segment(points@, f, k as int));
        k += 1;
    }
    assert(on_segment(points@, f, k as int));
    let (f1, p1) = points[k];
    let (f2, p2) = points[k + 1];
    let zero = Real::zero();
    if interp == TableInterp::Log && zero.less(f1) && zero.less(p1) && zero.less(p2) {
        return Density::OnLogLine { f1, p1, f2, p2 };
    }
    Density::OnLine { f1, p1, f2, p2 }
}

/// A tabulated point comes back exactly; of several at one frequency the first does.
pub proof fn a_tabulated_point_comes_back(
    points: Seq<(Real, Real)>,
    interp: TableInterp,
    k: int,
    d: Density,
)
    requires
        ascends(points),
        0 <= k < points.len(),
        is_first_at(points, points[k].0, k),
        is_table_density(points, interp, points[k].0, d),
    ensures
        d == Density::Value(points[k].1),
{
    let f = points[k].0;
    let n = points.len();
    if k > 0 {
        assert(!same_frequency(points[0].0, f));
    }
    assert(has_point_at(points, f));
    let first = choose|j: int| #[trigger] is_first_at(points, f, j) && (!f.le(points[0].0)
        && !points.last().0.lt(f) ==> d == Density::Value(points[j].1));
    assert(first == k);
}

/// Whether some place of the table tells the density at the frequency.
pub fn can_read_table(points: &Vec<(Real, Real)>, f: Real) -> (r: bool)
    ensures
        r == covers(points@, f),
{
    let n: usize = points.len();
    if n == 0 || f.at_most(points[0].0) || points[n - 1].0.at_most(f) {
        return true;
    }
    let mut k: usize = 0;
    while k < n - 1
        invariant
            n == points@.len(),
            k <= n - 1,
            forall|j: int| 0 <= j < k ==> !#[trigger] on_segment(points@, f, j),
        decreases n - k,
    {
        if points[k].0.at_most(f) && f.at_most(points[k + 1].0) {
            assert(on_segment(points@, f, k as int));
            return true;
        }
        assert(!on_segment(points@, f, k as int));
        k += 1;
    }
    false
}

/// A table of numbers in order tells the density at every frequency.
pub proof fn a_sorted_table_covers_every_frequency(points: Seq<(Real, Real)>, f: Real)
    requires
        ascends(points),
        !f.nan(),
        forall|i: int| 0 <= i < points.len() ==> !(#[trigger] points[i]).0.nan(),
    ensures
        covers(points, f),
{
    if points.len() > 0 && !f.le(points[0].0) && !points.last().0.le(f) {
        lemma_segment_exists(points, f, points.len() - 1);
    }
}

proof fn lemma_segment_exists(points: Seq<(Real, Real)>, f: Real, upto: int)
    requires
        0 < upto < points.len(),
        !f.nan(),
        forall|i: int| 0 <= i < points.len() ==> !(#[trigger] points[i]).0.nan(),
        points[0].0.le(f),
        f.le(points[upto].0),
    ensures
        exists|k: int| 0 <= k < upto && #[trigger] on_segment(points, f, k),
    decreases upto,
{
    if points[upto - 1].0.le(f) {
        assert(on_segment(points, f, upto - 1));
    } else {
        lemma_segment_exists(points, f, upto - 1);
    }
}

// ---- sources --------------------------------------------------------------

/// No point of the table has any power.
pub open spec fn no_power_in(points: Seq<(Real, Real)>) -> bool {
    forall|i: int| 0 <= i < points.len() ==> (#[trigger] points[i]).1.le(Real { bits: 0 })
}

fn all_powerless(points: &Vec<(Real, Real)>) -> (r: bool)
    ensures
        r == no_power_in(points@),
{
    let mut i: usize = 0;
    while i < points.len()
        invariant
            i <= points@.len(),
            forall|j: int| 0 <= j < i ==> (#[trigger] points@[j]).1.le(Real { bits: 0 }),
        decreases points@.len() - i,
    {
        if !points[i].1.at_most(Real::zero()) {
            return false;
        }
        i += 1;
    }
    true
}

impl NoiseSource {
    /// A tabulated source. The points may come in any order.
    pub fn table(points: Vec<(Real, Real)>, interp: TableInterp) -> (r: NoiseSource)
        ensures
            r matches NoiseSource::Table { points: sorted, interp: i } && i == interp
                && is_sorted_table(points@, sorted@),
    {
        NoiseSource::Table { points: sort_points(&points), interp }
    }

    /// The density can be told at the frequency.
    pub open spec fn readable(self, f: Real) -> bool {
        self matches NoiseSource::Table { points, .. } ==> covers(points@, f)
    }

    /// Whether the density can be told at the frequency.
    pub fn is_readable(&self, f: Real) -> (r: bool)
        ensures
            r == self.readable(f),
    {
        match self {
            NoiseSource::Table { points, .. } => can_read_table(points, f),
            _ => true,
        }
    }

    /// `d` tells the density of the source at the frequency. There is no flicker at a
    /// frequency that is not positive.
    pub open spec fn is_density(self, f: Real, d: Density) -> bool {
        match self {
            NoiseSource::White { psd } => d == Density::Value(psd),
            NoiseSource::Flicker { coeff, exponent } => if f.le(Real { bits: 0 }) {
                d == Density::Value(Real { bits: 0 })
            } else {
                d == (Density::Flicker { coeff, exponent })
            },
            NoiseSource::Table { points, interp } => is_table_density(points@, interp, f, d),
        }
    }

    /// What remains to be computed for the density at a frequency.
    pub fn density(&self, f: Real) -> (r: Density)
        requires
            self.readable(f),
        ensures
            self.is_density(f, r),
    {
        match self {
            NoiseSource::White { psd } => Density::Value(*psd),
            NoiseSource::Flicker { coeff, exponent } => if f.at_most(Real::zero()) {
                Density::Value(Real::zero())
            } else {
                Density::Flicker { coeff: *coeff, exponent: *exponent }
            },
            NoiseSource::Table { points, interp } => read_table(points, *interp, f),
        }
    }

    /// The source has no power at any frequency.
    pub open spec fn powerless(self) -> bool {
        match self {
            NoiseSource::White { psd } => psd.le(Real { bits: 0 }),
            NoiseSource::Flicker { coeff, .. } => coeff.le(Real { bits: 0 }),
            NoiseSource::Table { points, .. } => no_power_in(points@),
        }
    }

    /// Whether the source has no power at any frequency.
    pub fn is_powerless(&self) -> (r: bool)
        ensures
            r == self.powerless(),
    {
        match self {
            NoiseSource::White { psd } => psd.at_most(Real::zero()),
            NoiseSource::Flicker { coeff, .. } => coeff.at_most(Real::zero()),
            NoiseSource::Table { points, .. } => all_powerless(points),
        }
    }
}

/// Where a model reports the noise it makes, source by source, each across the branch
/// from `p` to `n`.
pub trait NoiseSink {
    /// The sources that the sink has kept, in order, each with the ends of its branch. A
    /// sink that is only run and not reasoned about need not tell.
    open spec fn kept(&self) -> Seq<(usize, usize, NoiseSource)> {
        Seq::empty()
    }

    /// A source with the same density at every frequency.
    fn white_current(&mut self, p: usize, n: usize, psd: Real);

    /// A source with `coeff` over the `exponent`-th power of the frequency. A sink that
    /// has no use for it keeps nothing.
    fn flicker_current(&mut self, p: usize, n: usize, coeff: Real, exponent: Real)
        default_ensures
            final(self).kept() == old(self).kept(),
    {
    }

    /// A tabulated source. A sink that has no use for it keeps nothing.
    fn table_current(&mut self, p: usize, n: usize, points: &Vec<(Real, Real)>, interp: TableInterp)
        default_ensures
            final(self).kept() == old(self).kept(),
    {
    }
}

/// A sink that keeps every source, in order.
#[derive(Debug)]
pub struct CollectedNoise {
    pub sources: Vec<(usize, usize, NoiseSource)>,
}

impl CollectedNoise {
    /// A sink without sources.
    pub fn new() -> (r: CollectedNoise)
        ensures
            r.sources@ == Seq::<(usize, usize, NoiseSource)>::empty(),
    {
        CollectedNoise { sources: Vec::new() }
    }
}

impl NoiseSink for CollectedNoise {
    open spec fn kept(&self) -> Seq<(usize, usize, NoiseSource)> {
        self.sources@
    }

    fn white_current(&mut self, p: usize, n: usize, psd: Real)
        ensures
            final(self).sources@ == old(self).sources@.push((p, n, NoiseSource::White { psd })),
    {
        self.sources.push((p, n, NoiseSource::White { psd }));
    }

    fn flicker_current(&mut self, p: usize, n: usize, coeff: Real, exponent: Real)
        ensures
            final(self).sources@ == old(self).sources@.push(
                (p, n, NoiseSource::Flicker { coeff, exponent }),
            ),
    {
        self.sources.push((p, n, NoiseSource::Flicker { coeff, exponent }));
    }

    fn table_current(&mut self, p: usize, n: usize, points: &Vec<(Real, Real)>, interp: TableInterp)
        ensures
            exists|sorted: Vec<(Real, Real)>| #[trigger]
                is_sorted_table(points@, sorted@) && final(self).sources@ == old(
                    self,
                ).sources@.push((p, n, NoiseSource::Table { points: sorted, interp })),
    {
        let sorted = sort_points(points);
        let ghost copy = sorted;
        self.sources.push((p, n, NoiseSource::Table { points: sorted, interp }));
        assert(is_sorted_table(points@, copy@));
    }
}

} // verus!
