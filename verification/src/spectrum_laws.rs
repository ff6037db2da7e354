//! What holds of every noise spectrum.
use crate::noise::{
    has_point_at, is_first_at, on_segment, segment_density, Density, NoiseSource,
};
use crate::number::{gives_one, gives_one_of_four, Real};
use crate::spectrum::{
    complex_entry, contributor_ids, emits, is_added, is_areas, is_bucketing, is_contributors,
    is_placing, is_rms, is_shares, is_spectrum, is_sum, is_summing, shares_of, NoiseSpectrum,
};
use crate::stamps::accumulates;
use vstd::prelude::*;

verus! {

/// A source has one density at a frequency.
pub proof fn a_source_has_one_density(source: NoiseSource, f: Real, a: Density, b: Density)
    requires
        source.is_density(f, a),
        source.is_density(f, b),
    ensures
        a == b,
{
    if let NoiseSource::Table { points, interp } = source {
        let points = points@;
        if points.len() > 0 && !f.le(points[0].0) && !points.last().0.lt(f) {
            if has_point_at(points, f) {
                let i = choose|i: int| #[trigger]
                    is_first_at(points, f, i) && a == Density::Value(points[i].1);
                let j = choose|j: int| #[trigger]
                    is_first_at(points, f, j) && b == Density::Value(points[j].1);
                assert(i == j);
            } else {
                let i = choose|i: int|
                    {
                        &&& 0 <= i < points.len() - 1
                        &&& #[trigger] on_segment(points, f, i)
                        &&& forall|j: int| 0 <= j < i ==> !#[trigger] on_segment(points, f, j)
                        &&& a == segment_density(points, interp, i)
                    };
                let j = choose|j: int|
                    {
                        &&& 0 <= j < points.len() - 1
                        &&& #[trigger] on_segment(points, f, j)
                        &&& forall|i: int| 0 <= i < j ==> !#[trigger] on_segment(points, f, i)
                        &&& b == segment_density(points, interp, j)
                    };
                assert(i == j);
            }
        }
    }
}

/// The weighing gives one result for the same arguments.
pub open spec fn weighs_one<W: Fn(Real, (Real, Real), (Real, Real), Density) -> Real>(
    weigh: W,
) -> bool {
    forall|f: Real, p: (Real, Real), n: (Real, Real), d: Density, x: Real, y: Real|
        #![trigger call_ensures(weigh, (f, p, n, d), x), call_ensures(weigh, (f, p, n, d), y)]
        call_ensures(weigh, (f, p, n, d), x) && call_ensures(weigh, (f, p, n, d), y) ==> x == y
}

proof fn lemma_one_list(
    sources: Seq<(usize, usize, usize, NoiseSource)>,
    a: Seq<usize>,
    b: Seq<usize>,
)
    requires
        is_contributors(sources, a),
        is_contributors(sources, b),
    ensures
        a == b,
{
    assert forall|x: usize| a.contains(x) == b.contains(x) by {
        assert(a.contains(x) <==> emits(sources, x));
        assert(b.contains(x) <==> emits(sources, x));
    }
    lemma_ascending_equal(a, b);
}

/// Two ascending lists with the same numbers are the same list.
proof fn lemma_ascending_equal(a: Seq<usize>, b: Seq<usize>)
    requires
        forall|i: int, j: int| 0 <= i < j < a.len() ==> a[i] < a[j],
        forall|i: int, j: int| 0 <= i < j < b.len() ==> b[i] < b[j],
        forall|x: usize| a.contains(x) == b.contains(x),
    ensures
        a == b,
    decreases a.len(),
{
    if a.len() == 0 {
        if b.len() > 0 {
            assert(b.contains(b[0]));
        }
        assert(a =~= b);
    } else {
        assert(a.contains(a.last()));
        let j = choose|j: int| 0 <= j < b.len() && b[j] == a.last();
        assert(b.contains(b.last()));
        let i = choose|i: int| 0 <= i < a.len() && a[i] == b.last();
        assert(a.last() == b.last());
        let (p, q) = (a.drop_last(), b.drop_last());
        assert forall|x: usize| p.contains(x) == q.contains(x) by {
            if p.contains(x) {
                let k = choose|k: int| 0 <= k < p.len() && p[k] == x;
                assert(a[k] == x && a[k] < a.last());
                assert(a.contains(x));
                let l = choose|l: int| 0 <= l < b.len() && b[l] == x;
                assert(q[l] == x);
            }
            if q.contains(x) {
                let k = choose|k: int| 0 <= k < q.len() && q[k] == x;
                assert(b[k] == x && b[k] < b.last());
                assert(b.contains(x));
                let l = choose|l: int| 0 <= l < a.len() && a[l] == x;
                assert(p[l] == x);
            }
        }
        lemma_ascending_equal(p, q);
        assert(a =~= p.push(a.last()));
        assert(b =~= q.push(b.last()));
    }
}

proof fn lemma_one_placing(
    sources: Seq<(usize, usize, usize, NoiseSource)>,
    ids: Seq<usize>,
    a: Seq<usize>,
    b: Seq<usize>,
)
    requires
        is_contributors(sources, ids),
        is_placing(sources, ids, a),
        is_placing(sources, ids, b),
    ensures
        a == b,
{
    assert forall|k: int| 0 <= k < a.len() implies a[k] == b[k] by {
        let (i, j) = (a[k] as int, b[k] as int);
        assert(ids[i] == ids[j]);
        if i < j {
            assert(ids[i] < ids[j]);
        } else if j < i {
            assert(ids[j] < ids[i]);
        }
    }
    assert(a =~= b);
}

proof fn lemma_one_bucketing<F: Fn(Real, Real) -> Real>(
    plus: F,
    places: Seq<usize>,
    slots: nat,
    added: Seq<Real>,
    a: Seq<Seq<Real>>,
    b: Seq<Seq<Real>>,
    upto: int,
)
    requires
        gives_one(plus),
        is_bucketing(plus, places, slots, added, a),
        is_bucketing(plus, places, slots, added, b),
        0 <= upto <= added.len(),
    ensures
        a[upto] == b[upto],
    decreases upto,
{
    if upto > 0 {
        lemma_one_bucketing(plus, places, slots, added, a, b, upto - 1);
        let k = upto - 1;
        assert(accumulates(plus, a[k], places[k] as int, added[k], a[k + 1]));
        assert(accumulates(plus, b[k], places[k] as int, added[k], b[k + 1]));
    }
}

proof fn lemma_one_summing<F: Fn(Real, Real) -> Real>(
    plus: F,
    items: Seq<Real>,
    a: Seq<Real>,
    b: Seq<Real>,
    upto: int,
)
    requires
        gives_one(plus),
        is_summing(plus, items, a),
        is_summing(plus, items, b),
        0 <= upto <= items.len(),
    ensures
        a[upto] == b[upto],
    decreases upto,
{
    if upto > 0 {
        lemma_one_summing(plus, items, a, b, upto - 1);
        let k = upto - 1;
        assert(call_ensures(plus, (a[k], items[k]), a[k + 1]));
        assert(call_ensures(plus, (b[k], items[k]), b[k + 1]));
    }
}

proof fn lemma_one_sum<F: Fn(Real, Real) -> Real>(plus: F, items: Seq<Real>, a: Real, b: Real)
    requires
        gives_one(plus),
        is_sum(plus, items, a),
        is_sum(plus, items, b),
    ensures
        a == b,
{
    let p = choose|p: Seq<Real>| #[trigger] is_summing(plus, items, p) && a == p.last();
    let q = choose|q: Seq<Real>| #[trigger] is_summing(plus, items, q) && b == q.last();
    lemma_one_summing(plus, items, p, q, items.len() as int);
}

proof fn lemma_one_share<
    W: Fn(Real, (Real, Real), (Real, Real), Density) -> Real,
    F: Fn(Real, Real) -> Real,
>(
    weigh: W,
    plus: F,
    sources: Seq<(usize, usize, usize, NoiseSource)>,
    places: Seq<usize>,
    slots: nat,
    f: Real,
    y: Seq<(Real, Real)>,
    a: Seq<Real>,
    b: Seq<Real>,
)
    requires
        weighs_one(weigh),
        gives_one(plus),
        is_shares(weigh, plus, sources, places, slots, f, y, a),
        is_shares(weigh, plus, sources, places, slots, f, y, b),
    ensures
        a == b,
{
    let (p, s) = choose|added: Seq<Real>, steps: Seq<Seq<Real>>|
        {
            &&& added.len() == sources.len()
            &&& forall|k: int|
                0 <= k < added.len() ==> is_added(weigh, sources[k], f, y, #[trigger] added[k])
            &&& #[trigger] is_bucketing(plus, places, slots, added, steps)
            &&& a == steps.last()
        };
    let (q, t) = choose|added: Seq<Real>, steps: Seq<Seq<Real>>|
        {
            &&& added.len() == sources.len()
            &&& forall|k: int|
                0 <= k < added.len() ==> is_added(weigh, sources[k], f, y, #[trigger] added[k])
            &&& #[trigger] is_bucketing(plus, places, slots, added, steps)
            &&& b == steps.last()
        };
    assert forall|k: int| 0 <= k < p.len() implies p[k] == q[k] by {
        assert(is_added(weigh, sources[k], f, y, p[k]));
        assert(is_added(weigh, sources[k], f, y, q[k]));
        let c = choose|d: Density| #[trigger]
            sources[k].3.is_density(f, d) && call_ensures(
                weigh,
                (
                    f,
                    complex_entry(y, sources[k].1),
                    complex_entry(y, sources[k].2),
                    d,
                ),
                p[k],
            );
        let d = choose|d: Density| #[trigger]
            sources[k].3.is_density(f, d) && call_ensures(
                weigh,
                (
                    f,
                    complex_entry(y, sources[k].1),
                    complex_entry(y, sources[k].2),
                    d,
                ),
                q[k],
            );
        a_source_has_one_density(sources[k].3, f, c, d);
    }
    assert(p =~= q);
    lemma_one_bucketing(plus, places, slots, p, s, t, p.len() as int);
}

/// Referring a spectrum to an input changes neither the density at the output nor any
/// device's share of it: with an input and without one they are the same, where the
/// operations give one result for the same arguments.
pub proof fn an_input_changes_no_density<
    W: Fn(Real, (Real, Real), (Real, Real), Density) -> Real,
    F: Fn(Real, Real) -> Real,
    R: Fn((Real, Real), Real) -> (Real, Real),
>(
    sources: Seq<(usize, usize, usize, NoiseSource)>,
    f: Seq<Real>,
    ys: Seq<Vec<(Real, Real)>>,
    input: usize,
    weigh: W,
    plus: F,
    refer: R,
    without: NoiseSpectrum,
    with: NoiseSpectrum,
)
    requires
        weighs_one(weigh),
        gives_one(plus),
        is_spectrum(sources, f, ys, None, weigh, plus, refer, without),
        is_spectrum(sources, f, ys, Some(input), weigh, plus, refer, with),
    ensures
        without.psd@ == with.psd@,
        contributor_ids(without) == contributor_ids(with),
        forall|s: int|
            0 <= s < with.per_instance@.len() ==> (#[trigger] with.per_instance@[s]).1@
                == without.per_instance@[s].1@,
        without.input_psd@.len() == 0,
        with.input_psd@.len() == with.psd@.len(),
{
    let (a, b) = (contributor_ids(without), contributor_ids(with));
    lemma_one_list(sources, a, b);
    let p = choose|p: Seq<usize>| #[trigger]
        is_placing(sources, a, p) && forall|i: int|
            0 <= i < f.len() ==> #[trigger] is_shares(
                weigh,
                plus,
                sources,
                p,
                without.per_instance@.len(),
                f[i],
                ys[i]@,
                shares_of(without, i),
            );
    let q = choose|q: Seq<usize>| #[trigger]
        is_placing(sources, b, q) && forall|i: int|
            0 <= i < f.len() ==> #[trigger] is_shares(
                weigh,
                plus,
                sources,
                q,
                with.per_instance@.len(),
                f[i],
                ys[i]@,
                shares_of(with, i),
            );
    lemma_one_placing(sources, a, p, q);
    let slots = with.per_instance@.len();
    assert(a.len() == without.per_instance@.len() && b.len() == slots);
    assert forall|i: int| 0 <= i < f.len() implies shares_of(without, i) == shares_of(with, i)
        && without.psd@[i] == with.psd@[i] by {
        assert(is_shares(weigh, plus, sources, p, slots, f[i], ys[i]@, shares_of(without, i)));
        assert(is_shares(weigh, plus, sources, q, slots, f[i], ys[i]@, shares_of(with, i)));
        lemma_one_share(
            weigh,
            plus,
            sources,
            p,
            slots,
            f[i],
            ys[i]@,
            shares_of(without, i),
            shares_of(with, i),
        );
        lemma_one_sum(plus, shares_of(with, i), without.psd@[i], with.psd@[i]);
    }
    assert(without.psd@ =~= with.psd@);
    assert forall|s: int| 0 <= s < slots implies (#[trigger] with.per_instance@[s]).1@
        == without.per_instance@[s].1@ by {
        let (x, y) = (with.per_instance@[s].1@, without.per_instance@[s].1@);
        assert(without.per_instance@[s].1@.len() == f.len());
        assert forall|i: int| 0 <= i < f.len() implies x[i] == y[i] by {
            assert(shares_of(with, i)[s] == shares_of(without, i)[s]);
        }
        assert(x =~= y);
    }
}

/// A density has one total over the same frequencies, so that a total does not depend on
/// an input either.
pub proof fn a_density_has_one_total<
    T: Fn(Real, Real, Real, Real) -> Real,
    F: Fn(Real, Real) -> Real,
    Q: Fn(Real) -> Real,
>(f: Seq<Real>, psd: Seq<Real>, trapezoid: T, plus: F, root: Q, a: Real, b: Real)
    requires
        gives_one_of_four(trapezoid),
        gives_one(plus),
        forall|x: Real, y: Real, z: Real|
            #![trigger call_ensures(root, (x,), y), call_ensures(root, (x,), z)]
            call_ensures(root, (x,), y) && call_ensures(root, (x,), z) ==> y == z,
        is_rms(f, psd, trapezoid, plus, root, a),
        is_rms(f, psd, trapezoid, plus, root, b),
    ensures
        a == b,
{
    if f.len() >= 2 && psd.len() >= 2 {
        let (x, v) = choose|areas: Seq<Real>, power: Real|
            {
                &&& #[trigger] is_areas(trapezoid, f, psd, areas)
                &&& is_sum(plus, areas, power)
                &&& #[trigger] call_ensures(root, (power,), a)
            };
        let (y, w) = choose|areas: Seq<Real>, power: Real|
            {
                &&& #[trigger] is_areas(trapezoid, f, psd, areas)
                &&& is_sum(plus, areas, power)
                &&& #[trigger] call_ensures(root, (power,), b)
            };
        assert forall|k: int| 0 <= k < x.len() implies x[k] == y[k] by {}
        assert(x =~= y);
        lemma_one_sum(plus, x, v, w);
    }
}

} // verus!
