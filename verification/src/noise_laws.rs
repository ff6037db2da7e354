//! What a noise spectrum adds up to, in terms of the sources and of the adjoint solution,
//! and what the density of each source is.
use crate::ac_laws::sums;
use crate::noise::{
    is_first_at, is_order, is_table_density, on_segment, read_table, Density, NoiseSource,
    TableInterp,
};
use crate::number::{Real, INFINITY, ONE};
use crate::spectrum::{
    adjoint_probe, complex_entry, contributor_ids, finite_intervals, integrate_rms, is_added,
    is_areas, is_bucketing, is_contributors, is_placing, is_referred, is_shares, is_spectrum,
    is_sum, is_summing, noise_spectrum, shares_of, with_source, NoiseSpectrum, SourceList,
};
use crate::stamps::accumulates;
use vstd::prelude::*;

verus! {

// ---- what a source adds ---------------------------------------------------

/// The adjoint solution at a node; zero at the reference node.
pub open spec fn transfer(y: Seq<(Real, Real)>, node: usize) -> (Real, Real) {
    if node < y.len() {
        y[node as int]
    } else {
        (Real { bits: 0 }, Real { bits: 0 })
    }
}

/// The density of a source at a frequency.
pub open spec fn density_at(source: NoiseSource, f: Real) -> Density {
    choose|d: Density| source.is_density(f, d)
}

/// What the weighing makes of two entries of the adjoint solution and a density is the
/// number that `power` gives.
pub open spec fn weighs<W: Fn(Real, (Real, Real), (Real, Real), Density) -> Real>(
    weigh: W,
    power: spec_fn(Real, (Real, Real), (Real, Real), Density) -> int,
    val: spec_fn(Real) -> int,
) -> bool {
    forall|f: Real, p: (Real, Real), n: (Real, Real), d: Density, x: Real| #[trigger]
        call_ensures(weigh, (f, p, n, d), x) ==> val(x) == power(f, p, n, d)
}

/// What the sources add at a frequency: each its density, weighed by the adjoint solution
/// at the two ends of its branch. Only those of one device count where one is named.
pub open spec fn added_by(
    sources: Seq<(usize, usize, usize, NoiseSource)>,
    device: Option<usize>,
    f: Real,
    y: Seq<(Real, Real)>,
    power: spec_fn(Real, (Real, Real), (Real, Real), Density) -> int,
) -> int
    decreases sources.len(),
{
    if sources.len() == 0 {
        0
    } else {
        let (id, p, n, source) = sources.last();
        let rest = added_by(sources.drop_last(), device, f, y, power);
        if device is None || device == Some(id) {
            rest + power(f, transfer(y, p), transfer(y, n), density_at(source, f))
        } else {
            rest
        }
    }
}

/// What the numbers add up to.
pub open spec fn total(items: Seq<Real>, val: spec_fn(Real) -> int) -> int
    decreases items.len(),
{
    if items.len() == 0 {
        0
    } else {
        total(items.drop_last(), val) + val(items.last())
    }
}

proof fn lemma_total_update(items: Seq<Real>, place: int, x: Real, val: spec_fn(Real) -> int)
    requires
        0 <= place < items.len(),
    ensures
        total(items.update(place, x), val) == total(items, val) - val(items[place]) + val(x),
    decreases items.len(),
{
    let changed = items.update(place, x);
    if place == items.len() - 1 {
        assert(changed.drop_last() =~= items.drop_last());
    } else {
        assert(changed.drop_last() =~= items.drop_last().update(place, x));
        lemma_total_update(items.drop_last(), place, x, val);
    }
}

proof fn lemma_total_of_zeros(count: nat, val: spec_fn(Real) -> int)
    requires
        val(Real { bits: 0 }) == 0,
    ensures
        total(Seq::new(count, |i: int| Real { bits: 0 }), val) == 0,
    decreases count,
{
    let zeros = Seq::new(count, |i: int| Real { bits: 0 });
    if count > 0 {
        let fewer = Seq::new((count - 1) as nat, |i: int| Real { bits: 0 });
        assert(zeros.drop_last() =~= fewer);
        lemma_total_of_zeros((count - 1) as nat, val);
    }
}

proof fn lemma_summed<F: Fn(Real, Real) -> Real>(
    plus: F,
    items: Seq<Real>,
    steps: Seq<Real>,
    upto: int,
    val: spec_fn(Real) -> int,
)
    requires
        is_summing(plus, items, steps),
        sums(plus, val),
        val(Real { bits: 0 }) == 0,
        0 <= upto <= items.len(),
    ensures
        val(steps[upto]) == total(items.take(upto), val),
    decreases upto,
{
    if upto > 0 {
        let k = upto - 1;
        lemma_summed(plus, items, steps, k, val);
        assert(call_ensures(plus, (steps[k], items[k]), steps[k + 1]));
        assert(items.take(upto).drop_last() =~= items.take(k));
    } else {
        assert(items.take(0).len() == 0);
    }
}

proof fn lemma_sum_is_total<F: Fn(Real, Real) -> Real>(
    plus: F,
    items: Seq<Real>,
    x: Real,
    val: spec_fn(Real) -> int,
)
    requires
        is_sum(plus, items, x),
        sums(plus, val),
        val(Real { bits: 0 }) == 0,
    ensures
        val(x) == total(items, val),
{
    let steps = choose|steps: Seq<Real>| #[trigger]
        is_summing(plus, items, steps) && x == steps.last();
    lemma_summed(plus, items, steps, items.len() as int, val);
    assert(items.take(items.len() as int) =~= items);
}

proof fn lemma_bucketed<
    W: Fn(Real, (Real, Real), (Real, Real), Density) -> Real,
    F: Fn(Real, Real) -> Real,
>(
    weigh: W,
    plus: F,
    sources: Seq<(usize, usize, usize, NoiseSource)>,
    ids: Seq<usize>,
    places: Seq<usize>,
    f: Real,
    y: Seq<(Real, Real)>,
    added: Seq<Real>,
    steps: Seq<Seq<Real>>,
    upto: int,
    power: spec_fn(Real, (Real, Real), (Real, Real), Density) -> int,
    val: spec_fn(Real) -> int,
)
    requires
        is_contributors(sources, ids),
        is_placing(sources, ids, places),
        added.len() == sources.len(),
        forall|k: int|
            0 <= k < added.len() ==> is_added(weigh, sources[k], f, y, #[trigger] added[k]),
        is_bucketing(plus, places, ids.len(), added, steps),
        sums(plus, val),
        weighs(weigh, power, val),
        val(Real { bits: 0 }) == 0,
        0 <= upto <= sources.len(),
    ensures
        steps[upto].len() == ids.len(),
        forall|s: int|
            0 <= s < ids.len() ==> val(#[trigger] steps[upto][s]) == added_by(
                sources.take(upto),
                Some(ids[s]),
                f,
                y,
                power,
            ),
        total(steps[upto], val) == added_by(sources.take(upto), None, f, y, power),
    decreases upto,
{
    if upto == 0 {
        lemma_total_of_zeros(ids.len(), val);
        assert(sources.take(0).len() == 0);
    } else {
        let k = upto - 1;
        lemma_bucketed(weigh, plus, sources, ids, places, f, y, added, steps, k, power, val);
        assert(sources.take(upto).drop_last() =~= sources.take(k));
        let (id, p, n, source) = sources[k];
        assert(is_added(weigh, sources[k], f, y, added[k]));
        let d = choose|d: Density| #[trigger]
            source.is_density(f, d) && call_ensures(
                weigh,
                (f, complex_entry(y, p), complex_entry(y, n), d),
                added[k],
            );
        crate::spectrum_laws::a_source_has_one_density(source, f, d, density_at(source, f));
        assert(val(added[k]) == power(f, transfer(y, p), transfer(y, n), density_at(source, f)));
        let place = places[k] as int;
        assert(places[k] < ids.len() && ids[place] == id);
        assert(accumulates(plus, steps[k], places[k] as int, added[k], steps[k + 1]));
        let sum = choose|sum: Real| #[trigger]
            call_ensures(plus, (steps[k][place], added[k]), sum) && steps[k + 1]
                == steps[k].update(place, sum);
        lemma_total_update(steps[k], place, sum, val);
        assert forall|s: int| 0 <= s < ids.len() implies val(#[trigger] steps[upto][s])
            == added_by(sources.take(upto), Some(ids[s]), f, y, power) by {
            assert(val(steps[k][s]) == added_by(sources.take(k), Some(ids[s]), f, y, power));
            if s != place {
                assert(ids[s] != ids[place]) by {
                    if s < place {
                        assert(ids[s] < ids[place]);
                    } else {
                        assert(ids[place] < ids[s]);
                    }
                }
            }
        }
    }
}

/// The density at the output is the sum over all sources of what each adds: its own
/// density at the frequency, weighed by the adjoint solution at the two ends of its
/// branch. A device's share is the same sum over its own sources.
pub proof fn a_spectrum_adds_up<
    W: Fn(Real, (Real, Real), (Real, Real), Density) -> Real,
    F: Fn(Real, Real) -> Real,
    R: Fn((Real, Real), Real) -> (Real, Real),
>(
    list: &SourceList,
    devices: usize,
    f: &Vec<Real>,
    ys: &Vec<Vec<(Real, Real)>>,
    input: Option<usize>,
    weigh: &W,
    plus: &F,
    refer: &R,
    r: NoiseSpectrum,
    i: int,
    power: spec_fn(Real, (Real, Real), (Real, Real), Density) -> int,
    val: spec_fn(Real) -> int,
)
    requires
        call_ensures(
            noise_spectrum::<W, F, R>,
            (list, devices, f, ys, input, weigh, plus, refer),
            r,
        ),
        weighs(*weigh, power, val),
        sums(*plus, val),
        val(Real { bits: 0 }) == 0,
        0 <= i < f@.len(),
    ensures
        r.psd@.len() == f@.len(),
        val(r.psd@[i]) == added_by(list.sources@, None, f@[i], ys@[i]@, power),
        forall|s: int|
            0 <= s < r.per_instance@.len() ==> (#[trigger] r.per_instance@[s]).1@.len() == f@.len()
                && val(r.per_instance@[s].1@[i]) == added_by(
                list.sources@,
                Some(r.per_instance@[s].0),
                f@[i],
                ys@[i]@,
                power,
            ),
{
    let sources = list.sources@;
    let ids = contributor_ids(r);
    assert(is_spectrum(sources, f@, ys@, input, *weigh, *plus, *refer, r));
    let places = choose|places: Seq<usize>| #[trigger]
        is_placing(sources, ids, places) && forall|i: int|
            0 <= i < f@.len() ==> #[trigger] is_shares(
                *weigh,
                *plus,
                sources,
                places,
                r.per_instance@.len(),
                f@[i],
                ys@[i]@,
                shares_of(r, i),
            );
    let (fi, y, shares) = (f@[i], ys@[i]@, shares_of(r, i));
    assert(is_shares(*weigh, *plus, sources, places, r.per_instance@.len(), fi, y, shares));
    let (added, steps) = choose|added: Seq<Real>, steps: Seq<Seq<Real>>|
        {
            &&& added.len() == sources.len()
            &&& forall|k: int|
                0 <= k < added.len() ==> is_added(*weigh, sources[k], fi, y, #[trigger] added[k])
            &&& #[trigger] is_bucketing(*plus, places, r.per_instance@.len(), added, steps)
            &&& shares == steps.last()
        };
    let n = sources.len() as int;
    lemma_bucketed(*weigh, *plus, sources, ids, places, fi, y, added, steps, n, power, val);
    assert(sources.take(n) =~= sources);
    lemma_sum_is_total(*plus, shares, r.psd@[i], val);
    assert forall|s: int| 0 <= s < r.per_instance@.len() implies (#[trigger] r.per_instance@[s]).1@.len()
        == f@.len() && val(r.per_instance@[s].1@[i]) == added_by(
        sources,
        Some(r.per_instance@[s].0),
        fi,
        y,
        power,
    ) by {
        assert(val(steps[n][s]) == added_by(sources.take(n), Some(ids[s]), fi, y, power));
        assert(shares[s] == r.per_instance@[s].1@[i]);
    }
}

/// Two lists of sources that differ at most in which end of a branch comes first.
pub open spec fn same_but_for_direction(
    a: Seq<(usize, usize, usize, NoiseSource)>,
    b: Seq<(usize, usize, usize, NoiseSource)>,
) -> bool {
    &&& a.len() == b.len()
    &&& forall|k: int|
        0 <= k < a.len() ==> {
            let (id, p, n, source) = #[trigger] a[k];
            b[k] == (id, p, n, source) || b[k] == (id, n, p, source)
        }
}

proof fn lemma_direction(
    a: Seq<(usize, usize, usize, NoiseSource)>,
    b: Seq<(usize, usize, usize, NoiseSource)>,
    device: Option<usize>,
    f: Real,
    y: Seq<(Real, Real)>,
    power: spec_fn(Real, (Real, Real), (Real, Real), Density) -> int,
)
    requires
        same_but_for_direction(a, b),
        forall|f: Real, p: (Real, Real), n: (Real, Real), d: Density| #[trigger]
            power(f, p, n, d) == power(f, n, p, d),
    ensures
        added_by(a, device, f, y, power) == added_by(b, device, f, y, power),
    decreases a.len(),
{
    if a.len() > 0 {
        assert forall|k: int| 0 <= k < a.len() - 1 implies {
            let (id, p, n, source) = #[trigger] a.drop_last()[k];
            b.drop_last()[k] == (id, p, n, source) || b.drop_last()[k] == (id, n, p, source)
        } by {
            assert(a.drop_last()[k] == a[k]);
        }
        lemma_direction(a.drop_last(), b.drop_last(), device, f, y, power);
        assert(a[a.len() - 1] == a.last());
    }
}

/// Which end of its branch a source names first makes no difference where the weighing
/// makes none between the two ends.
pub proof fn the_direction_of_a_source_makes_no_difference<
    W: Fn(Real, (Real, Real), (Real, Real), Density) -> Real,
    F: Fn(Real, Real) -> Real,
    R: Fn((Real, Real), Real) -> (Real, Real),
>(
    list: &SourceList,
    turned: &SourceList,
    devices: usize,
    f: &Vec<Real>,
    ys: &Vec<Vec<(Real, Real)>>,
    input: Option<usize>,
    weigh: &W,
    plus: &F,
    refer: &R,
    a: NoiseSpectrum,
    b: NoiseSpectrum,
    i: int,
    power: spec_fn(Real, (Real, Real), (Real, Real), Density) -> int,
    val: spec_fn(Real) -> int,
)
    requires
        same_but_for_direction(list.sources@, turned.sources@),
        call_ensures(
            noise_spectrum::<W, F, R>,
            (list, devices, f, ys, input, weigh, plus, refer),
            a,
        ),
        call_ensures(
            noise_spectrum::<W, F, R>,
            (turned, devices, f, ys, input, weigh, plus, refer),
            b,
        ),
        forall|f: Real, p: (Real, Real), n: (Real, Real), d: Density| #[trigger]
            power(f, p, n, d) == power(f, n, p, d),
        weighs(*weigh, power, val),
        sums(*plus, val),
        val(Real { bits: 0 }) == 0,
        0 <= i < f@.len(),
    ensures
        val(a.psd@[i]) == val(b.psd@[i]),
{
    a_spectrum_adds_up(list, devices, f, ys, input, weigh, plus, refer, a, i, power, val);
    a_spectrum_adds_up(turned, devices, f, ys, input, weigh, plus, refer, b, i, power, val);
    lemma_direction(list.sources@, turned.sources@, None, f@[i], ys@[i]@, power);
}

/// The spectrum of a single source is what the weighing gives for its density and for the
/// adjoint solution at its two ends: between two nodes where the solution has the same
/// entry, what it gives for two equal entries.
pub proof fn a_single_source_adds_its_own<
    W: Fn(Real, (Real, Real), (Real, Real), Density) -> Real,
    F: Fn(Real, Real) -> Real,
    R: Fn((Real, Real), Real) -> (Real, Real),
>(
    list: &SourceList,
    devices: usize,
    f: &Vec<Real>,
    ys: &Vec<Vec<(Real, Real)>>,
    input: Option<usize>,
    weigh: &W,
    plus: &F,
    refer: &R,
    r: NoiseSpectrum,
    i: int,
    power: spec_fn(Real, (Real, Real), (Real, Real), Density) -> int,
    val: spec_fn(Real) -> int,
)
    requires
        call_ensures(
            noise_spectrum::<W, F, R>,
            (list, devices, f, ys, input, weigh, plus, refer),
            r,
        ),
        list.sources@.len() == 1,
        list.sources@[0].1 < ys@[i]@.len(),
        list.sources@[0].2 < ys@[i]@.len(),
        weighs(*weigh, power, val),
        sums(*plus, val),
        val(Real { bits: 0 }) == 0,
        0 <= i < f@.len(),
    ensures
        ({
            let (id, p, n, source) = list.sources@[0];
            let y = ys@[i]@;
            let d = density_at(source, f@[i]);
            &&& r.per_instance@.len() == 1
            &&& r.per_instance@[0].0 == id
            &&& val(r.psd@[i]) == power(f@[i], y[p as int], y[n as int], d)
            &&& val(r.per_instance@[0].1@[i]) == power(f@[i], y[p as int], y[n as int], d)
            &&& y[p as int] == y[n as int] ==> val(r.psd@[i]) == power(
                f@[i],
                y[p as int],
                y[p as int],
                d,
            )
        }),
{
    a_spectrum_adds_up(list, devices, f, ys, input, weigh, plus, refer, r, i, power, val);
    every_emitting_device_has_a_share(list, devices, f, ys, input, weigh, plus, refer, r);
    reveal_with_fuel(added_by, 2);
    let (id, p, n, source) = list.sources@[0];
    let k: int = 0;
    assert(list.sources@[k].0 == id);
    assert forall|t: int| 0 <= t < r.per_instance@.len() implies (
    #[trigger] r.per_instance@[t]).0 == id by {
        assert(has_source(list.sources@, r.per_instance@[t].0));
    }
    if r.per_instance@.len() > 1 {
        let (a, b) = (0int, 1int);
        assert(r.per_instance@[a].0 < r.per_instance@[b].0);
    }
}

/// The spectrum tells the share of a device.
pub open spec fn has_share(r: NoiseSpectrum, device: usize) -> bool {
    exists|s: int| 0 <= s < r.per_instance@.len() && (#[trigger] r.per_instance@[s]).0 == device
}

/// Some source belongs to a device.
pub open spec fn has_source(
    sources: Seq<(usize, usize, usize, NoiseSource)>,
    device: usize,
) -> bool {
    exists|k: int| 0 <= k < sources.len() && (#[trigger] sources[k]).0 == device
}

/// A device has a share of the spectrum exactly if some source belongs to it, and has one
/// share only: the shares come in the ascending order of their devices.
pub proof fn every_emitting_device_has_a_share<
    W: Fn(Real, (Real, Real), (Real, Real), Density) -> Real,
    F: Fn(Real, Real) -> Real,
    R: Fn((Real, Real), Real) -> (Real, Real),
>(
    list: &SourceList,
    devices: usize,
    f: &Vec<Real>,
    ys: &Vec<Vec<(Real, Real)>>,
    input: Option<usize>,
    weigh: &W,
    plus: &F,
    refer: &R,
    r: NoiseSpectrum,
)
    requires
        call_ensures(
            noise_spectrum::<W, F, R>,
            (list, devices, f, ys, input, weigh, plus, refer),
            r,
        ),
    ensures
        forall|s: int, t: int|
            0 <= s < t < r.per_instance@.len() ==> (#[trigger] r.per_instance@[s]).0 < (
            #[trigger] r.per_instance@[t]).0,
        forall|k: int|
            0 <= k < list.sources@.len() ==> has_share(r, (#[trigger] list.sources@[k]).0),
        forall|s: int|
            0 <= s < r.per_instance@.len() ==> has_source(
                list.sources@,
                (#[trigger] r.per_instance@[s]).0,
            ),
{
    let sources = list.sources@;
    let ids = contributor_ids(r);
    assert(is_contributors(sources, ids));
    assert forall|s: int, t: int| 0 <= s < t < r.per_instance@.len() implies (
    #[trigger] r.per_instance@[s]).0 < (#[trigger] r.per_instance@[t]).0 by {
        assert(ids[s] < ids[t]);
    }
    assert forall|k: int| 0 <= k < sources.len() implies has_share(r, (#[trigger] sources[k]).0) by {
        assert(crate::spectrum::emits(sources, sources[k].0));
        assert(ids.contains(sources[k].0));
        let s = choose|s: int| 0 <= s < ids.len() && ids[s] == sources[k].0;
        assert(r.per_instance@[s].0 == sources[k].0);
    }
    assert forall|s: int| 0 <= s < r.per_instance@.len() implies has_source(
        sources,
        (#[trigger] r.per_instance@[s]).0,
    ) by {
        assert(ids[s] == r.per_instance@[s].0);
        assert(ids.contains(ids[s]));
        assert(crate::spectrum::emits(sources, ids[s]));
    }
}

/// The density referred to an input is the quotient of the density at the output by the
/// squared gain at the input's own row, or infinity where that gain is not positive.
/// Without an input there is none.
pub proof fn a_density_is_referred_by_the_gain_at_the_input<
    W: Fn(Real, (Real, Real), (Real, Real), Density) -> Real,
    F: Fn(Real, Real) -> Real,
    R: Fn((Real, Real), Real) -> (Real, Real),
>(
    list: &SourceList,
    devices: usize,
    f: &Vec<Real>,
    ys: &Vec<Vec<(Real, Real)>>,
    input: Option<usize>,
    weigh: &W,
    plus: &F,
    refer: &R,
    r: NoiseSpectrum,
    i: int,
)
    requires
        call_ensures(
            noise_spectrum::<W, F, R>,
            (list, devices, f, ys, input, weigh, plus, refer),
            r,
        ),
        0 <= i < f@.len(),
        input matches Some(k) ==> k < ys@[i]@.len(),
    ensures
        input is None ==> r.input_psd@.len() == 0,
        input matches Some(k) ==> {
            &&& r.input_psd@.len() == f@.len()
            &&& exists|squared: Real, quotient: Real|
                {
                    &&& #[trigger] call_ensures(
                        *refer,
                        (ys@[i]@[k as int], r.psd@[i]),
                        (squared, quotient),
                    )
                    &&& (Real { bits: 0 }).lt(squared) ==> r.input_psd@[i] == quotient
                    &&& !(Real { bits: 0 }).lt(squared) ==> r.input_psd@[i] == (Real {
                        bits: INFINITY,
                    })
                }
        },
{
    assert(is_spectrum(list.sources@, f@, ys@, input, *weigh, *plus, *refer, r));
    if let Some(k) = input {
        assert(is_referred(*refer, complex_entry(ys@[i]@, k), r.psd@[i], r.input_psd@[i]));
        let g = choose|g: (Real, Real)| #[trigger]
            call_ensures(*refer, (complex_entry(ys@[i]@, k), r.psd@[i]), g) && r.input_psd@[i]
                == (if (Real { bits: 0 }).lt(g.0) {
                g.1
            } else {
                Real { bits: INFINITY }
            });
        assert(call_ensures(*refer, (ys@[i]@[k as int], r.psd@[i]), (g.0, g.1)));
    }
}

// ---- the integral ---------------------------------------------------------

/// The area under a density over the first points: that over every interval between two
/// neighbours at which the density is finite.
pub open spec fn area_upto(
    f: Seq<Real>,
    psd: Seq<Real>,
    area: spec_fn(Real, Real, Real, Real) -> int,
    points: int,
) -> int
    decreases points,
{
    if points <= 1 {
        0
    } else {
        let (a, b) = (points - 2, points - 1);
        let before = area_upto(f, psd, area, b);
        if psd[a].finite() && psd[b].finite() {
            before + area(f[a], f[b], psd[a], psd[b])
        } else {
            before
        }
    }
}

/// The area of each interval, in the order of the intervals.
proof fn lemma_areas<T: Fn(Real, Real, Real, Real) -> Real>(
    trapezoid: T,
    f: Seq<Real>,
    psd: Seq<Real>,
    counted: Seq<usize>,
    areas: Seq<Real>,
    upto: int,
    area: spec_fn(Real, Real, Real, Real) -> int,
    val: spec_fn(Real) -> int,
)
    requires
        0 <= upto <= f.len(),
        counted == finite_intervals(f.len(), psd, upto),
        areas.len() == counted.len(),
        forall|k: int|
            0 <= k < areas.len() ==> call_ensures(
                trapezoid,
                (
                    f[counted[k] as int],
                    f[counted[k] + 1],
                    psd[counted[k] as int],
                    psd[counted[k] + 1],
                ),
                #[trigger] areas[k],
            ),
        forall|a: Real, b: Real, c: Real, d: Real, x: Real| #[trigger]
            call_ensures(trapezoid, (a, b, c, d), x) ==> val(x) == area(a, b, c, d),
        f.len() <= usize::MAX,
    ensures
        total(areas, val) == area_upto(
            f,
            psd,
            area,
            if upto + 1 <= f.len() && upto + 1 <= psd.len() {
                upto + 1
            } else if f.len() <= psd.len() {
                f.len() as int
            } else {
                psd.len() as int
            },
        ),
    decreases upto,
{
    if upto > 0 {
        let before = finite_intervals(f.len(), psd, upto - 1);
        if upto < f.len() && upto < psd.len() && psd[upto - 1].finite() && psd[upto].finite() {
            let fewer = areas.drop_last();
            assert(counted.drop_last() =~= before);
            assert forall|k: int| 0 <= k < fewer.len() implies call_ensures(
                trapezoid,
                (f[before[k] as int], f[before[k] + 1], psd[before[k] as int], psd[before[k] + 1]),
                #[trigger] fewer[k],
            ) by {
                assert(fewer[k] == areas[k] && before[k] == counted[k]);
            }
            lemma_areas(trapezoid, f, psd, before, fewer, upto - 1, area, val);
            assert(areas[areas.len() - 1] == areas.last());
            assert(counted.last() == upto - 1);
        } else {
            lemma_areas(trapezoid, f, psd, before, areas, upto - 1, area, val);
        }
    }
}

/// The integral of a density is the root of the sum of the areas between neighbouring
/// frequencies, over the intervals at both ends of which the density is finite, and zero
/// over fewer than two points.
pub proof fn an_integral_adds_the_areas_up<
    T: Fn(Real, Real, Real, Real) -> Real,
    F: Fn(Real, Real) -> Real,
    Q: Fn(Real) -> Real,
>(
    f: &Vec<Real>,
    psd: &Vec<Real>,
    trapezoid: &T,
    plus: &F,
    root: &Q,
    r: Real,
    area: spec_fn(Real, Real, Real, Real) -> int,
    val: spec_fn(Real) -> int,
)
    requires
        call_ensures(integrate_rms::<T, F, Q>, (f, psd, trapezoid, plus, root), r),
        f@.len() == psd@.len(),
        forall|a: Real, b: Real, c: Real, d: Real, x: Real| #[trigger]
            call_ensures(*trapezoid, (a, b, c, d), x) ==> val(x) == area(a, b, c, d),
        sums(*plus, val),
        val(Real { bits: 0 }) == 0,
    ensures
        f@.len() < 2 ==> r == (Real { bits: 0 }),
        f@.len() >= 2 ==> exists|power: Real| #[trigger]
            call_ensures(*root, (power,), r) && val(power) == area_upto(
                f@,
                psd@,
                area,
                f@.len() as int,
            ),
{
    if f@.len() >= 2 {
        let (areas, power) = choose|areas: Seq<Real>, power: Real|
            {
                &&& #[trigger] is_areas(*trapezoid, f@, psd@, areas)
                &&& is_sum(*plus, areas, power)
                &&& #[trigger] call_ensures(*root, (power,), r)
            };
        assert(f.len() == f@.len());
        let counted = finite_intervals(f@.len(), psd@, f@.len() as int);
        lemma_areas(*trapezoid, f@, psd@, counted, areas, f@.len() as int, area, val);
        lemma_sum_is_total(*plus, areas, power, val);
        assert(call_ensures(*root, (power,), r));
    }
}

// ---- the adjoint equations ------------------------------------------------

/// The first entries of a right-hand side times a vector.
pub open spec fn probed(
    e: Seq<(Real, Real)>,
    x: spec_fn(int) -> int,
    val: spec_fn(Real) -> int,
    upto: int,
) -> int
    decreases upto,
{
    if upto <= 0 {
        0
    } else {
        probed(e, x, val, upto - 1) + val(e[upto - 1].0) * x(upto - 1)
    }
}

proof fn lemma_probed(
    e: Seq<(Real, Real)>,
    output: int,
    x: spec_fn(int) -> int,
    val: spec_fn(Real) -> int,
    upto: int,
)
    requires
        0 <= upto <= e.len(),
        0 <= output < e.len(),
        val(Real { bits: 0 }) == 0,
        val(Real { bits: ONE }) == 1,
        forall|i: int|
            0 <= i < e.len() ==> (#[trigger] e[i]).0 == (if i == output {
                Real { bits: ONE }
            } else {
                Real { bits: 0 }
            }),
    ensures
        probed(e, x, val, upto) == if output < upto {
            x(output)
        } else {
            0
        },
    decreases upto,
{
    if upto > 0 {
        lemma_probed(e, output, x, val, upto - 1);
        let k = upto - 1;
        assert(e[k].0 == if k == output {
            Real { bits: ONE }
        } else {
            Real { bits: 0 }
        });
        assert(0 * x(k) == 0 && 1 * x(k) == x(k));
    }
}

/// The right-hand side of the adjoint equations reads the output: its product with any
/// vector is that vector's entry at the output. It is refused exactly if the output or
/// the input is no unknown, the output first.
pub proof fn a_probe_reads_the_output(
    dim: usize,
    output: usize,
    input: Option<usize>,
    r: Result<Vec<(Real, Real)>, crate::spectrum::AcNoiseError>,
    x: spec_fn(int) -> int,
    val: spec_fn(Real) -> int,
)
    requires
        call_ensures(adjoint_probe, (dim, output, input), r),
        val(Real { bits: 0 }) == 0,
        val(Real { bits: ONE }) == 1,
    ensures
        r is Ok <==> output < dim && (input matches Some(k) ==> k < dim),
        r matches Ok(e) ==> {
            &&& e@.len() == dim
            &&& probed(e@, x, val, dim as int) == x(output as int)
            &&& forall|i: int| 0 <= i < dim ==> (#[trigger] e@[i]).1 == (Real { bits: 0 })
        },
        r matches Err(crate::spectrum::AcNoiseError::InvalidOutput { index, dim: size }) ==> {
            &&& size == dim
            &&& output >= dim ==> index == output
            &&& output < dim ==> input == Some(index) && index >= dim
        },
{
    if let Ok(e) = r {
        lemma_probed(e@, output as int, x, val, dim as int);
    }
}

// ---- densities ------------------------------------------------------------

/// `d` tells the density of a table at a frequency: up to its first frequency it is that
/// of its first point, beyond its last one that of its last point, at a tabulated
/// frequency that of the first point there. Elsewhere it lies on the line that joins two
/// neighbouring points, the one at or below the frequency and the other at or above it:
/// over logarithms only where the table asks for it and they exist.
pub open spec fn reads_between(
    points: Seq<(Real, Real)>,
    interp: TableInterp,
    f: Real,
    d: Density,
) -> bool {
    &&& (points.len() == 0 ==> d == Density::Value(Real { bits: 0 }))
    &&& (points.len() > 0 && f.le(points[0].0) ==> d == Density::Value(points[0].1))
    &&& (points.len() > 0 && !f.le(points[0].0) && points[points.len() - 1].0.lt(f) ==> d
            == Density::Value(points[points.len() - 1].1))
    &&& (points.len() > 0 && !f.le(points[0].0) && !points[points.len() - 1].0.lt(f) ==> {
            match d {
                Density::Value(v) => exists|k: int| #[trigger]
                    stands_first_at(points, f, k) && points[k].1 == v,
                Density::OnLine { f1, p1, f2, p2 } => {
                    &&& f1.le(f) && f.le(f2)
                    &&& interp is Linear || !((Real { bits: 0 }).lt(f1) && (Real { bits: 0 }).lt(p1)
                        && (Real { bits: 0 }).lt(p2))
                    &&& exists|k: int| #[trigger] joins(points, k, f1, p1, f2, p2)
                },
                Density::OnLogLine { f1, p1, f2, p2 } => {
                    &&& f1.le(f) && f.le(f2)
                    &&& interp is Log && (Real { bits: 0 }).lt(f1) && (Real { bits: 0 }).lt(p1) && (
                    Real { bits: 0 }).lt(p2)
                    &&& exists|k: int| #[trigger] joins(points, k, f1, p1, f2, p2)
                },
                Density::Flicker { .. } => false,
            }
        })
    &&& (points.len() > 0 && (d is OnLine || d is OnLogLine) ==> forall|j: int|
            0 <= j < points.len() ==> !((#[trigger] points[j]).0.le(f) && f.le(points[j].0)))
}

/// A white source has its own density at every frequency; a flickering one hands its
/// coefficient and its exponent on at every positive frequency and has none elsewhere; a
/// tabulated one is read from its table.
pub proof fn a_source_has_its_density(source: &NoiseSource, f: Real, d: Density)
    requires
        call_ensures(NoiseSource::density, (source, f), d),
    ensures
        source matches NoiseSource::White { psd } ==> d == Density::Value(*psd),
        source matches NoiseSource::Flicker { coeff, exponent } ==> {
            &&& f.le(Real { bits: 0 }) ==> d == Density::Value(Real { bits: 0 })
            &&& !f.le(Real { bits: 0 }) ==> d == (Density::Flicker {
                coeff: *coeff,
                exponent: *exponent,
            })
        },
        source matches NoiseSource::Table { points, interp } ==> reads_between(
            points@,
            *interp,
            f,
            d,
        ),
{
    if let NoiseSource::Table { points, interp } = source {
        lemma_table_density(points@, *interp, f, d);
    }
}

/// The density of a table at a frequency comes from a point of the table, or from two
/// neighbouring ones.
pub proof fn a_table_is_read_between_neighbours(
    points: &Vec<(Real, Real)>,
    interp: TableInterp,
    f: Real,
    d: Density,
)
    requires
        call_ensures(read_table, (points, interp, f), d),
    ensures
        reads_between(points@, interp, f, d),
{
    lemma_table_density(points@, interp, f, d);
}

/// What a table tells was read from its own points.
proof fn lemma_table_density(s: Seq<(Real, Real)>, interp: TableInterp, f: Real, d: Density)
    requires
        is_table_density(s, interp, f, d),
    ensures
        reads_between(s, interp, f, d),
{
    if s.len() > 0 && !f.le(s[0].0) && !s.last().0.lt(f) {
        if crate::noise::has_point_at(s, f) {
            let k = choose|k: int| #[trigger] is_first_at(s, f, k) && d == Density::Value(s[k].1);
            assert forall|j: int| 0 <= j < k implies !((#[trigger] s[j]).0.le(f) && f.le(s[j].0)) by {
                assert(!crate::noise::same_frequency(s[j].0, f));
            }
            assert(stands_first_at(s, f, k));
        } else {
            let k = choose|k: int|
                {
                    &&& 0 <= k < s.len() - 1
                    &&& #[trigger] on_segment(s, f, k)
                    &&& forall|j: int| 0 <= j < k ==> !#[trigger] on_segment(s, f, j)
                    &&& d == crate::noise::segment_density(s, interp, k)
                };
            assert(joins(s, k, s[k].0, s[k].1, s[k + 1].0, s[k + 1].1));
            assert(on_segment(s, f, k));
            assert(d is OnLine || d is OnLogLine);
            match d {
                Density::OnLine { f1, p1, f2, p2 } => {
                    assert(joins(s, k, f1, p1, f2, p2));
                },
                Density::OnLogLine { f1, p1, f2, p2 } => {
                    assert(joins(s, k, f1, p1, f2, p2));
                },
                _ => {},
            }
            assert forall|j: int| 0 <= j < s.len() implies !((#[trigger] s[j]).0.le(f) && f.le(
                s[j].0,
            )) by {
                assert(!crate::noise::same_frequency(s[j].0, f));
            }
        }
    }
}

/// The point at this place is the first of the table at the frequency.
pub open spec fn stands_first_at(points: Seq<(Real, Real)>, f: Real, k: int) -> bool {
    &&& 0 <= k < points.len()
    &&& points[k].0.le(f) && f.le(points[k].0)
    &&& forall|j: int| 0 <= j < k ==> !((#[trigger] points[j]).0.le(f) && f.le(points[j].0))
}

/// The two points are neighbours in the table, from this place on.
pub open spec fn joins(
    points: Seq<(Real, Real)>,
    k: int,
    f1: Real,
    p1: Real,
    f2: Real,
    p2: Real,
) -> bool {
    &&& 0 <= k < points.len() - 1
    &&& points[k] == (f1, p1)
    &&& points[k + 1] == (f2, p2)
}

/// A tabulated source holds the points it was made of, all of them and no others, by
/// ascending frequencies.
pub proof fn a_tabulated_source_keeps_its_points(
    points: Vec<(Real, Real)>,
    interp: TableInterp,
    r: NoiseSource,
)
    requires
        call_ensures(NoiseSource::table, (points, interp), r),
    ensures
        r matches NoiseSource::Table { points: sorted, interp: i } && {
            &&& i == interp
            &&& sorted@.len() == points@.len()
            &&& forall|a: int, b: int|
                0 <= a < b < sorted@.len() ==> sorted@[a].0.total_rank() <= sorted@[b].0.total_rank()
            &&& forall|q: (Real, Real)| #[trigger]
                sorted@.contains(q) <==> points@.contains(q)
        },
{
    if let NoiseSource::Table { points: sorted, .. } = r {
        crate::noise::a_sorted_table_ascends(points@, sorted@);
        let order = choose|order: Seq<int>| #[trigger]
            is_order(points@, order) && sorted@ == Seq::new(
                points@.len(),
                |i: int| points@[order[i]],
            );
        lemma_every_place_is_listed(points@, order);
        assert forall|q: (Real, Real)| #[trigger] sorted@.contains(q) implies points@.contains(q) by {
            let i = choose|i: int| 0 <= i < sorted@.len() && sorted@[i] == q;
            assert(points@[order[i]] == q);
        }
        assert forall|q: (Real, Real)| points@.contains(q) implies #[trigger] sorted@.contains(q) by {
            let k = choose|k: int| 0 <= k < points@.len() && points@[k] == q;
            assert(order.contains(k));
            let i = choose|i: int| 0 <= i < order.len() && order[i] == k;
            assert(sorted@[i] == q);
        }
    }
}

proof fn lemma_every_place_is_listed(points: Seq<(Real, Real)>, order: Seq<int>)
    requires
        is_order(points, order),
    ensures
        forall|k: int| 0 <= k < points.len() ==> #[trigger] order.contains(k),
{
    assert forall|i: int, j: int| 0 <= i < j < order.len() implies order[i] != order[j] by {
        assert(crate::noise::precedes(points, order[i], order[j]));
    }
    assert(order.no_duplicates());
    order.unique_seq_to_set();
    let all = vstd::set_lib::set_int_range(0, points.len() as int);
    vstd::set_lib::lemma_int_range(0, points.len() as int);
    assert(order.to_set().subset_of(all)) by {
        assert forall|k: int| order.to_set().contains(k) implies all.contains(k) by {
            let i = choose|i: int| 0 <= i < order.len() && order[i] == k;
            assert(0 <= order[i] < points.len());
        }
    }
    vstd::set_lib::lemma_subset_equality(order.to_set(), all);
    assert forall|k: int| 0 <= k < points.len() implies #[trigger] order.contains(k) by {
        assert(all.contains(k));
        assert(order.to_set().contains(k));
    }
}

/// A source is dropped only if it has no power anywhere: then its density is nowhere
/// above zero. One that is kept has some number that is not at most zero.
pub proof fn only_powerless_sources_are_dropped(
    source: &NoiseSource,
    dropped: bool,
    f: Real,
    d: Density,
)
    requires
        call_ensures(NoiseSource::is_powerless, (source,), dropped),
        call_ensures(NoiseSource::density, (source, f), d),
    ensures
        dropped ==> match d {
            Density::Value(v) => v.le(Real { bits: 0 }),
            Density::Flicker { coeff, .. } => coeff.le(Real { bits: 0 }),
            Density::OnLine { p1, p2, .. } => p1.le(Real { bits: 0 }) && p2.le(Real { bits: 0 }),
            Density::OnLogLine { .. } => false,
        },
        !dropped ==> match *source {
            NoiseSource::White { psd } => !psd.le(Real { bits: 0 }),
            NoiseSource::Flicker { coeff, .. } => !coeff.le(Real { bits: 0 }),
            NoiseSource::Table { points, .. } => exists|i: int|
                0 <= i < points@.len() && !(#[trigger] points@[i]).1.le(Real { bits: 0 }),
        },
{
    if let NoiseSource::Table { points, interp } = *source {
        let s = points@;
        if s.len() > 0 && !f.le(s[0].0) && !s.last().0.lt(f) && !crate::noise::has_point_at(s, f) {
            let k = choose|k: int|
                {
                    &&& 0 <= k < s.len() - 1
                    &&& #[trigger] on_segment(s, f, k)
                    &&& forall|j: int| 0 <= j < k ==> !#[trigger] on_segment(s, f, j)
                    &&& d == crate::noise::segment_density(s, interp, k)
                };
            if dropped {
                assert(s[k].1.le(Real { bits: 0 }));
                assert(s[k + 1].1.le(Real { bits: 0 }));
            }
        } else if dropped && s.len() > 0 {
            assert(s[0].1.le(Real { bits: 0 }));
            assert(s[s.len() - 1].1.le(Real { bits: 0 }));
        }
    }
}

/// A reported source with some power is kept as it came, last, for the device that is
/// asked and between the nodes that it names; what was there before stays.
pub proof fn a_reported_source_is_kept(
    sources: Seq<(usize, usize, usize, NoiseSource)>,
    current: usize,
    p: usize,
    n: usize,
    source: NoiseSource,
)
    ensures
        ({
            let after = with_source(sources, current, p, n, source);
            &&& after.len() == sources.len() || after.len() == sources.len() + 1
            &&& after.take(sources.len() as int) == sources
            &&& after.len() == sources.len() <==> source.powerless()
            &&& after.len() > sources.len() ==> after[sources.len() as int] == (current, p, n, source)
        }),
{
    assert(with_source(sources, current, p, n, source).take(sources.len() as int) =~= sources);
}

/// A list of sources turns to a device without losing any, and takes a source with some
/// power last, for that device and between the nodes that it names.
pub proof fn a_list_takes_a_source_for_its_device(
    list: &mut SourceList,
    p: usize,
    n: usize,
    source: NoiseSource,
    turned: &mut SourceList,
    id: usize,
)
    requires
        call_ensures(SourceList::push, (list, p, n, source), ()),
        call_ensures(SourceList::turn_to, (turned, id), ()),
    ensures
        final(turned).current == id,
        final(turned).sources@ == old(turned).sources@,
        final(list).current == old(list).current,
        source.powerless() ==> final(list).sources@ == old(list).sources@,
        !source.powerless() ==> final(list).sources@ == old(list).sources@ + seq![
            (old(list).current, p, n, source),
        ],
{
    if !source.powerless() {
        assert(old(list).sources@.push((old(list).current, p, n, source)) =~= old(list).sources@
            + seq![(old(list).current, p, n, source)]);
    }
}

} // verus!
