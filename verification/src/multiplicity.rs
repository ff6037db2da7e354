//! Several identical devices in parallel, as one.
use crate::noise::{on_segment, NoiseSource};
use crate::number::{Real, ONE};
use crate::stamps::Stamp;
use vstd::prelude::*;

verus! {

/// Whether a device of this multiplicity differs from a single one.
pub fn is_multiple(m: Real) -> (r: bool)
    ensures
        r == !(m.le(Real { bits: ONE }) && (Real { bits: ONE }).le(m)),
{
    !m.equals(Real::one())
}

/// `scaled` is the contribution of several devices: every number times the
/// multiplicity, but for a bound on the step, which several devices ask for as one does.
pub open spec fn is_scaled_stamp<F: Fn(Real) -> Real>(times: F, one: Stamp, scaled: Stamp) -> bool {
    match one {
        Stamp::Residual { row, value } => scaled matches Stamp::Residual { row: r, value: v } && r
            == row && call_ensures(times, (value,), v),
        Stamp::Jacobian { row, col, value } => scaled matches Stamp::Jacobian {
            row: r,
            col: c,
            value: v,
        } && r == row && c == col && call_ensures(times, (value,), v),
        Stamp::Charge { row, value } => scaled matches Stamp::Charge { row: r, value: v } && r
            == row && call_ensures(times, (value,), v),
        Stamp::Dcharge { row, col, value } => scaled matches Stamp::Dcharge {
            row: r,
            col: c,
            value: v,
        } && r == row && c == col && call_ensures(times, (value,), v),
        Stamp::Excitation { row, re, im } => scaled matches Stamp::Excitation {
            row: r,
            re: x,
            im: y,
        } && r == row && call_ensures(times, (re,), x) && call_ensures(times, (im,), y),
        Stamp::BoundStep { dt } => scaled == (Stamp::BoundStep { dt }),
    }
}

/// The contributions of several devices. `times` multiplies by the multiplicity.
pub fn scale_stamps<F: Fn(Real) -> Real>(stamps: &Vec<Stamp>, times: &F) -> (r: Vec<Stamp>)
    requires
        forall|x: Real| #[trigger] call_requires(*times, (x,)),
    ensures
        r@.len() == stamps@.len(),
        forall|i: int|
            0 <= i < r@.len() ==> is_scaled_stamp(*times, stamps@[i], #[trigger] r@[i]),
{
    let mut r: Vec<Stamp> = Vec::new();
    let mut i: usize = 0;
    while i < stamps.len()
        invariant
            forall|x: Real| #[trigger] call_requires(*times, (x,)),
            i <= stamps@.len(),
            r@.len() == i,
            forall|j: int|
                0 <= j < i ==> is_scaled_stamp(*times, stamps@[j], #[trigger] r@[j]),
        decreases stamps@.len() - i,
    {
        let scaled = match stamps[i] {
            Stamp::Residual { row, value } => Stamp::Residual { row, value: times(value) },
            Stamp::Jacobian { row, col, value } => Stamp::Jacobian {
                row,
                col,
                value: times(value),
            },
            Stamp::Charge { row, value } => Stamp::Charge { row, value: times(value) },
            Stamp::Dcharge { row, col, value } => Stamp::Dcharge { row, col, value: times(value) },
            Stamp::Excitation { row, re, im } => Stamp::Excitation {
                row,
                re: times(re),
                im: times(im),
            },
            Stamp::BoundStep { dt } => Stamp::BoundStep { dt },
        };
        r.push(scaled);
        i += 1;
    }
    r
}

/// `scaled` is the noise of several devices: the power times the multiplicity, and the
/// shape of the spectrum unchanged. Their currents are not correlated, so their powers
/// add.
pub open spec fn is_scaled_source<F: Fn(Real) -> Real>(
    times: F,
    one: NoiseSource,
    scaled: NoiseSource,
) -> bool {
    match one {
        NoiseSource::White { psd } => scaled matches NoiseSource::White { psd: p } && call_ensures(
            times,
            (psd,),
            p,
        ),
        NoiseSource::Flicker { coeff, exponent } => scaled matches NoiseSource::Flicker {
            coeff: c,
            exponent: e,
        } && e == exponent && call_ensures(times, (coeff,), c),
        NoiseSource::Table { points, interp } => scaled matches NoiseSource::Table {
            points: q,
            interp: j,
        } && j == interp && q@.len() == points@.len() && forall|i: int|
            0 <= i < q@.len() ==> (#[trigger] q@[i]).0 == points@[i].0 && call_ensures(
                times,
                (points@[i].1,),
                q@[i].1,
            ),
    }
}

/// The noise of several devices. `times` multiplies by the multiplicity.
pub fn scale_source<F: Fn(Real) -> Real>(source: &NoiseSource, times: &F) -> (r: NoiseSource)
    requires
        forall|x: Real| #[trigger] call_requires(*times, (x,)),
    ensures
        is_scaled_source(*times, *source, r),
{
    match source {
        NoiseSource::White { psd } => NoiseSource::White { psd: times(*psd) },
        NoiseSource::Flicker { coeff, exponent } => NoiseSource::Flicker {
            coeff: times(*coeff),
            exponent: *exponent,
        },
        NoiseSource::Table { points, interp } => {
            let mut scaled: Vec<(Real, Real)> = Vec::new();
            let mut i: usize = 0;
            while i < points.len()
                invariant
                    forall|x: Real| #[trigger] call_requires(*times, (x,)),
                    i <= points@.len(),
                    scaled@.len() == i,
                    forall|j: int|
                        0 <= j < i ==> (#[trigger] scaled@[j]).0 == points@[j].0 && call_ensures(
                            *times,
                            (points@[j].1,),
                            scaled@[j].1,
                        ),
                decreases points@.len() - i,
            {
                let p = times(points[i].1);
                scaled.push((points[i].0, p));
                i += 1;
            }
            NoiseSource::Table { points: scaled, interp: *interp }
        },
    }
}

/// The noise sources of several devices, in order and between the same ends. `times`
/// multiplies by the multiplicity.
pub fn scale_sources<F: Fn(Real) -> Real>(
    sources: &Vec<(usize, usize, NoiseSource)>,
    times: &F,
) -> (r: Vec<(usize, usize, NoiseSource)>)
    requires
        forall|x: Real| #[trigger] call_requires(*times, (x,)),
    ensures
        are_scaled_sources(*times, sources@, r@),
{
    let mut r: Vec<(usize, usize, NoiseSource)> = Vec::new();
    let mut i: usize = 0;
    while i < sources.len()
        invariant
            forall|x: Real| #[trigger] call_requires(*times, (x,)),
            i <= sources@.len(),
            r@.len() == i,
            forall|j: int|
                0 <= j < i ==> (#[trigger] r@[j]).0 == sources@[j].0 && r@[j].1 == sources@[j].1
                    && is_scaled_source(*times, sources@[j].2, r@[j].2),
        decreases sources@.len() - i,
    {
        let scaled = scale_source(&sources[i].2, times);
        r.push((sources[i].0, sources[i].1, scaled));
        i += 1;
    }
    r
}

/// `scaled` holds the sources of `one` in their order, between the same ends, each with
/// its power times the multiplicity.
pub open spec fn are_scaled_sources<F: Fn(Real) -> Real>(
    times: F,
    one: Seq<(usize, usize, NoiseSource)>,
    scaled: Seq<(usize, usize, NoiseSource)>,
) -> bool {
    &&& scaled.len() == one.len()
    &&& forall|i: int|
        0 <= i < scaled.len() ==> (#[trigger] scaled[i]).0 == one[i].0 && scaled[i].1 == one[i].1
            && is_scaled_source(times, one[i].2, scaled[i].2)
}

/// Several devices keep the shape of the spectrum, so its density can be told at the
/// frequencies at which that of one can.
pub proof fn scaling_keeps_the_shape<F: Fn(Real) -> Real>(
    times: F,
    one: NoiseSource,
    scaled: NoiseSource,
    f: Real,
)
    requires
        is_scaled_source(times, one, scaled),
        one.readable(f),
    ensures
        scaled.readable(f),
{
    if let NoiseSource::Table { points, .. } = one {
        if let NoiseSource::Table { points: q, .. } = scaled {
            if points@.len() > 0 {
                assert(q@[0].0 == points@[0].0);
                assert(q@[q@.len() - 1].0 == points@[points@.len() - 1].0);
                if exists|k: int| 0 <= k < points@.len() - 1 && on_segment(points@, f, k) {
                    let k = choose|k: int|
                        0 <= k < points@.len() - 1 && #[trigger] on_segment(points@, f, k);
                    assert(q@[k].0 == points@[k].0);
                    assert(q@[k + 1].0 == points@[k + 1].0);
                    assert(on_segment(q@, f, k));
                }
            }
        }
    }
}

// ---- several devices ------------------------------------------------------

/// A place that contributions add up in.
pub enum Cell {
    Residual { row: usize },
    Jacobian { row: usize, col: usize },
    Charge { row: usize },
    Dcharge { row: usize, col: usize },
    /// The real part of the excitation of a row.
    Re { row: usize },
    /// The imaginary part of the excitation of a row.
    Im { row: usize },
}

/// What a contribution adds in a cell. `val` gives the numbers that encodings stand for,
/// in some unit.
pub open spec fn amount(stamp: Stamp, cell: Cell, val: spec_fn(Real) -> int) -> int {
    match (stamp, cell) {
        (Stamp::Residual { row, value }, Cell::Residual { row: r }) if row == r => val(value),
        (Stamp::Jacobian { row, col, value }, Cell::Jacobian { row: r, col: c }) if row == r && col
            == c => val(value),
        (Stamp::Charge { row, value }, Cell::Charge { row: r }) if row == r => val(value),
        (Stamp::Dcharge { row, col, value }, Cell::Dcharge { row: r, col: c }) if row == r && col
            == c => val(value),
        (Stamp::Excitation { row, re, im }, Cell::Re { row: r }) if row == r => val(re),
        (Stamp::Excitation { row, re, im }, Cell::Im { row: r }) if row == r => val(im),
        _ => 0,
    }
}

/// What contributions add up to in a cell.
pub open spec fn cell_sum(stamps: Seq<Stamp>, cell: Cell, val: spec_fn(Real) -> int) -> int
    decreases stamps.len(),
{
    if stamps.len() == 0 {
        0
    } else {
        cell_sum(stamps.drop_last(), cell, val) + amount(stamps.last(), cell, val)
    }
}

/// The bounds on the step that contributions ask for, in order.
pub open spec fn bounds_asked(stamps: Seq<Stamp>) -> Seq<Real>
    decreases stamps.len(),
{
    if stamps.len() == 0 {
        Seq::empty()
    } else {
        match stamps.last() {
            Stamp::BoundStep { dt } => bounds_asked(stamps.drop_last()).push(dt),
            _ => bounds_asked(stamps.drop_last()),
        }
    }
}

/// The contributions of so many devices, one after the other.
pub open spec fn copies(one: Seq<Stamp>, m: nat) -> Seq<Stamp>
    decreases m,
{
    if m == 0 {
        Seq::empty()
    } else {
        copies(one, (m - 1) as nat) + one
    }
}

/// Contributions one after the other add up to the sum of what each adds up to.
pub proof fn lemma_cell_sum_concat(
    a: Seq<Stamp>,
    b: Seq<Stamp>,
    cell: Cell,
    val: spec_fn(Real) -> int,
)
    ensures
        cell_sum(a + b, cell, val) == cell_sum(a, cell, val) + cell_sum(b, cell, val),
    decreases b.len(),
{
    if b.len() == 0 {
        assert(a + b =~= a);
    } else {
        assert((a + b).drop_last() =~= a + b.drop_last());
        lemma_cell_sum_concat(a, b.drop_last(), cell, val);
    }
}

proof fn lemma_copies_sum(one: Seq<Stamp>, m: nat, cell: Cell, val: spec_fn(Real) -> int)
    ensures
        cell_sum(copies(one, m), cell, val) == m * cell_sum(one, cell, val),
    decreases m,
{
    let s = cell_sum(one, cell, val);
    if m > 0 {
        lemma_copies_sum(one, (m - 1) as nat, cell, val);
        lemma_cell_sum_concat(copies(one, (m - 1) as nat), one, cell, val);
        assert((m - 1) * s + s == m * s) by (nonlinear_arith);
    } else {
        assert(m * s == 0) by (nonlinear_arith)
            requires
                m == 0,
        ;
    }
}

proof fn lemma_scaled_sum<F: Fn(Real) -> Real>(
    times: F,
    one: Seq<Stamp>,
    scaled: Seq<Stamp>,
    cell: Cell,
    val: spec_fn(Real) -> int,
    m: int,
)
    requires
        scaled.len() == one.len(),
        forall|i: int|
            0 <= i < one.len() ==> is_scaled_stamp(times, one[i], #[trigger] scaled[i]),
        forall|x: Real, y: Real| #[trigger] call_ensures(times, (x,), y) ==> val(y) == m * val(x),
    ensures
        cell_sum(scaled, cell, val) == m * cell_sum(one, cell, val),
        bounds_asked(scaled) == bounds_asked(one),
    decreases one.len(),
{
    if one.len() > 0 {
        let a = one.drop_last();
        let b = scaled.drop_last();
        assert forall|i: int| 0 <= i < a.len() implies is_scaled_stamp(
            times,
            a[i],
            #[trigger] b[i],
        ) by {
            assert(is_scaled_stamp(times, one[i], scaled[i]));
        }
        lemma_scaled_sum(times, a, b, cell, val, m);
        assert(is_scaled_stamp(times, one[one.len() - 1], scaled[scaled.len() - 1]));
        let s = cell_sum(a, cell, val);
        let v = amount(one.last(), cell, val);
        assert(amount(scaled.last(), cell, val) == m * v) by {
            assert(m * 0 == 0) by (nonlinear_arith);
        }
        assert(m * (s + v) == m * s + m * v) by (nonlinear_arith);
    } else {
        assert(m * 0 == 0) by (nonlinear_arith);
    }
}

/// A scaled device contributes what so many devices in parallel do: to every residual,
/// derivative, charge, derivative of a charge and excitation. What it asks for as the
/// bound on the step is what one of them asks for.
pub proof fn several_devices_contribute_several_times<F: Fn(Real) -> Real>(
    times: F,
    one: Seq<Stamp>,
    scaled: Seq<Stamp>,
    cell: Cell,
    val: spec_fn(Real) -> int,
    m: nat,
)
    requires
        scaled.len() == one.len(),
        forall|i: int|
            0 <= i < one.len() ==> is_scaled_stamp(times, one[i], #[trigger] scaled[i]),
        forall|x: Real, y: Real| #[trigger] call_ensures(times, (x,), y) ==> val(y) == m * val(x),
    ensures
        cell_sum(scaled, cell, val) == cell_sum(copies(one, m), cell, val),
        bounds_asked(scaled) == bounds_asked(one),
{
    lemma_scaled_sum(times, one, scaled, cell, val, m as int);
    lemma_copies_sum(one, m, cell, val);
}

} // verus!
