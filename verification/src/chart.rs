//! What a chart of a run shows: its curves, its axes and their ranges.
use crate::number::{Real, INFINITY, SIGN};
use crate::quantity::Quantity;
use vstd::prelude::*;

verus! {

/// The number of colours that the curves take in turn.
pub const COLORS: usize = 6;

/// One curve.
#[derive(Clone, Debug, PartialEq, Eq)]
pub struct Curve {
    pub label: String,
    /// Which of the colours it takes.
    pub color: usize,
    pub points: Vec<(Real, Real)>,
}

/// A chart.
#[derive(Debug, PartialEq, Eq)]
pub struct Chart {
    pub caption: String,
    pub x_label: String,
    pub y_label: String,
    /// The first and the last place on the horizontal axis.
    pub x_range: (Real, Real),
    /// Whether the horizontal axis is logarithmic.
    pub log_x: bool,
    /// Whether the horizontal axis has to be widened, since its ends do not differ.
    pub widen_x: bool,
    /// The lowest and the highest value drawn.
    pub y_range: (Real, Real),
    /// Whether the vertical axis has to be widened, since its ends do not differ.
    pub widen_y: bool,
    pub curves: Vec<Curve>,
}

/// What runs are drawn.
#[derive(Clone, Debug, PartialEq, Eq)]
pub enum ChartKind {
    /// Values against time.
    Transient,
    /// Values against that of the swept source.
    Sweep { source: String },
    /// The magnitudes of a response against frequency.
    Magnitude,
    /// The phases of a response against frequency.
    Phase,
    /// The density of noise against frequency.
    Noise,
}

/// The chart has frequencies on its horizontal axis.
pub open spec fn over_frequency(kind: ChartKind) -> bool {
    kind is Magnitude || kind is Phase || kind is Noise
}

/// The quantities that are drawn: the potentials of nets, whose place is below `nets`.
/// A current would share an axis with voltages, on which it cannot be seen.
pub open spec fn drawn(shown: Seq<Quantity>, nets: nat) -> Seq<Quantity>
    decreases shown.len(),
{
    if shown.len() == 0 {
        Seq::empty()
    } else if shown.last().index < nets {
        drawn(shown.drop_last(), nets).push(shown.last())
    } else {
        drawn(shown.drop_last(), nets)
    }
}

/// The curve is that of the quantity; the colours go round by the place of its net.
pub open spec fn is_curve(
    curve: Curve,
    q: Quantity,
    places: Seq<Real>,
    rows: Seq<Vec<Real>>,
) -> bool {
    &&& curve.label@ == q.label@
    &&& curve.color == q.index % COLORS
    &&& curve.points@ == Seq::new(
        places.len(),
        |i: int| (places[i], rows[i]@[q.index as int]),
    )
}

/// `low` is the lowest of the values, or positive infinity where there is none lower.
pub open spec fn is_lowest(curves: Seq<Curve>, low: Real) -> bool {
    &&& !low.nan()
    &&& forall|k: int, i: int|
        0 <= k < curves.len() && 0 <= i < curves[k].points@.len()
            && !(#[trigger] curves[k].points@[i]).1.nan() ==> low.le(curves[k].points@[i].1)
    &&& low.bits == INFINITY || exists|k: int, i: int|
        0 <= k < curves.len() && 0 <= i < curves[k].points@.len()
            && #[trigger] curves[k].points@[i].1 == low
}

/// `high` is the highest of the values, or negative infinity where there is none higher.
pub open spec fn is_highest(curves: Seq<Curve>, high: Real) -> bool {
    &&& !high.nan()
    &&& forall|k: int, i: int|
        0 <= k < curves.len() && 0 <= i < curves[k].points@.len()
            && !(#[trigger] curves[k].points@[i]).1.nan() ==> curves[k].points@[i].1.le(high)
    &&& high.bits == INFINITY + SIGN || exists|k: int, i: int|
        0 <= k < curves.len() && 0 <= i < curves[k].points@.len()
            && #[trigger] curves[k].points@[i].1 == high
}

/// What is said of a run without points.
pub open spec fn empty_text(kind: ChartKind) -> Seq<char> {
    match kind {
        ChartKind::Transient => "waveform has no points to plot"@,
        _ => "sweep has no points to plot"@,
    }
}

/// The label of the horizontal axis.
pub open spec fn x_label_text(kind: ChartKind) -> Seq<char> {
    match kind {
        ChartKind::Transient => "Time (s)"@,
        ChartKind::Sweep { source } => source@ + " (V)"@,
        _ => "Frequency (Hz)"@,
    }
}

/// The label of the vertical axis.
pub open spec fn y_label_text(kind: ChartKind) -> Seq<char> {
    match kind {
        ChartKind::Magnitude => "Magnitude (dB)"@,
        ChartKind::Phase => "Phase (deg)"@,
        ChartKind::Noise => "Noise density (dB)"@,
        _ => "Voltage (V)"@,
    }
}

/// The title of the chart.
pub open spec fn caption_text(kind: ChartKind) -> Seq<char> {
    match kind {
        ChartKind::Transient => "Transient analysis"@,
        ChartKind::Sweep { .. } => "DC sweep"@,
        ChartKind::Noise => "Noise analysis"@,
        _ => "AC analysis"@,
    }
}

fn drawn_quantities(shown: &Vec<Quantity>, nets: usize) -> (r: Vec<Quantity>)
    ensures
        r@ == drawn(shown@, nets as nat),
        forall|k: int| 0 <= k < r@.len() ==> (#[trigger] r@[k]).index < nets,
{
    let mut r: Vec<Quantity> = Vec::new();
    let mut i: usize = 0;
    assert(shown@.subrange(0, 0) =~= Seq::empty());
    while i < shown.len()
        invariant
            i <= shown@.len(),
            r@ == drawn(shown@.subrange(0, i as int), nets as nat),
            forall|k: int| 0 <= k < r@.len() ==> (#[trigger] r@[k]).index < nets,
        decreases shown@.len() - i,
    {
        proof {
            let upto = shown@.subrange(0, i + 1);
            assert(upto.drop_last() =~= shown@.subrange(0, i as int));
            assert(upto.last() == shown@[i as int]);
        }
        if shown[i].index < nets {
            r.push(shown[i].copy());
        }
        i += 1;
    }
    assert(shown@.subrange(0, i as int) =~= shown@);
    r
}

fn lowest(curves: &Vec<Curve>) -> (low: Real)
    ensures
        is_lowest(curves@, low),
{
    let mut low = Real::from_bits(INFINITY);
    let mut k: usize = 0;
    while k < curves.len()
        invariant
            k <= curves@.len(),
            is_lowest(curves@.subrange(0, k as int), low),
        decreases curves@.len() - k,
    {
        let ghost done = curves@.subrange(0, k as int);
        let ghost now = curves@.subrange(0, k + 1);
        let ghost start = low;
        let mut i: usize = 0;
        while i < curves[k].points.len()
            invariant
                k < curves@.len(),
                i <= curves@[k as int].points@.len(),
                done == curves@.subrange(0, k as int),
                is_lowest(done, start),
                !low.nan(),
                low.le(start),
                forall|j: int|
                    0 <= j < i && !(#[trigger] curves@[k as int].points@[j]).1.nan() ==> low.le(
                        curves@[k as int].points@[j].1,
                    ),
                low == start || exists|j: int|
                    0 <= j < i && #[trigger] curves@[k as int].points@[j].1 == low,
            decreases curves@[k as int].points@.len() - i,
        {
            let v = curves[k].points[i].1;
            if v.less(low) {
                low = v;
            }
            i += 1;
        }
        proof {
            assert forall|c: int, j: int|
                0 <= c < now.len() && 0 <= j < now[c].points@.len()
                    && !(#[trigger] now[c].points@[j]).1.nan() implies low.le(
                now[c].points@[j].1,
            ) by {
                if c < k {
                    assert(done[c].points@[j] == now[c].points@[j]);
                    assert(start.le(done[c].points@[j].1));
                } else {
                    assert(now[c] == curves@[k as int]);
                    assert(low.le(curves@[k as int].points@[j].1));
                }
            }
            if low != start {
                let j = choose|j: int|
                    0 <= j < curves@[k as int].points@.len()
                        && #[trigger] curves@[k as int].points@[j].1 == low;
                assert(now[k as int].points@[j].1 == low);
            } else if low.bits != INFINITY {
                let (c, j) = choose|c: int, j: int|
                    0 <= c < done.len() && 0 <= j < done[c].points@.len()
                        && #[trigger] done[c].points@[j].1 == start;
                assert(now[c].points@[j].1 == low);
            }
        }
        k += 1;
    }
    assert(curves@.subrange(0, k as int) =~= curves@);
    low
}

fn highest(curves: &Vec<Curve>) -> (high: Real)
    ensures
        is_highest(curves@, high),
{
    let mut high = Real::from_bits(INFINITY + SIGN);
    let mut k: usize = 0;
    while k < curves.len()
        invariant
            k <= curves@.len(),
            is_highest(curves@.subrange(0, k as int), high),
        decreases curves@.len() - k,
    {
        let ghost done = curves@.subrange(0, k as int);
        let ghost now = curves@.subrange(0, k + 1);
        let ghost start = high;
        let mut i: usize = 0;
        while i < curves[k].points.len()
            invariant
                k < curves@.len(),
                i <= curves@[k as int].points@.len(),
                done == curves@.subrange(0, k as int),
                is_highest(done, start),
                !high.nan(),
                start.le(high),
                forall|j: int|
                    0 <= j < i && !(#[trigger] curves@[k as int].points@[j]).1.nan()
                        ==> curves@[k as int].points@[j].1.le(high),
                high == start || exists|j: int|
                    0 <= j < i && #[trigger] curves@[k as int].points@[j].1 == high,
            decreases curves@[k as int].points@.len() - i,
        {
            let v = curves[k].points[i].1;
            if high.less(v) {
                high = v;
            }
            i += 1;
        }
        proof {
            assert forall|c: int, j: int|
                0 <= c < now.len() && 0 <= j < now[c].points@.len()
                    && !(#[trigger] now[c].points@[j]).1.nan() implies now[c].points@[j].1.le(
                high,
            ) by {
                if c < k {
                    assert(done[c].points@[j] == now[c].points@[j]);
                    assert(done[c].points@[j].1.le(start));
                } else {
                    assert(now[c] == curves@[k as int]);
                    assert(curves@[k as int].points@[j].1.le(high));
                }
            }
            if high != start {
                let j = choose|j: int|
                    0 <= j < curves@[k as int].points@.len()
                        && #[trigger] curves@[k as int].points@[j].1 == high;
                assert(now[k as int].points@[j].1 == high);
            } else if high.bits != INFINITY + SIGN {
                let (c, j) = choose|c: int, j: int|
                    0 <= c < done.len() && 0 <= j < done[c].points@.len()
                        && #[trigger] done[c].points@[j].1 == start;
                assert(now[c].points@[j].1 == high);
            }
        }
        k += 1;
    }
    assert(curves@.subrange(0, k as int) =~= curves@);
    high
}

/// Plans the chart of a run: those of the shown quantities whose place is below `nets`,
/// against the places of the run. `rows` holds the values at each place.
pub fn plan_chart(
    kind: &ChartKind,
    shown: &Vec<Quantity>,
    nets: usize,
    places: &Vec<Real>,
    rows: &Vec<Vec<Real>>,
) -> (r: Result<Chart, String>)
    requires
        rows@.len() == places@.len(),
        forall|i: int| 0 <= i < rows@.len() ==> (#[trigger] rows@[i])@.len() >= nets,
    ensures
        match r {
            Err(message) => places@.len() == 0 && message@ == empty_text(*kind),
            Ok(chart) => {
                let which = drawn(shown@, nets as nat);
                &&& places@.len() > 0
                &&& chart.caption@ == caption_text(*kind)
                &&& chart.x_label@ == x_label_text(*kind)
                &&& chart.y_label@ == y_label_text(*kind)
                &&& chart.log_x == over_frequency(*kind)
                &&& chart.x_range == (places@[0], places@.last())
                &&& chart.widen_x == (!(kind is Transient) && !places@[0].lt(places@.last()))
                &&& is_lowest(chart.curves@, chart.y_range.0)
                &&& is_highest(chart.curves@, chart.y_range.1)
                &&& chart.widen_y == chart.y_range.1.le(chart.y_range.0)
                &&& chart.curves@.len() == which.len()
                &&& forall|k: int|
                    0 <= k < which.len() ==> is_curve(
                        #[trigger] chart.curves@[k],
                        which[k],
                        places@,
                        rows@,
                    )
            },
        },
{
    let n: usize = places.len();
    if n == 0 {
        return Err(
            match kind {
                ChartKind::Transient => "waveform has no points to plot".to_owned(),
                _ => "sweep has no points to plot".to_owned(),
            },
        );
    }
    let which = drawn_quantities(shown, nets);
    let mut curves: Vec<Curve> = Vec::new();
    let mut k: usize = 0;
    while k < which.len()
        invariant
            n == places@.len(),
            rows@.len() == n,
            forall|i: int| 0 <= i < rows@.len() ==> (#[trigger] rows@[i])@.len() >= nets,
            forall|i: int| 0 <= i < which@.len() ==> (#[trigger] which@[i]).index < nets,
            k <= which@.len(),
            curves@.len() == k,
            forall|j: int|
                0 <= j < k ==> is_curve(#[trigger] curves@[j], which@[j], places@, rows@),
        decreases which@.len() - k,
    {
        let q = &which[k];
        let mut points: Vec<(Real, Real)> = Vec::new();
        let mut i: usize = 0;
        while i < n
            invariant
                n == places@.len(),
                rows@.len() == n,
                forall|j: int| 0 <= j < rows@.len() ==> (#[trigger] rows@[j])@.len() >= nets,
                q.index < nets,
                i <= n,
                points@.len() == i,
                forall|j: int|
                    0 <= j < i ==> #[trigger] points@[j] == (
                        places@[j],
                        rows@[j]@[q.index as int],
                    ),
            decreases n - i,
        {
            assert(rows@[i as int]@.len() >= nets);
            points.push((places[i], rows[i][q.index]));
            i += 1;
        }
        assert(points@ =~= Seq::new(
            places@.len(),
            |i: int| (places@[i], rows@[i]@[q.index as int]),
        ));
        let curve = Curve { label: q.label.clone(), color: q.index % COLORS, points };
        assert(is_curve(curve, *q, places@, rows@));
        curves.push(curve);
        k += 1;
    }
    let low = lowest(&curves);
    let high = highest(&curves);
    let caption = match kind {
        ChartKind::Transient => "Transient analysis",
        ChartKind::Sweep { .. } => "DC sweep",
        ChartKind::Noise => "Noise analysis",
        _ => "AC analysis",
    };
    let x_label = match kind {
        ChartKind::Transient => "Time (s)".to_owned(),
        ChartKind::Sweep { source } => {
            let mut label = source.clone();
            label.append(" (V)");
            label
        },
        _ => "Frequency (Hz)".to_owned(),
    };
    let y_label = match kind {
        ChartKind::Magnitude => "Magnitude (dB)",
        ChartKind::Phase => "Phase (deg)",
        ChartKind::Noise => "Noise density (dB)",
        _ => "Voltage (V)",
    };
    let log_x = match kind {
        ChartKind::Magnitude | ChartKind::Phase | ChartKind::Noise => true,
        _ => false,
    };
    let timed = match kind {
        ChartKind::Transient => true,
        _ => false,
    };
    Ok(
        Chart {
            caption: caption.to_owned(),
            x_label,
            y_label: y_label.to_owned(),
            x_range: (places[0], places[n - 1]),
            log_x,
            widen_x: !timed && !places[0].less(places[n - 1]),
            y_range: (low, high),
            widen_y: high.at_most(low),
            curves,
        },
    )
}

} // verus!
