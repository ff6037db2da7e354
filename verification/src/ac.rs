//! Small-signal analysis: the frequencies of a sweep, the linearized circuit, and its
//! complex equations as real ones.
use crate::number::Real;
use crate::stamps::{accumulates, cell, cells_are_distinct, Stamp};
use vstd::prelude::*;

verus! {

// ---- frequencies ----------------------------------------------------------

/// How the points of a sweep are spaced.
#[derive(Clone, Copy, Debug, PartialEq, Eq, Structural)]
pub enum AcSweepKind {
    /// By equal ratios, so many points to a factor of ten.
    Dec,
    /// By equal ratios, so many points to a factor of two.
    Oct,
    /// By equal differences, so many points in all.
    Lin,
}

impl Default for AcSweepKind {
    fn default() -> (r: AcSweepKind)
        ensures
            r == AcSweepKind::Dec,
    {
        AcSweepKind::Dec
    }
}

/// A sweep over frequencies.
#[derive(Clone, Copy, Debug, PartialEq, Eq)]
pub struct AcSweep {
    pub fstart: Real,
    pub fstop: Real,
    /// Per decade, per octave, or in all.
    pub points: usize,
    pub kind: AcSweepKind,
}

/// The points that a sweep takes.
#[derive(Clone, Copy, Debug, PartialEq, Eq, Structural)]
pub enum Grid {
    /// None.
    Empty,
    /// The start alone.
    Single,
    /// So many at equal differences.
    Line { points: usize },
    /// At equal ratios, so many to a factor of `per`.
    Walk { per: u64, points: usize },
}

/// The points that a sweep takes. It takes none where its start is not positive, its
/// end lies before its start, or it asks for no points.
pub open spec fn grid_of(s: AcSweep) -> Grid {
    if s.fstart.le(Real { bits: 0 }) || s.fstop.lt(s.fstart) || s.points == 0 {
        Grid::Empty
    } else if (s.fstop.le(s.fstart) && s.fstart.le(s.fstop)) || (s.kind == AcSweepKind::Lin
        && s.points == 1) {
        Grid::Single
    } else {
        match s.kind {
            AcSweepKind::Lin => Grid::Line { points: s.points },
            AcSweepKind::Oct => Grid::Walk { per: 2, points: s.points },
            AcSweepKind::Dec => Grid::Walk { per: 10, points: s.points },
        }
    }
}

/// The walked points with the end of the sweep as the last one: in place of a walked
/// point that is near it or past it, else after them.
pub open spec fn walk_to_end(walked: Seq<Real>, fstop: Real, near: bool) -> Seq<Real> {
    if walked.len() > 0 && (near || fstop.lt(walked.last())) {
        walked.drop_last().push(fstop)
    } else {
        walked.push(fstop)
    }
}

/// Each step from below the limit leads upwards, or to no number.
pub open spec fn raises<N: Fn(Real) -> Real>(next: N, limit: Real) -> bool {
    forall|x: Real, y: Real| #[trigger]
        call_ensures(next, (x,), y) && x.lt(limit) ==> x.lt(y) || y.nan()
}

/// One step leads from the point at this place to the one after it.
pub open spec fn leads_on<N: Fn(Real) -> Real>(next: N, points: Seq<Real>, i: int) -> bool {
    call_ensures(next, (points[i],), points[i + 1])
}

/// One step leads from each point to the one after it.
pub open spec fn is_path<N: Fn(Real) -> Real>(next: N, points: Seq<Real>) -> bool {
    forall|i: int| 0 <= i < points.len() - 1 ==> #[trigger] leads_on(next, points, i)
}

/// The points below the limit that the steps from a start lead through.
pub open spec fn is_walk<N: Fn(Real) -> Real>(
    next: N,
    start: Real,
    limit: Real,
    walked: Seq<Real>,
) -> bool {
    if start.lt(limit) {
        &&& walked.len() > 0
        &&& walked[0] == start
        &&& is_path(next, walked)
        &&& forall|i: int| 0 <= i < walked.len() ==> (#[trigger] walked[i]).lt(limit)
        &&& exists|beyond: Real| #[trigger]
            call_ensures(next, (walked.last(),), beyond) && !beyond.lt(limit)
    } else {
        walked.len() == 0
    }
}

/// `f` is made of the walked points and the end of the sweep.
pub open spec fn is_walked_sweep<N: Fn(Real) -> Real, C: Fn(Real) -> bool>(
    s: AcSweep,
    limit: Real,
    next: N,
    close: C,
    walked: Seq<Real>,
    near: bool,
    f: Seq<Real>,
) -> bool {
    &&& is_walk(next, s.fstart, limit, walked)
    &&& walked.len() > 0 ==> call_ensures(close, (walked.last(),), near)
    &&& f == walk_to_end(walked, s.fstop, near)
}

/// `f` are the frequencies of a sweep: none, its start alone, equally spaced points, or
/// the points of a walk; where there are several, the end of the sweep is the last one.
pub open spec fn is_frequencies<P: Fn(usize) -> Real, N: Fn(Real) -> Real, C: Fn(Real) -> bool>(
    s: AcSweep,
    point: P,
    limit: Real,
    next: N,
    close: C,
    f: Seq<Real>,
) -> bool {
    match grid_of(s) {
        Grid::Empty => f == Seq::<Real>::empty(),
        Grid::Single => f == seq![s.fstart],
        Grid::Line { points } => {
            &&& f.len() == points
            &&& f.last() == s.fstop
            &&& forall|i: int|
                0 <= i < points - 1 ==> call_ensures(point, (i as usize,), #[trigger] f[i])
        },
        Grid::Walk { .. } => exists|walked: Seq<Real>, near: bool| #[trigger]
            is_walked_sweep(s, limit, next, close, walked, near, f),
    }
}

impl AcSweep {
    /// A sweep with so many points to a decade.
    pub fn dec(fstart: Real, fstop: Real, points_per_decade: usize) -> (r: AcSweep)
        ensures
            r == (AcSweep { fstart, fstop, points: points_per_decade, kind: AcSweepKind::Dec }),
    {
        AcSweep { fstart, fstop, points: points_per_decade, kind: AcSweepKind::Dec }
    }

    /// The points that the sweep takes.
    pub fn grid(&self) -> (r: Grid)
        ensures
            r == grid_of(*self),
    {
        if self.fstart.at_most(Real::zero()) || self.fstop.less(self.fstart) || self.points == 0 {
            return Grid::Empty;
        }
        if self.fstop.equals(self.fstart) {
            return Grid::Single;
        }
        match self.kind {
            AcSweepKind::Lin => if self.points == 1 {
                Grid::Single
            } else {
                Grid::Line { points: self.points }
            },
            AcSweepKind::Oct => Grid::Walk { per: 2, points: self.points },
            AcSweepKind::Dec => Grid::Walk { per: 10, points: self.points },
        }
    }

    /// The frequencies of the sweep, up to and with its end.
    ///
    /// `point` gives the equally spaced points, counted from the start. A walk goes on
    /// by `next`, which scales a frequency by the ratio of two neighbours, up to `limit`,
    /// which lies half a step past the end; `close` says whether a frequency is the end
    /// but for rounding.
    pub fn frequencies<P: Fn(usize) -> Real, N: Fn(Real) -> Real, C: Fn(Real) -> bool>(
        &self,
        point: &P,
        limit: Real,
        next: &N,
        close: &C,
    ) -> (r: Vec<Real>)
        requires
            forall|i: usize| #[trigger] call_requires(*point, (i,)),
            forall|x: Real| #[trigger] call_requires(*next, (x,)),
            forall|x: Real| #[trigger] call_requires(*close, (x,)),
            raises(*next, limit),
        ensures
            is_frequencies(*self, *point, limit, *next, *close, r@),
    {
        let mut r: Vec<Real> = Vec::new();
        match self.grid() {
            Grid::Empty => {},
            Grid::Single => {
                r.push(self.fstart);
                assert(r@ =~= seq![self.fstart]);
            },
            Grid::Line { points } => {
                let mut i: usize = 0;
                while i < points - 1
                    invariant
                        0 <= i <= points - 1,
                        r@.len() == i,
                        forall|i: usize| #[trigger] call_requires(*point, (i,)),
                        forall|k: int|
                            0 <= k < i ==> call_ensures(*point, (k as usize,), #[trigger] r@[k]),
                    decreases points - i,
                {
                    r.push(point(i));
                    i += 1;
                }
                r.push(self.fstop);
            },
            Grid::Walk { .. } => {
                let mut f = self.fstart;
                while f.less(limit)
                    invariant
                        forall|x: Real| #[trigger] call_requires(*next, (x,)),
                        raises(*next, limit),
                        r@.len() == 0 ==> f == self.fstart,
                        r@.len() > 0 ==> r@[0] == self.fstart && self.fstart.lt(limit)
                            && call_ensures(*next, (r@.last(),), f),
                        is_path(*next, r@),
                        forall|i: int| 0 <= i < r@.len() ==> (#[trigger] r@[i]).lt(limit),
                    decreases
                        (if f.lt(limit) {
                            limit.rank() - f.rank()
                        } else {
                            0
                        }),
                {
                    let ghost before = r@;
                    r.push(f);
                    assert forall|i: int| 0 <= i < r@.len() - 1 implies #[trigger] leads_on(
                        *next,
                        r@,
                        i,
                    ) by {
                        assert(r@[i] == before[i]);
                        if i + 1 < before.len() {
                            assert(r@[i + 1] == before[i + 1]);
                            assert(leads_on(*next, before, i));
                        }
                    }
                    f = next(f);
                }
                let ghost walked = r@;
                let n: usize = r.len();
                let mut near = false;
                if n > 0 {
                    near = close(r[n - 1]);
                }
                if n > 0 && (near || self.fstop.less(r[n - 1])) {
                    r.set(n - 1, self.fstop);
                    assert(r@ =~= walked.drop_last().push(self.fstop));
                } else {
                    r.push(self.fstop);
                }
                assert(is_walked_sweep(*self, limit, *next, *close, walked, near, r@));
            },
        }
        r
    }
}

/// Each number is smaller than the one after it.
pub open spec fn rises_strictly(f: Seq<Real>) -> bool {
    forall|i: int, j: int| 0 <= i < j < f.len() ==> f[i].lt(f[j])
}

/// A sweep that takes several points ends exactly on its end, and a walk starts exactly
/// on the start.
pub proof fn a_sweep_ends_on_its_end<
    P: Fn(usize) -> Real,
    N: Fn(Real) -> Real,
    C: Fn(Real) -> bool,
>(s: AcSweep, point: P, limit: Real, next: N, close: C, f: Seq<Real>)
    requires
        is_frequencies(s, point, limit, next, close, f),
        grid_of(s) is Line || grid_of(s) is Walk,
    ensures
        f.len() > 0,
        f.last() == s.fstop,
        grid_of(s) is Walk && f.len() > 1 ==> f[0] == s.fstart,
{
}

proof fn lemma_walk_rises<N: Fn(Real) -> Real>(next: N, limit: Real, walked: Seq<Real>, i: int, j: int)
    requires
        raises(next, limit),
        is_path(next, walked),
        forall|k: int| 0 <= k < walked.len() ==> (#[trigger] walked[k]).lt(limit),
        0 <= i < j < walked.len(),
    ensures
        walked[i].lt(walked[j]),
    decreases j - i,
{
    assert(walked[j].lt(limit));
    assert(leads_on(next, walked, j - 1));
    if i < j - 1 {
        lemma_walk_rises(next, limit, walked, i, j - 1);
    }
}

/// The frequencies of a walk rise from one to the next, where a step leads upwards and
/// never from the end or beyond it to below the limit, and the end is close to itself.
pub proof fn a_sweep_rises<P: Fn(usize) -> Real, N: Fn(Real) -> Real, C: Fn(Real) -> bool>(
    s: AcSweep,
    point: P,
    limit: Real,
    next: N,
    close: C,
    f: Seq<Real>,
)
    requires
        is_frequencies(s, point, limit, next, close, f),
        grid_of(s) is Walk,
        !s.fstop.nan(),
        raises(next, limit),
        forall|x: Real, y: Real| #[trigger]
            call_ensures(next, (x,), y) && y.lt(limit) ==> x.lt(s.fstop),
        forall|x: Real|
            x.le(s.fstop) && s.fstop.le(x) ==> !#[trigger] call_ensures(close, (x,), false),
    ensures
        rises_strictly(f),
{
    let (walked, near) = choose|walked: Seq<Real>, near: bool| #[trigger]
        is_walked_sweep(s, limit, next, close, walked, near, f);
    assert forall|i: int| 0 <= i < walked.len() - 1 implies (#[trigger] walked[i]).lt(
        s.fstop,
    ) by {
        assert(leads_on(next, walked, i));
        assert(walked[i + 1].lt(limit));
    }
    let n = walked.len() as int;
    assert forall|i: int, j: int| 0 <= i < j < f.len() implies f[i].lt(f[j]) by {
        assert(f[i] == walked[i]);
        if j < f.len() - 1 {
            assert(f[j] == walked[j]);
            lemma_walk_rises(next, limit, walked, i, j);
        } else {
            assert(f[j] == s.fstop);
            if i < n - 1 {
                assert(walked[i].lt(s.fstop));
            } else {
                assert(i == n - 1);
                let last = walked[n - 1];
                assert(last.lt(limit));
                assert(!near && !s.fstop.lt(last));
                assert(call_ensures(close, (last,), false));
                assert(!(last.le(s.fstop) && s.fstop.le(last)));
            }
        }
    }
}

/// Equally spaced frequencies rise from one to the next where the computed points do, up
/// to the end of the sweep.
pub proof fn a_line_rises<P: Fn(usize) -> Real, N: Fn(Real) -> Real, C: Fn(Real) -> bool>(
    s: AcSweep,
    point: P,
    limit: Real,
    next: N,
    close: C,
    f: Seq<Real>,
)
    requires
        is_frequencies(s, point, limit, next, close, f),
        grid_of(s) is Line,
        forall|i: usize, j: usize, x: Real, y: Real|
            i < j && #[trigger] call_ensures(point, (i,), x) && #[trigger] call_ensures(
                point,
                (j,),
                y,
            ) ==> x.lt(y),
        forall|i: usize, x: Real|
            i < s.points - 1 && #[trigger] call_ensures(point, (i,), x) ==> x.lt(s.fstop),
    ensures
        rises_strictly(f),
{
    assert forall|i: int, j: int| 0 <= i < j < f.len() implies f[i].lt(f[j]) by {
        assert(call_ensures(point, (i as usize,), f[i]));
        if j < f.len() - 1 {
            assert(call_ensures(point, (j as usize,), f[j]));
        }
    }
}

// ---- the linearized circuit -----------------------------------------------

/// The conductances and capacitances of a circuit about its operating point, row by
/// row, and what its models excite it with.
#[derive(Debug)]
pub struct Linearization {
    pub dim: usize,
    pub g: Vec<Real>,
    pub c: Vec<Real>,
    /// On the side of the residual, as real and imaginary part.
    pub excitation: Vec<(Real, Real)>,
}

/// What one contribution makes of a linearization. Residuals and charges themselves
/// are dropped, and so is a bound on the step.
pub open spec fn linearizes<F: Fn(Real, Real) -> Real>(
    plus: F,
    stamp: Stamp,
    before: Linearization,
    after: Linearization,
) -> bool {
    let n = before.dim as int;
    &&& after.dim == before.dim
    &&& match stamp {
        Stamp::Jacobian { row, col, value } if row < n && col < n => accumulates(
            plus,
            before.g@,
            cell(n, row as int, col as int),
            value,
            after.g@,
        ),
        _ => after.g@ == before.g@,
    }
    &&& match stamp {
        Stamp::Dcharge { row, col, value } if row < n && col < n => accumulates(
            plus,
            before.c@,
            cell(n, row as int, col as int),
            value,
            after.c@,
        ),
        _ => after.c@ == before.c@,
    }
    &&& match stamp {
        Stamp::Excitation { row, re, im } if row < n => {
            let old_value = before.excitation@[row as int];
            let new_value = after.excitation@[row as int];
            &&& call_ensures(plus, (old_value.0, re), new_value.0)
            &&& call_ensures(plus, (old_value.1, im), new_value.1)
            &&& after.excitation@ == before.excitation@.update(row as int, new_value)
        },
        _ => after.excitation@ == before.excitation@,
    }
}

impl Linearization {
    /// The vectors have the sizes that `dim` asks for.
    pub open spec fn well_formed(self) -> bool {
        let n = self.dim as int;
        &&& n * n <= usize::MAX
        &&& self.g@.len() == n * n
        &&& self.c@.len() == n * n
        &&& self.excitation@.len() == n
    }

    /// A linearization without contributions.
    pub open spec fn blank(self, dim: int) -> bool {
        let zero = Real { bits: 0 };
        &&& self.dim == dim
        &&& self.g@ == Seq::new((dim * dim) as nat, |i: int| zero)
        &&& self.c@ == Seq::new((dim * dim) as nat, |i: int| zero)
        &&& self.excitation@ == Seq::new(dim as nat, |i: int| (zero, zero))
    }

    /// A linearization without contributions.
    pub fn new(dim: usize) -> (r: Linearization)
        requires
            dim * dim <= usize::MAX,
        ensures
            r.well_formed(),
            r.blank(dim as int),
    {
        let zero = Real::zero();
        let mut g: Vec<Real> = Vec::new();
        let mut c: Vec<Real> = Vec::new();
        let mut excitation: Vec<(Real, Real)> = Vec::new();
        let size: usize = dim * dim;
        let mut i: usize = 0;
        while i < size
            invariant
                i <= size,
                zero.bits == 0,
                g@.len() == i,
                c@.len() == i,
                forall|j: int| 0 <= j < i ==> #[trigger] g@[j] == zero,
                forall|j: int| 0 <= j < i ==> #[trigger] c@[j] == zero,
            decreases size - i,
        {
            g.push(zero);
            c.push(zero);
            i += 1;
        }
        let mut i: usize = 0;
        while i < dim
            invariant
                i <= dim,
                zero.bits == 0,
                excitation@.len() == i,
                forall|j: int| 0 <= j < i ==> #[trigger] excitation@[j] == (zero, zero),
            decreases dim - i,
        {
            excitation.push((zero, zero));
            i += 1;
        }
        assert(g@ =~= Seq::new((dim * dim) as nat, |i: int| zero));
        assert(c@ =~= Seq::new((dim * dim) as nat, |i: int| zero));
        assert(excitation@ =~= Seq::new(dim as nat, |i: int| (zero, zero)));
        Linearization { dim, g, c, excitation }
    }

    fn place(&self, row: usize, col: usize) -> (r: usize)
        requires
            self.dim * self.dim <= usize::MAX,
            row < self.dim,
            col < self.dim,
        ensures
            r == cell(self.dim as int, row as int, col as int),
            r < self.dim * self.dim,
    {
        proof {
            cells_are_distinct(self.dim as int, row as int, col as int, row as int, col as int);
            assert(row * self.dim >= 0) by (nonlinear_arith)
                requires
                    row >= 0,
                    self.dim >= 0,
            ;
        }
        row * self.dim + col
    }

    /// Adds one contribution. `plus` adds two numbers.
    pub fn deposit<F: Fn(Real, Real) -> Real>(&mut self, stamp: Stamp, plus: &F)
        requires
            old(self).well_formed(),
            forall|a: Real, b: Real| #[trigger] call_requires(*plus, (a, b)),
        ensures
            final(self).well_formed(),
            linearizes(*plus, stamp, *old(self), *final(self)),
    {
        match stamp {
            Stamp::Jacobian { row, col, value } => {
                if row < self.dim && col < self.dim {
                    let k = self.place(row, col);
                    let sum = plus(self.g[k], value);
                    self.g.set(k, sum);
                }
            },
            Stamp::Dcharge { row, col, value } => {
                if row < self.dim && col < self.dim {
                    let k = self.place(row, col);
                    let sum = plus(self.c[k], value);
                    self.c.set(k, sum);
                }
            },
            Stamp::Excitation { row, re, im } => {
                if row < self.dim {
                    let (x, y) = self.excitation[row];
                    let sum = (plus(x, re), plus(y, im));
                    self.excitation.set(row, sum);
                }
            },
            _ => {},
        }
    }
}

/// The linearizations from the blank one on that the contributions lead through.
pub open spec fn is_linearizing<F: Fn(Real, Real) -> Real>(
    plus: F,
    stamps: Seq<Stamp>,
    dim: int,
    steps: Seq<Linearization>,
) -> bool {
    &&& steps.len() == stamps.len() + 1
    &&& steps[0].blank(dim)
    &&& forall|i: int|
        0 <= i < stamps.len() ==> #[trigger] linearizes(plus, stamps[i], steps[i], steps[i + 1])
}

/// Linearizes a circuit from the contributions of its devices, in order.
pub fn linearize<F: Fn(Real, Real) -> Real>(stamps: &Vec<Stamp>, dim: usize, plus: &F) -> (r:
    Linearization)
    requires
        dim * dim <= usize::MAX,
        forall|a: Real, b: Real| #[trigger] call_requires(*plus, (a, b)),
    ensures
        r.well_formed(),
        r.dim == dim,
        exists|steps: Seq<Linearization>| #[trigger]
            is_linearizing(*plus, stamps@, dim as int, steps) && steps.last() == r,
{
    let mut lin = Linearization::new(dim);
    let ghost mut steps: Seq<Linearization> = seq![lin];
    let mut i: usize = 0;
    while i < stamps.len()
        invariant
            forall|a: Real, b: Real| #[trigger] call_requires(*plus, (a, b)),
            i <= stamps@.len(),
            lin.well_formed(),
            lin.dim == dim,
            steps.len() == i + 1,
            steps[0].blank(dim as int),
            steps.last() == lin,
            forall|j: int|
                0 <= j < i ==> #[trigger] linearizes(*plus, stamps@[j], steps[j], steps[j + 1]),
        decreases stamps@.len() - i,
    {
        let ghost before = steps;
        lin.deposit(stamps[i], plus);
        proof {
            steps = steps.push(lin);
            assert forall|j: int| 0 <= j < i + 1 implies #[trigger] linearizes(
                *plus,
                stamps@[j],
                steps[j],
                steps[j + 1],
            ) by {
                if j < i {
                    assert(steps[j] == before[j]);
                    assert(steps[j + 1] == before[j + 1]);
                }
            }
        }
        i += 1;
    }
    assert(is_linearizing(*plus, stamps@, dim as int, steps));
    lin
}

/// The right-hand side: what the sources of the deck drive, less what the models excite,
/// which comes on the side of the residual. `minus` subtracts two numbers.
pub fn combine_excitation<F: Fn(Real, Real) -> Real>(
    netlist: &Vec<(Real, Real)>,
    model: &Vec<(Real, Real)>,
    minus: &F,
) -> (r: Vec<(Real, Real)>)
    requires
        forall|a: Real, b: Real| #[trigger] call_requires(*minus, (a, b)),
    ensures
        r@.len() == (if netlist@.len() <= model@.len() {
            netlist@.len()
        } else {
            model@.len()
        }),
        forall|i: int|
            0 <= i < r@.len() ==> call_ensures(
                *minus,
                (netlist@[i].0, model@[i].0),
                (#[trigger] r@[i]).0,
            ) && call_ensures(*minus, (netlist@[i].1, model@[i].1), r@[i].1),
{
    let mut r: Vec<(Real, Real)> = Vec::new();
    let mut i: usize = 0;
    while i < netlist.len() && i < model.len()
        invariant
            forall|a: Real, b: Real| #[trigger] call_requires(*minus, (a, b)),
            i <= netlist@.len(),
            i <= model@.len(),
            r@.len() == i,
            forall|j: int|
                0 <= j < i ==> call_ensures(
                    *minus,
                    (netlist@[j].0, model@[j].0),
                    (#[trigger] r@[j]).0,
                ) && call_ensures(*minus, (netlist@[j].1, model@[j].1), r@[j].1),
        decreases netlist@.len() - i,
    {
        let re = minus(netlist[i].0, model[i].0);
        let im = minus(netlist[i].1, model[i].1);
        r.push((re, im));
        i += 1;
    }
    r
}

} // verus!
