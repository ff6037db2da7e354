//! What a model contributes to the equations, and where it goes.
use crate::number::Real;
use vstd::prelude::*;

verus! {

/// One contribution of a model.
#[derive(Clone, Copy, Debug, PartialEq, Eq, Structural)]
pub enum Stamp {
    /// To the residual of a row: the current into the node.
    Residual { row: usize, value: Real },
    /// To the derivative of a row's residual by an unknown.
    Jacobian { row: usize, col: usize, value: Real },
    /// To the charge of a row.
    Charge { row: usize, value: Real },
    /// To the derivative of a row's charge by an unknown.
    Dcharge { row: usize, col: usize, value: Real },
    /// A complex constant to the small-signal residual of a row.
    Excitation { row: usize, re: Real, im: Real },
    /// The next step is to be no longer than this.
    BoundStep { dt: Real },
}

/// The place of an entry in a square matrix that is stored row by row.
pub open spec fn cell(dim: int, row: int, col: int) -> int {
    row * dim + col
}

/// Two entries of a matrix never share a place, and every place is in the matrix.
pub proof fn cells_are_distinct(dim: int, row: int, col: int, other_row: int, other_col: int)
    requires
        0 <= row < dim,
        0 <= col < dim,
        0 <= other_row < dim,
        0 <= other_col < dim,
    ensures
        0 <= cell(dim, row, col) < dim * dim,
        cell(dim, row, col) == cell(dim, other_row, other_col) ==> row == other_row && col
            == other_col,
{
    assert(0 <= row * dim + col < dim * dim) by (nonlinear_arith)
        requires
            0 <= row < dim,
            0 <= col < dim,
    ;
    if row < other_row {
        assert(row * dim + col < other_row * dim + other_col) by (nonlinear_arith)
            requires
                row + 1 <= other_row,
                0 <= col < dim,
                0 <= other_col,
        ;
    } else if other_row < row {
        assert(other_row * dim + other_col < row * dim + col) by (nonlinear_arith)
            requires
                other_row + 1 <= row,
                0 <= other_col < dim,
                0 <= col,
        ;
    }
}

/// `after` is `before` with the value added at one place by `plus`.
pub open spec fn accumulates<F: Fn(Real, Real) -> Real>(
    plus: F,
    before: Seq<Real>,
    place: int,
    value: Real,
    after: Seq<Real>,
) -> bool {
    exists|sum: Real| #[trigger]
        call_ensures(plus, (before[place], value), sum) && after == before.update(place, sum)
}

/// A sink that adds contributions up in dense vectors. An index at or past `dim`
/// stands for the reference node, whose contributions are dropped.
#[derive(Debug)]
pub struct DenseStamp {
    pub dim: usize,
    pub residual: Vec<Real>,
    /// The derivatives of the residual, row by row.
    pub jacobian: Vec<Real>,
    pub charge: Vec<Real>,
    /// The derivatives of the charge, row by row.
    pub dcharge: Vec<Real>,
    /// The small-signal residual, as real and imaginary part.
    pub excitation: Vec<(Real, Real)>,
    /// The tightest bound on the next step, where a model asked for one.
    pub bound_step: Option<Real>,
}

fn zeros(n: usize) -> (r: Vec<Real>)
    ensures
        r@ == Seq::new(n as nat, |i: int| Real { bits: 0 }),
{
    let mut r: Vec<Real> = Vec::new();
    let mut i: usize = 0;
    while i < n
        invariant
            i <= n,
            r@.len() == i,
            forall|j: int| 0 <= j < i ==> #[trigger] r@[j] == (Real { bits: 0 }),
        decreases n - i,
    {
        r.push(Real::zero());
        i += 1;
    }
    assert(r@ =~= Seq::new(n as nat, |i: int| Real { bits: 0 }));
    r
}

impl DenseStamp {
    /// The vectors have the sizes that `dim` asks for.
    pub open spec fn well_formed(self) -> bool {
        let n = self.dim as int;
        &&& n * n <= usize::MAX
        &&& self.residual@.len() == n
        &&& self.jacobian@.len() == n * n
        &&& self.charge@.len() == n
        &&& self.dcharge@.len() == n * n
        &&& self.excitation@.len() == n
    }

    /// A sink without contributions.
    pub fn new(dim: usize) -> (r: DenseStamp)
        requires
            dim * dim <= usize::MAX,
        ensures
            r.well_formed(),
            r.dim == dim,
            r.residual@ == Seq::new(dim as nat, |i: int| Real { bits: 0 }),
            r.jacobian@ == Seq::new((dim * dim) as nat, |i: int| Real { bits: 0 }),
            r.charge@ == Seq::new(dim as nat, |i: int| Real { bits: 0 }),
            r.dcharge@ == Seq::new((dim * dim) as nat, |i: int| Real { bits: 0 }),
            r.excitation@ == Seq::new(
                dim as nat,
                |i: int| (Real { bits: 0 }, Real { bits: 0 }),
            ),
            r.bound_step is None,
    {
        let mut excitation: Vec<(Real, Real)> = Vec::new();
        let mut i: usize = 0;
        while i < dim
            invariant
                i <= dim,
                excitation@.len() == i,
                forall|j: int|
                    0 <= j < i ==> #[trigger] excitation@[j] == (
                        Real { bits: 0 },
                        Real { bits: 0 },
                    ),
            decreases dim - i,
        {
            excitation.push((Real::zero(), Real::zero()));
            i += 1;
        }
        assert(excitation@ =~= Seq::new(
            dim as nat,
            |i: int| (Real { bits: 0 }, Real { bits: 0 }),
        ));
        DenseStamp {
            dim,
            residual: zeros(dim),
            jacobian: zeros(dim * dim),
            charge: zeros(dim),
            dcharge: zeros(dim * dim),
            excitation,
            bound_step: None,
        }
    }

    /// The number of unknowns.
    pub fn dim(&self) -> (r: usize)
        ensures
            r == self.dim,
    {
        self.dim
    }

    /// The derivative of a row's residual by an unknown; zero where either is the
    /// reference node.
    pub fn jac(&self, row: usize, col: usize) -> (r: Real)
        requires
            self.well_formed(),
        ensures
            r == (if row < self.dim && col < self.dim {
                self.jacobian@[cell(self.dim as int, row as int, col as int)]
            } else {
                Real { bits: 0 }
            }),
    {
        if row < self.dim && col < self.dim {
            self.jacobian[self.place(row, col)]
        } else {
            Real::zero()
        }
    }

    fn place(&self, row: usize, col: usize) -> (r: usize)
        requires
            self.dim * self.dim <= usize::MAX,
            row < self.dim,
            col < self.dim,
        ensures
            r == cell(self.dim as int, row as int, col as int),
            r < self.dim * self.dim,
    {
        proof {
            cells_are_distinct(self.dim as int, row as int, col as int, row as int, col as int);
            assert(row * self.dim >= 0) by (nonlinear_arith)
                requires
                    row >= 0,
                    self.dim >= 0,
            ;
        }
        row * self.dim + col
    }

    /// Adds to the residual of a row. `plus` adds two numbers.
    pub fn residual<F: Fn(Real, Real) -> Real>(&mut self, row: usize, value: Real, plus: &F)
        requires
            old(self).well_formed(),
            forall|a: Real, b: Real| #[trigger] call_requires(*plus, (a, b)),
        ensures
            final(self).well_formed(),
            final(self).dim == old(self).dim,
            final(self).jacobian@ == old(self).jacobian@,
            final(self).charge@ == old(self).charge@,
            final(self).dcharge@ == old(self).dcharge@,
            final(self).excitation@ == old(self).excitation@,
            final(self).bound_step == old(self).bound_step,
            row >= old(self).dim ==> final(self).residual@ == old(self).residual@,
            row < old(self).dim ==> accumulates(
                *plus,
                old(self).residual@,
                row as int,
                value,
                final(self).residual@,
            ),
    {
        if row < self.dim {
            let sum = plus(self.residual[row], value);
            self.residual.set(row, sum);
        }
    }

    /// Adds to the derivative of a row's residual by an unknown.
    pub fn jacobian<F: Fn(Real, Real) -> Real>(
        &mut self,
        row: usize,
        col: usize,
        value: Real,
        plus: &F,
    )
        requires
            old(self).well_formed(),
            forall|a: Real, b: Real| #[trigger] call_requires(*plus, (a, b)),
        ensures
            final(self).well_formed(),
            final(self).dim == old(self).dim,
            final(self).residual@ == old(self).residual@,
            final(self).charge@ == old(self).charge@,
            final(self).dcharge@ == old(self).dcharge@,
            final(self).excitation@ == old(self).excitation@,
            final(self).bound_step == old(self).bound_step,
            row >= old(self).dim || col >= old(self).dim ==> final(self).jacobian@ == old(
                self,
            ).jacobian@,
            row < old(self).dim && col < old(self).dim ==> accumulates(
                *plus,
                old(self).jacobian@,
                cell(old(self).dim as int, row as int, col as int),
                value,
                final(self).jacobian@,
            ),
    {
        if row < self.dim && col < self.dim {
            let k = self.place(row, col);
            let sum = plus(self.jacobian[k], value);
            self.jacobian.set(k, sum);
        }
    }

    /// Adds to the charge of a row.
    pub fn charge<F: Fn(Real, Real) -> Real>(&mut self, row: usize, value: Real, plus: &F)
        requires
            old(self).well_formed(),
            forall|a: Real, b: Real| #[trigger] call_requires(*plus, (a, b)),
        ensures
            final(self).well_formed(),
            final(self).dim == old(self).dim,
            final(self).residual@ == old(self).residual@,
            final(self).jacobian@ == old(self).jacobian@,
            final(self).dcharge@ == old(self).dcharge@,
            final(self).excitation@ == old(self).excitation@,
            final(self).bound_step == old(self).bound_step,
            row >= old(self).dim ==> final(self).charge@ == old(self).charge@,
            row < old(self).dim ==> accumulates(
                *plus,
                old(self).charge@,
                row as int,
                value,
                final(self).charge@,
            ),
    {
        if row < self.dim {
            let sum = plus(self.charge[row], value);
            self.charge.set(row, sum);
        }
    }

    /// Adds to the derivative of a row's charge by an unknown.
    pub fn dcharge<F: Fn(Real, Real) -> Real>(
        &mut self,
        row: usize,
        col: usize,
        value: Real,
        plus: &F,
    )
        requires
            old(self).well_formed(),
            forall|a: Real, b: Real| #[trigger] call_requires(*plus, (a, b)),
        ensures
            final(self).well_formed(),
            final(self).dim == old(self).dim,
            final(self).residual@ == old(self).residual@,
            final(self).jacobian@ == old(self).jacobian@,
            final(self).charge@ == old(self).charge@,
            final(self).excitation@ == old(self).excitation@,
            final(self).bound_step == old(self).bound_step,
            row >= old(self).dim || col >= old(self).dim ==> final(self).dcharge@ == old(
                self,
            ).dcharge@,
            row < old(self).dim && col < old(self).dim ==> accumulates(
                *plus,
                old(self).dcharge@,
                cell(old(self).dim as int, row as int, col as int),
                value,
                final(self).dcharge@,
            ),
    {
        if row < self.dim && col < self.dim {
            let k = self.place(row, col);
            let sum = plus(self.dcharge[k], value);
            self.dcharge.set(k, sum);
        }
    }

    /// Adds a complex constant to the small-signal residual of a row.
    pub fn excitation<F: Fn(Real, Real) -> Real>(
        &mut self,
        row: usize,
        re: Real,
        im: Real,
        plus: &F,
    )
        requires
            old(self).well_formed(),
            forall|a: Real, b: Real| #[trigger] call_requires(*plus, (a, b)),
        ensures
            final(self).well_formed(),
            final(self).dim == old(self).dim,
            final(self).residual@ == old(self).residual@,
            final(self).jacobian@ == old(self).jacobian@,
            final(self).charge@ == old(self).charge@,
            final(self).dcharge@ == old(self).dcharge@,
            final(self).bound_step == old(self).bound_step,
            row >= old(self).dim ==> final(self).excitation@ == old(self).excitation@,
            row < old(self).dim ==> {
                let before = old(self).excitation@[row as int];
                let after = final(self).excitation@[row as int];
                &&& call_ensures(*plus, (before.0, re), after.0)
                &&& call_ensures(*plus, (before.1, im), after.1)
                &&& final(self).excitation@ == old(self).excitation@.update(row as int, after)
            },
    {
        if row < self.dim {
            let (x, y) = self.excitation[row];
            let sum = (plus(x, re), plus(y, im));
            self.excitation.set(row, sum);
        }
    }

    /// Asks that the next step be no longer than this. The tightest bound stays; one
    /// that is not positive and finite means nothing and is ignored.
    pub fn bound_step(&mut self, dt: Real)
        requires
            old(self).well_formed(),
        ensures
            final(self).well_formed(),
            final(self).dim == old(self).dim,
            final(self).residual@ == old(self).residual@,
            final(self).jacobian@ == old(self).jacobian@,
            final(self).charge@ == old(self).charge@,
            final(self).dcharge@ == old(self).dcharge@,
            final(self).excitation@ == old(self).excitation@,
            final(self).bound_step == tightest(old(self).bound_step, dt),
    {
        if dt.is_positive_finite() {
            match self.bound_step {
                None => {
                    self.bound_step = Some(dt);
                },
                Some(current) => {
                    if current.is_nan() || dt.less(current) {
                        self.bound_step = Some(dt);
                    }
                },
            }
        }
    }

    /// Adds one contribution.
    pub fn deposit<F: Fn(Real, Real) -> Real>(&mut self, stamp: Stamp, plus: &F)
        requires
            old(self).well_formed(),
            forall|a: Real, b: Real| #[trigger] call_requires(*plus, (a, b)),
        ensures
            final(self).well_formed(),
            deposits(*plus, stamp, *old(self), *final(self)),
    {
        match stamp {
            Stamp::Residual { row, value } => self.residual(row, value, plus),
            Stamp::Jacobian { row, col, value } => self.jacobian(row, col, value, plus),
            Stamp::Charge { row, value } => self.charge(row, value, plus),
            Stamp::Dcharge { row, col, value } => self.dcharge(row, col, value, plus),
            Stamp::Excitation { row, re, im } => self.excitation(row, re, im, plus),
            Stamp::BoundStep { dt } => self.bound_step(dt),
        }
    }
}

/// The bound after another request.
pub open spec fn tightest(bound: Option<Real>, dt: Real) -> Option<Real> {
    if !dt.positive_finite() {
        bound
    } else {
        match bound {
            None => Some(dt),
            Some(current) => if current.nan() || dt.lt(current) {
                Some(dt)
            } else {
                Some(current)
            },
        }
    }
}

/// What one contribution makes of the sums.
pub open spec fn deposits<F: Fn(Real, Real) -> Real>(
    plus: F,
    stamp: Stamp,
    before: DenseStamp,
    after: DenseStamp,
) -> bool {
    let n = before.dim as int;
    &&& after.dim == before.dim
    &&& match stamp {
        Stamp::Residual { row, value } if row < n => accumulates(
            plus,
            before.residual@,
            row as int,
            value,
            after.residual@,
        ),
        _ => after.residual@ == before.residual@,
    }
    &&& match stamp {
        Stamp::Jacobian { row, col, value } if row < n && col < n => accumulates(
            plus,
            before.jacobian@,
            cell(n, row as int, col as int),
            value,
            after.jacobian@,
        ),
        _ => after.jacobian@ == before.jacobian@,
    }
    &&& match stamp {
        Stamp::Charge { row, value } if row < n => accumulates(
            plus,
            before.charge@,
            row as int,
            value,
            after.charge@,
        ),
        _ => after.charge@ == before.charge@,
    }
    &&& match stamp {
        Stamp::Dcharge { row, col, value } if row < n && col < n => accumulates(
            plus,
            before.dcharge@,
            cell(n, row as int, col as int),
            value,
            after.dcharge@,
        ),
        _ => after.dcharge@ == before.dcharge@,
    }
    &&& match stamp {
        Stamp::Excitation { row, re, im } if row < n => {
            let old_value = before.excitation@[row as int];
            let new_value = after.excitation@[row as int];
            &&& call_ensures(plus, (old_value.0, re), new_value.0)
            &&& call_ensures(plus, (old_value.1, im), new_value.1)
            &&& after.excitation@ == before.excitation@.update(row as int, new_value)
        },
        _ => after.excitation@ == before.excitation@,
    }
    &&& match stamp {
        Stamp::BoundStep { dt } => after.bound_step == tightest(before.bound_step, dt),
        _ => after.bound_step == before.bound_step,
    }
}

/// The bound never loosens, and it is at most every positive, finite request.
pub proof fn a_bound_only_tightens(bound: Option<Real>, dt: Real)
    requires
        bound matches Some(b) ==> !b.nan(),
    ensures
        bound matches Some(b) ==> (tightest(bound, dt) matches Some(now) && now.le(b)),
        dt.positive_finite() ==> (tightest(bound, dt) matches Some(now) && now.le(dt)),
        !dt.positive_finite() ==> tightest(bound, dt) == bound,
{
}

} // verus!
