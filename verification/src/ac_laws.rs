//! What the small-signal equations are: where the contributions of the devices end up,
//! what the right-hand side adds up to, what a solution of the real equations says of the
//! complex ones, and which frequencies a sweep takes.
use crate::ac::{
    combine_excitation, is_linearizing, is_walked_sweep, leads_on, linearize, linearizes, AcSweep,
    Grid, Linearization,
};
use crate::block::{
    embed, embed_rhs, imaginary_part, is_block, real_part, row_times, split_solution, stacked,
    unstacked,
};
use crate::multiplicity::{amount, cell_sum, Cell};
use crate::number::Real;
use crate::reference::is_odd;
use crate::stamps::{cell, cells_are_distinct, deposits, DenseStamp, Stamp};
use vstd::prelude::*;

verus! {

// ---- where contributions add up -------------------------------------------

/// The operation adds the numbers that encodings stand for.
pub open spec fn sums<F: Fn(Real, Real) -> Real>(plus: F, val: spec_fn(Real) -> int) -> bool {
    forall|a: Real, b: Real, c: Real| #[trigger]
        call_ensures(plus, (a, b), c) ==> val(c) == val(a) + val(b)
}

/// The operation gives one result.
pub open spec fn gives_one_sum<F: Fn(Real, Real) -> Real>(plus: F) -> bool {
    forall|a: Real, b: Real, c: Real, d: Real| #[trigger]
        call_ensures(plus, (a, b), c) && #[trigger] call_ensures(plus, (a, b), d) ==> c == d
}

/// What a linearization holds in a cell; it has none for residuals and charges.
pub open spec fn linear_cell(lin: Linearization, at: Cell, val: spec_fn(Real) -> int) -> int {
    match at {
        Cell::Jacobian { row, col } => val(lin.g@[row * lin.dim + col]),
        Cell::Dcharge { row, col } => val(lin.c@[row * lin.dim + col]),
        Cell::Re { row } => val(lin.excitation@[row as int].0),
        Cell::Im { row } => val(lin.excitation@[row as int].1),
        _ => 0,
    }
}

/// What a sink holds in a cell.
pub open spec fn dense_cell(sink: DenseStamp, at: Cell, val: spec_fn(Real) -> int) -> int {
    match at {
        Cell::Residual { row } => val(sink.residual@[row as int]),
        Cell::Jacobian { row, col } => val(sink.jacobian@[row * sink.dim + col]),
        Cell::Charge { row } => val(sink.charge@[row as int]),
        Cell::Dcharge { row, col } => val(sink.dcharge@[row * sink.dim + col]),
        Cell::Re { row } => val(sink.excitation@[row as int].0),
        Cell::Im { row } => val(sink.excitation@[row as int].1),
    }
}

/// The cell lies in a system of so many unknowns.
pub open spec fn in_system(at: Cell, dim: int) -> bool {
    match at {
        Cell::Residual { row } => row < dim,
        Cell::Jacobian { row, col } => row < dim && col < dim,
        Cell::Charge { row } => row < dim,
        Cell::Dcharge { row, col } => row < dim && col < dim,
        Cell::Re { row } => row < dim,
        Cell::Im { row } => row < dim,
    }
}

/// The cell is one that a linearization holds.
pub open spec fn is_linear(at: Cell) -> bool {
    at is Jacobian || at is Dcharge || at is Re || at is Im
}

proof fn lemma_places(dim: usize, stamp: Stamp, at: Cell)
    requires
        in_system(at, dim as int),
    ensures
        match (stamp, at) {
            (Stamp::Jacobian { row, col, .. }, Cell::Jacobian { row: r, col: c }) => row < dim
                && col < dim && cell(dim as int, row as int, col as int) == r * dim + c ==> row == r
                && col == c,
            (Stamp::Dcharge { row, col, .. }, Cell::Dcharge { row: r, col: c }) => row < dim && col
                < dim && cell(dim as int, row as int, col as int) == r * dim + c ==> row == r && col
                == c,
            _ => true,
        },
        match at {
            Cell::Jacobian { row: r, col: c } => 0 <= r * dim + c < dim * dim,
            Cell::Dcharge { row: r, col: c } => 0 <= r * dim + c < dim * dim,
            _ => true,
        },
        match stamp {
            Stamp::Jacobian { row, col, .. } => row < dim && col < dim ==> 0 <= cell(
                dim as int,
                row as int,
                col as int,
            ) < dim * dim,
            Stamp::Dcharge { row, col, .. } => row < dim && col < dim ==> 0 <= cell(
                dim as int,
                row as int,
                col as int,
            ) < dim * dim,
            _ => true,
        },
{
    match stamp {
        Stamp::Jacobian { row, col, .. } => if row < dim && col < dim {
            cells_are_distinct(dim as int, row as int, col as int, row as int, col as int);
        },
        Stamp::Dcharge { row, col, .. } => if row < dim && col < dim {
            cells_are_distinct(dim as int, row as int, col as int, row as int, col as int);
        },
        _ => {},
    }
    match at {
        Cell::Jacobian { row: r, col: c } => {
            cells_are_distinct(dim as int, r as int, c as int, r as int, c as int);
            if let Stamp::Jacobian { row, col, .. } = stamp {
                if row < dim && col < dim {
                    cells_are_distinct(dim as int, row as int, col as int, r as int, c as int);
                }
            }
        },
        Cell::Dcharge { row: r, col: c } => {
            cells_are_distinct(dim as int, r as int, c as int, r as int, c as int);
            if let Stamp::Dcharge { row, col, .. } = stamp {
                if row < dim && col < dim {
                    cells_are_distinct(dim as int, row as int, col as int, r as int, c as int);
                }
            }
        },
        _ => {},
    }
}

/// A contribution adds its value in its own cell of a linearization, the entry of row
/// `row` and column `col` at `row * dim + col`, and changes no other.
pub proof fn a_contribution_is_linearized_in_its_cell<F: Fn(Real, Real) -> Real>(
    plus: F,
    stamp: Stamp,
    before: Linearization,
    after: Linearization,
    at: Cell,
    val: spec_fn(Real) -> int,
)
    requires
        before.well_formed(),
        linearizes(plus, stamp, before, after),
        sums(plus, val),
        in_system(at, before.dim as int),
        is_linear(at),
    ensures
        after.well_formed(),
        after.dim == before.dim,
        linear_cell(after, at, val) == linear_cell(before, at, val) + amount(stamp, at, val),
{
    lemma_places(before.dim, stamp, at);
}

/// A contribution adds its value in its own cell of a sink and changes no other.
pub proof fn a_contribution_is_gathered_in_its_cell<F: Fn(Real, Real) -> Real>(
    plus: F,
    stamp: Stamp,
    before: DenseStamp,
    after: DenseStamp,
    at: Cell,
    val: spec_fn(Real) -> int,
)
    requires
        before.well_formed(),
        deposits(plus, stamp, before, after),
        sums(plus, val),
        in_system(at, before.dim as int),
    ensures
        after.well_formed(),
        after.dim == before.dim,
        dense_cell(after, at, val) == dense_cell(before, at, val) + amount(stamp, at, val),
{
    lemma_places(before.dim, stamp, at);
}

/// The two ways of gathering contributions agree: what a linearization holds is what a
/// sink holds, entry by entry, after every contribution.
pub proof fn a_linearization_agrees_with_a_sink<F: Fn(Real, Real) -> Real>(
    plus: F,
    stamp: Stamp,
    lin: Linearization,
    lin_after: Linearization,
    sink: DenseStamp,
    sink_after: DenseStamp,
)
    requires
        linearizes(plus, stamp, lin, lin_after),
        deposits(plus, stamp, sink, sink_after),
        gives_one_sum(plus),
        sink.well_formed(),
        lin.dim == sink.dim,
        lin.g@ == sink.jacobian@,
        lin.c@ == sink.dcharge@,
        lin.excitation@ == sink.excitation@,
    ensures
        lin_after.dim == sink_after.dim,
        lin_after.g@ == sink_after.jacobian@,
        lin_after.c@ == sink_after.dcharge@,
        lin_after.excitation@ == sink_after.excitation@,
{
}

proof fn lemma_linearized_upto<F: Fn(Real, Real) -> Real>(
    plus: F,
    stamps: Seq<Stamp>,
    dim: int,
    steps: Seq<Linearization>,
    upto: int,
    at: Cell,
    val: spec_fn(Real) -> int,
)
    requires
        is_linearizing(plus, stamps, dim, steps),
        0 <= upto <= stamps.len(),
        sums(plus, val),
        val(Real { bits: 0 }) == 0,
        dim * dim <= usize::MAX,
        in_system(at, dim),
        is_linear(at),
    ensures
        steps[upto].well_formed(),
        steps[upto].dim == dim,
        linear_cell(steps[upto], at, val) == cell_sum(stamps.take(upto), at, val),
    decreases upto,
{
    if upto == 0 {
        lemma_places(steps[0].dim, Stamp::BoundStep { dt: Real { bits: 0 } }, at);
        assert(stamps.take(0).len() == 0);
    } else {
        let k = upto - 1;
        lemma_linearized_upto(plus, stamps, dim, steps, k, at, val);
        assert(linearizes(plus, stamps[k], steps[k], steps[k + 1]));
        a_contribution_is_linearized_in_its_cell(plus, stamps[k], steps[k], steps[k + 1], at, val);
        assert(stamps.take(upto).drop_last() =~= stamps.take(k));
    }
}

/// A linearized circuit holds, at `row * dim + col` of its conductances, the sum of what
/// the devices add to the derivative of the row's residual by the column's unknown, and
/// at the same place of its capacitances the sum of what they add to that of its charge;
/// the excitation of a row is the sum of what they excite it with.
pub proof fn a_linearization_adds_up<F: Fn(Real, Real) -> Real>(
    stamps: &Vec<Stamp>,
    dim: usize,
    plus: &F,
    lin: Linearization,
    row: usize,
    col: usize,
    val: spec_fn(Real) -> int,
)
    requires
        call_ensures(linearize::<F>, (stamps, dim, plus), lin),
        sums(*plus, val),
        val(Real { bits: 0 }) == 0,
        row < dim,
        col < dim,
    ensures
        val(lin.g@[row * dim + col]) == cell_sum(stamps@, Cell::Jacobian { row, col }, val),
        val(lin.c@[row * dim + col]) == cell_sum(stamps@, Cell::Dcharge { row, col }, val),
        val(lin.excitation@[row as int].0) == cell_sum(stamps@, Cell::Re { row }, val),
        val(lin.excitation@[row as int].1) == cell_sum(stamps@, Cell::Im { row }, val),
{
    let steps = choose|steps: Seq<Linearization>| #[trigger]
        is_linearizing(*plus, stamps@, dim as int, steps) && steps.last() == lin;
    let n = stamps@.len() as int;
    assert(stamps@.take(n) =~= stamps@);
    lemma_linearized_upto(*plus, stamps@, dim as int, steps, n, Cell::Jacobian { row, col }, val);
    lemma_linearized_upto(*plus, stamps@, dim as int, steps, n, Cell::Dcharge { row, col }, val);
    lemma_linearized_upto(*plus, stamps@, dim as int, steps, n, Cell::Re { row }, val);
    lemma_linearized_upto(*plus, stamps@, dim as int, steps, n, Cell::Im { row }, val);
}

/// The linearization of a single contribution holds its value, added to zero, in one
/// place and zero in every other.
pub proof fn one_contribution_fills_one_place<F: Fn(Real, Real) -> Real>(
    stamp: Stamp,
    stamps: &Vec<Stamp>,
    dim: usize,
    plus: &F,
    lin: Linearization,
)
    requires
        stamps@ == seq![stamp],
        call_ensures(linearize::<F>, (stamps, dim, plus), lin),
    ensures
        stamp matches Stamp::Jacobian { row, col, value } ==> row < dim && col < dim ==> {
            &&& call_ensures(*plus, (Real { bits: 0 }, value), lin.g@[row * dim + col])
            &&& forall|k: int|
                0 <= k < dim * dim && k != row * dim + col ==> #[trigger] lin.g@[k] == (Real {
                    bits: 0,
                })
        },
        stamp matches Stamp::Dcharge { row, col, value } ==> row < dim && col < dim ==> {
            &&& call_ensures(*plus, (Real { bits: 0 }, value), lin.c@[row * dim + col])
            &&& forall|k: int|
                0 <= k < dim * dim && k != row * dim + col ==> #[trigger] lin.c@[k] == (Real {
                    bits: 0,
                })
        },
        stamp matches Stamp::Excitation { row, re, im } ==> row < dim ==> {
            &&& call_ensures(*plus, (Real { bits: 0 }, re), lin.excitation@[row as int].0)
            &&& call_ensures(*plus, (Real { bits: 0 }, im), lin.excitation@[row as int].1)
            &&& forall|k: int|
                0 <= k < dim && k != row ==> #[trigger] lin.excitation@[k] == (
                    Real { bits: 0 },
                    Real { bits: 0 },
                )
        },
        !(stamp is Jacobian) ==> forall|k: int|
            0 <= k < dim * dim ==> #[trigger] lin.g@[k] == (Real { bits: 0 }),
        !(stamp is Dcharge) ==> forall|k: int|
            0 <= k < dim * dim ==> #[trigger] lin.c@[k] == (Real { bits: 0 }),
        !(stamp is Excitation) ==> forall|k: int|
            0 <= k < dim ==> #[trigger] lin.excitation@[k] == (
                Real { bits: 0 },
                Real { bits: 0 },
            ),
{
    let steps = choose|steps: Seq<Linearization>| #[trigger]
        is_linearizing(*plus, stamps@, dim as int, steps) && steps.last() == lin;
    let first: int = 0;
    assert(linearizes(*plus, stamps@[first], steps[first], steps[first + 1]));
    match stamp {
        Stamp::Jacobian { row, col, .. } => {
            if row < dim && col < dim {
                cells_are_distinct(dim as int, row as int, col as int, row as int, col as int);
            }
        },
        Stamp::Dcharge { row, col, .. } => {
            if row < dim && col < dim {
                cells_are_distinct(dim as int, row as int, col as int, row as int, col as int);
            }
        },
        _ => {},
    }
}

/// Each row of the right-hand side is what the deck drives it with less what the models
/// excite it with, the real parts with the real and the imaginary with the imaginary.
pub proof fn the_models_excitation_is_subtracted<F: Fn(Real, Real) -> Real>(
    netlist: &Vec<(Real, Real)>,
    model: &Vec<(Real, Real)>,
    minus: &F,
    rhs: Vec<(Real, Real)>,
    row: int,
    val: spec_fn(Real) -> int,
)
    requires
        call_ensures(combine_excitation::<F>, (netlist, model, minus), rhs),
        netlist@.len() == model@.len(),
        forall|a: Real, b: Real, c: Real| #[trigger]
            call_ensures(*minus, (a, b), c) ==> val(c) == val(a) - val(b),
        0 <= row < netlist@.len(),
    ensures
        rhs@.len() == netlist@.len(),
        val(rhs@[row].0) + val(model@[row].0) == val(netlist@[row].0),
        val(rhs@[row].1) + val(model@[row].1) == val(netlist@[row].1),
{
    assert(rhs@.len() == netlist@.len());
    assert(call_ensures(*minus, (netlist@[row].0, model@[row].0), rhs@[row].0));
}

// ---- complex equations as real ones ---------------------------------------

/// The real part of row `i` of `(G + j*W) X` over the first columns, for matrices that
/// are stored row by row.
pub open spec fn row_real(
    g: Seq<Real>,
    w: Seq<Real>,
    n: int,
    i: int,
    x: Seq<(Real, Real)>,
    val: spec_fn(Real) -> int,
    upto: int,
) -> int
    decreases upto,
{
    if upto <= 0 {
        0
    } else {
        let j = upto - 1;
        row_real(g, w, n, i, x, val, j) + val(g[i * n + j]) * val(x[j].0) - val(w[i * n + j])
            * val(x[j].1)
    }
}

/// The imaginary part of row `i` of `(G + j*W) X` over the first columns.
pub open spec fn row_imaginary(
    g: Seq<Real>,
    w: Seq<Real>,
    n: int,
    i: int,
    x: Seq<(Real, Real)>,
    val: spec_fn(Real) -> int,
    upto: int,
) -> int
    decreases upto,
{
    if upto <= 0 {
        0
    } else {
        let j = upto - 1;
        row_imaginary(g, w, n, i, x, val, j) + val(w[i * n + j]) * val(x[j].0) + val(g[i * n + j])
            * val(x[j].1)
    }
}

/// The real part of row `i` of the transposed equations.
pub open spec fn column_real(
    g: Seq<Real>,
    w: Seq<Real>,
    n: int,
    i: int,
    x: Seq<(Real, Real)>,
    val: spec_fn(Real) -> int,
    upto: int,
) -> int
    decreases upto,
{
    if upto <= 0 {
        0
    } else {
        let j = upto - 1;
        column_real(g, w, n, i, x, val, j) + val(g[j * n + i]) * val(x[j].0) - val(w[j * n + i])
            * val(x[j].1)
    }
}

/// The imaginary part of row `i` of the transposed equations.
pub open spec fn column_imaginary(
    g: Seq<Real>,
    w: Seq<Real>,
    n: int,
    i: int,
    x: Seq<(Real, Real)>,
    val: spec_fn(Real) -> int,
    upto: int,
) -> int
    decreases upto,
{
    if upto <= 0 {
        0
    } else {
        let j = upto - 1;
        column_imaginary(g, w, n, i, x, val, j) + val(w[j * n + i]) * val(x[j].0) + val(
            g[j * n + i],
        ) * val(x[j].1)
    }
}

/// The numbers that a vector stands for.
pub open spec fn numbers(sol: Seq<Real>, val: spec_fn(Real) -> int) -> spec_fn(int) -> int {
    |j: int| val(sol[j])
}

proof fn lemma_parts(
    g: Seq<Real>,
    w: Seq<Real>,
    n: int,
    i: int,
    transpose: bool,
    sol: Seq<Real>,
    x: Seq<(Real, Real)>,
    val: spec_fn(Real) -> int,
    entry: spec_fn(int) -> int,
    upto: int,
)
    requires
        0 <= upto <= n,
        2 * n <= sol.len(),
        x.len() == n,
        forall|k: int| 0 <= k < n ==> (#[trigger] x[k]) == (sol[k], sol[n + k]),
        forall|k: int| 0 <= k < 2 * n ==> #[trigger] entry(k) == val(sol[k]),
    ensures
        transpose ==> real_part(g, w, n, i, transpose, val, entry, upto) == column_real(
            g,
            w,
            n,
            i,
            x,
            val,
            upto,
        ),
        transpose ==> imaginary_part(g, w, n, i, transpose, val, entry, upto) == column_imaginary(
            g,
            w,
            n,
            i,
            x,
            val,
            upto,
        ),
        !transpose ==> real_part(g, w, n, i, transpose, val, entry, upto) == row_real(
            g,
            w,
            n,
            i,
            x,
            val,
            upto,
        ),
        !transpose ==> imaginary_part(g, w, n, i, transpose, val, entry, upto) == row_imaginary(
            g,
            w,
            n,
            i,
            x,
            val,
            upto,
        ),
    decreases upto,
{
    if upto > 0 {
        let j = upto - 1;
        lemma_parts(g, w, n, i, transpose, sol, x, val, entry, j);
        assert(x[j] == (sol[j], sol[n + j]));
        assert(entry(j) == val(sol[j]));
        assert(entry(n + j) == val(sol[n + j]));
        assert(n + upto - 1 == n + j);
    }
}

/// A solution of the real equations, split again, solves the complex ones: row by row,
/// `(G + j*W) X` is the right-hand side, or zero where that has no entry; with the
/// matrices transposed, `(G + j*W)^T X` is.
pub proof fn a_real_solution_is_a_complex_one(
    g: &Vec<Real>,
    w: &Vec<Real>,
    n: usize,
    transpose: bool,
    a: Vec<Real>,
    rhs: &Vec<(Real, Real)>,
    b: Vec<Real>,
    sol: &Vec<Real>,
    x: Vec<(Real, Real)>,
    val: spec_fn(Real) -> int,
    i: int,
)
    requires
        call_ensures(embed, (g, w, n, transpose), a),
        call_ensures(embed_rhs, (rhs, n), b),
        call_ensures(split_solution, (sol, n), x),
        sol@.len() == 2 * n,
        is_odd(val),
        forall|k: int|
            0 <= k < 2 * n ==> row_times(a@, 2 * n, k, val, numbers(sol@, val), 2 * n) == val(
                #[trigger] b@[k],
            ),
        0 <= i < n,
    ensures
        x@.len() == n,
        !transpose ==> {
            &&& row_real(g@, w@, n as int, i, x@, val, n as int) == val(
                if i < rhs@.len() {
                    rhs@[i].0
                } else {
                    Real { bits: 0 }
                },
            )
            &&& row_imaginary(g@, w@, n as int, i, x@, val, n as int) == val(
                if i < rhs@.len() {
                    rhs@[i].1
                } else {
                    Real { bits: 0 }
                },
            )
        },
        transpose ==> {
            &&& column_real(g@, w@, n as int, i, x@, val, n as int) == val(
                if i < rhs@.len() {
                    rhs@[i].0
                } else {
                    Real { bits: 0 }
                },
            )
            &&& column_imaginary(g@, w@, n as int, i, x@, val, n as int) == val(
                if i < rhs@.len() {
                    rhs@[i].1
                } else {
                    Real { bits: 0 }
                },
            )
        },
{
    let entry = numbers(sol@, val);
    assert(is_block(a@, g@, w@, n as int, transpose));
    crate::block::block_rows_are_complex_rows(a@, g@, w@, n as int, transpose, i, val, entry);
    assert(b@ == stacked(rhs@, n as int));
    assert(x@ == unstacked(sol@, n as int));
    lemma_parts(g@, w@, n as int, i, transpose, sol@, x@, val, entry, n as int);
    assert(row_times(a@, 2 * n, i, val, entry, 2 * n) == val(b@[i]));
    assert(row_times(a@, 2 * n, n + i, val, entry, 2 * n) == val(b@[n + i]));
}

// ---- frequencies ----------------------------------------------------------

/// A sweep takes no frequency where its start is not positive, its end lies before its
/// start or it asks for no points, and one where it has one point or no extent. Equally
/// spaced, it takes as many as it asks for: the computed ones, counted from the start,
/// and its end as the last.
pub proof fn a_sweep_takes_its_points<
    P: Fn(usize) -> Real,
    N: Fn(Real) -> Real,
    C: Fn(Real) -> bool,
>(s: &AcSweep, point: &P, limit: Real, next: &N, close: &C, f: Vec<Real>)
    requires
        call_ensures(AcSweep::frequencies::<P, N, C>, (s, point, limit, next, close), f),
    ensures
        f@.len() == 0 <==> (s.fstart.le(Real { bits: 0 }) || s.fstop.lt(s.fstart) || s.points == 0),
        f@.len() > 0 && s.fstart.le(s.fstop) && s.fstop.le(s.fstart) ==> f@ == seq![s.fstart],
        f@.len() > 0 && s.kind is Lin && s.points == 1 ==> f@ == seq![s.fstart],
        f@.len() > 0 && !(s.fstart.le(s.fstop) && s.fstop.le(s.fstart)) && s.kind is Lin && s.points
            > 1 ==> {
            &&& f@.len() == s.points
            &&& f@[s.points - 1] == s.fstop
            &&& forall|i: usize| i + 1 < s.points ==> call_ensures(*point, (i,), #[trigger] f@[i as int])
        },
{
    if f@.len() > 0 && !(s.fstart.le(s.fstop) && s.fstop.le(s.fstart)) && s.kind is Lin && s.points
        > 1 {
        assert forall|i: usize| i + 1 < s.points implies call_ensures(
            *point,
            (i,),
            #[trigger] f@[i as int],
        ) by {
            let k = i as int;
            assert(call_ensures(*point, (k as usize,), f@[k]));
        }
    }
}

/// A sweep by equal ratios starts on its start and ends on its end. Each frequency but
/// the last leads to the one after it by one step, and the steps go on up to the limit:
/// the step from the last but one leads past it, or to a frequency that is close to the
/// end or beyond it and whose place the end takes.
pub proof fn a_walk_goes_up_to_its_limit<
    P: Fn(usize) -> Real,
    N: Fn(Real) -> Real,
    C: Fn(Real) -> bool,
>(s: &AcSweep, point: &P, limit: Real, next: &N, close: &C, f: Vec<Real>)
    requires
        call_ensures(AcSweep::frequencies::<P, N, C>, (s, point, limit, next, close), f),
        !(s.kind is Lin),
        f@.len() > 0,
        !(s.fstart.le(s.fstop) && s.fstop.le(s.fstart)),
    ensures
        f@[f@.len() - 1] == s.fstop,
        !s.fstart.lt(limit) ==> f@.len() == 1,
        f@.len() > 1 ==> f@[0] == s.fstart,
        s.fstart.lt(limit) && f@.len() == 1 ==> s.fstop.lt(s.fstart) || call_ensures(
            *close,
            (s.fstart,),
            true,
        ),
        forall|i: int|
            0 <= i < f@.len() - 2 ==> call_ensures(*next, (#[trigger] f@[i],), f@[i + 1]),
        forall|i: int| 0 <= i < f@.len() - 1 ==> (#[trigger] f@[i]).lt(limit),
        f@.len() > 1 ==> exists|y: Real| #[trigger]
            call_ensures(*next, (f@[f@.len() - 2],), y) && (!y.lt(limit) || s.fstop.lt(y)
                || call_ensures(*close, (y,), true)),
{
    let (walked, near) = choose|walked: Seq<Real>, near: bool| #[trigger]
        is_walked_sweep(*s, limit, *next, *close, walked, near, f@);
    let n = f@.len();
    if n > 1 {
        assert(f@[n - 2] == walked[n - 2]);
        if walked.len() == n {
            assert(leads_on(*next, walked, n - 2));
        }
        assert forall|i: int| 0 <= i < n - 2 implies call_ensures(
            *next,
            (#[trigger] f@[i],),
            f@[i + 1],
        ) by {
            assert(leads_on(*next, walked, i));
            assert(f@[i] == walked[i] && f@[i + 1] == walked[i + 1]);
        }
    }
    assert forall|i: int| 0 <= i < n - 1 implies (#[trigger] f@[i]).lt(limit) by {
        assert(f@[i] == walked[i]);
    }
}

/// The points of a sweep are spaced as its kind says: so many to a factor of ten, so many
/// to a factor of two, or so many in all.
pub proof fn a_grid_is_spaced_as_asked(s: &AcSweep, r: Grid)
    requires
        call_ensures(AcSweep::grid, (s,), r),
    ensures
        r is Empty <==> s.fstart.le(Real { bits: 0 }) || s.fstop.lt(s.fstart) || s.points == 0,
        r matches Grid::Walk { per, points } ==> points == s.points && (s.kind is Dec && per == 10
            || s.kind is Oct && per == 2),
        r matches Grid::Line { points } ==> points == s.points && s.kind is Lin && points != 1,
        r is Single ==> (s.fstart.le(s.fstop) && s.fstop.le(s.fstart)) || (s.kind is Lin && s.points
            == 1),
        !(r is Empty) && s.fstart.lt(s.fstop) && !(s.kind is Lin && s.points == 1) ==> !(r is Single),
{
}

/// The entry of a gathered matrix is read at its own row and column, and is zero where
/// either is the reference node.
pub proof fn an_entry_is_read_where_it_was_gathered(sink: &DenseStamp, row: usize, col: usize, r: Real)
    requires
        call_ensures(DenseStamp::jac, (sink, row, col), r),
    ensures
        row < sink.dim && col < sink.dim ==> r == sink.jacobian@[row * sink.dim + col],
        row >= sink.dim || col >= sink.dim ==> r == (Real { bits: 0 }),
{
}

/// A sink and a linearization start from zero everywhere.
pub proof fn gathering_starts_from_zero(dim: usize, sink: DenseStamp, lin: Linearization, k: int)
    requires
        call_ensures(DenseStamp::new, (dim,), sink),
        call_ensures(Linearization::new, (dim,), lin),
    ensures
        sink.dim == dim && lin.dim == dim,
        sink.bound_step is None,
        0 <= k < dim ==> sink.residual@[k].bits == 0 && sink.charge@[k].bits == 0
            && sink.excitation@[k].0.bits == 0 && sink.excitation@[k].1.bits == 0
            && lin.excitation@[k].0.bits == 0 && lin.excitation@[k].1.bits == 0,
        0 <= k < dim * dim ==> sink.jacobian@[k].bits == 0 && sink.dcharge@[k].bits == 0
            && lin.g@[k].bits == 0 && lin.c@[k].bits == 0,
{
}

// ---- what each call adds --------------------------------------------------

/// A sink that takes a contribution adds it in its own cell and changes no other.
pub proof fn a_sink_adds_a_contribution_in_its_cell<F: Fn(Real, Real) -> Real>(
    sink: &mut DenseStamp,
    stamp: Stamp,
    plus: &F,
    at: Cell,
    val: spec_fn(Real) -> int,
)
    requires
        old(sink).well_formed(),
        call_ensures(DenseStamp::deposit::<F>, (sink, stamp, plus), ()),
        sums(*plus, val),
        in_system(at, old(sink).dim as int),
    ensures
        dense_cell(*final(sink), at, val) == dense_cell(*old(sink), at, val) + amount(stamp, at, val),
{
    a_contribution_is_gathered_in_its_cell(*plus, stamp, *old(sink), *final(sink), at, val);
}

/// A linearization that takes a contribution adds it in its own cell and changes no other.
pub proof fn a_linearization_adds_a_contribution_in_its_cell<F: Fn(Real, Real) -> Real>(
    lin: &mut Linearization,
    stamp: Stamp,
    plus: &F,
    at: Cell,
    val: spec_fn(Real) -> int,
)
    requires
        old(lin).well_formed(),
        call_ensures(Linearization::deposit::<F>, (lin, stamp, plus), ()),
        sums(*plus, val),
        in_system(at, old(lin).dim as int),
        is_linear(at),
    ensures
        linear_cell(*final(lin), at, val) == linear_cell(*old(lin), at, val) + amount(stamp, at, val),
{
    a_contribution_is_linearized_in_its_cell(*plus, stamp, *old(lin), *final(lin), at, val);
}

/// A residual is added in its own row and nowhere else.
pub proof fn a_residual_is_added_in_its_row<F: Fn(Real, Real) -> Real>(
    sink: &mut DenseStamp,
    row: usize,
    value: Real,
    plus: &F,
    at: Cell,
    val: spec_fn(Real) -> int,
)
    requires
        old(sink).well_formed(),
        call_ensures(DenseStamp::residual::<F>, (sink, row, value, plus), ()),
        sums(*plus, val),
        in_system(at, old(sink).dim as int),
    ensures
        dense_cell(*final(sink), at, val) == dense_cell(*old(sink), at, val) + amount(
            Stamp::Residual { row, value },
            at,
            val,
        ),
{
    let stamp = Stamp::Residual { row, value };
    assert(deposits(*plus, stamp, *old(sink), *final(sink)));
    a_contribution_is_gathered_in_its_cell(*plus, stamp, *old(sink), *final(sink), at, val);
}

/// The derivative of a residual is added in its own row and column and nowhere else.
pub proof fn a_derivative_is_added_in_its_cell<F: Fn(Real, Real) -> Real>(
    sink: &mut DenseStamp,
    row: usize,
    col: usize,
    value: Real,
    plus: &F,
    at: Cell,
    val: spec_fn(Real) -> int,
)
    requires
        old(sink).well_formed(),
        call_ensures(DenseStamp::jacobian::<F>, (sink, row, col, value, plus), ()),
        sums(*plus, val),
        in_system(at, old(sink).dim as int),
    ensures
        dense_cell(*final(sink), at, val) == dense_cell(*old(sink), at, val) + amount(
            Stamp::Jacobian { row, col, value },
            at,
            val,
        ),
{
    let stamp = Stamp::Jacobian { row, col, value };
    assert(deposits(*plus, stamp, *old(sink), *final(sink)));
    a_contribution_is_gathered_in_its_cell(*plus, stamp, *old(sink), *final(sink), at, val);
}

/// A charge is added in its own row and nowhere else.
pub proof fn a_charge_is_added_in_its_row<F: Fn(Real, Real) -> Real>(
    sink: &mut DenseStamp,
    row: usize,
    value: Real,
    plus: &F,
    at: Cell,
    val: spec_fn(Real) -> int,
)
    requires
        old(sink).well_formed(),
        call_ensures(DenseStamp::charge::<F>, (sink, row, value, plus), ()),
        sums(*plus, val),
        in_system(at, old(sink).dim as int),
    ensures
        dense_cell(*final(sink), at, val) == dense_cell(*old(sink), at, val) + amount(
            Stamp::Charge { row, value },
            at,
            val,
        ),
{
    let stamp = Stamp::Charge { row, value };
    assert(deposits(*plus, stamp, *old(sink), *final(sink)));
    a_contribution_is_gathered_in_its_cell(*plus, stamp, *old(sink), *final(sink), at, val);
}

/// The derivative of a charge is added in its own row and column and nowhere else.
pub proof fn a_capacitance_is_added_in_its_cell<F: Fn(Real, Real) -> Real>(
    sink: &mut DenseStamp,
    row: usize,
    col: usize,
    value: Real,
    plus: &F,
    at: Cell,
    val: spec_fn(Real) -> int,
)
    requires
        old(sink).well_formed(),
        call_ensures(DenseStamp::dcharge::<F>, (sink, row, col, value, plus), ()),
        sums(*plus, val),
        in_system(at, old(sink).dim as int),
    ensures
        dense_cell(*final(sink), at, val) == dense_cell(*old(sink), at, val) + amount(
            Stamp::Dcharge { row, col, value },
            at,
            val,
        ),
{
    let stamp = Stamp::Dcharge { row, col, value };
    assert(deposits(*plus, stamp, *old(sink), *final(sink)));
    a_contribution_is_gathered_in_its_cell(*plus, stamp, *old(sink), *final(sink), at, val);
}

/// An excitation is added in its own row, part by part, and nowhere else.
pub proof fn an_excitation_is_added_in_its_row<F: Fn(Real, Real) -> Real>(
    sink: &mut DenseStamp,
    row: usize,
    re: Real,
    im: Real,
    plus: &F,
    at: Cell,
    val: spec_fn(Real) -> int,
)
    requires
        old(sink).well_formed(),
        call_ensures(DenseStamp::excitation::<F>, (sink, row, re, im, plus), ()),
        sums(*plus, val),
        in_system(at, old(sink).dim as int),
    ensures
        dense_cell(*final(sink), at, val) == dense_cell(*old(sink), at, val) + amount(
            Stamp::Excitation { row, re, im },
            at,
            val,
        ),
{
    let stamp = Stamp::Excitation { row, re, im };
    assert(deposits(*plus, stamp, *old(sink), *final(sink)));
    a_contribution_is_gathered_in_its_cell(*plus, stamp, *old(sink), *final(sink), at, val);
}

/// A request for a bound on the step changes no sum. One that is positive and finite is
/// met, and the bound is then the request or the one there was; any other changes nothing.
pub proof fn a_request_bounds_the_step(sink: &mut DenseStamp, dt: Real, at: Cell, val: spec_fn(Real) -> int)
    requires
        old(sink).bound_step matches Some(b) ==> !b.nan(),
        call_ensures(DenseStamp::bound_step, (sink, dt), ()),
    ensures
        dense_cell(*final(sink), at, val) == dense_cell(*old(sink), at, val),
        !dt.positive_finite() ==> final(sink).bound_step == old(sink).bound_step,
        dt.positive_finite() ==> (final(sink).bound_step matches Some(now) && now.le(dt) && (now
            == dt || old(sink).bound_step == Some(now)) && (old(sink).bound_step matches Some(b)
            ==> now.le(b))),
{
}

} // verus!
