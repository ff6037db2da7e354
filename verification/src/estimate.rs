//! What a run is about to solve, and roughly what that costs.
//!
//! Costs are measured, in microseconds per point, on circuits of several sizes. Between
//! two measured sizes the cost lies between the two measured costs; outside them it is
//! scaled from the nearest one by two powers of the size.
use crate::args::Analysis;
use crate::device::Part;
use crate::number::Real;
use crate::search::{first_where, lemma_first_where, lemma_first_where_holds};
use crate::sizes::{bytes, bytes_text};
use crate::text::{chars_of, decimal, decimal_text};
use vstd::prelude::*;

verus! {

// ---- the solver -----------------------------------------------------------

/// The number of unknowns from which on the sparse path is taken.
pub const SPARSE_THRESHOLD: usize = 500;

/// Which linear solver is asked for.
#[derive(Clone, Copy, Debug, PartialEq, Eq, Structural)]
pub enum Solver {
    /// Whichever suits the size.
    Auto,
    Dense,
    Sparse,
}

/// Whether the sparse path is taken.
pub open spec fn takes_sparse(solver: Solver, unknowns: usize) -> bool {
    match solver {
        Solver::Auto => unknowns >= SPARSE_THRESHOLD,
        Solver::Dense => false,
        Solver::Sparse => true,
    }
}

impl Solver {
    /// Whether the sparse path is taken.
    pub fn uses_sparse(self, unknowns: usize) -> (r: bool)
        ensures
            r == takes_sparse(self, unknowns),
    {
        match self {
            Solver::Auto => unknowns >= SPARSE_THRESHOLD,
            Solver::Dense => false,
            Solver::Sparse => true,
        }
    }
}

/// Why a path is taken.
pub open spec fn solver_reason(solver: Solver, unknowns: usize) -> Seq<char> {
    match solver {
        Solver::Auto => if takes_sparse(solver, unknowns) {
            decimal(unknowns as nat) + " >= "@ + decimal(SPARSE_THRESHOLD as nat) + " unknowns"@
        } else {
            decimal(unknowns as nat) + " < "@ + decimal(SPARSE_THRESHOLD as nat) + " unknowns"@
        },
        Solver::Dense => "--solver dense"@,
        Solver::Sparse => "--solver sparse"@,
    }
}

/// The line that names the linear solver of a run, and why it was chosen.
pub fn solver_line(solver: Solver, unknowns: usize) -> (r: String)
    ensures
        r@ == (if takes_sparse(solver, unknowns) {
            "[va-cli] linear solve: sparse LU ("@ + solver_reason(solver, unknowns)
                + "), for the whole run"@
        } else {
            "[va-cli] linear solve: dense LU ("@ + solver_reason(solver, unknowns) + ")"@
        }),
{
    let sparse = solver.uses_sparse(unknowns);
    let why = match solver {
        Solver::Auto => {
            let mut why = decimal_text(unknowns as u64);
            if sparse {
                why.append(" >= ");
            } else {
                why.append(" < ");
            }
            why.append(decimal_text(SPARSE_THRESHOLD as u64).as_str());
            why.append(" unknowns");
            why
        },
        Solver::Dense => "--solver dense".to_owned(),
        Solver::Sparse => "--solver sparse".to_owned(),
    };
    if sparse {
        let mut r = "[va-cli] linear solve: sparse LU (".to_owned();
        r.append(why.as_str());
        r.append("), for the whole run");
        r
    } else {
        let mut r = "[va-cli] linear solve: dense LU (".to_owned();
        r.append(why.as_str());
        r.append(")");
        r
    }
}

// ---- measured costs -------------------------------------------------------

/// What the dense path costs per point, against the number of unknowns.
pub open spec fn dense_rows(analysis: Analysis) -> Seq<(usize, u64)> {
    match analysis {
        Analysis::Transient => seq![
            (12usize, 10u64),
            (22usize, 17u64),
            (52usize, 466u64),
            (102usize, 1390u64),
            (202usize, 3319u64),
            (402usize, 14242u64),
            (802usize, 52335u64),
        ],
        Analysis::Dc => seq![
            (12usize, 20u64),
            (22usize, 30u64),
            (52usize, 380u64),
            (102usize, 850u64),
            (202usize, 2240u64),
            (402usize, 8080u64),
            (802usize, 63460u64),
        ],
        Analysis::Ac => seq![
            (12usize, 6u64),
            (22usize, 408u64),
            (52usize, 544u64),
            (102usize, 1463u64),
            (202usize, 4735u64),
            (402usize, 21494u64),
            (802usize, 78766u64),
        ],
        Analysis::Noise => seq![
            (12usize, 6u64),
            (22usize, 361u64),
            (52usize, 474u64),
            (102usize, 1464u64),
            (202usize, 6093u64),
            (402usize, 22297u64),
            (802usize, 120293u64),
        ],
    }
}

/// What the dense path costs per point, against the number of unknowns.
pub fn dense_table(analysis: Analysis) -> (r: Vec<(usize, u64)>)
    ensures
        r@ == dense_rows(analysis),
{
    let r: Vec<(usize, u64)> = match analysis {
        Analysis::Transient => vec![
            (12, 10),
            (22, 17),
            (52, 466),
            (102, 1390),
            (202, 3319),
            (402, 14242),
            (802, 52335),
        ],
        Analysis::Dc => vec![
            (12, 20),
            (22, 30),
            (52, 380),
            (102, 850),
            (202, 2240),
            (402, 8080),
            (802, 63460),
        ],
        Analysis::Ac => vec![
            (12, 6),
            (22, 408),
            (52, 544),
            (102, 1463),
            (202, 4735),
            (402, 21494),
            (802, 78766),
        ],
        Analysis::Noise => vec![
            (12, 6),
            (22, 361),
            (52, 474),
            (102, 1464),
            (202, 6093),
            (402, 22297),
            (802, 120293),
        ],
    };
    assert(r@ =~= dense_rows(analysis));
    r
}

/// What the sparse path costs per point on a ladder, which does not fill in.
pub open spec fn ladder_rows(analysis: Analysis) -> Seq<(usize, u64)> {
    match analysis {
        Analysis::Transient => seq![
            (12usize, 19u64),
            (22usize, 23u64),
            (52usize, 48u64),
            (102usize, 68u64),
            (202usize, 136u64),
            (402usize, 234u64),
            (802usize, 602u64),
            (1602usize, 928u64),
            (3202usize, 2138u64),
            (6402usize, 4173u64),
        ],
        Analysis::Dc => seq![
            (12usize, 110u64),
            (22usize, 110u64),
            (52usize, 200u64),
            (102usize, 270u64),
            (202usize, 840u64),
            (402usize, 950u64),
            (802usize, 1770u64),
            (1602usize, 3470u64),
            (3202usize, 8980u64),
            (6402usize, 16170u64),
        ],
        Analysis::Ac => seq![
            (12usize, 19u64),
            (22usize, 22u64),
            (52usize, 34u64),
            (102usize, 56u64),
            (202usize, 131u64),
            (402usize, 305u64),
            (802usize, 851u64),
            (1602usize, 1391u64),
            (3202usize, 2328u64),
            (6402usize, 4137u64),
        ],
        Analysis::Noise => seq![
            (12usize, 18u64),
            (22usize, 21u64),
            (52usize, 35u64),
            (102usize, 61u64),
            (202usize, 104u64),
            (402usize, 233u64),
            (802usize, 539u64),
            (1602usize, 1100u64),
            (3202usize, 2431u64),
            (6402usize, 5144u64),
        ],
    }
}

/// What the sparse path costs per point on a ladder, which does not fill in.
pub fn ladder_table(analysis: Analysis) -> (r: Vec<(usize, u64)>)
    ensures
        r@ == ladder_rows(analysis),
{
    let r: Vec<(usize, u64)> = match analysis {
        Analysis::Transient => vec![
            (12, 19),
            (22, 23),
            (52, 48),
            (102, 68),
            (202, 136),
            (402, 234),
            (802, 602),
            (1602, 928),
            (3202, 2138),
            (6402, 4173),
        ],
        Analysis::Dc => vec![
            (12, 110),
            (22, 110),
            (52, 200),
            (102, 270),
            (202, 840),
            (402, 950),
            (802, 1770),
            (1602, 3470),
            (3202, 8980),
            (6402, 16170),
        ],
        Analysis::Ac => vec![
            (12, 19),
            (22, 22),
            (52, 34),
            (102, 56),
            (202, 131),
            (402, 305),
            (802, 851),
            (1602, 1391),
            (3202, 2328),
            (6402, 4137),
        ],
        Analysis::Noise => vec![
            (12, 18),
            (22, 21),
            (52, 35),
            (102, 61),
            (202, 104),
            (402, 233),
            (802, 539),
            (1602, 1100),
            (3202, 2431),
            (6402, 5144),
        ],
    };
    assert(r@ =~= ladder_rows(analysis));
    r
}

/// What the sparse path costs per point on a square mesh, which fills in.
pub open spec fn mesh_rows(analysis: Analysis) -> Seq<(usize, u64)> {
    match analysis {
        Analysis::Transient => seq![
            (11usize, 18u64),
            (18usize, 33u64),
            (51usize, 72u64),
            (102usize, 131u64),
            (198usize, 358u64),
            (402usize, 1326u64),
            (786usize, 3221u64),
            (1602usize, 6361u64),
            (3251usize, 12613u64),
            (6402usize, 36798u64),
        ],
        Analysis::Dc => seq![
            (11usize, 70u64),
            (18usize, 190u64),
            (51usize, 420u64),
            (102usize, 600u64),
            (198usize, 1650u64),
            (402usize, 2880u64),
            (786usize, 7450u64),
            (1602usize, 21160u64),
            (3251usize, 38460u64),
            (6402usize, 92610u64),
        ],
        Analysis::Ac => seq![
            (11usize, 24u64),
            (18usize, 42u64),
            (51usize, 114u64),
            (102usize, 369u64),
            (198usize, 1413u64),
            (402usize, 3220u64),
            (786usize, 9462u64),
            (1602usize, 32598u64),
            (3251usize, 49874u64),
            (6402usize, 142561u64),
        ],
        Analysis::Noise => seq![
            (11usize, 29u64),
            (18usize, 42u64),
            (51usize, 105u64),
            (102usize, 369u64),
            (198usize, 1283u64),
            (402usize, 2939u64),
            (786usize, 9389u64),
            (1602usize, 24645u64),
            (3251usize, 57380u64),
            (6402usize, 142783u64),
        ],
    }
}

/// What the sparse path costs per point on a square mesh, which fills in.
pub fn mesh_table(analysis: Analysis) -> (r: Vec<(usize, u64)>)
    ensures
        r@ == mesh_rows(analysis),
{
    let r: Vec<(usize, u64)> = match analysis {
        Analysis::Transient => vec![
            (11, 18),
            (18, 33),
            (51, 72),
            (102, 131),
            (198, 358),
            (402, 1326),
            (786, 3221),
            (1602, 6361),
            (3251, 12613),
            (6402, 36798),
        ],
        Analysis::Dc => vec![
            (11, 70),
            (18, 190),
            (51, 420),
            (102, 600),
            (198, 1650),
            (402, 2880),
            (786, 7450),
            (1602, 21160),
            (3251, 38460),
            (6402, 92610),
        ],
        Analysis::Ac => vec![
            (11, 24),
            (18, 42),
            (51, 114),
            (102, 369),
            (198, 1413),
            (402, 3220),
            (786, 9462),
            (1602, 32598),
            (3251, 49874),
            (6402, 142561),
        ],
        Analysis::Noise => vec![
            (11, 29),
            (18, 42),
            (51, 105),
            (102, 369),
            (198, 1283),
            (402, 2939),
            (786, 9389),
            (1602, 24645),
            (3251, 57380),
            (6402, 142783),
        ],
    };
    assert(r@ =~= mesh_rows(analysis));
    r
}

/// Sizes ascend, and costs do not fall.
pub open spec fn ascending(rows: Seq<(usize, u64)>) -> bool {
    &&& rows.len() > 0
    &&& forall|i: int, j: int| 0 <= i < j < rows.len() ==> rows[i].0 < rows[j].0 && rows[i].1 <= rows[j].1
    &&& forall|i: int| 0 <= i < rows.len() ==> (#[trigger] rows[i]).0 > 0 && rows[i].1 > 0
}

/// Every measured table ascends.
pub proof fn every_table_ascends(analysis: Analysis)
    ensures
        ascending(dense_rows(analysis)),
        ascending(ladder_rows(analysis)),
        ascending(mesh_rows(analysis)),
{
}

/// Where a size lies among the measured ones.
#[derive(Clone, Copy, Debug, PartialEq, Eq, Structural)]
pub enum Cost {
    /// Between two measured costs.
    Between { low: u64, high: u64 },
    /// Outside them: `cost` at the size `of`, scaled by the `low`-th and the `high`-th
    /// power of `dim / of`.
    Scaled { cost: u64, dim: usize, of: usize, low: u32, high: u32 },
}

/// The place of the first row for at least this size.
pub open spec fn row_at_least(rows: Seq<(usize, u64)>, dim: usize) -> int {
    first_where(rows, |r: (usize, u64)| r.0 >= dim)
}

/// The cost at a size. Below the first row the larger exponent gives the low end,
/// beyond the last one it gives the high end.
pub open spec fn cost_at(rows: Seq<(usize, u64)>, dim: usize, low: u32, high: u32) -> Cost {
    let first = rows[0];
    let last = rows.last();
    if dim <= first.0 {
        Cost::Scaled { cost: first.1, dim, of: first.0, low: high, high: low }
    } else if dim >= last.0 {
        Cost::Scaled { cost: last.1, dim, of: last.0, low, high }
    } else {
        let k = row_at_least(rows, dim);
        Cost::Between { low: rows[k - 1].1, high: rows[k].1 }
    }
}

/// The cost at a size from a measured table, with the exponents for what lies outside.
pub fn bracket_with(dim: usize, table: &Vec<(usize, u64)>, low: u32, high: u32) -> (r: Cost)
    requires
        table@.len() > 0,
    ensures
        r == cost_at(table@, dim, low, high),
{
    let first = table[0];
    let last = table[table.len() - 1];
    if dim <= first.0 {
        return Cost::Scaled { cost: first.1, dim, of: first.0, low: high, high: low };
    }
    if dim >= last.0 {
        return Cost::Scaled { cost: last.1, dim, of: last.0, low, high };
    }
    let n: usize = table.len();
    let mut k: usize = 1;
    while table[k].0 < dim
        invariant
            n == table@.len(),
            1 <= k < n,
            table@[0].0 < dim,
            table@.last().0 > dim,
            forall|j: int| 0 <= j < k ==> (#[trigger] table@[j]).0 < dim,
        decreases table@.len() - k,
    {
        k += 1;
    }
    proof {
        lemma_first_where(table@, |r: (usize, u64)| r.0 >= dim, k as int);
    }
    Cost::Between { low: table[k - 1].1, high: table[k].1 }
}

/// The cost on the dense path: assembly grows with the square of the size, the
/// factorization with its cube.
pub fn bracket(dim: usize, table: &Vec<(usize, u64)>) -> (r: Cost)
    requires
        table@.len() > 0,
    ensures
        r == cost_at(table@, dim, 2, 3),
{
    bracket_with(dim, table, 2, 3)
}

/// A product of equal factors.
pub open spec fn power(base: int, exponent: nat) -> int
    decreases exponent,
{
    if exponent == 0 {
        1
    } else {
        base * power(base, (exponent - 1) as nat)
    }
}

/// The low end is at most the high end.
pub open spec fn ends_in_order(cost: Cost) -> bool {
    match cost {
        Cost::Between { low, high } => low <= high,
        Cost::Scaled { dim, of, low, high, .. } => power(dim as int, low as nat) * power(
            of as int,
            high as nat,
        ) <= power(dim as int, high as nat) * power(of as int, low as nat),
    }
}

proof fn lemma_power_positive(base: int, exponent: nat)
    requires
        base >= 0,
    ensures
        power(base, exponent) >= 0,
    decreases exponent,
{
    if exponent > 0 {
        lemma_power_positive(base, (exponent - 1) as nat);
        assert(base * power(base, (exponent - 1) as nat) >= 0) by (nonlinear_arith)
            requires
                base >= 0,
                power(base, (exponent - 1) as nat) >= 0,
        ;
    }
}

/// Of two powers of two numbers the larger exponent favours the larger number.
proof fn lemma_power_order(small: int, large: int, low: nat, high: nat)
    requires
        0 <= small <= large,
        low <= high,
    ensures
        power(small, high) * power(large, low) <= power(small, low) * power(large, high),
    decreases high,
{
    if low < high {
        let h = (high - 1) as nat;
        lemma_power_order(small, large, low, h);
        lemma_power_positive(small, h);
        lemma_power_positive(large, h);
        lemma_power_positive(small, low);
        lemma_power_positive(large, low);
        let a = power(small, h) * power(large, low);
        let b = power(small, low) * power(large, h);
        assert(a >= 0) by (nonlinear_arith)
            requires
                a == power(small, h) * power(large, low),
                power(small, h) >= 0,
                power(large, low) >= 0,
        ;
        assert(power(small, high) * power(large, low) == small * a) by (nonlinear_arith)
            requires
                power(small, high) == small * power(small, h),
                a == power(small, h) * power(large, low),
        ;
        assert(power(small, low) * power(large, high) == large * b) by (nonlinear_arith)
            requires
                power(large, high) == large * power(large, h),
                b == power(small, low) * power(large, h),
        ;
        assert(small * a <= large * b) by (nonlinear_arith)
            requires
                0 <= small <= large,
                0 <= a <= b,
        ;
    } else {
        assert(power(small, high) * power(large, low) == power(small, low) * power(large, high));
    }
}

/// A table that ascends gives a low end that is at most the high end, at every size.
pub proof fn the_bracket_is_ordered(rows: Seq<(usize, u64)>, dim: usize, low: u32, high: u32)
    requires
        ascending(rows),
        low <= high,
    ensures
        ends_in_order(cost_at(rows, dim, low, high)),
{
    if dim <= rows[0].0 {
        lemma_power_order(dim as int, rows[0].0 as int, low as nat, high as nat);
        assert(power(dim as int, low as nat) * power(rows[0].0 as int, high as nat) == power(
            rows[0].0 as int,
            high as nat,
        ) * power(dim as int, low as nat)) by (nonlinear_arith);
    } else if dim >= rows.last().0 {
        lemma_power_order(rows.last().0 as int, dim as int, low as nat, high as nat);
        let l = rows.last().0 as int;
        let d = dim as int;
        assert(power(l, high as nat) * power(d, low as nat) == power(d, low as nat) * power(
            l,
            high as nat,
        )) by (nonlinear_arith);
        assert(power(l, low as nat) * power(d, high as nat) == power(d, high as nat) * power(
            l,
            low as nat,
        )) by (nonlinear_arith);
    } else {
        let k = row_at_least(rows, dim);
        lemma_between(rows, dim);
        assert(rows[k - 1].1 <= rows[k].1);
    }
}

/// An end of a cost as a fraction: the low one, or the high one.
pub open spec fn end_of(cost: Cost, upper: bool) -> (int, int) {
    match cost {
        Cost::Between { low, high } => (
            if upper {
                high as int
            } else {
                low as int
            },
            1,
        ),
        Cost::Scaled { cost, dim, of, low, high } => {
            let exponent = if upper {
                high as nat
            } else {
                low as nat
            };
            (cost * power(dim as int, exponent), power(of as int, exponent))
        },
    }
}

/// The one fraction is at most the other.
pub open spec fn at_most(x: (int, int), y: (int, int)) -> bool {
    x.0 * y.1 <= y.0 * x.1
}

proof fn lemma_at_most_transitive(x: (int, int), y: (int, int), z: (int, int))
    requires
        at_most(x, y),
        at_most(y, z),
        x.1 > 0,
        y.1 > 0,
        z.1 > 0,
    ensures
        at_most(x, z),
{
    assert(x.0 * z.1 <= z.0 * x.1) by (nonlinear_arith)
        requires
            x.0 * y.1 <= y.0 * x.1,
            y.0 * z.1 <= z.0 * y.1,
            x.1 > 0,
            y.1 > 0,
            z.1 > 0,
    {
        assert((x.0 * y.1) * z.1 <= (y.0 * x.1) * z.1) by (nonlinear_arith)
            requires
                x.0 * y.1 <= y.0 * x.1,
                z.1 > 0,
        ;
        assert((y.0 * z.1) * x.1 <= (z.0 * y.1) * x.1) by (nonlinear_arith)
            requires
                y.0 * z.1 <= z.0 * y.1,
                x.1 > 0,
        ;
        assert((x.0 * z.1) * y.1 <= (z.0 * x.1) * y.1) by (nonlinear_arith)
            requires
                (x.0 * y.1) * z.1 <= (y.0 * x.1) * z.1,
                (y.0 * z.1) * x.1 <= (z.0 * y.1) * x.1,
        ;
        assert(x.0 * z.1 <= z.0 * x.1) by (nonlinear_arith)
            requires
                (x.0 * z.1) * y.1 <= (z.0 * x.1) * y.1,
                y.1 > 0,
        ;
    }
}

proof fn lemma_power_grows(small: int, large: int, exponent: nat)
    requires
        0 <= small <= large,
        large > 0,
    ensures
        0 <= power(small, exponent) <= power(large, exponent),
        power(large, exponent) > 0,
    decreases exponent,
{
    if exponent > 0 {
        let e = (exponent - 1) as nat;
        lemma_power_grows(small, large, e);
        let (p, q) = (power(small, e), power(large, e));
        assert(0 <= small * p <= large * q && large * q > 0) by (nonlinear_arith)
            requires
                0 <= small <= large,
                large > 0,
                0 <= p <= q,
                q > 0,
        ;
    }
}

/// A cost that is scaled from a size to a larger one does not shrink, and to a smaller
/// one does not grow.
proof fn lemma_scaled_end(cost: int, dim: int, of: int, other: int, exponent: nat)
    requires
        cost >= 0,
        0 <= dim <= other,
        of > 0,
    ensures
        power(of, exponent) > 0,
        at_most(
            (cost * power(dim, exponent), power(of, exponent)),
            (cost * power(other, exponent), power(of, exponent)),
        ),
        dim <= of ==> at_most((cost * power(dim, exponent), power(of, exponent)), (cost, 1)),
        of <= other ==> at_most((cost, 1), (cost * power(other, exponent), power(of, exponent))),
{
    lemma_power_grows(of, of, exponent);
    let (d, f, o) = (power(dim, exponent), power(of, exponent), power(other, exponent));
    if other > 0 {
        lemma_power_grows(dim, other, exponent);
    }
    assert(d <= o);
    assert((cost * d) * f <= (cost * o) * f) by (nonlinear_arith)
        requires
            cost >= 0,
            d <= o,
            f > 0,
    ;
    if dim <= of {
        lemma_power_grows(dim, of, exponent);
        assert(cost * d <= cost * f) by (nonlinear_arith)
            requires
                cost >= 0,
                d <= f,
        ;
        assert(cost * d * 1 <= cost * f);
    }
    if of <= other {
        lemma_power_grows(of, other, exponent);
        assert(cost * f <= cost * o) by (nonlinear_arith)
            requires
                cost >= 0,
                f <= o,
        ;
        assert(cost * f <= cost * o * 1);
    }
}

/// Between the first row and the last one the two neighbouring rows are the ends.
proof fn lemma_between(rows: Seq<(usize, u64)>, dim: usize)
    requires
        ascending(rows),
        rows[0].0 < dim < rows.last().0,
    ensures
        1 <= row_at_least(rows, dim) < rows.len(),
        rows[row_at_least(rows, dim) - 1].0 < dim <= rows[row_at_least(rows, dim)].0,
{
    let k = row_at_least(rows, dim);
    lemma_first_where_holds(rows, |r: (usize, u64)| r.0 >= dim);
    if k >= rows.len() {
        assert((|r: (usize, u64)| r.0 >= dim)(rows[rows.len() - 1]));
    }
    if k == 0 {
        assert((|r: (usize, u64)| r.0 >= dim)(rows[0]));
    } else {
        assert(!(|r: (usize, u64)| r.0 >= dim)(rows[k - 1]));
    }
}

/// A larger circuit never costs less: both ends of the bracket rise with the size, and
/// between two measured sizes the ends are the costs measured there.
pub proof fn the_bracket_rises(
    rows: Seq<(usize, u64)>,
    small: usize,
    large: usize,
    low: u32,
    high: u32,
    upper: bool,
)
    requires
        ascending(rows),
        small <= large,
    ensures
        at_most(
            end_of(cost_at(rows, small, low, high), upper),
            end_of(cost_at(rows, large, low, high), upper),
        ),
        rows[0].0 < small < rows.last().0 ==> {
            let k = row_at_least(rows, small);
            &&& 1 <= k < rows.len()
            &&& rows[k - 1].0 < small <= rows[k].0
            &&& cost_at(rows, small, low, high) == Cost::Between {
                low: rows[k - 1].1,
                high: rows[k].1,
            }
        },
{
    let (first, last) = (rows[0], rows.last());
    let (x, y) = (
        end_of(cost_at(rows, small, low, high), upper),
        end_of(cost_at(rows, large, low, high), upper),
    );
    assert(rows.last() == rows[rows.len() - 1]);
    assert(first.0 > 0 && last.0 > 0);
    assert(first.1 <= last.1);
    if rows[0].0 < small < rows.last().0 {
        lemma_between(rows, small);
    }
    if first.0 < large < last.0 {
        lemma_between(rows, large);
    }
    let below = if upper {
        low as nat
    } else {
        high as nat
    };
    let beyond = if upper {
        high as nat
    } else {
        low as nat
    };
    if small <= first.0 {
        let other = if large <= first.0 {
            large as int
        } else {
            first.0 as int
        };
        lemma_scaled_end(first.1 as int, small as int, first.0 as int, other, below);
        if large > first.0 {
            let floor = (first.1 as int, 1int);
            if large >= last.0 {
                lemma_scaled_end(last.1 as int, last.0 as int, last.0 as int, large as int, beyond);
                let top = (last.1 as int, 1int);
                lemma_at_most_transitive(floor, top, y);
            } else {
                let k = row_at_least(rows, large);
                assert(first.1 <= rows[k - 1].1 <= rows[k].1);
            }
            lemma_at_most_transitive(x, floor, y);
        }
    } else if small >= last.0 {
        lemma_scaled_end(last.1 as int, small as int, last.0 as int, large as int, beyond);
    } else {
        let j = row_at_least(rows, small);
        if large >= last.0 {
            lemma_scaled_end(last.1 as int, last.0 as int, last.0 as int, large as int, beyond);
            assert(rows[j].1 <= last.1);
            assert(rows[j - 1].1 <= last.1);
            let top = (last.1 as int, 1int);
            lemma_at_most_transitive(x, top, y);
        } else {
            let k = row_at_least(rows, large);
            assert(j <= k) by {
                if k < j {
                    if k < j - 1 {
                        assert(rows[k].0 < rows[j - 1].0);
                    }
                }
            }
            if j < k {
                assert(rows[j].1 <= rows[k].1);
                assert(rows[j - 1].1 <= rows[k - 1].1);
            }
        }
    }
}

// ---- sizing ---------------------------------------------------------------

/// What a compiled model costs at each point besides the solve, in microseconds: at
/// least, and at most.
pub const COMPILED_LOW: u64 = 6;

pub const COMPILED_HIGH: u64 = 200;

/// What a diode or a transistor among the primitives costs at each point.
pub const NONLINEAR_LOW: u64 = 2;

pub const NONLINEAR_HIGH: u64 = 40;

/// By how much a transient run exceeds the points that its card asks for, in tenths: at
/// least, and at most.
pub const SPREAD_LOW: u64 = 10;

pub const SPREAD_HIGH: u64 = 15;

/// How many points an analysis evaluates.
#[derive(Clone, Copy, Debug, PartialEq, Eq, Structural)]
pub enum Points {
    /// As many as this.
    Exact(usize),
    /// At least as many as this; a transient run adds points where it has to.
    Adaptive(usize),
}

/// What a run is about to solve.
#[derive(Clone, Copy, Debug, PartialEq, Eq)]
pub struct Sizing {
    pub analysis: Analysis,
    pub devices: usize,
    /// Of the devices, those that place a compiled model.
    pub compiled: usize,
    /// Of the devices, the diodes and transistors among the primitives.
    pub nonlinear_primitives: usize,
    /// The nets of the deck.
    pub nodes: usize,
    /// The rows of the matrix.
    pub unknowns: usize,
    pub points: Points,
}

/// What a run costs: the solve at each point, from its low to its high end, the models
/// to evaluate there, and the operating point that it starts from.
#[derive(Clone, Copy, Debug, PartialEq, Eq)]
pub struct Estimate {
    /// The circuit whose cost is the low end of a solve, and the one whose cost is the
    /// high end.
    pub solve: (Cost, Cost),
    /// The same for the operating point solved first, where there is one.
    pub operating_point: Option<(Cost, Cost)>,
    pub compiled: usize,
    pub nonlinear_primitives: usize,
    pub points: Points,
}

/// The cost of a solve on the path that is taken.
pub open spec fn path_cost(analysis: Analysis, unknowns: usize, sparse: bool) -> (Cost, Cost) {
    if sparse {
        (
            cost_at(ladder_rows(analysis), unknowns, 1, 2),
            cost_at(mesh_rows(analysis), unknowns, 1, 2),
        )
    } else {
        (
            cost_at(dense_rows(analysis), unknowns, 2, 3),
            cost_at(dense_rows(analysis), unknowns, 2, 3),
        )
    }
}

fn solve_cost(analysis: Analysis, unknowns: usize, sparse: bool) -> (r: (Cost, Cost))
    ensures
        r == path_cost(analysis, unknowns, sparse),
{
    proof {
        every_table_ascends(analysis);
    }
    if sparse {
        (
            bracket_with(unknowns, &ladder_table(analysis), 1, 2),
            bracket_with(unknowns, &mesh_table(analysis), 1, 2),
        )
    } else {
        let cost = bracket(unknowns, &dense_table(analysis));
        (cost, cost)
    }
}

/// Whether the matrix of an analysis is complex.
pub open spec fn is_complex(analysis: Analysis) -> bool {
    analysis == Analysis::Ac || analysis == Analysis::Noise
}

/// The bytes of three dense matrices of so many rows.
pub open spec fn dense_bytes(analysis: Analysis, unknowns: usize) -> int {
    3 * (if is_complex(analysis) {
        16int
    } else {
        8int
    }) * unknowns * unknowns
}

/// How the points are spelled.
pub open spec fn points_text(points: Points) -> Seq<char> {
    match points {
        Points::Exact(n) => if n == 1 {
            "1 point"@
        } else {
            decimal(n as nat) + " points"@
        },
        Points::Adaptive(n) => "~"@ + decimal(n as nat) + " points (adaptive, "@ + decimal(n as nat)
            + " is the card's floor)"@,
    }
}

/// The line about the size of a run.
pub open spec fn size_text(s: Sizing) -> Seq<char> {
    let compiled = if s.compiled > 0 {
        " ("@ + decimal(s.compiled as nat) + " compiled)"@
    } else {
        Seq::empty()
    };
    let aux = if s.unknowns >= s.nodes {
        (s.unknowns - s.nodes) as nat
    } else {
        0
    };
    "[va-cli] circuit: "@ + decimal(s.devices as nat) + " device(s)"@ + compiled + ", "@ + decimal(
        s.unknowns as nat,
    ) + " unknown(s) ("@ + decimal(s.nodes as nat) + " net(s) + "@ + decimal(aux)
        + " auxiliary row(s)), "@ + points_text(s.points)
}

/// The line about the cost of a run.
pub open spec fn cost_text(s: Sizing, solver: Solver, time: Seq<char>) -> Seq<char> {
    if takes_sparse(solver, s.unknowns) {
        "[va-cli] estimate: "@ + time + " of solve, sparse matrix — rough, sparse LU scaled from bench-scale (RC ladder to RC mesh) on an i7-1185G7"@
    } else {
        "[va-cli] estimate: "@ + time + " of solve, "@ + bytes_text(
            dense_bytes(s.analysis, s.unknowns) as nat,
        ) + " of matrix — rough, dense LU scaled from bench-scale on an i7-1185G7"@
    }
}

/// The part is a compiled model, the costly kind to evaluate.
pub open spec fn is_compiled_part(part: Part) -> bool {
    part is Compiled
}

/// The part is a built-in primitive that is not linear.
pub open spec fn is_nonlinear_part(part: Part) -> bool {
    part is Diode || part is Transistor
}

/// How many of the parts are of a sort.
pub open spec fn part_count(parts: Seq<Part>, sort: spec_fn(Part) -> bool) -> nat
    decreases parts.len(),
{
    if parts.len() == 0 {
        0
    } else {
        part_count(parts.drop_last(), sort) + (if sort(parts.last()) {
            1nat
        } else {
            0
        })
    }
}

/// The size of a run over the parts of a circuit.
pub fn sizing(
    analysis: Analysis,
    parts: &Vec<Part>,
    nodes: usize,
    unknowns: usize,
    points: Points,
) -> (r: Sizing)
    ensures
        r.analysis == analysis,
        r.devices == parts@.len(),
        r.compiled == part_count(parts@, |part: Part| is_compiled_part(part)),
        r.nonlinear_primitives == part_count(parts@, |part: Part| is_nonlinear_part(part)),
        r.nodes == nodes,
        r.unknowns == unknowns,
        r.points == points,
{
    let mut compiled: usize = 0;
    let mut nonlinear_primitives: usize = 0;
    let mut i: usize = 0;
    while i < parts.len()
        invariant
            i <= parts@.len(),
            compiled == part_count(parts@.take(i as int), |part: Part| is_compiled_part(part)),
            nonlinear_primitives == part_count(
                parts@.take(i as int),
                |part: Part| is_nonlinear_part(part),
            ),
            compiled <= i,
            nonlinear_primitives <= i,
        decreases parts@.len() - i,
    {
        proof {
            assert(parts@.take(i + 1).drop_last() =~= parts@.take(i as int));
        }
        match &parts[i] {
            Part::Compiled { .. } => {
                compiled += 1;
            },
            Part::Diode { .. } | Part::Transistor { .. } => {
                nonlinear_primitives += 1;
            },
            _ => {},
        }
        i += 1;
    }
    assert(parts@.take(i as int) =~= parts@);
    Sizing { analysis, devices: parts.len(), compiled, nonlinear_primitives, nodes, unknowns, points }
}

/// `r` are the ends of the estimate of a solve: the low end of the one cost and the high
/// end of the other, put in order.
pub open spec fn are_ends<E: Fn(Cost, bool) -> Real>(
    end: E,
    pair: (Cost, Cost),
    r: (Real, Real),
) -> bool {
    exists|lo: Real, hi: Real| #[trigger]
        call_ensures(end, (pair.0, false), lo) && #[trigger] call_ensures(end, (pair.1, true), hi)
            && r == (if hi.lt(lo) {
            (hi, lo)
        } else {
            (lo, hi)
        })
}

fn ends_of<E: Fn(Cost, bool) -> Real>(pair: (Cost, Cost), end: &E) -> (r: (Real, Real))
    requires
        forall|c: Cost, upper: bool| #[trigger] call_requires(*end, (c, upper)),
    ensures
        are_ends(*end, pair, r),
{
    let lo = end(pair.0, false);
    let hi = end(pair.1, true);
    if hi.less(lo) {
        (hi, lo)
    } else {
        (lo, hi)
    }
}

/// `start` is the cost of the operating point that a run solves first: nothing where it
/// solves none.
pub open spec fn is_start<E: Fn(Cost, bool) -> Real>(
    s: Sizing,
    solver: Solver,
    end: E,
    start: (Real, Real),
) -> bool {
    if is_complex(s.analysis) {
        are_ends(
            end,
            path_cost(Analysis::Dc, s.unknowns, takes_sparse(solver, s.unknowns)),
            start,
        )
    } else {
        start == (Real { bits: 0 }, Real { bits: 0 })
    }
}

/// `each` is the cost of a point: that of the solve, of the compiled models, and of the
/// primitives that are not linear.
pub open spec fn is_per_point<M: Fn(u64, usize) -> Real, P: Fn(Real, Real) -> Real>(
    s: Sizing,
    upper: bool,
    solve: Real,
    evaluate: M,
    plus: P,
    each: Real,
) -> bool {
    let (compiled, primitive) = if upper {
        (COMPILED_HIGH, NONLINEAR_HIGH)
    } else {
        (COMPILED_LOW, NONLINEAR_LOW)
    };
    exists|models: Real, primitives: Real, some: Real|
        {
            &&& call_ensures(evaluate, (compiled, s.compiled), models)
            &&& call_ensures(evaluate, (primitive, s.nonlinear_primitives), primitives)
            &&& #[trigger] call_ensures(plus, (solve, models), some)
            &&& #[trigger] call_ensures(plus, (some, primitives), each)
        }
}

/// `points` is the number of points at this end of the estimate.
pub open spec fn is_point_count<C: Fn(usize, u64) -> Real>(
    s: Sizing,
    upper: bool,
    count: C,
    points: Real,
) -> bool {
    match s.points {
        Points::Exact(n) => call_ensures(count, (n, 10), points),
        Points::Adaptive(n) => call_ensures(
            count,
            (
                n,
                if upper {
                    SPREAD_HIGH
                } else {
                    SPREAD_LOW
                },
            ),
            points,
        ),
    }
}

/// `r` are the seconds at one end of the estimate.
pub open spec fn is_side<
    M: Fn(u64, usize) -> Real,
    C: Fn(usize, u64) -> Real,
    P: Fn(Real, Real) -> Real,
    T: Fn(Real, Real, Real) -> Real,
>(
    s: Sizing,
    upper: bool,
    solve: Real,
    start: Real,
    evaluate: M,
    count: C,
    plus: P,
    total: T,
    r: Real,
) -> bool {
    exists|each: Real, points: Real| #[trigger]
        is_per_point(s, upper, solve, evaluate, plus, each) && #[trigger] is_point_count(
            s,
            upper,
            count,
            points,
        ) && call_ensures(total, (each, points, start), r)
}

/// `r` are the seconds that a run takes, from the low to the high end of the estimate.
pub open spec fn is_seconds<
    E: Fn(Cost, bool) -> Real,
    M: Fn(u64, usize) -> Real,
    C: Fn(usize, u64) -> Real,
    P: Fn(Real, Real) -> Real,
    T: Fn(Real, Real, Real) -> Real,
>(
    s: Sizing,
    solver: Solver,
    end: E,
    evaluate: M,
    count: C,
    plus: P,
    total: T,
    r: (Real, Real),
) -> bool {
    let path = path_cost(s.analysis, s.unknowns, takes_sparse(solver, s.unknowns));
    exists|solve: (Real, Real), start: (Real, Real)|
        {
            &&& #[trigger] are_ends(end, path, solve)
            &&& #[trigger] is_start(s, solver, end, start)
            &&& is_side(s, false, solve.0, start.0, evaluate, count, plus, total, r.0)
            &&& is_side(s, true, solve.1, start.1, evaluate, count, plus, total, r.1)
        }
}

impl Sizing {
    /// The rows of the matrix that are no nets of the deck.
    pub fn auxiliary(&self) -> (r: usize)
        ensures
            r == (if self.unknowns >= self.nodes {
                self.unknowns - self.nodes
            } else {
                0
            }),
    {
        if self.unknowns >= self.nodes {
            self.unknowns - self.nodes
        } else {
            0
        }
    }

    /// The memory of the dense matrices, in bytes: three of them, twice as wide for an
    /// analysis with a complex one.
    pub fn matrix_bytes(&self) -> (r: u64)
        requires
            dense_bytes(self.analysis, self.unknowns) <= u64::MAX,
        ensures
            r == dense_bytes(self.analysis, self.unknowns),
    {
        let width: u64 = match self.analysis {
            Analysis::Ac => 16,
            Analysis::Noise => 16,
            Analysis::Dc => 8,
            Analysis::Transient => 8,
        };
        let dim: u64 = self.unknowns as u64;
        proof {
            let w = width as int;
            let d = dim as int;
            assert(dense_bytes(self.analysis, self.unknowns) == 3 * w * d * d);
            assert(3 * w * d >= 0) by (nonlinear_arith)
                requires
                    w >= 8,
                    d >= 0,
            ;
            assert(3 * w * d <= 3 * w * d * d || 3 * w * d == 0) by (nonlinear_arith)
                requires
                    w >= 8,
                    d >= 0,
            ;
        }
        3 * width * dim * dim
    }

    /// What the run costs on the path that the solver takes for its size.
    pub fn cost_with(&self, solver: Solver) -> (r: Estimate)
        ensures
            r.solve == path_cost(
                self.analysis,
                self.unknowns,
                takes_sparse(solver, self.unknowns),
            ),
            r.operating_point == (if is_complex(self.analysis) {
                Some(
                    path_cost(
                        Analysis::Dc,
                        self.unknowns,
                        takes_sparse(solver, self.unknowns),
                    ),
                )
            } else {
                None
            }),
            r.compiled == self.compiled,
            r.nonlinear_primitives == self.nonlinear_primitives,
            r.points == self.points,
    {
        let sparse = solver.uses_sparse(self.unknowns);
        let operating_point = match self.analysis {
            Analysis::Ac => Some(solve_cost(Analysis::Dc, self.unknowns, sparse)),
            Analysis::Noise => Some(solve_cost(Analysis::Dc, self.unknowns, sparse)),
            Analysis::Dc => None,
            Analysis::Transient => None,
        };
        Estimate {
            solve: solve_cost(self.analysis, self.unknowns, sparse),
            operating_point,
            compiled: self.compiled,
            nonlinear_primitives: self.nonlinear_primitives,
            points: self.points,
        }
    }

    /// The seconds that a run takes on the path that suits its size.
    pub fn seconds<
        E: Fn(Cost, bool) -> Real,
        M: Fn(u64, usize) -> Real,
        C: Fn(usize, u64) -> Real,
        P: Fn(Real, Real) -> Real,
        T: Fn(Real, Real, Real) -> Real,
    >(&self, end: &E, evaluate: &M, count: &C, plus: &P, total: &T) -> (r: (Real, Real))
        requires
            forall|c: Cost, upper: bool| #[trigger] call_requires(*end, (c, upper)),
            forall|micros: u64, n: usize| #[trigger] call_requires(*evaluate, (micros, n)),
            forall|n: usize, tenths: u64| #[trigger] call_requires(*count, (n, tenths)),
            forall|a: Real, b: Real| #[trigger] call_requires(*plus, (a, b)),
            forall|a: Real, b: Real, c: Real| #[trigger] call_requires(*total, (a, b, c)),
        ensures
            is_seconds(*self, Solver::Auto, *end, *evaluate, *count, *plus, *total, r),
    {
        self.seconds_with(Solver::Auto, end, evaluate, count, plus, total)
    }

    /// The seconds that a run takes, from the low to the high end of the estimate. `end`
    /// gives an end of a cost, low or high, and `evaluate` what so many models cost that
    /// take so many microseconds each, both in milliseconds; `count` gives so many points
    /// times so many tenths, and `total` the seconds that so many milliseconds per point
    /// come to over so many points and so many milliseconds more.
    pub fn seconds_with<
        E: Fn(Cost, bool) -> Real,
        M: Fn(u64, usize) -> Real,
        C: Fn(usize, u64) -> Real,
        P: Fn(Real, Real) -> Real,
        T: Fn(Real, Real, Real) -> Real,
    >(
        &self,
        solver: Solver,
        end: &E,
        evaluate: &M,
        count: &C,
        plus: &P,
        total: &T,
    ) -> (r: (Real, Real))
        requires
            forall|c: Cost, upper: bool| #[trigger] call_requires(*end, (c, upper)),
            forall|micros: u64, n: usize| #[trigger] call_requires(*evaluate, (micros, n)),
            forall|n: usize, tenths: u64| #[trigger] call_requires(*count, (n, tenths)),
            forall|a: Real, b: Real| #[trigger] call_requires(*plus, (a, b)),
            forall|a: Real, b: Real, c: Real| #[trigger] call_requires(*total, (a, b, c)),
        ensures
            is_seconds(*self, solver, *end, *evaluate, *count, *plus, *total, r),
    {
        let e = self.cost_with(solver);
        let solve = ends_of(e.solve, end);
        let start = match e.operating_point {
            Some(pair) => ends_of(pair, end),
            None => (Real::zero(), Real::zero()),
        };
        let lo = self.side_seconds(false, solve.0, start.0, evaluate, count, plus, total);
        let hi = self.side_seconds(true, solve.1, start.1, evaluate, count, plus, total);
        let ghost path = path_cost(
            self.analysis,
            self.unknowns,
            takes_sparse(solver, self.unknowns),
        );
        assert(are_ends(*end, path, solve));
        assert(is_start(*self, solver, *end, start));
        (lo, hi)
    }

    fn side_seconds<
        M: Fn(u64, usize) -> Real,
        C: Fn(usize, u64) -> Real,
        P: Fn(Real, Real) -> Real,
        T: Fn(Real, Real, Real) -> Real,
    >(
        &self,
        upper: bool,
        solve: Real,
        start: Real,
        evaluate: &M,
        count: &C,
        plus: &P,
        total: &T,
    ) -> (r: Real)
        requires
            forall|micros: u64, n: usize| #[trigger] call_requires(*evaluate, (micros, n)),
            forall|n: usize, tenths: u64| #[trigger] call_requires(*count, (n, tenths)),
            forall|a: Real, b: Real| #[trigger] call_requires(*plus, (a, b)),
            forall|a: Real, b: Real, c: Real| #[trigger] call_requires(*total, (a, b, c)),
        ensures
            is_side(*self, upper, solve, start, *evaluate, *count, *plus, *total, r),
    {
        let (compiled, primitive): (u64, u64) = if upper {
            (COMPILED_HIGH, NONLINEAR_HIGH)
        } else {
            (COMPILED_LOW, NONLINEAR_LOW)
        };
        let models = evaluate(compiled, self.compiled);
        let primitives = evaluate(primitive, self.nonlinear_primitives);
        let some = plus(solve, models);
        let each = plus(some, primitives);
        let points = match self.points {
            Points::Exact(n) => count(n, 10),
            Points::Adaptive(n) => count(
                n,
                if upper {
                    SPREAD_HIGH
                } else {
                    SPREAD_LOW
                },
            ),
        };
        assert(is_per_point(*self, upper, solve, *evaluate, *plus, each)) by {
            assert(call_ensures(*plus, (solve, models), some));
        }
        assert(is_point_count(*self, upper, *count, points));
        total(each, points, start)
    }

    /// The lines about a run on the path that suits its size.
    pub fn lines(&self, time: &str) -> (r: (String, String))
        requires
            self.unknowns >= SPARSE_THRESHOLD || dense_bytes(self.analysis, self.unknowns)
                <= u64::MAX,
        ensures
            r.0@ == size_text(*self),
            r.1@ == cost_text(*self, Solver::Auto, time@),
    {
        self.lines_with(Solver::Auto, time)
    }

    /// The lines about a run: what is solved, and what it is expected to cost. `time`
    /// spells the time it takes.
    pub fn lines_with(&self, solver: Solver, time: &str) -> (r: (String, String))
        requires
            takes_sparse(solver, self.unknowns) || dense_bytes(self.analysis, self.unknowns)
                <= u64::MAX,
        ensures
            r.0@ == size_text(*self),
            r.1@ == cost_text(*self, solver, time@),
    {
        let points = match self.points {
            Points::Exact(n) => if n == 1 {
                "1 point".to_owned()
            } else {
                let mut p = decimal_text(n as u64);
                p.append(" points");
                p
            },
            Points::Adaptive(n) => {
                let mut p = "~".to_owned();
                p.append(decimal_text(n as u64).as_str());
                p.append(" points (adaptive, ");
                p.append(decimal_text(n as u64).as_str());
                p.append(" is the card's floor)");
                p
            },
        };
        let mut compiled = String::new();
        if self.compiled > 0 {
            compiled = " (".to_owned();
            compiled.append(decimal_text(self.compiled as u64).as_str());
            compiled.append(" compiled)");
        }
        let mut what = "[va-cli] circuit: ".to_owned();
        what.append(decimal_text(self.devices as u64).as_str());
        what.append(" device(s)");
        what.append(compiled.as_str());
        what.append(", ");
        what.append(decimal_text(self.unknowns as u64).as_str());
        what.append(" unknown(s) (");
        what.append(decimal_text(self.nodes as u64).as_str());
        what.append(" net(s) + ");
        what.append(decimal_text(self.auxiliary() as u64).as_str());
        what.append(" auxiliary row(s)), ");
        what.append(points.as_str());

        let mut cost = "[va-cli] estimate: ".to_owned();
        cost.append(time);
        if solver.uses_sparse(self.unknowns) {
            cost.append(" of solve, sparse matrix — rough, sparse LU scaled from bench-scale (RC ladder to RC mesh) on an i7-1185G7");
        } else {
            cost.append(" of solve, ");
            cost.append(bytes(self.matrix_bytes()).as_str());
            cost.append(" of matrix — rough, dense LU scaled from bench-scale on an i7-1185G7");
        }
        (what, cost)
    }
}

/// Without a choice of solver a run is quoted on the path that it takes: the dense one
/// below the threshold, the sparse one from there on.
pub proof fn the_estimate_follows_the_solver(unknowns: usize)
    ensures
        unknowns < SPARSE_THRESHOLD ==> takes_sparse(Solver::Auto, unknowns) == takes_sparse(
            Solver::Dense,
            unknowns,
        ),
        unknowns >= SPARSE_THRESHOLD ==> takes_sparse(Solver::Auto, unknowns) == takes_sparse(
            Solver::Sparse,
            unknowns,
        ),
{
}

// ---- times ----------------------------------------------------------------

/// The unit of a range of times.
#[derive(Clone, Copy, Debug, PartialEq, Eq, Structural)]
pub enum TimeUnit {
    Microseconds,
    Milliseconds,
    Seconds,
    Minutes,
    Hours,
}

/// The encodings of the times, in seconds, from which on a larger unit is taken: one
/// thousandth, one, 120 and 7200.
pub const MILLISECOND: u64 = 0x3f50_624d_d2f1_a9fc;

pub const TWO_MINUTES: u64 = 0x405e_0000_0000_0000;

pub const TWO_HOURS: u64 = 0x40bc_2000_0000_0000;

/// The encodings of the numbers from which on a decimal less is spelled: a tenth, ten.
pub const TENTH: u64 = 0x3fb9_9999_9999_999a;

pub const TEN: u64 = 0x4024_0000_0000_0000;

/// The unit of a range: the one that keeps its upper end, in seconds, legible.
pub open spec fn unit_for(hi: Real) -> TimeUnit {
    if hi.lt(Real { bits: MILLISECOND }) {
        TimeUnit::Microseconds
    } else if hi.lt(Real { bits: crate::number::ONE }) {
        TimeUnit::Milliseconds
    } else if hi.lt(Real { bits: TWO_MINUTES }) {
        TimeUnit::Seconds
    } else if hi.lt(Real { bits: TWO_HOURS }) {
        TimeUnit::Minutes
    } else {
        TimeUnit::Hours
    }
}

/// More decimals than this are never needed: every positive number that the encoding
/// holds shows a digit within them.
pub const MOST_DECIMALS: usize = 324;

/// The spelling has a digit other than zero.
pub open spec fn reads_nonzero(text: Seq<char>) -> bool {
    exists|i: int| 0 <= i < text.len() && '1' <= #[trigger] text[i] <= '9'
}

/// Spelled with so many decimals, the number shows a digit other than zero, or shows none.
pub open spec fn shows<F: Fn(usize) -> String>(spell: F, digits: usize, nonzero: bool) -> bool {
    exists|text: String| #[trigger]
        call_ensures(spell, (digits,), text) && reads_nonzero(text@) == nonzero
}

/// `digits` are the decimals of a range: as many as its lower end, in the unit of the
/// range, needs. From ten on it needs none, from a tenth on one; below a tenth two, or as
/// many more as it takes not to read as zero. `spell` spells the lower end with so many
/// decimals.
pub open spec fn are_decimals<F: Fn(usize) -> String>(lo: Real, spell: F, digits: usize) -> bool {
    if lo.lt(Real { bits: TENTH }) {
        &&& 2 <= digits <= MOST_DECIMALS
        &&& !(Real { bits: 0 }).lt(lo) ==> digits == 2
        &&& forall|fewer: usize|
            2 <= fewer < digits ==> #[trigger] shows(spell, fewer, false)
        &&& (Real { bits: 0 }).lt(lo) && digits < MOST_DECIMALS ==> shows(spell, digits, true)
    } else if lo.lt(Real { bits: TEN }) {
        digits == 1
    } else {
        digits == 0
    }
}

impl TimeUnit {
    /// The unit of a range whose upper end is so many seconds.
    pub fn of(hi: Real) -> (r: TimeUnit)
        ensures
            r == unit_for(hi),
    {
        if hi.less(Real::from_bits(MILLISECOND)) {
            TimeUnit::Microseconds
        } else if hi.less(Real::one()) {
            TimeUnit::Milliseconds
        } else if hi.less(Real::from_bits(TWO_MINUTES)) {
            TimeUnit::Seconds
        } else if hi.less(Real::from_bits(TWO_HOURS)) {
            TimeUnit::Minutes
        } else {
            TimeUnit::Hours
        }
    }

    /// How the unit is written.
    pub open spec fn name(self) -> Seq<char> {
        match self {
            TimeUnit::Microseconds => "us"@,
            TimeUnit::Milliseconds => "ms"@,
            TimeUnit::Seconds => "s"@,
            TimeUnit::Minutes => "min"@,
            TimeUnit::Hours => "h"@,
        }
    }
}

fn shows_digit(text: &str) -> (r: bool)
    ensures
        r == reads_nonzero(text@),
{
    let all = chars_of(text);
    let mut i: usize = 0;
    while i < all.len()
        invariant
            i <= all@.len(),
            all@ == text@,
            forall|j: int| 0 <= j < i ==> !('1' <= #[trigger] text@[j] <= '9'),
        decreases all@.len() - i,
    {
        let c = all[i];
        if '1' <= c && c <= '9' {
            assert('1' <= text@[i as int] <= '9');
            return true;
        }
        i += 1;
    }
    false
}

/// The decimals of a range with this lower end, which `spell` spells with so many.
pub fn decimals<F: Fn(usize) -> String>(lo: Real, spell: &F) -> (r: usize)
    requires
        forall|digits: usize| #[trigger] call_requires(*spell, (digits,)),
    ensures
        are_decimals(lo, *spell, r),
{
    if !lo.less(Real::from_bits(TENTH)) {
        return if lo.less(Real::from_bits(TEN)) {
            1
        } else {
            0
        };
    }
    if !Real::zero().less(lo) {
        return 2;
    }
    let mut digits: usize = 2;
    while digits < MOST_DECIMALS
        invariant
            2 <= digits <= MOST_DECIMALS,
            forall|digits: usize| #[trigger] call_requires(*spell, (digits,)),
            forall|fewer: usize|
                2 <= fewer < digits ==> #[trigger] shows(*spell, fewer, false),
            lo.lt(Real { bits: TENTH }),
            (Real { bits: 0 }).lt(lo),
        decreases MOST_DECIMALS - digits,
    {
        let text = spell(digits);
        if shows_digit(text.as_str()) {
            assert(shows(*spell, digits, true));
            return digits;
        }
        assert(shows(*spell, digits, false));
        digits += 1;
    }
    digits
}

/// The lower end of a range never reads as zero unless it is: spelled with the decimals of
/// the range it shows a digit, where with one decimal a tenth and more do, and with the
/// most decimals every positive number does.
pub proof fn the_low_end_does_not_read_as_zero<F: Fn(usize) -> String>(
    lo: Real,
    spell: F,
    digits: usize,
    text: String,
)
    requires
        are_decimals(lo, spell, digits),
        (Real { bits: 0 }).lt(lo),
        call_ensures(spell, (digits,), text),
        forall|d: usize, a: String, b: String|
            #![trigger call_ensures(spell, (d,), a), call_ensures(spell, (d,), b)]
            call_ensures(spell, (d,), a) && call_ensures(spell, (d,), b) ==> a@ == b@,
        forall|a: String| #[trigger]
            call_ensures(spell, (MOST_DECIMALS,), a) ==> reads_nonzero(a@),
        !lo.lt(Real { bits: TENTH }) ==> forall|d: usize, a: String|
            d <= 1 && #[trigger] call_ensures(spell, (d,), a) && (d == 1 || !lo.lt(
                Real { bits: TEN },
            )) ==> reads_nonzero(a@),
    ensures
        reads_nonzero(text@),
{
}

/// `text` is a range of times: the two ends, spelled with the decimals that the lower one
/// needs, and the unit, which is the upper one's.
pub open spec fn is_time_range<L: Fn(usize) -> String, H: Fn(usize) -> String>(
    lo: Real,
    hi: Real,
    spell_lo: L,
    spell_hi: H,
    text: Seq<char>,
) -> bool {
    exists|digits: usize, low: String, high: String|
        {
            &&& are_decimals(lo, spell_lo, digits)
            &&& #[trigger] call_ensures(spell_lo, (digits,), low)
            &&& #[trigger] call_ensures(spell_hi, (digits,), high)
            &&& text == low@ + "-"@ + high@ + " "@ + unit_for(hi).name()
        }
}

/// A range of times as text. `hi` is the upper end in seconds, and `lo` the lower one in
/// the unit that `hi` calls for; `spell_lo` and `spell_hi` spell the two ends in that unit
/// with so many decimals.
pub fn time_range<L: Fn(usize) -> String, H: Fn(usize) -> String>(
    lo: Real,
    hi: Real,
    spell_lo: &L,
    spell_hi: &H,
) -> (r: String)
    requires
        forall|digits: usize| #[trigger] call_requires(*spell_lo, (digits,)),
        forall|digits: usize| #[trigger] call_requires(*spell_hi, (digits,)),
    ensures
        is_time_range(lo, hi, *spell_lo, *spell_hi, r@),
{
    let digits = decimals(lo, spell_lo);
    let low = spell_lo(digits);
    let high = spell_hi(digits);
    let mut r = low.clone();
    r.append("-");
    r.append(high.as_str());
    r.append(" ");
    match TimeUnit::of(hi) {
        TimeUnit::Microseconds => r.append("us"),
        TimeUnit::Milliseconds => r.append("ms"),
        TimeUnit::Seconds => r.append("s"),
        TimeUnit::Minutes => r.append("min"),
        TimeUnit::Hours => r.append("h"),
    }
    r
}

} // verus!
