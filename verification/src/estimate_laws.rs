//! What the cost of a run rests on.
use crate::ac_laws::sums;
use crate::args::Analysis;
use crate::device::Part;
use crate::estimate::{
    are_decimals, are_ends, ascending, at_most, bracket, bracket_with, decimals, dense_table,
    end_of, ends_in_order, is_compiled_part, is_nonlinear_part, ladder_table, mesh_table,
    is_per_point, is_point_count, is_seconds, is_side, is_start, part_count, path_cost,
    reads_nonzero, row_at_least, shows, sizing, takes_sparse, time_range, Cost, Estimate, Points,
    Sizing, Solver, TimeUnit, COMPILED_HIGH, COMPILED_LOW, MILLISECOND, NONLINEAR_HIGH,
    NONLINEAR_LOW, SPARSE_THRESHOLD, SPREAD_HIGH, TEN, TENTH, TWO_HOURS, TWO_MINUTES,
};
use crate::number::{Real, ONE};
use vstd::prelude::*;

verus! {

// ---- measured costs -------------------------------------------------------

/// Between two neighbouring measured sizes a cost lies between the costs measured there.
/// Up to the first size, and from the last one on, it is scaled from the cost measured
/// there by two powers of the ratio of the sizes, the lower end first.
pub proof fn a_cost_is_bracketed_by_its_neighbours(
    dim: usize,
    table: &Vec<(usize, u64)>,
    low: u32,
    high: u32,
    r: Cost,
    k: int,
)
    requires
        call_ensures(bracket_with, (dim, table, low, high), r),
        ascending(table@),
    ensures
        dim <= table@[0].0 ==> r == (Cost::Scaled {
            cost: table@[0].1,
            dim,
            of: table@[0].0,
            low: high,
            high: low,
        }),
        dim > table@[0].0 && dim >= table@[table@.len() - 1].0 ==> r == (Cost::Scaled {
            cost: table@[table@.len() - 1].1,
            dim,
            of: table@[table@.len() - 1].0,
            low,
            high,
        }),
        1 <= k < table@.len() && table@[k - 1].0 < dim <= table@[k].0 && dim < table@[table@.len()
            - 1].0 ==> r == (Cost::Between { low: table@[k - 1].1, high: table@[k].1 }),
{
    let rows = table@;
    if 1 <= k < rows.len() && rows[k - 1].0 < dim <= rows[k].0 && dim < rows[rows.len() - 1].0 {
        assert(rows[0].0 <= rows[k - 1].0) by {
            if k > 1 {
                assert(rows[0].0 < rows[k - 1].0);
            }
        }
        crate::estimate::the_bracket_rises(rows, dim, dim, low, high, false);
        let j = row_at_least(rows, dim);
        assert(j == k) by {
            if j < k {
                if j < k - 1 {
                    assert(rows[j].0 < rows[k - 1].0);
                }
            }
            if k < j {
                if k < j - 1 {
                    assert(rows[k].0 < rows[j - 1].0);
                }
            }
        }
    }
}

/// A larger circuit never costs less, at either end, and the low end is never above the
/// high one.
pub proof fn a_larger_circuit_costs_no_less(
    small: usize,
    large: usize,
    table: &Vec<(usize, u64)>,
    a: Cost,
    b: Cost,
    upper: bool,
)
    requires
        call_ensures(bracket, (small, table), a),
        call_ensures(bracket, (large, table), b),
        ascending(table@),
        small <= large,
    ensures
        at_most(end_of(a, upper), end_of(b, upper)),
        ends_in_order(a),
{
    crate::estimate::the_bracket_rises(table@, small, large, 2, 3, upper);
    crate::estimate::the_bracket_is_ordered(table@, small, 2, 3);
}

/// The sparse path is taken where it is asked for, and else from so many unknowns on; the
/// dense one where that is asked for.
pub proof fn the_path_follows_the_size(unknowns: usize, auto: bool, dense: bool, sparse: bool)
    requires
        call_ensures(Solver::uses_sparse, (Solver::Auto, unknowns), auto),
        call_ensures(Solver::uses_sparse, (Solver::Dense, unknowns), dense),
        call_ensures(Solver::uses_sparse, (Solver::Sparse, unknowns), sparse),
    ensures
        auto <==> unknowns >= SPARSE_THRESHOLD,
        !dense,
        sparse,
{
}

// ---- sizing ---------------------------------------------------------------

proof fn lemma_counted(parts: Seq<Part>, a: spec_fn(Part) -> bool, b: spec_fn(Part) -> bool)
    requires
        forall|p: Part| #[trigger] a(p) == b(p),
    ensures
        part_count(parts, a) == parts.filter(b).len(),
    decreases parts.len(),
{
    reveal(Seq::filter);
    if parts.len() > 0 {
        lemma_counted(parts.drop_last(), a, b);
        assert(a(parts.last()) == b(parts.last()));
    }
}

/// The size of a run counts its devices, the compiled ones among them, and the diodes and
/// transistors among the primitives.
pub proof fn a_run_counts_its_devices(
    analysis: Analysis,
    parts: &Vec<Part>,
    nodes: usize,
    unknowns: usize,
    points: Points,
    r: Sizing,
)
    requires
        call_ensures(sizing, (analysis, parts, nodes, unknowns, points), r),
    ensures
        r.devices == parts@.len(),
        r.compiled == parts@.filter(|p: Part| p is Compiled).len(),
        r.nonlinear_primitives == parts@.filter(|p: Part| p is Diode || p is Transistor).len(),
        r.analysis == analysis,
        r.nodes == nodes,
        r.unknowns == unknowns,
        r.points == points,
{
    lemma_counted(parts@, |p: Part| is_compiled_part(p), |p: Part| p is Compiled);
    lemma_counted(
        parts@,
        |p: Part| is_nonlinear_part(p),
        |p: Part| p is Diode || p is Transistor,
    );
}

/// The matrices of a complex analysis are twice as large as those of a real one of the same
/// size, and those of a circuit twice as large four times as large; one unknown of a real
/// analysis takes three numbers.
pub proof fn matrices_grow_with_the_square(a: &Sizing, b: &Sizing, x: u64, y: u64)
    requires
        call_ensures(Sizing::matrix_bytes, (a,), x),
        call_ensures(Sizing::matrix_bytes, (b,), y),
    ensures
        (a.analysis is Dc || a.analysis is Transient) && (b.analysis is Ac || b.analysis is Noise)
            && a.unknowns == b.unknowns ==> y == 2 * x,
        a.analysis == b.analysis && b.unknowns == 2 * a.unknowns ==> y == 4 * x,
        a.unknowns == 1 && (a.analysis is Dc || a.analysis is Transient) ==> x == 24,
{
    let n = a.unknowns as int;
    assert(48 * n * n == 2 * (24 * n * n)) by (nonlinear_arith);
    assert(24 * (2 * n) * (2 * n) == 4 * (24 * n * n)) by (nonlinear_arith);
    assert(48 * (2 * n) * (2 * n) == 4 * (48 * n * n)) by (nonlinear_arith);
    assert(24 * n * n == 24 * 1 * 1 || n != 1) by (nonlinear_arith);
}

/// The auxiliary rows of a run are its unknowns beyond the nets.
pub proof fn auxiliary_rows_are_no_nets(s: &Sizing, r: usize)
    requires
        call_ensures(Sizing::auxiliary, (s,), r),
        s.nodes <= s.unknowns,
    ensures
        s.nodes + r == s.unknowns,
{
}

/// An AC or a noise run starts from an operating point, which costs what a DC solve of the
/// same circuit does on the same path; no other run does.
pub proof fn a_small_signal_run_starts_from_an_operating_point(
    s: &Sizing,
    dc: &Sizing,
    solver: Solver,
    r: Estimate,
    d: Estimate,
)
    requires
        call_ensures(Sizing::cost_with, (s, solver), r),
        call_ensures(Sizing::cost_with, (dc, solver), d),
        dc.analysis is Dc,
        dc.unknowns == s.unknowns,
    ensures
        r.operating_point is Some <==> s.analysis is Ac || s.analysis is Noise,
        r.operating_point matches Some(cost) ==> cost == d.solve,
        r.points == s.points,
        r.compiled == s.compiled,
        r.nonlinear_primitives == s.nonlinear_primitives,
{
}

/// The seconds of a run: at each end the cost of a solve, of every compiled model and of
/// every diode and transistor, over the points of the run, and the cost of the operating
/// point that comes first, if one does. An adaptive run has more points at the high end.
pub proof fn a_run_costs_every_point<
    E: Fn(Cost, bool) -> Real,
    M: Fn(u64, usize) -> Real,
    C: Fn(usize, u64) -> Real,
    P: Fn(Real, Real) -> Real,
    T: Fn(Real, Real, Real) -> Real,
>(
    s: &Sizing,
    solver: Solver,
    end: &E,
    evaluate: &M,
    count: &C,
    plus: &P,
    total: &T,
    r: (Real, Real),
    val: spec_fn(Real) -> int,
    seconds: spec_fn(int, int, int) -> int,
) -> (ends: ((Real, Real), (Real, Real)))
    requires
        call_ensures(
            Sizing::seconds_with::<E, M, C, P, T>,
            (s, solver, end, evaluate, count, plus, total),
            r,
        ),
        forall|micros: u64, n: usize, x: Real| #[trigger]
            call_ensures(*evaluate, (micros, n), x) ==> val(x) == micros * n,
        forall|n: usize, tenths: u64, x: Real| #[trigger]
            call_ensures(*count, (n, tenths), x) ==> val(x) == n * tenths,
        sums(*plus, val),
        forall|a: Real, b: Real, c: Real, x: Real| #[trigger]
            call_ensures(*total, (a, b, c), x) ==> val(x) == seconds(val(a), val(b), val(c)),
    ensures
        ({
            let (solve, start) = ends;
            let n = match s.points {
                Points::Exact(n) => n,
                Points::Adaptive(n) => n,
            };
            let most = if s.points is Exact {
                10u64
            } else {
                SPREAD_HIGH
            };
            &&& val(r.0) == seconds(
                val(solve.0) + COMPILED_LOW * s.compiled + NONLINEAR_LOW * s.nonlinear_primitives,
                n * 10,
                val(start.0),
            )
            &&& val(r.1) == seconds(
                val(solve.1) + COMPILED_HIGH * s.compiled + NONLINEAR_HIGH * s.nonlinear_primitives,
                n * most,
                val(start.1),
            )
            &&& !(s.analysis is Ac || s.analysis is Noise) ==> start == (
                Real { bits: 0 },
                Real { bits: 0 },
            )
            &&& !solve.1.lt(solve.0) && !start.1.lt(start.0)
        }),
{
    let path = path_cost(s.analysis, s.unknowns, takes_sparse(solver, s.unknowns));
    assert(is_seconds(*s, solver, *end, *evaluate, *count, *plus, *total, r));
    let (solve, start) = choose|solve: (Real, Real), start: (Real, Real)|
        {
            &&& #[trigger] are_ends(*end, path, solve)
            &&& #[trigger] is_start(*s, solver, *end, start)
            &&& is_side(*s, false, solve.0, start.0, *evaluate, *count, *plus, *total, r.0)
            &&& is_side(*s, true, solve.1, start.1, *evaluate, *count, *plus, *total, r.1)
        };
    lemma_side(*s, false, solve.0, start.0, *evaluate, *count, *plus, *total, r.0, val, seconds);
    lemma_side(*s, true, solve.1, start.1, *evaluate, *count, *plus, *total, r.1, val, seconds);
    (solve, start)
}

proof fn lemma_side<
    M: Fn(u64, usize) -> Real,
    C: Fn(usize, u64) -> Real,
    P: Fn(Real, Real) -> Real,
    T: Fn(Real, Real, Real) -> Real,
>(
    s: Sizing,
    upper: bool,
    solve: Real,
    start: Real,
    evaluate: M,
    count: C,
    plus: P,
    total: T,
    r: Real,
    val: spec_fn(Real) -> int,
    seconds: spec_fn(int, int, int) -> int,
)
    requires
        is_side(s, upper, solve, start, evaluate, count, plus, total, r),
        forall|micros: u64, n: usize, x: Real| #[trigger]
            call_ensures(evaluate, (micros, n), x) ==> val(x) == micros * n,
        forall|n: usize, tenths: u64, x: Real| #[trigger]
            call_ensures(count, (n, tenths), x) ==> val(x) == n * tenths,
        sums(plus, val),
        forall|a: Real, b: Real, c: Real, x: Real| #[trigger]
            call_ensures(total, (a, b, c), x) ==> val(x) == seconds(val(a), val(b), val(c)),
    ensures
        ({
            let n = match s.points {
                Points::Exact(n) => n,
                Points::Adaptive(n) => n,
            };
            let most = if s.points is Exact || !upper {
                10u64
            } else {
                SPREAD_HIGH
            };
            let compiled = if upper {
                COMPILED_HIGH
            } else {
                COMPILED_LOW
            };
            let primitive = if upper {
                NONLINEAR_HIGH
            } else {
                NONLINEAR_LOW
            };
            val(r) == seconds(
                val(solve) + compiled * s.compiled + primitive * s.nonlinear_primitives,
                n * most,
                val(start),
            )
        }),
{
    let (each, points) = choose|each: Real, points: Real| #[trigger]
        is_per_point(s, upper, solve, evaluate, plus, each) && #[trigger] is_point_count(
            s,
            upper,
            count,
            points,
        ) && call_ensures(total, (each, points, start), r);
    let (compiled, primitive) = if upper {
        (COMPILED_HIGH, NONLINEAR_HIGH)
    } else {
        (COMPILED_LOW, NONLINEAR_LOW)
    };
    let (models, primitives, some) = choose|models: Real, primitives: Real, some: Real|
        {
            &&& call_ensures(evaluate, (compiled, s.compiled), models)
            &&& call_ensures(evaluate, (primitive, s.nonlinear_primitives), primitives)
            &&& #[trigger] call_ensures(plus, (solve, models), some)
            &&& #[trigger] call_ensures(plus, (some, primitives), each)
        };
    assert(val(some) == val(solve) + val(models));
    assert(val(each) == val(some) + val(primitives));
}

// ---- times ----------------------------------------------------------------

/// A time is written in the largest unit that keeps it legible: microseconds below a
/// millisecond, milliseconds below a second, seconds below two minutes, minutes below two
/// hours, and hours from there on.
pub proof fn a_time_has_its_unit(hi: Real, r: TimeUnit)
    requires
        call_ensures(TimeUnit::of, (hi,), r),
    ensures
        r is Microseconds <==> hi.lt(Real { bits: MILLISECOND }),
        r is Milliseconds <==> hi.lt(Real { bits: ONE }) && !hi.lt(Real { bits: MILLISECOND }),
        r is Seconds <==> hi.lt(Real { bits: TWO_MINUTES }) && !hi.lt(Real { bits: ONE }),
        r is Minutes <==> hi.lt(Real { bits: TWO_HOURS }) && !hi.lt(Real { bits: TWO_MINUTES }),
        r is Hours <==> !hi.lt(Real { bits: TWO_HOURS }),
{
}

/// A range of times is spelled with no decimals from ten on, with one from a tenth on, and
/// below that with two, or with as many more as it takes for the lower end to show a digit.
pub proof fn a_range_has_the_decimals_it_needs<F: Fn(usize) -> String>(
    lo: Real,
    spell: &F,
    r: usize,
    fewer: usize,
    text: String,
)
    requires
        call_ensures(decimals::<F>, (lo, spell), r),
        forall|d: usize, a: String, b: String|
            #![trigger call_ensures(*spell, (d,), a), call_ensures(*spell, (d,), b)]
            call_ensures(*spell, (d,), a) && call_ensures(*spell, (d,), b) ==> a@ == b@,
        2 <= fewer < r,
        call_ensures(*spell, (fewer,), text),
    ensures
        lo.lt(Real { bits: TENTH }),
        (Real { bits: 0 }).lt(lo),
        forall|i: int| 0 <= i < text@.len() ==> !('1' <= #[trigger] text@[i] && text@[i] <= '9'),
{
    assert(shows(*spell, fewer, false));
    let other = choose|other: String| #[trigger]
        call_ensures(*spell, (fewer,), other) && reads_nonzero(other@) == false;
    assert(other@ == text@);
    assert forall|i: int| 0 <= i < text@.len() implies !('1' <= #[trigger] text@[i] && text@[i]
        <= '9') by {
        assert(!reads_nonzero(text@));
    }
}

/// The number of decimals by the size of the lower end.
pub proof fn large_numbers_have_few_decimals<F: Fn(usize) -> String>(lo: Real, spell: &F, r: usize)
    requires
        call_ensures(decimals::<F>, (lo, spell), r),
    ensures
        r == 0 <==> !lo.lt(Real { bits: TENTH }) && !lo.lt(Real { bits: TEN }),
        r == 1 <==> !lo.lt(Real { bits: TENTH }) && lo.lt(Real { bits: TEN }),
        r >= 2 <==> lo.lt(Real { bits: TENTH }),
        r > 2 ==> (Real { bits: 0 }).lt(lo),
{
}

/// A range of times gives its lower end, then its upper one, both with the decimals that
/// the lower one needs, and the unit of the upper one.
pub proof fn a_range_gives_both_ends<L: Fn(usize) -> String, H: Fn(usize) -> String>(
    lo: Real,
    hi: Real,
    spell_lo: &L,
    spell_hi: &H,
    r: String,
) -> (parts: (usize, String, String))
    requires
        call_ensures(time_range::<L, H>, (lo, hi, spell_lo, spell_hi), r),
    ensures
        call_ensures(*spell_lo, (parts.0,), parts.1),
        call_ensures(*spell_hi, (parts.0,), parts.2),
        r@ == parts.1@ + "-"@ + parts.2@ + " "@ + (if hi.lt(Real { bits: MILLISECOND }) {
            "us"@
        } else if hi.lt(Real { bits: ONE }) {
            "ms"@
        } else if hi.lt(Real { bits: TWO_MINUTES }) {
            "s"@
        } else if hi.lt(Real { bits: TWO_HOURS }) {
            "min"@
        } else {
            "h"@
        }),
{
    let (digits, low, high) = choose|digits: usize, low: String, high: String|
        {
            &&& are_decimals(lo, *spell_lo, digits)
            &&& #[trigger] call_ensures(*spell_lo, (digits,), low)
            &&& #[trigger] call_ensures(*spell_hi, (digits,), high)
            &&& r@ == low@ + "-"@ + high@ + " "@ + crate::estimate::unit_for(hi).name()
        };
    (digits, low, high)
}

/// On the dense path both ends of a solve come from the dense table of the analysis, by the
/// second and the third power of the size outside it; on the sparse path the low end comes
/// from the ladder and the high one from the mesh, by the first and the second.
pub proof fn a_solve_is_read_from_the_tables_of_its_path(
    s: &Sizing,
    dense: Vec<(usize, u64)>,
    ladder: Vec<(usize, u64)>,
    mesh: Vec<(usize, u64)>,
    on_dense: Cost,
    on_ladder: Cost,
    on_mesh: Cost,
    a: Estimate,
    b: Estimate,
)
    requires
        call_ensures(dense_table, (s.analysis,), dense),
        call_ensures(ladder_table, (s.analysis,), ladder),
        call_ensures(mesh_table, (s.analysis,), mesh),
        call_ensures(bracket, (s.unknowns, &dense), on_dense),
        call_ensures(bracket_with, (s.unknowns, &ladder, 1, 2), on_ladder),
        call_ensures(bracket_with, (s.unknowns, &mesh, 1, 2), on_mesh),
        call_ensures(Sizing::cost_with, (s, Solver::Dense), a),
        call_ensures(Sizing::cost_with, (s, Solver::Sparse), b),
    ensures
        a.solve == (on_dense, on_dense),
        b.solve == (on_ladder, on_mesh),
{
}

} // verus!
