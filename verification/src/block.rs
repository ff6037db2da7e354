//! Complex linear equations as real ones.
//!
//! The equations `(G + j*W) X = B` over `n` complex unknowns become `2n` real ones:
//!
//! ```text
//! [ G  -W ] [ Re X ]   [ Re B ]
//! [ W   G ] [ Im X ] = [ Im B ]
//! ```
use crate::number::Real;
use vstd::prelude::*;

verus! {

/// The place in a matrix of `n` rows that the entry `(i, j)` is taken from.
pub open spec fn source_cell(n: int, i: int, j: int, transpose: bool) -> int {
    if transpose {
        j * n + i
    } else {
        i * n + j
    }
}

/// The four entries of the block matrix that come from one entry `(i, j)`.
pub open spec fn holds_entry(
    a: Seq<Real>,
    n: int,
    i: int,
    j: int,
    g: Real,
    w: Real,
) -> bool {
    let m = 2 * n;
    &&& a[i * m + j] == g
    &&& a[i * m + (n + j)] == w.opposite()
    &&& a[(n + i) * m + j] == w
    &&& a[(n + i) * m + (n + j)] == g
}

/// `a` is the block matrix of the two matrices, or of their transposes.
pub open spec fn is_block(
    a: Seq<Real>,
    g: Seq<Real>,
    w: Seq<Real>,
    n: int,
    transpose: bool,
) -> bool {
    &&& a.len() == (2 * n) * (2 * n)
    &&& forall|i: int, j: int|
        0 <= i < n && 0 <= j < n ==> #[trigger] holds_entry(
            a,
            n,
            i,
            j,
            g[source_cell(n, i, j, transpose)],
            w[source_cell(n, i, j, transpose)],
        )
}

proof fn lemma_in_matrix(width: int, row: int, col: int)
    requires
        0 <= row < width,
        0 <= col < width,
    ensures
        0 <= row * width + col < width * width,
{
    assert(0 <= row * width + col < width * width) by (nonlinear_arith)
        requires
            0 <= row < width,
            0 <= col < width,
    ;
}

proof fn lemma_apart(width: int, r: int, c: int, s: int, d: int)
    requires
        0 <= r < width,
        0 <= c < width,
        0 <= s < width,
        0 <= d < width,
        r != s || c != d,
    ensures
        r * width + c != s * width + d,
{
    crate::stamps::cells_are_distinct(width, r, c, s, d);
}

/// The block matrix of two matrices that are stored row by row, or of their transposes.
pub fn embed(g: &Vec<Real>, w: &Vec<Real>, n: usize, transpose: bool) -> (a: Vec<Real>)
    requires
        g@.len() == n * n,
        w@.len() == n * n,
        (2 * n) * (2 * n) <= usize::MAX,
    ensures
        is_block(a@, g@, w@, n as int, transpose),
{
    proof {
        assert(n * n <= (2 * n) * (2 * n)) by (nonlinear_arith)
            requires
                n >= 0,
        ;
        assert(2 * n <= (2 * n) * (2 * n)) by (nonlinear_arith)
            requires
                n >= 0,
        ;
    }
    let m: usize = 2 * n;
    let size: usize = m * m;
    let mut a: Vec<Real> = Vec::new();
    let mut k: usize = 0;
    while k < size
        invariant
            k <= size,
            a@.len() == k,
        decreases size - k,
    {
        a.push(Real::zero());
        k += 1;
    }
    let mut i: usize = 0;
    while i < n
        invariant
            i <= n,
            m == 2 * n,
            size == m * m,
            m * m <= usize::MAX,
            n * n <= usize::MAX,
            g@.len() == n * n,
            w@.len() == n * n,
            a@.len() == m * m,
            forall|p: int, q: int|
                0 <= p < i && 0 <= q < n ==> #[trigger] holds_entry(
                    a@,
                    n as int,
                    p,
                    q,
                    g@[source_cell(n as int, p, q, transpose)],
                    w@[source_cell(n as int, p, q, transpose)],
                ),
        decreases n - i,
    {
        let mut j: usize = 0;
        while j < n
            invariant
                i < n,
                j <= n,
                m == 2 * n,
                size == m * m,
                m * m <= usize::MAX,
                n * n <= usize::MAX,
                g@.len() == n * n,
                w@.len() == n * n,
                a@.len() == m * m,
                forall|p: int, q: int|
                    0 <= p <= i && 0 <= q < n && (p < i || q < j) ==> #[trigger] holds_entry(
                        a@,
                        n as int,
                        p,
                        q,
                        g@[source_cell(n as int, p, q, transpose)],
                        w@[source_cell(n as int, p, q, transpose)],
                    ),
            decreases n - j,
        {
            let ghost before = a@;
            proof {
                lemma_in_matrix(n as int, i as int, j as int);
                lemma_in_matrix(n as int, j as int, i as int);
                lemma_in_matrix(m as int, i as int, j as int);
                lemma_in_matrix(m as int, i as int, n + j);
                lemma_in_matrix(m as int, n + i, j as int);
                lemma_in_matrix(m as int, n + i, n + j);
                lemma_bounds(n as int, i as int, j as int);
                lemma_bounds(m as int, i as int, j as int);
                lemma_bounds(m as int, n + i, j as int);
            }
            let src: usize = if transpose {
                j * n + i
            } else {
                i * n + j
            };
            let gij = g[src];
            let wij = w[src];
            a.set(i * m + j, gij);
            a.set(i * m + (n + j), wij.negated());
            a.set((n + i) * m + j, wij);
            a.set((n + i) * m + (n + j), gij);
            proof {
                let mi = m as int;
                let ni = n as int;
                let ii = i as int;
                let jj = j as int;
                lemma_apart(mi, ii, jj, ii, ni + jj);
                lemma_apart(mi, ii, jj, ni + ii, jj);
                lemma_apart(mi, ii, jj, ni + ii, ni + jj);
                lemma_apart(mi, ii, ni + jj, ni + ii, jj);
                lemma_apart(mi, ii, ni + jj, ni + ii, ni + jj);
                lemma_apart(mi, ni + ii, jj, ni + ii, ni + jj);
                assert(holds_entry(a@, ni, ii, jj, gij, wij));
                assert forall|p: int, q: int|
                    0 <= p <= i && 0 <= q < n && (p < i || q < j + 1) implies #[trigger] holds_entry(
                    a@,
                    ni,
                    p,
                    q,
                    g@[source_cell(ni, p, q, transpose)],
                    w@[source_cell(ni, p, q, transpose)],
                ) by {
                    if p < i || q < j {
                        assert(holds_entry(
                            before,
                            ni,
                            p,
                            q,
                            g@[source_cell(ni, p, q, transpose)],
                            w@[source_cell(ni, p, q, transpose)],
                        ));
                        lemma_untouched(before, a@, ni, ii, jj, p, q);
                    }
                }
            }
            j += 1;
        }
        i += 1;
    }
    a
}

proof fn lemma_bounds(width: int, row: int, col: int)
    requires
        0 <= row,
        0 <= width,
        0 <= col,
    ensures
        0 <= row * width,
        row * width <= row * width + col,
{
    assert(0 <= row * width) by (nonlinear_arith)
        requires
            0 <= row,
            0 <= width,
    ;
}

/// Writing the four entries of one place leaves those of every other place alone.
proof fn lemma_untouched(
    before: Seq<Real>,
    after: Seq<Real>,
    n: int,
    i: int,
    j: int,
    p: int,
    q: int,
)
    requires
        0 <= i < n,
        0 <= j < n,
        0 <= p < n,
        0 <= q < n,
        p != i || q != j,
        before.len() == (2 * n) * (2 * n),
        after.len() == before.len(),
        forall|k: int|
            0 <= k < before.len() && k != i * (2 * n) + j && k != i * (2 * n) + (n + j) && k != (n
                + i) * (2 * n) + j && k != (n + i) * (2 * n) + (n + j) ==> after[k]
                == #[trigger] before[k],
    ensures
        ({
            let m = 2 * n;
            &&& after[p * m + q] == before[p * m + q]
            &&& after[p * m + (n + q)] == before[p * m + (n + q)]
            &&& after[(n + p) * m + q] == before[(n + p) * m + q]
            &&& after[(n + p) * m + (n + q)] == before[(n + p) * m + (n + q)]
        }),
{
    let m = 2 * n;
    lemma_in_matrix(m, p, q);
    lemma_in_matrix(m, p, n + q);
    lemma_in_matrix(m, n + p, q);
    lemma_in_matrix(m, n + p, n + q);
    lemma_all_apart(m, n, i, j, p, q);
    lemma_all_apart(m, n, i, j, p, n + q);
    lemma_all_apart(m, n, i, j, n + p, q);
    lemma_all_apart(m, n, i, j, n + p, n + q);
}

proof fn lemma_all_apart(m: int, n: int, i: int, j: int, r: int, c: int)
    requires
        m == 2 * n,
        0 <= i < n,
        0 <= j < n,
        0 <= r < m,
        0 <= c < m,
        !((r == i || r == n + i) && (c == j || c == n + j)),
    ensures
        r * m + c != i * m + j,
        r * m + c != i * m + (n + j),
        r * m + c != (n + i) * m + j,
        r * m + c != (n + i) * m + (n + j),
{
    lemma_apart(m, r, c, i, j);
    lemma_apart(m, r, c, i, n + j);
    lemma_apart(m, r, c, n + i, j);
    lemma_apart(m, r, c, n + i, n + j);
}

// ---- the two sides --------------------------------------------------------

/// The real parts, then the imaginary parts.
pub open spec fn stacked(z: Seq<(Real, Real)>, n: int) -> Seq<Real> {
    Seq::new(
        (2 * n) as nat,
        |k: int|
            if k < n {
                if k < z.len() {
                    z[k].0
                } else {
                    Real { bits: 0 }
                }
            } else if k - n < z.len() {
                z[k - n].1
            } else {
                Real { bits: 0 }
            },
    )
}

/// The complex numbers whose real parts come first and whose imaginary parts follow.
pub open spec fn unstacked(s: Seq<Real>, n: int) -> Seq<(Real, Real)> {
    Seq::new(n as nat, |k: int| (s[k], s[n + k]))
}

/// The right-hand side of the real equations.
pub fn embed_rhs(rhs: &Vec<(Real, Real)>, n: usize) -> (b: Vec<Real>)
    requires
        rhs@.len() <= n,
        2 * n <= usize::MAX,
    ensures
        b@ == stacked(rhs@, n as int),
{
    let mut b: Vec<Real> = Vec::new();
    let m: usize = 2 * n;
    let mut k: usize = 0;
    while k < m
        invariant
            m == 2 * n,
            k <= m,
            b@.len() == k,
            forall|i: int| 0 <= i < k ==> #[trigger] b@[i] == stacked(rhs@, n as int)[i],
        decreases m - k,
    {
        if k < n {
            if k < rhs.len() {
                b.push(rhs[k].0);
            } else {
                b.push(Real::zero());
            }
        } else if k - n < rhs.len() {
            b.push(rhs[k - n].1);
        } else {
            b.push(Real::zero());
        }
        k += 1;
    }
    assert(b@ =~= stacked(rhs@, n as int));
    b
}

/// The complex solution in a solution of the real equations.
pub fn split_solution(sol: &Vec<Real>, n: usize) -> (x: Vec<(Real, Real)>)
    requires
        2 * n <= sol@.len(),
    ensures
        x@ == unstacked(sol@, n as int),
{
    let total: usize = sol.len();
    let mut x: Vec<(Real, Real)> = Vec::new();
    let mut k: usize = 0;
    while k < n
        invariant
            total == sol@.len(),
            2 * n <= total,
            k <= n,
            x@.len() == k,
            forall|i: int| 0 <= i < k ==> #[trigger] x@[i] == (sol@[i], sol@[n + i]),
        decreases n - k,
    {
        x.push((sol[k], sol[n + k]));
        k += 1;
    }
    assert(x@ =~= unstacked(sol@, n as int));
    x
}

/// Splitting undoes stacking.
pub proof fn splitting_undoes_stacking(z: Seq<(Real, Real)>)
    ensures
        unstacked(stacked(z, z.len() as int), z.len() as int) == z,
{
    assert(unstacked(stacked(z, z.len() as int), z.len() as int) =~= z);
}

// ---- what the real equations say ------------------------------------------

/// A row of a matrix times a vector, over the first `upto` columns.
pub open spec fn row_times(
    a: Seq<Real>,
    width: int,
    row: int,
    val: spec_fn(Real) -> int,
    x: spec_fn(int) -> int,
    upto: int,
) -> int
    decreases upto,
{
    if upto <= 0 {
        0
    } else {
        row_times(a, width, row, val, x, upto - 1) + val(a[row * width + (upto - 1)]) * x(upto - 1)
    }
}

/// The real part of a row of `G + j*W` times a complex vector, whose real parts are the
/// first `n` entries of `x` and whose imaginary parts are the next `n`.
pub open spec fn real_part(
    g: Seq<Real>,
    w: Seq<Real>,
    n: int,
    i: int,
    transpose: bool,
    val: spec_fn(Real) -> int,
    x: spec_fn(int) -> int,
    upto: int,
) -> int
    decreases upto,
{
    if upto <= 0 {
        0
    } else {
        let k = source_cell(n, i, upto - 1, transpose);
        real_part(g, w, n, i, transpose, val, x, upto - 1) + val(g[k]) * x(upto - 1) - val(w[k])
            * x(n + upto - 1)
    }
}

/// The imaginary part of a row of `G + j*W` times a complex vector.
pub open spec fn imaginary_part(
    g: Seq<Real>,
    w: Seq<Real>,
    n: int,
    i: int,
    transpose: bool,
    val: spec_fn(Real) -> int,
    x: spec_fn(int) -> int,
    upto: int,
) -> int
    decreases upto,
{
    if upto <= 0 {
        0
    } else {
        let k = source_cell(n, i, upto - 1, transpose);
        imaginary_part(g, w, n, i, transpose, val, x, upto - 1) + val(w[k]) * x(upto - 1) + val(
            g[k],
        ) * x(n + upto - 1)
    }
}

proof fn lemma_split_row(
    a: Seq<Real>,
    width: int,
    row: int,
    n: int,
    val: spec_fn(Real) -> int,
    x: spec_fn(int) -> int,
    k: int,
)
    requires
        0 <= k <= n,
    ensures
        row_times(a, width, row, val, x, n) + row_tail(a, width, row, n, val, x, k) == row_times(
            a,
            width,
            row,
            val,
            x,
            n + k,
        ),
    decreases k,
{
    if k > 0 {
        lemma_split_row(a, width, row, n, val, x, k - 1);
        assert(n + k - 1 == n + (k - 1));
    }
}

/// A row of a matrix times a vector, over `upto` columns from the `n`-th on.
pub open spec fn row_tail(
    a: Seq<Real>,
    width: int,
    row: int,
    n: int,
    val: spec_fn(Real) -> int,
    x: spec_fn(int) -> int,
    upto: int,
) -> int
    decreases upto,
{
    if upto <= 0 {
        0
    } else {
        row_tail(a, width, row, n, val, x, upto - 1) + val(a[row * width + (n + upto - 1)]) * x(
            n + upto - 1,
        )
    }
}

proof fn lemma_real_row(
    a: Seq<Real>,
    g: Seq<Real>,
    w: Seq<Real>,
    n: int,
    transpose: bool,
    i: int,
    val: spec_fn(Real) -> int,
    x: spec_fn(int) -> int,
    k: int,
)
    requires
        is_block(a, g, w, n, transpose),
        0 <= i < n,
        0 <= k <= n,
        crate::reference::is_odd(val),
    ensures
        row_times(a, 2 * n, i, val, x, k) + row_tail(a, 2 * n, i, n, val, x, k) == real_part(
            g,
            w,
            n,
            i,
            transpose,
            val,
            x,
            k,
        ),
        row_times(a, 2 * n, n + i, val, x, k) + row_tail(a, 2 * n, n + i, n, val, x, k)
            == imaginary_part(g, w, n, i, transpose, val, x, k),
    decreases k,
{
    if k > 0 {
        lemma_real_row(a, g, w, n, transpose, i, val, x, k - 1);
        let s = source_cell(n, i, k - 1, transpose);
        assert(holds_entry(a, n, i, k - 1, g[s], w[s]));
        assert(n + k - 1 == n + (k - 1));
        assert(val(w[s].opposite()) == -val(w[s]));
        let v = val(w[s]);
        let y = x(n + k - 1);
        assert((-v) * y == -(v * y)) by (nonlinear_arith);
    }
}

/// The rows of the block matrix are the real and the imaginary parts of the complex
/// equations: a row times the stacked parts of a vector gives the part of the same row of
/// `G + j*W`, or of its transpose, times the vector.
pub proof fn block_rows_are_complex_rows(
    a: Seq<Real>,
    g: Seq<Real>,
    w: Seq<Real>,
    n: int,
    transpose: bool,
    i: int,
    val: spec_fn(Real) -> int,
    x: spec_fn(int) -> int,
)
    requires
        is_block(a, g, w, n, transpose),
        0 <= i < n,
        crate::reference::is_odd(val),
    ensures
        row_times(a, 2 * n, i, val, x, 2 * n) == real_part(g, w, n, i, transpose, val, x, n),
        row_times(a, 2 * n, n + i, val, x, 2 * n) == imaginary_part(
            g,
            w,
            n,
            i,
            transpose,
            val,
            x,
            n,
        ),
{
    lemma_real_row(a, g, w, n, transpose, i, val, x, n);
    lemma_split_row(a, 2 * n, i, n, val, x, n);
    lemma_split_row(a, 2 * n, n + i, n, val, x, n);
    assert(n + n == 2 * n);
}

} // verus!
