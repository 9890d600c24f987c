//! The simplex tableau and its elementary operations.
//!
//! The tableau is a dense `(m + 1) x (n + 1)` matrix of exact rationals for a
//! problem with `m` constraints and `n` variables (slack columns included):
//! rows `0 .. m` hold the constraint coefficients with the right-hand side in
//! the last column, and row `m` holds the negated objective coefficients with
//! the current negated objective value in the last column.
//!
//! Each operation's contract is stated over the ghost matrix `Seq<Seq<Q>>`
//! obtained by viewing every entry: selection of the entering column
//! (Dantzig's rule, first column on ties), selection of the leaving row
//! (minimum-ratio test, first row on ties), the Gauss-Jordan pivot itself,
//! and extraction of the basic solution.

use vstd::prelude::*;
use crate::rational::{
    Q, Rat, q_wf, q_eq, q_le, q_lt, q_is_neg, q_is_pos, q_is_zero, q_is_one, q_zero, q_div,
    q_add, q_sub, q_mul, q_neg, q_canon, q_div_fits, q_mul_fits, q_sub_fits, lemma_q_neg_lt_nonneg, lemma_q_lt_le_trans, lemma_q_lt_congr,
    lemma_q_le_congr, lemma_pos_prod, lemma_q_eq_trans, lemma_q_mul_congr_right,
    lemma_q_sub_congr_right, lemma_q_add_congr, lemma_q_mul_congr, lemma_q_mul_distrib,
    lemma_q_mul_assoc, lemma_q_mul_comm, lemma_q_add_shuffle, lemma_q_mul_div_cancel,
    lemma_q_add_sub_cancel, lemma_q_div_wf, lemma_q_add_wf, lemma_q_mul_wf, lemma_q_sub_wf,
    lemma_q_sub_congr, lemma_q_sub_add_same,
};

verus! {

// ---------------------------------------------------------------------------
// Ghost model of the tableau.
// ---------------------------------------------------------------------------

/// A ghost rational that fits the machine representation of [`Rat`].
pub open spec fn q_bounded(q: Q) -> bool {
    q_wf(q) && i64::MIN < q.n <= i64::MAX && q.d <= i64::MAX
}

/// `v` is a well-formed tableau matrix for `m` constraints and `n`
/// variables: `(m + 1)` rows of `(n + 1)` representable entries each.
pub open spec fn mat_wf(v: Seq<Seq<Q>>, m: int, n: int) -> bool {
    &&& m >= 0
    &&& n >= 0
    &&& v.len() == m + 1
    &&& forall|i: int| 0 <= i <= m ==> (#[trigger] v[i]).len() == n + 1
    &&& forall|i: int, j: int| 0 <= i <= m && 0 <= j <= n ==> q_bounded(#[trigger] v[i][j])
}

/// The optimality certificate: no negative coefficient is left in the
/// objective row (the last column, holding the objective value, excluded).
pub open spec fn obj_row_nonneg(v: Seq<Seq<Q>>, m: int, n: int) -> bool {
    forall|j: int| 0 <= j < n ==> !q_is_neg(#[trigger] v[m][j])
}

/// Column `c` is the entering column: its objective-row entry is negative,
/// minimal among all columns, and `c` is the first column attaining that
/// minimum (Dantzig's rule with a first-index tie-break).
pub open spec fn is_entering_col(v: Seq<Seq<Q>>, m: int, n: int, c: int) -> bool {
    &&& 0 <= c < n
    &&& q_is_neg(v[m][c])
    &&& forall|k: int| 0 <= k < n ==> q_le(v[m][c], #[trigger] v[m][k])
    &&& forall|k: int| 0 <= k < c ==> q_lt(v[m][c], #[trigger] v[m][k])
}

/// The ratio `rhs(i) / entry(i, c)` tested by the leaving-row rule.
pub open spec fn ratio_of(v: Seq<Seq<Q>>, n: int, c: int, i: int) -> Q {
    q_div(v[i][n], v[i][c])
}

/// Row `r` is the leaving row for entering column `c`: its entry in column
/// `c` is positive, its ratio is minimal among all rows with a positive
/// entry, and `r` is the first row attaining that minimum.
pub open spec fn is_leaving_row(v: Seq<Seq<Q>>, m: int, n: int, c: int, r: int) -> bool {
    &&& 0 <= r < m
    &&& q_is_pos(v[r][c])
    &&& forall|k: int|
        0 <= k < m && q_is_pos(#[trigger] v[k][c]) ==> q_le(
            ratio_of(v, n, c, r),
            ratio_of(v, n, c, k),
        )
    &&& forall|k: int|
        0 <= k < r && q_is_pos(#[trigger] v[k][c]) ==> q_lt(
            ratio_of(v, n, c, r),
            ratio_of(v, n, c, k),
        )
}

/// No constraint row has a positive entry in column `c`: pivoting on `c` is
/// impossible and the objective is unbounded along that direction.
pub open spec fn col_has_no_positive(v: Seq<Seq<Q>>, m: int, c: int) -> bool {
    forall|i: int| 0 <= i < m ==> !q_is_pos(#[trigger] v[i][c])
}

/// `v2` is the result of one Gauss-Jordan pivot of `v1` on `(r, c)`: row `r`
/// is divided by the pivot entry, and from every other row the pivot-column
/// multiple of the normalized row `r` is subtracted.
pub open spec fn pivot_rel(v1: Seq<Seq<Q>>, v2: Seq<Seq<Q>>, m: int, n: int, r: int, c: int) -> bool {
    &&& mat_wf(v2, m, n)
    &&& forall|j: int| 0 <= j <= n ==> q_eq(#[trigger] v2[r][j], q_div(v1[r][j], v1[r][c]))
    &&& forall|i: int, j: int|
        0 <= i <= m && i != r && 0 <= j <= n ==> q_eq(
            #[trigger] v2[i][j],
            q_sub(v1[i][j], q_mul(v1[i][c], q_div(v1[r][j], v1[r][c]))),
        )
}

/// Row `i` makes column `j` a unit column: the entry `(i, j)` equals one and
/// every other constraint row holds zero in column `j`.
pub open spec fn is_unit_row(v: Seq<Seq<Q>>, m: int, j: int, i: int) -> bool {
    &&& 0 <= i < m
    &&& q_is_one(v[i][j])
    &&& forall|k: int| 0 <= k < m && k != i ==> q_is_zero(#[trigger] v[k][j])
}

/// Column `j` is basic: among the constraint rows it has exactly one
/// non-zero entry and that entry equals one.
pub open spec fn is_basic_col(v: Seq<Seq<Q>>, m: int, j: int) -> bool {
    exists|i: int| is_unit_row(v, m, j, i)
}

/// The row holding the unit entry of a basic column `j`.
pub open spec fn basic_row_of(v: Seq<Seq<Q>>, m: int, j: int) -> int {
    choose|i: int| is_unit_row(v, m, j, i)
}

/// The value of variable `j` read off the tableau: the right-hand side of
/// its unit row if column `j` is basic, zero otherwise.
pub open spec fn solution_entry(v: Seq<Seq<Q>>, m: int, n: int, j: int) -> Q {
    if is_basic_col(v, m, j) {
        v[basic_row_of(v, m, j)][n]
    } else {
        q_zero()
    }
}

/// `s` is exactly the basic solution read off the tableau `v`.
pub open spec fn is_extracted_solution(v: Seq<Seq<Q>>, m: int, n: int, s: Seq<Q>) -> bool {
    s.len() == n && forall|j: int| 0 <= j < n ==> #[trigger] s[j] == solution_entry(v, m, n, j)
}

// ---------------------------------------------------------------------------
// Laws of the model.
// ---------------------------------------------------------------------------

/// A basic column has exactly one unit row: the entry of a second one would
/// have to be one and zero at once.
pub proof fn lemma_unit_row_unique(v: Seq<Seq<Q>>, m: int, n: int, j: int, i1: int, i2: int)
    requires
        mat_wf(v, m, n),
        0 <= j <= n,
        is_unit_row(v, m, j, i1),
        is_unit_row(v, m, j, i2),
    ensures
        i1 == i2,
{
    if i1 != i2 {
        assert(q_is_zero(v[i1][j]));
        assert(q_is_one(v[i1][j]));
        assert(q_bounded(v[i1][j]));
    }
}

/// The entering column is uniquely determined: two first-minimal columns
/// would each have to be strictly below the other.
pub proof fn lemma_entering_col_unique(v: Seq<Seq<Q>>, m: int, n: int, c1: int, c2: int)
    requires
        mat_wf(v, m, n),
        is_entering_col(v, m, n, c1),
        is_entering_col(v, m, n, c2),
    ensures
        c1 == c2,
{
    if c1 < c2 {
        assert(q_le(v[m][c1], v[m][c2]));
        assert(q_lt(v[m][c2], v[m][c1]));
    } else if c2 < c1 {
        assert(q_le(v[m][c2], v[m][c1]));
        assert(q_lt(v[m][c1], v[m][c2]));
    }
}

/// Extraction is a function of the tableau alone: any two sequences that
/// both satisfy [`is_extracted_solution`] are equal.  Re-reading an optimal
/// tableau therefore always yields the same solution.
pub proof fn lemma_extracted_solution_unique(
    v: Seq<Seq<Q>>,
    m: int,
    n: int,
    s1: Seq<Q>,
    s2: Seq<Q>,
)
    requires
        is_extracted_solution(v, m, n, s1),
        is_extracted_solution(v, m, n, s2),
    ensures
        s1 == s2,
{
    assert(s1 =~= s2);
}

/// The dot product of the first `up` entries of `row` and `x`.
pub open spec fn dot_prefix(row: Seq<Q>, x: Seq<Q>, up: int) -> Q
    decreases up,
{
    if up <= 0 {
        q_zero()
    } else {
        q_add(dot_prefix(row, x, up - 1), q_mul(row[up - 1], x[up - 1]))
    }
}

/// Column `j0` is the one basic column whose unit entry sits in row `k`:
/// it is a unit column with its one in row `k`, and no other basic column
/// reads its value off row `k`.
pub open spec fn unit_col_for_row(v: Seq<Seq<Q>>, m: int, n: int, k: int, j0: int) -> bool {
    &&& 0 <= j0 < n
    &&& is_unit_row(v, m, j0, k)
    &&& forall|j: int|
        0 <= j < n && j != j0 && #[trigger] is_basic_col(v, m, j) ==> basic_row_of(v, m, j) != k
}

proof fn lemma_dot_prefix_extraction(
    v: Seq<Seq<Q>>,
    m: int,
    n: int,
    s: Seq<Q>,
    k: int,
    j0: int,
    up: int,
)
    requires
        mat_wf(v, m, n),
        is_extracted_solution(v, m, n, s),
        0 <= k < m,
        unit_col_for_row(v, m, n, k, j0),
        0 <= up <= n,
    ensures
        q_wf(dot_prefix(v[k], s, up)),
        j0 < up ==> q_eq(dot_prefix(v[k], s, up), v[k][n]),
        up <= j0 ==> dot_prefix(v[k], s, up).n == 0,
    decreases up,
{
    if up > 0 {
        lemma_dot_prefix_extraction(v, m, n, s, k, j0, up - 1);
        let j = up - 1;
        let x = dot_prefix(v[k], s, j);
        let term = q_mul(v[k][j], s[j]);
        assert(s[j] == solution_entry(v, m, n, j));
        assert(q_bounded(v[k][j]));
        if j == j0 {
            // The unit entry of row `k`: the term is the right-hand side.
            assert(is_basic_col(v, m, j0));
            let kstar = basic_row_of(v, m, j0);
            assert(is_unit_row(v, m, j0, kstar));
            lemma_unit_row_unique(v, m, n, j0, k, kstar);
            assert(s[j] == v[k][n]);
            assert(q_is_one(v[k][j0]));
            crate::rational::lemma_q_mul_one_left(v[k][j], s[j]);
            crate::rational::lemma_q_add_zero_left(x, term);
            assert(q_bounded(v[k][n]));
            lemma_pos_prod(v[k][j].d, s[j].d);
            lemma_q_eq_trans(q_add(x, term), term, v[k][n]);
            lemma_pos_prod(x.d, term.d);
        } else {
            // Any other column contributes zero to row `k`.
            if is_basic_col(v, m, j) {
                let ij = basic_row_of(v, m, j);
                assert(is_unit_row(v, m, j, ij));
                assert(ij != k);
                assert(q_is_zero(v[k][j]));
                assert(q_bounded(v[ij][n]));
                crate::rational::lemma_q_mul_zero_left(v[k][j], s[j]);
            } else {
                assert(s[j] == q_zero());
                crate::rational::lemma_q_mul_zero_left(s[j], v[k][j]);
                assert(q_mul(v[k][j], s[j]).n == s[j].n * v[k][j].n) by (nonlinear_arith)
                    requires
                        true,
                ;
            }
            assert(term.n == 0);
            assert(s[j].d > 0);
            lemma_pos_prod(v[k][j].d, s[j].d);
            lemma_pos_prod(x.d, term.d);
            crate::rational::lemma_q_add_zero_right(x, term);
            if j0 < j {
                assert(q_bounded(v[k][n]));
                lemma_q_eq_trans(q_add(x, term), x, v[k][n]);
            } else {
                assert(q_eq(q_add(x, term), x));
                assert(q_add(x, term).n * x.d == x.n * q_add(x, term).d);
                assert(q_add(x, term).n == 0) by (nonlinear_arith)
                    requires
                        q_add(x, term).n * x.d == x.n * q_add(x, term).d,
                        x.n == 0,
                        x.d > 0,
                        q_add(x, term).d > 0,
                {
                }
            }
        }
    }
}

/// The heart of constraint satisfaction: for a tableau whose row `k`
/// carries the unit entry of exactly one basic column, the extracted
/// solution satisfies that row exactly — the dot product of the row's
/// first `n` entries with the solution equals the row's right-hand side.
///
/// The hypothesis matters: a column that merely mimics a unit column makes
/// its row double-counted by the extraction rule, so such tableaus are
/// excluded here.
pub proof fn lemma_extraction_satisfies_row(
    v: Seq<Seq<Q>>,
    m: int,
    n: int,
    s: Seq<Q>,
    k: int,
    j0: int,
)
    requires
        mat_wf(v, m, n),
        is_extracted_solution(v, m, n, s),
        0 <= k < m,
        unit_col_for_row(v, m, n, k, j0),
    ensures
        q_eq(dot_prefix(v[k], s, n), v[k][n]),
{
    lemma_dot_prefix_extraction(v, m, n, s, k, j0, n);
}

pub proof fn lemma_dot_prefix_wf(row: Seq<Q>, x: Seq<Q>, up: int)
    requires
        forall|j: int| 0 <= j < up ==> q_wf(#[trigger] row[j]),
        forall|j: int| 0 <= j < up ==> q_wf(#[trigger] x[j]),
    ensures
        q_wf(dot_prefix(row, x, up)),
    decreases up,
{
    if up > 0 {
        lemma_dot_prefix_wf(row, x, up - 1);
        lemma_q_mul_wf(row[up - 1], x[up - 1]);
        lemma_q_add_wf(dot_prefix(row, x, up - 1), q_mul(row[up - 1], x[up - 1]));
    }
}

/// Dot products commute with scaling a row by `p`.
proof fn lemma_dot_prefix_scaled(row1: Seq<Q>, row2: Seq<Q>, x: Seq<Q>, p: Q, up: int)
    requires
        0 <= up,
        q_wf(p),
        forall|j: int| 0 <= j < up ==> q_wf(#[trigger] row1[j]),
        forall|j: int| 0 <= j < up ==> q_wf(#[trigger] row2[j]),
        forall|j: int| 0 <= j < up ==> q_wf(#[trigger] x[j]),
        forall|j: int| 0 <= j < up ==> q_eq(#[trigger] row1[j], q_mul(p, row2[j])),
    ensures
        q_eq(dot_prefix(row1, x, up), q_mul(p, dot_prefix(row2, x, up))),
    decreases up,
{
    if up == 0 {
        assert(q_eq(q_zero(), q_mul(p, q_zero()))) by (nonlinear_arith);
    } else {
        let j = up - 1;
        lemma_dot_prefix_scaled(row1, row2, x, p, j);
        let d1 = dot_prefix(row1, x, j);
        let d2 = dot_prefix(row2, x, j);
        let t1 = q_mul(row1[j], x[j]);
        let t2 = q_mul(row2[j], x[j]);
        lemma_q_mul_congr(row1[j], x[j], q_mul(p, row2[j]), x[j]);
        lemma_q_mul_assoc(p, row2[j], x[j]);
        lemma_q_add_congr(d1, t1, q_mul(p, d2), q_mul(p, t2));
        lemma_q_mul_distrib(p, d2, t2);
        lemma_dot_prefix_wf(row2, x, j);
        lemma_q_mul_wf(row2[j], x[j]);
        lemma_q_mul_wf(p, d2);
        lemma_q_mul_wf(p, t2);
        lemma_q_add_wf(q_mul(p, d2), q_mul(p, t2));
        lemma_q_eq_trans(
            q_add(d1, t1),
            q_add(q_mul(p, d2), q_mul(p, t2)),
            q_mul(p, q_add(d2, t2)),
        );
    }
}

/// Dot products commute with adding an `f`-multiple of another row.
proof fn lemma_dot_prefix_affine(
    row1: Seq<Q>,
    row2: Seq<Q>,
    rowr: Seq<Q>,
    x: Seq<Q>,
    f: Q,
    up: int,
)
    requires
        0 <= up,
        q_wf(f),
        forall|j: int| 0 <= j < up ==> q_wf(#[trigger] row1[j]),
        forall|j: int| 0 <= j < up ==> q_wf(#[trigger] row2[j]),
        forall|j: int| 0 <= j < up ==> q_wf(#[trigger] rowr[j]),
        forall|j: int| 0 <= j < up ==> q_wf(#[trigger] x[j]),
        forall|j: int|
            0 <= j < up ==> q_eq(#[trigger] row1[j], q_add(row2[j], q_mul(f, rowr[j]))),
    ensures
        q_eq(
            dot_prefix(row1, x, up),
            q_add(dot_prefix(row2, x, up), q_mul(f, dot_prefix(rowr, x, up))),
        ),
    decreases up,
{
    if up == 0 {
        assert(q_eq(q_zero(), q_add(q_zero(), q_mul(f, q_zero())))) by (nonlinear_arith);
    } else {
        let j = up - 1;
        lemma_dot_prefix_affine(row1, row2, rowr, x, f, j);
        let d1 = dot_prefix(row1, x, j);
        let d2 = dot_prefix(row2, x, j);
        let dr = dot_prefix(rowr, x, j);
        let t1 = q_mul(row1[j], x[j]);
        let t2 = q_mul(row2[j], x[j]);
        let tr = q_mul(rowr[j], x[j]);
        let u = row2[j];
        let w = q_mul(f, rowr[j]);
        let midm = q_mul(q_add(u, w), x[j]);
        // The term of row1 splits: t1 ~ t2 + f * tr.
        lemma_q_mul_congr(row1[j], x[j], q_add(u, w), x[j]);
        lemma_q_mul_comm(q_add(u, w), x[j]);
        lemma_q_mul_distrib(x[j], u, w);
        lemma_q_mul_comm(x[j], u);
        lemma_q_mul_comm(x[j], w);
        lemma_q_mul_assoc(f, rowr[j], x[j]);
        lemma_q_mul_wf(f, rowr[j]);
        lemma_q_add_wf(u, w);
        lemma_q_mul_wf(q_add(u, w), x[j]);
        lemma_q_eq_trans(t1, midm, q_add(t2, q_mul(f, tr)));
        // Combine with the induction hypothesis and regroup.
        lemma_dot_prefix_wf(row2, x, j);
        lemma_dot_prefix_wf(rowr, x, j);
        lemma_q_mul_wf(row2[j], x[j]);
        lemma_q_mul_wf(rowr[j], x[j]);
        lemma_q_mul_wf(f, dr);
        lemma_q_mul_wf(f, tr);
        lemma_q_add_wf(d2, q_mul(f, dr));
        lemma_q_add_wf(t2, q_mul(f, tr));
        lemma_q_add_congr(d1, t1, q_add(d2, q_mul(f, dr)), q_add(t2, q_mul(f, tr)));
        let s1 = q_add(q_add(d2, q_mul(f, dr)), q_add(t2, q_mul(f, tr)));
        lemma_q_add_shuffle(d2, q_mul(f, dr), t2, q_mul(f, tr));
        let s2 = q_add(q_add(d2, t2), q_add(q_mul(f, dr), q_mul(f, tr)));
        lemma_q_mul_distrib(f, dr, tr);
        lemma_q_add_congr(
            q_add(d2, t2),
            q_add(q_mul(f, dr), q_mul(f, tr)),
            q_add(d2, t2),
            q_mul(f, q_add(dr, tr)),
        );
        lemma_q_add_wf(q_add(d2, q_mul(f, dr)), q_add(t2, q_mul(f, tr)));
        lemma_q_add_wf(d2, t2);
        lemma_q_add_wf(q_mul(f, dr), q_mul(f, tr));
        lemma_q_add_wf(q_add(d2, t2), q_add(q_mul(f, dr), q_mul(f, tr)));
        lemma_q_eq_trans(q_add(d1, t1), s1, s2);
        lemma_q_eq_trans(q_add(d1, t1), s2, q_add(q_add(d2, t2), q_mul(f, q_add(dr, tr))));
    }
}

/// `s` satisfies every constraint row of `v` exactly: the dot product of
/// the row's variable entries with `s` equals the row's right-hand side.
pub open spec fn satisfies_constraint_rows(v: Seq<Seq<Q>>, m: int, n: int, s: Seq<Q>) -> bool {
    forall|k: int| 0 <= k < m ==> q_eq(#[trigger] dot_prefix(v[k], s, n), v[k][n])
}

/// Each entry of the pre-pivot tableau is recovered from the post-pivot
/// one: the pivot row by scaling back by the pivot entry, every other row
/// by adding back the eliminated multiple of the normalized pivot row.
proof fn lemma_pivot_row_relations(
    v1: Seq<Seq<Q>>,
    v2: Seq<Seq<Q>>,
    m: int,
    n: int,
    r: int,
    c: int,
)
    requires
        mat_wf(v1, m, n),
        pivot_rel(v1, v2, m, n, r, c),
        0 <= r <= m,
        0 <= c <= n,
        !q_is_zero(v1[r][c]),
    ensures
        forall|j: int| 0 <= j <= n ==> q_eq(#[trigger] v1[r][j], q_mul(v1[r][c], v2[r][j])),
        forall|i: int, j: int|
            0 <= i <= m && i != r && 0 <= j <= n ==> q_eq(
                #[trigger] v1[i][j],
                q_add(v2[i][j], q_mul(v1[i][c], v2[r][j])),
            ),
{
    let p = v1[r][c];
    assert(q_bounded(p));
    assert forall|j: int| 0 <= j <= n implies q_eq(#[trigger] v1[r][j], q_mul(p, v2[r][j])) by {
        let dj = q_div(v1[r][j], p);
        assert(q_eq(v2[r][j], dj));
        assert(q_bounded(v1[r][j]));
        lemma_q_mul_div_cancel(v1[r][j], p);
        lemma_q_mul_congr(p, v2[r][j], p, dj);
        lemma_q_div_wf(v1[r][j], p);
        lemma_q_mul_wf(p, dj);
        lemma_q_eq_trans(q_mul(p, v2[r][j]), q_mul(p, dj), v1[r][j]);
    }
    assert forall|i: int, j: int| 0 <= i <= m && i != r && 0 <= j <= n implies q_eq(
        #[trigger] v1[i][j],
        q_add(v2[i][j], q_mul(v1[i][c], v2[r][j])),
    ) by {
        let f = v1[i][c];
        let dj = q_div(v1[r][j], p);
        let mm = q_mul(f, dj);
        assert(q_eq(v2[i][j], q_sub(v1[i][j], mm)));
        assert(q_eq(v2[r][j], dj));
        assert(q_bounded(v1[i][j]));
        assert(q_bounded(v1[i][c]));
        assert(q_bounded(v1[r][j]));
        lemma_q_mul_congr(f, v2[r][j], f, dj);
        lemma_q_add_congr(v2[i][j], q_mul(f, v2[r][j]), q_sub(v1[i][j], mm), mm);
        lemma_q_add_sub_cancel(v1[i][j], mm);
        lemma_q_div_wf(v1[r][j], p);
        lemma_q_mul_wf(f, dj);
        lemma_q_sub_wf(v1[i][j], mm);
        lemma_q_add_wf(q_sub(v1[i][j], mm), mm);
        lemma_q_eq_trans(
            q_add(v2[i][j], q_mul(f, v2[r][j])),
            q_add(q_sub(v1[i][j], mm), mm),
            v1[i][j],
        );
    }
}

/// One simplex pivot preserves satisfaction of the constraint rows
/// backward: a point that satisfies the pivoted system satisfies the
/// system it was pivoted from.  Gauss-Jordan row operations are invertible,
/// so no solution is created or lost.
pub proof fn lemma_pivot_preserves_satisfaction(
    v1: Seq<Seq<Q>>,
    v2: Seq<Seq<Q>>,
    m: int,
    n: int,
    r: int,
    c: int,
    s: Seq<Q>,
)
    requires
        mat_wf(v1, m, n),
        pivot_rel(v1, v2, m, n, r, c),
        0 <= r < m,
        0 <= c <= n,
        !q_is_zero(v1[r][c]),
        satisfies_constraint_rows(v2, m, n, s),
        forall|j: int| 0 <= j < n ==> q_wf(#[trigger] s[j]),
    ensures
        satisfies_constraint_rows(v1, m, n, s),
{
    lemma_pivot_row_relations(v1, v2, m, n, r, c);
    let p = v1[r][c];
    assert(q_bounded(p));
    assert forall|k: int| 0 <= k < m implies q_eq(
        #[trigger] dot_prefix(v1[k], s, n),
        v1[k][n],
    ) by {
        assert forall|j: int| 0 <= j < n implies q_wf(#[trigger] v1[k][j]) by {
            assert(q_bounded(v1[k][j]));
        }
        assert forall|j: int| 0 <= j < n implies q_wf(#[trigger] v2[k][j]) by {
            assert(q_bounded(v2[k][j]));
        }
        assert forall|j: int| 0 <= j < n implies q_wf(#[trigger] v2[r][j]) by {
            assert(q_bounded(v2[r][j]));
        }
        let d2k = dot_prefix(v2[k], s, n);
        let d2r = dot_prefix(v2[r], s, n);
        lemma_dot_prefix_wf(v2[k], s, n);
        lemma_dot_prefix_wf(v2[r], s, n);
        assert(q_eq(d2k, v2[k][n]));
        assert(q_bounded(v2[k][n]));
        assert(q_bounded(v2[r][n]));
        if k == r {
            lemma_dot_prefix_scaled(v1[r], v2[r], s, p, n);
            lemma_q_mul_congr(p, d2r, p, v2[r][n]);
            lemma_q_mul_wf(p, d2r);
            lemma_q_mul_wf(p, v2[r][n]);
            lemma_q_eq_trans(dot_prefix(v1[r], s, n), q_mul(p, d2r), q_mul(p, v2[r][n]));
            assert(q_eq(v1[r][n], q_mul(p, v2[r][n])));
            lemma_q_eq_trans(dot_prefix(v1[r], s, n), q_mul(p, v2[r][n]), v1[r][n]);
        } else {
            let f = v1[k][c];
            assert(q_bounded(v1[k][c]));
            assert(q_eq(d2r, v2[r][n]));
            lemma_dot_prefix_affine(v1[k], v2[k], v2[r], s, f, n);
            lemma_q_mul_congr(f, d2r, f, v2[r][n]);
            lemma_q_add_congr(d2k, q_mul(f, d2r), v2[k][n], q_mul(f, v2[r][n]));
            lemma_q_mul_wf(f, d2r);
            lemma_q_mul_wf(f, v2[r][n]);
            lemma_q_add_wf(d2k, q_mul(f, d2r));
            lemma_q_add_wf(v2[k][n], q_mul(f, v2[r][n]));
            lemma_q_eq_trans(
                dot_prefix(v1[k], s, n),
                q_add(d2k, q_mul(f, d2r)),
                q_add(v2[k][n], q_mul(f, v2[r][n])),
            );
            assert(q_eq(v1[k][n], q_add(v2[k][n], q_mul(f, v2[r][n]))));
            lemma_q_eq_trans(
                dot_prefix(v1[k], s, n),
                q_add(v2[k][n], q_mul(f, v2[r][n])),
                v1[k][n],
            );
        }
    }
}

/// The objective-row discrepancy at point `s`: the dot product of the
/// objective row with `s`, minus the objective-value corner.  Pivots leave
/// it unchanged on points that satisfy the pivot row.
pub open spec fn objective_gap(v: Seq<Seq<Q>>, m: int, n: int, s: Seq<Q>) -> Q {
    q_sub(dot_prefix(v[m], s, n), v[m][n])
}

/// A dot product of terms that each have a zero factor is zero.
pub proof fn lemma_dot_prefix_zero(row: Seq<Q>, x: Seq<Q>, up: int)
    requires
        0 <= up,
        forall|j: int| 0 <= j < up ==> (#[trigger] row[j]).n == 0 || x[j].n == 0,
    ensures
        dot_prefix(row, x, up).n == 0,
    decreases up,
{
    if up > 0 {
        lemma_dot_prefix_zero(row, x, up - 1);
        let j = up - 1;
        assert(row[j].n * x[j].n == 0) by (nonlinear_arith)
            requires
                row[j].n == 0 || x[j].n == 0,
        ;
        let d = dot_prefix(row, x, j);
        let t = q_mul(row[j], x[j]);
        assert(d.n * t.d + t.n * d.d == 0) by (nonlinear_arith)
            requires
                d.n == 0,
                t.n == 0,
        ;
    }
}

/// One simplex pivot preserves the objective-row discrepancy at any point
/// that satisfies the pivot row of the new tableau.
pub proof fn lemma_pivot_preserves_gap(
    v1: Seq<Seq<Q>>,
    v2: Seq<Seq<Q>>,
    m: int,
    n: int,
    r: int,
    c: int,
    s: Seq<Q>,
)
    requires
        mat_wf(v1, m, n),
        pivot_rel(v1, v2, m, n, r, c),
        0 <= r < m,
        0 <= c <= n,
        !q_is_zero(v1[r][c]),
        q_eq(dot_prefix(v2[r], s, n), v2[r][n]),
        forall|j: int| 0 <= j < n ==> q_wf(#[trigger] s[j]),
    ensures
        q_eq(objective_gap(v1, m, n, s), objective_gap(v2, m, n, s)),
{
    lemma_pivot_row_relations(v1, v2, m, n, r, c);
    let f = v1[m][c];
    assert(q_bounded(f));
    assert forall|j: int| 0 <= j < n implies q_wf(#[trigger] v1[m][j]) by {
        assert(q_bounded(v1[m][j]));
    }
    assert forall|j: int| 0 <= j < n implies q_wf(#[trigger] v2[m][j]) by {
        assert(q_bounded(v2[m][j]));
    }
    assert forall|j: int| 0 <= j < n implies q_wf(#[trigger] v2[r][j]) by {
        assert(q_bounded(v2[r][j]));
    }
    let d1m = dot_prefix(v1[m], s, n);
    let d2m = dot_prefix(v2[m], s, n);
    let d2r = dot_prefix(v2[r], s, n);
    lemma_dot_prefix_wf(v2[m], s, n);
    lemma_dot_prefix_wf(v2[r], s, n);
    lemma_dot_prefix_wf(v1[m], s, n);
    assert(q_bounded(v2[m][n]));
    assert(q_bounded(v2[r][n]));
    assert(q_bounded(v1[m][n]));
    lemma_dot_prefix_affine(v1[m], v2[m], v2[r], s, f, n);
    lemma_q_mul_congr(f, d2r, f, v2[r][n]);
    lemma_q_add_congr(d2m, q_mul(f, d2r), d2m, q_mul(f, v2[r][n]));
    lemma_q_mul_wf(f, d2r);
    lemma_q_mul_wf(f, v2[r][n]);
    lemma_q_add_wf(d2m, q_mul(f, d2r));
    lemma_q_add_wf(d2m, q_mul(f, v2[r][n]));
    let a2 = q_add(d2m, q_mul(f, v2[r][n]));
    let b2 = q_add(v2[m][n], q_mul(f, v2[r][n]));
    lemma_q_eq_trans(d1m, q_add(d2m, q_mul(f, d2r)), a2);
    assert(q_eq(v1[m][n], b2));
    lemma_q_sub_congr(d1m, v1[m][n], a2, b2);
    lemma_q_sub_add_same(d2m, v2[m][n], q_mul(f, v2[r][n]));
    lemma_q_add_wf(v2[m][n], q_mul(f, v2[r][n]));
    lemma_q_sub_wf(a2, b2);
    lemma_q_sub_wf(d1m, v1[m][n]);
    lemma_q_eq_trans(q_sub(d1m, v1[m][n]), q_sub(a2, b2), q_sub(d2m, v2[m][n]));
}

/// Every right-hand side of the constraint rows is non-negative: the
/// basic solution of the tableau is feasible.
pub open spec fn rhs_nonneg(v: Seq<Seq<Q>>, m: int, n: int) -> bool {
    forall|i: int| 0 <= i < m ==> !q_is_neg(#[trigger] v[i][n])
}

/// The minimum-ratio rule keeps the right-hand sides non-negative: one
/// pivot on a leaving row selected by it preserves feasibility.
pub proof fn lemma_pivot_preserves_feasibility(
    v1: Seq<Seq<Q>>,
    v2: Seq<Seq<Q>>,
    m: int,
    n: int,
    r: int,
    c: int,
)
    requires
        mat_wf(v1, m, n),
        pivot_rel(v1, v2, m, n, r, c),
        is_leaving_row(v1, m, n, c, r),
        0 <= c < n,
        rhs_nonneg(v1, m, n),
    ensures
        rhs_nonneg(v2, m, n),
{
    let p = v1[r][c];
    assert(q_bounded(p));
    assert(q_is_pos(p));
    assert forall|i: int| 0 <= i < m implies !q_is_neg(#[trigger] v2[i][n]) by {
        assert(q_bounded(v1[i][n]));
        assert(q_bounded(v1[r][n]));
        assert(q_bounded(v2[i][n]));
        let dr = q_div(v1[r][n], p);
        crate::rational::lemma_q_div_wf(v1[r][n], p);
        crate::rational::lemma_q_div_nonneg(v1[r][n], p);
        if i == r {
            assert(q_eq(v2[r][n], dr));
            crate::rational::lemma_q_nonneg_congr(v2[r][n], dr);
        } else {
            let f = v1[i][c];
            assert(q_bounded(f));
            assert(q_eq(v2[i][n], q_sub(v1[i][n], q_mul(f, dr))));
            crate::rational::lemma_q_mul_wf(f, dr);
            lemma_q_sub_wf(v1[i][n], q_mul(f, dr));
            if f.n > 0 {
                assert(q_is_pos(v1[i][c]));
                assert(q_le(ratio_of(v1, n, c, r), ratio_of(v1, n, c, i)));
                crate::rational::lemma_q_mul_ratio_le(f, dr, v1[i][n]);
                crate::rational::lemma_q_sub_nonneg(q_mul(f, dr), v1[i][n]);
            } else {
                crate::rational::lemma_q_sub_nonpos_mul(v1[i][n], f, dr);
            }
            crate::rational::lemma_q_nonneg_congr(v2[i][n], q_sub(v1[i][n], q_mul(f, dr)));
        }
    }
}

// ---------------------------------------------------------------------------
// The executable tableau.
// ---------------------------------------------------------------------------

/// A dense simplex tableau: `num_constraints + 1` rows of `num_vars + 1`
/// exact rationals each.  All operations require [`Tableau::wf`].
pub struct Tableau {
    pub rows: Vec<Vec<Rat>>,
    pub num_constraints: usize,
    pub num_vars: usize,
}

impl View for Tableau {
    type V = Seq<Seq<Q>>;

    open spec fn view(&self) -> Seq<Seq<Q>> {
        self.rows.deep_view()
    }
}

impl Tableau {
    /// Well-formedness: the row/column counts match the dimensions and every
    /// entry is a well-formed rational.
    pub open spec fn wf(self) -> bool {
        &&& self.num_constraints < usize::MAX
        &&& self.num_vars < usize::MAX
        &&& mat_wf(self@, self.num_constraints as int, self.num_vars as int)
    }

    /// Wrap a row-major matrix as a tableau, validating the shape and every
    /// entry.  `rows.len() - 1` is taken as the number of constraints and
    /// `rows[0].len() - 1` as the number of variables.
    #[verifier::loop_isolation(false)]
    pub fn new(rows: Vec<Vec<Rat>>) -> (r: Option<Tableau>)
        ensures
            r matches Some(t) ==> {
                &&& t.wf()
                &&& t@ == rows.deep_view()
                &&& t.num_constraints as int + 1 == rows@.len()
                &&& t.num_vars as int + 1 == rows@[0]@.len()
            },
            (r is Some) <==> tableau_shape(rows.deep_view()),
    {
        let nrows: usize = rows.len();
        if nrows == 0 {
            return None;
        }
        let ncols: usize = rows[0].len();
        if ncols == 0 {
            return None;
        }
        let mut i: usize = 0;
        while i < nrows
            invariant
                i <= nrows,
                forall|ii: int| 0 <= ii < i ==> (#[trigger] rows@[ii])@.len() == ncols,
                forall|ii: int, jj: int|
                    0 <= ii < i && 0 <= jj < ncols ==> (#[trigger] rows@[ii]@[jj]).wf(),
            decreases nrows - i,
        {
            if rows[i].len() != ncols {
                proof {
                    assert(rows.deep_view()[i as int].len() == rows@[i as int]@.len());
                    assert(rows.deep_view()[0].len() == rows@[0]@.len());
                }
                return None;
            }
            let mut j: usize = 0;
            while j < ncols
                invariant
                    j <= ncols,
                    i < nrows,
                    rows@[i as int]@.len() == ncols,
                    forall|jj: int| 0 <= jj < j ==> (#[trigger] rows@[i as int]@[jj]).wf(),
                decreases ncols - j,
            {
                let e: Rat = rows[i][j];
                if e.den <= 0 || e.num == i64::MIN {
                    proof {
                        assert(rows.deep_view()[i as int][j as int] == rows@[i as int]@[j as int]@);
                        assert(!q_bounded(rows.deep_view()[i as int][j as int]));
                    }
                    return None;
                }
                j += 1;
            }
            i += 1;
        }
        let t = Tableau { rows, num_constraints: nrows - 1, num_vars: ncols - 1 };
        proof {
            assert(forall|ii: int, jj: int|
                0 <= ii < nrows && 0 <= jj < ncols ==> q_bounded(
                    #[trigger] t.rows.deep_view()[ii][jj],
                )) by {
                assert(forall|ii: int, jj: int|
                    0 <= ii < nrows && 0 <= jj < ncols ==> #[trigger] t.rows.deep_view()[ii][jj]
                        == t.rows@[ii]@[jj]@);
            }
        }
        Some(t)
    }
}

// ---------------------------------------------------------------------------
// Read-only operations.
// ---------------------------------------------------------------------------

/// The optimality test: `true` exactly when no objective-row coefficient
/// (the objective-value column excluded) is negative.
#[verifier::loop_isolation(false)]
pub fn is_optimal(t: &Tableau) -> (r: bool)
    requires
        t.wf(),
    ensures
        r == obj_row_nonneg(t@, t.num_constraints as int, t.num_vars as int),
{
    let m: usize = t.num_constraints;
    let n: usize = t.num_vars;
    let mut j: usize = 0;
    while j < n
        invariant
            j <= n,
            forall|k: int| 0 <= k < j ==> !q_is_neg(#[trigger] t@[m as int][k]),
        decreases n - j,
    {
        proof {
            assert(t.rows@.len() == t@.len());
            assert(t.rows@[m as int]@.len() == t@[m as int].len());
        }
        let e: Rat = t.rows[m][j];
        proof {
            assert(e@ == t@[m as int][j as int]);
            assert(q_bounded(e@));
        }
        if e.is_neg() {
            return false;
        }
        j += 1;
    }
    true
}

/// Scan the constraint rows of column `j`: `Some(i)` exactly when the
/// column is basic, with `i` its unit row.
#[verifier::loop_isolation(false)]
pub(crate) fn find_unit_row(t: &Tableau, j: usize) -> (r: Option<usize>)
    requires
        t.wf(),
        j as int <= t.num_vars as int,
    ensures
        r matches Some(i) ==> is_unit_row(t@, t.num_constraints as int, j as int, i as int),
        (r is Some) <==> is_basic_col(t@, t.num_constraints as int, j as int),
{
    let m: usize = t.num_constraints;
    let ghost v = t@;
    let ghost jj = j as int;
    let ghost mi = m as int;
    let mut i: usize = 0;
    let mut found: Option<usize> = None;
    while i < m
        invariant
            i <= m,
            match found {
                Some(i0) => i0 < i && q_is_one(v[i0 as int][jj]) && (forall|k: int|
                    0 <= k < i && k != i0 ==> q_is_zero(#[trigger] v[k][jj])),
                None => forall|k: int| 0 <= k < i ==> q_is_zero(#[trigger] v[k][jj]),
            },
        decreases m - i,
    {
        proof {
            assert(t.rows@.len() == v.len());
            assert(t.rows@[i as int]@.len() == v[i as int].len());
        }
        let e: Rat = t.rows[i][j];
        proof {
            assert(e@ == v[i as int][jj]);
            assert(q_bounded(e@));
        }
        if e.is_one() {
            if let Some(i0) = found {
                proof {
                    assert forall|i2: int| !is_unit_row(v, mi, jj, i2) by {
                        if is_unit_row(v, mi, jj, i2) {
                            if i2 == i0 as int {
                                assert(q_is_zero(v[i as int][jj]));
                                assert(q_bounded(v[i as int][jj]));
                            } else {
                                assert(q_is_zero(v[i0 as int][jj]));
                                assert(q_bounded(v[i0 as int][jj]));
                            }
                        }
                    }
                }
                return None;
            }
            found = Some(i);
        } else if !e.is_zero() {
            proof {
                assert forall|i2: int| !is_unit_row(v, mi, jj, i2) by {
                    if is_unit_row(v, mi, jj, i2) {
                        if i2 == i as int {
                            assert(q_is_one(v[i as int][jj]));
                        } else {
                            assert(q_is_zero(v[i as int][jj]));
                        }
                    }
                }
            }
            return None;
        }
        i += 1;
    }
    match found {
        Some(i0) => {
            proof {
                assert(is_unit_row(v, mi, jj, i0 as int));
            }
            Some(i0)
        },
        None => {
            proof {
                assert forall|i2: int| !is_unit_row(v, mi, jj, i2) by {
                    if is_unit_row(v, mi, jj, i2) {
                        assert(q_is_zero(v[i2][jj]));
                        assert(q_bounded(v[i2][jj]));
                    }
                }
            }
            None
        },
    }
}

/// Read the basic solution off the tableau: for each variable column, the
/// right-hand side of its unit row if the column is basic, zero otherwise.
#[verifier::loop_isolation(false)]
pub fn extract_solution(t: &Tableau) -> (sol: Vec<Rat>)
    requires
        t.wf(),
    ensures
        is_extracted_solution(
            t@,
            t.num_constraints as int,
            t.num_vars as int,
            sol.deep_view(),
        ),
        forall|k: int| 0 <= k < sol@.len() ==> (#[trigger] sol@[k]).wf(),
{
    let m: usize = t.num_constraints;
    let n: usize = t.num_vars;
    let ghost v = t@;
    let ghost mi = m as int;
    let ghost ni = n as int;
    let mut sol: Vec<Rat> = Vec::new();
    let mut j: usize = 0;
    while j < n
        invariant
            j <= n,
            sol@.len() == j,
            forall|k: int| 0 <= k < j ==> (#[trigger] sol@[k]).wf(),
            forall|k: int| 0 <= k < j ==> (#[trigger] sol@[k])@ == solution_entry(v, mi, ni, k),
        decreases n - j,
    {
        match find_unit_row(t, j) {
            Some(i) => {
                proof {
                    assert(is_basic_col(v, mi, j as int));
                    let istar = basic_row_of(v, mi, j as int);
                    assert(is_unit_row(v, mi, j as int, istar));
                    lemma_unit_row_unique(v, mi, ni, j as int, i as int, istar);
                }
                let val: Rat = t.rows[i][n];
                proof {
                    assert(val@ == v[i as int][ni]);
                    assert(q_bounded(val@));
                }
                sol.push(val);
            },
            None => {
                sol.push(Rat::zero());
            },
        }
        j += 1;
    }
    proof {
        assert forall|k: int| 0 <= k < ni implies sol.deep_view()[k] == solution_entry(
            v,
            mi,
            ni,
            k,
        ) by {
            assert(sol.deep_view()[k] == sol@[k]@);
        }
    }
    sol
}

/// The indices of the basic columns, in increasing order.
#[verifier::loop_isolation(false)]
pub fn find_basis(t: &Tableau) -> (basis: Vec<usize>)
    requires
        t.wf(),
    ensures
        forall|k: int| 0 <= k < basis@.len() ==> (#[trigger] basis@[k]) < t.num_vars,
        forall|k: int|
            0 <= k < basis@.len() ==> is_basic_col(
                t@,
                t.num_constraints as int,
                #[trigger] basis@[k] as int,
            ),
        forall|j: int|
            0 <= j < t.num_vars as int && is_basic_col(t@, t.num_constraints as int, j)
                ==> basis@.contains(j as usize),
        forall|k1: int, k2: int| 0 <= k1 < k2 < basis@.len() ==> basis@[k1] < basis@[k2],
{
    let n: usize = t.num_vars;
    let ghost v = t@;
    let ghost mi = t.num_constraints as int;
    let mut basis: Vec<usize> = Vec::new();
    let mut j: usize = 0;
    while j < n
        invariant
            j <= n,
            forall|k: int| 0 <= k < basis@.len() ==> (#[trigger] basis@[k]) < j,
            forall|k: int|
                0 <= k < basis@.len() ==> is_basic_col(v, mi, #[trigger] basis@[k] as int),
            forall|jj: int| 0 <= jj < j && is_basic_col(v, mi, jj) ==> basis@.contains(jj as usize),
            forall|k1: int, k2: int| 0 <= k1 < k2 < basis@.len() ==> basis@[k1] < basis@[k2],
        decreases n - j,
    {
        let ghost bold = basis@;
        if find_unit_row(t, j).is_some() {
            basis.push(j);
            proof {
                assert(basis@[bold.len() as int] == j);
                assert forall|jj: int|
                    0 <= jj < j + 1 && is_basic_col(v, mi, jj) implies basis@.contains(
                    jj as usize,
                ) by {
                    if jj < j {
                        let idx = choose|idx: int| 0 <= idx < bold.len() && bold[idx] == jj as usize;
                        assert(basis@[idx] == jj as usize);
                    } else {
                        assert(basis@[bold.len() as int] == jj as usize);
                    }
                }
            }
        } else {
            proof {
                assert(!is_basic_col(v, mi, j as int));
            }
        }
        j += 1;
    }
    basis
}

// ---------------------------------------------------------------------------
// Pivot selection.
// ---------------------------------------------------------------------------

/// Entering-column selection (Dantzig's rule): the first column whose
/// objective-row coefficient is minimal, provided that minimum is negative.
/// Returns `None` exactly when the tableau is already optimal.
#[verifier::loop_isolation(false)]
pub fn find_pivot_column(t: &Tableau) -> (r: Option<usize>)
    requires
        t.wf(),
    ensures
        r matches Some(c) ==> is_entering_col(
            t@,
            t.num_constraints as int,
            t.num_vars as int,
            c as int,
        ),
        (r is None) <==> obj_row_nonneg(t@, t.num_constraints as int, t.num_vars as int),
{
    let m: usize = t.num_constraints;
    let n: usize = t.num_vars;
    let ghost v = t@;
    let ghost mi = m as int;
    let mut best: usize = 0;
    let mut found: bool = false;
    let mut j: usize = 0;
    while j < n
        invariant
            j <= n,
            !found ==> forall|k: int| 0 <= k < j ==> !q_is_neg(#[trigger] v[mi][k]),
            found ==> best < j && q_is_neg(v[mi][best as int]),
            found ==> forall|k: int| 0 <= k < j ==> q_le(v[mi][best as int], #[trigger] v[mi][k]),
            found ==> forall|k: int| 0 <= k < best ==> q_lt(v[mi][best as int], #[trigger] v[mi][k]),
        decreases n - j,
    {
        proof {
            assert(t.rows@.len() == v.len());
            assert(t.rows@[mi]@.len() == v[mi].len());
        }
        let e: Rat = t.rows[m][j];
        proof {
            assert(e@ == v[mi][j as int]);
            assert(q_bounded(e@));
        }
        if e.is_neg() {
            if !found {
                proof {
                    assert forall|k: int| 0 <= k < j implies q_lt(e@, #[trigger] v[mi][k]) by {
                        assert(q_bounded(v[mi][k]));
                        lemma_q_neg_lt_nonneg(e@, v[mi][k]);
                    }
                }
                found = true;
                best = j;
            } else {
                let b: Rat = t.rows[m][best];
                proof {
                    assert(b@ == v[mi][best as int]);
                    assert(q_bounded(b@));
                }
                if e.lt(&b) {
                    proof {
                        assert forall|k: int| 0 <= k < j implies q_lt(e@, #[trigger] v[mi][k]) by {
                            assert(q_bounded(v[mi][k]));
                            if k != best as int {
                                lemma_q_lt_le_trans(e@, b@, v[mi][k]);
                            }
                        }
                    }
                    best = j;
                }
            }
        } else {
            proof {
                if found {
                    assert(q_bounded(v[mi][best as int]));
                    lemma_q_neg_lt_nonneg(v[mi][best as int], e@);
                }
            }
        }
        j += 1;
    }
    if found {
        Some(best)
    } else {
        None
    }
}

/// The outcome of the minimum-ratio test.
#[derive(Clone, Copy, Debug, PartialEq, Eq, Structural)]
pub enum RowSelection {
    /// The leaving row for the given entering column.
    Leaving(usize),
    /// No constraint row has a positive entry in the column; the objective
    /// is unbounded along that variable's direction.
    NoPositive,
    /// Some ratio of the test does not fit the machine range.
    Overflow,
}

/// Leaving-row selection (minimum-ratio test): among the constraint rows
/// with a strictly positive entry in column `c`, the first row minimizing
/// `rhs / entry`.
#[verifier::loop_isolation(false)]
pub fn find_pivot_row(t: &Tableau, c: usize) -> (r: RowSelection)
    requires
        t.wf(),
        (c as int) < t.num_vars as int,
    ensures
        r matches RowSelection::Leaving(i) ==> is_leaving_row(
            t@,
            t.num_constraints as int,
            t.num_vars as int,
            c as int,
            i as int,
        ),
        (r == RowSelection::NoPositive) <==> col_has_no_positive(
            t@,
            t.num_constraints as int,
            c as int,
        ),
        (r == RowSelection::Overflow) <==> (exists|i: int|
            0 <= i < t.num_constraints as int && q_is_pos(#[trigger] t@[i][c as int])
                && !q_div_fits(t@[i][t.num_vars as int], t@[i][c as int])),
{
    let m: usize = t.num_constraints;
    let n: usize = t.num_vars;
    let ghost v = t@;
    let ghost mi = m as int;
    let ghost ni = n as int;
    let ghost ci = c as int;
    let mut i: usize = 0;
    let mut found: bool = false;
    let mut best_row: usize = 0;
    let mut best_ratio: Rat = Rat::zero();
    while i < m
        invariant
            i <= m,
            !found ==> forall|k: int| 0 <= k < i ==> !q_is_pos(#[trigger] v[k][ci]),
            forall|k: int|
                0 <= k < i && q_is_pos(#[trigger] v[k][ci]) ==> q_div_fits(v[k][ni], v[k][ci]),
            found ==> best_row < i && q_is_pos(v[best_row as int][ci]),
            found ==> best_ratio.wf() && q_eq(best_ratio@, ratio_of(v, ni, ci, best_row as int)),
            found ==> forall|k: int|
                0 <= k < i && q_is_pos(#[trigger] v[k][ci]) ==> q_le(
                    ratio_of(v, ni, ci, best_row as int),
                    ratio_of(v, ni, ci, k),
                ),
            found ==> forall|k: int|
                0 <= k < best_row && q_is_pos(#[trigger] v[k][ci]) ==> q_lt(
                    ratio_of(v, ni, ci, best_row as int),
                    ratio_of(v, ni, ci, k),
                ),
        decreases m - i,
    {
        proof {
            assert(t.rows@.len() == v.len());
            assert(t.rows@[i as int]@.len() == v[i as int].len());
        }
        let e: Rat = t.rows[i][c];
        proof {
            assert(e@ == v[i as int][ci]);
            assert(q_bounded(e@));
        }
        if e.is_pos() {
            let rhs: Rat = t.rows[i][n];
            proof {
                assert(rhs@ == v[i as int][ni]);
                assert(q_bounded(rhs@));
            }
            match rhs.checked_div(&e) {
                None => {
                    return RowSelection::Overflow;
                },
                Some(q) => {
                    proof {
                        assert(q_eq(q@, ratio_of(v, ni, ci, i as int)));
                        assert(q_wf(ratio_of(v, ni, ci, i as int))) by {
                            lemma_pos_prod(rhs@.d, e@.n);
                        }
                    }
                    if !found {
                        found = true;
                        best_row = i;
                        best_ratio = q;
                    } else {
                        let b: Rat = best_ratio;
                        proof {
                            assert(q_wf(ratio_of(v, ni, ci, best_row as int))) by {
                                lemma_pos_prod(
                                    v[best_row as int][ni].d,
                                    v[best_row as int][ci].n,
                                );
                            }
                        }
                        if q.lt(&b) {
                            proof {
                                lemma_q_lt_congr(
                                    q@,
                                    b@,
                                    ratio_of(v, ni, ci, i as int),
                                    ratio_of(v, ni, ci, best_row as int),
                                );
                                assert forall|k: int|
                                    0 <= k < i && q_is_pos(#[trigger] v[k][ci]) implies q_lt(
                                    ratio_of(v, ni, ci, i as int),
                                    ratio_of(v, ni, ci, k),
                                ) by {
                                    assert(q_wf(ratio_of(v, ni, ci, k))) by {
                                        lemma_pos_prod(v[k][ni].d, v[k][ci].n);
                                    }
                                    lemma_q_lt_le_trans(
                                        ratio_of(v, ni, ci, i as int),
                                        ratio_of(v, ni, ci, best_row as int),
                                        ratio_of(v, ni, ci, k),
                                    );
                                }
                            }
                            best_row = i;
                            best_ratio = q;
                        } else {
                            proof {
                                lemma_q_le_congr(
                                    b@,
                                    q@,
                                    ratio_of(v, ni, ci, best_row as int),
                                    ratio_of(v, ni, ci, i as int),
                                );
                            }
                        }
                    }
                },
            }
        }
        i += 1;
    }
    if found {
        RowSelection::Leaving(best_row)
    } else {
        RowSelection::NoPositive
    }
}

// ---------------------------------------------------------------------------
// The pivot.
// ---------------------------------------------------------------------------

/// Every entry of the pivoted tableau fits the machine range: each
/// normalized pivot-row quotient is representable, and for every other row
/// so are the product with the canonical quotient and the final
/// difference.  This is exactly the condition under which
/// [`pivot_operation`] succeeds.
pub open spec fn pivot_fits(v: Seq<Seq<Q>>, m: int, n: int, r: int, c: int) -> bool {
    &&& forall|j: int| 0 <= j <= n ==> q_div_fits(#[trigger] v[r][j], v[r][c])
    &&& forall|i: int, j: int|
        #![trigger v[i][c], v[r][j]]
        0 <= i <= m && i != r && 0 <= j <= n ==> (q_mul_fits(
            v[i][c],
            q_canon(q_div(v[r][j], v[r][c])),
        ) && q_sub_fits(
            v[i][j],
            q_canon(q_mul(v[i][c], q_canon(q_div(v[r][j], v[r][c])))),
        ))
}

/// One Gauss-Jordan pivot on `(pivot_row, pivot_col)`: row `pivot_row` is
/// divided by the pivot entry, and from every other row (the objective row
/// included) the pivot-column multiple of the normalized pivot row is
/// subtracted, zeroing the pivot column outside the pivot row.
///
/// The next tableau is built aside and installed only when every entry
/// fits the machine range; otherwise the function returns `false` and the
/// tableau is left untouched.
#[verifier::loop_isolation(false)]
#[verifier::spinoff_prover]
#[verifier::rlimit(50)]
pub fn pivot_operation(t: &mut Tableau, pivot_row: usize, pivot_col: usize) -> (ok: bool)
    requires
        old(t).wf(),
        pivot_row as int <= old(t).num_constraints as int,
        pivot_col as int <= old(t).num_vars as int,
        !q_is_zero(old(t)@[pivot_row as int][pivot_col as int]),
    ensures
        ok ==> {
            &&& final(t).wf()
            &&& final(t).num_constraints == old(t).num_constraints
            &&& final(t).num_vars == old(t).num_vars
            &&& pivot_rel(
                old(t)@,
                final(t)@,
                old(t).num_constraints as int,
                old(t).num_vars as int,
                pivot_row as int,
                pivot_col as int,
            )
        },
        !ok ==> *final(t) == *old(t),
        ok <==> pivot_fits(
            old(t)@,
            old(t).num_constraints as int,
            old(t).num_vars as int,
            pivot_row as int,
            pivot_col as int,
        ),
{
    let m: usize = t.num_constraints;
    let n: usize = t.num_vars;
    let ghost v = t@;
    let ghost mi = m as int;
    let ghost ni = n as int;
    let ghost pr = pivot_row as int;
    let ghost pc = pivot_col as int;
    proof {
        assert(t.rows@.len() == v.len());
        assert(t.rows@[pr]@.len() == v[pr].len());
    }
    let p: Rat = t.rows[pivot_row][pivot_col];
    proof {
        assert(p@ == v[pr][pc]);
        assert(q_bounded(p@));
    }
    // Normalize the pivot row into a fresh vector.
    let mut norm: Vec<Rat> = Vec::new();
    let mut j: usize = 0;
    while j < n + 1
        invariant
            j <= n + 1,
            norm@.len() == j,
            forall|k: int| 0 <= k < j ==> (#[trigger] norm@[k]).wf(),
            forall|k: int| 0 <= k < j ==> q_eq((#[trigger] norm@[k])@, q_div(v[pr][k], v[pr][pc])),
            forall|k: int| 0 <= k < j ==> q_div_fits(#[trigger] v[pr][k], v[pr][pc]),
            forall|k: int|
                0 <= k < j ==> (#[trigger] norm@[k])@ == q_canon(q_div(v[pr][k], v[pr][pc])),
        decreases n + 1 - j,
    {
        let e: Rat = t.rows[pivot_row][j];
        proof {
            assert(e@ == v[pr][j as int]);
            assert(q_bounded(e@));
        }
        match e.checked_div(&p) {
            None => {
                proof {
                    assert(!q_div_fits(v[pr][j as int], v[pr][pc]));
                    assert(!pivot_fits(v, mi, ni, pr, pc));
                }
                return false;
            },
            Some(q) => {
                norm.push(q);
            },
        }
        j += 1;
    }
    // Build every row of the next tableau.
    let mut new_rows: Vec<Vec<Rat>> = Vec::new();
    let mut i: usize = 0;
    while i < m + 1
        invariant
            i <= m + 1,
            new_rows@.len() == i,
            forall|ii: int| 0 <= ii < i ==> (#[trigger] new_rows@[ii])@.len() == n + 1,
            forall|ii: int, k: int|
                0 <= ii < i && 0 <= k < n + 1 ==> (#[trigger] new_rows@[ii]@[k]).wf(),
            pr < i ==> (forall|k: int|
                0 <= k < n + 1 ==> #[trigger] new_rows@[pr]@[k] == norm@[k]),
            forall|ii: int, k: int|
                0 <= ii < i && ii != pr && 0 <= k < n + 1 ==> q_eq(
                    (#[trigger] new_rows@[ii]@[k])@,
                    q_sub(v[ii][k], q_mul(v[ii][pc], q_div(v[pr][k], v[pr][pc]))),
                ),
            forall|ii: int, k: int|
                #![trigger v[ii][pc], v[pr][k]]
                0 <= ii < i && ii != pr && 0 <= k < n + 1 ==> (q_mul_fits(
                    v[ii][pc],
                    q_canon(q_div(v[pr][k], v[pr][pc])),
                ) && q_sub_fits(
                    v[ii][k],
                    q_canon(q_mul(v[ii][pc], q_canon(q_div(v[pr][k], v[pr][pc])))),
                )),
        decreases m + 1 - i,
    {
        if i == pivot_row {
            let mut cp: Vec<Rat> = Vec::new();
            let mut k: usize = 0;
            while k < n + 1
                invariant
                    k <= n + 1,
                    cp@.len() == k,
                    forall|kk: int| 0 <= kk < k ==> #[trigger] cp@[kk] == norm@[kk],
                decreases n + 1 - k,
            {
                cp.push(norm[k]);
                k += 1;
            }
            new_rows.push(cp);
        } else {
            proof {
                assert(t.rows@[i as int]@.len() == v[i as int].len());
            }
            let f: Rat = t.rows[i][pivot_col];
            proof {
                assert(f@ == v[i as int][pc]);
                assert(q_bounded(f@));
            }
            let mut row: Vec<Rat> = Vec::new();
            let mut k: usize = 0;
            while k < n + 1
                invariant
                    k <= n + 1,
                    i < m + 1,
                    i as int != pr,
                    f@ == v[i as int][pc],
                    row@.len() == k,
                    forall|kk: int| 0 <= kk < k ==> (#[trigger] row@[kk]).wf(),
                    forall|kk: int|
                        0 <= kk < k ==> q_eq(
                            (#[trigger] row@[kk])@,
                            q_sub(v[i as int][kk], q_mul(v[i as int][pc], q_div(v[pr][kk], v[pr][pc]))),
                        ),
                    forall|kk: int|
                        #![trigger v[pr][kk]]
                        0 <= kk < k ==> (q_mul_fits(
                            v[i as int][pc],
                            q_canon(q_div(v[pr][kk], v[pr][pc])),
                        ) && q_sub_fits(
                            v[i as int][kk],
                            q_canon(q_mul(v[i as int][pc], q_canon(q_div(v[pr][kk], v[pr][pc])))),
                        )),
                decreases n + 1 - k,
            {
                let nv: Rat = norm[k];
                proof {
                    assert(nv@ == q_canon(q_div(v[pr][k as int], v[pr][pc])));
                }
                match f.checked_mul(&nv) {
                    None => {
                        proof {
                            assert(q_bounded(v[i as int][k as int]));
                            assert(!q_mul_fits(
                                v[i as int][pc],
                                q_canon(q_div(v[pr][k as int], v[pr][pc])),
                            ));
                            assert(!pivot_fits(v, mi, ni, pr, pc));
                        }
                        return false;
                    },
                    Some(prod) => {
                        let e: Rat = t.rows[i][k];
                        proof {
                            assert(e@ == v[i as int][k as int]);
                            assert(q_bounded(e@));
                        }
                        match e.checked_sub(&prod) {
                            None => {
                                proof {
                                    assert(q_mul(f@, nv@) == q_mul(
                                        v[i as int][pc],
                                        q_canon(q_div(v[pr][k as int], v[pr][pc])),
                                    ));
                                    assert(!q_sub_fits(
                                        v[i as int][k as int],
                                        q_canon(q_mul(
                                            v[i as int][pc],
                                            q_canon(q_div(v[pr][k as int], v[pr][pc])),
                                        )),
                                    ));
                                    assert(!pivot_fits(v, mi, ni, pr, pc));
                                }
                                return false;
                            },
                            Some(res) => {
                                proof {
                                    let target_div = q_div(v[pr][k as int], v[pr][pc]);
                                    lemma_q_mul_congr_right(f@, nv@, target_div);
                                    lemma_pos_prod(f@.d, nv@.d);
                                    lemma_q_eq_trans(
                                        prod@,
                                        q_mul(f@, nv@),
                                        q_mul(f@, target_div),
                                    );
                                    lemma_q_sub_congr_right(e@, prod@, q_mul(f@, target_div));
                                    lemma_pos_prod(e@.d, prod@.d);
                                    lemma_q_eq_trans(
                                        res@,
                                        q_sub(e@, prod@),
                                        q_sub(e@, q_mul(f@, target_div)),
                                    );
                                    assert(q_mul(f@, nv@) == q_mul(
                                        v[i as int][pc],
                                        q_canon(q_div(v[pr][k as int], v[pr][pc])),
                                    ));
                                    assert(prod@ == q_canon(q_mul(
                                        v[i as int][pc],
                                        q_canon(q_div(v[pr][k as int], v[pr][pc])),
                                    )));
                                    assert(q_mul_fits(
                                        v[i as int][pc],
                                        q_canon(q_div(v[pr][k as int], v[pr][pc])),
                                    ));
                                    assert(q_sub_fits(
                                        v[i as int][k as int],
                                        q_canon(q_mul(
                                            v[i as int][pc],
                                            q_canon(q_div(v[pr][k as int], v[pr][pc])),
                                        )),
                                    ));
                                }
                                row.push(res);
                            },
                        }
                    },
                }
                proof {
                    assert forall|kk: int|
                        #![trigger v[pr][kk]]
                        0 <= kk < k + 1 implies (q_mul_fits(
                        v[i as int][pc],
                        q_canon(q_div(v[pr][kk], v[pr][pc])),
                    ) && q_sub_fits(
                        v[i as int][kk],
                        q_canon(q_mul(v[i as int][pc], q_canon(q_div(v[pr][kk], v[pr][pc])))),
                    )) by {
                        if kk < k as int {
                            assert(q_bounded(v[pr][kk]));
                            assert(q_mul_fits(
                                v[i as int][pc],
                                q_canon(q_div(v[pr][kk], v[pr][pc])),
                            ));
                            assert(q_sub_fits(
                                v[i as int][kk],
                                q_canon(q_mul(
                                    v[i as int][pc],
                                    q_canon(q_div(v[pr][kk], v[pr][pc])),
                                )),
                            ));
                        } else {
                            assert(q_mul_fits(
                                v[i as int][pc],
                                q_canon(q_div(v[pr][k as int], v[pr][pc])),
                            ));
                            assert(q_sub_fits(
                                v[i as int][k as int],
                                q_canon(q_mul(
                                    v[i as int][pc],
                                    q_canon(q_div(v[pr][k as int], v[pr][pc])),
                                )),
                            ));
                        }
                    }
                }
                k += 1;
            }
            new_rows.push(row);
        }
        proof {
            assert forall|ii: int, k2: int|
                #![trigger v[ii][pc], v[pr][k2]]
                0 <= ii < i + 1 && ii != pr && 0 <= k2 < n + 1 implies (q_mul_fits(
                v[ii][pc],
                q_canon(q_div(v[pr][k2], v[pr][pc])),
            ) && q_sub_fits(
                v[ii][k2],
                q_canon(q_mul(v[ii][pc], q_canon(q_div(v[pr][k2], v[pr][pc])))),
            )) by {
                assert(q_bounded(v[ii][k2]));
                assert(q_bounded(v[pr][k2]));
            }
        }
        i += 1;
    }
    t.rows = new_rows;
    proof {
        assert forall|ii: int, k: int| 0 <= ii <= mi && 0 <= k <= ni implies #[trigger] t@[ii][k]
            == new_rows@[ii]@[k]@ by {
            assert(t@[ii] == new_rows@[ii].deep_view());
        }
        assert forall|ii: int| 0 <= ii <= mi implies (#[trigger] t@[ii]).len() == ni + 1 by {
            assert(t@[ii] == new_rows@[ii].deep_view());
        }
        assert(mat_wf(t@, mi, ni));
        assert forall|j2: int| 0 <= j2 <= ni implies q_div_fits(
            #[trigger] v[pr][j2],
            v[pr][pc],
        ) by {}
        assert forall|ii: int, k2: int|
            #![trigger v[ii][pc], v[pr][k2]]
            0 <= ii <= mi && ii != pr && 0 <= k2 <= ni implies (q_mul_fits(
            v[ii][pc],
            q_canon(q_div(v[pr][k2], v[pr][pc])),
        ) && q_sub_fits(
            v[ii][k2],
            q_canon(q_mul(v[ii][pc], q_canon(q_div(v[pr][k2], v[pr][pc])))),
        )) by {
            assert(q_bounded(v[ii][k2]));
            assert(q_bounded(v[pr][k2]));
        }
        assert(pivot_fits(v, mi, ni, pr, pc));
    }
    true
}

// ---------------------------------------------------------------------------
// Construction from problem data.
// ---------------------------------------------------------------------------

/// The problem data is well-formed: `a` is a `b.len() x c.len()` matrix,
/// every entry is representable, and the dimensions leave room for the
/// extra tableau row and column.
pub open spec fn problem_wf(c: Seq<Q>, a: Seq<Seq<Q>>, b: Seq<Q>) -> bool {
    &&& a.len() == b.len()
    &&& forall|i: int| 0 <= i < a.len() ==> (#[trigger] a[i]).len() == c.len()
    &&& forall|i: int, j: int|
        0 <= i < a.len() && 0 <= j < c.len() ==> q_bounded(#[trigger] a[i][j])
    &&& forall|j: int| 0 <= j < c.len() ==> q_bounded(#[trigger] c[j])
    &&& forall|i: int| 0 <= i < b.len() ==> q_bounded(#[trigger] b[i])
    &&& b.len() < usize::MAX
    &&& c.len() < usize::MAX
}

/// The initial tableau: `a` in the top-left block, `b` in the last column,
/// the negated objective in the last row, and zero in the corner.
pub open spec fn init_tableau(c: Seq<Q>, a: Seq<Seq<Q>>, b: Seq<Q>) -> Seq<Seq<Q>> {
    Seq::new(
        (b.len() + 1) as nat,
        |i: int|
            if i < b.len() as int {
                a[i].push(b[i])
            } else {
                Seq::new(
                    (c.len() + 1) as nat,
                    |j: int|
                        if j < c.len() as int {
                            q_neg(c[j])
                        } else {
                            q_zero()
                        },
                )
            },
    )
}

/// Allocate the initial tableau for objective `c`, constraints `a` and
/// right-hand sides `b`.
#[verifier::loop_isolation(false)]
pub fn build_tableau(c: &Vec<Rat>, a: &Vec<Vec<Rat>>, b: &Vec<Rat>) -> (t: Tableau)
    requires
        problem_wf(c.deep_view(), a.deep_view(), b.deep_view()),
    ensures
        t.wf(),
        t.num_constraints == b.len(),
        t.num_vars == c.len(),
        t@ == init_tableau(c.deep_view(), a.deep_view(), b.deep_view()),
{
    let m: usize = b.len();
    let n: usize = c.len();
    let ghost cv = c.deep_view();
    let ghost av = a.deep_view();
    let ghost bv = b.deep_view();
    let mut rows: Vec<Vec<Rat>> = Vec::new();
    let mut i: usize = 0;
    while i < m
        invariant
            i <= m,
            rows@.len() == i,
            forall|ii: int| 0 <= ii < i ==> (#[trigger] rows@[ii])@.len() == n + 1,
            forall|ii: int, k: int|
                0 <= ii < i && 0 <= k < n ==> (#[trigger] rows@[ii]@[k])@ == av[ii][k],
            forall|ii: int| 0 <= ii < i ==> (#[trigger] rows@[ii])@[n as int]@ == bv[ii],
        decreases m - i,
    {
        proof {
            assert(a@.len() == av.len());
            assert(a@[i as int]@.len() == av[i as int].len());
        }
        let mut row: Vec<Rat> = Vec::new();
        let mut k: usize = 0;
        while k < n
            invariant
                k <= n,
                i < m,
                row@.len() == k,
                forall|kk: int| 0 <= kk < k ==> (#[trigger] row@[kk])@ == av[i as int][kk],
            decreases n - k,
        {
            let e: Rat = a[i][k];
            proof {
                assert(e@ == av[i as int][k as int]);
            }
            row.push(e);
            k += 1;
        }
        let rb: Rat = b[i];
        proof {
            assert(rb@ == bv[i as int]);
        }
        row.push(rb);
        rows.push(row);
        i += 1;
    }
    let mut obj: Vec<Rat> = Vec::new();
    let mut k: usize = 0;
    while k < n
        invariant
            k <= n,
            obj@.len() == k,
            forall|kk: int| 0 <= kk < k ==> (#[trigger] obj@[kk])@ == q_neg(cv[kk]),
            forall|kk: int| 0 <= kk < k ==> (#[trigger] obj@[kk]).wf(),
        decreases n - k,
    {
        let e: Rat = c[k];
        proof {
            assert(e@ == cv[k as int]);
            assert(q_bounded(e@));
        }
        obj.push(e.neg());
        k += 1;
    }
    obj.push(Rat::zero());
    rows.push(obj);
    let t = Tableau { rows, num_constraints: m, num_vars: n };
    proof {
        let iv = init_tableau(cv, av, bv);
        assert(bv.len() == m as int);
        assert(cv.len() == n as int);
        assert(t@.len() == m + 1);
        assert forall|ii: int| 0 <= ii < m + 1 implies #[trigger] t@[ii] == iv[ii] by {
            assert(t@[ii] == t.rows@[ii].deep_view());
            if ii < m as int {
                assert(iv[ii] == av[ii].push(bv[ii]));
                assert(av[ii].len() == n as int);
                assert forall|k2: int| 0 <= k2 < n + 1 implies #[trigger] t@[ii][k2]
                    == iv[ii][k2] by {
                    assert(t@[ii][k2] == t.rows@[ii]@[k2]@);
                }
                assert(t@[ii] =~= iv[ii]);
            } else {
                assert forall|k2: int| 0 <= k2 < n + 1 implies #[trigger] t@[ii][k2]
                    == iv[ii][k2] by {
                    assert(t@[ii][k2] == t.rows@[ii]@[k2]@);
                }
                assert(t@[ii] =~= iv[ii]);
            }
        }
        assert(t@ =~= iv);
        assert forall|ii: int, k2: int| 0 <= ii <= m as int && 0 <= k2 <= n as int
            implies q_bounded(#[trigger] t@[ii][k2]) by {
            assert(t@[ii][k2] == t.rows@[ii]@[k2]@);
            if ii < m as int {
                if k2 < n as int {
                    assert(t@[ii][k2] == av[ii][k2]);
                } else {
                    assert(t@[ii][k2] == bv[ii]);
                }
            } else {
                if k2 < n as int {
                    assert(q_bounded(cv[k2]));
                }
            }
        }
        assert(mat_wf(t@, m as int, n as int));
    }
    t
}

/// The shape accepted by [`Tableau::new`]: at least one row and one column,
/// rectangular, with every entry well-formed.
pub open spec fn tableau_shape(v: Seq<Seq<Q>>) -> bool {
    &&& v.len() >= 1
    &&& v[0].len() >= 1
    &&& forall|i: int| 0 <= i < v.len() ==> (#[trigger] v[i]).len() == v[0].len()
    &&& forall|i: int, j: int|
        0 <= i < v.len() && 0 <= j < v[0].len() ==> q_bounded(#[trigger] v[i][j])
}

} // verus!
