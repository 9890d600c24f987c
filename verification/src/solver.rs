//! The simplex termination loop and the top-level solver.
//!
//! The loop repeats: optimality test; on failure, entering-column and
//! leaving-row selection; on success of both, one Gauss-Jordan pivot.  It
//! stops with [`SolveStatus::Optimal`] when no objective-row coefficient is
//! negative, with [`SolveStatus::Unbounded`] when the entering column has no
//! positive constraint entry, with [`SolveStatus::Overflow`] when an exact
//! intermediate value does not fit the machine range, and with
//! [`SolveStatus::PivotLimit`] when the caller's pivot cap is exhausted (the
//! algorithm itself has no anti-cycling rule, so a degenerate problem may
//! pivot forever; the cap makes that bound explicit instead of hiding it).
//!
//! The contract ties the final tableau to the initial one through
//! [`reaches`]: a chain of pivots, each on a column selected by Dantzig's
//! rule and a row selected by the minimum-ratio test.

use vstd::prelude::*;
use crate::rational::{
    Q, Rat, q_eq, q_wf, q_sub, q_neg, q_mul, q_zero, q_is_neg, q_is_pos, q_is_zero, q_div_fits,
    lemma_q_eq_trans, lemma_q_sub_wf,
};
use crate::tableau::{
    Tableau, RowSelection, build_tableau, extract_solution, find_pivot_column, find_pivot_row,
    pivot_operation, is_entering_col, is_leaving_row, is_extracted_solution, col_has_no_positive,
    obj_row_nonneg, pivot_rel, problem_wf, init_tableau, mat_wf, q_bounded, dot_prefix,
    satisfies_constraint_rows, unit_col_for_row, solution_entry, is_basic_col, basic_row_of,
    is_unit_row, objective_gap, pivot_fits, rhs_nonneg, find_unit_row, lemma_unit_row_unique,
    lemma_pivot_preserves_feasibility,
    lemma_entering_col_unique, lemma_pivot_preserves_satisfaction,
    lemma_extraction_satisfies_row, lemma_pivot_preserves_gap, lemma_dot_prefix_zero,
    lemma_dot_prefix_wf,
};

verus! {

/// How a run of the termination loop ended.
#[derive(Clone, Copy, Debug, PartialEq, Eq, Structural)]
pub enum SolveStatus {
    /// Every objective-row coefficient is non-negative: the basic solution
    /// of the final tableau is optimal.
    Optimal,
    /// The entering column had no positive constraint entry: the objective
    /// grows without limit along that variable's direction.
    Unbounded,
    /// The pivot cap was reached before the loop terminated.
    PivotLimit,
    /// An exact intermediate value did not fit the machine range.
    Overflow,
}

/// The result of [`simplex_solver`]: the solution vector and objective
/// value at the optimum, or the reason none was produced.
#[derive(Debug)]
pub enum SolveResult {
    /// An optimum was found: the value of every variable (structural and
    /// slack, in column order) and the objective value.
    Optimal { solution: Vec<Rat>, objective: Rat },
    /// The problem is unbounded.
    Unbounded,
    /// The pivot cap was reached first.
    PivotLimit,
    /// An exact intermediate value did not fit the machine range.
    Overflow,
}

/// One simplex step: a pivot on the entering column of `v1` and the
/// leaving row of the minimum-ratio test.
pub open spec fn simplex_step(v1: Seq<Seq<Q>>, v2: Seq<Seq<Q>>, m: int, n: int) -> bool {
    exists|r: int, c: int|
        is_entering_col(v1, m, n, c) && is_leaving_row(v1, m, n, c, r) && #[trigger] pivot_rel(
            v1,
            v2,
            m,
            n,
            r,
            c,
        )
}

/// `v2` arises from `v1` by exactly `k` simplex steps.
pub open spec fn reaches_in(v1: Seq<Seq<Q>>, v2: Seq<Seq<Q>>, m: int, n: int, k: nat) -> bool
    decreases k,
{
    if k == 0 {
        v2 == v1
    } else {
        exists|mid: Seq<Seq<Q>>|
            reaches_in(v1, mid, m, n, (k - 1) as nat) && #[trigger] simplex_step(mid, v2, m, n)
    }
}

/// `v2` arises from `v1` by a finite chain of simplex steps.
pub open spec fn reaches(v1: Seq<Seq<Q>>, v2: Seq<Seq<Q>>, m: int, n: int) -> bool {
    exists|k: nat| reaches_in(v1, v2, m, n, k)
}

proof fn lemma_reaches_in_wf(v0: Seq<Seq<Q>>, vf: Seq<Seq<Q>>, m: int, n: int, k: nat)
    requires
        mat_wf(v0, m, n),
        reaches_in(v0, vf, m, n, k),
    ensures
        mat_wf(vf, m, n),
    decreases k,
{
    if k > 0 {
        let mid = choose|mid: Seq<Seq<Q>>|
            reaches_in(v0, mid, m, n, (k - 1) as nat) && #[trigger] simplex_step(mid, vf, m, n);
        lemma_reaches_in_wf(v0, mid, m, n, (k - 1) as nat);
        let (r, c) = choose|r: int, c: int|
            is_entering_col(mid, m, n, c) && is_leaving_row(mid, m, n, c, r) && #[trigger] pivot_rel(
                mid,
                vf,
                m,
                n,
                r,
                c,
            );
        assert(pivot_rel(mid, vf, m, n, r, c));
    }
}

/// Satisfaction of the constraint rows transports backward along a chain
/// of simplex steps: the row operations are invertible, so whatever solves
/// the final system solves the initial one.
pub proof fn lemma_reaches_preserves_satisfaction(
    v0: Seq<Seq<Q>>,
    vf: Seq<Seq<Q>>,
    m: int,
    n: int,
    k: nat,
    s: Seq<Q>,
)
    requires
        mat_wf(v0, m, n),
        reaches_in(v0, vf, m, n, k),
        satisfies_constraint_rows(vf, m, n, s),
        forall|j: int| 0 <= j < n ==> q_wf(#[trigger] s[j]),
    ensures
        satisfies_constraint_rows(v0, m, n, s),
    decreases k,
{
    if k > 0 {
        let mid = choose|mid: Seq<Seq<Q>>|
            reaches_in(v0, mid, m, n, (k - 1) as nat) && #[trigger] simplex_step(mid, vf, m, n);
        let (r, c) = choose|r: int, c: int|
            is_entering_col(mid, m, n, c) && is_leaving_row(mid, m, n, c, r) && #[trigger] pivot_rel(
                mid,
                vf,
                m,
                n,
                r,
                c,
            );
        lemma_reaches_in_wf(v0, mid, m, n, (k - 1) as nat);
        assert(q_is_pos(mid[r][c]));
        lemma_pivot_preserves_satisfaction(mid, vf, m, n, r, c, s);
        lemma_reaches_preserves_satisfaction(v0, mid, m, n, (k - 1) as nat, s);
    }
}

/// Feasibility transports forward along a chain of simplex steps: the
/// minimum-ratio rule keeps every right-hand side non-negative.
pub proof fn lemma_reaches_preserves_feasibility(
    v0: Seq<Seq<Q>>,
    vf: Seq<Seq<Q>>,
    m: int,
    n: int,
    k: nat,
)
    requires
        mat_wf(v0, m, n),
        reaches_in(v0, vf, m, n, k),
        rhs_nonneg(v0, m, n),
    ensures
        rhs_nonneg(vf, m, n),
    decreases k,
{
    if k > 0 {
        let mid = choose|mid: Seq<Seq<Q>>|
            reaches_in(v0, mid, m, n, (k - 1) as nat) && #[trigger] simplex_step(mid, vf, m, n);
        let (r, c) = choose|r: int, c: int|
            is_entering_col(mid, m, n, c) && is_leaving_row(mid, m, n, c, r) && #[trigger] pivot_rel(
                mid,
                vf,
                m,
                n,
                r,
                c,
            );
        lemma_reaches_preserves_feasibility(v0, mid, m, n, (k - 1) as nat);
        lemma_reaches_in_wf(v0, mid, m, n, (k - 1) as nat);
        lemma_pivot_preserves_feasibility(mid, vf, m, n, r, c);
    }
}

/// Constraint row `k` carries the unit entry of exactly one basic column.
pub open spec fn row_covered(v: Seq<Seq<Q>>, m: int, n: int, k: int) -> bool {
    exists|j0: int| unit_col_for_row(v, m, n, k, j0)
}

/// Every constraint row of `v` carries the unit entry of exactly one basic
/// column.  This is the shape a proper simplex run maintains from an
/// identity slack block; a column that merely mimics a unit column breaks
/// it, and with it the extraction rule.
pub open spec fn rows_uniquely_covered(v: Seq<Seq<Q>>, m: int, n: int) -> bool {
    forall|k: int| 0 <= k < m ==> #[trigger] row_covered(v, m, n, k)
}

/// Constraint satisfaction, end to end: a solution extracted from any
/// tableau reachable by simplex steps satisfies every constraint row of
/// the initial tableau exactly, provided each constraint row of the final
/// tableau carries exactly one basic column.  For the initial tableau of
/// [`init_tableau`] this says `A . x = b` row by row, slack included — in
/// particular `A . x <= b` for the un-augmented inequalities.
pub proof fn lemma_extraction_solves_initial_system(
    v0: Seq<Seq<Q>>,
    vf: Seq<Seq<Q>>,
    m: int,
    n: int,
    s: Seq<Q>,
)
    requires
        mat_wf(v0, m, n),
        reaches(v0, vf, m, n),
        is_extracted_solution(vf, m, n, s),
        rows_uniquely_covered(vf, m, n),
    ensures
        satisfies_constraint_rows(v0, m, n, s),
{
    let k = choose|k: nat| reaches_in(v0, vf, m, n, k);
    lemma_reaches_in_wf(v0, vf, m, n, k);
    assert forall|j: int| 0 <= j < n implies q_wf(#[trigger] s[j]) by {
        assert(s[j] == solution_entry(vf, m, n, j));
        if is_basic_col(vf, m, j) {
            let i0 = basic_row_of(vf, m, j);
            assert(is_unit_row(vf, m, j, i0));
            assert(q_bounded(vf[i0][n]));
        }
    }
    assert forall|kk: int| 0 <= kk < m implies q_eq(
        #[trigger] dot_prefix(vf[kk], s, n),
        vf[kk][n],
    ) by {
        assert(row_covered(vf, m, n, kk));
        let j0 = choose|j0: int| unit_col_for_row(vf, m, n, kk, j0);
        lemma_extraction_satisfies_row(vf, m, n, s, kk, j0);
    }
    lemma_reaches_preserves_satisfaction(v0, vf, m, n, k, s);
}

proof fn lemma_reaches_gap(v0: Seq<Seq<Q>>, vf: Seq<Seq<Q>>, m: int, n: int, k: nat, s: Seq<Q>)
    requires
        mat_wf(v0, m, n),
        reaches_in(v0, vf, m, n, k),
        satisfies_constraint_rows(vf, m, n, s),
        forall|j: int| 0 <= j < n ==> q_wf(#[trigger] s[j]),
    ensures
        q_eq(objective_gap(v0, m, n, s), objective_gap(vf, m, n, s)),
    decreases k,
{
    if k > 0 {
        let mid = choose|mid: Seq<Seq<Q>>|
            reaches_in(v0, mid, m, n, (k - 1) as nat) && #[trigger] simplex_step(mid, vf, m, n);
        let (r, c) = choose|r: int, c: int|
            is_entering_col(mid, m, n, c) && is_leaving_row(mid, m, n, c, r) && #[trigger] pivot_rel(
                mid,
                vf,
                m,
                n,
                r,
                c,
            );
        lemma_reaches_in_wf(v0, mid, m, n, (k - 1) as nat);
        assert(q_is_pos(mid[r][c]));
        lemma_pivot_preserves_satisfaction(mid, vf, m, n, r, c, s);
        lemma_pivot_preserves_gap(mid, vf, m, n, r, c, s);
        lemma_reaches_gap(v0, mid, m, n, (k - 1) as nat, s);
        assert forall|j: int| 0 <= j < n implies q_wf(#[trigger] mid[m][j]) by {
            assert(q_bounded(mid[m][j]));
        }
        lemma_dot_prefix_wf(mid[m], s, n);
        assert(q_bounded(mid[m][n]));
        lemma_q_sub_wf(dot_prefix(mid[m], s, n), mid[m][n]);
        lemma_q_eq_trans(
            objective_gap(v0, m, n, s),
            objective_gap(mid, m, n, s),
            objective_gap(vf, m, n, s),
        );
    }
}

/// Objective-value consistency, end to end: when the final tableau's
/// objective row vanishes on its basic columns (as a proper simplex run
/// from an identity slack block maintains), the final corner equals the
/// initial objective row applied to the extracted solution.  For the
/// initial tableau of [`init_tableau`], whose objective row is the negated
/// objective with a zero corner, this says the reported objective value is
/// exactly `c . x` at the reported solution.
pub proof fn lemma_objective_value_consistent(
    v0: Seq<Seq<Q>>,
    vf: Seq<Seq<Q>>,
    m: int,
    n: int,
    s: Seq<Q>,
)
    requires
        mat_wf(v0, m, n),
        reaches(v0, vf, m, n),
        is_extracted_solution(vf, m, n, s),
        rows_uniquely_covered(vf, m, n),
        forall|j: int| 0 <= j < n && is_basic_col(vf, m, j) ==> q_is_zero(#[trigger] vf[m][j]),
    ensures
        q_eq(q_sub(v0[m][n], dot_prefix(v0[m], s, n)), vf[m][n]),
{
    let k = choose|k: nat| reaches_in(v0, vf, m, n, k);
    lemma_reaches_in_wf(v0, vf, m, n, k);
    assert forall|j: int| 0 <= j < n implies q_wf(#[trigger] s[j]) by {
        assert(s[j] == solution_entry(vf, m, n, j));
        if is_basic_col(vf, m, j) {
            let i0 = basic_row_of(vf, m, j);
            assert(is_unit_row(vf, m, j, i0));
            assert(q_bounded(vf[i0][n]));
        }
    }
    assert forall|kk: int| 0 <= kk < m implies q_eq(
        #[trigger] dot_prefix(vf[kk], s, n),
        vf[kk][n],
    ) by {
        assert(row_covered(vf, m, n, kk));
        let j0 = choose|j0: int| unit_col_for_row(vf, m, n, kk, j0);
        lemma_extraction_satisfies_row(vf, m, n, s, kk, j0);
    }
    lemma_reaches_gap(v0, vf, m, n, k, s);
    // The final dot product vanishes: each term has a zero factor.
    assert forall|j: int| 0 <= j < n implies (#[trigger] vf[m][j]).n == 0 || s[j].n == 0 by {
        assert(s[j] == solution_entry(vf, m, n, j));
        if is_basic_col(vf, m, j) {
            assert(q_is_zero(vf[m][j]));
        }
    }
    lemma_dot_prefix_zero(vf[m], s, n);
    let dotf = dot_prefix(vf[m], s, n);
    let dot0 = dot_prefix(v0[m], s, n);
    assert(q_bounded(vf[m][n]));
    assert(q_bounded(v0[m][n]));
    crate::rational::lemma_q_zero_sub(dotf, vf[m][n]);
    assert forall|j: int| 0 <= j < n implies q_wf(#[trigger] v0[m][j]) by {
        assert(q_bounded(v0[m][j]));
    }
    assert forall|j: int| 0 <= j < n implies q_wf(#[trigger] vf[m][j]) by {
        assert(q_bounded(vf[m][j]));
    }
    lemma_dot_prefix_wf(v0[m], s, n);
    lemma_dot_prefix_wf(vf[m], s, n);
    lemma_q_sub_wf(dotf, vf[m][n]);
    lemma_q_sub_wf(dot0, v0[m][n]);
    // gap(v0) ~ gap(vf) ~ -vf[m][n]
    lemma_q_eq_trans(q_sub(dot0, v0[m][n]), q_sub(dotf, vf[m][n]), q_neg(vf[m][n]));
    // Flip the difference: v0 corner minus dot ~ vf corner.
    crate::rational::lemma_q_sub_antisym(dot0, v0[m][n]);
    crate::rational::lemma_q_neg_congr(q_sub(dot0, v0[m][n]), q_neg(vf[m][n]));
    assert(q_neg(q_neg(vf[m][n])) == vf[m][n]);
    lemma_q_eq_trans(
        q_sub(v0[m][n], dot0),
        q_neg(q_sub(dot0, v0[m][n])),
        q_neg(q_neg(vf[m][n])),
    );
}

proof fn lemma_dot_prefix_same_prefix(r1: Seq<Q>, r2: Seq<Q>, x: Seq<Q>, up: int)
    requires
        0 <= up,
        forall|j: int| 0 <= j < up ==> #[trigger] r1[j] == r2[j],
    ensures
        dot_prefix(r1, x, up) == dot_prefix(r2, x, up),
    decreases up,
{
    if up > 0 {
        lemma_dot_prefix_same_prefix(r1, r2, x, up - 1);
    }
}

proof fn lemma_init_tableau_wf(c: Seq<Q>, a: Seq<Seq<Q>>, b: Seq<Q>)
    requires
        problem_wf(c, a, b),
    ensures
        mat_wf(init_tableau(c, a, b), b.len() as int, c.len() as int),
{
    let iv = init_tableau(c, a, b);
    let m = b.len() as int;
    let n = c.len() as int;
    assert forall|i: int| 0 <= i <= m implies (#[trigger] iv[i]).len() == n + 1 by {
        if i < m {
            assert(iv[i] == a[i].push(b[i]));
        }
    }
    assert forall|i: int, j: int| 0 <= i <= m && 0 <= j <= n implies q_bounded(
        #[trigger] iv[i][j],
    ) by {
        if i < m {
            assert(iv[i] == a[i].push(b[i]));
            if j < n {
                assert(iv[i][j] == a[i][j]);
            } else {
                assert(iv[i][j] == b[i]);
            }
        } else {
            if j < n {
                assert(iv[i][j] == q_neg(c[j]));
                assert(q_bounded(c[j]));
            } else {
                assert(iv[i][j] == q_zero());
            }
        }
    }
}

/// Constraint satisfaction stated on the problem data itself: a solution
/// extracted from any tableau the solver can reach satisfies `A . x = b`
/// row by row, exactly (slack columns included, so the un-augmented
/// inequalities hold with `<=`), provided each constraint row of the final
/// tableau carries exactly one basic column.
pub proof fn lemma_solution_satisfies_problem(
    c: Seq<Q>,
    a: Seq<Seq<Q>>,
    b: Seq<Q>,
    vf: Seq<Seq<Q>>,
    s: Seq<Q>,
)
    requires
        problem_wf(c, a, b),
        reaches(init_tableau(c, a, b), vf, b.len() as int, c.len() as int),
        is_extracted_solution(vf, b.len() as int, c.len() as int, s),
        rows_uniquely_covered(vf, b.len() as int, c.len() as int),
    ensures
        forall|k: int|
            0 <= k < b.len() ==> q_eq(#[trigger] dot_prefix(a[k], s, c.len() as int), b[k]),
{
    let iv = init_tableau(c, a, b);
    let m = b.len() as int;
    let n = c.len() as int;
    lemma_init_tableau_wf(c, a, b);
    lemma_extraction_solves_initial_system(iv, vf, m, n, s);
    assert forall|k: int| 0 <= k < m implies q_eq(
        #[trigger] dot_prefix(a[k], s, n),
        b[k],
    ) by {
        assert(iv[k] == a[k].push(b[k]));
        assert(q_eq(dot_prefix(iv[k], s, n), iv[k][n]));
        assert(iv[k][n] == b[k]);
        assert forall|j: int| 0 <= j < n implies #[trigger] iv[k][j] == a[k][j] by {}
        lemma_dot_prefix_same_prefix(iv[k], a[k], s, n);
    }
}

proof fn lemma_dot_prefix_negated(r1: Seq<Q>, r2: Seq<Q>, x: Seq<Q>, up: int)
    requires
        0 <= up,
        forall|j: int| 0 <= j < up ==> #[trigger] r1[j] == q_neg(r2[j]),
    ensures
        dot_prefix(r1, x, up) == q_neg(dot_prefix(r2, x, up)),
    decreases up,
{
    if up > 0 {
        lemma_dot_prefix_negated(r1, r2, x, up - 1);
        let j = up - 1;
        crate::rational::lemma_q_neg_mul_left(r2[j], x[j]);
        crate::rational::lemma_q_neg_add(dot_prefix(r2, x, j), q_mul(r2[j], x[j]));
    }
}

/// Objective-value consistency stated on the problem data itself: under
/// the same hypotheses as [`lemma_objective_value_consistent`], the corner
/// of the final tableau — the value the solver reports — equals `c . x` at
/// the extracted solution, exactly.
pub proof fn lemma_objective_matches_problem(
    c: Seq<Q>,
    a: Seq<Seq<Q>>,
    b: Seq<Q>,
    vf: Seq<Seq<Q>>,
    s: Seq<Q>,
)
    requires
        problem_wf(c, a, b),
        reaches(init_tableau(c, a, b), vf, b.len() as int, c.len() as int),
        is_extracted_solution(vf, b.len() as int, c.len() as int, s),
        rows_uniquely_covered(vf, b.len() as int, c.len() as int),
        forall|j: int|
            0 <= j < c.len() as int && is_basic_col(vf, b.len() as int, j) ==> q_is_zero(
                #[trigger] vf[b.len() as int][j],
            ),
    ensures
        q_eq(dot_prefix(c, s, c.len() as int), vf[b.len() as int][c.len() as int]),
{
    let iv = init_tableau(c, a, b);
    let m = b.len() as int;
    let n = c.len() as int;
    lemma_init_tableau_wf(c, a, b);
    lemma_objective_value_consistent(iv, vf, m, n, s);
    assert(iv[m][n] == q_zero());
    assert forall|j: int| 0 <= j < n implies #[trigger] iv[m][j] == q_neg(c[j]) by {}
    lemma_dot_prefix_negated(iv[m], c, s, n);
    let dc = dot_prefix(c, s, n);
    crate::rational::lemma_q_zero_sub(q_zero(), q_neg(dc));
    assert(q_neg(q_neg(dc)) == dc);
    let k = choose|k: nat| reaches_in(iv, vf, m, n, k);
    lemma_reaches_in_wf(iv, vf, m, n, k);
    assert forall|j: int| 0 <= j < n implies q_wf(#[trigger] s[j]) by {
        assert(s[j] == solution_entry(vf, m, n, j));
        if is_basic_col(vf, m, j) {
            let i0 = basic_row_of(vf, m, j);
            assert(is_unit_row(vf, m, j, i0));
            assert(q_bounded(vf[i0][n]));
        }
    }
    assert forall|j: int| 0 <= j < n implies q_wf(#[trigger] c[j]) by {
        assert(q_bounded(c[j]));
    }
    lemma_dot_prefix_wf(c, s, n);
    lemma_q_eq_trans(dc, q_sub(iv[m][n], dot_prefix(iv[m], s, n)), vf[m][n]);
}

/// A genuine machine-range event at tableau `v`: its entering column has
/// either a positive-entry row whose exact ratio does not fit the machine
/// range, or a leaving row whose exact pivoted tableau does not fit.
pub open spec fn overflow_evidence(v: Seq<Seq<Q>>, m: int, n: int) -> bool {
    exists|c: int|
        #[trigger] is_entering_col(v, m, n, c) && ((exists|i: int|
            0 <= i < m && q_is_pos(#[trigger] v[i][c]) && !q_div_fits(v[i][n], v[i][c])) || (
        exists|r: int|
            #[trigger] is_leaving_row(v, m, n, c, r) && !pivot_fits(v, m, n, r, c)))
}

/// Decide executably whether every constraint row of the tableau carries
/// the unit entry of exactly one basic column — the hypothesis under which
/// the extraction rule is exact.  A caller of [`solve_in_place`] can use
/// it, together with [`lemma_extraction_solves_initial_system`], to
/// certify a returned solution.
#[verifier::loop_isolation(false)]
pub fn check_rows_uniquely_covered(t: &Tableau) -> (r: bool)
    requires
        t.wf(),
    ensures
        r == rows_uniquely_covered(t@, t.num_constraints as int, t.num_vars as int),
{
    let m: usize = t.num_constraints;
    let n: usize = t.num_vars;
    let ghost v = t@;
    let ghost mi = m as int;
    let ghost ni = n as int;
    let mut k: usize = 0;
    while k < m
        invariant
            k <= m,
            forall|kk: int| 0 <= kk < k ==> #[trigger] row_covered(v, mi, ni, kk),
        decreases m - k,
    {
        let mut j: usize = 0;
        let mut found: Option<usize> = None;
        while j < n
            invariant
                j <= n,
                k < m,
                match found {
                    Some(j0) => (j0 as int) < j && is_unit_row(v, mi, j0 as int, k as int) && (
                    forall|jj: int|
                        0 <= jj < j && jj != j0 as int ==> !(#[trigger] is_unit_row(
                            v,
                            mi,
                            jj,
                            k as int,
                        ))),
                    None => forall|jj: int|
                        0 <= jj < j ==> !(#[trigger] is_unit_row(v, mi, jj, k as int)),
                },
            decreases n - j,
        {
            match find_unit_row(t, j) {
                Some(i) => {
                    if i == k {
                        if let Some(j0) = found {
                            // Two distinct columns read their value off row
                            // `k`: no single column can cover it.
                            proof {
                                assert(is_unit_row(v, mi, j0 as int, k as int));
                                assert(is_unit_row(v, mi, j as int, k as int));
                                assert forall|jc: int| !unit_col_for_row(
                                    v,
                                    mi,
                                    ni,
                                    k as int,
                                    jc,
                                ) by {
                                    if unit_col_for_row(v, mi, ni, k as int, jc) {
                                        if jc != j0 as int {
                                            assert(is_basic_col(v, mi, j0 as int));
                                            let ib = basic_row_of(v, mi, j0 as int);
                                            assert(is_unit_row(v, mi, j0 as int, ib));
                                            lemma_unit_row_unique(
                                                v,
                                                mi,
                                                ni,
                                                j0 as int,
                                                ib,
                                                k as int,
                                            );
                                        } else {
                                            assert(is_basic_col(v, mi, j as int));
                                            let ib = basic_row_of(v, mi, j as int);
                                            assert(is_unit_row(v, mi, j as int, ib));
                                            lemma_unit_row_unique(
                                                v,
                                                mi,
                                                ni,
                                                j as int,
                                                ib,
                                                k as int,
                                            );
                                        }
                                    }
                                }
                                assert(!row_covered(v, mi, ni, k as int));
                                assert(!rows_uniquely_covered(v, mi, ni));
                            }
                            return false;
                        }
                        found = Some(j);
                    } else {
                        proof {
                            if is_unit_row(v, mi, j as int, k as int) {
                                lemma_unit_row_unique(v, mi, ni, j as int, i as int, k as int);
                            }
                        }
                    }
                },
                None => {
                    proof {
                        if is_unit_row(v, mi, j as int, k as int) {
                            assert(is_basic_col(v, mi, j as int));
                        }
                    }
                },
            }
            j += 1;
        }
        match found {
            Some(j0) => {
                proof {
                    assert(unit_col_for_row(v, mi, ni, k as int, j0 as int)) by {
                        assert forall|jj: int|
                            0 <= jj < ni && jj != j0 as int && #[trigger] is_basic_col(
                                v,
                                mi,
                                jj,
                            ) implies basic_row_of(v, mi, jj) != k as int by {
                            let ib = basic_row_of(v, mi, jj);
                            assert(is_unit_row(v, mi, jj, ib));
                            if ib == k as int {
                                assert(is_unit_row(v, mi, jj, k as int));
                            }
                        }
                    }
                    assert(row_covered(v, mi, ni, k as int));
                }
            },
            None => {
                proof {
                    assert forall|jc: int| !unit_col_for_row(v, mi, ni, k as int, jc) by {
                        if unit_col_for_row(v, mi, ni, k as int, jc) {
                            assert(is_unit_row(v, mi, jc, k as int));
                        }
                    }
                    assert(!row_covered(v, mi, ni, k as int));
                    assert(!rows_uniquely_covered(v, mi, ni));
                }
                return false;
            },
        }
        k += 1;
    }
    true
}

/// Decide executably whether the objective row vanishes on every basic
/// column — the extra hypothesis of
/// [`lemma_objective_matches_problem`].
#[verifier::loop_isolation(false)]
pub fn check_basis_costs_cleared(t: &Tableau) -> (r: bool)
    requires
        t.wf(),
    ensures
        r == (forall|j: int|
            0 <= j < t.num_vars as int && is_basic_col(t@, t.num_constraints as int, j)
                ==> q_is_zero(#[trigger] t@[t.num_constraints as int][j])),
{
    let m: usize = t.num_constraints;
    let n: usize = t.num_vars;
    let ghost v = t@;
    let ghost mi = m as int;
    let mut j: usize = 0;
    while j < n
        invariant
            j <= n,
            forall|jj: int|
                0 <= jj < j && is_basic_col(v, mi, jj) ==> q_is_zero(#[trigger] v[mi][jj]),
        decreases n - j,
    {
        if find_unit_row(t, j).is_some() {
            proof {
                assert(t.rows@.len() == v.len());
                assert(t.rows@[mi]@.len() == v[mi].len());
            }
            let e: Rat = t.rows[m][j];
            proof {
                assert(e@ == v[mi][j as int]);
                assert(q_bounded(e@));
            }
            if !e.is_zero() {
                return false;
            }
        }
        j += 1;
    }
    true
}

/// Run the simplex loop in place, for at most `max_pivots` pivots.
///
/// The final tableau is always reachable from the initial one by simplex
/// steps.  `Optimal` carries the exact optimality certificate: no
/// objective-row coefficient of the final tableau is negative.  An
/// already-optimal tableau is returned untouched, without pivoting; so is
/// one whose entering column has no positive entry.  `PivotLimit` is
/// returned only after genuinely taking `max_pivots` steps on a tableau
/// that is still not optimal, and `Overflow` only with evidence of a
/// genuine machine-range event at the (still unfinished) final tableau.
#[verifier::loop_isolation(false)]
pub fn solve_in_place(t: &mut Tableau, max_pivots: usize) -> (st: SolveStatus)
    requires
        old(t).wf(),
    ensures
        final(t).wf(),
        final(t).num_constraints == old(t).num_constraints,
        final(t).num_vars == old(t).num_vars,
        reaches(old(t)@, final(t)@, old(t).num_constraints as int, old(t).num_vars as int),
        st == SolveStatus::PivotLimit ==> reaches_in(
            old(t)@,
            final(t)@,
            old(t).num_constraints as int,
            old(t).num_vars as int,
            max_pivots as nat,
        ) && !obj_row_nonneg(final(t)@, old(t).num_constraints as int, old(t).num_vars as int),
        st == SolveStatus::Overflow ==> !obj_row_nonneg(
            final(t)@,
            old(t).num_constraints as int,
            old(t).num_vars as int,
        ) && overflow_evidence(final(t)@, old(t).num_constraints as int, old(t).num_vars as int),
        st == SolveStatus::Optimal ==> obj_row_nonneg(
            final(t)@,
            old(t).num_constraints as int,
            old(t).num_vars as int,
        ),
        st == SolveStatus::Unbounded ==> (exists|c: int|
            #[trigger] is_entering_col(
                final(t)@,
                old(t).num_constraints as int,
                old(t).num_vars as int,
                c,
            ) && col_has_no_positive(final(t)@, old(t).num_constraints as int, c)),
        obj_row_nonneg(old(t)@, old(t).num_constraints as int, old(t).num_vars as int)
            ==> st == SolveStatus::Optimal && *final(t) == *old(t),
        (exists|c: int|
            #[trigger] is_entering_col(
                old(t)@,
                old(t).num_constraints as int,
                old(t).num_vars as int,
                c,
            ) && col_has_no_positive(old(t)@, old(t).num_constraints as int, c)) ==> st
            == SolveStatus::Unbounded && *final(t) == *old(t),
{
    let ghost v0 = t@;
    let ghost mi = t.num_constraints as int;
    let ghost ni = t.num_vars as int;
    let mut pivots: usize = 0;
    loop
        invariant
            t.wf(),
            t.num_constraints == old(t).num_constraints,
            t.num_vars == old(t).num_vars,
            pivots <= max_pivots,
            reaches_in(v0, t@, mi, ni, pivots as nat),
            pivots == 0 ==> *t == *old(t),
            pivots > 0 ==> !obj_row_nonneg(v0, mi, ni),
            pivots > 0 ==> !(exists|c: int|
                #[trigger] is_entering_col(v0, mi, ni, c) && col_has_no_positive(v0, mi, c)),
        decreases max_pivots - pivots,
    {
        match find_pivot_column(t) {
            None => {
                proof {
                    assert(reaches(v0, t@, mi, ni));
                    if pivots == 0 {
                        assert forall|c: int|
                            !(is_entering_col(v0, mi, ni, c) && col_has_no_positive(
                                v0,
                                mi,
                                c,
                            )) by {
                            if is_entering_col(v0, mi, ni, c) {
                                assert(crate::rational::q_is_neg(v0[mi][c]));
                            }
                        }
                    }
                }
                return SolveStatus::Optimal;
            },
            Some(c) => {
                proof {
                    assert(!obj_row_nonneg(t@, mi, ni));
                }
                match find_pivot_row(t, c) {
                    RowSelection::NoPositive => {
                        proof {
                            assert(is_entering_col(t@, mi, ni, c as int)
                                && col_has_no_positive(t@, mi, c as int));
                            assert(reaches(v0, t@, mi, ni));
                        }
                        return SolveStatus::Unbounded;
                    },
                    RowSelection::Overflow => {
                        proof {
                            if pivots == 0 {
                                assert forall|cc: int|
                                    !(is_entering_col(v0, mi, ni, cc) && col_has_no_positive(
                                        v0,
                                        mi,
                                        cc,
                                    )) by {
                                    if is_entering_col(v0, mi, ni, cc) && col_has_no_positive(
                                        v0,
                                        mi,
                                        cc,
                                    ) {
                                        lemma_entering_col_unique(v0, mi, ni, cc, c as int);
                                    }
                                }
                            }
                            assert(reaches(v0, t@, mi, ni));
                            assert(q_is_neg(t@[mi][c as int]));
                            assert(!obj_row_nonneg(t@, mi, ni));
                            assert(is_entering_col(t@, mi, ni, c as int));
                            assert(exists|i: int|
                                0 <= i < mi && q_is_pos(#[trigger] t@[i][c as int]) && !q_div_fits(
                                    t@[i][ni],
                                    t@[i][c as int],
                                ));
                            assert(overflow_evidence(t@, mi, ni));
                        }
                        return SolveStatus::Overflow;
                    },
                    RowSelection::Leaving(r) => {
                        proof {
                            if pivots == 0 {
                                assert forall|cc: int|
                                    !(is_entering_col(v0, mi, ni, cc) && col_has_no_positive(
                                        v0,
                                        mi,
                                        cc,
                                    )) by {
                                    if is_entering_col(v0, mi, ni, cc) && col_has_no_positive(
                                        v0,
                                        mi,
                                        cc,
                                    ) {
                                        lemma_entering_col_unique(v0, mi, ni, cc, c as int);
                                        assert(q_is_pos(t@[r as int][cc]));
                                    }
                                }
                            }
                        }
                        if pivots == max_pivots {
                            proof {
                                assert(reaches(v0, t@, mi, ni));
                                assert(reaches_in(v0, t@, mi, ni, max_pivots as nat));
                                assert(q_is_neg(t@[mi][c as int]));
                                assert(!obj_row_nonneg(t@, mi, ni));
                            }
                            return SolveStatus::PivotLimit;
                        }
                        let ghost curv = t@;
                        let ghost cr = r as int;
                        let ghost cc = c as int;
                        proof {
                            assert(q_is_pos(curv[cr][cc]));
                            assert(!q_is_zero(curv[cr][cc]));
                        }
                        let ok = pivot_operation(t, r, c);
                        if !ok {
                            proof {
                                assert(t@ == curv);
                                assert(reaches(v0, t@, mi, ni));
                                assert(q_is_neg(t@[mi][cc]));
                                assert(!obj_row_nonneg(t@, mi, ni));
                                assert(is_entering_col(t@, mi, ni, cc));
                                assert(is_leaving_row(t@, mi, ni, cc, cr));
                                assert(!pivot_fits(t@, mi, ni, cr, cc));
                                assert(overflow_evidence(t@, mi, ni));
                            }
                            return SolveStatus::Overflow;
                        }
                        proof {
                            assert(pivot_rel(curv, t@, mi, ni, cr, cc));
                            assert(simplex_step(curv, t@, mi, ni));
                            assert(reaches_in(v0, curv, mi, ni, pivots as nat));
                            assert(reaches_in(v0, t@, mi, ni, (pivots + 1) as nat));
                        }
                        pivots += 1;
                    },
                }
            },
        }
    }
}

/// Solve `maximize c . x  subject to  A x <= b, x >= 0`, the constraint
/// matrix already augmented with its slack columns so that the origin is a
/// basic feasible solution.  The right-hand sides are assumed non-negative;
/// that precondition is the caller's burden and is not checked, exactly as
/// the tableau layout assumes.
///
/// `max_pivots` caps the number of pivots, since no anti-cycling rule is
/// applied; pass `usize::MAX` for the practically-unbounded default.
///
/// On `Optimal`, the solution and objective value are exactly those read
/// off some tableau reachable from the initial one by simplex steps, whose
/// objective row is entirely non-negative.  An initially optimal tableau is
/// read off directly, without pivoting.
#[verifier::loop_isolation(false)]
pub fn simplex_solver(c: &Vec<Rat>, a: &Vec<Vec<Rat>>, b: &Vec<Rat>, max_pivots: usize) -> (r:
    SolveResult)
    requires
        problem_wf(c.deep_view(), a.deep_view(), b.deep_view()),
    ensures
        r matches SolveResult::Optimal { solution, objective } ==> (exists|vf: Seq<Seq<Q>>|
            {
                &&& #[trigger] reaches(
                    init_tableau(c.deep_view(), a.deep_view(), b.deep_view()),
                    vf,
                    b@.len() as int,
                    c@.len() as int,
                )
                &&& mat_wf(vf, b@.len() as int, c@.len() as int)
                &&& obj_row_nonneg(vf, b@.len() as int, c@.len() as int)
                &&& is_extracted_solution(vf, b@.len() as int, c@.len() as int, solution.deep_view())
                &&& objective@ == vf[b@.len() as int][c@.len() as int]
                &&& rows_uniquely_covered(vf, b@.len() as int, c@.len() as int) ==> (forall|k: int|
                    0 <= k < b@.len() as int ==> q_eq(
                        #[trigger] dot_prefix(
                            a.deep_view()[k],
                            solution.deep_view(),
                            c@.len() as int,
                        ),
                        b.deep_view()[k],
                    ))
                &&& (rows_uniquely_covered(vf, b@.len() as int, c@.len() as int) && (forall|j: int|
                    0 <= j < c@.len() as int && is_basic_col(vf, b@.len() as int, j) ==> q_is_zero(
                        #[trigger] vf[b@.len() as int][j],
                    ))) ==> q_eq(
                    dot_prefix(c.deep_view(), solution.deep_view(), c@.len() as int),
                    objective@,
                )
            }),
        r matches SolveResult::Optimal { solution, objective } ==> solution@.len() == c@.len()
            && (forall|k: int| 0 <= k < solution@.len() ==> (#[trigger] solution@[k]).wf())
            && objective.wf(),
        r matches SolveResult::Optimal { solution, objective } ==> ((forall|i: int|
            0 <= i < b@.len() as int ==> !q_is_neg(#[trigger] b.deep_view()[i])) ==> (forall|
            kk: int,
        |
            0 <= kk < solution@.len() ==> !q_is_neg((#[trigger] solution@[kk])@))),
        r is Unbounded ==> (exists|vf: Seq<Seq<Q>>, cc: int|
            {
                &&& reaches(
                    init_tableau(c.deep_view(), a.deep_view(), b.deep_view()),
                    vf,
                    b@.len() as int,
                    c@.len() as int,
                )
                &&& #[trigger] is_entering_col(vf, b@.len() as int, c@.len() as int, cc)
                &&& col_has_no_positive(vf, b@.len() as int, cc)
            }),
        obj_row_nonneg(
            init_tableau(c.deep_view(), a.deep_view(), b.deep_view()),
            b@.len() as int,
            c@.len() as int,
        ) ==> (r matches SolveResult::Optimal { solution, objective } && is_extracted_solution(
            init_tableau(c.deep_view(), a.deep_view(), b.deep_view()),
            b@.len() as int,
            c@.len() as int,
            solution.deep_view(),
        ) && objective@ == init_tableau(c.deep_view(), a.deep_view(), b.deep_view())[b@.len() as int][c@.len() as int]),
        (exists|cc: int|
            #[trigger] is_entering_col(
                init_tableau(c.deep_view(), a.deep_view(), b.deep_view()),
                b@.len() as int,
                c@.len() as int,
                cc,
            ) && col_has_no_positive(
                init_tableau(c.deep_view(), a.deep_view(), b.deep_view()),
                b@.len() as int,
                cc,
            )) ==> r is Unbounded,
        r is PivotLimit ==> (exists|vf: Seq<Seq<Q>>|
            {
                &&& #[trigger] reaches_in(
                    init_tableau(c.deep_view(), a.deep_view(), b.deep_view()),
                    vf,
                    b@.len() as int,
                    c@.len() as int,
                    max_pivots as nat,
                )
                &&& mat_wf(vf, b@.len() as int, c@.len() as int)
                &&& !obj_row_nonneg(vf, b@.len() as int, c@.len() as int)
            }),
        r is Overflow ==> (exists|vf: Seq<Seq<Q>>|
            {
                &&& #[trigger] reaches(
                    init_tableau(c.deep_view(), a.deep_view(), b.deep_view()),
                    vf,
                    b@.len() as int,
                    c@.len() as int,
                )
                &&& mat_wf(vf, b@.len() as int, c@.len() as int)
                &&& !obj_row_nonneg(vf, b@.len() as int, c@.len() as int)
                &&& overflow_evidence(vf, b@.len() as int, c@.len() as int)
            }),
{
    let mut t: Tableau = build_tableau(c, a, b);
    let ghost iv = init_tableau(c.deep_view(), a.deep_view(), b.deep_view());
    let ghost mi = b@.len() as int;
    let ghost ni = c@.len() as int;
    let status: SolveStatus = solve_in_place(&mut t, max_pivots);
    match status {
        SolveStatus::Optimal => {
            let solution: Vec<Rat> = extract_solution(&t);
            proof {
                assert(t.rows@.len() == t@.len());
                assert(t.rows@[mi]@.len() == t@[mi].len());
            }
            let objective: Rat = t.rows[t.num_constraints][t.num_vars];
            proof {
                assert(objective@ == t@[mi][ni]);
                assert(q_bounded(objective@));
                assert(reaches(iv, t@, mi, ni));
                if forall|i: int| 0 <= i < mi ==> !q_is_neg(#[trigger] b.deep_view()[i]) {
                    assert forall|i: int| 0 <= i < mi implies !q_is_neg(#[trigger] iv[i][ni]) by {
                        assert(iv[i] == a.deep_view()[i].push(b.deep_view()[i]));
                        assert(a.deep_view()[i].len() == ni);
                        assert(iv[i][ni] == b.deep_view()[i]);
                    }
                    assert(rhs_nonneg(iv, mi, ni));
                    let kk0 = choose|kk: nat| reaches_in(iv, t@, mi, ni, kk);
                    lemma_reaches_preserves_feasibility(iv, t@, mi, ni, kk0);
                    assert forall|kk: int| 0 <= kk < solution@.len() implies !q_is_neg(
                        (#[trigger] solution@[kk])@,
                    ) by {
                        assert(solution.deep_view()[kk] == solution@[kk]@);
                        assert(solution.deep_view()[kk] == solution_entry(t@, mi, ni, kk));
                        if is_basic_col(t@, mi, kk) {
                            let i0 = basic_row_of(t@, mi, kk);
                            assert(is_unit_row(t@, mi, kk, i0));
                            assert(!q_is_neg(t@[i0][ni]));
                        }
                    }
                }
                if rows_uniquely_covered(t@, mi, ni) {
                    lemma_solution_satisfies_problem(
                        c.deep_view(),
                        a.deep_view(),
                        b.deep_view(),
                        t@,
                        solution.deep_view(),
                    );
                    if forall|j: int|
                        0 <= j < ni && is_basic_col(t@, mi, j) ==> q_is_zero(
                            #[trigger] t@[mi][j],
                        ) {
                        lemma_objective_matches_problem(
                            c.deep_view(),
                            a.deep_view(),
                            b.deep_view(),
                            t@,
                            solution.deep_view(),
                        );
                    }
                }
            }
            SolveResult::Optimal { solution, objective }
        },
        SolveStatus::Unbounded => SolveResult::Unbounded,
        SolveStatus::PivotLimit => SolveResult::PivotLimit,
        SolveStatus::Overflow => SolveResult::Overflow,
    }
}

} // verus!
