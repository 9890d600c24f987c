use simplex::rational::Rat;
use simplex::solver::{
    check_basis_costs_cleared, check_rows_uniquely_covered, simplex_solver, solve_in_place,
    SolveResult, SolveStatus,
};
use simplex::tableau::{
    build_tableau, extract_solution, find_basis, find_pivot_column, find_pivot_row, is_optimal,
    pivot_operation, RowSelection, Tableau,
};

fn r(n: i64) -> Rat {
    Rat::from_int(n)
}

fn row(vals: &[i64]) -> Vec<Rat> {
    vals.iter().map(|&v| r(v)).collect()
}

fn matrix(vals: &[&[i64]]) -> Vec<Vec<Rat>> {
    vals.iter().map(|v| row(v)).collect()
}

/// The worked example: maximize `2 x1 - 3 x2 - 5 x4` over three augmented
/// constraints with slack columns 4, 5 and 6.
fn example_objective() -> Vec<Rat> {
    row(&[2, -3, 0, -5, 0, 0, 0])
}

fn example_constraints() -> Vec<Vec<Rat>> {
    matrix(&[
        &[-1, 1, -1, -1, 1, 0, 0],
        &[2, 4, 0, 0, 0, 1, 0],
        &[0, 0, 1, 1, 0, 0, 1],
    ])
}

/// `c . x`, for checking the returned objective value.
fn dot(c: &[Rat], x: &[Rat]) -> Rat {
    let mut acc = Rat::zero();
    for k in 0..c.len() {
        let p = c[k].checked_mul(&x[k]).unwrap();
        acc = acc.checked_add(&p).unwrap();
    }
    acc
}

#[test]
fn example_reaches_the_known_optimum() {
    let c = example_objective();
    let a = example_constraints();
    let b = row(&[8, 10, 3]);
    match simplex_solver(&c, &a, &b, usize::MAX) {
        SolveResult::Optimal { solution, objective } => {
            let expected = row(&[5, 0, 0, 0, 13, 0, 3]);
            assert_eq!(solution.len(), expected.len());
            for k in 0..expected.len() {
                assert!(solution[k].eq_val(&expected[k]));
            }
            assert!(objective.eq_val(&r(10)));
        },
        _ => panic!("expected an optimum"),
    }
}

#[test]
fn objective_value_matches_solution_vector() {
    // The returned objective value equals `c . x` at the returned solution.
    let c = example_objective();
    let a = example_constraints();
    let b = row(&[8, 10, 3]);
    match simplex_solver(&c, &a, &b, usize::MAX) {
        SolveResult::Optimal { solution, objective } => {
            assert!(dot(&c, &solution).eq_val(&objective));
        },
        _ => panic!("expected an optimum"),
    }
}

#[test]
fn solution_satisfies_every_constraint() {
    // `A . x <= b` component-wise, exactly (no tolerance is needed).
    let c = example_objective();
    let a = example_constraints();
    let b = row(&[8, 10, 3]);
    match simplex_solver(&c, &a, &b, usize::MAX) {
        SolveResult::Optimal { solution, .. } => {
            for i in 0..a.len() {
                assert!(dot(&a[i], &solution).le(&b[i]));
                // Every variable, slack included, is non-negative.
            }
            for x in solution.iter() {
                assert!(!x.is_neg());
            }
        },
        _ => panic!("expected an optimum"),
    }
}

#[test]
fn degenerate_rhs_terminates() {
    // Same problem with a zero right-hand side: one degenerate pivot, but
    // the run terminates and every variable respects non-negativity.
    let c = example_objective();
    let a = example_constraints();
    let b = row(&[8, 0, 3]);
    match simplex_solver(&c, &a, &b, usize::MAX) {
        SolveResult::Optimal { solution, objective } => {
            let expected = row(&[0, 0, 0, 0, 8, 0, 3]);
            for k in 0..expected.len() {
                assert!(solution[k].eq_val(&expected[k]));
            }
            assert!(objective.is_zero());
            for x in solution.iter() {
                assert!(!x.is_neg());
            }
        },
        _ => panic!("expected an optimum"),
    }
}

#[test]
fn unbounded_problem_is_reported() {
    // One variable with a negative objective-row coefficient and no
    // positive constraint entry in its column: no solution, no pivot.
    let c = row(&[1]);
    let a = matrix(&[&[-1]]);
    let b = row(&[5]);
    match simplex_solver(&c, &a, &b, usize::MAX) {
        SolveResult::Unbounded => {},
        _ => panic!("expected unboundedness"),
    }
}

#[test]
fn unbounded_leaves_tableau_untouched() {
    let c = row(&[1]);
    let a = matrix(&[&[-1]]);
    let b = row(&[5]);
    let mut t = build_tableau(&c, &a, &b);
    let before: Vec<Vec<Rat>> = t.rows.clone();
    let st = solve_in_place(&mut t, usize::MAX);
    assert_eq!(st, SolveStatus::Unbounded);
    assert_eq!(t.rows, before);
}

#[test]
fn objective_row_nonnegative_at_termination() {
    // The optimality certificate: at termination no objective-row
    // coefficient is negative (exactly; epsilon is zero).
    let c = example_objective();
    let a = example_constraints();
    let b = row(&[8, 10, 3]);
    let mut t = build_tableau(&c, &a, &b);
    let st = solve_in_place(&mut t, usize::MAX);
    assert_eq!(st, SolveStatus::Optimal);
    assert!(is_optimal(&t));
    let m = t.num_constraints;
    for j in 0..t.num_vars {
        assert!(!t.rows[m][j].is_neg());
    }
}

#[test]
fn rerunning_on_optimal_tableau_is_idempotent() {
    // Solving an already-optimal tableau pivots no further and re-reading
    // it returns the same solution and objective value.
    let c = example_objective();
    let a = example_constraints();
    let b = row(&[8, 10, 3]);
    let mut t = build_tableau(&c, &a, &b);
    assert_eq!(solve_in_place(&mut t, usize::MAX), SolveStatus::Optimal);
    let snapshot: Vec<Vec<Rat>> = t.rows.clone();
    let sol1 = extract_solution(&t);
    let obj1 = t.rows[t.num_constraints][t.num_vars];
    assert_eq!(solve_in_place(&mut t, usize::MAX), SolveStatus::Optimal);
    assert_eq!(t.rows, snapshot);
    let sol2 = extract_solution(&t);
    let obj2 = t.rows[t.num_constraints][t.num_vars];
    assert_eq!(sol1, sol2);
    assert_eq!(obj1, obj2);
}

#[test]
fn pivot_cap_is_honored() {
    let c = example_objective();
    let a = example_constraints();
    let b = row(&[8, 10, 3]);
    match simplex_solver(&c, &a, &b, 0) {
        SolveResult::PivotLimit => {},
        _ => panic!("expected the pivot cap to fire"),
    }
}

#[test]
fn overflow_during_pivot_is_reported() {
    // Eliminating column 0 from the second row would need 1 + MAX/3,
    // whose exact numerator exceeds the machine range.
    let c = row(&[1, 0]);
    let a = matrix(&[&[3, i64::MAX], &[-1, 1]]);
    let b = row(&[3, 5]);
    match simplex_solver(&c, &a, &b, usize::MAX) {
        SolveResult::Overflow => {},
        _ => panic!("expected an overflow report"),
    }
}

#[test]
fn pivot_column_takes_most_negative_then_first() {
    // Objective row [-3, -3]: ties broken by the first column.
    let c = row(&[3, 3]);
    let a = matrix(&[&[1, 0], &[0, 1]]);
    let b = row(&[1, 1]);
    let t = build_tableau(&c, &a, &b);
    assert_eq!(find_pivot_column(&t), Some(0));
    // Objective row [1, -2]: the single negative entry wins.
    let c2 = row(&[-1, 2]);
    let t2 = build_tableau(&c2, &a, &b);
    assert_eq!(find_pivot_column(&t2), Some(1));
    // No negative entry: the tableau is already optimal.
    let c3 = row(&[-1, -2]);
    let t3 = build_tableau(&c3, &a, &b);
    assert_eq!(find_pivot_column(&t3), None);
    assert!(is_optimal(&t3));
}

#[test]
fn pivot_row_minimum_ratio_then_first() {
    // Column entries [1, 2] with right-hand sides [3, 6]: both ratios are
    // 3, so the first row leaves.
    let rows = matrix(&[&[1, 3], &[2, 6], &[-1, 0]]);
    let t = Tableau::new(rows).unwrap();
    assert_eq!(find_pivot_row(&t, 0), RowSelection::Leaving(0));
    // Entries [2, 4] with right-hand sides [8, 4]: ratio 1 beats ratio 4.
    let rows2 = matrix(&[&[2, 8], &[4, 4], &[-1, 0]]);
    let t2 = Tableau::new(rows2).unwrap();
    assert_eq!(find_pivot_row(&t2, 0), RowSelection::Leaving(1));
}

#[test]
fn pivot_row_reports_no_positive_entry() {
    let rows = matrix(&[&[-1, 5], &[0, 2], &[-1, 0]]);
    let t = Tableau::new(rows).unwrap();
    assert_eq!(find_pivot_row(&t, 0), RowSelection::NoPositive);
}

#[test]
fn pivot_row_reports_unrepresentable_ratio() {
    // rhs / entry = MAX / (1/2) = 2 * MAX does not fit.
    let rows = vec![
        vec![Rat::new(1, 2).unwrap(), r(i64::MAX)],
        vec![r(-1), r(0)],
    ];
    let t = Tableau::new(rows).unwrap();
    assert_eq!(find_pivot_row(&t, 0), RowSelection::Overflow);
}

#[test]
fn pivot_normalizes_and_eliminates() {
    // Pivot on the entry 2: its row is scaled to [1, 2] and the objective
    // row [-6, 0] becomes [0, 12].
    let rows = matrix(&[&[2, 4], &[-6, 0]]);
    let mut t = Tableau::new(rows).unwrap();
    assert!(pivot_operation(&mut t, 0, 0));
    assert_eq!(t.rows[0], row(&[1, 2]));
    assert_eq!(t.rows[1], row(&[0, 12]));
}

#[test]
fn pivot_refuses_overflow_and_keeps_tableau() {
    let rows = matrix(&[&[3, i64::MAX, 3], &[-1, 1, 5], &[-1, 0, 0]]);
    let mut t = Tableau::new(rows).unwrap();
    let before: Vec<Vec<Rat>> = t.rows.clone();
    assert!(!pivot_operation(&mut t, 0, 0));
    assert_eq!(t.rows, before);
}

#[test]
fn extraction_reads_unit_columns_only() {
    // Columns 0 and 1 are unit columns; their values are the right-hand
    // sides of their unit rows.
    let rows = matrix(&[&[1, 0, 2], &[0, 1, 3], &[0, 0, 0]]);
    let t = Tableau::new(rows).unwrap();
    let sol = extract_solution(&t);
    assert_eq!(sol, row(&[2, 3]));
    // A column scaled by 2 is not basic and reads as zero.
    let rows2 = matrix(&[&[2, 0, 2], &[0, 1, 3], &[0, 0, 0]]);
    let t2 = Tableau::new(rows2).unwrap();
    let sol2 = extract_solution(&t2);
    assert_eq!(sol2, row(&[0, 3]));
}

#[test]
fn extraction_rejects_duplicated_unit_entries() {
    // Two entries equal to one in the same column: not a unit column.
    let rows = matrix(&[&[1, 4], &[1, 5], &[0, 0]]);
    let t = Tableau::new(rows).unwrap();
    let sol = extract_solution(&t);
    assert_eq!(sol, row(&[0]));
}

#[test]
fn basis_of_the_example_constraints() {
    // The slack block of the worked example: treating the constraint
    // matrix itself as a tableau, columns 4 and 5 are the unit columns of
    // its first two rows.
    let a = example_constraints();
    let t = Tableau::new(a).unwrap();
    assert_eq!(find_basis(&t), vec![4, 5]);
}

#[test]
fn tableau_new_validates_shape() {
    assert!(Tableau::new(Vec::new()).is_none());
    assert!(Tableau::new(vec![Vec::new()]).is_none());
    assert!(Tableau::new(matrix(&[&[1, 2], &[3]])).is_none());
    let bad = vec![vec![Rat { num: 1, den: 0 }]];
    assert!(Tableau::new(bad).is_none());
    assert!(Tableau::new(matrix(&[&[1, 2], &[3, 4]])).is_some());
}

#[test]
fn already_optimal_input_is_read_off_directly() {
    // Objective [-1, -2] negated gives a non-negative objective row: the
    // solver performs no pivot and reads the initial tableau.
    let c = row(&[-1, -2]);
    let a = matrix(&[&[1, 0], &[0, 1]]);
    let b = row(&[4, 5]);
    match simplex_solver(&c, &a, &b, usize::MAX) {
        SolveResult::Optimal { solution, objective } => {
            assert_eq!(solution, row(&[4, 5]));
            assert!(objective.is_zero());
        },
        _ => panic!("expected an optimum"),
    }
}

#[test]
fn solved_example_is_certified() {
    // On the worked example the final tableau has one basic column per
    // constraint row and a cleared objective row, so the certified
    // contracts apply: the solution solves A.x = b and c.x equals the
    // reported objective.
    let c = example_objective();
    let a = example_constraints();
    let b = row(&[8, 10, 3]);
    let mut t = build_tableau(&c, &a, &b);
    assert_eq!(solve_in_place(&mut t, usize::MAX), SolveStatus::Optimal);
    assert!(check_rows_uniquely_covered(&t));
    assert!(check_basis_costs_cleared(&t));
}

#[test]
fn duplicated_unit_column_is_refused_by_the_certificate() {
    // A structural column that mimics the slack's unit column makes the
    // extraction rule double-count its row; the coverage check refuses to
    // certify such a tableau, and the extraction indeed over-counts.
    let c = row(&[-1, 0]);
    let a = matrix(&[&[1, 1]]);
    let b = row(&[4]);
    let mut t = build_tableau(&c, &a, &b);
    assert_eq!(solve_in_place(&mut t, usize::MAX), SolveStatus::Optimal);
    assert!(!check_rows_uniquely_covered(&t));
    let sol = extract_solution(&t);
    assert_eq!(sol, row(&[4, 4]));
}
