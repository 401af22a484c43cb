use magnets::csp::{BoardCell, Domain, InferenceMode, Value, CSP};

const F: Value = Value::Pole1PositivePole2Negative;
const R: Value = Value::Pole2PositivePole1Negative;
const V: Value = Value::Empty;
const U: Value = Value::Unassigned;

const MODES: [InferenceMode; 2] = [InferenceMode::FC, InferenceMode::MAC];

fn two_rows(mode: InferenceMode) -> CSP {
    CSP::new(
        2,
        2,
        vec![1, 1],
        vec![1, 1],
        vec![1, 1],
        vec![1, 1],
        vec![vec![0, 2], vec![0, 2]],
        mode,
    )
}

/// A 3x4 grid tiled by six horizontal dominoes, with one solution.
fn tiled(mode: InferenceMode) -> CSP {
    CSP::new(
        3,
        4,
        vec![2, 2, 2],
        vec![2, 2, 2],
        vec![2, 1, 2, 1],
        vec![1, 2, 1, 2],
        vec![vec![0, 2, 0, 2], vec![0, 2, 0, 2], vec![0, 2, 0, 2]],
        mode,
    )
}

fn count(cells: &[BoardCell], mark: BoardCell) -> i32 {
    cells.iter().filter(|c| **c == mark).count() as i32
}

fn column(csp: &CSP, c: usize) -> Vec<BoardCell> {
    (0..csp.row_size).map(|r| csp.board[r][c]).collect()
}

/// Checks a solved board against the rules by a direct scan.
fn assert_solved(csp: &CSP, solution: &[Value]) {
    assert_eq!(solution.len(), csp.variables.len());
    for (i, v) in solution.iter().enumerate() {
        let head = csp.variables[i].poles[0];
        let tail = csp.variables[i].poles[1];
        let (m0, m1) = match v {
            Value::Pole1PositivePole2Negative => (BoardCell::Positive, BoardCell::Negative),
            Value::Pole2PositivePole1Negative => (BoardCell::Negative, BoardCell::Positive),
            Value::Empty => (BoardCell::Empty, BoardCell::Empty),
            Value::Unassigned => panic!("domino {} is undecided", i),
        };
        assert_eq!(csp.board[head.row][head.col], m0);
        assert_eq!(csp.board[tail.row][tail.col], m1);
    }
    for r in 0..csp.row_size {
        for c in 0..csp.col_size {
            let m = csp.board[r][c];
            if m == BoardCell::Positive || m == BoardCell::Negative {
                if r + 1 < csp.row_size {
                    assert_ne!(csp.board[r + 1][c], m);
                }
                if c + 1 < csp.col_size {
                    assert_ne!(csp.board[r][c + 1], m);
                }
            }
        }
    }
    for r in 0..csp.row_size {
        assert_eq!(count(&csp.board[r], BoardCell::Positive), csp.row_pos_poles[r]);
        assert_eq!(count(&csp.board[r], BoardCell::Negative), csp.row_neg_poles[r]);
        assert_eq!(csp.curr_row_pos_poles[r] as i32, csp.row_pos_poles[r]);
        assert_eq!(csp.curr_row_neg_poles[r] as i32, csp.row_neg_poles[r]);
    }
    for c in 0..csp.col_size {
        assert_eq!(count(&column(csp, c), BoardCell::Positive), csp.col_pos_poles[c]);
        assert_eq!(count(&column(csp, c), BoardCell::Negative), csp.col_neg_poles[c]);
        assert_eq!(csp.curr_col_pos_poles[c] as i32, csp.col_pos_poles[c]);
        assert_eq!(csp.curr_col_neg_poles[c] as i32, csp.col_neg_poles[c]);
    }
}

fn assert_blank(csp: &CSP) {
    for r in 0..csp.row_size {
        assert_eq!(csp.board[r], vec![BoardCell::Unassigned; csp.col_size]);
    }
    assert_eq!(csp.curr_row_pos_poles, vec![0; csp.row_size]);
    assert_eq!(csp.curr_row_neg_poles, vec![0; csp.row_size]);
    assert_eq!(csp.curr_col_pos_poles, vec![0; csp.col_size]);
    assert_eq!(csp.curr_col_neg_poles, vec![0; csp.col_size]);
}

#[test]
fn an_assignment_is_complete_when_nothing_is_undecided() {
    let csp = two_rows(InferenceMode::MAC);
    assert!(csp.is_complete(&vec![]));
    assert!(csp.is_complete(&vec![F, V]));
    assert!(!csp.is_complete(&vec![F, U]));
    assert!(!csp.is_complete(&vec![U, R]));
}

#[test]
fn the_domino_with_the_fewest_candidates_is_selected() {
    let csp = tiled(InferenceMode::MAC);
    let domains: Domain = vec![
        vec![F, R, V],
        vec![F, R],
        vec![V],
        vec![F, R],
        vec![R],
        vec![F, R, V],
    ];
    let mut a = vec![U; 6];
    assert_eq!(csp.select_unassigned_variable(&domains, &a), Some(2));
    a[2] = V;
    assert_eq!(csp.select_unassigned_variable(&domains, &a), Some(4));
    a[4] = R;
    // Dominoes 1 and 3 tie; the lower index wins.
    assert_eq!(csp.select_unassigned_variable(&domains, &a), Some(1));
    a[1] = F;
    assert_eq!(csp.select_unassigned_variable(&domains, &a), Some(3));
    a[3] = F;
    assert_eq!(csp.select_unassigned_variable(&domains, &a), Some(0));
    a[0] = F;
    assert_eq!(csp.select_unassigned_variable(&domains, &a), Some(5));
    a[5] = F;
    assert_eq!(csp.select_unassigned_variable(&domains, &a), None);
}

#[test]
fn the_score_counts_the_candidates_a_value_eliminates() {
    let csp = two_rows(InferenceMode::MAC);
    let domains: Domain = vec![vec![F, R, V], vec![F, R, V]];
    let a = vec![U; 2];
    assert_eq!(csp.calculate_constraint_score(F, 0, &domains, &a), 3);
    assert_eq!(csp.calculate_constraint_score(R, 0, &domains, &a), 3);
    assert_eq!(csp.calculate_constraint_score(V, 0, &domains, &a), 0);
}

#[test]
fn eliminating_the_last_candidate_costs_five_more() {
    let csp = two_rows(InferenceMode::MAC);
    let domains: Domain = vec![vec![F, R, V], vec![F]];
    let a = vec![U; 2];
    assert_eq!(csp.calculate_constraint_score(F, 0, &domains, &a), 18);
    assert_eq!(csp.calculate_constraint_score(R, 0, &domains, &a), 0);
}

#[test]
fn a_domino_without_open_neighbours_scores_zero() {
    let mut csp = two_rows(InferenceMode::MAC);
    let domains: Domain = vec![vec![F, R, V], vec![F, R, V]];
    let mut a = vec![U; 2];
    assert!(csp.assign(F, 0, &mut a));
    assert_eq!(csp.calculate_constraint_score(F, 1, &domains, &a), 0);
    assert_eq!(csp.calculate_constraint_score(R, 1, &domains, &a), 0);
}

#[test]
fn values_are_ordered_by_score_and_ties_keep_their_order() {
    let csp = two_rows(InferenceMode::MAC);
    let a = vec![U; 2];
    let domains: Domain = vec![vec![F, R, V], vec![F, R, V]];
    assert_eq!(csp.order_domain_values(0, &domains, &a), vec![V, F, R]);
    let domains: Domain = vec![vec![R, V, F], vec![F, R, V]];
    assert_eq!(csp.order_domain_values(0, &domains, &a), vec![V, R, F]);
    let domains: Domain = vec![vec![F, R, V], vec![F]];
    assert_eq!(csp.order_domain_values(0, &domains, &a), vec![R, V, F]);
    let domains: Domain = vec![vec![], vec![F]];
    assert_eq!(csp.order_domain_values(0, &domains, &a), vec![]);
}

#[test]
fn two_stacked_dominoes_are_solved_by_either_strategy() {
    for mode in MODES {
        let mut csp = two_rows(mode);
        let solution = csp.solve().expect("the puzzle has a solution");
        assert_eq!(solution, vec![F, R]);
        assert_eq!(
            csp.board,
            vec![
                vec![BoardCell::Positive, BoardCell::Negative],
                vec![BoardCell::Negative, BoardCell::Positive],
            ]
        );
        assert_solved(&csp, &solution);
    }
}

#[test]
fn a_tiled_grid_is_solved_by_either_strategy() {
    for mode in MODES {
        let mut csp = tiled(mode);
        let solution = csp.solve().expect("the puzzle has a solution");
        assert_eq!(solution, vec![F, F, R, R, F, F]);
        assert_solved(&csp, &solution);
    }
}

#[test]
fn a_puzzle_may_need_a_vacant_domino() {
    for mode in MODES {
        let mut csp = CSP::new(
            2,
            2,
            vec![1, 0],
            vec![1, 0],
            vec![0, 1],
            vec![1, 0],
            vec![vec![0, 2], vec![0, 2]],
            mode,
        );
        let solution = csp.solve().expect("the puzzle has a solution");
        assert_eq!(solution, vec![R, V]);
        assert_eq!(csp.board[1], vec![BoardCell::Empty, BoardCell::Empty]);
        assert_solved(&csp, &solution);
    }
}

#[test]
fn vertical_and_horizontal_dominoes_are_solved_together() {
    for mode in MODES {
        let mut csp = CSP::new(
            2,
            3,
            vec![2, 1],
            vec![1, 2],
            vec![1, 1, 1],
            vec![1, 1, 1],
            vec![vec![1, 0, 2], vec![2, 0, 2]],
            mode,
        );
        assert_eq!(csp.variables.len(), 3);
        let solution = csp.solve().expect("the puzzle has a solution");
        assert_solved(&csp, &solution);
    }
}

#[test]
fn a_grid_without_dominoes_is_complete_at_once() {
    for mode in MODES {
        let mut csp =
            CSP::new(1, 1, vec![0], vec![0], vec![0], vec![0], vec![vec![2]], mode);
        assert_eq!(csp.variables.len(), 0);
        assert_eq!(csp.solve(), Some(vec![]));
        assert_blank(&csp);
    }
}

#[test]
fn a_single_vertical_domino_takes_the_forward_orientation() {
    for mode in MODES {
        let mut csp = CSP::new(
            2,
            2,
            vec![1, 0],
            vec![0, 1],
            vec![1, 0],
            vec![1, 0],
            vec![vec![1, 2], vec![2, 2]],
            mode,
        );
        assert_eq!(csp.solve(), Some(vec![F]));
        assert_eq!(csp.board[0][0], BoardCell::Positive);
        assert_eq!(csp.board[1][0], BoardCell::Negative);
        assert_eq!(csp.board[0][1], BoardCell::Unassigned);
        assert_eq!(csp.board[1][1], BoardCell::Unassigned);
    }
}

#[test]
fn a_column_target_that_the_domino_must_exceed_leaves_no_solution() {
    // The domino fills column 0, which asks for no negative cell, so neither
    // charged orientation fits; vacant misses the positive target.
    for mode in MODES {
        let mut csp = CSP::new(
            2,
            2,
            vec![1, 0],
            vec![0, 1],
            vec![1, 0],
            vec![0, 1],
            vec![vec![1, 2], vec![2, 2]],
            mode,
        );
        assert_eq!(csp.solve(), None);
        assert_blank(&csp);
    }
}

#[test]
fn a_row_target_beyond_the_cells_of_the_row_leaves_no_solution() {
    for mode in MODES {
        let mut csp = CSP::new(
            2,
            2,
            vec![3, 1],
            vec![1, 1],
            vec![1, 1],
            vec![1, 1],
            vec![vec![0, 2], vec![0, 2]],
            mode,
        );
        assert_eq!(csp.solve(), None);
        assert_blank(&csp);
    }
}

#[test]
fn an_unsolvable_puzzle_leaves_the_board_blank() {
    // Each row asks for a positive cell, the columns allow none in column 1
    // and only one in column 0.
    for mode in MODES {
        let mut csp = CSP::new(
            2,
            2,
            vec![1, 1],
            vec![1, 1],
            vec![1, 0],
            vec![1, 2],
            vec![vec![0, 2], vec![0, 2]],
            mode,
        );
        assert_eq!(csp.solve(), None);
        assert_blank(&csp);
    }
}

#[test]
fn dominoes_that_share_a_cell_are_never_all_assigned() {
    for mode in MODES {
        let mut csp = CSP::new(
            2,
            2,
            vec![0, 0],
            vec![0, 0],
            vec![0, 0],
            vec![0, 0],
            vec![vec![2, 1], vec![0, 2]],
            mode,
        );
        assert_eq!(csp.variables.len(), 2);
        assert_eq!(csp.solve(), None);
        assert_blank(&csp);
    }
}

#[test]
fn backtrack_finishes_a_partial_assignment() {
    for mode in MODES {
        let mut csp = tiled(mode);
        let mut a = vec![U; 6];
        assert!(csp.assign(F, 0, &mut a));
        assert!(csp.is_consistent(0));
        let domains: Domain = vec![vec![F, R, V]; 6];
        let solution =
            csp.backtrack(domains, &mut a, &mut None).expect("the rest can be solved");
        assert_eq!(solution, vec![F, F, R, R, F, F]);
        assert_eq!(a, solution);
        assert_solved(&csp, &solution);
    }
}

#[test]
fn backtrack_restores_the_entry_state_when_it_fails() {
    for mode in MODES {
        let mut csp = tiled(mode);
        let mut a = vec![U; 6];
        assert!(csp.assign(R, 0, &mut a));
        assert!(csp.is_consistent(0));
        let board = csp.board.clone();
        let counters = (
            csp.curr_row_pos_poles.clone(),
            csp.curr_row_neg_poles.clone(),
            csp.curr_col_pos_poles.clone(),
            csp.curr_col_neg_poles.clone(),
        );
        let domains: Domain = vec![vec![F, R, V]; 6];
        assert_eq!(csp.backtrack(domains, &mut a, &mut None), None);
        assert_eq!(a, vec![R, U, U, U, U, U]);
        assert_eq!(csp.board, board);
        assert_eq!(
            (
                csp.curr_row_pos_poles.clone(),
                csp.curr_row_neg_poles.clone(),
                csp.curr_col_pos_poles.clone(),
                csp.curr_col_neg_poles.clone(),
            ),
            counters
        );
    }
}

#[test]
fn try_value_takes_a_failing_candidate_back() {
    let mut csp = two_rows(InferenceMode::MAC);
    let mut a = vec![U; 2];
    let domains: Domain = vec![vec![F, R, V]; 2];
    assert_eq!(csp.try_value(V, 0, &domains, &mut a, &mut None), None);
    assert_eq!(a, vec![U, U]);
    assert_blank(&csp);
    assert_eq!(csp.try_value(F, 0, &domains, &mut a, &mut None), Some(vec![F, R]));
    assert_eq!(a, vec![F, R]);
}

#[test]
fn a_budget_of_zero_fails_at_once() {
    for mode in MODES {
        let mut csp = two_rows(mode);
        let mut budget = Some(0);
        assert_eq!(csp.solve_within(&mut budget), None);
        assert_eq!(budget, Some(0));
        assert_blank(&csp);
    }
}

#[test]
fn every_node_takes_one_from_the_budget() {
    for mode in MODES {
        // The root and the node below the first decision; the complete
        // assignment at the bottom costs nothing.
        let mut csp = two_rows(mode);
        let mut budget = Some(10);
        assert_eq!(csp.solve_within(&mut budget), Some(vec![F, R]));
        assert_eq!(budget, Some(8));
        let mut csp = two_rows(mode);
        let mut budget = Some(2);
        assert_eq!(csp.solve_within(&mut budget), Some(vec![F, R]));
        assert_eq!(budget, Some(0));
    }
}

#[test]
fn a_budget_that_runs_out_ends_the_search_without_a_trace() {
    for mode in MODES {
        let mut csp = two_rows(mode);
        let mut budget = Some(1);
        assert_eq!(csp.solve_within(&mut budget), None);
        assert_eq!(budget, Some(0));
        assert_blank(&csp);
        let mut csp = tiled(mode);
        let mut budget = Some(3);
        assert_eq!(csp.solve_within(&mut budget), None);
        assert_eq!(budget, Some(0));
        assert_blank(&csp);
    }
}

#[test]
fn no_budget_means_no_limit() {
    for mode in MODES {
        let mut csp = tiled(mode);
        let mut budget = None;
        assert_eq!(csp.solve_within(&mut budget), Some(vec![F, F, R, R, F, F]));
        assert_eq!(budget, None);
    }
}

#[test]
fn a_failure_with_budget_to_spare_is_final() {
    for mode in MODES {
        let mut csp = CSP::new(
            2,
            2,
            vec![3, 1],
            vec![1, 1],
            vec![1, 1],
            vec![1, 1],
            vec![vec![0, 2], vec![0, 2]],
            mode,
        );
        assert!(csp.every_cell_owned());
        let mut budget = Some(1000);
        assert_eq!(csp.solve_within(&mut budget), None);
        assert!(budget.unwrap() > 0);
        assert!(budget.unwrap() < 1000);
    }
}

#[test]
fn a_complete_assignment_needs_no_budget() {
    let mut csp = CSP::new(1, 1, vec![0], vec![0], vec![0], vec![0], vec![vec![2]], MODES[0]);
    let mut budget = Some(0);
    assert_eq!(csp.solve_within(&mut budget), Some(vec![]));
    assert_eq!(budget, Some(0));
}

#[test]
fn every_cell_owned_tells_tiled_grids_from_others() {
    assert!(tiled(MODES[0]).every_cell_owned());
    assert!(two_rows(MODES[0]).every_cell_owned());
    let csp = CSP::new(
        2,
        2,
        vec![1, 0],
        vec![0, 1],
        vec![1, 0],
        vec![1, 0],
        vec![vec![1, 2], vec![2, 2]],
        MODES[0],
    );
    assert!(!csp.every_cell_owned());
}

/// One row of two horizontal dominoes and a last cell that no domino has.
fn with_a_stray_cell(row_pos: i32, row_neg: i32, col_pos: Vec<i32>, col_neg: Vec<i32>, mode: InferenceMode) -> CSP {
    CSP::new(
        1,
        5,
        vec![row_pos],
        vec![row_neg],
        col_pos,
        col_neg,
        vec![vec![0, 2, 0, 2, 2]],
        mode,
    )
}

#[test]
fn a_cell_without_domino_stays_unmarked_and_its_targets_are_never_asked() {
    for mode in MODES {
        // Column 4 holds only the stray cell; its targets are out of reach.
        let mut csp =
            with_a_stray_cell(1, 1, vec![1, 0, 0, 0, 7], vec![0, 1, 0, 0, 7], mode);
        assert_eq!(csp.solve(), Some(vec![F, V]));
        assert_eq!(
            csp.board[0],
            vec![
                BoardCell::Positive,
                BoardCell::Negative,
                BoardCell::Empty,
                BoardCell::Empty,
                BoardCell::Unassigned,
            ]
        );
    }
}

#[test]
fn a_row_with_a_cell_without_domino_may_stay_below_its_targets() {
    for mode in MODES {
        // The row is never full, so one positive of the three asked for will do.
        let mut csp =
            with_a_stray_cell(3, 1, vec![1, 0, 0, 0, 0], vec![0, 1, 0, 0, 0], mode);
        assert_eq!(csp.solve(), Some(vec![F, V]));
    }
}

#[test]
fn a_stray_cell_does_not_keep_a_row_open_for_the_quota_rule() {
    for mode in MODES {
        // After the first domino is left vacant the row lacks two of each
        // charge and no third domino is open, so the second loses both
        // charged orientations although the row could stay below its targets.
        let mut csp =
            with_a_stray_cell(2, 2, vec![0, 0, 1, 0, 0], vec![0, 0, 0, 1, 0], mode);
        assert!(!csp.every_cell_owned());
        assert_eq!(csp.solve(), None);
        assert_blank(&csp);
    }
}
