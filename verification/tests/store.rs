use magnets::csp::{BoardCell, InferenceMode, Value, CSP};

fn fresh_pair() -> CSP {
    CSP::new(
        2,
        2,
        vec![1, 1],
        vec![1, 1],
        vec![1, 1],
        vec![1, 1],
        vec![vec![0, 2], vec![0, 2]],
        InferenceMode::MAC,
    )
}

fn snapshot(csp: &CSP) -> (Vec<Vec<BoardCell>>, Vec<usize>, Vec<usize>, Vec<usize>, Vec<usize>) {
    (
        csp.board.clone(),
        csp.curr_row_pos_poles.clone(),
        csp.curr_row_neg_poles.clone(),
        csp.curr_col_pos_poles.clone(),
        csp.curr_col_neg_poles.clone(),
    )
}

#[test]
fn assign_forward_marks_and_counts_both_poles() {
    let mut csp = fresh_pair();
    let mut assignment = vec![Value::Unassigned; 2];
    assert!(csp.assign(Value::Pole1PositivePole2Negative, 0, &mut assignment));
    assert_eq!(assignment, vec![Value::Pole1PositivePole2Negative, Value::Unassigned]);
    assert_eq!(csp.board[0], vec![BoardCell::Positive, BoardCell::Negative]);
    assert_eq!(csp.board[1], vec![BoardCell::Unassigned, BoardCell::Unassigned]);
    assert_eq!(csp.curr_row_pos_poles, vec![1, 0]);
    assert_eq!(csp.curr_row_neg_poles, vec![1, 0]);
    assert_eq!(csp.curr_col_pos_poles, vec![1, 0]);
    assert_eq!(csp.curr_col_neg_poles, vec![0, 1]);
}

#[test]
fn assign_reverse_swaps_the_charges() {
    let mut csp = fresh_pair();
    let mut assignment = vec![Value::Unassigned; 2];
    assert!(csp.assign(Value::Pole2PositivePole1Negative, 1, &mut assignment));
    assert_eq!(csp.board[1], vec![BoardCell::Negative, BoardCell::Positive]);
    assert_eq!(csp.curr_row_pos_poles, vec![0, 1]);
    assert_eq!(csp.curr_row_neg_poles, vec![0, 1]);
    assert_eq!(csp.curr_col_pos_poles, vec![0, 1]);
    assert_eq!(csp.curr_col_neg_poles, vec![1, 0]);
}

#[test]
fn vacant_cells_are_marked_empty_and_not_counted() {
    let mut csp = fresh_pair();
    let mut assignment = vec![Value::Unassigned; 2];
    assert!(csp.assign(Value::Empty, 0, &mut assignment));
    assert_eq!(csp.board[0], vec![BoardCell::Empty, BoardCell::Empty]);
    assert_ne!(csp.board[0][0], BoardCell::Unassigned);
    assert_eq!(csp.curr_row_pos_poles, vec![0, 0]);
    assert_eq!(csp.curr_row_neg_poles, vec![0, 0]);
    assert_eq!(csp.curr_col_pos_poles, vec![0, 0]);
    assert_eq!(csp.curr_col_neg_poles, vec![0, 0]);
    assert_eq!(assignment[0], Value::Empty);
}

#[test]
fn assign_is_refused_on_marked_cells_and_changes_nothing() {
    let mut csp = fresh_pair();
    let mut assignment = vec![Value::Unassigned; 2];
    assert!(csp.assign(Value::Empty, 0, &mut assignment));
    let before = snapshot(&csp);
    for value in [
        Value::Pole1PositivePole2Negative,
        Value::Pole2PositivePole1Negative,
        Value::Empty,
    ] {
        assert!(!csp.assign(value, 0, &mut assignment));
        assert_eq!(snapshot(&csp), before);
        assert_eq!(assignment, vec![Value::Empty, Value::Unassigned]);
    }
}

#[test]
fn assign_refuses_the_undecided_value() {
    let mut csp = fresh_pair();
    let mut assignment = vec![Value::Unassigned; 2];
    let before = snapshot(&csp);
    assert!(!csp.assign(Value::Unassigned, 0, &mut assignment));
    assert_eq!(snapshot(&csp), before);
}

#[test]
fn unassign_restores_the_store_for_every_orientation() {
    for value in [
        Value::Pole1PositivePole2Negative,
        Value::Pole2PositivePole1Negative,
        Value::Empty,
    ] {
        for var in 0..2 {
            let mut csp = fresh_pair();
            let mut assignment = vec![Value::Unassigned; 2];
            assert!(csp.assign(Value::Pole1PositivePole2Negative, 1 - var, &mut assignment));
            let before = snapshot(&csp);
            let assignment_before = assignment.clone();
            assert!(csp.assign(value, var, &mut assignment));
            assert_ne!(snapshot(&csp), before);
            csp.unassign(value, var, &mut assignment);
            assert_eq!(snapshot(&csp), before);
            assert_eq!(assignment, assignment_before);
        }
    }
}

#[test]
fn cell_mark_reads_the_board() {
    let mut csp = fresh_pair();
    let mut assignment = vec![Value::Unassigned; 2];
    assert_eq!(csp.cell_mark(0, 0), BoardCell::Unassigned);
    assert!(csp.assign(Value::Pole2PositivePole1Negative, 0, &mut assignment));
    assert_eq!(csp.cell_mark(0, 0), BoardCell::Negative);
    assert_eq!(csp.cell_mark(0, 1), BoardCell::Positive);
    assert_eq!(csp.cell_mark(1, 1), BoardCell::Unassigned);
}
