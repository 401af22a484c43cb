use magnets::csp::{InferenceMode, Point, Value, CSP};

fn pair_with(row_pos: Vec<i32>, row_neg: Vec<i32>, col_pos: Vec<i32>, col_neg: Vec<i32>) -> CSP {
    CSP::new(
        2,
        2,
        row_pos,
        row_neg,
        col_pos,
        col_neg,
        vec![vec![0, 2], vec![0, 2]],
        InferenceMode::MAC,
    )
}

fn ones() -> CSP {
    pair_with(vec![1, 1], vec![1, 1], vec![1, 1], vec![1, 1])
}

#[test]
fn like_charges_side_by_side_are_inconsistent() {
    let mut csp = ones();
    let mut a = vec![Value::Unassigned; 2];
    assert!(csp.assign(Value::Pole1PositivePole2Negative, 0, &mut a));
    assert!(csp.is_consistent(0));
    assert!(csp.assign(Value::Pole1PositivePole2Negative, 1, &mut a));
    assert!(!csp.is_consistent(1));
    assert!(!csp.check_neighbors_pole_sign_constraint(&Point { row: 1, col: 0 }));
    assert!(!csp.check_neighbors_pole_sign_constraint(&Point { row: 0, col: 1 }));
}

#[test]
fn opposite_charges_side_by_side_are_consistent() {
    let mut csp = ones();
    let mut a = vec![Value::Unassigned; 2];
    assert!(csp.assign(Value::Pole1PositivePole2Negative, 0, &mut a));
    assert!(csp.assign(Value::Pole2PositivePole1Negative, 1, &mut a));
    assert!(csp.is_consistent(1));
    assert!(csp.is_consistent(0));
    for row in 0..2 {
        for col in 0..2 {
            assert!(csp.check_neighbors_pole_sign_constraint(&Point { row, col }));
        }
    }
}

#[test]
fn empty_and_unmarked_neighbours_never_violate_the_charge_rule() {
    let mut csp = pair_with(vec![0, 1], vec![0, 1], vec![1, 0], vec![0, 1]);
    let mut a = vec![Value::Unassigned; 2];
    assert!(csp.assign(Value::Pole1PositivePole2Negative, 1, &mut a));
    assert!(csp.check_neighbors_pole_sign_constraint(&Point { row: 1, col: 0 }));
    assert!(csp.assign(Value::Empty, 0, &mut a));
    assert!(csp.check_neighbors_pole_sign_constraint(&Point { row: 1, col: 0 }));
    assert!(csp.check_neighbors_pole_sign_constraint(&Point { row: 0, col: 0 }));
    assert!(csp.is_consistent(0));
}

#[test]
fn a_full_row_must_meet_its_targets_exactly() {
    let mut csp = ones();
    let mut a = vec![Value::Unassigned; 2];
    assert!(csp.assign(Value::Empty, 0, &mut a));
    // Row 0 is full with no charge but asks for one of each.
    assert!(!csp.is_consistent(0));
}

#[test]
fn a_row_with_unmarked_cells_may_stay_below_its_targets() {
    let mut csp = pair_with(vec![1, 1], vec![1, 1], vec![2, 1], vec![1, 2]);
    let mut a = vec![Value::Unassigned; 2];
    assert!(csp.assign(Value::Pole1PositivePole2Negative, 0, &mut a));
    // Columns are half marked: one positive of two asked for is fine.
    assert!(csp.is_consistent(0));
}

#[test]
fn a_count_above_its_target_is_inconsistent() {
    let mut csp = pair_with(vec![1, 1], vec![1, 1], vec![0, 1], vec![1, 1]);
    let mut a = vec![Value::Unassigned; 2];
    assert!(csp.assign(Value::Pole1PositivePole2Negative, 0, &mut a));
    // Column 0 asks for no positive cell.
    assert!(!csp.is_consistent(0));
}

#[test]
fn a_negative_target_is_never_met() {
    let mut csp = pair_with(vec![1, 1], vec![1, 1], vec![1, 1], vec![1, -1]);
    let mut a = vec![Value::Unassigned; 2];
    assert!(csp.assign(Value::Pole2PositivePole1Negative, 0, &mut a));
    assert!(!csp.is_consistent(0));
}

#[test]
fn is_consistent_leaves_the_state_alone() {
    let mut csp = ones();
    let mut a = vec![Value::Unassigned; 2];
    assert!(csp.assign(Value::Pole1PositivePole2Negative, 0, &mut a));
    let board = csp.board.clone();
    let counters = csp.curr_row_pos_poles.clone();
    let _ = csp.is_consistent(0);
    assert_eq!(csp.board, board);
    assert_eq!(csp.curr_row_pos_poles, counters);
}
