use magnets::csp::{BoardCell, InferenceMode, Point, CSP};

fn engine(rows: usize, cols: usize, raw: Vec<Vec<u8>>) -> CSP {
    CSP::new(
        rows,
        cols,
        vec![0; rows],
        vec![0; rows],
        vec![0; cols],
        vec![0; cols],
        raw,
        InferenceMode::MAC,
    )
}

fn poles(csp: &CSP, i: usize) -> (Point, Point) {
    (csp.variables[i].poles[0], csp.variables[i].poles[1])
}

#[test]
fn two_horizontal_dominoes_are_derived_in_row_order() {
    let csp = engine(2, 2, vec![vec![0, 2], vec![0, 2]]);
    assert_eq!(csp.variables.len(), 2);
    assert_eq!(csp.variables[0].index, 0);
    assert_eq!(csp.variables[1].index, 1);
    assert_eq!(csp.variables[0].poles.len(), 2);
    assert_eq!(
        poles(&csp, 0),
        (Point { row: 0, col: 0 }, Point { row: 0, col: 1 })
    );
    assert_eq!(
        poles(&csp, 1),
        (Point { row: 1, col: 0 }, Point { row: 1, col: 1 })
    );
    assert_eq!(csp.board_variable_association, vec![vec![0, 0], vec![1, 1]]);
}

#[test]
fn vertical_marker_pairs_with_the_cell_below() {
    let csp = engine(2, 2, vec![vec![1, 1], vec![7, 9]]);
    assert_eq!(csp.variables.len(), 2);
    assert_eq!(
        poles(&csp, 0),
        (Point { row: 0, col: 0 }, Point { row: 1, col: 0 })
    );
    assert_eq!(
        poles(&csp, 1),
        (Point { row: 0, col: 1 }, Point { row: 1, col: 1 })
    );
    assert_eq!(csp.board_variable_association, vec![vec![0, 1], vec![0, 1]]);
}

#[test]
fn a_cell_already_taken_begins_no_domino() {
    // The 0 at (1, 0) is the lower half of the vertical domino from (0, 0).
    let csp = engine(2, 2, vec![vec![1, 2], vec![0, 2]]);
    assert_eq!(csp.variables.len(), 1);
    assert_eq!(
        poles(&csp, 0),
        (Point { row: 0, col: 0 }, Point { row: 1, col: 0 })
    );
}

#[test]
fn a_marker_without_partner_is_dropped() {
    let csp = engine(2, 2, vec![vec![2, 0], vec![1, 2]]);
    assert_eq!(csp.variables.len(), 0);
    assert_eq!(csp.board_variable_association, vec![vec![0, 0], vec![0, 0]]);
    let csp = engine(1, 1, vec![vec![1]]);
    assert_eq!(csp.variables.len(), 0);
}

#[test]
fn a_later_domino_overwrites_the_lookup_of_a_shared_cell() {
    let csp = engine(2, 2, vec![vec![2, 1], vec![0, 2]]);
    assert_eq!(csp.variables.len(), 2);
    assert_eq!(
        poles(&csp, 0),
        (Point { row: 0, col: 1 }, Point { row: 1, col: 1 })
    );
    assert_eq!(
        poles(&csp, 1),
        (Point { row: 1, col: 0 }, Point { row: 1, col: 1 })
    );
    assert_eq!(csp.board_variable_association, vec![vec![0, 0], vec![1, 1]]);
}

#[test]
fn a_new_engine_starts_blank_with_zero_counters() {
    let csp = CSP::new(
        2,
        3,
        vec![1, 2],
        vec![2, 1],
        vec![1, 1, 1],
        vec![1, 1, 1],
        vec![vec![0, 2, 1], vec![0, 2, 2]],
        InferenceMode::FC,
    );
    assert_eq!(csp.row_size, 2);
    assert_eq!(csp.col_size, 3);
    assert_eq!(csp.row_pos_poles, vec![1, 2]);
    assert_eq!(csp.row_neg_poles, vec![2, 1]);
    assert_eq!(csp.col_pos_poles, vec![1, 1, 1]);
    assert_eq!(csp.col_neg_poles, vec![1, 1, 1]);
    assert_eq!(csp.inference_mode, InferenceMode::FC);
    assert_eq!(csp.board, vec![vec![BoardCell::Unassigned; 3]; 2]);
    assert_eq!(csp.curr_row_pos_poles, vec![0, 0]);
    assert_eq!(csp.curr_row_neg_poles, vec![0, 0]);
    assert_eq!(csp.curr_col_pos_poles, vec![0, 0, 0]);
    assert_eq!(csp.curr_col_neg_poles, vec![0, 0, 0]);
    assert_eq!(csp.variables.len(), 3);
    assert_eq!(csp.board_variable_association, vec![vec![0, 0, 1], vec![2, 2, 1]]);
}

#[test]
fn owner_is_found_only_for_cells_of_dominoes() {
    let csp = engine(2, 2, vec![vec![1, 2], vec![2, 2]]);
    assert_eq!(csp.owner_of(0, 0), Some(0));
    assert_eq!(csp.owner_of(1, 0), Some(0));
    assert_eq!(csp.owner_of(0, 1), None);
    assert_eq!(csp.owner_of(1, 1), None);
}
