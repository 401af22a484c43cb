use magnets::csp::{Constraint, ConstraintArc, InferenceMode, Point, Value, Variable, CSP};
use std::collections::VecDeque;

fn pt(row: usize, col: usize) -> Point {
    Point { row, col }
}

/// A 3x4 grid tiled_grid by six horizontal dominoes.
fn tiled_grid() -> CSP {
    CSP::new(
        3,
        4,
        vec![2, 2, 2],
        vec![2, 2, 2],
        vec![2, 1, 2, 1],
        vec![1, 2, 1, 2],
        vec![vec![0, 2, 0, 2], vec![0, 2, 0, 2], vec![0, 2, 0, 2]],
        InferenceMode::MAC,
    )
}

#[test]
fn pole_number_is_zero_for_the_first_pole_and_one_otherwise() {
    let v = Variable { index: 0, poles: vec![pt(1, 2), pt(1, 3)] };
    assert_eq!(CSP::get_pole_number(&v, &pt(1, 2)), 0);
    assert_eq!(CSP::get_pole_number(&v, &pt(1, 3)), 1);
    assert_eq!(CSP::get_pole_number(&v, &pt(0, 0)), 1);
}

#[test]
fn neighbours_come_below_above_right_left_without_the_partner() {
    let csp = tiled_grid();
    assert_eq!(
        csp.get_neighboring_cells(&pt(1, 1), &pt(1, 0)),
        vec![pt(2, 1), pt(0, 1), pt(1, 2)]
    );
    assert_eq!(
        csp.get_neighboring_cells(&pt(1, 2), &pt(1, 3)),
        vec![pt(2, 2), pt(0, 2), pt(1, 1)]
    );
    assert_eq!(
        csp.get_neighboring_cells(&pt(1, 1), &pt(2, 1)),
        vec![pt(0, 1), pt(1, 2), pt(1, 0)]
    );
}

#[test]
fn neighbours_stop_at_the_border() {
    let csp = tiled_grid();
    assert_eq!(csp.get_neighboring_cells(&pt(0, 0), &pt(0, 1)), vec![pt(1, 0)]);
    assert_eq!(
        csp.get_neighboring_cells(&pt(2, 3), &pt(2, 2)),
        vec![pt(1, 3)]
    );
}

#[test]
fn limiting_cells_are_the_column_then_the_row() {
    let csp = tiled_grid();
    assert_eq!(
        csp.get_limiting_cells(&pt(1, 1), &pt(1, 0)),
        vec![pt(0, 1), pt(2, 1), pt(1, 2), pt(1, 3)]
    );
    assert_eq!(
        csp.get_limiting_cells(&pt(0, 0), &pt(1, 0)),
        vec![pt(2, 0), pt(0, 1), pt(0, 2), pt(0, 3)]
    );
}

#[test]
fn arcs_point_at_the_domino_from_every_undecided_neighbour() {
    let csp = CSP::new(
        2,
        2,
        vec![1, 1],
        vec![1, 1],
        vec![1, 1],
        vec![1, 1],
        vec![vec![0, 2], vec![0, 2]],
        InferenceMode::MAC,
    );
    let assignment = vec![Value::Unassigned; 2];
    let mut queue = VecDeque::new();
    csp.generate_arc_constraints(0, &assignment, &mut queue, 0);
    let arcs: Vec<ConstraintArc> = queue.into_iter().collect();
    assert_eq!(
        arcs,
        vec![
            ConstraintArc { xi: 1, xj: 0, constraint: Constraint::SignBased(0, 0) },
            ConstraintArc { xi: 1, xj: 0, constraint: Constraint::LimitBased(0, 0) },
            ConstraintArc { xi: 1, xj: 0, constraint: Constraint::SignBased(1, 1) },
            ConstraintArc { xi: 1, xj: 0, constraint: Constraint::LimitBased(1, 1) },
        ]
    );
}

#[test]
fn arcs_are_appended_behind_what_the_queue_holds() {
    let csp = tiled_grid();
    let assignment = vec![Value::Unassigned; 6];
    let kept = ConstraintArc { xi: 5, xj: 4, constraint: Constraint::SignBased(1, 0) };
    let mut queue = VecDeque::new();
    queue.push_back(kept);
    csp.generate_arc_constraints(0, &assignment, &mut queue, 0);
    assert_eq!(queue[0], kept);
    let arcs: Vec<ConstraintArc> = queue.into_iter().skip(1).collect();
    assert_eq!(
        arcs,
        vec![
            // pole 0 at (0, 0): the cell below, then its column, then its row
            ConstraintArc { xi: 2, xj: 0, constraint: Constraint::SignBased(0, 0) },
            ConstraintArc { xi: 2, xj: 0, constraint: Constraint::LimitBased(0, 0) },
            ConstraintArc { xi: 4, xj: 0, constraint: Constraint::LimitBased(0, 0) },
            ConstraintArc { xi: 1, xj: 0, constraint: Constraint::LimitBased(0, 0) },
            ConstraintArc { xi: 1, xj: 0, constraint: Constraint::LimitBased(1, 0) },
            // pole 1 at (0, 1): below and right, then its column, then its row
            ConstraintArc { xi: 2, xj: 0, constraint: Constraint::SignBased(1, 1) },
            ConstraintArc { xi: 1, xj: 0, constraint: Constraint::SignBased(0, 1) },
            ConstraintArc { xi: 2, xj: 0, constraint: Constraint::LimitBased(1, 1) },
            ConstraintArc { xi: 4, xj: 0, constraint: Constraint::LimitBased(1, 1) },
            ConstraintArc { xi: 1, xj: 0, constraint: Constraint::LimitBased(0, 1) },
            ConstraintArc { xi: 1, xj: 0, constraint: Constraint::LimitBased(1, 1) },
        ]
    );
}

#[test]
fn decided_and_exempt_neighbours_get_no_arc() {
    let mut csp = tiled_grid();
    let mut assignment = vec![Value::Unassigned; 6];
    assert!(csp.assign(Value::Empty, 2, &mut assignment));
    let mut queue = VecDeque::new();
    csp.generate_arc_constraints(0, &assignment, &mut queue, 1);
    let arcs: Vec<ConstraintArc> = queue.into_iter().collect();
    assert_eq!(
        arcs,
        vec![
            ConstraintArc { xi: 4, xj: 0, constraint: Constraint::LimitBased(0, 0) },
            ConstraintArc { xi: 4, xj: 0, constraint: Constraint::LimitBased(1, 1) },
        ]
    );
}

#[test]
fn a_cell_without_owner_gets_no_arc() {
    let csp = CSP::new(
        2,
        2,
        vec![1, 0],
        vec![0, 1],
        vec![1, 0],
        vec![1, 0],
        vec![vec![1, 2], vec![2, 2]],
        InferenceMode::MAC,
    );
    let assignment = vec![Value::Unassigned; 1];
    let mut queue = VecDeque::new();
    csp.generate_arc_constraints(0, &assignment, &mut queue, 0);
    assert_eq!(queue.len(), 0);
}
