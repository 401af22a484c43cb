use magnets::csp::{Constraint, ConstraintArc, InferenceMode, Value, CSP};

const F: Value = Value::Pole1PositivePole2Negative;
const R: Value = Value::Pole2PositivePole1Negative;
const V: Value = Value::Empty;
const U: Value = Value::Unassigned;

fn stacked_pair(row_pos: Vec<i32>, row_neg: Vec<i32>, col_pos: Vec<i32>, col_neg: Vec<i32>) -> CSP {
    CSP::new(
        2,
        2,
        row_pos,
        row_neg,
        col_pos,
        col_neg,
        vec![vec![0, 2], vec![0, 2]],
        InferenceMode::MAC,
    )
}

/// One row of two horizontal dominoes.
fn row_of_two(row_pos: i32, row_neg: i32) -> CSP {
    CSP::new(
        1,
        4,
        vec![row_pos],
        vec![row_neg],
        vec![1, 1, 1, 1],
        vec![1, 1, 1, 1],
        vec![vec![0, 2, 0, 2]],
        InferenceMode::MAC,
    )
}

#[test]
fn adjacent_poles_exclude_the_like_charge() {
    let f = CSP::get_neighbor_pole_based_inconsistent_value;
    assert_eq!(f(F, 0, 0), Some(F));
    assert_eq!(f(F, 0, 1), Some(R));
    assert_eq!(f(F, 1, 0), Some(R));
    assert_eq!(f(F, 1, 1), Some(F));
    assert_eq!(f(R, 0, 0), Some(R));
    assert_eq!(f(R, 0, 1), Some(F));
    assert_eq!(f(R, 1, 0), Some(F));
    assert_eq!(f(R, 1, 1), Some(R));
}

#[test]
fn vacant_undecided_and_odd_poles_exclude_nothing() {
    let f = CSP::get_neighbor_pole_based_inconsistent_value;
    assert_eq!(f(V, 0, 0), None);
    assert_eq!(f(U, 1, 0), None);
    assert_eq!(f(F, 2, 0), None);
    assert_eq!(f(R, 0, 7), None);
}

#[test]
fn one_positive_missing_excludes_a_second_positive() {
    // Column 0 asks for one positive cell and holds none.
    let csp = stacked_pair(vec![1, 1], vec![1, 1], vec![1, 1], vec![5, 5]);
    let a = vec![U; 2];
    let f = |v, pi, pj| csp.get_neighbor_limit_based_inconsistent_value(1, 0, v, pi, pj, &a);
    assert_eq!(f(F, 0, 0), Some(F));
    assert_eq!(f(R, 0, 0), None);
    assert_eq!(f(V, 0, 0), None);
    // Column 1: pole 1 is positive under the reverse orientation.
    assert_eq!(f(R, 1, 1), Some(R));
    assert_eq!(f(F, 1, 1), None);
}

#[test]
fn one_negative_missing_excludes_a_second_negative() {
    let csp = stacked_pair(vec![1, 1], vec![1, 1], vec![5, 5], vec![1, 1]);
    let a = vec![U; 2];
    let f = |v, pi, pj| csp.get_neighbor_limit_based_inconsistent_value(1, 0, v, pi, pj, &a);
    assert_eq!(f(R, 0, 0), Some(R));
    assert_eq!(f(F, 0, 0), None);
    assert_eq!(f(F, 1, 1), Some(F));
    assert_eq!(f(V, 1, 1), None);
}

#[test]
fn the_positive_quota_is_asked_before_the_negative() {
    // Both quotas of column 0 lack one; the positive one decides alone.
    let csp = stacked_pair(vec![1, 1], vec![1, 1], vec![1, 1], vec![1, 1]);
    let a = vec![U; 2];
    assert_eq!(csp.get_neighbor_limit_based_inconsistent_value(1, 0, R, 0, 0, &a), None);
    assert_eq!(csp.get_neighbor_limit_based_inconsistent_value(1, 0, F, 0, 0, &a), Some(F));
}

#[test]
fn marks_of_the_two_poles_are_not_counted() {
    // Column 0 asks for one positive; the source pole already is positive.
    let mut csp = stacked_pair(vec![1, 1], vec![1, 1], vec![1, 1], vec![5, 5]);
    let mut a = vec![U; 2];
    assert!(csp.assign(F, 0, &mut a));
    assert_eq!(csp.get_neighbor_limit_based_inconsistent_value(1, 0, F, 0, 0, &a), Some(F));
}

#[test]
fn two_missing_on_a_settled_line_exclude_a_vacant_source() {
    let csp = row_of_two(2, 5);
    let a = vec![U; 2];
    let f = |v, pi, pj| csp.get_neighbor_limit_based_inconsistent_value(0, 1, v, pi, pj, &a);
    assert_eq!(f(F, 0, 0), Some(V));
    assert_eq!(f(F, 0, 1), Some(V));
    assert_eq!(f(R, 1, 0), Some(V));
    assert_eq!(f(F, 1, 0), None);
    assert_eq!(f(R, 0, 0), None);
    assert_eq!(f(V, 0, 0), None);
    let csp = row_of_two(5, 2);
    let f = |v, pi, pj| csp.get_neighbor_limit_based_inconsistent_value(0, 1, v, pi, pj, &a);
    assert_eq!(f(F, 1, 0), Some(V));
    assert_eq!(f(R, 0, 1), Some(V));
    assert_eq!(f(F, 0, 0), None);
}

#[test]
fn two_missing_with_a_third_open_domino_exclude_nothing() {
    let csp = CSP::new(
        1,
        6,
        vec![2],
        vec![5],
        vec![1; 6],
        vec![1; 6],
        vec![vec![0, 2, 0, 2, 0, 2]],
        InferenceMode::MAC,
    );
    let mut a = vec![U; 3];
    assert_eq!(csp.get_neighbor_limit_based_inconsistent_value(0, 1, F, 0, 0, &a), None);
    a[2] = V;
    assert_eq!(csp.get_neighbor_limit_based_inconsistent_value(0, 1, F, 0, 0, &a), Some(V));
}

#[test]
fn poles_on_different_lines_or_far_from_the_quota_exclude_nothing() {
    let csp = stacked_pair(vec![1, 1], vec![1, 1], vec![1, 1], vec![1, 1]);
    let a = vec![U; 2];
    // pole 0 of domino 1 at (1, 0) and pole 1 of domino 0 at (0, 1)
    assert_eq!(csp.get_neighbor_limit_based_inconsistent_value(1, 0, F, 0, 1, &a), None);
    let csp = stacked_pair(vec![1, 1], vec![1, 1], vec![7, 7], vec![7, 7]);
    assert_eq!(csp.get_neighbor_limit_based_inconsistent_value(1, 0, F, 0, 0, &a), None);
}

#[test]
fn removing_a_value_moves_the_last_one_into_its_place() {
    let mut domain = vec![F, R, V];
    assert!(CSP::remove_value_from_domain(F, &mut domain));
    assert_eq!(domain, vec![V, R]);
    assert!(CSP::remove_value_from_domain(R, &mut domain));
    assert_eq!(domain, vec![V]);
    assert!(!CSP::remove_value_from_domain(R, &mut domain));
    assert_eq!(domain, vec![V]);
    assert!(CSP::remove_value_from_domain(V, &mut domain));
    assert_eq!(domain, Vec::<Value>::new());
    assert!(!CSP::remove_value_from_domain(V, &mut domain));
}

#[test]
fn removing_takes_only_the_first_occurrence() {
    let mut domain = vec![R, F, R, V];
    assert!(CSP::remove_value_from_domain(R, &mut domain));
    assert_eq!(domain, vec![V, F, R]);
}

#[test]
fn revise_removes_what_the_assigned_source_excludes() {
    let mut csp = stacked_pair(vec![1, 1], vec![1, 1], vec![1, 1], vec![1, 1]);
    let mut a = vec![U; 2];
    assert!(csp.assign(F, 0, &mut a));
    let mut domains = vec![vec![F, R, V], vec![F, R, V]];
    let arc = ConstraintArc { xi: 1, xj: 0, constraint: Constraint::SignBased(0, 0) };
    assert_eq!(csp.revise(&arc, &mut domains, &a), (true, true));
    assert_eq!(domains, vec![vec![F, R, V], vec![V, R]]);
    assert_eq!(csp.revise(&arc, &mut domains, &a), (true, false));
    assert_eq!(domains, vec![vec![F, R, V], vec![V, R]]);
}

#[test]
fn revise_removes_what_the_last_candidate_of_the_source_excludes() {
    let csp = stacked_pair(vec![1, 1], vec![1, 1], vec![1, 1], vec![1, 1]);
    let a = vec![U; 2];
    let mut domains = vec![vec![R], vec![F, R, V]];
    let arc = ConstraintArc { xi: 1, xj: 0, constraint: Constraint::SignBased(1, 1) };
    assert_eq!(csp.revise(&arc, &mut domains, &a), (true, true));
    assert_eq!(domains, vec![vec![R], vec![F, V]]);
    // With two candidates left in the source nothing is certain.
    let mut domains = vec![vec![R, V], vec![F, R, V]];
    assert_eq!(csp.revise(&arc, &mut domains, &a), (true, false));
    assert_eq!(domains, vec![vec![R, V], vec![F, R, V]]);
}

#[test]
fn revise_is_infeasible_when_the_domain_runs_empty() {
    let mut csp = stacked_pair(vec![1, 1], vec![1, 1], vec![1, 1], vec![1, 1]);
    let mut a = vec![U; 2];
    assert!(csp.assign(F, 0, &mut a));
    let mut domains = vec![vec![F, R, V], vec![F]];
    let arc = ConstraintArc { xi: 1, xj: 0, constraint: Constraint::SignBased(0, 0) };
    assert_eq!(csp.revise(&arc, &mut domains, &a), (false, false));
    assert_eq!(domains, vec![vec![F, R, V], vec![]]);
}

#[test]
fn revise_rejects_an_arc_from_a_domino_to_itself() {
    let csp = stacked_pair(vec![1, 1], vec![1, 1], vec![1, 1], vec![1, 1]);
    let a = vec![U; 2];
    let mut domains = vec![vec![F, R, V], vec![F, R, V]];
    let arc = ConstraintArc { xi: 1, xj: 1, constraint: Constraint::SignBased(0, 0) };
    assert_eq!(csp.revise(&arc, &mut domains, &a), (false, false));
    assert_eq!(domains, vec![vec![F, R, V], vec![F, R, V]]);
}

#[test]
fn revise_leaves_the_domain_of_a_decided_domino() {
    let mut csp = stacked_pair(vec![1, 1], vec![1, 1], vec![1, 1], vec![1, 1]);
    let mut a = vec![U; 2];
    assert!(csp.assign(F, 0, &mut a));
    assert!(csp.assign(R, 1, &mut a));
    let mut domains = vec![vec![F, R, V], vec![F, R, V]];
    let arc = ConstraintArc { xi: 1, xj: 0, constraint: Constraint::SignBased(0, 0) };
    assert_eq!(csp.revise(&arc, &mut domains, &a), (true, false));
    assert_eq!(domains, vec![vec![F, R, V], vec![F, R, V]]);
    let mut domains = vec![vec![F, R, V], vec![]];
    assert_eq!(csp.revise(&arc, &mut domains, &a), (false, false));
}

#[test]
fn revise_along_a_quota_arc_uses_the_quota() {
    let mut csp = stacked_pair(vec![1, 1], vec![1, 1], vec![1, 1], vec![5, 5]);
    let mut a = vec![U; 2];
    assert!(csp.assign(F, 0, &mut a));
    let mut domains = vec![vec![F, R, V], vec![F, R, V]];
    let arc = ConstraintArc { xi: 1, xj: 0, constraint: Constraint::LimitBased(0, 0) };
    assert_eq!(csp.revise(&arc, &mut domains, &a), (true, true));
    assert_eq!(domains, vec![vec![F, R, V], vec![V, R]]);
}

#[test]
fn clone_domains_copies_every_domain() {
    let domains = vec![vec![F, R, V], vec![], vec![V]];
    assert_eq!(CSP::clone_domains(&domains), domains);
}
