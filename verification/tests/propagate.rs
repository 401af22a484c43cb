use magnets::csp::{Constraint, ConstraintArc, Domain, InferenceMode, Value, CSP};
use std::collections::VecDeque;

const F: Value = Value::Pole1PositivePole2Negative;
const R: Value = Value::Pole2PositivePole1Negative;
const V: Value = Value::Empty;
const U: Value = Value::Unassigned;

/// One row of three horizontal dominoes with quotas out of reach.
fn row_of_three(mode: InferenceMode) -> CSP {
    CSP::new(
        1,
        6,
        vec![9],
        vec![9],
        vec![9; 6],
        vec![9; 6],
        vec![vec![0, 2, 0, 2, 0, 2]],
        mode,
    )
}

fn stacked(mode: InferenceMode) -> CSP {
    CSP::new(
        2,
        2,
        vec![1, 1],
        vec![1, 1],
        vec![1, 1],
        vec![1, 1],
        vec![vec![0, 2], vec![0, 2]],
        mode,
    )
}

fn queue_of(arcs: Vec<ConstraintArc>) -> VecDeque<ConstraintArc> {
    arcs.into_iter().collect()
}

fn touching() -> ConstraintArc {
    // pole 0 of domino 1 at (0, 2) beside pole 1 of domino 0 at (0, 1)
    ConstraintArc { xi: 1, xj: 0, constraint: Constraint::SignBased(0, 1) }
}

#[test]
fn an_empty_queue_returns_the_domains_unchanged() {
    let csp = row_of_three(InferenceMode::FC);
    let domains: Domain = vec![vec![F], vec![R, F], vec![F, R, V]];
    let a = vec![U; 3];
    assert_eq!(csp.forward_checking(&domains, &a, VecDeque::new()), (true, domains.clone()));
    assert_eq!(
        csp.maintaining_arc_consistency(&domains, &a, VecDeque::new()),
        (true, domains.clone())
    );
}

#[test]
fn forward_checking_narrows_only_along_the_given_arcs() {
    let csp = row_of_three(InferenceMode::FC);
    let domains: Domain = vec![vec![F], vec![R, F], vec![F, R, V]];
    let a = vec![U; 3];
    let out = csp.forward_checking(&domains, &a, queue_of(vec![touching()]));
    assert_eq!(out, (true, vec![vec![F], vec![F], vec![F, R, V]]));
    // The argument is left as it was.
    assert_eq!(domains, vec![vec![F], vec![R, F], vec![F, R, V]]);
}

#[test]
fn arc_consistency_carries_a_narrowing_on_to_the_next_domino() {
    let csp = row_of_three(InferenceMode::MAC);
    let domains: Domain = vec![vec![F], vec![R, F], vec![F, R, V]];
    let a = vec![U; 3];
    let out = csp.maintaining_arc_consistency(&domains, &a, queue_of(vec![touching()]));
    assert_eq!(out, (true, vec![vec![F], vec![F], vec![F, V]]));
    assert_eq!(domains, vec![vec![F], vec![R, F], vec![F, R, V]]);
}

#[test]
fn both_propagators_report_an_emptied_domain_without_domains() {
    let csp = row_of_three(InferenceMode::MAC);
    let domains: Domain = vec![vec![F], vec![R], vec![F, R, V]];
    let a = vec![U; 3];
    assert_eq!(
        csp.forward_checking(&domains, &a, queue_of(vec![touching()])),
        (false, vec![])
    );
    assert_eq!(
        csp.maintaining_arc_consistency(&domains, &a, queue_of(vec![touching()])),
        (false, vec![])
    );
}

#[test]
fn both_propagators_stop_at_the_first_infeasible_arc() {
    let csp = row_of_three(InferenceMode::MAC);
    let domains: Domain = vec![vec![F], vec![R, F], vec![F, R, V]];
    let a = vec![U; 3];
    let looped = ConstraintArc { xi: 2, xj: 2, constraint: Constraint::SignBased(0, 0) };
    assert_eq!(
        csp.forward_checking(&domains, &a, queue_of(vec![looped, touching()])),
        (false, vec![])
    );
    assert_eq!(
        csp.maintaining_arc_consistency(&domains, &a, queue_of(vec![touching(), looped])),
        (false, vec![])
    );
}

#[test]
fn inference_runs_the_configured_propagator_on_the_arcs_of_the_domino() {
    for mode in [InferenceMode::FC, InferenceMode::MAC] {
        let mut csp = stacked(mode);
        let mut a = vec![U; 2];
        assert!(csp.assign(F, 0, &mut a));
        let domains: Domain = vec![vec![F, R, V], vec![F, R, V]];
        let out = csp.inference(0, &domains, &a);
        assert_eq!(out, (true, vec![vec![F, R, V], vec![V, R]]));
    }
}

#[test]
fn inference_modes_differ_where_a_narrowing_can_travel() {
    let domains: Domain = vec![vec![F], vec![R, F], vec![F, R, V]];
    let mut a = vec![U; 3];
    let mut fc = row_of_three(InferenceMode::FC);
    assert!(fc.assign(F, 0, &mut a));
    assert_eq!(fc.inference(0, &domains, &a), (true, vec![vec![F], vec![F], vec![F, R, V]]));
    let mut a = vec![U; 3];
    let mut mac = row_of_three(InferenceMode::MAC);
    assert!(mac.assign(F, 0, &mut a));
    assert_eq!(mac.inference(0, &domains, &a), (true, vec![vec![F], vec![F], vec![F, V]]));
}
