//! The search driver: variable selection, value ordering, inference, and the
//! backtracking search itself.

use crate::csp::{
    charge, grid, Assignment, BoardCell, Constraint, ConstraintArc, Domain, InferenceMode, Value,
    CSP,
};
use crate::solution::{
    complete, extends, lemma_unresolved_complete, lemma_unresolved_update, unresolved,
};
use crate::outcome::{lcv_values, lemma_lcv_unique, lemma_mrv_unique, mrv_index};
use crate::store::lemma_unassign_undoes_assign;
use std::collections::VecDeque;
use vstd::prelude::*;

verus! {

/// Whether `i` is the undecided domino with the fewest candidates, the lowest
/// index winning a tie.
pub open spec fn is_mrv(domains: Seq<Seq<Value>>, a: Seq<Value>, i: int) -> bool {
    &&& 0 <= i < a.len()
    &&& a[i] == Value::Unassigned
    &&& forall|j: int|
        0 <= j < a.len() && a[j] == Value::Unassigned ==> domains[i].len() < (
        #[trigger] domains[j]).len() || (domains[i].len() == domains[j].len() && i <= j)
}

/// Whether `p` occurs in `order`.
pub open spec fn lists(order: Seq<int>, p: int) -> bool {
    exists|k: int| 0 <= k < order.len() && #[trigger] order[k] == p
}

/// Whether `p` occurs in `order`.
spec fn holds_index(order: Seq<usize>, p: int) -> bool {
    exists|k: int| 0 <= k < order.len() && #[trigger] order[k] == p
}

/// Whether `order` lists the positions `0..scores.len()` by ascending score,
/// positions with equal scores in ascending order.
pub open spec fn is_lcv_order(order: Seq<int>, scores: Seq<nat>) -> bool {
    &&& order.len() == scores.len()
    &&& forall|k: int| 0 <= k < order.len() ==> 0 <= #[trigger] order[k] < scores.len()
    &&& forall|k: int, m: int|
        0 <= k < m < order.len() ==> scores[#[trigger] order[k]] < scores[#[trigger] order[m]] || (
        scores[order[k]] == scores[order[m]] && order[k] < order[m])
    &&& forall|p: int| 0 <= p < scores.len() ==> #[trigger] lists(order, p)
}

/// The assignment that a result holds, if it holds one.
pub open spec fn view_of(res: Option<Assignment>) -> Option<Seq<Value>> {
    match res {
        Some(s) => Some(s@),
        None => None,
    }
}

/// The assignment that leaves `n` dominoes undecided.
pub open spec fn undecided(n: nat) -> Seq<Value> {
    Seq::new(n, |i: int| Value::Unassigned)
}

/// The domains of `n` dominoes before any inference: the two charged
/// orientations and the vacant one, in this order.
pub open spec fn full_domains(n: nat) -> Seq<Seq<Value>> {
    Seq::new(
        n,
        |i: int|
            seq![Value::Pole1PositivePole2Negative, Value::Pole2PositivePole1Negative, Value::Empty],
    )
}

/// Whether a node budget has run out. `None` is no limit.
pub open spec fn spent(budget: Option<usize>) -> bool {
    budget == Some(0usize)
}

/// Whether the budget `after` is what is left of `before`: still unlimited,
/// or limited and not larger.
pub open spec fn left_of(after: Option<usize>, before: Option<usize>) -> bool {
    match before {
        Some(b) => after is Some && after.unwrap() <= b,
        None => after is None,
    }
}

/// Whether no domain has more than three candidates.
pub open spec fn small(domains: Seq<Seq<Value>>) -> bool {
    forall|i: int| 0 <= i < domains.len() ==> (#[trigger] domains[i]).len() <= 3
}

impl CSP {
    /// How many candidates of `dom` exclude `value` along `arc`.
    pub open spec fn eliminated(
        &self,
        arc: ConstraintArc,
        dom: Seq<Value>,
        value: Value,
        a: Seq<Value>,
    ) -> nat
        decreases dom.len(),
    {
        if dom.len() == 0 {
            0
        } else {
            self.eliminated(arc, dom.drop_last(), value, a) + if self.excluded_by(
                arc,
                dom.last(),
                a,
            ) == Some(value) {
                1nat
            } else {
                0nat
            }
        }
    }

    /// What `value` costs along `arc`: one for each candidate of the
    /// dependent domino that it eliminates, and five more if it eliminates
    /// the only candidate left.
    pub open spec fn arc_score(
        &self,
        arc: ConstraintArc,
        value: Value,
        domains: Seq<Seq<Value>>,
        a: Seq<Value>,
    ) -> nat {
        let xi = arc.xi as int;
        if arc.xi == arc.xj || a[xi] != Value::Unassigned {
            0
        } else {
            let e = self.eliminated(arc, domains[xi], value, a);
            if e != 0 && domains[xi].len() == 1 {
                e + 5
            } else {
                e
            }
        }
    }

    /// The sum of the costs of `value` along `arcs`.
    pub open spec fn arcs_score(
        &self,
        arcs: Seq<ConstraintArc>,
        value: Value,
        domains: Seq<Seq<Value>>,
        a: Seq<Value>,
    ) -> nat
        decreases arcs.len(),
    {
        if arcs.len() == 0 {
            0
        } else {
            self.arcs_score(arcs.drop_last(), value, domains, a) + self.arc_score(
                arcs.last(),
                value,
                domains,
                a,
            )
        }
    }

    /// The constraint score of giving `value` to `var`: its cost along every
    /// arc toward `var`.
    pub open spec fn constraint_score(
        &self,
        value: Value,
        var: int,
        domains: Seq<Seq<Value>>,
        a: Seq<Value>,
    ) -> nat {
        self.arcs_score(self.arcs_of(var, a, var), value, domains, a)
    }

    /// The constraint scores of the candidates of `var`, in domain order.
    pub open spec fn scores(&self, var: int, domains: Seq<Seq<Value>>, a: Seq<Value>) -> Seq<nat> {
        Seq::new(
            domains[var].len(),
            |k: int| self.constraint_score(domains[var][k], var, domains, a),
        )
    }

    /// What inference yields after `var` has been assigned: the outcome of
    /// the configured propagator on the arcs toward `var`.
    pub open spec fn inferred(&self, var: int, domains: Seq<Seq<Value>>, a: Seq<Value>) -> (
        bool,
        Seq<Seq<Value>>,
    ) {
        match self.inference_mode {
            InferenceMode::FC => self.forward_checked(domains, self.arcs_of(var, a, var), a),
            InferenceMode::MAC => self.arc_consistent(domains, self.arcs_of(var, a, var), a),
        }
    }

    /// Whether every domino is decided.
    pub fn is_complete(&self, assignment: &Assignment) -> (res: bool)
        ensures
            res == complete(assignment@),
    {
        let mut i: usize = 0;
        while i < assignment.len()
            invariant
                i <= assignment@.len(),
                forall|k: int| 0 <= k < i ==> assignment@[k] != Value::Unassigned,
            decreases assignment@.len() - i,
        {
            if assignment[i] == Value::Unassigned {
                return false;
            }
            i += 1;
        }
        true
    }

    /// Picks the undecided domino with the fewest candidates, the lowest
    /// index winning a tie; `None` when every domino is decided.
    pub fn select_unassigned_variable(&self, domains: &Domain, assignment: &Assignment) -> (res:
        Option<usize>)
        requires
            domains@.len() == assignment@.len(),
        ensures
            match res {
                Some(i) => is_mrv(grid(domains@), assignment@, i as int) && i == mrv_index(
                    grid(domains@),
                    assignment@,
                ),
                None => complete(assignment@),
            },
    {
        let mut best: Option<usize> = None;
        let mut i: usize = 0;
        while i < assignment.len()
            invariant
                i <= assignment@.len(),
                domains@.len() == assignment@.len(),
                match best {
                    Some(b) => {
                        &&& b < i
                        &&& assignment@[b as int] == Value::Unassigned
                        &&& forall|j: int|
                            0 <= j < i && assignment@[j] == Value::Unassigned ==> domains@[b as int]@.len()
                                < (#[trigger] domains@[j])@.len() || (domains@[b as int]@.len()
                                == domains@[j]@.len() && b <= j)
                    },
                    None => forall|j: int| 0 <= j < i ==> assignment@[j] != Value::Unassigned,
                },
            decreases assignment@.len() - i,
        {
            if assignment[i] == Value::Unassigned {
                match best {
                    Some(b) => {
                        if domains[i].len() < domains[b].len() {
                            best = Some(i);
                        }
                    },
                    None => {
                        best = Some(i);
                    },
                }
            }
            i += 1;
        }
        proof {
            if let Some(b) = best {
                assert forall|j: int|
                    0 <= j < assignment@.len() && assignment@[j] == Value::Unassigned implies grid(
                    domains@,
                )[b as int].len() < (#[trigger] grid(domains@)[j]).len() || (grid(
                    domains@,
                )[b as int].len() == grid(domains@)[j].len() && b <= j) by {
                    assert(domains@[b as int]@.len() < domains@[j]@.len() || (
                    domains@[b as int]@.len() == domains@[j]@.len() && b <= j));
                }
                lemma_mrv_unique(grid(domains@), assignment@, b as int);
            }
        }
        best
    }

    /// The constraint score of giving `value` to `var_index`.
    pub fn calculate_constraint_score(
        &self,
        value: Value,
        var_index: usize,
        domains: &Domain,
        assignment: &Assignment,
    ) -> (score: u128)
        requires
            self.wf(),
            var_index < self.variables@.len(),
            domains@.len() == self.variables@.len(),
            assignment@.len() == self.variables@.len(),
            small(grid(domains@)),
        ensures
            score == self.constraint_score(value, var_index as int, grid(domains@), assignment@),
    {
        let mut arc_queue: VecDeque<ConstraintArc> = VecDeque::new();
        self.generate_arc_constraints(var_index, assignment, &mut arc_queue, var_index);
        let ghost arcs = arc_queue@;
        let ghost doms = grid(domains@);
        proof {
            self.lemma_arcs_of(var_index as int, assignment@, var_index as int);
            assert(arcs == self.arcs_of(var_index as int, assignment@, var_index as int));
            assert(arcs.take(0) == Seq::<ConstraintArc>::empty());
        }
        let total = arc_queue.len();
        let mut done: usize = 0;
        let mut constraint_score: u128 = 0;
        while arc_queue.len() > 0
            invariant
                self.wf(),
                domains@.len() == self.variables@.len(),
                assignment@.len() == self.variables@.len(),
                small(grid(domains@)),
                doms == grid(domains@),
                total == arcs.len(),
                done + arc_queue@.len() == total,
                arc_queue@ == arcs.skip(done as int),
                forall|k: int| 0 <= k < arcs.len() ==> self.arc_wf(#[trigger] arcs[k]),
                constraint_score == self.arcs_score(
                    arcs.take(done as int),
                    value,
                    doms,
                    assignment@,
                ),
                constraint_score <= 8 * done,
            decreases arc_queue@.len(),
        {
            if let Some(constraint_arc) = arc_queue.pop_front() {
                proof {
                    assert(constraint_arc == arcs[done as int]);
                    assert(arc_queue@ == arcs.skip(done + 1));
                    assert(arcs.take(done + 1).drop_last() == arcs.take(done as int));
                    assert(arcs.take(done + 1).last() == constraint_arc);
                    assert(self.arc_wf(constraint_arc));
                }
                let gained = self.arc_cost(&constraint_arc, value, domains, assignment);
                constraint_score = constraint_score + gained;
                done += 1;
            }
        }
        proof {
            assert(arcs.take(done as int) == arcs);
        }
        constraint_score
    }

    /// What `value` costs along one arc.
    fn arc_cost(
        &self,
        constraint_arc: &ConstraintArc,
        value: Value,
        domains: &Domain,
        assignment: &Assignment,
    ) -> (cost: u128)
        requires
            self.wf(),
            self.arc_wf(*constraint_arc),
            domains@.len() == self.variables@.len(),
            assignment@.len() == self.variables@.len(),
            small(grid(domains@)),
        ensures
            cost == self.arc_score(*constraint_arc, value, grid(domains@), assignment@),
            cost <= 8,
    {
        let arc = *constraint_arc;
        let xi_index = arc.xi;
        let xj_index = arc.xj;
        if xi_index == xj_index || assignment[xi_index] != Value::Unassigned {
            return 0;
        }
        let ghost dom = grid(domains@)[xi_index as int];
        assert(dom == domains@[xi_index as int]@);
        assert(dom.len() <= 3);
        let size = domains[xi_index].len();
        let mut eliminated: u128 = 0;
        let mut k: usize = 0;
        assert(dom.take(0) == Seq::<Value>::empty());
        while k < size
            invariant
                self.wf(),
                self.arc_wf(arc),
                xi_index == arc.xi,
                xj_index == arc.xj,
                domains@.len() == self.variables@.len(),
                assignment@.len() == self.variables@.len(),
                dom == domains@[xi_index as int]@,
                size == dom.len(),
                k <= size,
                eliminated <= k,
                eliminated == self.eliminated(arc, dom.take(k as int), value, assignment@),
            decreases size - k,
        {
            let v = domains[xi_index][k];
            let excluded = match arc.constraint {
                Constraint::SignBased(
                    pi,
                    pj,
                ) => CSP::get_neighbor_pole_based_inconsistent_value(v, pi, pj),
                Constraint::LimitBased(
                    pi,
                    pj,
                ) => self.get_neighbor_limit_based_inconsistent_value(
                    xi_index,
                    xj_index,
                    v,
                    pi,
                    pj,
                    assignment,
                ),
            };
            proof {
                assert(dom.take(k + 1).drop_last() == dom.take(k as int));
                assert(dom.take(k + 1).last() == v);
                assert(excluded == self.excluded_by(arc, v, assignment@));
            }
            if let Some(w) = excluded {
                if w == value {
                    eliminated = eliminated + 1;
                }
            }
            k += 1;
        }
        proof {
            assert(dom.take(size as int) == dom);
        }
        if eliminated != 0 && size == 1 {
            eliminated + 5
        } else {
            eliminated
        }
    }

    /// The candidates of `var_index` by ascending constraint score, the least
    /// constraining first; candidates with equal scores keep their order.
    pub fn order_domain_values(
        &self,
        var_index: usize,
        domains: &Domain,
        assignment: &Assignment,
    ) -> (res: Vec<Value>)
        requires
            self.wf(),
            var_index < self.variables@.len(),
            domains@.len() == self.variables@.len(),
            assignment@.len() == self.variables@.len(),
            small(grid(domains@)),
        ensures
            exists|order: Seq<int>|
                {
                    &&& is_lcv_order(
                        order,
                        self.scores(var_index as int, grid(domains@), assignment@),
                    )
                    &&& res@ == Seq::new(
                        order.len(),
                        |k: int| domains@[var_index as int]@[order[k]],
                    )
                },
            res@ == lcv_values(
                domains@[var_index as int]@,
                self.scores(var_index as int, grid(domains@), assignment@),
            ),
    {
        let ghost dom = domains@[var_index as int]@;
        let ghost wanted = self.scores(var_index as int, grid(domains@), assignment@);
        assert(grid(domains@)[var_index as int] == dom);
        let size = domains[var_index].len();
        let mut scores: Vec<u128> = Vec::new();
        let mut i: usize = 0;
        while i < size
            invariant
                self.wf(),
                var_index < self.variables@.len(),
                domains@.len() == self.variables@.len(),
                assignment@.len() == self.variables@.len(),
                small(grid(domains@)),
                dom == domains@[var_index as int]@,
                wanted == self.scores(var_index as int, grid(domains@), assignment@),
                size == dom.len(),
                i <= size,
                scores@.len() == i,
                forall|k: int| 0 <= k < i ==> scores@[k] == wanted[k],
            decreases size - i,
        {
            let score = self.calculate_constraint_score(
                domains[var_index][i],
                var_index,
                domains,
                assignment,
            );
            scores.push(score);
            i += 1;
        }
        let mut order: Vec<usize> = Vec::new();
        let mut i: usize = 0;
        while i < size
            invariant
                size == dom.len(),
                size == wanted.len(),
                i <= size,
                scores@.len() == size,
                forall|k: int| 0 <= k < size ==> scores@[k] == wanted[k],
                order@.len() == i,
                forall|k: int| 0 <= k < i ==> (#[trigger] order@[k]) < i,
                forall|k: int, m: int|
                    0 <= k < m < i ==> wanted[(#[trigger] order@[k]) as int] < wanted[(
                    #[trigger] order@[m]) as int] || (wanted[order@[k] as int]
                        == wanted[order@[m] as int] && order@[k] < order@[m]),
                forall|p: int| 0 <= p < i ==> #[trigger] holds_index(order@, p),
            decreases size - i,
        {
            let mut at: usize = 0;
            while at < order.len() && scores[order[at]] <= scores[i]
                invariant
                    i < size,
                    scores@.len() == size,
                    order@.len() == i,
                    at <= i,
                    forall|k: int| 0 <= k < i ==> (#[trigger] order@[k]) < i,
                    forall|k: int| 0 <= k < at ==> scores@[(#[trigger] order@[k]) as int] <= scores@[i as int],
                decreases i - at,
            {
                at += 1;
            }
            let ghost before = order@;
            order.insert(at, i);
            proof {
                let after = order@;
                assert forall|k: int, m: int| 0 <= k < m < i + 1 implies wanted[(
                #[trigger] after[k]) as int] < wanted[(#[trigger] after[m]) as int] || (
                wanted[after[k] as int] == wanted[after[m] as int] && after[k] < after[m]) by {
                    if m < at {
                        assert(after[k] == before[k] && after[m] == before[m]);
                    } else if m == at {
                        assert(after[k] == before[k]);
                    } else if k < at {
                        assert(after[k] == before[k] && after[m] == before[m - 1]);
                    } else if k == at {
                        assert(after[m] == before[m - 1]);
                        if at < m - 1 {
                            assert(wanted[before[at as int] as int] <= wanted[before[m - 1] as int]);
                        }
                    } else {
                        assert(after[k] == before[k - 1] && after[m] == before[m - 1]);
                    }
                }
                assert forall|p: int| 0 <= p < i + 1 implies #[trigger] holds_index(after, p) by {
                    if p == i {
                        assert(after[at as int] == p);
                    } else {
                        assert(holds_index(before, p));
                        let k = choose|k: int| 0 <= k < before.len() && #[trigger] before[k] == p;
                        if k < at {
                            assert(after[k] == p);
                        } else {
                            assert(after[k + 1] == p);
                        }
                    }
                }
                assert forall|k: int| 0 <= k < i + 1 implies (#[trigger] after[k]) < i + 1 by {
                    if k < at {
                        assert(after[k] == before[k]);
                    } else if k > at {
                        assert(after[k] == before[k - 1]);
                    }
                }
            }
            i += 1;
        }
        let mut values: Vec<Value> = Vec::new();
        let mut k: usize = 0;
        while k < size
            invariant
                size == dom.len(),
                dom == domains@[var_index as int]@,
                var_index < domains@.len(),
                order@.len() == size,
                forall|k: int| 0 <= k < size ==> (#[trigger] order@[k]) < size,
                k <= size,
                values@.len() == k,
                forall|m: int| 0 <= m < k ==> values@[m] == dom[order@[m] as int],
            decreases size - k,
        {
            values.push(domains[var_index][order[k]]);
            k += 1;
        }
        proof {
            let witness = Seq::new(size as nat, |k: int| order@[k] as int);
            assert(is_lcv_order(witness, wanted)) by {
                assert forall|p: int| 0 <= p < wanted.len() implies #[trigger] lists(
                    witness,
                    p,
                ) by {
                    assert(holds_index(order@, p));
                    let k = choose|k: int| 0 <= k < order@.len() && #[trigger] order@[k] == p;
                    assert(witness[k] == p);
                }
            }
            assert(values@ =~= Seq::new(witness.len(), |k: int| dom[witness[k]]));
            let chosen = choose|order: Seq<int>| is_lcv_order(order, wanted);
            lemma_lcv_unique(witness, chosen, wanted);
        }
        values
    }

    /// Runs the configured propagator on the arcs toward the domino that was
    /// just assigned.
    pub fn inference(&self, var_index: usize, domains: &Domain, assignment: &Assignment) -> (res: (
        bool,
        Domain,
    ))
        requires
            self.wf(),
            var_index < self.variables@.len(),
            domains@.len() == self.variables@.len(),
            assignment@.len() == self.variables@.len(),
        ensures
            (res.0, grid(res.1@)) == self.inferred(
                var_index as int,
                grid(domains@),
                assignment@,
            ),
    {
        let mut arc_queue: VecDeque<ConstraintArc> = VecDeque::new();
        self.generate_arc_constraints(var_index, assignment, &mut arc_queue, var_index);
        proof {
            self.lemma_arcs_of(var_index as int, assignment@, var_index as int);
            assert(arc_queue@ == self.arcs_of(var_index as int, assignment@, var_index as int));
        }
        match self.inference_mode {
            InferenceMode::FC => self.forward_checking(domains, assignment, arc_queue),
            InferenceMode::MAC => self.maintaining_arc_consistency(domains, assignment, arc_queue),
        }
    }

    /// A copy of the assignment.
    fn copy_assignment(assignment: &Assignment) -> (res: Assignment)
        ensures
            res@ == assignment@,
    {
        let mut res: Assignment = Vec::new();
        let mut i: usize = 0;
        while i < assignment.len()
            invariant
                i <= assignment@.len(),
                res@ == assignment@.take(i as int),
            decreases assignment@.len() - i,
        {
            res.push(assignment[i]);
            assert(assignment@.take(i + 1) == assignment@.take(i as int).push(assignment@[i as int]));
            i += 1;
        }
        assert(assignment@.take(i as int) == assignment@);
        res
    }

    /// Tries one candidate for one undecided domino: assigns it, checks the
    /// board, propagates, and searches on. Takes the candidate back when any
    /// of this fails; the board, the counters and `assignment` are then as
    /// they were, and where every cell has an owner and the budget has not
    /// run out no solution within the given domains keeps the decisions made
    /// so far and gives the domino this value.
    ///
    /// The result and the budget left are those of `found_with`.
    pub fn try_value(
        &mut self,
        value: Value,
        var_index: usize,
        domains: &Domain,
        assignment: &mut Assignment,
        budget: &mut Option<usize>,
    ) -> (res: Option<Assignment>)
        requires
            old(self).wf(),
            old(self).agrees(old(assignment)@),
            old(self).board_valid(),
            var_index < old(self).variables@.len(),
            old(assignment)@[var_index as int] == Value::Unassigned,
            domains@.len() == old(self).variables@.len(),
            small(grid(domains@)),
        ensures
            final(self).wf(),
            final(self).same_puzzle(old(self)),
            left_of(*final(budget), *old(budget)),
            match res {
                Some(s) => {
                    &&& final(self).solved_by(s@)
                    &&& extends(old(assignment)@, s@)
                    &&& final(assignment)@ == s@
                },
                None => {
                    &&& final(self).store() == old(self).store()
                    &&& final(assignment)@ == old(assignment)@
                    &&& old(self).covered() && !spent(*final(budget))
                        ==> !old(self).has_solution_choosing(
                        old(assignment)@,
                        grid(domains@),
                        var_index as int,
                        value,
                    )
                },
            },
            forall|c: CSP| #[trigger]
                old(self).alike(&c) ==> c.found_with(
                    grid(domains@),
                    old(assignment)@,
                    var_index as int,
                    value,
                    *old(budget),
                ) == (view_of(res), *final(budget)),
        decreases unresolved(old(assignment)@), 0nat,
    {
        let ghost a0 = assignment@;
        let ghost doms = grid(domains@);
        let ghost x = var_index as int;
        let ghost start = *self;
        let ghost b0 = *budget;
        proof {
            assert(doms.len() == domains@.len());
        }
        if !self.assign(value, var_index, assignment) {
            proof {
                start.lemma_unassignable_value(a0, doms, x, value);
                assert forall|c: CSP| #[trigger] start.alike(&c) implies c.found_with(
                    doms,
                    a0,
                    x,
                    value,
                    b0,
                ) == (None::<Seq<Value>>, b0) by {
                    start.lemma_found_with_unassignable(&c, doms, a0, x, value, b0);
                }
            }
            return None;
        }
        let ghost placed = *self;
        let ghost a1 = assignment@;
        let ghost head = start.pole(x, 0);
        let ghost tail = start.pole(x, 1);
        proof {
            assert(start.domino_wf(x));
            self.lemma_agrees_after_assign(&start, a0, x, value);
            lemma_unresolved_update(a0, x, value);
            assert(self.pole_mark(x, 0) == charge(value, 0));
            assert(self.pole_mark(x, 1) == charge(value, 1));
            placed.lemma_same_layout_solutions(&start, a0, doms);
            assert(start.gives(&placed, x, value));
            assert(start.free_for(x, value));
        }
        if self.is_consistent(var_index) {
            proof {
                self.lemma_valid_after_assign(&start, x, value);
            }
            let (feasible, inferred_domains) = self.inference(var_index, domains, assignment);
            proof {
                if placed.covered() && placed.has_solution_choosing(a0, doms, x, value) {
                    placed.lemma_inference_keeps(a0, doms, x, value);
                }
            }
            if feasible {
                proof {
                    let arcs = self.arcs_of(x, a1, x);
                    self.lemma_forward_checked_narrows(doms, arcs, a1);
                    self.lemma_arc_consistent_narrows(doms, arcs, a1);
                    let out = grid(inferred_domains@);
                    assert(out.len() == inferred_domains@.len());
                    assert forall|i: int| 0 <= i < out.len() implies (#[trigger] out[i]).len()
                        <= 3 by {
                        assert(doms[i].len() <= 3);
                    }
                }
                let ghost inferred = grid(inferred_domains@);
                let deeper = self.backtrack(inferred_domains, assignment, budget);
                proof {
                    let out = (view_of(deeper), *budget);
                    assert forall|c: CSP| #[trigger] start.alike(&c) implies c.found_with(
                        doms,
                        a0,
                        x,
                        value,
                        b0,
                    ) == out by {
                        start.lemma_found_with_searched(&c, &placed, doms, a0, x, value, b0, out);
                    }
                }
                if let Some(result) = deeper {
                    return Some(result);
                }
                proof {
                    self.lemma_same_store(&placed);
                }
            } else {
                proof {
                    assert forall|c: CSP| #[trigger] start.alike(&c) implies c.found_with(
                        doms,
                        a0,
                        x,
                        value,
                        b0,
                    ) == (None::<Seq<Value>>, b0) by {
                        start.lemma_found_with_refused(&c, &placed, doms, a0, x, value, b0);
                    }
                }
            }
        } else {
            proof {
                placed.lemma_rejected_value(a0, doms, x, value);
                assert forall|c: CSP| #[trigger] start.alike(&c) implies c.found_with(
                    doms,
                    a0,
                    x,
                    value,
                    b0,
                ) == (None::<Seq<Value>>, b0) by {
                    start.lemma_found_with_refused(&c, &placed, doms, a0, x, value, b0);
                }
            }
        }
        self.unassign(value, var_index, assignment);
        proof {
            let s0 = start.store();
            assert(s0.board[head.row as int][head.col as int] == BoardCell::Unassigned);
            assert(s0.board[tail.row as int][tail.col as int] == BoardCell::Unassigned);
            lemma_unassign_undoes_assign(s0, head, tail, value);
            assert(assignment@ =~= a0);
        }
        None
    }

    /// Depth-first search from a partial assignment. The next domino is the
    /// one with the fewest candidates, and its candidates are tried from the
    /// least constraining on.
    ///
    /// Every call on an incomplete assignment takes one node from a limited
    /// `budget`, and fails at once when none is left; `None` is no limit.
    ///
    /// On success the board is left solved and the complete assignment is
    /// returned and also stands in `assignment`. On failure the board, the
    /// counters and `assignment` are as they were on entry, and where every
    /// cell has an owner and the budget has not run out the puzzle has no
    /// solution that keeps the decisions made so far within the given
    /// domains.
    ///
    /// The result and the budget left are those of `found`.
    pub fn backtrack(
        &mut self,
        domains: Domain,
        assignment: &mut Assignment,
        budget: &mut Option<usize>,
    ) -> (res: Option<Assignment>)
        requires
            old(self).wf(),
            old(self).agrees(old(assignment)@),
            old(self).board_valid(),
            domains@.len() == old(self).variables@.len(),
            small(grid(domains@)),
        ensures
            final(self).wf(),
            final(self).same_puzzle(old(self)),
            match res {
                Some(s) => {
                    &&& final(self).solved_by(s@)
                    &&& extends(old(assignment)@, s@)
                    &&& final(assignment)@ == s@
                },
                None => {
                    &&& final(self).store() == old(self).store()
                    &&& final(assignment)@ == old(assignment)@
                    &&& !complete(old(assignment)@)
                    &&& old(self).covered() && !spent(*final(budget))
                        ==> !old(self).has_solution_from(old(assignment)@, grid(domains@))
                },
            },
            left_of(*final(budget), *old(budget)),
            complete(old(assignment)@) ==> *final(budget) == *old(budget),
            !complete(old(assignment)@) ==> match *old(budget) {
                Some(b) => b == 0 ==> res is None,
                None => true,
            },
            !complete(old(assignment)@) && *old(budget) is Some && old(budget).unwrap() > 0
                ==> final(budget).unwrap() < old(budget).unwrap(),
            forall|c: CSP| #[trigger]
                old(self).alike(&c) ==> c.found(grid(domains@), old(assignment)@, *old(budget))
                    == (view_of(res), *final(budget)),
        decreases unresolved(old(assignment)@), 1nat,
    {
        if self.is_complete(assignment) {
            let found = CSP::copy_assignment(assignment);
            return Some(found);
        }
        if let Some(nodes) = *budget {
            if nodes == 0 {
                return None;
            }
            *budget = Some(nodes - 1);
        }
        let ghost entry = *budget;
        let ghost b0 = *old(budget);
        let ghost a0 = assignment@;
        let ghost doms = grid(domains@);
        proof {
            lemma_unresolved_complete(a0);
            assert(doms.len() == domains@.len());
        }
        let var_index = match self.select_unassigned_variable(&domains, assignment) {
            Some(i) => i,
            None => {
                return None;
            },
        };
        let values = self.order_domain_values(var_index, &domains, assignment);
        let ghost x = var_index as int;
        let ghost scores = self.scores(x, doms, a0);
        let ghost order = choose|order: Seq<int>|
            {
                &&& is_lcv_order(order, scores)
                &&& values@ == Seq::new(order.len(), |k: int| domains@[x]@[order[k]])
            };
        proof {
            assert(doms[x] == domains@[x]@);
            assert(values@ =~= Seq::new(order.len(), |k: int| doms[x][order[k]]));
            assert forall|c: CSP| #[trigger] old(self).alike(&c) implies c.found(doms, a0, b0)
                == c.found_among(doms, a0, x, values@, 0, entry) by {
                old(self).lemma_found_unfold(&c, doms, a0, b0, x, order, values@);
            }
        }
        let mut k: usize = 0;
        while k < values.len()
            invariant
                old(self).wf(),
                old(self).agrees(a0),
                old(self).board_valid(),
                a0 == old(assignment)@,
                self.wf(),
                self.same_puzzle(old(self)),
                self.store() == old(self).store(),
                assignment@ == a0,
                x == var_index,
                var_index < self.variables@.len(),
                a0[x] == Value::Unassigned,
                domains@.len() == self.variables@.len(),
                doms == grid(domains@),
                small(doms),
                k <= values@.len(),
                left_of(*budget, entry),
                match *old(budget) {
                    Some(b) => b > 0 && entry == Some((b - 1) as usize),
                    None => entry is None,
                },
                b0 == *old(budget),
                forall|c: CSP| #[trigger]
                    old(self).alike(&c) ==> c.found(doms, a0, b0) == c.found_among(
                        doms,
                        a0,
                        x,
                        values@,
                        0,
                        entry,
                    ) && c.found_among(doms, a0, x, values@, 0, entry) == c.found_among(
                        doms,
                        a0,
                        x,
                        values@,
                        k as int,
                        *budget,
                    ),
                old(self).covered() && !spent(*budget) ==> forall|j: int|
                    0 <= j < k ==> !old(self).has_solution_choosing(
                        a0,
                        doms,
                        x,
                        #[trigger] values@[j],
                    ),
            decreases values@.len() - k,
        {
            proof {
                self.lemma_same_store(old(self));
                self.lemma_same_marks(old(self), a0);
                self.lemma_same_layout_solutions(old(self), a0, doms);
            }
            let ghost cur = *self;
            let ghost before = *budget;
            let attempt = self.try_value(values[k], var_index, &domains, assignment, budget);
            proof {
                assert(cur.alike(old(self)));
                assert forall|c: CSP| #[trigger] old(self).alike(&c) implies c.found_among(
                    doms,
                    a0,
                    x,
                    values@,
                    k as int,
                    before,
                ) == (if attempt is Some {
                    (view_of(attempt), *budget)
                } else {
                    c.found_among(doms, a0, x, values@, k + 1, *budget)
                }) by {
                    cur.lemma_alike_chain(old(self), &c);
                    assert(cur.alike(&c));
                }
            }
            if let Some(result) = attempt {
                return Some(result);
            }
            k += 1;
        }
        proof {
            if old(self).covered() && !spent(*budget) {
                old(self).lemma_all_values_tried(a0, doms, x, order, scores, values@);
            }
        }
        None
    }

    /// Solves the puzzle from a blank board. Returns the orientation of
    /// every domino and leaves the solved board in place, or returns `None`
    /// with the board blank again when the search finds no solution. Where
    /// every cell has an owner, `None` means that the puzzle has no solution.
    ///
    /// The result is that of `found` on the full domains without a budget.
    pub fn solve(&mut self) -> (res: Option<Assignment>)
        requires
            old(self).wf(),
            old(self).is_blank(),
        ensures
            final(self).wf(),
            final(self).same_puzzle(old(self)),
            match res {
                Some(s) => final(self).solved_by(s@),
                None => final(self).store() == old(self).store(),
            },
            old(self).variables@.len() == 0 ==> res is Some && res.unwrap()@.len() == 0,
            res is Some ==> old(self).solvable(),
            old(self).covered() && old(self).solvable() ==> res is Some,
            view_of(res) == old(self).found(
                full_domains(old(self).variables@.len()),
                undecided(old(self).variables@.len()),
                None,
            ).0,
    {
        let mut budget: Option<usize> = None;
        self.solve_within(&mut budget)
    }

    /// Solves the puzzle from a blank board like `solve`, but visits no more
    /// search nodes than `budget` allows; `None` is no limit. Each node
    /// visited takes one from a limited budget, and the search fails at once
    /// where none is left. A failure with budget to spare is a failure of an
    /// exhaustive search.
    ///
    /// The result and the budget left are those of `found` on the full
    /// domains.
    pub fn solve_within(&mut self, budget: &mut Option<usize>) -> (res: Option<Assignment>)
        requires
            old(self).wf(),
            old(self).is_blank(),
        ensures
            final(self).wf(),
            final(self).same_puzzle(old(self)),
            left_of(*final(budget), *old(budget)),
            match res {
                Some(s) => final(self).solved_by(s@),
                None => final(self).store() == old(self).store(),
            },
            old(self).variables@.len() == 0 ==> res is Some && res.unwrap()@.len() == 0,
            old(self).variables@.len() > 0 && spent(*old(budget)) ==> res is None,
            res is Some ==> old(self).solvable(),
            old(self).covered() && old(self).solvable() && !spent(*final(budget)) ==> res is Some,
            (view_of(res), *final(budget)) == old(self).found(
                full_domains(old(self).variables@.len()),
                undecided(old(self).variables@.len()),
                *old(budget),
            ),
    {
        let count = self.variables.len();
        let mut initial_assignment: Assignment = Vec::new();
        let mut initial_domain: Domain = Vec::new();
        let mut i: usize = 0;
        while i < count
            invariant
                i <= count,
                initial_assignment@.len() == i,
                initial_domain@.len() == i,
                forall|k: int| 0 <= k < i ==> initial_assignment@[k] == Value::Unassigned,
                forall|k: int|
                    0 <= k < i ==> (#[trigger] initial_domain@[k])@ == seq![
                        Value::Pole1PositivePole2Negative,
                        Value::Pole2PositivePole1Negative,
                        Value::Empty,
                    ],
            decreases count - i,
        {
            initial_assignment.push(Value::Unassigned);
            let mut candidates: Vec<Value> = Vec::new();
            candidates.push(Value::Pole1PositivePole2Negative);
            candidates.push(Value::Pole2PositivePole1Negative);
            candidates.push(Value::Empty);
            assert(candidates@ =~= seq![
                Value::Pole1PositivePole2Negative,
                Value::Pole2PositivePole1Negative,
                Value::Empty,
            ]);
            initial_domain.push(candidates);
            i += 1;
        }
        let ghost a = initial_assignment@;
        let ghost doms = grid(initial_domain@);
        proof {
            assert forall|r: int, c: int| self.in_grid(r, c) implies #[trigger] self.pole_sign_ok(
                r,
                c,
            ) by {}
            assert forall|r: int| 0 <= r < self.row_size implies !#[trigger] self.row_touched(
                r,
            ) by {
                if self.row_touched(r) {
                    let c = choose|c: int|
                        0 <= c < self.col_size && #[trigger] self.mark(r, c)
                            != BoardCell::Unassigned;
                    assert(self.in_grid(r, c));
                }
            }
            assert forall|c: int| 0 <= c < self.col_size implies !#[trigger] self.col_touched(
                c,
            ) by {
                if self.col_touched(c) {
                    let r = choose|r: int|
                        0 <= r < self.row_size && #[trigger] self.mark(r, c)
                            != BoardCell::Unassigned;
                    assert(self.in_grid(r, c));
                }
            }
            assert forall|i: int| 0 <= i < doms.len() implies (#[trigger] doms[i]).len() <= 3 by {
                assert(doms[i] == initial_domain@[i]@);
            }
            if count == 0 {
                assert(complete(a));
            } else {
                assert(a[0] == Value::Unassigned);
            }
            if self.solvable() {
                let (b, s) = choose|b: CSP, s: Seq<Value>|
                    b.same_layout(self) && #[trigger] b.solved_by(s);
                assert forall|i: int| 0 <= i < s.len() implies (#[trigger] doms[i]).contains(
                    s[i],
                ) by {
                    assert(doms[i] == initial_domain@[i]@);
                    assert(s[i] != Value::Unassigned);
                    assert(doms[i][0] == Value::Pole1PositivePole2Negative);
                    assert(doms[i][1] == Value::Pole2PositivePole1Negative);
                    assert(doms[i][2] == Value::Empty);
                }
                assert(self.solves_from(&b, s, a, doms));
            }
        }
        let ghost before = *self;
        proof {
            assert(doms =~= full_domains(count as nat));
            assert(a =~= undecided(count as nat));
            assert(before.alike(&before));
        }
        let res = self.backtrack(initial_domain, &mut initial_assignment, budget);
        proof {
            if res is Some {
                assert(self.same_layout(&before));
            }
        }
        res
    }
}

} // verus!
