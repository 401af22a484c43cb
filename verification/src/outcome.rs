//! What the search returns: the search written as a function of the puzzle,
//! the domains, the assignment and the budget.

use crate::csp::{charge, BoardCell, Constraint, ConstraintArc, Point, Value, CSP};
use crate::revise::total_size;
use crate::search::{is_lcv_order, is_mrv, lists};
use crate::solution::{complete, lemma_unresolved_update, unresolved};
use vstd::prelude::*;

verus! {

/// The undecided domino that the search selects: the one with the fewest
/// candidates, the lowest index winning a tie.
pub open spec fn mrv_index(domains: Seq<Seq<Value>>, a: Seq<Value>) -> int {
    choose|i: int| is_mrv(domains, a, i)
}

/// Only one domino is selected.
pub proof fn lemma_mrv_unique(domains: Seq<Seq<Value>>, a: Seq<Value>, i: int)
    requires
        is_mrv(domains, a, i),
    ensures
        mrv_index(domains, a) == i,
{
    let j = mrv_index(domains, a);
    assert(is_mrv(domains, a, j));
    assert(domains[i].len() < domains[j].len() || (domains[i].len() == domains[j].len() && i <= j));
    assert(domains[j].len() < domains[i].len() || (domains[j].len() == domains[i].len() && j <= i));
}

/// The candidates `dom` in the order in which the search tries them: by
/// ascending score, candidates with equal scores in domain order.
pub open spec fn lcv_values(dom: Seq<Value>, scores: Seq<nat>) -> Seq<Value> {
    let order = choose|order: Seq<int>| is_lcv_order(order, scores);
    Seq::new(order.len(), |k: int| dom[order[k]])
}

/// Two orders by ascending score and position agree up to any place.
proof fn lemma_lcv_agree(first: Seq<int>, second: Seq<int>, scores: Seq<nat>, upto: int)
    requires
        is_lcv_order(first, scores),
        is_lcv_order(second, scores),
        0 <= upto <= scores.len(),
    ensures
        forall|k: int| 0 <= k < upto ==> first[k] == second[k],
    decreases upto,
{
    if upto > 0 {
        lemma_lcv_agree(first, second, scores, upto - 1);
        let k = upto - 1;
        let p = first[k];
        let q = second[k];
        assert(lists(second, p));
        let m = choose|m: int| 0 <= m < second.len() && #[trigger] second[m] == p;
        assert(lists(first, q));
        let n = choose|n: int| 0 <= n < first.len() && #[trigger] first[n] == q;
        if m < k {
            assert(first[m] == second[m]);
        }
        if n < k {
            assert(first[n] == second[n]);
        }
    }
}

/// There is only one order by ascending score and position.
pub proof fn lemma_lcv_unique(first: Seq<int>, second: Seq<int>, scores: Seq<nat>)
    requires
        is_lcv_order(first, scores),
        is_lcv_order(second, scores),
    ensures
        first == second,
{
    lemma_lcv_agree(first, second, scores, scores.len() as int);
    assert(first =~= second);
}

/// What a budget is after one node has been taken from it.
pub open spec fn one_less(budget: Option<usize>) -> Option<usize> {
    match budget {
        Some(n) => Some((n - 1) as usize),
        None => None,
    }
}

impl CSP {
    /// Whether `other` is a well-formed state of the same puzzle with the
    /// same marks on the board.
    pub open spec fn alike(&self, other: &CSP) -> bool {
        &&& self.wf()
        &&& other.wf()
        &&& self.same_puzzle(other)
        &&& forall|r: int, c: int|
            self.in_grid(r, c) ==> #[trigger] self.mark(r, c) == other.mark(r, c)
    }

    /// States that are alike have the same rows and columns of marks.
    pub proof fn lemma_alike_lines(&self, other: &CSP)
        requires
            self.alike(other),
        ensures
            forall|r: int|
                0 <= r < self.row_size ==> #[trigger] self.row_marks(r) == other.row_marks(r),
            forall|c: int|
                0 <= c < self.col_size ==> #[trigger] self.col_marks(c) == other.col_marks(c),
    {
        assert forall|r: int| 0 <= r < self.row_size implies #[trigger] self.row_marks(r)
            == other.row_marks(r) by {
            assert forall|c: int| 0 <= c < self.col_size implies self.row_marks(r)[c]
                == other.row_marks(r)[c] by {
                assert(self.mark(r, c) == other.mark(r, c));
            }
            assert(self.row_marks(r) =~= other.row_marks(r));
        }
        assert forall|c: int| 0 <= c < self.col_size implies #[trigger] self.col_marks(c)
            == other.col_marks(c) by {
            assert forall|r: int| 0 <= r < self.row_size implies self.col_marks(c)[r]
                == other.col_marks(c)[r] by {
                assert(self.mark(r, c) == other.mark(r, c));
            }
            assert(self.col_marks(c) =~= other.col_marks(c));
        }
    }

    /// States that are alike exclude the same values along an arc.
    pub proof fn lemma_alike_excluded(
        &self,
        other: &CSP,
        arc: ConstraintArc,
        v: Value,
        a: Seq<Value>,
    )
        requires
            self.alike(other),
            self.arc_wf(arc),
        ensures
            self.excluded_by(arc, v, a) == other.excluded_by(arc, v, a),
    {
        self.lemma_alike_lines(other);
        assert(self.domino_wf(arc.xi as int));
        assert(self.domino_wf(arc.xj as int));
        match arc.constraint {
            Constraint::SignBased(pi, pj) => {},
            Constraint::LimitBased(pi, pj) => {
                let p = self.pole(arc.xi as int, pi as int);
                let q = self.pole(arc.xj as int, pj as int);
                assert(self.row_marks(p.row as int) == other.row_marks(p.row as int));
                assert(self.col_marks(p.col as int) == other.col_marks(p.col as int));
                assert(self.mark(p.row as int, p.col as int) == other.mark(
                    p.row as int,
                    p.col as int,
                ));
                assert(self.mark(q.row as int, q.col as int) == other.mark(
                    q.row as int,
                    q.col as int,
                ));
                assert(self.row_settled(p.row as int, arc.xi as int, arc.xj as int, a)
                    == other.row_settled(p.row as int, arc.xi as int, arc.xj as int, a)) by {
                    assert forall|c: int|
                        self.cell_settled(p.row as int, c, arc.xi as int, arc.xj as int, a)
                            == other.cell_settled(
                            p.row as int,
                            c,
                            arc.xi as int,
                            arc.xj as int,
                            a,
                        ) by {}
                }
                assert(self.col_settled(p.col as int, arc.xi as int, arc.xj as int, a)
                    == other.col_settled(p.col as int, arc.xi as int, arc.xj as int, a)) by {
                    assert forall|r: int|
                        self.cell_settled(r, p.col as int, arc.xi as int, arc.xj as int, a)
                            == other.cell_settled(
                            r,
                            p.col as int,
                            arc.xi as int,
                            arc.xj as int,
                            a,
                        ) by {}
                }
            },
        }
    }

    /// States that are alike condemn the same candidates.
    pub proof fn lemma_alike_condemned(
        &self,
        other: &CSP,
        arc: ConstraintArc,
        dom: Seq<Value>,
        domains: Seq<Seq<Value>>,
        a: Seq<Value>,
    )
        requires
            self.alike(other),
            self.arc_wf(arc),
        ensures
            self.condemned(arc, dom, domains, a) == other.condemned(arc, dom, domains, a),
        decreases dom.len(),
    {
        if dom.len() > 0 {
            self.lemma_alike_condemned(other, arc, dom.drop_last(), domains, a);
            self.lemma_alike_excluded(other, arc, dom.last(), a);
        }
    }

    /// States that are alike revise alike.
    pub proof fn lemma_alike_revised(
        &self,
        other: &CSP,
        arc: ConstraintArc,
        domains: Seq<Seq<Value>>,
        a: Seq<Value>,
    )
        requires
            self.alike(other),
            self.arc_wf(arc),
        ensures
            self.revised(arc, domains, a) == other.revised(arc, domains, a),
    {
        if arc.xi < domains.len() {
            self.lemma_alike_condemned(other, arc, domains[arc.xi as int], domains, a);
        }
    }

    /// States that are alike check forward alike.
    pub proof fn lemma_alike_forward_checked(
        &self,
        other: &CSP,
        domains: Seq<Seq<Value>>,
        arcs: Seq<ConstraintArc>,
        a: Seq<Value>,
    )
        requires
            self.alike(other),
            forall|k: int| 0 <= k < arcs.len() ==> self.arc_wf(#[trigger] arcs[k]),
        ensures
            self.forward_checked(domains, arcs, a) == other.forward_checked(domains, arcs, a),
        decreases arcs.len(),
    {
        if arcs.len() > 0 {
            self.lemma_alike_revised(other, arcs.first(), domains, a);
            let r = self.revised(arcs.first(), domains, a);
            if r.0 {
                assert forall|k: int| 0 <= k < arcs.drop_first().len() implies self.arc_wf(
                    #[trigger] arcs.drop_first()[k],
                ) by {
                    assert(arcs.drop_first()[k] == arcs[k + 1]);
                }
                self.lemma_alike_forward_checked(other, r.2, arcs.drop_first(), a);
            }
        }
    }

    /// States of one puzzle make the same arcs toward a pole.
    pub proof fn lemma_alike_arcs_toward(
        &self,
        other: &CSP,
        cells: Seq<Point>,
        var: int,
        pole: int,
        quota: bool,
        a: Seq<Value>,
        except: int,
    )
        requires
            self.same_puzzle(other),
        ensures
            self.arcs_toward(cells, var, pole, quota, a, except) == other.arcs_toward(
                cells,
                var,
                pole,
                quota,
                a,
                except,
            ),
        decreases cells.len(),
    {
        if cells.len() > 0 {
            self.lemma_alike_arcs_toward(other, cells.drop_last(), var, pole, quota, a, except);
        }
    }

    /// States of one puzzle make the same arcs toward a domino.
    pub proof fn lemma_alike_arcs_of(&self, other: &CSP, var: int, a: Seq<Value>, except: int)
        requires
            self.same_puzzle(other),
        ensures
            self.arcs_of(var, a, except) == other.arcs_of(var, a, except),
    {
        let h = self.pole(var, 0);
        let t = self.pole(var, 1);
        self.lemma_alike_arcs_toward(other, self.neighboring_cells(h, t), var, 0, false, a, except);
        self.lemma_alike_arcs_toward(other, self.limiting_cells(h, t), var, 0, true, a, except);
        self.lemma_alike_arcs_toward(other, self.neighboring_cells(t, h), var, 1, false, a, except);
        self.lemma_alike_arcs_toward(other, self.limiting_cells(t, h), var, 1, true, a, except);
    }

    /// States that are alike reach the same arc consistency.
    pub proof fn lemma_alike_arc_consistent(
        &self,
        other: &CSP,
        domains: Seq<Seq<Value>>,
        queue: Seq<ConstraintArc>,
        a: Seq<Value>,
    )
        requires
            self.alike(other),
            forall|k: int| 0 <= k < queue.len() ==> self.arc_wf(#[trigger] queue[k]),
        ensures
            self.arc_consistent(domains, queue, a) == other.arc_consistent(domains, queue, a),
        decreases total_size(domains), queue.len(),
    {
        if queue.len() > 0 {
            let arc = queue.first();
            self.lemma_alike_revised(other, arc, domains, a);
            self.lemma_revised(arc, domains, a);
            let r = self.revised(arc, domains, a);
            let rest = queue.drop_first();
            assert forall|k: int| 0 <= k < rest.len() implies self.arc_wf(#[trigger] rest[k]) by {
                assert(rest[k] == queue[k + 1]);
            }
            if r.0 {
                if r.1 {
                    let fresh = self.arcs_of(arc.xi as int, a, arc.xj as int);
                    self.lemma_alike_arcs_of(other, arc.xi as int, a, arc.xj as int);
                    self.lemma_arcs_of(arc.xi as int, a, arc.xj as int);
                    let next = rest + fresh;
                    assert forall|k: int| 0 <= k < next.len() implies self.arc_wf(
                        #[trigger] next[k],
                    ) by {
                        if k < rest.len() {
                            assert(next[k] == rest[k]);
                        } else {
                            assert(next[k] == fresh[k - rest.len()]);
                        }
                    }
                    self.lemma_alike_arc_consistent(other, r.2, next, a);
                } else {
                    self.lemma_alike_arc_consistent(other, domains, rest, a);
                }
            }
        }
    }

    /// States that are alike infer alike.
    pub proof fn lemma_alike_inferred(
        &self,
        other: &CSP,
        var: int,
        domains: Seq<Seq<Value>>,
        a: Seq<Value>,
    )
        requires
            self.alike(other),
            0 <= var < self.variables@.len(),
        ensures
            self.inferred(var, domains, a) == other.inferred(var, domains, a),
    {
        let arcs = self.arcs_of(var, a, var);
        self.lemma_alike_arcs_of(other, var, a, var);
        self.lemma_arcs_of(var, a, var);
        self.lemma_alike_forward_checked(other, domains, arcs, a);
        self.lemma_alike_arc_consistent(other, domains, arcs, a);
    }

    /// States that are alike are consistent together.
    pub proof fn lemma_alike_consistent(&self, other: &CSP, x: int)
        requires
            self.alike(other),
            0 <= x < self.variables@.len(),
        ensures
            self.consistent_at(x) == other.consistent_at(x),
    {
        self.lemma_alike_lines(other);
        assert(self.domino_wf(x));
        let h = self.pole(x, 0);
        let t = self.pole(x, 1);
        self.lemma_alike_sign_ok(other, h.row as int, h.col as int);
        self.lemma_alike_sign_ok(other, t.row as int, t.col as int);
        assert(self.row_marks(h.row as int) == other.row_marks(h.row as int));
        assert(self.row_marks(t.row as int) == other.row_marks(t.row as int));
        assert(self.col_marks(h.col as int) == other.col_marks(h.col as int));
        assert(self.col_marks(t.col as int) == other.col_marks(t.col as int));
    }

    /// States that are alike obey the charge rule at the same cells.
    proof fn lemma_alike_sign_ok(&self, other: &CSP, r: int, c: int)
        requires
            self.alike(other),
            self.in_grid(r, c),
        ensures
            self.pole_sign_ok(r, c) == other.pole_sign_ok(r, c),
    {
        let m = self.mark(r, c);
        assert(other.mark(r, c) == m);
        assert(self.holds_mark(r + 1, c, m) == other.holds_mark(r + 1, c, m));
        assert(self.holds_mark(r - 1, c, m) == other.holds_mark(r - 1, c, m));
        assert(self.holds_mark(r, c + 1, m) == other.holds_mark(r, c + 1, m));
        assert(self.holds_mark(r, c - 1, m) == other.holds_mark(r, c - 1, m));
    }

    /// States that are alike count the same eliminations.
    pub proof fn lemma_alike_eliminated(
        &self,
        other: &CSP,
        arc: ConstraintArc,
        dom: Seq<Value>,
        value: Value,
        a: Seq<Value>,
    )
        requires
            self.alike(other),
            self.arc_wf(arc),
        ensures
            self.eliminated(arc, dom, value, a) == other.eliminated(arc, dom, value, a),
        decreases dom.len(),
    {
        if dom.len() > 0 {
            self.lemma_alike_eliminated(other, arc, dom.drop_last(), value, a);
            self.lemma_alike_excluded(other, arc, dom.last(), a);
        }
    }

    /// States that are alike give the same score along arcs.
    pub proof fn lemma_alike_arcs_score(
        &self,
        other: &CSP,
        arcs: Seq<ConstraintArc>,
        value: Value,
        domains: Seq<Seq<Value>>,
        a: Seq<Value>,
    )
        requires
            self.alike(other),
            forall|k: int| 0 <= k < arcs.len() ==> self.arc_wf(#[trigger] arcs[k]),
        ensures
            self.arcs_score(arcs, value, domains, a) == other.arcs_score(arcs, value, domains, a),
        decreases arcs.len(),
    {
        if arcs.len() > 0 {
            assert forall|k: int| 0 <= k < arcs.drop_last().len() implies self.arc_wf(
                #[trigger] arcs.drop_last()[k],
            ) by {
                assert(arcs.drop_last()[k] == arcs[k]);
            }
            self.lemma_alike_arcs_score(other, arcs.drop_last(), value, domains, a);
            let arc = arcs.last();
            self.lemma_alike_eliminated(other, arc, domains[arc.xi as int], value, a);
        }
    }

    /// States that are alike score the candidates of a domino alike.
    pub proof fn lemma_alike_scores(
        &self,
        other: &CSP,
        var: int,
        domains: Seq<Seq<Value>>,
        a: Seq<Value>,
    )
        requires
            self.alike(other),
            0 <= var < self.variables@.len(),
        ensures
            self.scores(var, domains, a) == other.scores(var, domains, a),
    {
        let arcs = self.arcs_of(var, a, var);
        self.lemma_alike_arcs_of(other, var, a, var);
        self.lemma_arcs_of(var, a, var);
        assert forall|k: int| 0 <= k < domains[var].len() implies self.constraint_score(
            domains[var][k],
            var,
            domains,
            a,
        ) == other.constraint_score(domains[var][k], var, domains, a) by {
            self.lemma_alike_arcs_score(other, arcs, domains[var][k], domains, a);
        }
        assert(self.scores(var, domains, a) =~= other.scores(var, domains, a));
    }

    /// Whether domino `x` can be given the value `v`: `v` is an orientation
    /// and both cells are unmarked.
    pub open spec fn free_for(&self, x: int, v: Value) -> bool {
        &&& v != Value::Unassigned
        &&& self.pole_mark(x, 0) == BoardCell::Unassigned
        &&& self.pole_mark(x, 1) == BoardCell::Unassigned
    }

    /// Whether `next` is this state after domino `x` has been given `v`.
    pub open spec fn gives(&self, next: &CSP, x: int, v: Value) -> bool {
        &&& next.wf()
        &&& next.same_puzzle(self)
        &&& next.marks_changed_at(self, self.pole(x, 0), charge(v, 0), self.pole(x, 1), charge(v, 1))
    }

    /// A state after domino `x` has been given `v`.
    pub open spec fn with_value(&self, x: int, v: Value) -> CSP {
        choose|next: CSP| self.gives(&next, x, v)
    }

    /// What the search from the assignment `a` returns, and what it leaves of
    /// the budget. A complete assignment is returned as it is. Otherwise a
    /// spent budget ends the search; else one node is taken from the budget,
    /// the domino with the fewest candidates is selected, and its candidates
    /// are tried from the least constraining on.
    pub open spec fn found(
        &self,
        domains: Seq<Seq<Value>>,
        a: Seq<Value>,
        budget: Option<usize>,
    ) -> (Option<Seq<Value>>, Option<usize>)
        decreases unresolved(a), 2nat, 0nat,
    {
        if complete(a) {
            (Some(a), budget)
        } else if budget == Some(0usize) {
            (None, budget)
        } else {
            let x = mrv_index(domains, a);
            let values = lcv_values(domains[x], self.scores(x, domains, a));
            self.found_among(domains, a, x, values, 0, one_less(budget))
        }
    }

    /// What trying the candidates `values` of domino `x` from position `k`
    /// on returns: the result of the first that leads to a solution, with
    /// the budget passed on from each attempt to the next.
    pub open spec fn found_among(
        &self,
        domains: Seq<Seq<Value>>,
        a: Seq<Value>,
        x: int,
        values: Seq<Value>,
        k: int,
        budget: Option<usize>,
    ) -> (Option<Seq<Value>>, Option<usize>)
        decreases unresolved(a), 1nat, values.len() - k,
    {
        if k < 0 || k >= values.len() {
            (None, budget)
        } else {
            let r = self.found_with(domains, a, x, values[k], budget);
            if r.0 is Some {
                r
            } else {
                self.found_among(domains, a, x, values, k + 1, r.1)
            }
        }
    }

    /// What trying the value `v` for domino `x` returns. The attempt fails
    /// where the value cannot be assigned, where the board with it is not
    /// consistent, and where inference is infeasible; else it is what the
    /// search from the extended assignment and the inferred domains returns.
    pub open spec fn found_with(
        &self,
        domains: Seq<Seq<Value>>,
        a: Seq<Value>,
        x: int,
        v: Value,
        budget: Option<usize>,
    ) -> (Option<Seq<Value>>, Option<usize>)
        decreases unresolved(a), 0nat, 0nat,
    {
        if !(0 <= x < a.len() && a[x] == Value::Unassigned && self.free_for(x, v)) {
            (None, budget)
        } else {
            let next = self.with_value(x, v);
            let a1 = a.update(x, v);
            let inferred = next.inferred(x, domains, a1);
            if !next.consistent_at(x) || !inferred.0 {
                (None, budget)
            } else {
                proof {
                    lemma_unresolved_update(a, x, v);
                }
                next.found(inferred.1, a1, budget)
            }
        }
    }

    /// Being alike is symmetric and transitive.
    pub proof fn lemma_alike_chain(&self, second: &CSP, third: &CSP)
        requires
            self.alike(second),
            second.alike(third),
        ensures
            second.alike(self),
            self.alike(third),
    {
        assert forall|r: int, c: int| self.in_grid(r, c) implies #[trigger] self.mark(r, c)
            == third.mark(r, c) by {
            assert(second.mark(r, c) == third.mark(r, c));
        }
        assert forall|r: int, c: int| second.in_grid(r, c) implies #[trigger] second.mark(r, c)
            == self.mark(r, c) by {
            assert(self.mark(r, c) == second.mark(r, c));
        }
    }

    /// Where one state of two that are alike has been given a value, the
    /// result is like every state that gives the other the same value.
    pub proof fn lemma_with_value(&self, other: &CSP, next: &CSP, x: int, v: Value)
        requires
            self.alike(other),
            self.gives(next, x, v),
            0 <= x < self.variables@.len(),
        ensures
            other.gives(next, x, v),
            other.gives(&other.with_value(x, v), x, v),
            next.alike(&other.with_value(x, v)),
    {
        assert(self.domino_wf(x));
        assert forall|r: int, c: int| next.in_grid(r, c) implies #[trigger] next.mark(r, c) == (
        if r == other.pole(x, 1).row && c == other.pole(x, 1).col {
            charge(v, 1)
        } else if r == other.pole(x, 0).row && c == other.pole(x, 0).col {
            charge(v, 0)
        } else {
            other.mark(r, c)
        }) by {
            assert(self.mark(r, c) == other.mark(r, c));
        }
        assert(other.gives(next, x, v));
        let chosen = other.with_value(x, v);
        assert(other.gives(&chosen, x, v));
        assert forall|r: int, c: int| next.in_grid(r, c) implies #[trigger] next.mark(r, c)
            == chosen.mark(r, c) by {}
    }

    /// What an attempt returns that the consistency checker or inference
    /// ends.
    pub proof fn lemma_found_with_refused(
        &self,
        other: &CSP,
        next: &CSP,
        domains: Seq<Seq<Value>>,
        a: Seq<Value>,
        x: int,
        v: Value,
        budget: Option<usize>,
    )
        requires
            self.alike(other),
            self.gives(next, x, v),
            0 <= x < a.len(),
            a.len() == self.variables@.len(),
            a[x] == Value::Unassigned,
            self.free_for(x, v),
            !next.consistent_at(x) || !next.inferred(x, domains, a.update(x, v)).0,
        ensures
            other.found_with(domains, a, x, v, budget) == (None::<Seq<Value>>, budget),
    {
        self.lemma_with_value(other, next, x, v);
        let chosen = other.with_value(x, v);
        next.lemma_alike_consistent(&chosen, x);
        next.lemma_alike_inferred(&chosen, x, domains, a.update(x, v));
        assert(self.domino_wf(x));
        assert(other.free_for(x, v));
    }

    /// What an attempt returns that searches on.
    pub proof fn lemma_found_with_searched(
        &self,
        other: &CSP,
        next: &CSP,
        domains: Seq<Seq<Value>>,
        a: Seq<Value>,
        x: int,
        v: Value,
        budget: Option<usize>,
        out: (Option<Seq<Value>>, Option<usize>),
    )
        requires
            self.alike(other),
            self.gives(next, x, v),
            0 <= x < a.len(),
            a.len() == self.variables@.len(),
            a[x] == Value::Unassigned,
            self.free_for(x, v),
            next.consistent_at(x),
            next.inferred(x, domains, a.update(x, v)).0,
            forall|c: CSP| #[trigger]
                next.alike(&c) ==> c.found(
                    next.inferred(x, domains, a.update(x, v)).1,
                    a.update(x, v),
                    budget,
                ) == out,
        ensures
            other.found_with(domains, a, x, v, budget) == out,
    {
        self.lemma_with_value(other, next, x, v);
        let chosen = other.with_value(x, v);
        next.lemma_alike_consistent(&chosen, x);
        next.lemma_alike_inferred(&chosen, x, domains, a.update(x, v));
        assert(self.domino_wf(x));
        assert(other.free_for(x, v));
        assert(next.alike(&chosen));
    }

    /// What an attempt returns whose value cannot be assigned.
    pub proof fn lemma_found_with_unassignable(
        &self,
        other: &CSP,
        domains: Seq<Seq<Value>>,
        a: Seq<Value>,
        x: int,
        v: Value,
        budget: Option<usize>,
    )
        requires
            self.alike(other),
            0 <= x < self.variables@.len(),
            !self.free_for(x, v),
        ensures
            other.found_with(domains, a, x, v, budget) == (None::<Seq<Value>>, budget),
    {
        assert(self.domino_wf(x));
    }

    /// What the search returns from an incomplete assignment with budget
    /// left: what trying the ordered candidates of the selected domino
    /// returns.
    pub proof fn lemma_found_unfold(
        &self,
        other: &CSP,
        domains: Seq<Seq<Value>>,
        a: Seq<Value>,
        budget: Option<usize>,
        x: int,
        order: Seq<int>,
        values: Seq<Value>,
    )
        requires
            self.alike(other),
            !complete(a),
            budget != Some(0usize),
            is_mrv(domains, a, x),
            0 <= x < self.variables@.len(),
            is_lcv_order(order, self.scores(x, domains, a)),
            values == Seq::new(order.len(), |k: int| domains[x][order[k]]),
        ensures
            other.found(domains, a, budget) == other.found_among(
                domains,
                a,
                x,
                values,
                0,
                one_less(budget),
            ),
    {
        lemma_mrv_unique(domains, a, x);
        self.lemma_alike_scores(other, x, domains, a);
        let scores = other.scores(x, domains, a);
        let chosen = choose|o: Seq<int>| is_lcv_order(o, scores);
        lemma_lcv_unique(order, chosen, scores);
    }
}

} // verus!
