//! Maintaining arc consistency: the queue is drained to a fixpoint, and every
//! revision that shrinks a domain brings the arcs toward that domino back.

use crate::csp::{grid, Assignment, ConstraintArc, Domain, Value, CSP};
use crate::revise::total_size;
use std::collections::VecDeque;
use vstd::prelude::*;

verus! {

impl CSP {
    /// The outcome of maintaining arc consistency. The first arc of the queue
    /// is revised; an infeasible revision ends the run with no domains; one
    /// that shrank the domain of its dependent domino appends the arcs toward
    /// that domino, except those from the source of the arc; then the rest of
    /// the queue is treated in the same way.
    pub open spec fn arc_consistent(
        &self,
        domains: Seq<Seq<Value>>,
        queue: Seq<ConstraintArc>,
        a: Seq<Value>,
    ) -> (bool, Seq<Seq<Value>>)
        decreases total_size(domains), queue.len(),
    {
        if queue.len() == 0 {
            (true, domains)
        } else {
            let arc = queue.first();
            let r = self.revised(arc, domains, a);
            if !r.0 {
                (false, Seq::empty())
            } else if r.1 {
                proof {
                    self.lemma_revised(arc, domains, a);
                }
                self.arc_consistent(
                    r.2,
                    queue.drop_first() + self.arcs_of(arc.xi as int, a, arc.xj as int),
                    a,
                )
            } else {
                self.arc_consistent(domains, queue.drop_first(), a)
            }
        }
    }

    /// Drains `arc_queue` to a fixpoint: whenever a revision shrinks a
    /// domain, the arcs toward that domino from its undecided neighbours,
    /// except the source of the revised arc, are appended. Returns whether
    /// every revision was feasible, with the narrowed domains; an infeasible
    /// result carries no domains.
    pub fn maintaining_arc_consistency(
        &self,
        domains: &Domain,
        assignment: &Assignment,
        arc_queue: VecDeque<ConstraintArc>,
    ) -> (res: (bool, Domain))
        requires
            self.wf(),
            domains@.len() == self.variables@.len(),
            assignment@.len() == self.variables@.len(),
            forall|k: int| 0 <= k < arc_queue@.len() ==> self.arc_wf(#[trigger] arc_queue@[k]),
        ensures
            (res.0, grid(res.1@)) == self.arc_consistent(grid(domains@), arc_queue@, assignment@),
    {
        let mut queue = arc_queue;
        let mut inferred_domains = CSP::clone_domains(domains);
        assert(inferred_domains@.len() == grid(inferred_domains@).len());
        assert(domains@.len() == grid(domains@).len());
        while queue.len() > 0
            invariant
                self.wf(),
                inferred_domains@.len() == self.variables@.len(),
                assignment@.len() == self.variables@.len(),
                forall|k: int| 0 <= k < queue@.len() ==> self.arc_wf(#[trigger] queue@[k]),
                self.arc_consistent(grid(inferred_domains@), queue@, assignment@)
                    == self.arc_consistent(grid(domains@), arc_queue@, assignment@),
            decreases total_size(grid(inferred_domains@)), queue@.len(),
        {
            let ghost before = queue@;
            let ghost doms = grid(inferred_domains@);
            if let Some(constraint_arc) = queue.pop_front() {
                assert(queue@ == before.drop_first());
                assert(constraint_arc == before.first());
                let (feasible, revised) = self.revise(
                    &constraint_arc,
                    &mut inferred_domains,
                    assignment,
                );
                proof {
                    self.lemma_revised(constraint_arc, doms, assignment@);
                    assert(grid(inferred_domains@).len() == inferred_domains@.len());
                }
                if !feasible {
                    let none: Domain = Vec::new();
                    assert(grid(none@) == Seq::<Seq<Value>>::empty());
                    return (false, none);
                }
                if revised {
                    proof {
                        self.lemma_arcs_of(
                            constraint_arc.xi as int,
                            assignment@,
                            constraint_arc.xj as int,
                        );
                    }
                    self.generate_arc_constraints(
                        constraint_arc.xi,
                        assignment,
                        &mut queue,
                        constraint_arc.xj,
                    );
                }
            }
        }
        (true, inferred_domains)
    }

    /// Maintaining arc consistency only narrows: a feasible outcome has a
    /// domain for every domino, none longer than before and none with a new
    /// candidate.
    pub proof fn lemma_arc_consistent_narrows(
        &self,
        domains: Seq<Seq<Value>>,
        queue: Seq<ConstraintArc>,
        a: Seq<Value>,
    )
        ensures
            ({
                let r = self.arc_consistent(domains, queue, a);
                r.0 ==> {
                    &&& r.1.len() == domains.len()
                    &&& forall|i: int|
                        0 <= i < domains.len() ==> (#[trigger] r.1[i]).len() <= domains[i].len()
                    &&& forall|i: int, x: Value|
                        0 <= i < domains.len() && (#[trigger] r.1[i]).contains(x)
                            ==> #[trigger] domains[i].contains(x)
                }
            }),
        decreases total_size(domains), queue.len(),
    {
        if queue.len() > 0 {
            let arc = queue.first();
            let r = self.revised(arc, domains, a);
            self.lemma_revised(arc, domains, a);
            if r.0 {
                if r.1 {
                    let next = queue.drop_first() + self.arcs_of(arc.xi as int, a, arc.xj as int);
                    self.lemma_arc_consistent_narrows(r.2, next, a);
                    let out = self.arc_consistent(r.2, next, a);
                    if out.0 {
                        assert forall|i: int, x: Value|
                            0 <= i < domains.len() && (#[trigger] out.1[i]).contains(
                                x,
                            ) implies #[trigger] domains[i].contains(x) by {
                            assert(r.2[i].contains(x));
                        }
                        assert forall|i: int| 0 <= i < domains.len() implies (
                        #[trigger] out.1[i]).len() <= domains[i].len() by {
                            assert(r.2[i].len() <= domains[i].len());
                        }
                    }
                } else {
                    self.lemma_arc_consistent_narrows(domains, queue.drop_first(), a);
                }
            }
        }
    }
}

} // verus!
