//! Forward checking: every arc of the queue is revised once, in order.

use crate::csp::{grid, Assignment, ConstraintArc, Domain, Value, CSP};
use std::collections::VecDeque;
use vstd::prelude::*;

verus! {

impl CSP {
    /// The outcome of forward checking: the domains after revising along each
    /// arc in turn, or infeasible with no domains as soon as one revision is.
    pub open spec fn forward_checked(
        &self,
        domains: Seq<Seq<Value>>,
        arcs: Seq<ConstraintArc>,
        a: Seq<Value>,
    ) -> (bool, Seq<Seq<Value>>)
        decreases arcs.len(),
    {
        if arcs.len() == 0 {
            (true, domains)
        } else {
            let r = self.revised(arcs.first(), domains, a);
            if !r.0 {
                (false, Seq::empty())
            } else {
                self.forward_checked(r.2, arcs.drop_first(), a)
            }
        }
    }

    /// Drains `arc_queue` once, revising along each arc, and never adds an
    /// arc. Returns whether every revision was feasible, with the narrowed
    /// domains; an infeasible result carries no domains.
    pub fn forward_checking(
        &self,
        domains: &Domain,
        assignment: &Assignment,
        arc_queue: VecDeque<ConstraintArc>,
    ) -> (res: (bool, Domain))
        requires
            self.wf(),
            domains@.len() == self.variables@.len(),
            assignment@.len() == self.variables@.len(),
            forall|k: int| 0 <= k < arc_queue@.len() ==> self.arc_wf(#[trigger] arc_queue@[k]),
        ensures
            (res.0, grid(res.1@)) == self.forward_checked(
                grid(domains@),
                arc_queue@,
                assignment@,
            ),
    {
        let mut queue = arc_queue;
        let mut inferred_domains = CSP::clone_domains(domains);
        assert(inferred_domains@.len() == grid(inferred_domains@).len());
        assert(domains@.len() == grid(domains@).len());
        while queue.len() > 0
            invariant
                self.wf(),
                inferred_domains@.len() == self.variables@.len(),
                assignment@.len() == self.variables@.len(),
                forall|k: int| 0 <= k < queue@.len() ==> self.arc_wf(#[trigger] queue@[k]),
                self.forward_checked(grid(inferred_domains@), queue@, assignment@)
                    == self.forward_checked(grid(domains@), arc_queue@, assignment@),
            decreases queue@.len(),
        {
            let ghost before = queue@;
            let ghost doms = grid(inferred_domains@);
            if let Some(constraint_arc) = queue.pop_front() {
                assert(queue@ == before.drop_first());
                assert(constraint_arc == before.first());
                let (feasible, _) = self.revise(&constraint_arc, &mut inferred_domains, assignment);
                proof {
                    self.lemma_revised(constraint_arc, doms, assignment@);
                    assert(grid(inferred_domains@).len() == inferred_domains@.len());
                }
                if !feasible {
                    let none: Domain = Vec::new();
                    assert(grid(none@) == Seq::<Seq<Value>>::empty());
                    return (false, none);
                }
            }
        }
        (true, inferred_domains)
    }

    /// Forward checking only narrows: a feasible outcome has a domain for
    /// every domino, none longer than before and none with a new candidate.
    pub proof fn lemma_forward_checked_narrows(
        &self,
        domains: Seq<Seq<Value>>,
        arcs: Seq<ConstraintArc>,
        a: Seq<Value>,
    )
        ensures
            ({
                let r = self.forward_checked(domains, arcs, a);
                r.0 ==> {
                    &&& r.1.len() == domains.len()
                    &&& forall|i: int|
                        0 <= i < domains.len() ==> (#[trigger] r.1[i]).len() <= domains[i].len()
                    &&& forall|i: int, x: Value|
                        0 <= i < domains.len() && (#[trigger] r.1[i]).contains(x)
                            ==> #[trigger] domains[i].contains(x)
                }
            }),
        decreases arcs.len(),
    {
        if arcs.len() > 0 {
            let r = self.revised(arcs.first(), domains, a);
            self.lemma_revised(arcs.first(), domains, a);
            if r.0 {
                self.lemma_forward_checked_narrows(r.2, arcs.drop_first(), a);
                let out = self.forward_checked(r.2, arcs.drop_first(), a);
                if out.0 {
                    assert forall|i: int, x: Value|
                        0 <= i < domains.len() && (#[trigger] out.1[i]).contains(
                            x,
                        ) implies #[trigger] domains[i].contains(x) by {
                        assert(r.2[i].contains(x));
                    }
                    assert forall|i: int| 0 <= i < domains.len() implies (#[trigger] out.1[i]).len()
                        <= domains[i].len() by {
                        assert(r.2[i].len() <= domains[i].len());
                    }
                }
            }
        }
    }
}

} // verus!
