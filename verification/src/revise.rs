//! The revision primitive shared by both propagators: which value of a source
//! domino a candidate value of a dependent domino rules out, and the pruning of
//! one candidate domain along one constraint arc.

use crate::csp::{
    charge, grid, orientation_with, Assignment, BoardCell, Constraint, ConstraintArc, Domain,
    PoleNumber, Point, Value, VariableIndex, CSP,
};
use vstd::prelude::*;

verus! {

/// The orientation of the source domino that puts on its pole `pj` the same
/// magnetic charge that orientation `v` puts on pole `pi` of the dependent
/// domino. A vacant or undecided `v` rules nothing out.
pub open spec fn pole_conflict(v: Value, pi: int, pj: int) -> Option<Value> {
    if (v == Value::Pole1PositivePole2Negative || v == Value::Pole2PositivePole1Negative) && (pi
        == 0 || pi == 1) && (pj == 0 || pj == 1) {
        Some(orientation_with(pj, charge(v, pi)))
    } else {
        None
    }
}

/// What a quota rules out along one row or column.
///
/// `pos_missing` and `neg_missing` are how far the line is from its positive
/// and negative quota when the two poles of the arc are not counted, and
/// `settled` says that no third domino of the line is still undecided. The
/// cases are tried in this order and the first that applies decides:
/// one positive missing, one negative missing, two positive missing, two
/// negative missing. With one missing, a like charge on the source pole is
/// ruled out; with two missing on a settled line, a vacant source is.
pub open spec fn line_conflict(
    pos_missing: int,
    neg_missing: int,
    settled: bool,
    v: Value,
    pi: int,
    pj: int,
) -> Option<Value> {
    if pos_missing == 1 {
        if charge(v, pi) == BoardCell::Positive {
            Some(orientation_with(pj, BoardCell::Positive))
        } else {
            None
        }
    } else if neg_missing == 1 {
        if charge(v, pi) == BoardCell::Negative {
            Some(orientation_with(pj, BoardCell::Negative))
        } else {
            None
        }
    } else if pos_missing == 2 {
        if settled && charge(v, pi) == BoardCell::Positive {
            Some(Value::Empty)
        } else {
            None
        }
    } else if neg_missing == 2 {
        if settled && charge(v, pi) == BoardCell::Negative {
            Some(Value::Empty)
        } else {
            None
        }
    } else {
        None
    }
}

/// The domain `s` after one removal of `v`: the first occurrence of `v` is
/// overwritten by the last element and the sequence shortened by one. Without
/// an occurrence, `s` itself.
pub open spec fn discard(s: Seq<Value>, v: Value) -> Seq<Value> {
    match s.index_of_first(v) {
        Some(k) => s.update(k, s.last()).drop_last(),
        None => s,
    }
}

/// The domain `s` after the removal of each value of `doomed` in turn.
pub open spec fn discard_all(s: Seq<Value>, doomed: Seq<Value>) -> Seq<Value>
    decreases doomed.len(),
{
    if doomed.len() == 0 {
        s
    } else {
        discard_all(discard(s, doomed.first()), doomed.drop_first())
    }
}

/// The sum of the lengths of all domains.
pub open spec fn total_size(domains: Seq<Seq<Value>>) -> nat
    decreases domains.len(),
{
    if domains.len() == 0 {
        0
    } else {
        total_size(domains.drop_last()) + domains.last().len()
    }
}

/// What one removal does to a domain: it loses one element exactly when the
/// value occurs, gains nothing, and keeps every other value.
pub proof fn lemma_discard(s: Seq<Value>, v: Value)
    ensures
        s.contains(v) ==> discard(s, v).len() == s.len() - 1,
        !s.contains(v) ==> discard(s, v) == s,
        forall|x: Value| discard(s, v).contains(x) ==> s.contains(x),
        forall|x: Value| x != v && s.contains(x) ==> discard(s, v).contains(x),
{
    s.index_of_first_ensures(v);
    let r = discard(s, v);
    match s.index_of_first(v) {
        Some(k) => {
            assert forall|x: Value| r.contains(x) implies s.contains(x) by {
                let i = choose|i: int| 0 <= i < r.len() && r[i] == x;
                if i == k {
                    assert(s[s.len() - 1] == x);
                } else {
                    assert(s[i] == x);
                }
            }
            assert forall|x: Value| x != v && s.contains(x) implies r.contains(x) by {
                let i = choose|i: int| 0 <= i < s.len() && s[i] == x;
                if i == s.len() - 1 {
                    assert(r[k] == x);
                } else {
                    assert(r[i] == x);
                }
            }
        },
        None => {},
    }
}

/// What a series of removals does to a domain: it never grows, it shrinks
/// when the first doomed value occurs, it gains nothing, and it keeps every
/// value that is not doomed.
pub proof fn lemma_discard_all(s: Seq<Value>, doomed: Seq<Value>)
    ensures
        discard_all(s, doomed).len() <= s.len(),
        doomed.len() > 0 && s.contains(doomed[0]) ==> discard_all(s, doomed).len() < s.len(),
        forall|x: Value| discard_all(s, doomed).contains(x) ==> s.contains(x),
        forall|x: Value|
            s.contains(x) && !doomed.contains(x) ==> discard_all(s, doomed).contains(x),
    decreases doomed.len(),
{
    if doomed.len() > 0 {
        let v = doomed.first();
        let s1 = discard(s, v);
        lemma_discard(s, v);
        lemma_discard_all(s1, doomed.drop_first());
        assert forall|x: Value| s.contains(x) && !doomed.contains(x) implies discard_all(
            s,
            doomed,
        ).contains(x) by {
            assert(doomed[0] == v);
            assert(x != v);
            if doomed.drop_first().contains(x) {
                let i = choose|i: int|
                    0 <= i < doomed.drop_first().len() && doomed.drop_first()[i] == x;
                assert(doomed[i + 1] == x);
            }
        }
    }
}

/// Replacing one domain changes the total size by the difference in length.
pub proof fn lemma_total_size_update(domains: Seq<Seq<Value>>, i: int, d: Seq<Value>)
    requires
        0 <= i < domains.len(),
    ensures
        total_size(domains.update(i, d)) == total_size(domains) - domains[i].len() + d.len(),
    decreases domains.len(),
{
    let t = domains.update(i, d);
    if i == domains.len() - 1 {
        assert(t.drop_last() == domains.drop_last());
    } else {
        assert(t.drop_last() == domains.drop_last().update(i, d));
        lemma_total_size_update(domains.drop_last(), i, d);
    }
}

impl CSP {
    /// Whether the arc names two dominoes of the puzzle and, for a quota arc,
    /// two pole numbers.
    pub open spec fn arc_wf(&self, arc: ConstraintArc) -> bool {
        &&& arc.xi < self.variables@.len()
        &&& arc.xj < self.variables@.len()
        &&& arc.constraint matches Constraint::LimitBased(pi, pj) ==> pi < 2 && pj < 2
    }

    /// Whether the cell `(r, c)` belongs to no undecided domino other than
    /// `xi` and `xj`.
    pub open spec fn cell_settled(&self, r: int, c: int, xi: int, xj: int, a: Seq<Value>) -> bool {
        match self.owner(r, c) {
            Some(k) => k == xi || k == xj || a[k] != Value::Unassigned,
            None => true,
        }
    }

    /// Whether no domino other than `xi` and `xj` with a cell in row `r` is
    /// undecided.
    pub open spec fn row_settled(&self, r: int, xi: int, xj: int, a: Seq<Value>) -> bool {
        forall|c: int| 0 <= c < self.col_size ==> #[trigger] self.cell_settled(r, c, xi, xj, a)
    }

    /// Whether no domino other than `xi` and `xj` with a cell in column `c` is
    /// undecided.
    pub open spec fn col_settled(&self, c: int, xi: int, xj: int, a: Seq<Value>) -> bool {
        forall|r: int| 0 <= r < self.row_size ==> #[trigger] self.cell_settled(r, c, xi, xj, a)
    }

    /// How many cells marked `m` row `r` still lacks when the cells `p` and
    /// `q` are not counted.
    pub open spec fn row_missing(&self, r: int, m: BoardCell, p: Point, q: Point) -> int {
        self.row_target(r, m) - (self.row_count(r, m) - self.carries(p, m) - self.carries(q, m))
    }

    /// How many cells marked `m` column `c` still lacks when the cells `p` and
    /// `q` are not counted.
    pub open spec fn col_missing(&self, c: int, m: BoardCell, p: Point, q: Point) -> int {
        self.col_target(c, m) - (self.col_count(c, m) - self.carries(p, m) - self.carries(q, m))
    }

    /// The orientation of `xj` that the quota of the line shared by pole `pi`
    /// of `xi` and pole `pj` of `xj` rules out once `xi` takes `v`. A shared
    /// row is considered before a shared column.
    pub open spec fn quota_conflict(
        &self,
        xi: int,
        xj: int,
        v: Value,
        pi: int,
        pj: int,
        a: Seq<Value>,
    ) -> Option<Value> {
        let p = self.pole(xi, pi);
        let q = self.pole(xj, pj);
        if p.row == q.row {
            line_conflict(
                self.row_missing(p.row as int, BoardCell::Positive, p, q),
                self.row_missing(p.row as int, BoardCell::Negative, p, q),
                self.row_settled(p.row as int, xi, xj, a),
                v,
                pi,
                pj,
            )
        } else if p.col == q.col {
            line_conflict(
                self.col_missing(p.col as int, BoardCell::Positive, p, q),
                self.col_missing(p.col as int, BoardCell::Negative, p, q),
                self.col_settled(p.col as int, xi, xj, a),
                v,
                pi,
                pj,
            )
        } else {
            None
        }
    }

    /// The value of the source domino that candidate `v` of the dependent
    /// domino excludes along `arc`.
    pub open spec fn excluded_by(&self, arc: ConstraintArc, v: Value, a: Seq<Value>) -> Option<
        Value,
    > {
        match arc.constraint {
            Constraint::SignBased(pi, pj) => pole_conflict(v, pi as int, pj as int),
            Constraint::LimitBased(pi, pj) => self.quota_conflict(
                arc.xi as int,
                arc.xj as int,
                v,
                pi as int,
                pj as int,
                a,
            ),
        }
    }

    /// Whether candidate `v` of the dependent domino has to go: the value it
    /// excludes is what the source is assigned, or is all that is left in the
    /// source's domain.
    pub open spec fn prunes(
        &self,
        arc: ConstraintArc,
        v: Value,
        domains: Seq<Seq<Value>>,
        a: Seq<Value>,
    ) -> bool {
        match self.excluded_by(arc, v, a) {
            Some(w) => a[arc.xj as int] == w || domains[arc.xj as int] == seq![w],
            None => false,
        }
    }

    /// The candidates among `dom` that have to go, in the order of `dom`.
    pub open spec fn condemned(
        &self,
        arc: ConstraintArc,
        dom: Seq<Value>,
        domains: Seq<Seq<Value>>,
        a: Seq<Value>,
    ) -> Seq<Value>
        decreases dom.len(),
    {
        if dom.len() == 0 {
            Seq::empty()
        } else {
            let earlier = self.condemned(arc, dom.drop_last(), domains, a);
            if self.prunes(arc, dom.last(), domains, a) {
                earlier.push(dom.last())
            } else {
                earlier
            }
        }
    }

    /// The outcome of revising along `arc`: whether the dependent domain is
    /// still non-empty, whether it shrank, and the domains afterwards.
    ///
    /// An arc from a domino to itself, or one that names no domino of the
    /// puzzle, is infeasible and changes nothing. A dependent domino that is
    /// already assigned keeps its domain.
    pub open spec fn revised(&self, arc: ConstraintArc, domains: Seq<Seq<Value>>, a: Seq<Value>) -> (
        bool,
        bool,
        Seq<Seq<Value>>,
    ) {
        let xi = arc.xi as int;
        if arc.xi == arc.xj || xi >= domains.len() || arc.xj >= domains.len() {
            (false, false, domains)
        } else if a[xi] != Value::Unassigned {
            (domains[xi].len() != 0, false, domains)
        } else {
            let doomed = self.condemned(arc, domains[xi], domains, a);
            let left = discard_all(domains[xi], doomed);
            let after = domains.update(xi, left);
            if left.len() == 0 {
                (false, false, after)
            } else {
                (true, doomed.len() != 0, after)
            }
        }
    }

    /// How far a line with the given target and count is from its quota when
    /// the marks of two cells of the line are not counted.
    fn missing(target: i32, count: usize, first_carries: bool, second_carries: bool) -> (m: i128)
        ensures
            m == target - (count - (if first_carries {
                1int
            } else {
                0int
            }) - (if second_carries {
                1int
            } else {
                0int
            })),
    {
        let mut counted: i128 = count as i128;
        if first_carries {
            counted = counted - 1;
        }
        if second_carries {
            counted = counted - 1;
        }
        target as i128 - counted
    }

    /// The domino that owns the cell `(r, c)` according to the lookup table.
    pub fn owner_of(&self, r: usize, c: usize) -> (res: Option<usize>)
        requires
            self.wf(),
            self.in_grid(r as int, c as int),
        ensures
            match res {
                Some(k) => self.owner(r as int, c as int) == Some(k as int),
                None => self.owner(r as int, c as int) is None,
            },
    {
        let i = self.board_variable_association[r][c];
        if i < self.variables.len() {
            assert(self.domino_wf(i as int));
            let v = &self.variables[i];
            if (v.poles[0].row == r && v.poles[0].col == c) || (v.poles[1].row == r && v.poles[1].col
                == c) {
                Some(i)
            } else {
                None
            }
        } else {
            None
        }
    }

    /// Whether the lookup table gives every cell of the grid an owner.
    pub fn every_cell_owned(&self) -> (res: bool)
        requires
            self.wf(),
        ensures
            res == self.covered(),
    {
        let mut r: usize = 0;
        while r < self.row_size
            invariant
                self.wf(),
                r <= self.row_size,
                forall|a: int, b: int|
                    0 <= a < r && 0 <= b < self.col_size ==> (#[trigger] self.owner(a, b)) is Some,
            decreases self.row_size - r,
        {
            let mut c: usize = 0;
            while c < self.col_size
                invariant
                    self.wf(),
                    r < self.row_size,
                    c <= self.col_size,
                    forall|a: int, b: int|
                        0 <= a < r && 0 <= b < self.col_size ==> (#[trigger] self.owner(a, b)) is Some,
                    forall|b: int| 0 <= b < c ==> (#[trigger] self.owner(r as int, b)) is Some,
                decreases self.col_size - c,
            {
                if self.owner_of(r, c).is_none() {
                    assert(self.in_grid(r as int, c as int));
                    return false;
                }
                c += 1;
            }
            r += 1;
        }
        true
    }

    /// Whether no third undecided domino has a cell in the given row (when
    /// `along_row`) or column.
    fn line_settled(
        &self,
        along_row: bool,
        line: usize,
        xi_index: VariableIndex,
        xj_index: VariableIndex,
        assignment: &Assignment,
    ) -> (res: bool)
        requires
            self.wf(),
            assignment@.len() == self.variables@.len(),
            along_row ==> line < self.row_size,
            !along_row ==> line < self.col_size,
        ensures
            along_row ==> res == self.row_settled(
                line as int,
                xi_index as int,
                xj_index as int,
                assignment@,
            ),
            !along_row ==> res == self.col_settled(
                line as int,
                xi_index as int,
                xj_index as int,
                assignment@,
            ),
    {
        let n = if along_row {
            self.col_size
        } else {
            self.row_size
        };
        let mut k: usize = 0;
        while k < n
            invariant
                self.wf(),
                assignment@.len() == self.variables@.len(),
                along_row ==> line < self.row_size && n == self.col_size,
                !along_row ==> line < self.col_size && n == self.row_size,
                k <= n,
                along_row ==> forall|c: int|
                    0 <= c < k ==> #[trigger] self.cell_settled(
                        line as int,
                        c,
                        xi_index as int,
                        xj_index as int,
                        assignment@,
                    ),
                !along_row ==> forall|r: int|
                    0 <= r < k ==> #[trigger] self.cell_settled(
                        r,
                        line as int,
                        xi_index as int,
                        xj_index as int,
                        assignment@,
                    ),
            decreases n - k,
        {
            let owner = if along_row {
                self.owner_of(line, k)
            } else {
                self.owner_of(k, line)
            };
            if let Some(j) = owner {
                if j != xi_index && j != xj_index && assignment[j] == Value::Unassigned {
                    assert(along_row ==> !self.cell_settled(
                        line as int,
                        k as int,
                        xi_index as int,
                        xj_index as int,
                        assignment@,
                    ));
                    assert(!along_row ==> !self.cell_settled(
                        k as int,
                        line as int,
                        xi_index as int,
                        xj_index as int,
                        assignment@,
                    ));
                    return false;
                }
            }
            k += 1;
        }
        true
    }

    /// Given the value of `xi`, the value that `xj` cannot take because of the
    /// charges of two grid-adjacent poles.
    pub fn get_neighbor_pole_based_inconsistent_value(
        xi_value: Value,
        xi_pole_index: PoleNumber,
        xj_pole_index: PoleNumber,
    ) -> (res: Option<Value>)
        ensures
            res == pole_conflict(xi_value, xi_pole_index as int, xj_pole_index as int),
    {
        if xi_pole_index > 1 || xj_pole_index > 1 {
            return None;
        }
        let same_pole = xi_pole_index == xj_pole_index;
        match xi_value {
            Value::Pole1PositivePole2Negative => {
                if same_pole {
                    Some(Value::Pole1PositivePole2Negative)
                } else {
                    Some(Value::Pole2PositivePole1Negative)
                }
            },
            Value::Pole2PositivePole1Negative => {
                if same_pole {
                    Some(Value::Pole2PositivePole1Negative)
                } else {
                    Some(Value::Pole1PositivePole2Negative)
                }
            },
            _ => None,
        }
    }

    /// Whether orientation `v` puts the charge `m` on pole `k`.
    fn puts(v: Value, k: PoleNumber, m: BoardCell) -> (res: bool)
        requires
            m == BoardCell::Positive || m == BoardCell::Negative,
        ensures
            res == (charge(v, k as int) == m),
    {
        match v {
            Value::Pole1PositivePole2Negative => (k == 0) == (m == BoardCell::Positive),
            Value::Pole2PositivePole1Negative => (k == 0) == (m == BoardCell::Negative),
            _ => false,
        }
    }

    /// The orientation that puts the charge `m` on pole `k`.
    fn facing(k: PoleNumber, m: BoardCell) -> (res: Value)
        requires
            m == BoardCell::Positive || m == BoardCell::Negative,
        ensures
            res == orientation_with(k as int, m),
    {
        if (k == 0) == (m == BoardCell::Positive) {
            Value::Pole1PositivePole2Negative
        } else {
            Value::Pole2PositivePole1Negative
        }
    }

    /// Given the value of `xi`, the value that `xj` cannot take because of the
    /// quota of the row or column that the two poles share.
    pub fn get_neighbor_limit_based_inconsistent_value(
        &self,
        xi_index: VariableIndex,
        xj_index: VariableIndex,
        xi_value: Value,
        xi_pole_index: PoleNumber,
        xj_pole_index: PoleNumber,
        assignment: &Assignment,
    ) -> (res: Option<Value>)
        requires
            self.wf(),
            xi_index < self.variables@.len(),
            xj_index < self.variables@.len(),
            xi_pole_index < 2,
            xj_pole_index < 2,
            assignment@.len() == self.variables@.len(),
        ensures
            res == self.quota_conflict(
                xi_index as int,
                xj_index as int,
                xi_value,
                xi_pole_index as int,
                xj_pole_index as int,
                assignment@,
            ),
    {
        assert(self.domino_wf(xi_index as int));
        assert(self.domino_wf(xj_index as int));
        let p = self.variables[xi_index].poles[xi_pole_index as usize];
        let q = self.variables[xj_index].poles[xj_pole_index as usize];
        let p_mark = self.board[p.row][p.col];
        let q_mark = self.board[q.row][q.col];
        let along_row = p.row == q.row;
        if !along_row && p.col != q.col {
            return None;
        }
        let line = if along_row {
            p.row
        } else {
            p.col
        };
        let pos_missing = if along_row {
            Self::missing(
                self.row_pos_poles[line],
                self.curr_row_pos_poles[line],
                p_mark == BoardCell::Positive,
                q_mark == BoardCell::Positive,
            )
        } else {
            Self::missing(
                self.col_pos_poles[line],
                self.curr_col_pos_poles[line],
                p_mark == BoardCell::Positive,
                q_mark == BoardCell::Positive,
            )
        };
        let neg_missing = if along_row {
            Self::missing(
                self.row_neg_poles[line],
                self.curr_row_neg_poles[line],
                p_mark == BoardCell::Negative,
                q_mark == BoardCell::Negative,
            )
        } else {
            Self::missing(
                self.col_neg_poles[line],
                self.curr_col_neg_poles[line],
                p_mark == BoardCell::Negative,
                q_mark == BoardCell::Negative,
            )
        };
        if pos_missing == 1 {
            if Self::puts(xi_value, xi_pole_index, BoardCell::Positive) {
                Some(Self::facing(xj_pole_index, BoardCell::Positive))
            } else {
                None
            }
        } else if neg_missing == 1 {
            if Self::puts(xi_value, xi_pole_index, BoardCell::Negative) {
                Some(Self::facing(xj_pole_index, BoardCell::Negative))
            } else {
                None
            }
        } else if pos_missing == 2 {
            if Self::puts(xi_value, xi_pole_index, BoardCell::Positive) && self.line_settled(
                along_row,
                line,
                xi_index,
                xj_index,
                assignment,
            ) {
                Some(Value::Empty)
            } else {
                None
            }
        } else if neg_missing == 2 {
            if Self::puts(xi_value, xi_pole_index, BoardCell::Negative) && self.line_settled(
                along_row,
                line,
                xi_index,
                xj_index,
                assignment,
            ) {
                Some(Value::Empty)
            } else {
                None
            }
        } else {
            None
        }
    }

    /// Removes one occurrence of `value` from `domain`, if there is one, and
    /// says whether it did.
    pub fn remove_value_from_domain(value: Value, domain: &mut Vec<Value>) -> (removed: bool)
        ensures
            removed == old(domain)@.contains(value),
            final(domain)@ == discard(old(domain)@, value),
    {
        let mut pos: usize = 0;
        while pos < domain.len()
            invariant
                pos <= domain@.len(),
                domain@ == old(domain)@,
                forall|k: int| 0 <= k < pos ==> domain@[k] != value,
            decreases domain@.len() - pos,
        {
            if domain[pos] == value {
                proof {
                    domain@.index_of_first_ensures(value);
                    assert(domain@.contains(value));
                }
                domain.swap_remove(pos);
                return true;
            }
            pos += 1;
        }
        proof {
            domain@.index_of_first_ensures(value);
        }
        false
    }

    /// Revises the domain of `constraint_arc.xi` against `constraint_arc.xj`:
    /// every candidate that has to go is removed. Returns whether the domain
    /// is still non-empty and whether it shrank.
    pub fn revise(
        &self,
        constraint_arc: &ConstraintArc,
        inferred_domains: &mut Domain,
        assignment: &Assignment,
    ) -> (res: (bool, bool))
        requires
            self.wf(),
            self.arc_wf(*constraint_arc),
            old(inferred_domains)@.len() == self.variables@.len(),
            assignment@.len() == self.variables@.len(),
        ensures
            (res.0, res.1, grid(final(inferred_domains)@)) == self.revised(
                *constraint_arc,
                grid(old(inferred_domains)@),
                assignment@,
            ),
    {
        let arc = *constraint_arc;
        let xi_index = arc.xi;
        let xj_index = arc.xj;
        let ghost before = grid(inferred_domains@);
        if xi_index == xj_index {
            return (false, false);
        }
        let mut revised = false;
        if assignment[xi_index] == Value::Unassigned {
            let mut to_be_deleted: Vec<Value> = Vec::new();
            let size = inferred_domains[xi_index].len();
            let mut k: usize = 0;
            while k < size
                invariant
                    self.wf(),
                    self.arc_wf(arc),
                    xi_index == arc.xi,
                    xj_index == arc.xj,
                    inferred_domains@.len() == self.variables@.len(),
                    assignment@.len() == self.variables@.len(),
                    before == grid(inferred_domains@),
                    size == before[xi_index as int].len(),
                    k <= size,
                    to_be_deleted@ == self.condemned(
                        arc,
                        before[xi_index as int].take(k as int),
                        before,
                        assignment@,
                    ),
                decreases size - k,
            {
                let v = inferred_domains[xi_index][k];
                let excluded = match arc.constraint {
                    Constraint::SignBased(pi, pj) => CSP::get_neighbor_pole_based_inconsistent_value(
                        v,
                        pi,
                        pj,
                    ),
                    Constraint::LimitBased(pi, pj) => self.get_neighbor_limit_based_inconsistent_value(
                        xi_index,
                        xj_index,
                        v,
                        pi,
                        pj,
                        assignment,
                    ),
                };
                proof {
                    let dom = before[xi_index as int];
                    assert(dom.take(k + 1).drop_last() == dom.take(k as int));
                    assert(dom.take(k + 1).last() == v);
                    assert(excluded == self.excluded_by(arc, v, assignment@));
                }
                if let Some(w) = excluded {
                    let source = &inferred_domains[xj_index];
                    let only_left = source.len() == 1 && source[0] == w;
                    proof {
                        assert(only_left == (before[xj_index as int] == seq![w])) by {
                            if only_left {
                                assert(before[xj_index as int] =~= seq![w]);
                            }
                            if before[xj_index as int] == seq![w] {
                                assert(seq![w].len() == 1);
                                assert(seq![w][0] == w);
                            }
                        }
                    }
                    if assignment[xj_index] == w || only_left {
                        to_be_deleted.push(v);
                    }
                }
                k += 1;
            }
            proof {
                let dom = before[xi_index as int];
                assert(dom.take(size as int) == dom);
            }
            revised = to_be_deleted.len() != 0;
            let ghost doomed = to_be_deleted@;
            let mut d: usize = 0;
            assert(doomed.skip(0) == doomed);
            while d < to_be_deleted.len()
                invariant
                    d <= to_be_deleted@.len(),
                    doomed == to_be_deleted@,
                    inferred_domains@.len() == before.len(),
                    xi_index < before.len(),
                    forall|i: int|
                        0 <= i < before.len() && i != xi_index ==> inferred_domains@[i]@
                            == before[i],
                    discard_all(inferred_domains@[xi_index as int]@, doomed.skip(d as int))
                        == discard_all(before[xi_index as int], doomed),
                decreases to_be_deleted@.len() - d,
            {
                proof {
                    assert(doomed.skip(d as int).drop_first() == doomed.skip(d + 1));
                }
                CSP::remove_value_from_domain(to_be_deleted[d], &mut inferred_domains[xi_index]);
                d += 1;
            }
            proof {
                assert(doomed.skip(doomed.len() as int).len() == 0);
                assert(grid(inferred_domains@) =~= before.update(
                    xi_index as int,
                    discard_all(before[xi_index as int], doomed),
                ));
            }
        } else {
            proof {
                assert(grid(inferred_domains@) =~= before);
            }
        }
        if inferred_domains[xi_index].len() == 0 {
            return (false, false);
        }
        (true, revised)
    }

    /// The condemned candidates of `dom` are exactly its members that have
    /// to go.
    pub proof fn lemma_condemned(
        &self,
        arc: ConstraintArc,
        dom: Seq<Value>,
        domains: Seq<Seq<Value>>,
        a: Seq<Value>,
    )
        ensures
            forall|x: Value| #[trigger]
                self.condemned(arc, dom, domains, a).contains(x) ==> dom.contains(x)
                    && self.prunes(arc, x, domains, a),
            forall|x: Value|
                #[trigger] dom.contains(x) && self.prunes(arc, x, domains, a) ==> self.condemned(
                    arc,
                    dom,
                    domains,
                    a,
                ).contains(x),
            self.condemned(arc, dom, domains, a).len() <= dom.len(),
        decreases dom.len(),
    {
        let c = self.condemned(arc, dom, domains, a);
        if dom.len() > 0 {
            let rest = dom.drop_last();
            let earlier = self.condemned(arc, rest, domains, a);
            self.lemma_condemned(arc, rest, domains, a);
            assert forall|x: Value| c.contains(x) implies dom.contains(x) && self.prunes(
                arc,
                x,
                domains,
                a,
            ) by {
                let i = choose|i: int| 0 <= i < c.len() && c[i] == x;
                if i < earlier.len() {
                    assert(earlier[i] == x);
                    assert(earlier.contains(x));
                    let j = choose|j: int| 0 <= j < rest.len() && rest[j] == x;
                    assert(dom[j] == x);
                } else {
                    assert(dom[dom.len() - 1] == x);
                }
            }
            assert forall|x: Value| dom.contains(x) && self.prunes(arc, x, domains, a) implies c.contains(
                x,
            ) by {
                let j = choose|j: int| 0 <= j < dom.len() && dom[j] == x;
                if j < rest.len() {
                    assert(rest[j] == x);
                    assert(rest.contains(x));
                    let i = choose|i: int| 0 <= i < earlier.len() && earlier[i] == x;
                    assert(c[i] == x);
                } else {
                    assert(c[c.len() - 1] == x);
                }
            }
        }
    }

    /// What a revision does to the domains: only the domain of the dependent
    /// domino can change; it gains nothing and loses exactly the candidates
    /// that have to go; a reported change shrinks the total size, and without
    /// one a feasible revision leaves the domains as they were.
    pub proof fn lemma_revised(&self, arc: ConstraintArc, domains: Seq<Seq<Value>>, a: Seq<Value>)
        ensures
            ({
                let r = self.revised(arc, domains, a);
                let xi = arc.xi as int;
                &&& r.2.len() == domains.len()
                &&& forall|i: int| 0 <= i < domains.len() && i != xi ==> r.2[i] == domains[i]
                &&& forall|i: int| 0 <= i < domains.len() ==> (#[trigger] r.2[i]).len() <= domains[i].len()
                &&& xi < domains.len() ==> forall|x: Value|
                    r.2[xi].contains(x) ==> domains[xi].contains(x)
                &&& xi < domains.len() ==> forall|x: Value|
                    domains[xi].contains(x) && !self.prunes(arc, x, domains, a)
                        ==> r.2[xi].contains(x)
                &&& r.1 ==> total_size(r.2) < total_size(domains)
                &&& r.1 ==> r.0
                &&& r.0 && !r.1 ==> r.2 == domains
                &&& r.0 ==> arc.xi != arc.xj && xi < domains.len() && arc.xj < domains.len()
                    && r.2[xi].len() > 0
            }),
    {
        let r = self.revised(arc, domains, a);
        let xi = arc.xi as int;
        if arc.xi == arc.xj || xi >= domains.len() || arc.xj >= domains.len() {
        } else if a[xi] != Value::Unassigned {
        } else {
            let doomed = self.condemned(arc, domains[xi], domains, a);
            let left = discard_all(domains[xi], doomed);
            self.lemma_condemned(arc, domains[xi], domains, a);
            lemma_discard_all(domains[xi], doomed);
            lemma_total_size_update(domains, xi, left);
            if doomed.len() > 0 {
                assert(doomed.contains(doomed[0]));
            } else {
                assert(left == domains[xi]);
                assert(domains.update(xi, left) =~= domains);
            }
            assert forall|x: Value|
                domains[xi].contains(x) && !self.prunes(arc, x, domains, a) implies r.2[xi].contains(
                x,
            ) by {
                assert(!doomed.contains(x));
            }
        }
    }

    /// Copies the candidate domains.
    pub fn clone_domains(domains: &Domain) -> (res: Domain)
        ensures
            grid(res@) == grid(domains@),
    {
        let mut res: Domain = Vec::new();
        let mut i: usize = 0;
        while i < domains.len()
            invariant
                i <= domains@.len(),
                res@.len() == i,
                forall|k: int| 0 <= k < i ==> res@[k]@ == domains@[k]@,
            decreases domains@.len() - i,
        {
            let mut d: Vec<Value> = Vec::new();
            let mut j: usize = 0;
            while j < domains[i].len()
                invariant
                    i < domains@.len(),
                    j <= domains@[i as int]@.len(),
                    d@ == domains@[i as int]@.take(j as int),
                decreases domains@[i as int]@.len() - j,
            {
                d.push(domains[i][j]);
                assert(domains@[i as int]@.take(j + 1) == domains@[i as int]@.take(j as int).push(
                    domains@[i as int]@[j as int],
                ));
                j += 1;
            }
            assert(domains@[i as int]@.take(j as int) == domains@[i as int]@);
            res.push(d);
            i += 1;
        }
        assert(grid(res@) =~= grid(domains@));
        res
    }
}

} // verus!
