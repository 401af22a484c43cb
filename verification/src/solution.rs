//! What a solution is, and the invariant that ties the board to the
//! assignment during the search.

use crate::csp::{charge, BoardCell, Value, CSP};
use vstd::prelude::*;

verus! {

/// How many dominoes are still undecided.
pub open spec fn unresolved(a: Seq<Value>) -> nat
    decreases a.len(),
{
    if a.len() == 0 {
        0
    } else {
        unresolved(a.drop_last()) + if a.last() == Value::Unassigned {
            1nat
        } else {
            0nat
        }
    }
}

/// Whether every domino is decided.
pub open spec fn complete(a: Seq<Value>) -> bool {
    forall|i: int| 0 <= i < a.len() ==> a[i] != Value::Unassigned
}

/// Whether `s` decides every domino that `a` decides in the same way.
pub open spec fn extends(a: Seq<Value>, s: Seq<Value>) -> bool {
    &&& a.len() == s.len()
    &&& forall|i: int| 0 <= i < a.len() && a[i] != Value::Unassigned ==> s[i] == a[i]
}

/// Whether every domino's value in `s` is among its candidates in `domains`.
pub open spec fn within(s: Seq<Value>, domains: Seq<Seq<Value>>) -> bool {
    forall|i: int| 0 <= i < s.len() ==> (#[trigger] domains[i]).contains(s[i])
}

/// Deciding one more domino leaves one fewer undecided.
pub proof fn lemma_unresolved_update(a: Seq<Value>, i: int, v: Value)
    requires
        0 <= i < a.len(),
        a[i] == Value::Unassigned,
        v != Value::Unassigned,
    ensures
        unresolved(a.update(i, v)) == unresolved(a) - 1,
    decreases a.len(),
{
    let t = a.update(i, v);
    if i == a.len() - 1 {
        assert(t.drop_last() == a.drop_last());
    } else {
        assert(t.drop_last() == a.drop_last().update(i, v));
        lemma_unresolved_update(a.drop_last(), i, v);
    }
}

/// An assignment is complete exactly when nothing is undecided.
pub proof fn lemma_unresolved_complete(a: Seq<Value>)
    ensures
        complete(a) <==> unresolved(a) == 0,
    decreases a.len(),
{
    if a.len() > 0 {
        lemma_unresolved_complete(a.drop_last());
        if complete(a) {
            assert forall|i: int| 0 <= i < a.drop_last().len() implies a.drop_last()[i]
                != Value::Unassigned by {
                assert(a.drop_last()[i] == a[i]);
            }
        }
        if unresolved(a) == 0 {
            assert forall|i: int| 0 <= i < a.len() implies a[i] != Value::Unassigned by {
                if i < a.len() - 1 {
                    assert(a.drop_last()[i] == a[i]);
                }
            }
        }
    }
}

impl CSP {
    /// Whether the dominoes `i` and `j` have a cell in common.
    pub open spec fn overlap(&self, i: int, j: int) -> bool {
        ||| self.variables@[j].covers(self.pole(i, 0).row as int, self.pole(i, 0).col as int)
        ||| self.variables@[j].covers(self.pole(i, 1).row as int, self.pole(i, 1).col as int)
    }

    /// Whether `(r, c)` is a cell of some decided domino.
    pub open spec fn in_decided(&self, r: int, c: int, a: Seq<Value>) -> bool {
        exists|i: int|
            0 <= i < self.variables@.len() && a[i] != Value::Unassigned
                && #[trigger] self.variables@[i].covers(r, c)
    }

    /// The tie between board and assignment: the two cells of every decided
    /// domino carry the marks of its orientation, every marked cell belongs
    /// to a decided domino, and no two decided dominoes share a cell.
    pub open spec fn agrees(&self, a: Seq<Value>) -> bool {
        &&& a.len() == self.variables@.len()
        &&& forall|i: int|
            0 <= i < a.len() && #[trigger] a[i] != Value::Unassigned ==> self.pole_mark(i, 0)
                == charge(a[i], 0) && self.pole_mark(i, 1) == charge(a[i], 1)
        &&& forall|r: int, c: int|
            self.in_grid(r, c) && #[trigger] self.mark(r, c) != BoardCell::Unassigned
                ==> self.in_decided(r, c, a)
        &&& forall|i: int, j: int|
            0 <= i < a.len() && 0 <= j < a.len() && i != j && a[i] != Value::Unassigned && a[j]
                != Value::Unassigned ==> !#[trigger] self.overlap(i, j)
    }

    /// Whether no two grid-adjacent cells are both positive or both negative.
    pub open spec fn no_like_neighbors(&self) -> bool {
        forall|r: int, c: int| self.in_grid(r, c) ==> #[trigger] self.pole_sign_ok(r, c)
    }

    /// Whether some cell of row `r` is marked.
    pub open spec fn row_touched(&self, r: int) -> bool {
        exists|c: int| 0 <= c < self.col_size && #[trigger] self.mark(r, c) != BoardCell::Unassigned
    }

    /// Whether some cell of column `c` is marked.
    pub open spec fn col_touched(&self, c: int) -> bool {
        exists|r: int| 0 <= r < self.row_size && #[trigger] self.mark(r, c) != BoardCell::Unassigned
    }

    /// Whether every row and column with a marked cell obeys the quota rule:
    /// exact where no cell is unmarked, not exceeded elsewhere.
    pub open spec fn quotas_kept(&self) -> bool {
        &&& forall|r: int|
            0 <= r < self.row_size && #[trigger] self.row_touched(r) ==> self.row_quota_ok(r)
        &&& forall|c: int|
            0 <= c < self.col_size && #[trigger] self.col_touched(c) ==> self.col_quota_ok(c)
    }

    /// Whether the board obeys the charge rule and the quota rule.
    pub open spec fn board_valid(&self) -> bool {
        self.no_like_neighbors() && self.quotas_kept()
    }

    /// Whether this state is a solved board for the assignment `a`: every
    /// domino is decided, the board carries exactly the marks of `a`, and it
    /// obeys the charge rule and the quota rule.
    pub open spec fn solved_by(&self, a: Seq<Value>) -> bool {
        &&& self.wf()
        &&& complete(a)
        &&& self.agrees(a)
        &&& self.board_valid()
    }

    /// Whether `other` has the same dimensions, targets, dominoes and lookup
    /// table; board, counters and propagation strategy may differ.
    pub open spec fn same_layout(&self, other: &CSP) -> bool {
        &&& self.row_size == other.row_size
        &&& self.col_size == other.col_size
        &&& self.row_pos_poles == other.row_pos_poles
        &&& self.row_neg_poles == other.row_neg_poles
        &&& self.col_pos_poles == other.col_pos_poles
        &&& self.col_neg_poles == other.col_neg_poles
        &&& self.board_variable_association == other.board_variable_association
        &&& self.variables == other.variables
    }

    /// Whether the board `b` is a solution of this puzzle for `s` that keeps
    /// the decisions of `a` and takes every value from `domains`.
    pub open spec fn solves_from(
        &self,
        b: &CSP,
        s: Seq<Value>,
        a: Seq<Value>,
        domains: Seq<Seq<Value>>,
    ) -> bool {
        &&& b.same_layout(self)
        &&& b.solved_by(s)
        &&& extends(a, s)
        &&& within(s, domains)
    }

    /// Whether the puzzle has a solution that keeps the decisions of `a` and
    /// takes every value from `domains`.
    pub open spec fn has_solution_from(&self, a: Seq<Value>, domains: Seq<Seq<Value>>) -> bool {
        exists|b: CSP, s: Seq<Value>| #[trigger] self.solves_from(&b, s, a, domains)
    }

    /// Whether the puzzle has a solution that keeps the decisions of `a`,
    /// takes every value from `domains`, and gives `v` to domino `x`.
    pub open spec fn has_solution_choosing(
        &self,
        a: Seq<Value>,
        domains: Seq<Seq<Value>>,
        x: int,
        v: Value,
    ) -> bool {
        exists|b: CSP, s: Seq<Value>| #[trigger] self.solves_from(&b, s, a, domains) && s[x] == v
    }

    /// Whether the puzzle has a solution: some board of it is solved for
    /// some assignment.
    pub open spec fn solvable(&self) -> bool {
        exists|b: CSP, s: Seq<Value>| b.same_layout(self) && #[trigger] b.solved_by(s)
    }

    /// Two states of one puzzle with the same marks agree with the same
    /// assignments and are valid together.
    pub proof fn lemma_same_marks(&self, other: &CSP, a: Seq<Value>)
        requires
            self.wf(),
            other.wf(),
            self.same_puzzle(other),
            forall|r: int, c: int| self.in_grid(r, c) ==> self.mark(r, c) == other.mark(r, c),
            forall|r: int| 0 <= r < self.row_size ==> self.row_marks(r) == other.row_marks(r),
            forall|c: int| 0 <= c < self.col_size ==> self.col_marks(c) == other.col_marks(c),
        ensures
            other.agrees(a) ==> self.agrees(a),
            other.board_valid() ==> self.board_valid(),
    {
        if other.agrees(a) {
            assert forall|i: int|
                0 <= i < a.len() && #[trigger] a[i] != Value::Unassigned implies self.pole_mark(
                i,
                0,
            ) == charge(a[i], 0) && self.pole_mark(i, 1) == charge(a[i], 1) by {
                assert(self.domino_wf(i));
            }
            assert forall|r: int, c: int|
                self.in_grid(r, c) && #[trigger] self.mark(r, c)
                    != BoardCell::Unassigned implies self.in_decided(r, c, a) by {
                assert(other.mark(r, c) != BoardCell::Unassigned);
                assert(other.in_decided(r, c, a));
                let i = choose|i: int|
                    0 <= i < other.variables@.len() && a[i] != Value::Unassigned
                        && #[trigger] other.variables@[i].covers(r, c);
                assert(self.variables@[i].covers(r, c));
            }
            assert forall|i: int, j: int|
                0 <= i < a.len() && 0 <= j < a.len() && i != j && a[i] != Value::Unassigned
                    && a[j] != Value::Unassigned implies !#[trigger] self.overlap(i, j) by {
                assert(!other.overlap(i, j));
            }
        }
        if other.board_valid() {
            assert forall|r: int, c: int| self.in_grid(r, c) implies #[trigger] self.pole_sign_ok(
                r,
                c,
            ) by {
                assert(other.pole_sign_ok(r, c));
            }
            assert forall|r: int| 0 <= r < self.row_size && #[trigger] self.row_touched(
                r,
            ) implies self.row_quota_ok(r) by {
                let c = choose|c: int|
                    0 <= c < self.col_size && #[trigger] self.mark(r, c) != BoardCell::Unassigned;
                assert(other.mark(r, c) != BoardCell::Unassigned);
                assert(other.row_touched(r));
                assert(other.row_quota_ok(r));
            }
            assert forall|c: int| 0 <= c < self.col_size && #[trigger] self.col_touched(
                c,
            ) implies self.col_quota_ok(c) by {
                let r = choose|r: int|
                    0 <= r < self.row_size && #[trigger] self.mark(r, c) != BoardCell::Unassigned;
                assert(other.mark(r, c) != BoardCell::Unassigned);
                assert(other.col_touched(c));
                assert(other.col_quota_ok(c));
            }
        }
    }

    /// After an assignment the board still agrees with the assignment, now
    /// with the new decision recorded.
    pub proof fn lemma_agrees_after_assign(&self, before: &CSP, a: Seq<Value>, x: int, v: Value)
        requires
            before.wf(),
            self.wf(),
            self.same_puzzle(before),
            before.agrees(a),
            0 <= x < a.len(),
            v != Value::Unassigned,
            before.pole_mark(x, 0) == BoardCell::Unassigned,
            before.pole_mark(x, 1) == BoardCell::Unassigned,
            self.marks_changed_at(
                before,
                before.pole(x, 0),
                charge(v, 0),
                before.pole(x, 1),
                charge(v, 1),
            ),
        ensures
            a[x] == Value::Unassigned,
            self.agrees(a.update(x, v)),
    {
        let b = a.update(x, v);
        let head = before.pole(x, 0);
        let tail = before.pole(x, 1);
        assert(before.domino_wf(x));
        assert(a[x] == Value::Unassigned) by {
            if a[x] != Value::Unassigned {
                assert(before.pole_mark(x, 0) == charge(a[x], 0));
            }
        }
        assert forall|i: int|
            0 <= i < b.len() && #[trigger] b[i] != Value::Unassigned implies self.pole_mark(i, 0)
            == charge(b[i], 0) && self.pole_mark(i, 1) == charge(b[i], 1) by {
            assert(before.domino_wf(i));
            let q0 = before.pole(i, 0);
            let q1 = before.pole(i, 1);
            assert(self.in_grid(q0.row as int, q0.col as int));
            assert(self.in_grid(q1.row as int, q1.col as int));
            if i != x {
                assert(a[i] != Value::Unassigned);
                assert(before.pole_mark(i, 0) == charge(a[i], 0));
                assert(before.pole_mark(i, 1) == charge(a[i], 1));
            }
        }
        assert forall|r: int, c: int|
            self.in_grid(r, c) && #[trigger] self.mark(r, c)
                != BoardCell::Unassigned implies self.in_decided(r, c, b) by {
            if (r == head.row && c == head.col) || (r == tail.row && c == tail.col) {
                assert(self.variables@[x].covers(r, c));
            } else {
                assert(before.mark(r, c) != BoardCell::Unassigned);
                assert(before.in_decided(r, c, a));
                let i = choose|i: int|
                    0 <= i < before.variables@.len() && a[i] != Value::Unassigned
                        && #[trigger] before.variables@[i].covers(r, c);
                assert(b[i] != Value::Unassigned);
                assert(self.variables@[i].covers(r, c));
            }
        }
        assert forall|i: int, j: int|
            0 <= i < b.len() && 0 <= j < b.len() && i != j && b[i] != Value::Unassigned && b[j]
                != Value::Unassigned implies !#[trigger] self.overlap(i, j) by {
            assert(before.domino_wf(i));
            assert(before.domino_wf(j));
            if i == x {
                assert(a[j] != Value::Unassigned);
                assert(before.pole_mark(j, 0) == charge(a[j], 0));
                assert(before.pole_mark(j, 1) == charge(a[j], 1));
            } else if j == x {
                assert(a[i] != Value::Unassigned);
                assert(before.pole_mark(i, 0) == charge(a[i], 0));
                assert(before.pole_mark(i, 1) == charge(a[i], 1));
            } else {
                assert(!before.overlap(i, j));
            }
        }
    }

    /// After an assignment that the consistency checker accepts, the board is
    /// still valid.
    pub proof fn lemma_valid_after_assign(&self, before: &CSP, x: int, v: Value)
        requires
            before.wf(),
            self.wf(),
            self.same_puzzle(before),
            before.board_valid(),
            0 <= x < before.variables@.len(),
            v != Value::Unassigned,
            before.pole_mark(x, 0) == BoardCell::Unassigned,
            before.pole_mark(x, 1) == BoardCell::Unassigned,
            self.marks_changed_at(
                before,
                before.pole(x, 0),
                charge(v, 0),
                before.pole(x, 1),
                charge(v, 1),
            ),
            self.consistent_at(x),
        ensures
            self.board_valid(),
    {
        let head = before.pole(x, 0);
        let tail = before.pole(x, 1);
        assert(before.domino_wf(x));
        assert forall|r: int, c: int| self.in_grid(r, c) implies #[trigger] self.pole_sign_ok(
            r,
            c,
        ) by {
            assert(before.pole_sign_ok(r, c));
            assert(self.pole_sign_ok(head.row as int, head.col as int));
            assert(self.pole_sign_ok(tail.row as int, tail.col as int));
            let m = self.mark(r, c);
            if (r == head.row && c == head.col) || (r == tail.row && c == tail.col) {
            } else if m == BoardCell::Positive || m == BoardCell::Negative {
                assert(before.mark(r, c) == m);
                if self.holds_mark(r + 1, c, m) {
                    assert(self.mark(r + 1, c) == m);
                    if !before.holds_mark(r + 1, c, m) {
                        assert(self.holds_mark(r + 1 - 1, c, m));
                    }
                }
                if self.holds_mark(r - 1, c, m) {
                    assert(self.mark(r - 1, c) == m);
                    if !before.holds_mark(r - 1, c, m) {
                        assert(self.holds_mark(r - 1 + 1, c, m));
                    }
                }
                if self.holds_mark(r, c + 1, m) {
                    assert(self.mark(r, c + 1) == m);
                    if !before.holds_mark(r, c + 1, m) {
                        assert(self.holds_mark(r, c + 1 - 1, m));
                    }
                }
                if self.holds_mark(r, c - 1, m) {
                    assert(self.mark(r, c - 1) == m);
                    if !before.holds_mark(r, c - 1, m) {
                        assert(self.holds_mark(r, c - 1 + 1, m));
                    }
                }
            }
        }
        assert forall|r: int| 0 <= r < self.row_size && #[trigger] self.row_touched(
            r,
        ) implies self.row_quota_ok(r) by {
            if r != head.row && r != tail.row {
                let c = choose|c: int|
                    0 <= c < self.col_size && #[trigger] self.mark(r, c) != BoardCell::Unassigned;
                assert(before.mark(r, c) != BoardCell::Unassigned);
                assert(before.row_touched(r));
                assert(before.row_quota_ok(r));
                assert(self.row_marks(r) =~= before.row_marks(r)) by {
                    assert forall|k: int| 0 <= k < self.col_size implies self.row_marks(r)[k]
                        == before.row_marks(r)[k] by {
                        assert(self.mark(r, k) == before.mark(r, k));
                    }
                }
            }
        }
        assert forall|c: int| 0 <= c < self.col_size && #[trigger] self.col_touched(
            c,
        ) implies self.col_quota_ok(c) by {
            if c != head.col && c != tail.col {
                let r = choose|r: int|
                    0 <= r < self.row_size && #[trigger] self.mark(r, c) != BoardCell::Unassigned;
                assert(before.mark(r, c) != BoardCell::Unassigned);
                assert(before.col_touched(c));
                assert(before.col_quota_ok(c));
                assert(self.col_marks(c) =~= before.col_marks(c)) by {
                    assert forall|k: int| 0 <= k < self.row_size implies self.col_marks(c)[k]
                        == before.col_marks(c)[k] by {
                        assert(self.mark(k, c) == before.mark(k, c));
                    }
                }
            }
        }
    }
}

} // verus!
