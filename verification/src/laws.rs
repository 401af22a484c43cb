//! What holds of every solution, stated for callers of the search.

use crate::csp::{charge, BoardCell, Point, Value, CSP};
use crate::exhaustive::adjacent;
use crate::store::lemma_count_of_bound;
use vstd::prelude::*;

verus! {

impl CSP {
    /// Whether every cell of row `r` is a pole of some domino.
    pub open spec fn row_tiled(&self, r: int) -> bool {
        forall|c: int| 0 <= c < self.col_size ==> #[trigger] self.tiled(r, c)
    }

    /// Whether every cell of column `c` is a pole of some domino.
    pub open spec fn col_tiled(&self, c: int) -> bool {
        forall|r: int| 0 <= r < self.row_size ==> #[trigger] self.tiled(r, c)
    }

    /// Where the lookup table knows the dominoes, every cell has an owner
    /// exactly when every cell is a pole of some domino.
    pub proof fn lemma_covered_means_tiled(&self)
        requires
            self.lookup_wf(),
        ensures
            self.covered() <==> forall|r: int|
                0 <= r < self.row_size ==> #[trigger] self.row_tiled(r),
    {
        if self.covered() {
            assert forall|r: int| 0 <= r < self.row_size implies #[trigger] self.row_tiled(r) by {
                assert forall|c: int| 0 <= c < self.col_size implies #[trigger] self.tiled(
                    r,
                    c,
                ) by {
                    assert(self.in_grid(r, c));
                    let i = self.owner(r, c).unwrap();
                    assert(self.variables@[i].covers(r, c));
                }
            }
        }
        if forall|r: int| 0 <= r < self.row_size ==> #[trigger] self.row_tiled(r) {
            assert forall|r: int, c: int| self.in_grid(r, c) implies (#[trigger] self.owner(
                r,
                c,
            )) is Some by {
                assert(self.row_tiled(r));
                assert(self.tiled(r, c));
            }
        }
    }

    /// In a solved board, a row with at least one cell whose cells all
    /// belong to dominoes holds exactly its target number of positive marks
    /// and exactly its target number of negative marks.
    pub proof fn lemma_solved_row_meets_targets(&self, s: Seq<Value>, r: int)
        requires
            self.solved_by(s),
            0 <= r < self.row_size,
            self.col_size > 0,
            self.row_tiled(r),
        ensures
            self.row_count(r, BoardCell::Positive) == self.row_pos_poles@[r],
            self.row_count(r, BoardCell::Negative) == self.row_neg_poles@[r],
    {
        assert forall|c: int| 0 <= c < self.col_size implies self.row_marks(r)[c]
            != BoardCell::Unassigned by {
            assert(self.tiled(r, c));
            let i = choose|i: int|
                0 <= i < self.variables@.len() && #[trigger] self.variables@[i].covers(r, c);
            self.lemma_pole_is_marked(s, i);
        }
        assert(self.mark(r, 0) != BoardCell::Unassigned) by {
            assert(self.row_marks(r)[0] != BoardCell::Unassigned);
        }
        assert(self.row_touched(r));
        assert(self.row_quota_ok(r));
    }

    /// In a solved board, a column with at least one cell whose cells all
    /// belong to dominoes holds exactly its target number of positive marks
    /// and exactly its target number of negative marks.
    pub proof fn lemma_solved_col_meets_targets(&self, s: Seq<Value>, c: int)
        requires
            self.solved_by(s),
            0 <= c < self.col_size,
            self.row_size > 0,
            self.col_tiled(c),
        ensures
            self.col_count(c, BoardCell::Positive) == self.col_pos_poles@[c],
            self.col_count(c, BoardCell::Negative) == self.col_neg_poles@[c],
    {
        assert forall|r: int| 0 <= r < self.row_size implies self.col_marks(c)[r]
            != BoardCell::Unassigned by {
            assert(self.tiled(r, c));
            let i = choose|i: int|
                0 <= i < self.variables@.len() && #[trigger] self.variables@[i].covers(r, c);
            self.lemma_pole_is_marked(s, i);
        }
        assert(self.mark(0, c) != BoardCell::Unassigned) by {
            assert(self.col_marks(c)[0] != BoardCell::Unassigned);
        }
        assert(self.col_touched(c));
        assert(self.col_quota_ok(c));
    }

    /// In a solved board both cells of every domino are marked.
    pub proof fn lemma_pole_is_marked(&self, s: Seq<Value>, i: int)
        requires
            self.solved_by(s),
            0 <= i < self.variables@.len(),
        ensures
            self.pole_mark(i, 0) != BoardCell::Unassigned,
            self.pole_mark(i, 1) != BoardCell::Unassigned,
    {
        assert(s[i] != Value::Unassigned);
        assert(self.pole_mark(i, 0) == charge(s[i], 0));
        assert(self.pole_mark(i, 1) == charge(s[i], 1));
    }

    /// In a solved board no two grid-adjacent cells are both positive, and
    /// no two are both negative.
    pub proof fn lemma_solved_has_no_like_neighbors(&self, s: Seq<Value>, p: Point, q: Point)
        requires
            self.solved_by(s),
            self.in_grid(p.row as int, p.col as int),
            self.in_grid(q.row as int, q.col as int),
            adjacent(p, q),
        ensures
            !(self.mark(p.row as int, p.col as int) == BoardCell::Positive && self.mark(
                q.row as int,
                q.col as int,
            ) == BoardCell::Positive),
            !(self.mark(p.row as int, p.col as int) == BoardCell::Negative && self.mark(
                q.row as int,
                q.col as int,
            ) == BoardCell::Negative),
    {
        let m = self.mark(p.row as int, p.col as int);
        assert(self.pole_sign_ok(p.row as int, p.col as int));
        if self.mark(q.row as int, q.col as int) == m {
            assert(self.holds_mark(q.row as int, q.col as int, m));
        }
    }

    /// A puzzle is solvable or not whatever the propagation strategy: two
    /// engines for the same dimensions, targets and dominoes have a solution
    /// together, and where every cell has an owner the search of each finds
    /// one exactly when there is one.
    pub proof fn lemma_strategy_keeps_solvability(&self, other: &CSP)
        requires
            self.same_layout(other),
        ensures
            self.solvable() == other.solvable(),
            self.covered() == other.covered(),
    {
        self.lemma_same_layout_solutions(other, Seq::empty(), Seq::empty());
    }

    /// A puzzle that asks a row whose cells all belong to dominoes for more
    /// positive marks, or more negative marks, than the row has cells has no
    /// solution.
    pub proof fn lemma_overdemanded_row_unsolvable(&self, r: int)
        requires
            0 <= r < self.row_size,
            self.col_size > 0,
            self.row_tiled(r),
            self.row_pos_poles@[r] > self.col_size || self.row_neg_poles@[r] > self.col_size,
        ensures
            !self.solvable(),
    {
        if self.solvable() {
            let (b, s) = choose|b: CSP, s: Seq<Value>|
                b.same_layout(self) && #[trigger] b.solved_by(s);
            assert forall|c: int| 0 <= c < b.col_size implies #[trigger] b.tiled(r, c) by {
                assert(self.tiled(r, c));
            }
            b.lemma_solved_row_meets_targets(s, r);
            lemma_count_of_bound(b.row_marks(r), BoardCell::Positive);
            lemma_count_of_bound(b.row_marks(r), BoardCell::Negative);
        }
    }

    /// A puzzle that asks a column whose cells all belong to dominoes for
    /// more positive marks, or more negative marks, than the column has
    /// cells has no solution.
    pub proof fn lemma_overdemanded_col_unsolvable(&self, c: int)
        requires
            0 <= c < self.col_size,
            self.row_size > 0,
            self.col_tiled(c),
            self.col_pos_poles@[c] > self.row_size || self.col_neg_poles@[c] > self.row_size,
        ensures
            !self.solvable(),
    {
        if self.solvable() {
            let (b, s) = choose|b: CSP, s: Seq<Value>|
                b.same_layout(self) && #[trigger] b.solved_by(s);
            assert forall|r: int| 0 <= r < b.row_size implies #[trigger] b.tiled(r, c) by {
                assert(self.tiled(r, c));
            }
            b.lemma_solved_col_meets_targets(s, c);
            lemma_count_of_bound(b.col_marks(c), BoardCell::Positive);
            lemma_count_of_bound(b.col_marks(c), BoardCell::Negative);
        }
    }
}

} // verus!
