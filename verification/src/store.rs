//! The state store: the live board with its running counters, and the two
//! operations that change it, `assign` and `unassign`.

use crate::csp::{charge, count_of, grid, Assignment, BoardCell, Point, Value, CSP};
use vstd::prelude::*;

verus! {

/// The mutable part of the engine as plain values: the marks of the board row
/// by row, and the four arrays of running counters.
pub struct Store {
    pub board: Seq<Seq<BoardCell>>,
    pub row_pos: Seq<int>,
    pub row_neg: Seq<int>,
    pub col_pos: Seq<int>,
    pub col_neg: Seq<int>,
}

/// `counts` with entry `i` changed by `by`.
pub open spec fn bumped(counts: Seq<int>, i: int, by: int) -> Seq<int> {
    counts.update(i, counts[i] + by)
}

impl Store {
    /// Whether `p` addresses a cell of the board and an entry of each counter
    /// array.
    pub open spec fn holds(self, p: Point) -> bool {
        &&& p.row < self.board.len()
        &&& p.col < self.board[p.row as int].len()
        &&& p.row < self.row_pos.len()
        &&& p.row < self.row_neg.len()
        &&& p.col < self.col_pos.len()
        &&& p.col < self.col_neg.len()
    }

    /// The store with the mark of cell `p` replaced by `m` and the counters of
    /// its row and column changed by `by` where `m` is a magnetic charge.
    pub open spec fn adjusted(self, p: Point, mark: BoardCell, m: BoardCell, by: int) -> Store {
        let r = p.row as int;
        let c = p.col as int;
        Store {
            board: self.board.update(r, self.board[r].update(c, mark)),
            row_pos: if m == BoardCell::Positive {
                bumped(self.row_pos, r, by)
            } else {
                self.row_pos
            },
            row_neg: if m == BoardCell::Negative {
                bumped(self.row_neg, r, by)
            } else {
                self.row_neg
            },
            col_pos: if m == BoardCell::Positive {
                bumped(self.col_pos, c, by)
            } else {
                self.col_pos
            },
            col_neg: if m == BoardCell::Negative {
                bumped(self.col_neg, c, by)
            } else {
                self.col_neg
            },
        }
    }

    /// The store after the cell `p` has received the mark `m`: the cell holds
    /// `m`, and a positive or negative `m` is counted once in the row and once
    /// in the column of `p`.
    pub open spec fn with_pole(self, p: Point, m: BoardCell) -> Store {
        self.adjusted(p, m, m, 1)
    }

    /// The store after the mark `m` has been taken from the cell `p`: the cell
    /// is unmarked, and a positive or negative `m` is counted once less in the
    /// row and in the column of `p`.
    pub open spec fn without_pole(self, p: Point, m: BoardCell) -> Store {
        self.adjusted(p, BoardCell::Unassigned, m, -1)
    }

    /// The store after a domino with poles `head` and `tail` has been given the
    /// orientation `v`.
    pub open spec fn placed(self, head: Point, tail: Point, v: Value) -> Store {
        self.with_pole(head, charge(v, 0)).with_pole(tail, charge(v, 1))
    }

    /// The store after the orientation `v` has been taken back from a domino
    /// with poles `head` and `tail`.
    pub open spec fn lifted(self, head: Point, tail: Point, v: Value) -> Store {
        self.without_pole(head, charge(v, 0)).without_pole(tail, charge(v, 1))
    }
}

/// Replacing one cell changes the count of a mark by what the cell loses and
/// gains.
pub proof fn lemma_count_of_update(s: Seq<BoardCell>, i: int, m: BoardCell, k: BoardCell)
    requires
        0 <= i < s.len(),
    ensures
        count_of(s.update(i, m), k) == count_of(s, k) - (if s[i] == k {
            1int
        } else {
            0int
        }) + (if m == k {
            1int
        } else {
            0int
        }),
    decreases s.len(),
{
    let t = s.update(i, m);
    if i == s.len() - 1 {
        assert(t.drop_last() == s.drop_last());
    } else {
        assert(t.drop_last() == s.drop_last().update(i, m));
        lemma_count_of_update(s.drop_last(), i, m, k);
    }
}

/// No more cells carry a mark than there are cells, and one fewer where some
/// cell carries another mark.
pub proof fn lemma_count_of_bound(s: Seq<BoardCell>, k: BoardCell)
    ensures
        count_of(s, k) <= s.len(),
        forall|i: int| 0 <= i < s.len() && s[i] != k ==> count_of(s, k) < s.len(),
        forall|i: int| 0 <= i < s.len() && s[i] == k ==> count_of(s, k) > 0,
    decreases s.len(),
{
    if s.len() > 0 {
        lemma_count_of_bound(s.drop_last(), k);
        assert forall|i: int| 0 <= i < s.len() && s[i] != k implies count_of(s, k) < s.len() by {
            if i < s.len() - 1 {
                assert(s.drop_last()[i] == s[i]);
            }
        }
        assert forall|i: int| 0 <= i < s.len() && s[i] == k implies count_of(s, k) > 0 by {
            if i < s.len() - 1 {
                assert(s.drop_last()[i] == s[i]);
            }
        }
    }
}

/// Taking back what was just placed restores the store exactly: the marks of
/// the board and all four counter arrays are as before, for every orientation.
pub proof fn lemma_unassign_undoes_assign(s: Store, head: Point, tail: Point, v: Value)
    requires
        s.holds(head),
        s.holds(tail),
        s.board[head.row as int][head.col as int] == BoardCell::Unassigned,
        s.board[tail.row as int][tail.col as int] == BoardCell::Unassigned,
    ensures
        s.placed(head, tail, v).lifted(head, tail, v) == s,
{
    let t = s.placed(head, tail, v).lifted(head, tail, v);
    assert(t.row_pos =~= s.row_pos);
    assert(t.row_neg =~= s.row_neg);
    assert(t.col_pos =~= s.col_pos);
    assert(t.col_neg =~= s.col_neg);
    assert(t.board =~= s.board) by {
        assert forall|r: int| 0 <= r < s.board.len() implies t.board[r] =~= s.board[r] by {}
    }
}

impl CSP {
    /// Whether the marks of this state are those of `before`, except that the
    /// cell `head` holds `m0` and the cell `tail` holds `m1`.
    pub open spec fn marks_changed_at(
        &self,
        before: &CSP,
        head: Point,
        m0: BoardCell,
        tail: Point,
        m1: BoardCell,
    ) -> bool {
        forall|r: int, c: int|
            self.in_grid(r, c) ==> #[trigger] self.mark(r, c) == if r == tail.row && c == tail.col {
                m1
            } else if r == head.row && c == head.col {
                m0
            } else {
                before.mark(r, c)
            }
    }

    /// Two states of one puzzle with equal stores have the same marks in
    /// every cell, row and column.
    pub proof fn lemma_same_store(&self, other: &CSP)
        requires
            self.grid_wf(),
            other.grid_wf(),
            self.same_puzzle(other),
            self.store() == other.store(),
        ensures
            forall|r: int, c: int| self.in_grid(r, c) ==> self.mark(r, c) == other.mark(r, c),
            forall|r: int| 0 <= r < self.row_size ==> self.row_marks(r) == other.row_marks(r),
            forall|c: int| 0 <= c < self.col_size ==> self.col_marks(c) == other.col_marks(c),
    {
        assert forall|r: int| 0 <= r < self.row_size implies self.row_marks(r) == other.row_marks(
            r,
        ) by {
            assert(self.store().board[r] == self.board@[r]@);
            assert(other.store().board[r] == other.board@[r]@);
        }
        assert forall|c: int| 0 <= c < self.col_size implies self.col_marks(c) == other.col_marks(
            c,
        ) by {
            assert forall|r: int| 0 <= r < self.row_size implies self.col_marks(c)[r]
                == other.col_marks(c)[r] by {
                assert(self.row_marks(r) == other.row_marks(r));
            }
            assert(self.col_marks(c) =~= other.col_marks(c));
        }
        assert forall|r: int, c: int| self.in_grid(r, c) implies self.mark(r, c) == other.mark(
            r,
            c,
        ) by {
            assert(self.row_marks(r) == other.row_marks(r));
        }
    }

    /// The mutable part of the engine.
    pub open spec fn store(&self) -> Store {
        Store {
            board: grid(self.board@),
            row_pos: Seq::new(
                self.curr_row_pos_poles@.len(),
                |i: int| self.curr_row_pos_poles@[i] as int,
            ),
            row_neg: Seq::new(
                self.curr_row_neg_poles@.len(),
                |i: int| self.curr_row_neg_poles@[i] as int,
            ),
            col_pos: Seq::new(
                self.curr_col_pos_poles@.len(),
                |i: int| self.curr_col_pos_poles@[i] as int,
            ),
            col_neg: Seq::new(
                self.curr_col_neg_poles@.len(),
                |i: int| self.curr_col_neg_poles@[i] as int,
            ),
        }
    }

    /// The mark on the cell `(row, col)`, for display.
    pub fn cell_mark(&self, row: usize, col: usize) -> (m: BoardCell)
        requires
            self.grid_wf(),
            self.in_grid(row as int, col as int),
        ensures
            m == self.mark(row as int, col as int),
    {
        self.board[row][col]
    }

    /// Writes the mark `m` into the unmarked cell `p` and counts it.
    fn mark_pole(&mut self, p: Point, m: BoardCell)
        requires
            old(self).wf(),
            old(self).in_grid(p.row as int, p.col as int),
            old(self).mark(p.row as int, p.col as int) == BoardCell::Unassigned,
        ensures
            final(self).wf(),
            final(self).same_puzzle(old(self)),
            final(self).store() == old(self).store().with_pole(p, m),
    {
        let r = p.row;
        let c = p.col;
        proof {
            lemma_count_of_update(self.row_marks(r as int), c as int, m, BoardCell::Positive);
            lemma_count_of_update(self.row_marks(r as int), c as int, m, BoardCell::Negative);
            lemma_count_of_update(self.col_marks(c as int), r as int, m, BoardCell::Positive);
            lemma_count_of_update(self.col_marks(c as int), r as int, m, BoardCell::Negative);
            lemma_count_of_bound(self.row_marks(r as int).update(c as int, m), BoardCell::Positive);
            lemma_count_of_bound(self.row_marks(r as int).update(c as int, m), BoardCell::Negative);
            lemma_count_of_bound(self.col_marks(c as int).update(r as int, m), BoardCell::Positive);
            lemma_count_of_bound(self.col_marks(c as int).update(r as int, m), BoardCell::Negative);
        }
        self.board[r][c] = m;
        if m == BoardCell::Positive {
            self.curr_row_pos_poles[r] += 1;
            self.curr_col_pos_poles[c] += 1;
        } else if m == BoardCell::Negative {
            self.curr_row_neg_poles[r] += 1;
            self.curr_col_neg_poles[c] += 1;
        }
        proof {
            self.lemma_marks_after_write(old(self), r as int, c as int, m);
            self.lemma_wf_after_write(old(self), r as int, c as int);
            assert(self.store().board =~= old(self).store().with_pole(p, m).board) by {
                assert forall|i: int| 0 <= i < self.row_size implies self.store().board[i]
                    =~= old(self).store().with_pole(p, m).board[i] by {}
            }
            assert(self.store().row_pos =~= old(self).store().with_pole(p, m).row_pos);
            assert(self.store().row_neg =~= old(self).store().with_pole(p, m).row_neg);
            assert(self.store().col_pos =~= old(self).store().with_pole(p, m).col_pos);
            assert(self.store().col_neg =~= old(self).store().with_pole(p, m).col_neg);
        }
    }

    /// Takes the mark `m` from the cell `p` and stops counting it.
    fn clear_pole(&mut self, p: Point, m: BoardCell)
        requires
            old(self).wf(),
            old(self).in_grid(p.row as int, p.col as int),
            old(self).mark(p.row as int, p.col as int) == m,
        ensures
            final(self).wf(),
            final(self).same_puzzle(old(self)),
            final(self).store() == old(self).store().without_pole(p, m),
    {
        let r = p.row;
        let c = p.col;
        let blank = BoardCell::Unassigned;
        proof {
            lemma_count_of_update(self.row_marks(r as int), c as int, blank, BoardCell::Positive);
            lemma_count_of_update(self.row_marks(r as int), c as int, blank, BoardCell::Negative);
            lemma_count_of_update(self.col_marks(c as int), r as int, blank, BoardCell::Positive);
            lemma_count_of_update(self.col_marks(c as int), r as int, blank, BoardCell::Negative);
            lemma_count_of_bound(self.row_marks(r as int), BoardCell::Positive);
            lemma_count_of_bound(self.row_marks(r as int), BoardCell::Negative);
            lemma_count_of_bound(self.col_marks(c as int), BoardCell::Positive);
            lemma_count_of_bound(self.col_marks(c as int), BoardCell::Negative);
            assert(self.col_marks(c as int)[r as int] == m);
        }
        self.board[r][c] = blank;
        if m == BoardCell::Positive {
            self.curr_row_pos_poles[r] -= 1;
            self.curr_col_pos_poles[c] -= 1;
        } else if m == BoardCell::Negative {
            self.curr_row_neg_poles[r] -= 1;
            self.curr_col_neg_poles[c] -= 1;
        }
        proof {
            self.lemma_marks_after_write(old(self), r as int, c as int, blank);
            self.lemma_wf_after_write(old(self), r as int, c as int);
            assert(self.store().board =~= old(self).store().without_pole(p, m).board) by {
                assert forall|i: int| 0 <= i < self.row_size implies self.store().board[i]
                    =~= old(self).store().without_pole(p, m).board[i] by {}
            }
            assert(self.store().row_pos =~= old(self).store().without_pole(p, m).row_pos);
            assert(self.store().row_neg =~= old(self).store().without_pole(p, m).row_neg);
            assert(self.store().col_pos =~= old(self).store().without_pole(p, m).col_pos);
            assert(self.store().col_neg =~= old(self).store().without_pole(p, m).col_neg);
        }
    }

    /// How the rows and columns of marks change when one cell is written.
    proof fn lemma_marks_after_write(&self, before: &CSP, r: int, c: int, m: BoardCell)
        requires
            before.grid_wf(),
            before.in_grid(r, c),
            self.row_size == before.row_size,
            self.col_size == before.col_size,
            self.board@.len() == before.board@.len(),
            self.board@[r]@ == before.board@[r]@.update(c, m),
            forall|i: int| 0 <= i < before.row_size && i != r ==> self.board@[i]@ == before.board@[i]@,
        ensures
            self.row_marks(r) == before.row_marks(r).update(c, m),
            self.col_marks(c) == before.col_marks(c).update(r, m),
            forall|i: int| 0 <= i < before.row_size && i != r ==> self.row_marks(i) == before.row_marks(i),
            forall|j: int| 0 <= j < before.col_size && j != c ==> self.col_marks(j) == before.col_marks(j),
    {
        assert(self.col_marks(c) =~= before.col_marks(c).update(r, m));
        assert forall|j: int| 0 <= j < before.col_size && j != c implies self.col_marks(j)
            == before.col_marks(j) by {
            assert(self.col_marks(j) =~= before.col_marks(j));
        }
    }

    /// A state whose counters match its marks is well formed if it differs
    /// from a well-formed state only in one row of the board and in counters.
    proof fn lemma_wf_after_write(&self, before: &CSP, r: int, c: int)
        requires
            before.wf(),
            before.in_grid(r, c),
            self.same_puzzle(before),
            self.board@.len() == before.board@.len(),
            self.board@[r]@.len() == before.board@[r]@.len(),
            forall|i: int| 0 <= i < before.row_size && i != r ==> self.board@[i]@ == before.board@[i]@,
            self.curr_row_pos_poles@.len() == before.row_size,
            self.curr_row_neg_poles@.len() == before.row_size,
            self.curr_col_pos_poles@.len() == before.col_size,
            self.curr_col_neg_poles@.len() == before.col_size,
            self.counters_wf(),
        ensures
            self.wf(),
    {
        assert forall|i: int| 0 <= i < self.row_size implies (#[trigger] self.board@[i])@.len()
            == self.col_size by {
            assert(before.board@[i]@.len() == before.col_size);
        }
        assert forall|i: int| 0 <= i < self.variables@.len() implies #[trigger] self.domino_wf(
            i,
        ) by {
            assert(before.domino_wf(i));
        }
    }

    /// Gives domino `var_index` the orientation `value`, if both of its cells
    /// are still unmarked: writes the two marks, counts them, and records the
    /// value in `assignment`. Returns whether it did.
    pub fn assign(&mut self, value: Value, var_index: usize, assignment: &mut Assignment) -> (applied:
        bool)
        requires
            old(self).wf(),
            var_index < old(self).variables@.len(),
            old(assignment)@.len() == old(self).variables@.len(),
        ensures
            final(self).wf(),
            final(self).same_puzzle(old(self)),
            applied == (value != Value::Unassigned && old(self).pole_mark(var_index as int, 0)
                == BoardCell::Unassigned && old(self).pole_mark(var_index as int, 1)
                == BoardCell::Unassigned),
            applied ==> final(self).store() == old(self).store().placed(
                old(self).pole(var_index as int, 0),
                old(self).pole(var_index as int, 1),
                value,
            ),
            applied ==> final(assignment)@ == old(assignment)@.update(var_index as int, value),
            applied ==> final(self).marks_changed_at(
                old(self),
                old(self).pole(var_index as int, 0),
                charge(value, 0),
                old(self).pole(var_index as int, 1),
                charge(value, 1),
            ),
            !applied ==> *final(self) == *old(self),
            !applied ==> *final(assignment) == *old(assignment),
    {
        assert(self.domino_wf(var_index as int));
        let head = self.variables[var_index].poles[0];
        let tail = self.variables[var_index].poles[1];
        if self.board[head.row][head.col] != BoardCell::Unassigned || self.board[tail.row][tail.col]
            != BoardCell::Unassigned {
            return false;
        }
        let (first, second) = match value {
            Value::Pole1PositivePole2Negative => (BoardCell::Positive, BoardCell::Negative),
            Value::Pole2PositivePole1Negative => (BoardCell::Negative, BoardCell::Positive),
            Value::Empty => (BoardCell::Empty, BoardCell::Empty),
            Value::Unassigned => {
                return false;
            },
        };
        self.mark_pole(head, first);
        assert(self.mark(tail.row as int, tail.col as int) == BoardCell::Unassigned) by {
            assert(self.store().board[tail.row as int][tail.col as int] == BoardCell::Unassigned);
        }
        let ghost mid = *self;
        self.mark_pole(tail, second);
        proof {
            assert forall|r: int, c: int| self.in_grid(r, c) implies #[trigger] self.mark(r, c)
                == if r == tail.row && c == tail.col {
                second
            } else if r == head.row && c == head.col {
                first
            } else {
                old(self).mark(r, c)
            } by {
                assert(self.store().board[r][c] == self.mark(r, c));
                assert(mid.store().board[r][c] == mid.mark(r, c));
                assert(old(self).store().board[r][c] == old(self).mark(r, c));
            }
        }
        assignment[var_index] = value;
        true
    }

    /// Takes the orientation `value` back from domino `var_index`: unmarks its
    /// two cells, stops counting their charges, and records the domino as
    /// undecided. `value` has to be the orientation that the cells carry.
    pub fn unassign(&mut self, value: Value, var_index: usize, assignment: &mut Assignment)
        requires
            old(self).wf(),
            var_index < old(self).variables@.len(),
            old(assignment)@.len() == old(self).variables@.len(),
            old(self).pole_mark(var_index as int, 0) == charge(value, 0),
            old(self).pole_mark(var_index as int, 1) == charge(value, 1),
        ensures
            final(self).wf(),
            final(self).same_puzzle(old(self)),
            final(self).store() == old(self).store().lifted(
                old(self).pole(var_index as int, 0),
                old(self).pole(var_index as int, 1),
                value,
            ),
            final(assignment)@ == old(assignment)@.update(var_index as int, Value::Unassigned),
            final(self).marks_changed_at(
                old(self),
                old(self).pole(var_index as int, 0),
                BoardCell::Unassigned,
                old(self).pole(var_index as int, 1),
                BoardCell::Unassigned,
            ),
    {
        assert(self.domino_wf(var_index as int));
        let head = self.variables[var_index].poles[0];
        let tail = self.variables[var_index].poles[1];
        let (first, second) = match value {
            Value::Pole1PositivePole2Negative => (BoardCell::Positive, BoardCell::Negative),
            Value::Pole2PositivePole1Negative => (BoardCell::Negative, BoardCell::Positive),
            Value::Empty => (BoardCell::Empty, BoardCell::Empty),
            Value::Unassigned => (BoardCell::Unassigned, BoardCell::Unassigned),
        };
        self.clear_pole(head, first);
        assert(self.mark(tail.row as int, tail.col as int) == second) by {
            assert(self.store().board[tail.row as int][tail.col as int] == second);
        }
        let ghost mid = *self;
        self.clear_pole(tail, second);
        proof {
            assert forall|r: int, c: int| self.in_grid(r, c) implies #[trigger] self.mark(r, c)
                == if r == tail.row && c == tail.col {
                BoardCell::Unassigned
            } else if r == head.row && c == head.col {
                BoardCell::Unassigned
            } else {
                old(self).mark(r, c)
            } by {
                assert(self.store().board[r][c] == self.mark(r, c));
                assert(mid.store().board[r][c] == mid.mark(r, c));
                assert(old(self).store().board[r][c] == old(self).mark(r, c));
            }
        }
        assignment[var_index] = Value::Unassigned;
    }
}

} // verus!
