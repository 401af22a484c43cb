//! The consistency checker: whether the board still obeys the charge rule and
//! the quotas around a domino that was just assigned.

use crate::csp::{all_marked, BoardCell, Point, VariableIndex, CSP};
use vstd::prelude::*;

verus! {

impl CSP {
    /// Whether no cell of row `r` is unmarked.
    pub open spec fn row_full(&self, r: int) -> bool {
        all_marked(self.row_marks(r))
    }

    /// Whether no cell of column `c` is unmarked.
    pub open spec fn col_full(&self, c: int) -> bool {
        all_marked(self.col_marks(c))
    }

    /// The quota rule for row `r`: a row without unmarked cells meets both
    /// targets exactly, any other row exceeds neither.
    pub open spec fn row_quota_ok(&self, r: int) -> bool {
        let pos = self.row_count(r, BoardCell::Positive);
        let neg = self.row_count(r, BoardCell::Negative);
        if self.row_full(r) {
            pos == self.row_pos_poles@[r] && neg == self.row_neg_poles@[r]
        } else {
            pos <= self.row_pos_poles@[r] && neg <= self.row_neg_poles@[r]
        }
    }

    /// The quota rule for column `c`: a column without unmarked cells meets
    /// both targets exactly, any other column exceeds neither.
    pub open spec fn col_quota_ok(&self, c: int) -> bool {
        let pos = self.col_count(c, BoardCell::Positive);
        let neg = self.col_count(c, BoardCell::Negative);
        if self.col_full(c) {
            pos == self.col_pos_poles@[c] && neg == self.col_neg_poles@[c]
        } else {
            pos <= self.col_pos_poles@[c] && neg <= self.col_neg_poles@[c]
        }
    }

    /// Whether the cell `(r, c)` lies on the grid and carries the mark `m`.
    pub open spec fn holds_mark(&self, r: int, c: int, m: BoardCell) -> bool {
        self.in_grid(r, c) && self.mark(r, c) == m
    }

    /// Whether one of the up to four grid neighbours of `(r, c)` carries the
    /// mark `m`.
    pub open spec fn has_neighbor_marked(&self, r: int, c: int, m: BoardCell) -> bool {
        ||| self.holds_mark(r + 1, c, m)
        ||| self.holds_mark(r - 1, c, m)
        ||| self.holds_mark(r, c + 1, m)
        ||| self.holds_mark(r, c - 1, m)
    }

    /// The charge rule at `(r, c)`: a positive cell has no positive
    /// neighbour and a negative cell no negative one.
    pub open spec fn pole_sign_ok(&self, r: int, c: int) -> bool {
        let m = self.mark(r, c);
        (m == BoardCell::Positive || m == BoardCell::Negative) ==> !self.has_neighbor_marked(
            r,
            c,
            m,
        )
    }

    /// What the consistency checker decides for domino `i`: the charge rule
    /// at both poles, and the quota rule for the rows and columns of both.
    pub open spec fn consistent_at(&self, i: int) -> bool {
        let head = self.pole(i, 0);
        let tail = self.pole(i, 1);
        &&& self.pole_sign_ok(head.row as int, head.col as int)
        &&& self.pole_sign_ok(tail.row as int, tail.col as int)
        &&& self.row_quota_ok(head.row as int)
        &&& self.row_quota_ok(tail.row as int)
        &&& self.col_quota_ok(head.col as int)
        &&& self.col_quota_ok(tail.col as int)
    }

    /// Whether `count` meets `target` exactly (when `exact`) or does not
    /// exceed it.
    fn within(count: usize, target: i32, exact: bool) -> (res: bool)
        ensures
            res == if exact {
                count == target
            } else {
                count <= target
            },
    {
        if target < 0 {
            false
        } else {
            let t = target as usize;
            if exact {
                count == t
            } else {
                count <= t
            }
        }
    }

    /// Whether no cell of row `r` is unmarked.
    fn row_is_full(&self, r: usize) -> (res: bool)
        requires
            self.wf(),
            r < self.row_size,
        ensures
            res == self.row_full(r as int),
    {
        let mut c: usize = 0;
        while c < self.col_size
            invariant
                self.wf(),
                r < self.row_size,
                c <= self.col_size,
                forall|k: int| 0 <= k < c ==> self.row_marks(r as int)[k] != BoardCell::Unassigned,
            decreases self.col_size - c,
        {
            if self.board[r][c] == BoardCell::Unassigned {
                return false;
            }
            c += 1;
        }
        true
    }

    /// Whether no cell of column `c` is unmarked.
    fn col_is_full(&self, c: usize) -> (res: bool)
        requires
            self.wf(),
            c < self.col_size,
        ensures
            res == self.col_full(c as int),
    {
        let mut r: usize = 0;
        while r < self.row_size
            invariant
                self.wf(),
                c < self.col_size,
                r <= self.row_size,
                forall|k: int| 0 <= k < r ==> self.col_marks(c as int)[k] != BoardCell::Unassigned,
            decreases self.row_size - r,
        {
            if self.board[r][c] == BoardCell::Unassigned {
                assert(self.col_marks(c as int)[r as int] == BoardCell::Unassigned);
                return false;
            }
            r += 1;
        }
        true
    }

    /// Whether row `r` obeys its quota.
    fn row_within_quota(&self, r: usize) -> (res: bool)
        requires
            self.wf(),
            r < self.row_size,
        ensures
            res == self.row_quota_ok(r as int),
    {
        let full = self.row_is_full(r);
        Self::within(self.curr_row_pos_poles[r], self.row_pos_poles[r], full) && Self::within(
            self.curr_row_neg_poles[r],
            self.row_neg_poles[r],
            full,
        )
    }

    /// Whether column `c` obeys its quota.
    fn col_within_quota(&self, c: usize) -> (res: bool)
        requires
            self.wf(),
            c < self.col_size,
        ensures
            res == self.col_quota_ok(c as int),
    {
        let full = self.col_is_full(c);
        Self::within(self.curr_col_pos_poles[c], self.col_pos_poles[c], full) && Self::within(
            self.curr_col_neg_poles[c],
            self.col_neg_poles[c],
            full,
        )
    }

    /// Whether the charge on `cell` differs from the charges on all of its
    /// grid neighbours. A cell without a charge always passes.
    pub fn check_neighbors_pole_sign_constraint(&self, cell: &Point) -> (res: bool)
        requires
            self.wf(),
            self.in_grid(cell.row as int, cell.col as int),
        ensures
            res == self.pole_sign_ok(cell.row as int, cell.col as int),
    {
        let m = self.board[cell.row][cell.col];
        if m != BoardCell::Positive && m != BoardCell::Negative {
            return true;
        }
        if cell.row + 1 < self.row_size && self.board[cell.row + 1][cell.col] == m {
            return false;
        }
        if cell.row >= 1 && self.board[cell.row - 1][cell.col] == m {
            return false;
        }
        if cell.col + 1 < self.col_size && self.board[cell.row][cell.col + 1] == m {
            return false;
        }
        if cell.col >= 1 && self.board[cell.row][cell.col - 1] == m {
            return false;
        }
        true
    }

    /// Whether the board is still consistent around the domino `var_index`
    /// that was just assigned. Does not change the state.
    pub fn is_consistent(&self, var_index: VariableIndex) -> (res: bool)
        requires
            self.wf(),
            var_index < self.variables@.len(),
        ensures
            res == self.consistent_at(var_index as int),
    {
        assert(self.domino_wf(var_index as int));
        let head = self.variables[var_index].poles[0];
        let tail = self.variables[var_index].poles[1];
        if !self.check_neighbors_pole_sign_constraint(&head) {
            return false;
        }
        if !self.check_neighbors_pole_sign_constraint(&tail) {
            return false;
        }
        if !self.row_within_quota(head.row) {
            return false;
        }
        if tail.row != head.row && !self.row_within_quota(tail.row) {
            return false;
        }
        if !self.col_within_quota(head.col) {
            return false;
        }
        if tail.col != head.col && !self.col_within_quota(tail.col) {
            return false;
        }
        true
    }
}

} // verus!
