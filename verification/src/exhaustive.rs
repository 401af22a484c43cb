//! Why the search is exhaustive: no step of it discards a solution.

use crate::csp::{
    all_marked, charge, count_of, BoardCell, Constraint, ConstraintArc, Point, Value, CSP,
};
use crate::revise::{line_conflict, pole_conflict, total_size};
use crate::search::{is_lcv_order, lists};
use crate::solution::{extends, within};
use crate::store::lemma_count_of_update;
use vstd::prelude::*;

verus! {

/// Whether `upper` carries every mark of `lower` in the same place.
pub open spec fn below(lower: Seq<BoardCell>, upper: Seq<BoardCell>) -> bool {
    &&& lower.len() == upper.len()
    &&& forall|i: int|
        0 <= i < lower.len() && lower[i] != BoardCell::Unassigned ==> upper[i] == lower[i]
}

/// More marks never lower the count of a magnetic charge.
pub proof fn lemma_count_below(lower: Seq<BoardCell>, upper: Seq<BoardCell>, k: BoardCell)
    requires
        below(lower, upper),
        k != BoardCell::Unassigned,
    ensures
        count_of(lower, k) <= count_of(upper, k),
    decreases lower.len(),
{
    if lower.len() > 0 {
        assert(below(lower.drop_last(), upper.drop_last())) by {
            assert forall|i: int|
                0 <= i < lower.drop_last().len() && lower.drop_last()[i]
                    != BoardCell::Unassigned implies upper.drop_last()[i] == lower.drop_last()[i] by {
                assert(lower[i] == lower.drop_last()[i]);
            }
        }
        lemma_count_below(lower.drop_last(), upper.drop_last(), k);
    }
}

/// A line without unmarked cells equals every line that carries its marks.
pub proof fn lemma_full_below(lower: Seq<BoardCell>, upper: Seq<BoardCell>)
    requires
        below(lower, upper),
        all_marked(lower),
    ensures
        lower == upper,
{
    assert(lower =~= upper);
}

/// `s` with position `p` set to `m`, if `s` has a position `p`.
pub open spec fn set_at(s: Seq<BoardCell>, p: int, m: BoardCell) -> Seq<BoardCell> {
    if 0 <= p < s.len() {
        s.update(p, m)
    } else {
        s
    }
}

/// 1 if `s` has a position `p` that carries `k`, else 0.
pub open spec fn has_at(s: Seq<BoardCell>, p: int, k: BoardCell) -> int {
    if 0 <= p < s.len() && s[p] == k {
        1
    } else {
        0
    }
}

/// Setting one position changes the count by what the position loses and
/// gains.
pub proof fn lemma_count_set_at(s: Seq<BoardCell>, p: int, m: BoardCell, k: BoardCell)
    ensures
        count_of(set_at(s, p, m), k) == count_of(s, k) - has_at(s, p, k) + has_at(
            set_at(s, p, m),
            p,
            k,
        ),
{
    if 0 <= p < s.len() {
        lemma_count_of_update(s, p, m, k);
    }
}

/// A line that lacks exactly one `k` beside two of its cells cannot take a
/// `k` in both of them without exceeding the target.
pub proof fn lemma_line_one_missing(
    lower: Seq<BoardCell>,
    upper: Seq<BoardCell>,
    i: int,
    j: int,
    k: BoardCell,
    target: int,
)
    requires
        below(lower, upper),
        0 <= i < lower.len(),
        0 <= j < lower.len(),
        i != j,
        k == BoardCell::Positive || k == BoardCell::Negative,
        upper[i] == k,
        upper[j] == k,
        target - (count_of(lower, k) - has_at(lower, i, k) - has_at(lower, j, k)) == 1,
    ensures
        count_of(upper, k) > target,
{
    let s1 = lower.update(i, k);
    let s2 = s1.update(j, k);
    lemma_count_of_update(lower, i, k, k);
    lemma_count_of_update(s1, j, k, k);
    assert(below(s2, upper));
    lemma_count_below(s2, upper, k);
}

/// A line that lacks exactly two `k`, and in which only four cells may
/// still change, stays short of its target when these cells take at most one
/// `k` between them.
pub proof fn lemma_line_two_missing(
    lower: Seq<BoardCell>,
    upper: Seq<BoardCell>,
    i0: int,
    i1: int,
    j0: int,
    j1: int,
    k: BoardCell,
    target: int,
)
    requires
        lower.len() == upper.len(),
        forall|p: int|
            0 <= p < lower.len() && p != i0 && p != i1 && p != j0 && p != j1 ==> upper[p]
                == lower[p],
        has_at(upper, i0, k) + has_at(upper, i1, k) <= 1,
        has_at(upper, j0, k) == 0,
        has_at(upper, j1, k) == 0,
        count_of(lower, k) == target - 2,
    ensures
        count_of(upper, k) < target,
{
    let s1 = set_at(lower, i0, upper[i0]);
    let s2 = set_at(s1, i1, upper[i1]);
    let s3 = set_at(s2, j0, upper[j0]);
    let s4 = set_at(s3, j1, upper[j1]);
    lemma_count_set_at(lower, i0, upper[i0], k);
    lemma_count_set_at(s1, i1, upper[i1], k);
    lemma_count_set_at(s2, j0, upper[j0], k);
    lemma_count_set_at(s3, j1, upper[j1], k);
    assert(s4 =~= upper);
}

/// Whether two cells are side by side or one above the other.
pub open spec fn adjacent(p: Point, q: Point) -> bool {
    ||| (p.row == q.row && (p.col + 1 == q.col || q.col + 1 == p.col))
    ||| (p.col == q.col && (p.row + 1 == q.row || q.row + 1 == p.row))
}

impl CSP {
    /// Whether pruning along `arc` is justified by the puzzle: the arc joins
    /// two different dominoes, and the two poles of an adjacency arc are
    /// grid-adjacent.
    pub open spec fn arc_sound(&self, arc: ConstraintArc) -> bool {
        &&& self.arc_wf(arc)
        &&& arc.xi != arc.xj
        &&& arc.constraint matches Constraint::SignBased(pi, pj) ==> pi < 2 && pj < 2 && adjacent(
            self.pole(arc.xi as int, pi as int),
            self.pole(arc.xj as int, pj as int),
        )
    }

    /// Two grid-adjacent poles of two dominoes do not carry the same charge
    /// in a solution.
    pub proof fn lemma_sign_sound(
        &self,
        b: &CSP,
        s: Seq<Value>,
        xi: int,
        xj: int,
        pi: int,
        pj: int,
    )
        requires
            b.solved_by(s),
            0 <= xi < s.len(),
            0 <= xj < s.len(),
            0 <= pi < 2,
            0 <= pj < 2,
            adjacent(b.pole(xi, pi), b.pole(xj, pj)),
        ensures
            pole_conflict(s[xi], pi, pj) != Some(s[xj]),
    {
        if pole_conflict(s[xi], pi, pj) == Some(s[xj]) {
            self.lemma_like_charges_apart(b, s, xi, xj, pi, pj);
        }
    }

    /// Two grid-adjacent poles carry different marks in a solution unless
    /// neither carries a charge.
    proof fn lemma_like_charges_apart(
        &self,
        b: &CSP,
        s: Seq<Value>,
        xi: int,
        xj: int,
        pi: int,
        pj: int,
    )
        requires
            b.solved_by(s),
            0 <= xi < s.len(),
            0 <= xj < s.len(),
            0 <= pi < 2,
            0 <= pj < 2,
            adjacent(b.pole(xi, pi), b.pole(xj, pj)),
            charge(s[xi], pi) == BoardCell::Positive || charge(s[xi], pi) == BoardCell::Negative,
        ensures
            charge(s[xj], pj) != charge(s[xi], pi),
    {
        assert(b.domino_wf(xi));
        assert(b.domino_wf(xj));
        let p = b.pole(xi, pi);
        let q = b.pole(xj, pj);
        let m = charge(s[xi], pi);
        assert(s[xi] != Value::Unassigned && s[xj] != Value::Unassigned);
        assert(b.pole_mark(xi, pi) == m);
        assert(b.pole_sign_ok(p.row as int, p.col as int));
        if charge(s[xj], pj) == m {
            assert(b.pole_mark(xj, pj) == m);
            assert(b.holds_mark(q.row as int, q.col as int, m));
        }
    }

    /// A solution that keeps the decisions of `a` carries every mark of a
    /// board that agrees with `a`.
    pub proof fn lemma_marks_persist(&self, a: Seq<Value>, b: &CSP, s: Seq<Value>)
        requires
            self.wf(),
            self.agrees(a),
            b.same_layout(self),
            b.solved_by(s),
            extends(a, s),
        ensures
            forall|r: int, c: int|
                self.in_grid(r, c) && #[trigger] self.mark(r, c) != BoardCell::Unassigned
                    ==> b.mark(r, c) == self.mark(r, c),
            forall|r: int| 0 <= r < self.row_size ==> below(
                #[trigger] self.row_marks(r),
                b.row_marks(r),
            ),
            forall|c: int| 0 <= c < self.col_size ==> below(
                #[trigger] self.col_marks(c),
                b.col_marks(c),
            ),
    {
        assert forall|r: int, c: int|
            self.in_grid(r, c) && #[trigger] self.mark(r, c)
                != BoardCell::Unassigned implies b.mark(r, c) == self.mark(r, c) by {
            assert(self.in_decided(r, c, a));
            let i = choose|i: int|
                0 <= i < self.variables@.len() && a[i] != Value::Unassigned
                    && #[trigger] self.variables@[i].covers(r, c);
            assert(self.domino_wf(i));
            assert(s[i] == a[i]);
            assert(s[i] != Value::Unassigned);
            assert(self.pole_mark(i, 0) == charge(a[i], 0));
            assert(b.pole_mark(i, 0) == charge(s[i], 0));
            assert(self.pole_mark(i, 1) == charge(a[i], 1));
            assert(b.pole_mark(i, 1) == charge(s[i], 1));
        }
        assert forall|r: int| 0 <= r < self.row_size implies below(
            #[trigger] self.row_marks(r),
            b.row_marks(r),
        ) by {
            assert forall|i: int|
                0 <= i < self.row_marks(r).len() && self.row_marks(r)[i]
                    != BoardCell::Unassigned implies b.row_marks(r)[i] == self.row_marks(r)[i] by {
                assert(self.mark(r, i) != BoardCell::Unassigned);
            }
        }
        assert forall|c: int| 0 <= c < self.col_size implies below(
            #[trigger] self.col_marks(c),
            b.col_marks(c),
        ) by {
            assert forall|i: int|
                0 <= i < self.col_marks(c).len() && self.col_marks(c)[i]
                    != BoardCell::Unassigned implies b.col_marks(c)[i] == self.col_marks(c)[i] by {
                assert(self.mark(i, c) != BoardCell::Unassigned);
            }
        }
    }

    /// Where a solution keeps the decisions of `a`, the cells of a domino
    /// that `a` leaves undecided are unmarked on a board that agrees with `a`.
    pub proof fn lemma_undecided_is_free(&self, a: Seq<Value>, b: &CSP, s: Seq<Value>, x: int)
        requires
            self.wf(),
            self.agrees(a),
            b.same_layout(self),
            b.solved_by(s),
            extends(a, s),
            0 <= x < a.len(),
            a[x] == Value::Unassigned,
        ensures
            self.pole_mark(x, 0) == BoardCell::Unassigned,
            self.pole_mark(x, 1) == BoardCell::Unassigned,
    {
        assert(self.domino_wf(x));
        let head = self.pole(x, 0);
        let tail = self.pole(x, 1);
        if self.pole_mark(x, 0) != BoardCell::Unassigned {
            assert(self.mark(head.row as int, head.col as int) != BoardCell::Unassigned);
            assert(self.in_decided(head.row as int, head.col as int, a));
            let i = choose|i: int|
                0 <= i < self.variables@.len() && a[i] != Value::Unassigned
                    && #[trigger] self.variables@[i].covers(head.row as int, head.col as int);
            assert(s[i] == a[i]);
            assert(b.overlap(x, i));
        }
        if self.pole_mark(x, 1) != BoardCell::Unassigned {
            assert(self.mark(tail.row as int, tail.col as int) != BoardCell::Unassigned);
            assert(self.in_decided(tail.row as int, tail.col as int, a));
            let i = choose|i: int|
                0 <= i < self.variables@.len() && a[i] != Value::Unassigned
                    && #[trigger] self.variables@[i].covers(tail.row as int, tail.col as int);
            assert(s[i] == a[i]);
            assert(b.overlap(x, i));
        }
    }

    /// A board that agrees with part of a solution passes the consistency
    /// check at every decided domino.
    pub proof fn lemma_solution_passes_check(&self, a: Seq<Value>, b: &CSP, s: Seq<Value>, x: int)
        requires
            self.wf(),
            self.agrees(a),
            b.same_layout(self),
            b.solved_by(s),
            extends(a, s),
            0 <= x < a.len(),
            a[x] != Value::Unassigned,
        ensures
            self.consistent_at(x),
    {
        self.lemma_marks_persist(a, b, s);
        assert(self.domino_wf(x));
        let head = self.pole(x, 0);
        let tail = self.pole(x, 1);
        assert(self.pole_mark(x, 0) == charge(a[x], 0));
        assert(self.pole_mark(x, 1) == charge(a[x], 1));
        self.lemma_sign_ok_from_solution(b, head.row as int, head.col as int);
        self.lemma_sign_ok_from_solution(b, tail.row as int, tail.col as int);
        self.lemma_row_ok_from_solution(b, head.row as int, head.col as int);
        self.lemma_row_ok_from_solution(b, tail.row as int, tail.col as int);
        self.lemma_col_ok_from_solution(b, head.row as int, head.col as int);
        self.lemma_col_ok_from_solution(b, tail.row as int, tail.col as int);
    }

    /// The charge rule holds at a cell of a board whose marks a valid board
    /// carries.
    proof fn lemma_sign_ok_from_solution(&self, b: &CSP, r: int, c: int)
        requires
            self.wf(),
            b.wf(),
            b.same_layout(self),
            b.board_valid(),
            self.in_grid(r, c),
            forall|r: int, c: int|
                self.in_grid(r, c) && #[trigger] self.mark(r, c) != BoardCell::Unassigned
                    ==> b.mark(r, c) == self.mark(r, c),
        ensures
            self.pole_sign_ok(r, c),
    {
        let m = self.mark(r, c);
        assert(b.pole_sign_ok(r, c));
        if m == BoardCell::Positive || m == BoardCell::Negative {
            if self.holds_mark(r + 1, c, m) {
                assert(b.holds_mark(r + 1, c, m));
            }
            if self.holds_mark(r - 1, c, m) {
                assert(b.holds_mark(r - 1, c, m));
            }
            if self.holds_mark(r, c + 1, m) {
                assert(b.holds_mark(r, c + 1, m));
            }
            if self.holds_mark(r, c - 1, m) {
                assert(b.holds_mark(r, c - 1, m));
            }
        }
    }

    /// The quota rule holds for the row of a marked cell of a board whose
    /// marks a valid board carries.
    proof fn lemma_row_ok_from_solution(&self, b: &CSP, r: int, c: int)
        requires
            self.wf(),
            b.wf(),
            b.same_layout(self),
            b.board_valid(),
            self.in_grid(r, c),
            self.mark(r, c) != BoardCell::Unassigned,
            below(self.row_marks(r), b.row_marks(r)),
        ensures
            self.row_quota_ok(r),
    {
        assert(b.mark(r, c) == self.mark(r, c)) by {
            assert(b.row_marks(r)[c] == self.row_marks(r)[c]);
        }
        assert(b.row_touched(r));
        assert(b.row_quota_ok(r));
        lemma_count_below(self.row_marks(r), b.row_marks(r), BoardCell::Positive);
        lemma_count_below(self.row_marks(r), b.row_marks(r), BoardCell::Negative);
        if self.row_full(r) {
            lemma_full_below(self.row_marks(r), b.row_marks(r));
        }
    }

    /// The quota rule holds for the column of a marked cell of a board whose
    /// marks a valid board carries.
    proof fn lemma_col_ok_from_solution(&self, b: &CSP, r: int, c: int)
        requires
            self.wf(),
            b.wf(),
            b.same_layout(self),
            b.board_valid(),
            self.in_grid(r, c),
            self.mark(r, c) != BoardCell::Unassigned,
            below(self.col_marks(c), b.col_marks(c)),
        ensures
            self.col_quota_ok(c),
    {
        assert(b.mark(r, c) == self.mark(r, c)) by {
            assert(b.col_marks(c)[r] == self.col_marks(c)[r]);
        }
        assert(b.col_touched(c));
        assert(b.col_quota_ok(c));
        lemma_count_below(self.col_marks(c), b.col_marks(c), BoardCell::Positive);
        lemma_count_below(self.col_marks(c), b.col_marks(c), BoardCell::Negative);
        if self.col_full(c) {
            lemma_full_below(self.col_marks(c), b.col_marks(c));
        }
    }

    /// The marks of row `l` (when `along_row`) or of column `l`.
    pub open spec fn axis_marks(&self, along_row: bool, l: int) -> Seq<BoardCell> {
        if along_row {
            self.row_marks(l)
        } else {
            self.col_marks(l)
        }
    }

    /// The target for the mark `k` in row `l` (when `along_row`) or in
    /// column `l`.
    pub open spec fn axis_target(&self, along_row: bool, l: int, k: BoardCell) -> int {
        if along_row {
            self.row_target(l, k)
        } else {
            self.col_target(l, k)
        }
    }

    /// How many `k` the line `l` still lacks beside the cells `p` and `q`.
    pub open spec fn axis_missing(
        &self,
        along_row: bool,
        l: int,
        k: BoardCell,
        p: Point,
        q: Point,
    ) -> int {
        if along_row {
            self.row_missing(l, k, p, q)
        } else {
            self.col_missing(l, k, p, q)
        }
    }

    /// Whether no third undecided domino has a cell in the line `l`.
    pub open spec fn axis_settled(
        &self,
        along_row: bool,
        l: int,
        xi: int,
        xj: int,
        a: Seq<Value>,
    ) -> bool {
        if along_row {
            self.row_settled(l, xi, xj, a)
        } else {
            self.col_settled(l, xi, xj, a)
        }
    }

    /// How many cells the line `l` has.
    pub open spec fn axis_len(&self, along_row: bool) -> int {
        if along_row {
            self.col_size as int
        } else {
            self.row_size as int
        }
    }

    /// The quota rule of a solved board at the line of one of its marked
    /// cells, in terms of the marks of the line.
    proof fn lemma_axis_quota(&self, along_row: bool, l: int, at: int)
        requires
            self.wf(),
            self.board_valid(),
            0 <= at < self.axis_len(along_row),
            0 <= l < self.axis_len(!along_row),
            self.axis_marks(along_row, l)[at] != BoardCell::Unassigned,
        ensures
            count_of(self.axis_marks(along_row, l), BoardCell::Positive) <= self.axis_target(
                along_row,
                l,
                BoardCell::Positive,
            ),
            count_of(self.axis_marks(along_row, l), BoardCell::Negative) <= self.axis_target(
                along_row,
                l,
                BoardCell::Negative,
            ),
            all_marked(self.axis_marks(along_row, l)) ==> count_of(
                self.axis_marks(along_row, l),
                BoardCell::Positive,
            ) == self.axis_target(along_row, l, BoardCell::Positive) && count_of(
                self.axis_marks(along_row, l),
                BoardCell::Negative,
            ) == self.axis_target(along_row, l, BoardCell::Negative),
    {
        if along_row {
            assert(self.mark(l, at) != BoardCell::Unassigned);
            assert(self.row_touched(l));
            assert(self.row_quota_ok(l));
        } else {
            assert(self.mark(at, l) != BoardCell::Unassigned);
            assert(self.col_touched(l));
            assert(self.col_quota_ok(l));
        }
    }

    /// With one `k` missing in a line beside two poles, a solution does not
    /// put a `k` on both.
    proof fn lemma_one_missing_sound(
        &self,
        a: Seq<Value>,
        b: &CSP,
        s: Seq<Value>,
        xi: int,
        xj: int,
        pi: int,
        pj: int,
        along_row: bool,
        k: BoardCell,
    )
        requires
            self.wf(),
            self.agrees(a),
            b.same_layout(self),
            b.solved_by(s),
            extends(a, s),
            0 <= xi < a.len(),
            0 <= xj < a.len(),
            xi != xj,
            0 <= pi < 2,
            0 <= pj < 2,
            k == BoardCell::Positive || k == BoardCell::Negative,
            along_row ==> self.pole(xi, pi).row == self.pole(xj, pj).row,
            !along_row ==> self.pole(xi, pi).col == self.pole(xj, pj).col,
            self.axis_missing(
                along_row,
                if along_row {
                    self.pole(xi, pi).row as int
                } else {
                    self.pole(xi, pi).col as int
                },
                k,
                self.pole(xi, pi),
                self.pole(xj, pj),
            ) == 1,
            charge(s[xi], pi) == k,
        ensures
            charge(s[xj], pj) != k,
    {
        let p = self.pole(xi, pi);
        let q = self.pole(xj, pj);
        assert(self.domino_wf(xi));
        assert(self.domino_wf(xj));
        self.lemma_marks_persist(a, b, s);
        let l = if along_row {
            p.row as int
        } else {
            p.col as int
        };
        let i = if along_row {
            p.col as int
        } else {
            p.row as int
        };
        let j = if along_row {
            q.col as int
        } else {
            q.row as int
        };
        let lower = self.axis_marks(along_row, l);
        let upper = b.axis_marks(along_row, l);
        if charge(s[xj], pj) == k {
            assert(s[xi] != Value::Unassigned && s[xj] != Value::Unassigned);
            assert(b.pole_mark(xi, pi) == k);
            assert(b.pole_mark(xj, pj) == k);
            assert(!b.overlap(xi, xj));
            assert(i != j);
            assert(below(lower, upper));
            assert(upper[i] == k);
            assert(upper[j] == k);
            assert(has_at(lower, i, k) == self.carries(p, k));
            assert(has_at(lower, j, k) == self.carries(q, k));
            lemma_line_one_missing(lower, upper, i, j, k, self.axis_target(along_row, l, k));
            b.lemma_axis_quota(along_row, l, i);
        }
    }

    /// The position of the cell `p` in the line `l`, or -1 if it is not in
    /// that line.
    pub open spec fn axis_position(along_row: bool, l: int, p: Point) -> int {
        if along_row {
            if p.row == l {
                p.col as int
            } else {
                -1
            }
        } else {
            if p.col == l {
                p.row as int
            } else {
                -1
            }
        }
    }

    /// In a solution every cell that has an owner is marked.
    proof fn lemma_owned_is_marked(&self, s: Seq<Value>, r: int, c: int)
        requires
            self.solved_by(s),
            self.in_grid(r, c),
            self.owner(r, c) is Some,
        ensures
            self.mark(r, c) != BoardCell::Unassigned,
    {
        let k = self.owner(r, c).unwrap();
        assert(self.domino_wf(k));
        assert(s[k] != Value::Unassigned);
        assert(self.pole_mark(k, 0) == charge(s[k], 0));
        assert(self.pole_mark(k, 1) == charge(s[k], 1));
    }

    /// With two `k` missing in a line in which only two dominoes are still
    /// open, a solution that puts a `k` on a pole of the one does not leave
    /// the other vacant.
    proof fn lemma_two_missing_sound(
        &self,
        a: Seq<Value>,
        b: &CSP,
        s: Seq<Value>,
        xi: int,
        xj: int,
        pi: int,
        pj: int,
        along_row: bool,
        k: BoardCell,
    )
        requires
            self.wf(),
            self.agrees(a),
            self.covered(),
            b.same_layout(self),
            b.solved_by(s),
            extends(a, s),
            0 <= xi < a.len(),
            0 <= xj < a.len(),
            xi != xj,
            a[xi] == Value::Unassigned,
            0 <= pi < 2,
            0 <= pj < 2,
            k == BoardCell::Positive || k == BoardCell::Negative,
            along_row ==> self.pole(xi, pi).row == self.pole(xj, pj).row,
            !along_row ==> self.pole(xi, pi).col == self.pole(xj, pj).col,
            self.axis_missing(
                along_row,
                if along_row {
                    self.pole(xi, pi).row as int
                } else {
                    self.pole(xi, pi).col as int
                },
                k,
                self.pole(xi, pi),
                self.pole(xj, pj),
            ) == 2,
            self.axis_settled(
                along_row,
                if along_row {
                    self.pole(xi, pi).row as int
                } else {
                    self.pole(xi, pi).col as int
                },
                xi,
                xj,
                a,
            ),
            charge(s[xi], pi) == k,
        ensures
            s[xj] != Value::Empty,
    {
        let p = self.pole(xi, pi);
        let q = self.pole(xj, pj);
        assert(self.domino_wf(xi));
        assert(self.domino_wf(xj));
        let l = if along_row {
            p.row as int
        } else {
            p.col as int
        };
        let lower = self.axis_marks(along_row, l);
        let upper = b.axis_marks(along_row, l);
        let i0 = Self::axis_position(along_row, l, self.pole(xi, 0));
        let i1 = Self::axis_position(along_row, l, self.pole(xi, 1));
        let j0 = Self::axis_position(along_row, l, self.pole(xj, 0));
        let j1 = Self::axis_position(along_row, l, self.pole(xj, 1));
        if s[xj] == Value::Empty {
            self.lemma_undecided_is_free(a, b, s, xi);
            assert(s[xi] != Value::Unassigned);
            assert(b.pole_mark(xi, 0) == charge(s[xi], 0));
            assert(b.pole_mark(xi, 1) == charge(s[xi], 1));
            assert(b.pole_mark(xj, 0) == BoardCell::Empty);
            assert(b.pole_mark(xj, 1) == BoardCell::Empty);
            if a[xj] == Value::Unassigned {
                self.lemma_undecided_is_free(a, b, s, xj);
            } else {
                assert(a[xj] == s[xj]);
                assert(self.pole_mark(xj, 0) == charge(a[xj], 0));
                assert(self.pole_mark(xj, 1) == charge(a[xj], 1));
            }
            assert(self.carries(p, k) == 0);
            assert(self.carries(q, k) == 0);
            assert(count_of(lower, k) == self.axis_target(along_row, l, k) - 2);
            assert forall|at: int|
                0 <= at < lower.len() && at != i0 && at != i1 && at != j0 && at != j1 implies upper[at]
                == lower[at] by {
                let r = if along_row {
                    l
                } else {
                    at
                };
                let c = if along_row {
                    at
                } else {
                    l
                };
                assert(self.in_grid(r, c));
                assert(self.owner(r, c) is Some);
                let o = self.owner(r, c).unwrap();
                assert(self.cell_settled(r, c, xi, xj, a));
                assert(self.domino_wf(o));
                assert(o != xi && o != xj);
                assert(a[o] != Value::Unassigned);
                assert(s[o] == a[o]);
                assert(self.pole_mark(o, 0) == charge(a[o], 0));
                assert(self.pole_mark(o, 1) == charge(a[o], 1));
                assert(b.pole_mark(o, 0) == charge(s[o], 0));
                assert(b.pole_mark(o, 1) == charge(s[o], 1));
                assert(upper[at] == b.mark(r, c));
                assert(lower[at] == self.mark(r, c));
            }
            assert(has_at(upper, i0, k) + has_at(upper, i1, k) <= 1);
            assert(has_at(upper, j0, k) == 0);
            assert(has_at(upper, j1, k) == 0);
            lemma_line_two_missing(
                lower,
                upper,
                i0,
                i1,
                j0,
                j1,
                k,
                self.axis_target(along_row, l, k),
            );
            assert(all_marked(upper)) by {
                assert forall|at: int| 0 <= at < upper.len() implies upper[at]
                    != BoardCell::Unassigned by {
                    let r = if along_row {
                        l
                    } else {
                        at
                    };
                    let c = if along_row {
                        at
                    } else {
                        l
                    };
                    assert(self.in_grid(r, c));
                    assert(self.owner(r, c) is Some);
                    assert(b.owner(r, c) == self.owner(r, c));
                    b.lemma_owned_is_marked(s, r, c);
                    assert(upper[at] == b.mark(r, c));
                }
            }
            let at = if along_row {
                p.col as int
            } else {
                p.row as int
            };
            b.lemma_axis_quota(along_row, l, at);
        }
    }

    /// The value that the quota of a shared line excludes is not the value
    /// that a solution gives to the source domino.
    pub proof fn lemma_quota_sound(
        &self,
        a: Seq<Value>,
        b: &CSP,
        s: Seq<Value>,
        xi: int,
        xj: int,
        pi: int,
        pj: int,
    )
        requires
            self.wf(),
            self.agrees(a),
            self.covered(),
            b.same_layout(self),
            b.solved_by(s),
            extends(a, s),
            0 <= xi < a.len(),
            0 <= xj < a.len(),
            xi != xj,
            a[xi] == Value::Unassigned,
            0 <= pi < 2,
            0 <= pj < 2,
        ensures
            self.quota_conflict(xi, xj, s[xi], pi, pj, a) != Some(s[xj]),
    {
        let p = self.pole(xi, pi);
        let q = self.pole(xj, pj);
        let v = s[xi];
        if self.quota_conflict(xi, xj, v, pi, pj, a) == Some(s[xj]) {
            let along_row = p.row == q.row;
            assert(along_row || p.col == q.col);
            let l = if along_row {
                p.row as int
            } else {
                p.col as int
            };
            let pm = self.axis_missing(along_row, l, BoardCell::Positive, p, q);
            let nm = self.axis_missing(along_row, l, BoardCell::Negative, p, q);
            let settled = self.axis_settled(along_row, l, xi, xj, a);
            assert(line_conflict(pm, nm, settled, v, pi, pj) == Some(s[xj]));
            if pm == 1 {
                self.lemma_one_missing_sound(a, b, s, xi, xj, pi, pj, along_row, BoardCell::Positive);
            } else if nm == 1 {
                self.lemma_one_missing_sound(a, b, s, xi, xj, pi, pj, along_row, BoardCell::Negative);
            } else if pm == 2 {
                self.lemma_two_missing_sound(a, b, s, xi, xj, pi, pj, along_row, BoardCell::Positive);
            } else if nm == 2 {
                self.lemma_two_missing_sound(a, b, s, xi, xj, pi, pj, along_row, BoardCell::Negative);
            }
        }
    }

    /// A revision along a sound arc keeps every solution: it is feasible,
    /// and the solution still takes every value from the revised domains.
    pub proof fn lemma_revised_keeps(
        &self,
        arc: ConstraintArc,
        domains: Seq<Seq<Value>>,
        a: Seq<Value>,
        b: &CSP,
        s: Seq<Value>,
    )
        requires
            self.wf(),
            self.agrees(a),
            self.covered(),
            self.arc_sound(arc),
            self.solves_from(b, s, a, domains),
            domains.len() == a.len(),
        ensures
            self.revised(arc, domains, a).0,
            within(s, self.revised(arc, domains, a).2),
    {
        let r = self.revised(arc, domains, a);
        let xi = arc.xi as int;
        let xj = arc.xj as int;
        self.lemma_revised(arc, domains, a);
        assert(domains[xi].contains(s[xi]));
        assert(domains[xj].contains(s[xj]));
        if a[xi] == Value::Unassigned {
            if self.prunes(arc, s[xi], domains, a) {
                let w = self.excluded_by(arc, s[xi], a).unwrap();
                assert(w != Value::Unassigned);
                if a[xj] == w {
                    assert(s[xj] == a[xj]);
                } else {
                    assert(domains[xj] == seq![w]);
                    let k = choose|k: int| 0 <= k < domains[xj].len() && domains[xj][k] == s[xj];
                    assert(seq![w][k] == w);
                }
                assert(s[xj] == w);
                match arc.constraint {
                    Constraint::SignBased(pi, pj) => {
                        self.lemma_sign_sound(b, s, xi, xj, pi as int, pj as int);
                    },
                    Constraint::LimitBased(pi, pj) => {
                        self.lemma_quota_sound(a, b, s, xi, xj, pi as int, pj as int);
                    },
                }
            }
            assert(r.2[xi].contains(s[xi]));
        }
        assert forall|i: int| 0 <= i < s.len() implies (#[trigger] r.2[i]).contains(s[i]) by {
            if i != xi {
                assert(domains[i].contains(s[i]));
            }
        }
    }

    /// Forward checking along sound arcs keeps every solution.
    pub proof fn lemma_forward_checked_keeps(
        &self,
        domains: Seq<Seq<Value>>,
        arcs: Seq<ConstraintArc>,
        a: Seq<Value>,
        b: &CSP,
        s: Seq<Value>,
    )
        requires
            self.wf(),
            self.agrees(a),
            self.covered(),
            forall|k: int| 0 <= k < arcs.len() ==> self.arc_sound(#[trigger] arcs[k]),
            self.solves_from(b, s, a, domains),
            domains.len() == a.len(),
        ensures
            self.forward_checked(domains, arcs, a).0,
            within(s, self.forward_checked(domains, arcs, a).1),
        decreases arcs.len(),
    {
        if arcs.len() > 0 {
            let r = self.revised(arcs.first(), domains, a);
            self.lemma_revised_keeps(arcs.first(), domains, a, b, s);
            self.lemma_revised(arcs.first(), domains, a);
            assert forall|k: int| 0 <= k < arcs.drop_first().len() implies self.arc_sound(
                #[trigger] arcs.drop_first()[k],
            ) by {
                assert(arcs.drop_first()[k] == arcs[k + 1]);
            }
            self.lemma_forward_checked_keeps(r.2, arcs.drop_first(), a, b, s);
        }
    }

    /// Every grid neighbour that the arc generator looks at is adjacent to
    /// the cell it started from.
    proof fn lemma_neighbors_adjacent(&self, p: Point, q: Point)
        requires
            self.in_grid(p.row as int, p.col as int),
        ensures
            forall|m: int|
                0 <= m < self.neighboring_cells(p, q).len() ==> adjacent(
                    #[trigger] self.neighboring_cells(p, q)[m],
                    p,
                ),
    {
    }

    /// Every arc that the generator makes is sound.
    pub proof fn lemma_arcs_of_sound(&self, var: int, a: Seq<Value>, except: int)
        requires
            self.wf(),
            0 <= var < self.variables@.len(),
        ensures
            forall|k: int|
                0 <= k < self.arcs_of(var, a, except).len() ==> self.arc_sound(
                    #[trigger] self.arcs_of(var, a, except)[k],
                ),
    {
        assert(self.domino_wf(var));
        let head = self.pole(var, 0);
        let tail = self.pole(var, 1);
        let n0 = self.neighboring_cells(head, tail);
        let l0 = self.limiting_cells(head, tail);
        let n1 = self.neighboring_cells(tail, head);
        let l1 = self.limiting_cells(tail, head);
        self.lemma_arcs_toward(n0, var, 0, false, a, except);
        self.lemma_arcs_toward(l0, var, 0, true, a, except);
        self.lemma_arcs_toward(n1, var, 1, false, a, except);
        self.lemma_arcs_toward(l1, var, 1, true, a, except);
        self.lemma_neighbors_adjacent(head, tail);
        self.lemma_neighbors_adjacent(tail, head);
        let a0 = self.arcs_toward(n0, var, 0, false, a, except);
        let b0 = self.arcs_toward(l0, var, 0, true, a, except);
        let a1 = self.arcs_toward(n1, var, 1, false, a, except);
        let b1 = self.arcs_toward(l1, var, 1, true, a, except);
        let all = self.arcs_of(var, a, except);
        assert(all == (a0 + b0) + (a1 + b1));
        assert forall|k: int| 0 <= k < all.len() implies self.arc_sound(#[trigger] all[k]) by {
            let arc = all[k];
            if k < a0.len() {
                assert(arc == a0[k]);
                let m = choose|m: int|
                    0 <= m < n0.len() && self.arc_toward(#[trigger] n0[m], var, 0, false, a, except)
                        == Some(arc);
                self.lemma_arc_toward(n0[m], var, 0, false, a, except);
                assert(adjacent(n0[m], head));
                assert(self.domino_wf(arc.xi as int));
            } else if k < a0.len() + b0.len() {
                assert(arc == b0[k - a0.len()]);
                let m = choose|m: int|
                    0 <= m < l0.len() && self.arc_toward(#[trigger] l0[m], var, 0, true, a, except)
                        == Some(arc);
                self.lemma_arc_toward(l0[m], var, 0, true, a, except);
            } else if k < a0.len() + b0.len() + a1.len() {
                assert(arc == a1[k - a0.len() - b0.len()]);
                let m = choose|m: int|
                    0 <= m < n1.len() && self.arc_toward(#[trigger] n1[m], var, 1, false, a, except)
                        == Some(arc);
                self.lemma_arc_toward(n1[m], var, 1, false, a, except);
                assert(adjacent(n1[m], tail));
                assert(self.domino_wf(arc.xi as int));
            } else {
                assert(arc == b1[k - a0.len() - b0.len() - a1.len()]);
                let m = choose|m: int|
                    0 <= m < l1.len() && self.arc_toward(#[trigger] l1[m], var, 1, true, a, except)
                        == Some(arc);
                self.lemma_arc_toward(l1[m], var, 1, true, a, except);
            }
        }
    }

    /// Maintaining arc consistency from sound arcs keeps every solution.
    pub proof fn lemma_arc_consistent_keeps(
        &self,
        domains: Seq<Seq<Value>>,
        queue: Seq<ConstraintArc>,
        a: Seq<Value>,
        b: &CSP,
        s: Seq<Value>,
    )
        requires
            self.wf(),
            self.agrees(a),
            self.covered(),
            forall|k: int| 0 <= k < queue.len() ==> self.arc_sound(#[trigger] queue[k]),
            self.solves_from(b, s, a, domains),
            domains.len() == a.len(),
        ensures
            self.arc_consistent(domains, queue, a).0,
            within(s, self.arc_consistent(domains, queue, a).1),
        decreases total_size(domains), queue.len(),
    {
        if queue.len() > 0 {
            let arc = queue.first();
            let r = self.revised(arc, domains, a);
            self.lemma_revised_keeps(arc, domains, a, b, s);
            self.lemma_revised(arc, domains, a);
            let rest = queue.drop_first();
            assert forall|k: int| 0 <= k < rest.len() implies self.arc_sound(
                #[trigger] rest[k],
            ) by {
                assert(rest[k] == queue[k + 1]);
            }
            if r.1 {
                let fresh = self.arcs_of(arc.xi as int, a, arc.xj as int);
                self.lemma_arcs_of_sound(arc.xi as int, a, arc.xj as int);
                let next = rest + fresh;
                assert forall|k: int| 0 <= k < next.len() implies self.arc_sound(
                    #[trigger] next[k],
                ) by {
                    if k < rest.len() {
                        assert(next[k] == rest[k]);
                    } else {
                        assert(next[k] == fresh[k - rest.len()]);
                    }
                }
                self.lemma_arc_consistent_keeps(r.2, next, a, b, s);
            } else {
                self.lemma_arc_consistent_keeps(domains, rest, a, b, s);
            }
        }
    }

    /// Two states with the same layout have the same solutions.
    pub proof fn lemma_same_layout_solutions(
        &self,
        other: &CSP,
        a: Seq<Value>,
        domains: Seq<Seq<Value>>,
    )
        requires
            self.same_layout(other),
        ensures
            self.has_solution_from(a, domains) == other.has_solution_from(a, domains),
            forall|x: int, v: Value|
                self.has_solution_choosing(a, domains, x, v) == #[trigger] other.has_solution_choosing(
                    a,
                    domains,
                    x,
                    v,
                ),
            self.solvable() == other.solvable(),
            self.covered() == other.covered(),
    {
        if self.has_solution_from(a, domains) {
            let (b, s) = choose|b: CSP, s: Seq<Value>| #[trigger]
                self.solves_from(&b, s, a, domains);
            assert(other.solves_from(&b, s, a, domains));
        }
        if other.has_solution_from(a, domains) {
            let (b, s) = choose|b: CSP, s: Seq<Value>| #[trigger]
                other.solves_from(&b, s, a, domains);
            assert(self.solves_from(&b, s, a, domains));
        }
        assert forall|x: int, v: Value|
            self.has_solution_choosing(a, domains, x, v) == #[trigger] other.has_solution_choosing(
                a,
                domains,
                x,
                v,
            ) by {
            if self.has_solution_choosing(a, domains, x, v) {
                let (b, s) = choose|b: CSP, s: Seq<Value>| #[trigger]
                    self.solves_from(&b, s, a, domains) && s[x] == v;
                assert(other.solves_from(&b, s, a, domains));
            }
            if other.has_solution_choosing(a, domains, x, v) {
                let (b, s) = choose|b: CSP, s: Seq<Value>| #[trigger]
                    other.solves_from(&b, s, a, domains) && s[x] == v;
                assert(self.solves_from(&b, s, a, domains));
            }
        }
        if self.solvable() {
            let (b, s) = choose|b: CSP, s: Seq<Value>|
                b.same_layout(self) && #[trigger] b.solved_by(s);
            assert(b.same_layout(other));
        }
        if other.solvable() {
            let (b, s) = choose|b: CSP, s: Seq<Value>|
                b.same_layout(other) && #[trigger] b.solved_by(s);
            assert(b.same_layout(self));
        }
        if self.covered() {
            assert forall|r: int, c: int| other.in_grid(r, c) implies (#[trigger] other.owner(
                r,
                c,
            )) is Some by {
                assert(self.owner(r, c) is Some);
            }
        }
        if other.covered() {
            assert forall|r: int, c: int| self.in_grid(r, c) implies (#[trigger] self.owner(
                r,
                c,
            )) is Some by {
                assert(other.owner(r, c) is Some);
            }
        }
    }

    /// A value that cannot be assigned belongs to no solution.
    pub proof fn lemma_unassignable_value(
        &self,
        a: Seq<Value>,
        domains: Seq<Seq<Value>>,
        x: int,
        v: Value,
    )
        requires
            self.wf(),
            self.agrees(a),
            0 <= x < a.len(),
            a[x] == Value::Unassigned,
            v == Value::Unassigned || self.pole_mark(x, 0) != BoardCell::Unassigned
                || self.pole_mark(x, 1) != BoardCell::Unassigned,
        ensures
            !self.has_solution_choosing(a, domains, x, v),
    {
        if self.has_solution_choosing(a, domains, x, v) {
            let (b, s) = choose|b: CSP, s: Seq<Value>| #[trigger]
                self.solves_from(&b, s, a, domains) && s[x] == v;
            self.lemma_undecided_is_free(a, &b, s, x);
        }
    }

    /// A value that the consistency checker rejects belongs to no solution.
    /// Here the board already carries the value.
    pub proof fn lemma_rejected_value(
        &self,
        a: Seq<Value>,
        domains: Seq<Seq<Value>>,
        x: int,
        v: Value,
    )
        requires
            self.wf(),
            0 <= x < a.len(),
            a[x] == Value::Unassigned,
            v != Value::Unassigned,
            self.agrees(a.update(x, v)),
            !self.consistent_at(x),
        ensures
            !self.has_solution_choosing(a, domains, x, v),
    {
        if self.has_solution_choosing(a, domains, x, v) {
            let (b, s) = choose|b: CSP, s: Seq<Value>| #[trigger]
                self.solves_from(&b, s, a, domains) && s[x] == v;
            self.lemma_solution_passes_check(a.update(x, v), &b, s, x);
        }
    }

    /// Inference keeps every solution that gives `v` to the domino just
    /// assigned: it is feasible, and the solution takes every value from the
    /// inferred domains. Here the board already carries the value.
    pub proof fn lemma_inference_keeps(
        &self,
        a: Seq<Value>,
        domains: Seq<Seq<Value>>,
        x: int,
        v: Value,
    )
        requires
            self.wf(),
            self.covered(),
            0 <= x < a.len(),
            a[x] == Value::Unassigned,
            v != Value::Unassigned,
            self.agrees(a.update(x, v)),
            domains.len() == a.len(),
            self.has_solution_choosing(a, domains, x, v),
        ensures
            self.inferred(x, domains, a.update(x, v)).0,
            self.has_solution_from(a.update(x, v), self.inferred(x, domains, a.update(x, v)).1),
    {
        let a1 = a.update(x, v);
        let (b, s) = choose|b: CSP, s: Seq<Value>| #[trigger]
            self.solves_from(&b, s, a, domains) && s[x] == v;
        assert(self.solves_from(&b, s, a1, domains));
        let arcs = self.arcs_of(x, a1, x);
        self.lemma_arcs_of_sound(x, a1, x);
        self.lemma_forward_checked_keeps(domains, arcs, a1, &b, s);
        self.lemma_arc_consistent_keeps(domains, arcs, a1, &b, s);
        assert(self.solves_from(&b, s, a1, self.inferred(x, domains, a1).1));
    }

    /// When no ordered candidate of an undecided domino belongs to a
    /// solution, there is no solution.
    pub proof fn lemma_all_values_tried(
        &self,
        a: Seq<Value>,
        domains: Seq<Seq<Value>>,
        x: int,
        order: Seq<int>,
        scores: Seq<nat>,
        values: Seq<Value>,
    )
        requires
            0 <= x < a.len(),
            domains.len() == a.len(),
            scores.len() == domains[x].len(),
            is_lcv_order(order, scores),
            values == Seq::new(order.len(), |k: int| domains[x][order[k]]),
            forall|j: int|
                0 <= j < values.len() ==> !self.has_solution_choosing(
                    a,
                    domains,
                    x,
                    #[trigger] values[j],
                ),
        ensures
            !self.has_solution_from(a, domains),
    {
        if self.has_solution_from(a, domains) {
            let (b, s) = choose|b: CSP, s: Seq<Value>| #[trigger]
                self.solves_from(&b, s, a, domains);
            assert(domains[x].contains(s[x]));
            let p = choose|p: int| 0 <= p < domains[x].len() && domains[x][p] == s[x];
            assert(lists(order, p));
            let k = choose|k: int| 0 <= k < order.len() && #[trigger] order[k] == p;
            assert(values[k] == s[x]);
            assert(self.has_solution_choosing(a, domains, x, values[k]));
        }
    }
}

} // verus!
