//! The puzzle model: cells, dominoes, orientations, constraint arcs, and the
//! engine state with its well-formedness predicate.

use vstd::prelude::*;

verus! {

/// A cell position on the grid.
#[derive(Debug, Clone, Copy, PartialEq, Eq, Structural)]
pub struct Point {
    pub row: usize,
    pub col: usize,
}

/// A domino-shaped magnet slot: the variable of the constraint problem.
///
/// `poles` holds exactly two adjacent cells; `poles[0]` is pole 0 and
/// `poles[1]` is pole 1.
#[derive(Debug, Clone)]
pub struct Variable {
    pub index: usize,
    pub poles: Vec<Point>,
}

pub type Assignment = Vec<Value>;

pub type VariableIndex = usize;

pub type PoleNumber = u8;

pub type Domain = Vec<Vec<Value>>;

/// The orientation given to a domino.
#[derive(Debug, Clone, Copy, PartialEq, Eq, Structural)]
pub enum Value {
    /// Pole 0 is positive, pole 1 is negative.
    Pole1PositivePole2Negative,
    /// Pole 0 is negative, pole 1 is positive.
    Pole2PositivePole1Negative,
    /// The slot is left without a magnet.
    Empty,
    /// Not decided yet. Never a member of a candidate domain.
    Unassigned,
}

/// The mark carried by one grid cell.
#[derive(Debug, Clone, Copy, PartialEq, Eq, Structural)]
pub enum BoardCell {
    Positive,
    Negative,
    Empty,
    Unassigned,
}

/// The kind of a binary constraint, with the pole of the dependent domino
/// first and the pole of the source domino second.
#[derive(Debug, Clone, Copy, PartialEq, Eq, Structural)]
pub enum Constraint {
    /// The two poles are grid-adjacent and may not carry the same charge.
    SignBased(PoleNumber, PoleNumber),
    /// The two poles share a row or a column and compete for its quota.
    LimitBased(PoleNumber, PoleNumber),
}

/// A directed constraint: the domain of `xi` is revised against `xj`.
#[derive(Debug, Clone, Copy, PartialEq, Eq, Structural)]
pub struct ConstraintArc {
    pub xi: VariableIndex,
    pub xj: VariableIndex,
    pub constraint: Constraint,
}

/// Which propagation strategy the search uses after each assignment.
#[derive(Debug, Clone, Copy, PartialEq, Eq, Structural)]
pub enum InferenceMode {
    /// Forward checking.
    FC,
    /// Maintaining arc consistency.
    MAC,
}

/// The engine: the fixed puzzle (dimensions, targets, dominoes, lookup table)
/// together with the live board and its running counters.
pub struct CSP {
    pub row_size: usize,
    pub col_size: usize,
    pub row_pos_poles: Vec<i32>,
    pub row_neg_poles: Vec<i32>,
    pub col_pos_poles: Vec<i32>,
    pub col_neg_poles: Vec<i32>,
    pub board: Vec<Vec<BoardCell>>,
    pub board_variable_association: Vec<Vec<usize>>,
    pub variables: Vec<Variable>,
    pub inference_mode: InferenceMode,
    pub curr_row_pos_poles: Vec<usize>,
    pub curr_row_neg_poles: Vec<usize>,
    pub curr_col_pos_poles: Vec<usize>,
    pub curr_col_neg_poles: Vec<usize>,
}

/// The contents of a vector of vectors, row by row.
pub open spec fn grid<T>(v: Seq<Vec<T>>) -> Seq<Seq<T>> {
    Seq::new(v.len(), |i: int| v[i]@)
}

/// The mark that orientation `v` puts on pole `k` of its domino.
pub open spec fn charge(v: Value, k: int) -> BoardCell {
    match v {
        Value::Pole1PositivePole2Negative => if k == 0 {
            BoardCell::Positive
        } else {
            BoardCell::Negative
        },
        Value::Pole2PositivePole1Negative => if k == 0 {
            BoardCell::Negative
        } else {
            BoardCell::Positive
        },
        Value::Empty => BoardCell::Empty,
        Value::Unassigned => BoardCell::Unassigned,
    }
}

/// The orientation that puts the magnetic charge `m` on pole `k`.
pub open spec fn orientation_with(k: int, m: BoardCell) -> Value
    recommends
        m == BoardCell::Positive || m == BoardCell::Negative,
{
    if (k == 0) == (m == BoardCell::Positive) {
        Value::Pole1PositivePole2Negative
    } else {
        Value::Pole2PositivePole1Negative
    }
}

/// How many cells of `s` carry the mark `k`.
pub open spec fn count_of(s: Seq<BoardCell>, k: BoardCell) -> nat
    decreases s.len(),
{
    if s.len() == 0 {
        0
    } else {
        count_of(s.drop_last(), k) + if s.last() == k {
            1nat
        } else {
            0nat
        }
    }
}

/// Whether no cell of `s` is still unmarked.
pub open spec fn all_marked(s: Seq<BoardCell>) -> bool {
    forall|i: int| 0 <= i < s.len() ==> s[i] != BoardCell::Unassigned
}

impl Variable {
    /// Whether the cell `(r, c)` is one of the two poles.
    pub open spec fn covers(&self, r: int, c: int) -> bool {
        ||| (self.poles@[0].row == r && self.poles@[0].col == c)
        ||| (self.poles@[1].row == r && self.poles@[1].col == c)
    }

    /// Which pole the cell `(r, c)` is: 0 when it is pole 0, else 1.
    pub open spec fn pole_number(&self, r: int, c: int) -> int {
        if self.poles@[0].row == r && self.poles@[0].col == c {
            0
        } else {
            1
        }
    }
}

impl CSP {
    /// Whether `(r, c)` lies on the grid.
    pub open spec fn in_grid(&self, r: int, c: int) -> bool {
        0 <= r < self.row_size && 0 <= c < self.col_size
    }

    /// The mark on cell `(r, c)`.
    pub open spec fn mark(&self, r: int, c: int) -> BoardCell {
        self.board@[r]@[c]
    }

    /// The marks of row `r`, left to right.
    pub open spec fn row_marks(&self, r: int) -> Seq<BoardCell> {
        self.board@[r]@
    }

    /// The marks of column `c`, top to bottom.
    pub open spec fn col_marks(&self, c: int) -> Seq<BoardCell> {
        Seq::new(self.row_size as nat, |r: int| self.board@[r]@[c])
    }

    /// Pole `k` of domino `i`.
    pub open spec fn pole(&self, i: int, k: int) -> Point {
        self.variables@[i].poles@[k]
    }

    /// The mark on pole `k` of domino `i`.
    pub open spec fn pole_mark(&self, i: int, k: int) -> BoardCell {
        self.mark(self.pole(i, k).row as int, self.pole(i, k).col as int)
    }

    /// The domino that the lookup table names for `(r, c)`, if that domino
    /// really has the cell as one of its poles.
    pub open spec fn owner(&self, r: int, c: int) -> Option<int> {
        let i = self.board_variable_association@[r]@[c] as int;
        if i < self.variables@.len() && self.variables@[i].covers(r, c) {
            Some(i)
        } else {
            None
        }
    }

    /// Whether the cell `(r, c)` is a pole of some domino.
    pub open spec fn tiled(&self, r: int, c: int) -> bool {
        exists|i: int|
            0 <= i < self.variables@.len() && #[trigger] self.variables@[i].covers(r, c)
    }

    /// Whether the lookup table gives every cell of the grid an owner.
    pub open spec fn covered(&self) -> bool {
        forall|r: int, c: int| self.in_grid(r, c) ==> (#[trigger] self.owner(r, c)) is Some
    }

    /// Whether the lookup table names, for every cell that is a pole of some
    /// domino, a domino that has it as a pole.
    pub open spec fn lookup_wf(&self) -> bool {
        forall|r: int, c: int|
            self.in_grid(r, c) && #[trigger] self.tiled(r, c) ==> self.owner(r, c) is Some
    }

    /// The required number of cells marked `m` in row `r`, for `m` positive or
    /// negative.
    pub open spec fn row_target(&self, r: int, m: BoardCell) -> int {
        if m == BoardCell::Positive {
            self.row_pos_poles@[r] as int
        } else {
            self.row_neg_poles@[r] as int
        }
    }

    /// The required number of cells marked `m` in column `c`, for `m` positive
    /// or negative.
    pub open spec fn col_target(&self, c: int, m: BoardCell) -> int {
        if m == BoardCell::Positive {
            self.col_pos_poles@[c] as int
        } else {
            self.col_neg_poles@[c] as int
        }
    }

    /// How many cells of row `r` carry the mark `m`.
    pub open spec fn row_count(&self, r: int, m: BoardCell) -> int {
        count_of(self.row_marks(r), m) as int
    }

    /// How many cells of column `c` carry the mark `m`.
    pub open spec fn col_count(&self, c: int, m: BoardCell) -> int {
        count_of(self.col_marks(c), m) as int
    }

    /// 1 if the cell `p` carries the mark `m`, else 0.
    pub open spec fn carries(&self, p: Point, m: BoardCell) -> int {
        if self.mark(p.row as int, p.col as int) == m {
            1
        } else {
            0
        }
    }

    /// The board, the lookup table, the targets and the counters all have the
    /// dimensions of the grid.
    pub open spec fn grid_wf(&self) -> bool {
        &&& self.board@.len() == self.row_size
        &&& forall|r: int| 0 <= r < self.row_size ==> (#[trigger] self.board@[r])@.len() == self.col_size
        &&& self.board_variable_association@.len() == self.row_size
        &&& forall|r: int|
            0 <= r < self.row_size ==> (#[trigger] self.board_variable_association@[r])@.len()
                == self.col_size
        &&& self.row_pos_poles@.len() == self.row_size
        &&& self.row_neg_poles@.len() == self.row_size
        &&& self.col_pos_poles@.len() == self.col_size
        &&& self.col_neg_poles@.len() == self.col_size
        &&& self.curr_row_pos_poles@.len() == self.row_size
        &&& self.curr_row_neg_poles@.len() == self.row_size
        &&& self.curr_col_pos_poles@.len() == self.col_size
        &&& self.curr_col_neg_poles@.len() == self.col_size
    }

    /// Domino `i` has two poles on the grid, the second directly below or
    /// directly right of the first, and knows its own index.
    pub open spec fn domino_wf(&self, i: int) -> bool {
        let v = self.variables@[i];
        &&& v.index == i
        &&& v.poles@.len() == 2
        &&& self.in_grid(v.poles@[0].row as int, v.poles@[0].col as int)
        &&& self.in_grid(v.poles@[1].row as int, v.poles@[1].col as int)
        &&& {
            ||| (v.poles@[1].row == v.poles@[0].row + 1 && v.poles@[1].col == v.poles@[0].col)
            ||| (v.poles@[1].row == v.poles@[0].row && v.poles@[1].col == v.poles@[0].col + 1)
        }
    }

    /// Every domino is well formed.
    pub open spec fn layout_wf(&self) -> bool {
        forall|i: int| 0 <= i < self.variables@.len() ==> #[trigger] self.domino_wf(i)
    }

    /// Each running counter equals a direct scan of the board.
    pub open spec fn counters_wf(&self) -> bool {
        &&& forall|r: int|
            0 <= r < self.row_size ==> #[trigger] self.curr_row_pos_poles@[r] == count_of(
                self.row_marks(r),
                BoardCell::Positive,
            )
        &&& forall|r: int|
            0 <= r < self.row_size ==> #[trigger] self.curr_row_neg_poles@[r] == count_of(
                self.row_marks(r),
                BoardCell::Negative,
            )
        &&& forall|c: int|
            0 <= c < self.col_size ==> #[trigger] self.curr_col_pos_poles@[c] == count_of(
                self.col_marks(c),
                BoardCell::Positive,
            )
        &&& forall|c: int|
            0 <= c < self.col_size ==> #[trigger] self.curr_col_neg_poles@[c] == count_of(
                self.col_marks(c),
                BoardCell::Negative,
            )
    }

    /// The invariant of the engine state.
    pub open spec fn wf(&self) -> bool {
        &&& self.grid_wf()
        &&& self.layout_wf()
        &&& self.counters_wf()
    }

    /// Whether no cell carries a mark.
    pub open spec fn is_blank(&self) -> bool {
        forall|r: int, c: int| self.in_grid(r, c) ==> self.mark(r, c) == BoardCell::Unassigned
    }

    /// Whether `other` is a state of the same puzzle: everything but the board
    /// and the running counters is equal.
    pub open spec fn same_puzzle(&self, other: &CSP) -> bool {
        &&& self.row_size == other.row_size
        &&& self.col_size == other.col_size
        &&& self.row_pos_poles == other.row_pos_poles
        &&& self.row_neg_poles == other.row_neg_poles
        &&& self.col_pos_poles == other.col_pos_poles
        &&& self.col_neg_poles == other.col_neg_poles
        &&& self.board_variable_association == other.board_variable_association
        &&& self.variables == other.variables
        &&& self.inference_mode == other.inference_mode
    }
}

} // verus!
