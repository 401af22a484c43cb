//! The arc generator: the constraint arcs that point at a domino from its
//! undecided neighbours.

use crate::csp::{
    Assignment, Constraint, ConstraintArc, Point, Value, Variable, VariableIndex, CSP,
};
use std::collections::VecDeque;
use vstd::prelude::*;

verus! {

/// The cells `(i, col)` with `0 <= i < upto`, top to bottom, without `cell`
/// and `same`.
pub open spec fn column_cells(col: usize, upto: int, cell: Point, same: Point) -> Seq<Point>
    decreases upto,
{
    if upto <= 0 {
        Seq::empty()
    } else {
        let rest = column_cells(col, upto - 1, cell, same);
        let p = Point { row: (upto - 1) as usize, col };
        if p == cell || p == same {
            rest
        } else {
            rest.push(p)
        }
    }
}

/// The cells `(row, j)` with `0 <= j < upto`, left to right, without `cell`
/// and `same`.
pub open spec fn row_cells(row: usize, upto: int, cell: Point, same: Point) -> Seq<Point>
    decreases upto,
{
    if upto <= 0 {
        Seq::empty()
    } else {
        let rest = row_cells(row, upto - 1, cell, same);
        let p = Point { row, col: (upto - 1) as usize };
        if p == cell || p == same {
            rest
        } else {
            rest.push(p)
        }
    }
}

/// `s` with `p` appended when `wanted` holds.
pub open spec fn push_if(s: Seq<Point>, wanted: bool, p: Point) -> Seq<Point> {
    if wanted {
        s.push(p)
    } else {
        s
    }
}

impl CSP {
    /// The grid neighbours of `cell` other than `same`, in the order below,
    /// above, right, left.
    pub open spec fn neighboring_cells(&self, cell: Point, same: Point) -> Seq<Point> {
        let below = Point { row: (cell.row + 1) as usize, col: cell.col };
        let above = Point { row: (cell.row - 1) as usize, col: cell.col };
        let right = Point { row: cell.row, col: (cell.col + 1) as usize };
        let left = Point { row: cell.row, col: (cell.col - 1) as usize };
        let s0 = push_if(Seq::empty(), cell.row + 1 < self.row_size && below != same, below);
        let s1 = push_if(s0, cell.row >= 1 && above != same, above);
        let s2 = push_if(s1, cell.col + 1 < self.col_size && right != same, right);
        push_if(s2, cell.col >= 1 && left != same, left)
    }

    /// The other cells of the column of `cell`, top to bottom, followed by
    /// the other cells of its row, left to right, all without `same`.
    pub open spec fn limiting_cells(&self, cell: Point, same: Point) -> Seq<Point> {
        column_cells(cell.col, self.row_size as int, cell, same) + row_cells(
            cell.row,
            self.col_size as int,
            cell,
            same,
        )
    }

    /// The arc from the owner of `cell` to pole `pole` of domino `var`, if
    /// the cell has an owner that is undecided and is neither `var` nor
    /// `except`.
    pub open spec fn arc_toward(
        &self,
        cell: Point,
        var: int,
        pole: int,
        quota: bool,
        a: Seq<Value>,
        except: int,
    ) -> Option<ConstraintArc> {
        match self.owner(cell.row as int, cell.col as int) {
            Some(j) => if j == var || a[j] != Value::Unassigned || j == except {
                None
            } else {
                let k = self.variables@[j].pole_number(cell.row as int, cell.col as int) as u8;
                Some(
                    ConstraintArc {
                        xi: j as usize,
                        xj: var as usize,
                        constraint: if quota {
                            Constraint::LimitBased(k, pole as u8)
                        } else {
                            Constraint::SignBased(k, pole as u8)
                        },
                    },
                )
            },
            None => None,
        }
    }

    /// The arcs toward pole `pole` of `var` from the owners of `cells`, in
    /// the order of `cells`.
    pub open spec fn arcs_toward(
        &self,
        cells: Seq<Point>,
        var: int,
        pole: int,
        quota: bool,
        a: Seq<Value>,
        except: int,
    ) -> Seq<ConstraintArc>
        decreases cells.len(),
    {
        if cells.len() == 0 {
            Seq::empty()
        } else {
            let rest = self.arcs_toward(cells.drop_last(), var, pole, quota, a, except);
            match self.arc_toward(cells.last(), var, pole, quota, a, except) {
                Some(arc) => rest.push(arc),
                None => rest,
            }
        }
    }

    /// The arcs toward pole `pole` of `var`: the adjacency arcs, then the
    /// quota arcs.
    pub open spec fn pole_arcs(&self, var: int, pole: int, a: Seq<Value>, except: int) -> Seq<
        ConstraintArc,
    > {
        let p = self.pole(var, pole);
        let q = self.pole(var, 1 - pole);
        self.arcs_toward(self.neighboring_cells(p, q), var, pole, false, a, except)
            + self.arcs_toward(self.limiting_cells(p, q), var, pole, true, a, except)
    }

    /// All arcs toward `var`: those of pole 0, then those of pole 1.
    pub open spec fn arcs_of(&self, var: int, a: Seq<Value>, except: int) -> Seq<ConstraintArc> {
        self.pole_arcs(var, 0, a, except) + self.pole_arcs(var, 1, a, except)
    }

    /// Which pole of `variable` the cell is: 0 if it is pole 0, else 1.
    pub fn get_pole_number(variable: &Variable, cell: &Point) -> (res: u8)
        requires
            variable.poles@.len() > 0,
        ensures
            res == variable.pole_number(cell.row as int, cell.col as int),
    {
        if cell.row == variable.poles[0].row && cell.col == variable.poles[0].col {
            0
        } else {
            1
        }
    }

    /// The grid neighbours of `cell`, without the other cell of its domino.
    pub fn get_neighboring_cells(&self, cell: &Point, same_variable_cell: &Point) -> (res: Vec<
        Point,
    >)
        ensures
            res@ == self.neighboring_cells(*cell, *same_variable_cell),
            self.in_grid(cell.row as int, cell.col as int) ==> forall|k: int|
                0 <= k < res@.len() ==> self.in_grid(
                    (#[trigger] res@[k]).row as int,
                    res@[k].col as int,
                ),
    {
        let mut cells: Vec<Point> = Vec::new();
        let same = *same_variable_cell;
        if cell.row < self.row_size && cell.row + 1 < self.row_size {
            let p = Point { row: cell.row + 1, col: cell.col };
            if p != same {
                cells.push(p);
            }
        }
        if cell.row >= 1 {
            let p = Point { row: cell.row - 1, col: cell.col };
            if p != same {
                cells.push(p);
            }
        }
        if cell.col < self.col_size && cell.col + 1 < self.col_size {
            let p = Point { row: cell.row, col: cell.col + 1 };
            if p != same {
                cells.push(p);
            }
        }
        if cell.col >= 1 {
            let p = Point { row: cell.row, col: cell.col - 1 };
            if p != same {
                cells.push(p);
            }
        }
        cells
    }

    /// The cells that share the column or the row of `cell`, without `cell`
    /// itself and without the other cell of its domino.
    pub fn get_limiting_cells(&self, cell: &Point, same_variable_cell: &Point) -> (res: Vec<Point>)
        ensures
            res@ == self.limiting_cells(*cell, *same_variable_cell),
            self.in_grid(cell.row as int, cell.col as int) ==> forall|k: int|
                0 <= k < res@.len() ==> self.in_grid(
                    (#[trigger] res@[k]).row as int,
                    res@[k].col as int,
                ),
    {
        let mut cells: Vec<Point> = Vec::new();
        let same = *same_variable_cell;
        let here = *cell;
        let mut i: usize = 0;
        while i < self.row_size
            invariant
                i <= self.row_size,
                cells@ == column_cells(here.col, i as int, here, same),
                self.in_grid(here.row as int, here.col as int) ==> forall|k: int|
                    0 <= k < cells@.len() ==> self.in_grid(
                        (#[trigger] cells@[k]).row as int,
                        cells@[k].col as int,
                    ),
            decreases self.row_size - i,
        {
            let p = Point { row: i, col: here.col };
            if p != here && p != same {
                cells.push(p);
            }
            i += 1;
        }
        let ghost column = cells@;
        let mut j: usize = 0;
        while j < self.col_size
            invariant
                j <= self.col_size,
                cells@ == column + row_cells(here.row, j as int, here, same),
                self.in_grid(here.row as int, here.col as int) ==> forall|k: int|
                    0 <= k < cells@.len() ==> self.in_grid(
                        (#[trigger] cells@[k]).row as int,
                        cells@[k].col as int,
                    ),
            decreases self.col_size - j,
        {
            let p = Point { row: here.row, col: j };
            if p != here && p != same {
                cells.push(p);
            }
            j += 1;
        }
        cells
    }

    /// Appends to `arc_queue` the arcs toward pole `pole` of `var_index` from
    /// the owners of `cells`.
    fn push_arcs_toward(
        &self,
        cells: &Vec<Point>,
        var_index: VariableIndex,
        pole: u8,
        quota: bool,
        assignment: &Assignment,
        arc_queue: &mut VecDeque<ConstraintArc>,
        except_neighbor: VariableIndex,
    )
        requires
            self.wf(),
            assignment@.len() == self.variables@.len(),
            forall|k: int|
                0 <= k < cells@.len() ==> self.in_grid(
                    (#[trigger] cells@[k]).row as int,
                    cells@[k].col as int,
                ),
        ensures
            final(arc_queue)@ == old(arc_queue)@ + self.arcs_toward(
                cells@,
                var_index as int,
                pole as int,
                quota,
                assignment@,
                except_neighbor as int,
            ),
    {
        let mut k: usize = 0;
        assert(cells@.take(0) == Seq::<Point>::empty());
        while k < cells.len()
            invariant
                self.wf(),
                assignment@.len() == self.variables@.len(),
                k <= cells@.len(),
                forall|k: int|
                    0 <= k < cells@.len() ==> self.in_grid(
                        (#[trigger] cells@[k]).row as int,
                        cells@[k].col as int,
                    ),
                arc_queue@ == old(arc_queue)@ + self.arcs_toward(
                    cells@.take(k as int),
                    var_index as int,
                    pole as int,
                    quota,
                    assignment@,
                    except_neighbor as int,
                ),
            decreases cells@.len() - k,
        {
            let cell = cells[k];
            proof {
                assert(cells@.take(k + 1).drop_last() == cells@.take(k as int));
                assert(cells@.take(k + 1).last() == cell);
            }
            if let Some(j) = self.owner_of(cell.row, cell.col) {
                if j != var_index && assignment[j] == Value::Unassigned && j != except_neighbor {
                    assert(self.domino_wf(j as int));
                    let neighbor_pole = CSP::get_pole_number(&self.variables[j], &cell);
                    let constraint = if quota {
                        Constraint::LimitBased(neighbor_pole, pole)
                    } else {
                        Constraint::SignBased(neighbor_pole, pole)
                    };
                    arc_queue.push_back(ConstraintArc { xi: j, xj: var_index, constraint });
                }
            }
            k += 1;
        }
        assert(cells@.take(cells@.len() as int) == cells@);
    }

    /// Appends to `arc_queue` every arc toward `var_index` from an undecided
    /// neighbour other than `except_neighbor`: for each pole in turn, the
    /// adjacency arcs and then the quota arcs.
    pub fn generate_arc_constraints(
        &self,
        var_index: usize,
        assignment: &Assignment,
        arc_queue: &mut VecDeque<ConstraintArc>,
        except_neighbor: VariableIndex,
    )
        requires
            self.wf(),
            var_index < self.variables@.len(),
            assignment@.len() == self.variables@.len(),
        ensures
            final(arc_queue)@ == old(arc_queue)@ + self.arcs_of(
                var_index as int,
                assignment@,
                except_neighbor as int,
            ),
    {
        assert(self.domino_wf(var_index as int));
        let head = self.variables[var_index].poles[0];
        let tail = self.variables[var_index].poles[1];
        let near0 = self.get_neighboring_cells(&head, &tail);
        self.push_arcs_toward(&near0, var_index, 0, false, assignment, arc_queue, except_neighbor);
        let line0 = self.get_limiting_cells(&head, &tail);
        self.push_arcs_toward(&line0, var_index, 0, true, assignment, arc_queue, except_neighbor);
        let near1 = self.get_neighboring_cells(&tail, &head);
        self.push_arcs_toward(&near1, var_index, 1, false, assignment, arc_queue, except_neighbor);
        let line1 = self.get_limiting_cells(&tail, &head);
        self.push_arcs_toward(&line1, var_index, 1, true, assignment, arc_queue, except_neighbor);
    }

    /// Every arc toward `var` names two dominoes of the puzzle, the dependent
    /// one undecided and different from `var` and `except`, and two pole
    /// numbers; its dependent pole lies in one of `cells`.
    pub proof fn lemma_arcs_toward(
        &self,
        cells: Seq<Point>,
        var: int,
        pole: int,
        quota: bool,
        a: Seq<Value>,
        except: int,
    )
        requires
            self.wf(),
            0 <= var < self.variables@.len(),
            0 <= pole < 2,
        ensures
            forall|k: int|
                0 <= k < self.arcs_toward(cells, var, pole, quota, a, except).len() ==> {
                    let arc = #[trigger] self.arcs_toward(cells, var, pole, quota, a, except)[k];
                    exists|m: int|
                        0 <= m < cells.len() && self.arc_toward(
                            #[trigger] cells[m],
                            var,
                            pole,
                            quota,
                            a,
                            except,
                        ) == Some(arc)
                },
        decreases cells.len(),
    {
        if cells.len() > 0 {
            let rest = cells.drop_last();
            self.lemma_arcs_toward(rest, var, pole, quota, a, except);
            let earlier = self.arcs_toward(rest, var, pole, quota, a, except);
            let all = self.arcs_toward(cells, var, pole, quota, a, except);
            assert forall|k: int| 0 <= k < all.len() implies exists|m: int|
                0 <= m < cells.len() && self.arc_toward(
                    #[trigger] cells[m],
                    var,
                    pole,
                    quota,
                    a,
                    except,
                ) == Some(#[trigger] all[k]) by {
                if k < earlier.len() {
                    assert(all[k] == earlier[k]);
                    let m = choose|m: int|
                        0 <= m < rest.len() && self.arc_toward(
                            #[trigger] rest[m],
                            var,
                            pole,
                            quota,
                            a,
                            except,
                        ) == Some(earlier[k]);
                    assert(cells[m] == rest[m]);
                } else {
                    assert(self.arc_toward(cells[cells.len() - 1], var, pole, quota, a, except)
                        == Some(all[k]));
                }
            }
        }
    }

    /// An arc toward `var` is well formed, points at `var`, and comes from the
    /// undecided owner of the cell, which is neither `var` nor `except`.
    pub proof fn lemma_arc_toward(
        &self,
        cell: Point,
        var: int,
        pole: int,
        quota: bool,
        a: Seq<Value>,
        except: int,
    )
        requires
            0 <= var < self.variables@.len(),
            0 <= pole < 2,
            self.arc_toward(cell, var, pole, quota, a, except) is Some,
        ensures
            ({
                let arc = self.arc_toward(cell, var, pole, quota, a, except).unwrap();
                &&& self.arc_wf(arc)
                &&& arc.xj == var
                &&& arc.xi != var
                &&& arc.xi != except
                &&& a[arc.xi as int] == Value::Unassigned
                &&& self.owner(cell.row as int, cell.col as int) == Some(arc.xi as int)
                &&& arc.constraint == if quota {
                    Constraint::LimitBased(
                        self.variables@[arc.xi as int].pole_number(
                            cell.row as int,
                            cell.col as int,
                        ) as u8,
                        pole as u8,
                    )
                } else {
                    Constraint::SignBased(
                        self.variables@[arc.xi as int].pole_number(
                            cell.row as int,
                            cell.col as int,
                        ) as u8,
                        pole as u8,
                    )
                }
            }),
    {
        assert(self.variables@.len() == self.variables.len());
    }

    /// Every arc that the generator makes for `var` is well formed, points at
    /// `var`, and comes from an undecided domino other than `var`.
    pub proof fn lemma_arcs_of(&self, var: int, a: Seq<Value>, except: int)
        requires
            self.wf(),
            0 <= var < self.variables@.len(),
        ensures
            forall|k: int|
                0 <= k < self.arcs_of(var, a, except).len() ==> {
                    let arc = #[trigger] self.arcs_of(var, a, except)[k];
                    &&& self.arc_wf(arc)
                    &&& arc.xj == var
                    &&& arc.xi != var
                    &&& arc.xi != except
                    &&& a[arc.xi as int] == Value::Unassigned
                },
    {
        let head = self.pole(var, 0);
        let tail = self.pole(var, 1);
        let n0 = self.neighboring_cells(head, tail);
        let l0 = self.limiting_cells(head, tail);
        let n1 = self.neighboring_cells(tail, head);
        let l1 = self.limiting_cells(tail, head);
        self.lemma_arcs_toward(n0, var, 0, false, a, except);
        self.lemma_arcs_toward(l0, var, 0, true, a, except);
        self.lemma_arcs_toward(n1, var, 1, false, a, except);
        self.lemma_arcs_toward(l1, var, 1, true, a, except);
        let a0 = self.arcs_toward(n0, var, 0, false, a, except);
        let b0 = self.arcs_toward(l0, var, 0, true, a, except);
        let a1 = self.arcs_toward(n1, var, 1, false, a, except);
        let b1 = self.arcs_toward(l1, var, 1, true, a, except);
        let all = self.arcs_of(var, a, except);
        assert(all == (a0 + b0) + (a1 + b1));
        assert forall|k: int| 0 <= k < all.len() implies {
            let arc = #[trigger] all[k];
            &&& self.arc_wf(arc)
            &&& arc.xj == var
            &&& arc.xi != var
            &&& arc.xi != except
            &&& a[arc.xi as int] == Value::Unassigned
        } by {
            let arc = all[k];
            if k < a0.len() {
                assert(arc == a0[k]);
                let m = choose|m: int|
                    0 <= m < n0.len() && self.arc_toward(#[trigger] n0[m], var, 0, false, a, except)
                        == Some(arc);
                self.lemma_arc_toward(n0[m], var, 0, false, a, except);
            } else if k < a0.len() + b0.len() {
                assert(arc == b0[k - a0.len()]);
                let m = choose|m: int|
                    0 <= m < l0.len() && self.arc_toward(#[trigger] l0[m], var, 0, true, a, except)
                        == Some(arc);
                self.lemma_arc_toward(l0[m], var, 0, true, a, except);
            } else if k < a0.len() + b0.len() + a1.len() {
                assert(arc == a1[k - a0.len() - b0.len()]);
                let m = choose|m: int|
                    0 <= m < n1.len() && self.arc_toward(#[trigger] n1[m], var, 1, false, a, except)
                        == Some(arc);
                self.lemma_arc_toward(n1[m], var, 1, false, a, except);
            } else {
                assert(arc == b1[k - a0.len() - b0.len() - a1.len()]);
                let m = choose|m: int|
                    0 <= m < l1.len() && self.arc_toward(#[trigger] l1[m], var, 1, true, a, except)
                        == Some(arc);
                self.lemma_arc_toward(l1[m], var, 1, true, a, except);
            }
        }
    }
}

} // verus!
