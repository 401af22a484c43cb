//! Deriving the dominoes and the cell lookup table from a grid of raw markers.
//!
//! A marker `1` begins a vertical domino that continues one cell down; a `0`
//! begins a horizontal domino that continues one cell right; any other marker
//! begins nothing. Cells are visited row by row. A cell that an earlier domino
//! already continues into begins nothing either, whatever its marker, and a
//! marker whose domino would leave the grid is dropped.

use crate::csp::{count_of, grid, BoardCell, CSP, InferenceMode, Point, Variable};
use vstd::prelude::*;

verus! {

/// The second cell of the domino that begins at `(i, j)`, if one begins there.
pub open spec fn partner_of(raw: Seq<Seq<u8>>, rows: int, cols: int, i: int, j: int) -> Option<
    Point,
>
    decreases i + j,
{
    if 0 <= i < rows && 0 <= j < cols {
        let here = Point { row: i as usize, col: j as usize };
        let taken_from_above = i >= 1 && partner_of(raw, rows, cols, i - 1, j) == Some(here);
        let taken_from_left = j >= 1 && partner_of(raw, rows, cols, i, j - 1) == Some(here);
        if taken_from_above || taken_from_left {
            None
        } else if raw[i][j] == 1 && i + 1 < rows {
            Some(Point { row: (i + 1) as usize, col: j as usize })
        } else if raw[i][j] == 0 && j + 1 < cols {
            Some(Point { row: i as usize, col: (j + 1) as usize })
        } else {
            None
        }
    } else {
        None
    }
}

/// The dominoes that begin at a cell visited before `(i, j)`, in visiting
/// order, each as its pole 0 followed by its pole 1.
pub open spec fn slots_before(raw: Seq<Seq<u8>>, rows: int, cols: int, i: int, j: int) -> Seq<
    (Point, Point),
>
    decreases i, j,
{
    if j > 0 {
        let earlier = slots_before(raw, rows, cols, i, j - 1);
        match partner_of(raw, rows, cols, i, j - 1) {
            Some(p) => earlier.push((Point { row: i as usize, col: (j - 1) as usize }, p)),
            None => earlier,
        }
    } else if i > 0 && cols >= 0 {
        slots_before(raw, rows, cols, i - 1, cols)
    } else {
        Seq::empty()
    }
}

/// All dominoes of the layout, in index order.
pub open spec fn slots(raw: Seq<Seq<u8>>, rows: int, cols: int) -> Seq<(Point, Point)> {
    slots_before(raw, rows, cols, rows, 0)
}

/// The index of the domino that begins at `(i, j)`.
pub open spec fn slot_index(raw: Seq<Seq<u8>>, rows: int, cols: int, i: int, j: int) -> int {
    slots_before(raw, rows, cols, i, j).len() as int
}

/// What the lookup table holds for `(i, j)`: the index of the last domino made
/// that has the cell as a pole, and 0 for a cell that no domino has.
pub open spec fn lookup_entry(raw: Seq<Seq<u8>>, rows: int, cols: int, i: int, j: int) -> int {
    let here = Point { row: i as usize, col: j as usize };
    if j >= 1 && partner_of(raw, rows, cols, i, j - 1) == Some(here) {
        slot_index(raw, rows, cols, i, j - 1)
    } else if i >= 1 && partner_of(raw, rows, cols, i - 1, j) == Some(here) {
        slot_index(raw, rows, cols, i - 1, j)
    } else if partner_of(raw, rows, cols, i, j) is Some {
        slot_index(raw, rows, cols, i, j)
    } else {
        0
    }
}

/// Whether `(a, b)` is visited before `(i, j)`.
pub open spec fn visited_before(a: int, b: int, i: int, j: int) -> bool {
    a < i || (a == i && b < j)
}

/// Whether a domino that begins before `(i, j)` continues into `(a, b)`.
spec fn taken_before(raw: Seq<Seq<u8>>, rows: int, cols: int, a: int, b: int, i: int, j: int) -> bool {
    let here = Point { row: a as usize, col: b as usize };
    ||| (a >= 1 && visited_before(a - 1, b, i, j) && partner_of(raw, rows, cols, a - 1, b) == Some(
        here,
    ))
    ||| (b >= 1 && visited_before(a, b - 1, i, j) && partner_of(raw, rows, cols, a, b - 1) == Some(
        here,
    ))
}

/// The lookup entry of `(a, b)` when only the dominoes that begin before
/// `(i, j)` have been made.
spec fn lookup_before(raw: Seq<Seq<u8>>, rows: int, cols: int, a: int, b: int, i: int, j: int) -> int {
    let here = Point { row: a as usize, col: b as usize };
    if b >= 1 && visited_before(a, b - 1, i, j) && partner_of(raw, rows, cols, a, b - 1) == Some(
        here,
    ) {
        slot_index(raw, rows, cols, a, b - 1)
    } else if a >= 1 && visited_before(a - 1, b, i, j) && partner_of(raw, rows, cols, a - 1, b)
        == Some(here) {
        slot_index(raw, rows, cols, a - 1, b)
    } else if visited_before(a, b, i, j) && partner_of(raw, rows, cols, a, b) is Some {
        slot_index(raw, rows, cols, a, b)
    } else {
        0
    }
}

/// A sequence without the mark `k` counts zero cells of it.
pub proof fn lemma_count_of_absent(s: Seq<BoardCell>, k: BoardCell)
    requires
        forall|i: int| 0 <= i < s.len() ==> s[i] != k,
    ensures
        count_of(s, k) == 0,
    decreases s.len(),
{
    if s.len() > 0 {
        lemma_count_of_absent(s.drop_last(), k);
    }
}

/// A vector of `n` copies of `x`.
fn filled<T: Copy>(n: usize, x: T) -> (v: Vec<T>)
    ensures
        v@.len() == n,
        forall|i: int| 0 <= i < n ==> v@[i] == x,
{
    let mut v: Vec<T> = Vec::new();
    let mut k: usize = 0;
    while k < n
        invariant
            k <= n,
            v@.len() == k,
            forall|i: int| 0 <= i < k ==> v@[i] == x,
        decreases n - k,
    {
        v.push(x);
        k += 1;
    }
    v
}

/// A grid of `rows` by `cols` copies of `x`.
fn filled_grid<T: Copy>(rows: usize, cols: usize, x: T) -> (g: Vec<Vec<T>>)
    ensures
        g@.len() == rows,
        forall|r: int| 0 <= r < rows ==> (#[trigger] g@[r])@.len() == cols,
        forall|r: int, c: int| 0 <= r < rows && 0 <= c < cols ==> g@[r]@[c] == x,
{
    let mut g: Vec<Vec<T>> = Vec::new();
    let mut k: usize = 0;
    while k < rows
        invariant
            k <= rows,
            g@.len() == k,
            forall|r: int| 0 <= r < k ==> (#[trigger] g@[r])@.len() == cols,
            forall|r: int, c: int| 0 <= r < k && 0 <= c < cols ==> g@[r]@[c] == x,
        decreases rows - k,
    {
        let row = filled(cols, x);
        g.push(row);
        k += 1;
    }
    g
}

/// While the scan stands at `(i, j)`, every cell not yet visited holds a 2 if
/// an earlier domino continues into it, and its original marker otherwise.
spec fn markers_ok(
    cur: Seq<Seq<u8>>,
    raw: Seq<Seq<u8>>,
    rows: int,
    cols: int,
    i: int,
    j: int,
) -> bool {
    forall|a: int, b: int|
        0 <= a < rows && 0 <= b < cols && !visited_before(a, b, i, j) ==> #[trigger] cur[a][b] == (
        if taken_before(raw, rows, cols, a, b, i, j) {
            2u8
        } else {
            raw[a][b]
        })
}

/// While the scan stands at `(i, j)`, the lookup table records the dominoes
/// made so far.
spec fn lookup_ok(
    lookup: Seq<Seq<usize>>,
    raw: Seq<Seq<u8>>,
    rows: int,
    cols: int,
    i: int,
    j: int,
) -> bool {
    forall|a: int, b: int|
        0 <= a < rows && 0 <= b < cols ==> #[trigger] lookup[a][b] == lookup_before(
            raw,
            rows,
            cols,
            a,
            b,
            i,
            j,
        )
}

/// While the scan stands at `(i, j)`, the dominoes made so far are those that
/// begin at a visited cell, and each is well shaped.
spec fn dominoes_ok(
    variables: Seq<Variable>,
    raw: Seq<Seq<u8>>,
    rows: int,
    cols: int,
    i: int,
    j: int,
) -> bool {
    &&& variables.len() == slots_before(raw, rows, cols, i, j).len()
    &&& forall|k: int|
        0 <= k < variables.len() ==> {
            let v = #[trigger] variables[k];
            &&& v.index == k
            &&& v.poles@.len() == 2
            &&& (v.poles@[0], v.poles@[1]) == slots_before(raw, rows, cols, i, j)[k]
            &&& 0 <= v.poles@[0].row < rows
            &&& 0 <= v.poles@[0].col < cols
            &&& 0 <= v.poles@[1].row < rows
            &&& 0 <= v.poles@[1].col < cols
            &&& {
                ||| (v.poles@[1].row == v.poles@[0].row + 1 && v.poles@[1].col == v.poles@[0].col)
                ||| (v.poles@[1].row == v.poles@[0].row && v.poles@[1].col == v.poles@[0].col + 1)
            }
        }
}

/// Every cell that one of the dominoes made so far has as a pole is looked
/// up to such a domino.
spec fn owners_ok(variables: Seq<Variable>, lookup: Seq<Seq<usize>>, rows: int, cols: int) -> bool {
    forall|a: int, b: int, k: int|
        0 <= a < rows && 0 <= b < cols && 0 <= k < variables.len() && #[trigger] variables[k].covers(
            a,
            b,
        ) ==> lookup[a][b] < variables.len() && variables[lookup[a][b] as int].covers(a, b)
}

/// Makes the domino with poles `head` and `tail`: appends it to the dominoes,
/// enters it in the lookup table for both cells, and marks both cells as
/// taken.
fn add_domino(
    variables: &mut Vec<Variable>,
    lookup: &mut Vec<Vec<usize>>,
    raw: &mut Vec<Vec<u8>>,
    head: Point,
    tail: Point,
    rows: usize,
    cols: usize,
)
    requires
        head.row < rows,
        head.col < cols,
        tail.row < rows,
        tail.col < cols,
        old(raw)@.len() >= rows,
        forall|r: int| 0 <= r < rows ==> (#[trigger] old(raw)@[r])@.len() >= cols,
        old(lookup)@.len() == rows,
        forall|r: int| 0 <= r < rows ==> (#[trigger] old(lookup)@[r])@.len() == cols,
        owners_ok(old(variables)@, grid(old(lookup)@), rows as int, cols as int),
    ensures
        final(raw)@.len() == old(raw)@.len(),
        forall|r: int| 0 <= r < rows ==> (#[trigger] final(raw)@[r])@.len() >= cols,
        final(lookup)@.len() == rows,
        forall|r: int| 0 <= r < rows ==> (#[trigger] final(lookup)@[r])@.len() == cols,
        final(variables)@.len() == old(variables)@.len() + 1,
        forall|k: int|
            0 <= k < old(variables)@.len() ==> final(variables)@[k] == old(variables)@[k],
        final(variables)@.last().index == old(variables)@.len(),
        final(variables)@.last().poles@ == seq![head, tail],
        forall|a: int, b: int|
            0 <= a < rows && 0 <= b < cols ==> #[trigger] final(raw)@[a]@[b] == (if (a == head.row
                && b == head.col) || (a == tail.row && b == tail.col) {
                2u8
            } else {
                old(raw)@[a]@[b]
            }),
        forall|a: int, b: int|
            0 <= a < rows && 0 <= b < cols ==> #[trigger] final(lookup)@[a]@[b] == (if (a == head.row
                && b == head.col) || (a == tail.row && b == tail.col) {
                old(variables)@.len() as usize
            } else {
                old(lookup)@[a]@[b]
            }),
        owners_ok(final(variables)@, grid(final(lookup)@), rows as int, cols as int),
{
    raw[head.row][head.col] = 2;
    raw[tail.row][tail.col] = 2;
    let mut poles: Vec<Point> = Vec::new();
    poles.push(head);
    poles.push(tail);
    assert(poles@ =~= seq![head, tail]);
    let variable_index = variables.len();
    variables.push(Variable { index: variable_index, poles });
    lookup[head.row][head.col] = variable_index;
    lookup[tail.row][tail.col] = variable_index;
    proof {
        let before = grid(old(lookup)@);
        let after = grid(lookup@);
        assert forall|a: int, b: int, k: int|
            0 <= a < rows && 0 <= b < cols && 0 <= k < variables@.len()
                && #[trigger] variables@[k].covers(a, b) implies after[a][b] < variables@.len()
            && variables@[after[a][b] as int].covers(a, b) by {
            assert(after[a][b] == lookup@[a]@[b]);
            assert(before[a][b] == old(lookup)@[a]@[b]);
            if (a == head.row && b == head.col) || (a == tail.row && b == tail.col) {
            } else {
                assert(k < old(variables)@.len());
                assert(old(variables)@[k].covers(a, b));
                assert(old(variables)@[before[a][b] as int].covers(a, b));
            }
        }
    }
}

/// Everything that holds while the scan stands at `(i, j)`.
spec fn scan_ok(
    variables: Seq<Variable>,
    lookup: Seq<Seq<usize>>,
    cur: Seq<Seq<u8>>,
    cur_rows: Seq<Vec<u8>>,
    lookup_rows: Seq<Vec<usize>>,
    raw: Seq<Seq<u8>>,
    rows: int,
    cols: int,
    i: int,
    j: int,
) -> bool {
    &&& cur_rows.len() >= rows
    &&& forall|r: int| 0 <= r < rows ==> (#[trigger] cur_rows[r])@.len() >= cols
    &&& lookup_rows.len() == rows
    &&& forall|r: int| 0 <= r < rows ==> (#[trigger] lookup_rows[r])@.len() == cols
    &&& markers_ok(cur, raw, rows, cols, i, j)
    &&& lookup_ok(lookup, raw, rows, cols, i, j)
    &&& dominoes_ok(variables, raw, rows, cols, i, j)
    &&& owners_ok(variables, lookup, rows, cols)
}

/// What the marker of the cell under the scan says about the domino that
/// begins there.
proof fn lemma_partner_at(cur: Seq<Seq<u8>>, raw: Seq<Seq<u8>>, rows: int, cols: int, i: int, j: int)
    requires
        0 <= i < rows,
        0 <= j < cols,
        markers_ok(cur, raw, rows, cols, i, j),
    ensures
        partner_of(raw, rows, cols, i, j) == (if cur[i][j] == 1 && i + 1 < rows {
            Some(Point { row: (i + 1) as usize, col: j as usize })
        } else if cur[i][j] == 0 && j + 1 < cols {
            Some(Point { row: i as usize, col: (j + 1) as usize })
        } else {
            None
        }),
{
    assert(cur[i][j] == (if taken_before(raw, rows, cols, i, j, i, j) {
        2u8
    } else {
        raw[i][j]
    }));
}

/// The scan may pass a cell at which no domino begins.
proof fn lemma_step_without(
    variables: Seq<Variable>,
    lookup: Seq<Seq<usize>>,
    cur: Seq<Seq<u8>>,
    raw: Seq<Seq<u8>>,
    rows: int,
    cols: int,
    i: int,
    j: int,
)
    requires
        0 <= i < rows,
        0 <= j < cols,
        markers_ok(cur, raw, rows, cols, i, j),
        lookup_ok(lookup, raw, rows, cols, i, j),
        dominoes_ok(variables, raw, rows, cols, i, j),
        partner_of(raw, rows, cols, i, j) is None,
    ensures
        markers_ok(cur, raw, rows, cols, i, j + 1),
        lookup_ok(lookup, raw, rows, cols, i, j + 1),
        dominoes_ok(variables, raw, rows, cols, i, j + 1),
{
    assert forall|a: int, b: int|
        0 <= a < rows && 0 <= b < cols && !visited_before(a, b, i, j + 1) implies #[trigger] cur[a][b]
        == (if taken_before(raw, rows, cols, a, b, i, j + 1) {
        2u8
    } else {
        raw[a][b]
    }) by {
        assert(cur[a][b] == (if taken_before(raw, rows, cols, a, b, i, j) {
            2u8
        } else {
            raw[a][b]
        }));
    }
    assert forall|a: int, b: int| 0 <= a < rows && 0 <= b < cols implies #[trigger] lookup[a][b]
        == lookup_before(raw, rows, cols, a, b, i, j + 1) by {
        assert(lookup[a][b] == lookup_before(raw, rows, cols, a, b, i, j));
    }
}

/// The scan may pass a cell at which a domino begins, once the domino has
/// been made.
proof fn lemma_step_with(
    variables: Seq<Variable>,
    lookup: Seq<Seq<usize>>,
    cur: Seq<Seq<u8>>,
    made: Seq<Variable>,
    entered: Seq<Seq<usize>>,
    struck: Seq<Seq<u8>>,
    raw: Seq<Seq<u8>>,
    rows: int,
    cols: int,
    i: int,
    j: int,
    head: Point,
    tail: Point,
)
    requires
        0 <= i < rows <= usize::MAX,
        0 <= j < cols <= usize::MAX,
        markers_ok(cur, raw, rows, cols, i, j),
        lookup_ok(lookup, raw, rows, cols, i, j),
        dominoes_ok(variables, raw, rows, cols, i, j),
        head == (Point { row: i as usize, col: j as usize }),
        partner_of(raw, rows, cols, i, j) == Some(tail),
        made.len() == variables.len() + 1,
        forall|k: int| 0 <= k < variables.len() ==> made[k] == variables[k],
        made.last().index == variables.len(),
        made.last().poles@ == seq![head, tail],
        forall|a: int, b: int|
            0 <= a < rows && 0 <= b < cols ==> #[trigger] struck[a][b] == (if (a == head.row && b
                == head.col) || (a == tail.row && b == tail.col) {
                2u8
            } else {
                cur[a][b]
            }),
        forall|a: int, b: int|
            0 <= a < rows && 0 <= b < cols ==> #[trigger] entered[a][b] == (if (a == head.row && b
                == head.col) || (a == tail.row && b == tail.col) {
                variables.len() as usize
            } else {
                lookup[a][b]
            }),
    ensures
        markers_ok(struck, raw, rows, cols, i, j + 1),
        lookup_ok(entered, raw, rows, cols, i, j + 1),
        dominoes_ok(made, raw, rows, cols, i, j + 1),
{
    let down = Point { row: (i + 1) as usize, col: j as usize };
    let right = Point { row: i as usize, col: (j + 1) as usize };
    assert(tail == down || tail == right);
    assert(tail == down ==> i + 1 < rows);
    assert(tail == right ==> j + 1 < cols);
    assert(!(i >= 1 && partner_of(raw, rows, cols, i - 1, j) == Some(head)));
    assert(!(j >= 1 && partner_of(raw, rows, cols, i, j - 1) == Some(head)));
    assert forall|a: int, b: int|
        0 <= a < rows && 0 <= b < cols && !visited_before(a, b, i, j + 1) implies #[trigger] struck[a][b]
        == (if taken_before(raw, rows, cols, a, b, i, j + 1) {
        2u8
    } else {
        raw[a][b]
    }) by {
        let here = Point { row: a as usize, col: b as usize };
        assert(cur[a][b] == (if taken_before(raw, rows, cols, a, b, i, j) {
            2u8
        } else {
            raw[a][b]
        }));
        if here == tail {
            assert(taken_before(raw, rows, cols, a, b, i, j + 1));
        } else {
            assert(taken_before(raw, rows, cols, a, b, i, j + 1) == taken_before(
                raw,
                rows,
                cols,
                a,
                b,
                i,
                j,
            ));
        }
    }
    assert forall|a: int, b: int| 0 <= a < rows && 0 <= b < cols implies #[trigger] entered[a][b]
        == lookup_before(raw, rows, cols, a, b, i, j + 1) by {
        let here = Point { row: a as usize, col: b as usize };
        assert(lookup[a][b] == lookup_before(raw, rows, cols, a, b, i, j));
        if here == head {
            assert(lookup_before(raw, rows, cols, a, b, i, j + 1) == slot_index(
                raw,
                rows,
                cols,
                i,
                j,
            ));
        } else if here == tail {
            assert(lookup_before(raw, rows, cols, a, b, i, j + 1) == slot_index(
                raw,
                rows,
                cols,
                i,
                j,
            ));
        } else {
            assert(lookup_before(raw, rows, cols, a, b, i, j + 1) == lookup_before(
                raw,
                rows,
                cols,
                a,
                b,
                i,
                j,
            ));
        }
    }
    let after = slots_before(raw, rows, cols, i, j + 1);
    assert(after == slots_before(raw, rows, cols, i, j).push((head, tail)));
    assert forall|k: int| 0 <= k < made.len() implies {
        let v = #[trigger] made[k];
        &&& v.index == k
        &&& v.poles@.len() == 2
        &&& (v.poles@[0], v.poles@[1]) == after[k]
        &&& 0 <= v.poles@[0].row < rows
        &&& 0 <= v.poles@[0].col < cols
        &&& 0 <= v.poles@[1].row < rows
        &&& 0 <= v.poles@[1].col < cols
        &&& {
            ||| (v.poles@[1].row == v.poles@[0].row + 1 && v.poles@[1].col == v.poles@[0].col)
            ||| (v.poles@[1].row == v.poles@[0].row && v.poles@[1].col == v.poles@[0].col + 1)
        }
    } by {
        if k < variables.len() {
            assert(made[k] == variables[k]);
        } else {
            assert(made[k] == made.last());
        }
    }
}

/// Visits the cell `(i, j)`: makes the domino that begins there, if one does.
fn visit_cell(
    variables: &mut Vec<Variable>,
    lookup: &mut Vec<Vec<usize>>,
    raw: &mut Vec<Vec<u8>>,
    i: usize,
    j: usize,
    rows: usize,
    cols: usize,
    seen: Ghost<Seq<Seq<u8>>>,
)
    requires
        i < rows,
        j < cols,
        scan_ok(
            old(variables)@,
            grid(old(lookup)@),
            grid(old(raw)@),
            old(raw)@,
            old(lookup)@,
            seen@,
            rows as int,
            cols as int,
            i as int,
            j as int,
        ),
    ensures
        scan_ok(
            final(variables)@,
            grid(final(lookup)@),
            grid(final(raw)@),
            final(raw)@,
            final(lookup)@,
            seen@,
            rows as int,
            cols as int,
            i as int,
            j + 1,
        ),
{
    let ghost cur = grid(raw@);
    let ghost old_lookup = grid(lookup@);
    let ghost old_variables = variables@;
    proof {
        lemma_partner_at(cur, seen@, rows as int, cols as int, i as int, j as int);
        assert(cur[i as int][j as int] == raw@[i as int]@[j as int]);
    }
    let marker = raw[i][j];
    let head = Point { row: i, col: j };
    if marker == 1 && i + 1 < rows {
        let tail = Point { row: i + 1, col: j };
        add_domino(variables, lookup, raw, head, tail, rows, cols);
        proof {
            lemma_grid_cells(raw@, old(raw)@, rows as int, cols as int);
            lemma_grid_cells(lookup@, old(lookup)@, rows as int, cols as int);
            lemma_step_with(
                old_variables,
                old_lookup,
                cur,
                variables@,
                grid(lookup@),
                grid(raw@),
                seen@,
                rows as int,
                cols as int,
                i as int,
                j as int,
                head,
                tail,
            );
        }
    } else if marker == 0 && j + 1 < cols {
        let tail = Point { row: i, col: j + 1 };
        add_domino(variables, lookup, raw, head, tail, rows, cols);
        proof {
            lemma_grid_cells(raw@, old(raw)@, rows as int, cols as int);
            lemma_grid_cells(lookup@, old(lookup)@, rows as int, cols as int);
            lemma_step_with(
                old_variables,
                old_lookup,
                cur,
                variables@,
                grid(lookup@),
                grid(raw@),
                seen@,
                rows as int,
                cols as int,
                i as int,
                j as int,
                head,
                tail,
            );
        }
    } else {
        proof {
            lemma_step_without(
                old_variables,
                old_lookup,
                cur,
                seen@,
                rows as int,
                cols as int,
                i as int,
                j as int,
            );
        }
    }
}

/// The cells of a grid of vectors, read through its rows.
proof fn lemma_grid_cells<T>(now: Seq<Vec<T>>, before: Seq<Vec<T>>, rows: int, cols: int)
    requires
        now.len() >= rows,
        before.len() >= rows,
    ensures
        forall|a: int, b: int|
            0 <= a < rows && 0 <= b < cols ==> #[trigger] grid(now)[a][b] == now[a]@[b],
        forall|a: int, b: int|
            0 <= a < rows && 0 <= b < cols ==> #[trigger] grid(before)[a][b] == before[a]@[b],
{
}

impl CSP {
    /// The poles of all dominoes, in index order.
    pub open spec fn dominoes(&self) -> Seq<(Point, Point)> {
        Seq::new(self.variables@.len(), |i: int| (self.pole(i, 0), self.pole(i, 1)))
    }

    /// Builds the engine for a puzzle: derives the dominoes and the lookup
    /// table from the raw markers and starts with a blank board.
    pub fn new(
        row_size: usize,
        col_size: usize,
        row_pos_poles: Vec<i32>,
        row_neg_poles: Vec<i32>,
        col_pos_poles: Vec<i32>,
        col_neg_poles: Vec<i32>,
        raw_board: Vec<Vec<u8>>,
        inference_mode: InferenceMode,
    ) -> (csp: CSP)
        requires
            raw_board@.len() >= row_size,
            forall|r: int| 0 <= r < row_size ==> (#[trigger] raw_board@[r])@.len() >= col_size,
            row_pos_poles@.len() == row_size,
            row_neg_poles@.len() == row_size,
            col_pos_poles@.len() == col_size,
            col_neg_poles@.len() == col_size,
        ensures
            csp.wf(),
            csp.is_blank(),
            csp.row_size == row_size,
            csp.col_size == col_size,
            csp.row_pos_poles@ == row_pos_poles@,
            csp.row_neg_poles@ == row_neg_poles@,
            csp.col_pos_poles@ == col_pos_poles@,
            csp.col_neg_poles@ == col_neg_poles@,
            csp.inference_mode == inference_mode,
            csp.lookup_wf(),
            csp.dominoes() == slots(grid(raw_board@), row_size as int, col_size as int),
            forall|r: int, c: int|
                0 <= r < row_size && 0 <= c < col_size
                    ==> #[trigger] csp.board_variable_association@[r]@[c] == lookup_entry(
                    grid(raw_board@),
                    row_size as int,
                    col_size as int,
                    r,
                    c,
                ),
    {
        let ghost raw0 = grid(raw_board@);
        let ghost rows = row_size as int;
        let ghost cols = col_size as int;
        let mut raw = raw_board;
        let board = filled_grid(row_size, col_size, BoardCell::Unassigned);
        let mut lookup = filled_grid(row_size, col_size, 0usize);
        let mut variables: Vec<Variable> = Vec::new();
        let mut i: usize = 0;
        while i < row_size
            invariant
                i <= row_size,
                rows == row_size,
                cols == col_size,
                scan_ok(variables@, grid(lookup@), grid(raw@), raw@, lookup@, raw0, rows, cols, i as int, 0),
            decreases row_size - i,
        {
            let mut j: usize = 0;
            while j < col_size
                invariant
                    i < row_size,
                    j <= col_size,
                    rows == row_size,
                    cols == col_size,
                    scan_ok(variables@, grid(lookup@), grid(raw@), raw@, lookup@, raw0, rows, cols, i as int, j as int),
                decreases col_size - j,
            {
                visit_cell(&mut variables, &mut lookup, &mut raw, i, j, row_size, col_size, Ghost(raw0));
                j += 1;
            }
            i += 1;
        }
        let curr_row_pos_poles = filled(row_size, 0usize);
        let curr_row_neg_poles = filled(row_size, 0usize);
        let curr_col_pos_poles = filled(col_size, 0usize);
        let curr_col_neg_poles = filled(col_size, 0usize);
        let csp = CSP {
            curr_row_pos_poles,
            curr_row_neg_poles,
            curr_col_pos_poles,
            curr_col_neg_poles,
            row_size,
            col_size,
            row_pos_poles,
            row_neg_poles,
            col_pos_poles,
            col_neg_poles,
            board,
            board_variable_association: lookup,
            variables,
            inference_mode,
        };
        proof {
            assert forall|r: int| 0 <= r < row_size implies count_of(
                #[trigger] csp.row_marks(r),
                BoardCell::Positive,
            ) == 0 && count_of(csp.row_marks(r), BoardCell::Negative) == 0 by {
                lemma_count_of_absent(csp.row_marks(r), BoardCell::Positive);
                lemma_count_of_absent(csp.row_marks(r), BoardCell::Negative);
            }
            assert forall|c: int| 0 <= c < col_size implies count_of(
                #[trigger] csp.col_marks(c),
                BoardCell::Positive,
            ) == 0 && count_of(csp.col_marks(c), BoardCell::Negative) == 0 by {
                lemma_count_of_absent(csp.col_marks(c), BoardCell::Positive);
                lemma_count_of_absent(csp.col_marks(c), BoardCell::Negative);
            }
            assert(csp.dominoes() =~= slots(raw0, rows, cols));
            assert forall|r: int, c: int|
                csp.in_grid(r, c) && #[trigger] csp.tiled(r, c) implies csp.owner(r, c) is Some by {
                let k = choose|k: int|
                    0 <= k < csp.variables@.len() && #[trigger] csp.variables@[k].covers(r, c);
                assert(grid(csp.board_variable_association@)[r][c]
                    == csp.board_variable_association@[r]@[c]);
            }
            assert forall|r: int, c: int|
                0 <= r < row_size && 0 <= c < col_size
                    implies #[trigger] csp.board_variable_association@[r]@[c] == lookup_entry(
                raw0,
                rows,
                cols,
                r,
                c,
            ) by {
                assert(grid(csp.board_variable_association@)[r][c] == lookup_before(
                    raw0,
                    rows,
                    cols,
                    r,
                    c,
                    rows,
                    0,
                ));
            }
        }
        csp
    }
}

} // verus!
