//! The mathematical model of the playing field: a row-major sequence of
//! `GRID_SIZE * GRID_SIZE` cells, with the bounds, adjacency, counting and
//! cascade-reachability notions that the grid's contracts are stated over.

use vstd::prelude::*;

use crate::cell::Cell;
use crate::cell::CellState;

verus! {

/// Side length of the square grid.
pub const GRID_SIZE: usize = 10;

/// Number of mines a freshly built grid holds.
pub const BOMB_COUNT: u8 = 10;

/// Whether `(row, col)` lies on the grid.
pub open spec fn spec_in_bounds(row: int, col: int) -> bool {
    0 <= row < GRID_SIZE as int && 0 <= col < GRID_SIZE as int
}

/// Row-major position of `(row, col)` in the flat cell sequence.
pub open spec fn cell_index(row: int, col: int) -> int {
    row * (GRID_SIZE as int) + col
}

/// A board is the flat contents of a grid: the right number of cells, each
/// internally consistent.
pub open spec fn board_wf(b: Seq<Cell>) -> bool {
    &&& b.len() == GRID_SIZE * GRID_SIZE
    &&& forall|i: int| 0 <= i < b.len() ==> (#[trigger] b[i]).wf()
}

/// Whether `(row, col)` is on the board and holds a mine.
pub open spec fn mine_at(b: Seq<Cell>, row: int, col: int) -> bool {
    spec_in_bounds(row, col) && b[cell_index(row, col)].bombed
}

pub open spec fn one_if(cond: bool) -> int {
    if cond {
        1
    } else {
        0
    }
}

/// Number of mines among the up-to-8 neighbors of `(row, col)`: the 3 x 3
/// block around it minus the cell itself, off-board positions counting 0.
/// Kept opaque so that counting facts unfold only where a proof asks.
#[verifier::opaque]
pub open spec fn adjacent_mines(b: Seq<Cell>, row: int, col: int) -> int {
    one_if(mine_at(b, row - 1, col - 1)) + one_if(mine_at(b, row - 1, col)) + one_if(
        mine_at(b, row - 1, col + 1),
    ) + one_if(mine_at(b, row, col - 1)) + one_if(mine_at(b, row, col + 1)) + one_if(
        mine_at(b, row + 1, col - 1),
    ) + one_if(mine_at(b, row + 1, col)) + one_if(mine_at(b, row + 1, col + 1))
}

/// Every cell carries its correct count: 0 on a mine, the number of
/// adjacent mines otherwise.
pub open spec fn counts_correct(b: Seq<Cell>) -> bool {
    forall|r: int, c: int|
        spec_in_bounds(r, c) ==> b[#[trigger] cell_index(r, c)].value as int == (
        if b[cell_index(r, c)].bombed {
            0int
        } else {
            adjacent_mines(b, r, c)
        })
}

/// Number of mines among the first `n` cells.
pub open spec fn mines_below(b: Seq<Cell>, n: int) -> int
    decreases n,
{
    if n <= 0 {
        0
    } else {
        mines_below(b, n - 1) + one_if(b[n - 1].bombed)
    }
}

/// Number of mines on the whole board.
pub open spec fn mine_total(b: Seq<Cell>) -> int {
    mines_below(b, b.len() as int)
}

/// Number of hidden cells among the first `n` cells.
pub open spec fn hidden_below(b: Seq<Cell>, n: int) -> int
    decreases n,
{
    if n <= 0 {
        0
    } else {
        hidden_below(b, n - 1) + one_if(b[n - 1].state == CellState::HIDDEN)
    }
}

/// Number of hidden cells on the whole board.
pub open spec fn hidden_total(b: Seq<Cell>) -> int {
    hidden_below(b, b.len() as int)
}

pub proof fn lemma_hidden_below_bounds(b: Seq<Cell>, n: int)
    requires
        0 <= n <= b.len(),
    ensures
        0 <= hidden_below(b, n) <= n,
    decreases n,
{
    if n > 0 {
        lemma_hidden_below_bounds(b, n - 1);
    }
}

/// A stretch of mine-free cells counts no mines.
pub proof fn lemma_mines_below_zero(b: Seq<Cell>, n: int)
    requires
        0 <= n <= b.len(),
        forall|i: int| 0 <= i < n ==> !(#[trigger] b[i]).bombed,
    ensures
        mines_below(b, n) == 0,
    decreases n,
{
    if n > 0 {
        lemma_mines_below_zero(b, n - 1);
    }
}

/// Boards that agree on where the mines lie count the same mines.
pub proof fn lemma_mines_below_same(b1: Seq<Cell>, b2: Seq<Cell>, n: int)
    requires
        0 <= n <= b1.len(),
        n <= b2.len(),
        forall|i: int| 0 <= i < n ==> (#[trigger] b1[i]).bombed == b2[i].bombed,
    ensures
        mines_below(b1, n) == mines_below(b2, n),
    decreases n,
{
    if n > 0 {
        lemma_mines_below_same(b1, b2, n - 1);
    }
}

/// Replacing one cell shifts the mine count by the difference the new cell
/// makes, and only when the replaced position lies below `n`.
pub proof fn lemma_mines_below_update(b: Seq<Cell>, i: int, c: Cell, n: int)
    requires
        0 <= i < b.len(),
        0 <= n <= b.len(),
    ensures
        mines_below(b.update(i, c), n) == mines_below(b, n) + if i < n {
            one_if(c.bombed) - one_if(b[i].bombed)
        } else {
            0int
        },
    decreases n,
{
    if n > 0 {
        lemma_mines_below_update(b, i, c, n - 1);
    }
}

/// The same, for the count of hidden cells.
pub proof fn lemma_hidden_below_update(b: Seq<Cell>, i: int, c: Cell, n: int)
    requires
        0 <= i < b.len(),
        0 <= n <= b.len(),
    ensures
        hidden_below(b.update(i, c), n) == hidden_below(b, n) + if i < n {
            one_if(c.state == CellState::HIDDEN) - one_if(b[i].state == CellState::HIDDEN)
        } else {
            0int
        },
    decreases n,
{
    if n > 0 {
        lemma_hidden_below_update(b, i, c, n - 1);
    }
}

/// Boards that agree on where the mines lie give every position the same
/// adjacency count.
pub proof fn lemma_adjacent_mines_same(b1: Seq<Cell>, b2: Seq<Cell>, row: int, col: int)
    requires
        b1.len() == GRID_SIZE * GRID_SIZE,
        b2.len() == GRID_SIZE * GRID_SIZE,
        forall|i: int| 0 <= i < b1.len() ==> (#[trigger] b1[i]).bombed == b2[i].bombed,
    ensures
        adjacent_mines(b1, row, col) == adjacent_mines(b2, row, col),
{
    reveal(adjacent_mines);
    assert forall|r: int, c: int| spec_in_bounds(r, c) implies #[trigger] mine_at(b1, r, c)
        == mine_at(b2, r, c) by {
        assert(0 <= cell_index(r, c) < b1.len());
    }
}

/// Every flat position below `GRID_SIZE * GRID_SIZE` names one on-board
/// coordinate pair, and `cell_index` is its inverse.
pub proof fn lemma_flat_coords()
    ensures
        forall|i: int|
            0 <= i < GRID_SIZE * GRID_SIZE ==> spec_in_bounds(
                #[trigger] (i / (GRID_SIZE as int)),
                i % (GRID_SIZE as int),
            ) && cell_index(i / (GRID_SIZE as int), i % (GRID_SIZE as int)) == i,
        forall|r: int, c: int|
            spec_in_bounds(r, c) ==> 0 <= #[trigger] cell_index(r, c) < GRID_SIZE * GRID_SIZE
                && cell_index(r, c) / (GRID_SIZE as int) == r && cell_index(r, c) % (
            GRID_SIZE as int) == c,
{
    assert forall|i: int| 0 <= i < GRID_SIZE * GRID_SIZE implies spec_in_bounds(
        #[trigger] (i / (GRID_SIZE as int)),
        i % (GRID_SIZE as int),
    ) && cell_index(i / (GRID_SIZE as int), i % (GRID_SIZE as int)) == i by {
        vstd::arithmetic::div_mod::lemma_fundamental_div_mod(i, GRID_SIZE as int);
        vstd::arithmetic::div_mod::lemma_mod_bound(i, GRID_SIZE as int);
        vstd::arithmetic::div_mod::lemma_div_pos_is_pos(i, GRID_SIZE as int);
        vstd::arithmetic::div_mod::lemma_div_is_ordered(i, 99, GRID_SIZE as int);
    }
    assert forall|r: int, c: int| spec_in_bounds(r, c) implies 0 <= #[trigger] cell_index(r, c)
        < GRID_SIZE * GRID_SIZE && cell_index(r, c) / (GRID_SIZE as int) == r && cell_index(r, c)
        % (GRID_SIZE as int) == c by {
        vstd::arithmetic::div_mod::lemma_fundamental_div_mod_converse(
            cell_index(r, c),
            GRID_SIZE as int,
            r,
            c,
        );
    }
}

/// Chebyshev-distance-1 neighborhood: the 3 x 3 block minus the cell itself.
pub open spec fn spec_adjacent(r1: int, c1: int, r2: int, c2: int) -> bool {
    &&& -1 <= r2 - r1 <= 1
    &&& -1 <= c2 - c1 <= 1
    &&& !(r2 == r1 && c2 == c1)
}

/// Whether a reveal of `(row, col)` spreads to its neighbors: only a
/// non-mine cell with no adjacent mines cascades.
pub open spec fn cascades(b: Seq<Cell>, row: int, col: int) -> bool {
    &&& !b[cell_index(row, col)].bombed
    &&& b[cell_index(row, col)].value == 0
}

/// One step of a cascade: the cell at `x` spreads, and `y` is next to it.
pub open spec fn flood_link(b: Seq<Cell>, x: (int, int), y: (int, int)) -> bool {
    spec_adjacent(x.0, x.1, y.0, y.1) && cascades(b, x.0, x.1)
}

/// A cascade path on board `b` from `(r0, c0)` to `(r, c)`: a chain of
/// adjacent on-board hidden cells, every cell before the last one a
/// cascading (zero-count, non-mine) cell.
pub open spec fn is_flood_path(
    b: Seq<Cell>,
    p: Seq<(int, int)>,
    r0: int,
    c0: int,
    r: int,
    c: int,
) -> bool {
    &&& p.len() >= 1
    &&& p.first() == (r0, c0)
    &&& p.last() == (r, c)
    &&& forall|k: int|
        0 <= k < p.len() ==> spec_in_bounds((#[trigger] p[k]).0, p[k].1) && b[cell_index(
            p[k].0,
            p[k].1,
        )].state == CellState::HIDDEN
    &&& forall|k: int| 0 <= k < p.len() - 1 ==> #[trigger] flood_link(b, p[k], p[k + 1])
}

/// Whether the reveal started at `(r0, c0)` reaches `(r, c)`: the exact
/// set of cells a call of `Grid::expose_cell` turns from hidden to
/// exposed.
pub open spec fn flood_reaches(b: Seq<Cell>, r0: int, c0: int, r: int, c: int) -> bool {
    exists|p: Seq<(int, int)>| is_flood_path(b, p, r0, c0, r, c)
}

/// The cell as the reveal leaves it: visible, mine flag and count intact.
pub open spec fn exposed_version(c: Cell) -> Cell {
    Cell { state: CellState::EXPOSED, bombed: c.bombed, value: c.value }
}

/// The whole board as one reveal of `(r0, c0)` leaves it: untouched unless
/// that cell is hidden, otherwise every reached cell exposed and the rest
/// kept.
pub open spec fn flood_result(b: Seq<Cell>, r0: int, c0: int) -> Seq<Cell> {
    if b[cell_index(r0, c0)].state != CellState::HIDDEN {
        b
    } else {
        Seq::new(
            b.len(),
            |i: int|
                if flood_reaches(b, r0, c0, i / (GRID_SIZE as int), i % (GRID_SIZE as int)) {
                    exposed_version(b[i])
                } else {
                    b[i]
                },
        )
    }
}

/// How play moves a board forward: mine flags and counts are fixed, and
/// the only state change a reveal makes is hidden to exposed.
pub open spec fn states_advance(b0: Seq<Cell>, b: Seq<Cell>) -> bool {
    &&& b.len() == b0.len()
    &&& forall|i: int|
        0 <= i < b0.len() ==> (#[trigger] b[i]).bombed == b0[i].bombed && b[i].value
            == b0[i].value && (b[i].state == b0[i].state || (b0[i].state == CellState::HIDDEN
            && b[i].state == CellState::EXPOSED))
}

/// A settled cascade: every newly exposed cascading cell has no hidden
/// neighbor left.
pub open spec fn cascade_frontier_closed(b0: Seq<Cell>, b: Seq<Cell>) -> bool {
    forall|r: int, c: int, r2: int, c2: int|
        spec_in_bounds(r, c) && b0[#[trigger] cell_index(r, c)].state == CellState::HIDDEN
            && b[cell_index(r, c)].state == CellState::EXPOSED && cascades(b0, r, c)
            && spec_in_bounds(r2, c2) && spec_adjacent(r, c, r2, c2) ==> b[#[trigger] cell_index(
            r2,
            c2,
        )].state != CellState::HIDDEN
}

/// The cell as one seal toggle leaves it: sealed becomes hidden, hidden
/// becomes sealed, exposed stays exposed.
pub open spec fn toggled_cell(c: Cell) -> Cell {
    match c.state {
        CellState::SEALED => Cell { state: CellState::HIDDEN, bombed: c.bombed, value: c.value },
        CellState::HIDDEN => Cell { state: CellState::SEALED, bombed: c.bombed, value: c.value },
        CellState::EXPOSED => c,
    }
}

/// The whole board as one seal toggle of `(row, col)` leaves it.
pub open spec fn toggle_result(b: Seq<Cell>, row: int, col: int) -> Seq<Cell> {
    b.update(cell_index(row, col), toggled_cell(b[cell_index(row, col)]))
}

/// Toggling the seal is a strict involution on hidden and sealed cells,
/// and a no-op on exposed ones.
pub proof fn lemma_toggle_cell_involution(c: Cell)
    ensures
        c.state == CellState::EXPOSED ==> toggled_cell(c) == c,
        c.state != CellState::EXPOSED ==> toggled_cell(c) != c,
        toggled_cell(toggled_cell(c)) == c,
{
}

/// Toggling the seal of the same cell twice gives the board back unchanged.
pub proof fn lemma_toggle_board_involution(b: Seq<Cell>, row: int, col: int)
    requires
        b.len() == GRID_SIZE * GRID_SIZE,
        spec_in_bounds(row, col),
    ensures
        toggle_result(toggle_result(b, row, col), row, col) == b,
{
    lemma_flat_coords();
    let i = cell_index(row, col);
    let b1 = toggle_result(b, row, col);
    assert(b1[i] == toggled_cell(b[i]));
    lemma_toggle_cell_involution(b[i]);
    assert(toggle_result(b1, row, col) =~= b);
}

/// What one reveal leaves at each position: every cell the cascade from a
/// hidden `(r0, c0)` reaches turns exposed, everything else is untouched.
pub proof fn lemma_flood_result_pointwise(b: Seq<Cell>, r0: int, c0: int)
    requires
        b.len() == GRID_SIZE * GRID_SIZE,
        spec_in_bounds(r0, c0),
    ensures
        flood_result(b, r0, c0).len() == b.len(),
        forall|r: int, c: int|
            spec_in_bounds(r, c) ==> flood_result(b, r0, c0)[#[trigger] cell_index(r, c)] == (
            if b[cell_index(r0, c0)].state == CellState::HIDDEN && flood_reaches(b, r0, c0, r, c) {
                exposed_version(b[cell_index(r, c)])
            } else {
                b[cell_index(r, c)]
            }),
{
    lemma_flat_coords();
    if b[cell_index(r0, c0)].state == CellState::HIDDEN {
        assert forall|r: int, c: int| spec_in_bounds(r, c) implies flood_result(b, r0, c0)[
            #[trigger] cell_index(r, c)
        ] == (if b[cell_index(r0, c0)].state == CellState::HIDDEN && flood_reaches(
            b,
            r0,
            c0,
            r,
            c,
        ) {
            exposed_version(b[cell_index(r, c)])
        } else {
            b[cell_index(r, c)]
        }) by {
            let i = cell_index(r, c);
            assert(i / (GRID_SIZE as int) == r && i % (GRID_SIZE as int) == c);
        }
    }
}

/// Revealing the same cell a second time changes nothing: the first call
/// has already exposed everything the cascade reaches.
pub proof fn lemma_expose_idempotent(b: Seq<Cell>, r0: int, c0: int)
    requires
        b.len() == GRID_SIZE * GRID_SIZE,
        spec_in_bounds(r0, c0),
    ensures
        flood_result(flood_result(b, r0, c0), r0, c0) == flood_result(b, r0, c0),
{
    let b1 = flood_result(b, r0, c0);
    let i0 = cell_index(r0, c0);
    lemma_flat_coords();
    if b[i0].state == CellState::HIDDEN {
        lemma_flood_reaches_self(b, r0, c0);
        lemma_flood_result_pointwise(b, r0, c0);
        assert(b1[i0] == exposed_version(b[i0]));
        assert(b1[i0].state != CellState::HIDDEN);
    } else {
        assert(b1 == b);
    }
}

/// A hidden cell is reached by its own reveal.
pub proof fn lemma_flood_reaches_self(b: Seq<Cell>, r0: int, c0: int)
    requires
        spec_in_bounds(r0, c0),
        b[cell_index(r0, c0)].state == CellState::HIDDEN,
    ensures
        flood_reaches(b, r0, c0, r0, c0),
{
    let p: Seq<(int, int)> = seq![(r0, c0)];
    assert(is_flood_path(b, p, r0, c0, r0, c0));
}

/// A reveal that reaches a cascading cell also reaches every hidden
/// on-board neighbor of it: the cascade takes in the whole connected
/// zero-count region and that region's border.
pub proof fn lemma_flood_reaches_step(
    b: Seq<Cell>,
    r0: int,
    c0: int,
    r: int,
    c: int,
    r2: int,
    c2: int,
)
    requires
        flood_reaches(b, r0, c0, r, c),
        cascades(b, r, c),
        spec_adjacent(r, c, r2, c2),
        spec_in_bounds(r2, c2),
        b[cell_index(r2, c2)].state == CellState::HIDDEN,
    ensures
        flood_reaches(b, r0, c0, r2, c2),
{
    let p = choose|p: Seq<(int, int)>| is_flood_path(b, p, r0, c0, r, c);
    let p2 = p.push((r2, c2));
    assert(p2.last() == (r2, c2));
    assert forall|k: int| 0 <= k < p2.len() implies spec_in_bounds(
        (#[trigger] p2[k]).0,
        p2[k].1,
    ) && b[cell_index(p2[k].0, p2[k].1)].state == CellState::HIDDEN by {
        if k < p.len() {
            assert(p2[k] == p[k]);
        }
    }
    assert forall|k: int| 0 <= k < p2.len() - 1 implies #[trigger] flood_link(
        b,
        p2[k],
        p2[k + 1],
    ) by {
        if k < p.len() - 1 {
            assert(flood_link(b, p[k], p[k + 1]));
            assert(p2[k] == p[k]);
            assert(p2[k + 1] == p[k + 1]);
        } else {
            assert(p2[k] == p.last());
            assert(p2[k + 1] == (r2, c2));
        }
    }
    assert(is_flood_path(b, p2, r0, c0, r2, c2));
}

/// Only hidden on-board cells take part in a cascade, start and end
/// included.
pub proof fn lemma_flood_reaches_hidden(b: Seq<Cell>, r0: int, c0: int, r: int, c: int)
    requires
        flood_reaches(b, r0, c0, r, c),
    ensures
        spec_in_bounds(r0, c0),
        spec_in_bounds(r, c),
        b[cell_index(r0, c0)].state == CellState::HIDDEN,
        b[cell_index(r, c)].state == CellState::HIDDEN,
{
    let p = choose|p: Seq<(int, int)>| is_flood_path(b, p, r0, c0, r, c);
    assert(p[0] == (r0, c0));
    assert(p[p.len() - 1] == (r, c));
}

/// On a correctly counted board, a zero-count non-mine cell has no mine
/// next to it.
pub proof fn lemma_zero_count_no_neighbor_mine(b: Seq<Cell>, qr: int, qc: int, r: int, c: int)
    requires
        counts_correct(b),
        spec_in_bounds(qr, qc),
        !b[cell_index(qr, qc)].bombed,
        b[cell_index(qr, qc)].value == 0,
        spec_adjacent(qr, qc, r, c),
    ensures
        !mine_at(b, r, c),
{
    reveal(adjacent_mines);
    assert(b[cell_index(qr, qc)].value as int == adjacent_mines(b, qr, qc));
    assert(adjacent_mines(b, qr, qc) == 0);
    assert(!mine_at(b, qr - 1, qc - 1) && !mine_at(b, qr - 1, qc) && !mine_at(b, qr - 1, qc + 1)
        && !mine_at(b, qr, qc - 1) && !mine_at(b, qr, qc + 1) && !mine_at(b, qr + 1, qc - 1)
        && !mine_at(b, qr + 1, qc) && !mine_at(b, qr + 1, qc + 1));
    assert(r == qr - 1 || r == qr || r == qr + 1);
    assert(c == qc - 1 || c == qc || c == qc + 1);
}

/// A cascade never crosses into a mine: on a correctly counted board, the
/// only mine a reveal can expose is the cell it started at.
pub proof fn lemma_flood_never_exposes_mine(b: Seq<Cell>, r0: int, c0: int, r: int, c: int)
    requires
        board_wf(b),
        counts_correct(b),
        flood_reaches(b, r0, c0, r, c),
        !(r == r0 && c == c0),
    ensures
        !b[cell_index(r, c)].bombed,
{
    let p = choose|p: Seq<(int, int)>| is_flood_path(b, p, r0, c0, r, c);
    if p.len() == 1 {
        assert(p[0] == (r0, c0));
        assert(p[p.len() - 1] == (r, c));
        assert(false);
    } else {
        let k = p.len() - 2;
        let q = p[k];
        let qr = q.0;
        let qc = q.1;
        assert(flood_link(b, p[k], p[k + 1]));
        assert(spec_adjacent(qr, qc, r, c)) by {
            assert(p[k + 1] == (r, c));
        }
        assert(cascades(b, qr, qc));
        assert(spec_in_bounds(qr, qc));
        lemma_zero_count_no_neighbor_mine(b, qr, qc, r, c);
        assert(spec_in_bounds(r, c)) by {
            let k1 = p.len() - 1;
            assert(p[k1] == (r, c));
        }
    }
}

/// A reveal leaves every mine as it was, except possibly the cell it was
/// aimed at: the cascade never crosses into or past a mine.
pub proof fn lemma_reveal_exposes_no_new_mine(b: Seq<Cell>, r0: int, c0: int)
    requires
        board_wf(b),
        counts_correct(b),
        spec_in_bounds(r0, c0),
    ensures
        forall|r: int, c: int|
            spec_in_bounds(r, c) && !(r == r0 && c == c0) && b[#[trigger] cell_index(
                r,
                c,
            )].bombed ==> flood_result(b, r0, c0)[cell_index(r, c)] == b[cell_index(r, c)],
{
    lemma_flood_result_pointwise(b, r0, c0);
    assert forall|r: int, c: int|
        spec_in_bounds(r, c) && !(r == r0 && c == c0) && b[#[trigger] cell_index(
            r,
            c,
        )].bombed implies flood_result(b, r0, c0)[cell_index(r, c)] == b[cell_index(r, c)] by {
        if flood_reaches(b, r0, c0, r, c) {
            lemma_flood_never_exposes_mine(b, r0, c0, r, c);
        }
    }
}

/// Once a cascade has settled, every cell its start reaches is exposed:
/// the reveal covers the full reachable region.
pub proof fn lemma_flood_complete(
    b0: Seq<Cell>,
    b: Seq<Cell>,
    r0: int,
    c0: int,
    p: Seq<(int, int)>,
    r: int,
    c: int,
)
    requires
        states_advance(b0, b),
        cascade_frontier_closed(b0, b),
        spec_in_bounds(r0, c0),
        b[cell_index(r0, c0)].state == CellState::EXPOSED,
        is_flood_path(b0, p, r0, c0, r, c),
        forall|rr: int, cc: int|
            spec_in_bounds(rr, cc) ==> 0 <= #[trigger] cell_index(rr, cc) < b0.len(),
    ensures
        b[cell_index(r, c)].state == CellState::EXPOSED,
    decreases p.len(),
{
    if p.len() == 1 {
        assert(p[0] == (r0, c0));
        assert(p[p.len() - 1] == (r, c));
    } else {
        let q = p[p.len() - 2];
        let p2 = p.drop_last();
        assert(p2.last() == q);
        assert(p2.first() == p.first());
        assert forall|k: int| 0 <= k < p2.len() implies spec_in_bounds(
            (#[trigger] p2[k]).0,
            p2[k].1,
        ) && b0[cell_index(p2[k].0, p2[k].1)].state == CellState::HIDDEN by {
            assert(p2[k] == p[k]);
        }
        assert forall|k: int| 0 <= k < p2.len() - 1 implies #[trigger] flood_link(
            b0,
            p2[k],
            p2[k + 1],
        ) by {
            assert(flood_link(b0, p[k], p[k + 1]));
            assert(p2[k] == p[k]);
            assert(p2[k + 1] == p[k + 1]);
        }
        assert(is_flood_path(b0, p2, r0, c0, q.0, q.1));
        lemma_flood_complete(b0, b, r0, c0, p2, q.0, q.1);
        let k2 = p.len() - 2;
        assert(flood_link(b0, p[k2], p[k2 + 1]));
        assert(p[k2] == q && p[k2 + 1] == (r, c));
        assert(spec_adjacent(q.0, q.1, r, c) && cascades(b0, q.0, q.1));
        assert(b[cell_index(r, c)].state != CellState::HIDDEN);
        assert(b0[cell_index(r, c)].state == CellState::HIDDEN);
        assert(0 <= cell_index(r, c) < b0.len());
    }
}

} // verus!
