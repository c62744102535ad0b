//! The playing field: mine placement, adjacency counting, the cascading
//! reveal and seal toggling.

use vstd::prelude::*;

use crate::board::BOMB_COUNT;
use crate::board::GRID_SIZE;
use crate::board::adjacent_mines;
use crate::board::board_wf;
use crate::board::cascade_frontier_closed;
use crate::board::cascades;
use crate::board::cell_index;
use crate::board::counts_correct;
use crate::board::exposed_version;
use crate::board::flood_reaches;
use crate::board::flood_result;
use crate::board::hidden_total;
use crate::board::is_flood_path;
use crate::board::lemma_adjacent_mines_same;
use crate::board::lemma_flat_coords;
use crate::board::lemma_flood_complete;
use crate::board::lemma_flood_reaches_hidden;
use crate::board::lemma_flood_reaches_self;
use crate::board::lemma_flood_reaches_step;
use crate::board::lemma_flood_result_pointwise;
use crate::board::lemma_hidden_below_bounds;
use crate::board::lemma_hidden_below_update;
use crate::board::lemma_mines_below_same;
use crate::board::lemma_mines_below_update;
use crate::board::lemma_mines_below_zero;
use crate::board::mine_at;
use crate::board::mine_total;
use crate::board::mines_below;
use crate::board::one_if;
use crate::board::spec_adjacent;
use crate::board::spec_in_bounds;
use crate::board::states_advance;
use crate::board::toggle_result;
use crate::board::toggled_cell;
use crate::cell::Cell;
use crate::cell::CellState;
use crate::rng::gen_index;
use crate::rng::new_rng;

verus! {

/// Whether the worklist holds the coordinate pair `(r, c)`.
spec fn in_stack(s: Seq<(isize, isize)>, r: int, c: int) -> bool {
    exists|k: int| 0 <= k < s.len() && (#[trigger] s[k]).0 as int == r && s[k].1 as int == c
}

/// The running form of a settled cascade: every newly exposed cascading
/// cell has each of its neighbors either no longer hidden or still on the
/// worklist.
spec fn frontier_pending(b0: Seq<Cell>, b: Seq<Cell>, s: Seq<(isize, isize)>) -> bool {
    forall|r: int, c: int, r2: int, c2: int|
        spec_in_bounds(r, c) && b0[#[trigger] cell_index(r, c)].state == CellState::HIDDEN
            && b[cell_index(r, c)].state == CellState::EXPOSED && cascades(b0, r, c)
            && spec_in_bounds(r2, c2) && spec_adjacent(r, c, r2, c2) ==> b[#[trigger] cell_index(
            r2,
            c2,
        )].state != CellState::HIDDEN || in_stack(s, r2, c2)
}

/// An entry of the worklist still matters only while its cell is hidden;
/// every such entry is reachable from the start of the running reveal.
spec fn stack_valid(b0: Seq<Cell>, s: Seq<(isize, isize)>, r0: int, c0: int) -> bool {
    forall|k: int|
        0 <= k < s.len() ==> (spec_in_bounds((#[trigger] s[k]).0 as int, s[k].1 as int) && b0[
            cell_index(s[k].0 as int, s[k].1 as int)
        ].state == CellState::HIDDEN ==> flood_reaches(b0, r0, c0, s[k].0 as int, s[k].1 as int))
}

/// A coordinate pair in a shorter list stays present when the list only
/// grows at the end.
proof fn lemma_in_stack_prefix(s1: Seq<(isize, isize)>, s2: Seq<(isize, isize)>, r: int, c: int)
    requires
        s1.len() <= s2.len(),
        forall|k: int| 0 <= k < s1.len() ==> s2[k] == s1[k],
        in_stack(s1, r, c),
    ensures
        in_stack(s2, r, c),
{
    let k = choose|k: int|
        0 <= k < s1.len() && (#[trigger] s1[k]).0 as int == r && s1[k].1 as int == c;
    assert(s2[k] == s1[k]);
    assert((s2[k]).0 as int == r && s2[k].1 as int == c);
}

/// Taking the last entry off the worklist loses at most that one pair.
proof fn lemma_in_stack_pop(s: Seq<(isize, isize)>, r: int, c: int)
    requires
        s.len() > 0,
        in_stack(s, r, c),
    ensures
        in_stack(s.drop_last(), r, c) || (s.last().0 as int == r && s.last().1 as int == c),
{
    let k = choose|k: int| 0 <= k < s.len() && (#[trigger] s[k]).0 as int == r && s[k].1 as int
        == c;
    if k < s.len() - 1 {
        assert(s.drop_last()[k] == s[k]);
    }
}

/// The square grid of cells, stored row-major in a flat buffer of
/// `GRID_SIZE * GRID_SIZE` entries: the cell at `(row, col)` sits at
/// `row * GRID_SIZE + col`.
#[derive(Debug)]
pub struct Grid {
    pub cells: Vec<Cell>,
}

impl Grid {
    /// The grid has the right number of cells and each is internally
    /// consistent.
    pub open spec fn wf(self) -> bool {
        board_wf(self.cells@)
    }

    /// Build a fresh playing field: all cells hidden, exactly `BOMB_COUNT`
    /// mines placed at random distinct positions, and every cell carrying
    /// its correct adjacency count.
    pub fn new() -> (g: Grid)
        ensures
            g.wf(),
            g.cells@.len() == GRID_SIZE * GRID_SIZE,
            counts_correct(g.cells@),
            mine_total(g.cells@) == BOMB_COUNT as int,
            forall|i: int|
                0 <= i < g.cells@.len() ==> (#[trigger] g.cells@[i]).state == CellState::HIDDEN,
    {
        let mut cells: Vec<Cell> = Vec::new();
        let mut i: usize = 0;
        while i < GRID_SIZE * GRID_SIZE
            invariant
                cells@.len() == i as int,
                i <= GRID_SIZE * GRID_SIZE,
                forall|k: int|
                    0 <= k < i as int ==> (#[trigger] cells@[k]) == (Cell {
                        state: CellState::HIDDEN,
                        bombed: false,
                        value: 0,
                    }),
            decreases GRID_SIZE * GRID_SIZE - i,
        {
            cells.push(Cell::new());
            i = i + 1;
        }
        let mut g = Grid { cells };
        g.assign_bombs();
        let ghost placed = g.cells@;
        g.calculate_valued_cells();
        proof {
            lemma_mines_below_same(g.cells@, placed, (GRID_SIZE * GRID_SIZE) as int);
        }
        g
    }

    /// Scatter `BOMB_COUNT` mines over distinct cells, drawing each one
    /// uniformly from the positions still free.
    fn assign_bombs(&mut self)
        requires
            old(self).cells@.len() == GRID_SIZE * GRID_SIZE,
            forall|i: int|
                0 <= i < old(self).cells@.len() ==> !(#[trigger] old(self).cells@[i]).bombed && old(
                    self,
                ).cells@[i].value == 0 && old(self).cells@[i].state == CellState::HIDDEN,
        ensures
            final(self).cells@.len() == GRID_SIZE * GRID_SIZE,
            forall|i: int|
                0 <= i < final(self).cells@.len() ==> (#[trigger] final(self).cells@[i]).value == 0
                    && final(self).cells@[i].state == CellState::HIDDEN,
            mine_total(final(self).cells@) == BOMB_COUNT as int,
    {
        let mut free: Vec<usize> = Vec::new();
        let mut i: usize = 0;
        while i < GRID_SIZE * GRID_SIZE
            invariant
                free@.len() == i as int,
                i <= GRID_SIZE * GRID_SIZE,
                forall|k: int| 0 <= k < i as int ==> (#[trigger] free@[k]) as int == k,
            decreases GRID_SIZE * GRID_SIZE - i,
        {
            free.push(i);
            i = i + 1;
        }
        proof {
            lemma_mines_below_zero(self.cells@, (GRID_SIZE * GRID_SIZE) as int);
        }
        let mut rng = new_rng();
        let mut placed: u8 = 0;
        while placed < BOMB_COUNT
            invariant
                self.cells@.len() == GRID_SIZE * GRID_SIZE,
                placed <= BOMB_COUNT,
                free@.len() == GRID_SIZE * GRID_SIZE - placed as int,
                forall|k: int|
                    0 <= k < free@.len() ==> (#[trigger] free@[k]) < GRID_SIZE * GRID_SIZE
                        && !self.cells@[free@[k] as int].bombed,
                forall|k1: int, k2: int|
                    0 <= k1 < k2 < free@.len() ==> free@[k1] != free@[k2],
                forall|i: int|
                    0 <= i < self.cells@.len() ==> (#[trigger] self.cells@[i]).value == 0
                        && self.cells@[i].state == CellState::HIDDEN,
                mines_below(self.cells@, (GRID_SIZE * GRID_SIZE) as int) == placed as int,
            decreases BOMB_COUNT - placed,
        {
            let r = gen_index(&mut rng, free.len());
            let ghost free0 = free@;
            let p = free.remove(r);
            proof {
                free0.remove_ensures(r as int);
            }
            let mut cl = self.cells[p];
            let ghost bpre = self.cells@;
            cl.set_bombed();
            self.cells[p] = cl;
            proof {
                lemma_mines_below_update(bpre, p as int, cl, (GRID_SIZE * GRID_SIZE) as int);
                assert forall|k: int| 0 <= k < free@.len() implies (#[trigger] free@[k]) < GRID_SIZE
                    * GRID_SIZE && !self.cells@[free@[k] as int].bombed by {
                    if k < r as int {
                        assert(free@[k] == free0[k]);
                        assert(free0[k] != free0[r as int]);
                    } else {
                        assert(free@[k] == free0[k + 1]);
                        assert(free0[k + 1] != free0[r as int]);
                    }
                }
                assert forall|k1: int, k2: int| 0 <= k1 < k2 < free@.len() implies free@[k1]
                    != free@[k2] by {
                    if k1 < r as int {
                        assert(free@[k1] == free0[k1]);
                    } else {
                        assert(free@[k1] == free0[k1 + 1]);
                    }
                    if k2 < r as int {
                        assert(free@[k2] == free0[k2]);
                    } else {
                        assert(free@[k2] == free0[k2 + 1]);
                    }
                }
            }
            placed = placed + 1;
        }
    }

    /// Read whether the cell at an on-board position is a mine.
    fn is_mine(&self, row: usize, col: usize) -> (r: bool)
        requires
            self.cells@.len() == GRID_SIZE * GRID_SIZE,
            spec_in_bounds(row as int, col as int),
        ensures
            r == self.cells@[cell_index(row as int, col as int)].bombed,
    {
        self.cells[row * GRID_SIZE + col].bombed
    }

    /// Count the mines among the up-to-8 neighbors of `(row, col)`.
    fn count_adjacent_mines(&self, row: usize, col: usize) -> (n: u8)
        requires
            self.cells@.len() == GRID_SIZE * GRID_SIZE,
            spec_in_bounds(row as int, col as int),
        ensures
            n as int == adjacent_mines(self.cells@, row as int, col as int),
            n <= 8,
    {
        let ghost b = self.cells@;
        let m1: u8 = if row > 0 && col > 0 && self.is_mine(row - 1, col - 1) {
            1
        } else {
            0
        };
        let m2: u8 = if row > 0 && self.is_mine(row - 1, col) {
            1
        } else {
            0
        };
        let m3: u8 = if row > 0 && col + 1 < GRID_SIZE && self.is_mine(row - 1, col + 1) {
            1
        } else {
            0
        };
        let m4: u8 = if col > 0 && self.is_mine(row, col - 1) {
            1
        } else {
            0
        };
        let m5: u8 = if col + 1 < GRID_SIZE && self.is_mine(row, col + 1) {
            1
        } else {
            0
        };
        let m6: u8 = if row + 1 < GRID_SIZE && col > 0 && self.is_mine(row + 1, col - 1) {
            1
        } else {
            0
        };
        let m7: u8 = if row + 1 < GRID_SIZE && self.is_mine(row + 1, col) {
            1
        } else {
            0
        };
        let m8: u8 = if row + 1 < GRID_SIZE && col + 1 < GRID_SIZE && self.is_mine(
            row + 1,
            col + 1,
        ) {
            1
        } else {
            0
        };
        proof {
            assert(m1 as int == one_if(mine_at(b, row as int - 1, col as int - 1)));
            assert(m2 as int == one_if(mine_at(b, row as int - 1, col as int)));
            assert(m3 as int == one_if(mine_at(b, row as int - 1, col as int + 1)));
            assert(m4 as int == one_if(mine_at(b, row as int, col as int - 1)));
            assert(m5 as int == one_if(mine_at(b, row as int, col as int + 1)));
            assert(m6 as int == one_if(mine_at(b, row as int + 1, col as int - 1)));
            assert(m7 as int == one_if(mine_at(b, row as int + 1, col as int)));
            assert(m8 as int == one_if(mine_at(b, row as int + 1, col as int + 1)));
            reveal(adjacent_mines);
        }
        m1 + m2 + m3 + m4 + m5 + m6 + m7 + m8
    }

    /// Give every non-mine cell its adjacency count; mines keep count 0.
    pub fn calculate_valued_cells(&mut self)
        requires
            old(self).cells@.len() == GRID_SIZE * GRID_SIZE,
            forall|i: int|
                0 <= i < old(self).cells@.len() ==> (#[trigger] old(self).cells@[i]).value == 0,
        ensures
            final(self).cells@.len() == GRID_SIZE * GRID_SIZE,
            forall|i: int|
                0 <= i < final(self).cells@.len() ==> (#[trigger] final(self).cells@[i]).bombed
                    == old(self).cells@[i].bombed && final(self).cells@[i].state
                    == old(self).cells@[i].state,
            counts_correct(final(self).cells@),
            board_wf(final(self).cells@),
    {
        let ghost b0 = self.cells@;
        let mut row: usize = 0;
        while row < GRID_SIZE
            invariant
                self.cells@.len() == GRID_SIZE * GRID_SIZE,
                b0.len() == GRID_SIZE * GRID_SIZE,
                row <= GRID_SIZE,
                forall|i: int| 0 <= i < b0.len() ==> (#[trigger] b0[i]).value == 0,
                forall|i: int|
                    0 <= i < b0.len() ==> (#[trigger] self.cells@[i]).bombed == b0[i].bombed
                        && self.cells@[i].state == b0[i].state,
                forall|i: int|
                    row * GRID_SIZE <= i < b0.len() ==> (#[trigger] self.cells@[i]).value == 0,
                forall|i: int|
                    0 <= i < b0.len() ==> (#[trigger] self.cells@[i]).value <= 8,
                forall|r: int, c: int|
                    spec_in_bounds(r, c) && cell_index(r, c) < row * GRID_SIZE ==> self.cells@[
                        #[trigger] cell_index(r, c)
                    ].value as int == (if self.cells@[cell_index(r, c)].bombed {
                        0int
                    } else {
                        adjacent_mines(self.cells@, r, c)
                    }),
            decreases GRID_SIZE - row,
        {
            let mut col: usize = 0;
            while col < GRID_SIZE
                invariant
                    self.cells@.len() == GRID_SIZE * GRID_SIZE,
                    b0.len() == GRID_SIZE * GRID_SIZE,
                    row < GRID_SIZE,
                    col <= GRID_SIZE,
                    forall|i: int| 0 <= i < b0.len() ==> (#[trigger] b0[i]).value == 0,
                    forall|i: int|
                        0 <= i < b0.len() ==> (#[trigger] self.cells@[i]).bombed == b0[i].bombed
                            && self.cells@[i].state == b0[i].state,
                    forall|i: int|
                        row * GRID_SIZE + col <= i < b0.len() ==> (#[trigger] self.cells@[i]).value
                            == 0,
                    forall|i: int|
                        0 <= i < b0.len() ==> (#[trigger] self.cells@[i]).value <= 8,
                    forall|r: int, c: int|
                        spec_in_bounds(r, c) && cell_index(r, c) < row * GRID_SIZE + col
                            ==> self.cells@[#[trigger] cell_index(r, c)].value as int == (
                        if self.cells@[cell_index(r, c)].bombed {
                            0int
                        } else {
                            adjacent_mines(self.cells@, r, c)
                        }),
                decreases GRID_SIZE - col,
            {
                let i = row * GRID_SIZE + col;
                if !self.cells[i].bombed {
                    let n = self.count_adjacent_mines(row, col);
                    let mut cl = self.cells[i];
                    cl.value = n;
                    let ghost bpre = self.cells@;
                    self.cells[i] = cl;
                    proof {
                        lemma_flat_coords();
                        assert forall|r: int, c: int|
                            spec_in_bounds(r, c) && cell_index(r, c) < row * GRID_SIZE + col
                                + 1 implies self.cells@[#[trigger] cell_index(r, c)].value as int
                            == (if self.cells@[cell_index(r, c)].bombed {
                            0int
                        } else {
                            adjacent_mines(self.cells@, r, c)
                        }) by {
                            lemma_adjacent_mines_same(bpre, self.cells@, r, c);
                        }
                    }
                } else {
                    proof {
                        lemma_flat_coords();
                        assert forall|r: int, c: int|
                            spec_in_bounds(r, c) && cell_index(r, c) < row * GRID_SIZE + col
                                + 1 implies self.cells@[#[trigger] cell_index(r, c)].value as int
                            == (if self.cells@[cell_index(r, c)].bombed {
                            0int
                        } else {
                            adjacent_mines(self.cells@, r, c)
                        }) by {
                        }
                    }
                }
                col = col + 1;
            }
            row = row + 1;
        }
        proof {
            lemma_flat_coords();
            assert(counts_correct(self.cells@));
            assert forall|i: int| 0 <= i < self.cells@.len() implies (
            #[trigger] self.cells@[i]).wf() by {
                let r = i / (GRID_SIZE as int);
                let c = i % (GRID_SIZE as int);
                assert(spec_in_bounds(r, c) && cell_index(r, c) == i);
            }
        }
    }

    /// Reveal the cell at `(row, col)`. A sealed or already exposed cell
    /// is left alone. A hidden cell turns exposed; when it is a zero-count
    /// non-mine cell the reveal spreads to its neighbors, exposing exactly
    /// the cells that `flood_reaches` names: the connected zero-count
    /// region around the start together with its numbered border.
    pub fn expose_cell(&mut self, row: usize, col: usize)
        requires
            old(self).wf(),
            spec_in_bounds(row as int, col as int),
        ensures
            final(self).wf(),
            states_advance(old(self).cells@, final(self).cells@),
            final(self).cells@ == flood_result(old(self).cells@, row as int, col as int),
    {
        proof {
            lemma_flat_coords();
        }
        let ghost b0 = self.cells@;
        let ghost row0 = row as int;
        let ghost col0 = col as int;
        let ii = row * GRID_SIZE + col;
        if self.cells[ii].state == CellState::HIDDEN {
            let mut pending: Vec<(isize, isize)> = Vec::new();
            pending.push((row as isize, col as isize));
            proof {
                assert(pending@[0] == (row as isize, col as isize));
                assert(in_stack(pending@, row0, col0));
                lemma_flood_reaches_self(b0, row0, col0);
                lemma_hidden_below_bounds(b0, (GRID_SIZE * GRID_SIZE) as int);
            }
            while pending.len() > 0
                invariant
                    board_wf(b0),
                    b0.len() == GRID_SIZE * GRID_SIZE,
                    spec_in_bounds(row0, col0),
                    b0[cell_index(row0, col0)].state == CellState::HIDDEN,
                    states_advance(b0, self.cells@),
                    board_wf(self.cells@),
                    0 <= hidden_total(self.cells@) <= GRID_SIZE * GRID_SIZE,
                    forall|r: int, c: int|
                        spec_in_bounds(r, c) && b0[#[trigger] cell_index(r, c)].state
                            == CellState::HIDDEN && self.cells@[cell_index(r, c)].state
                            == CellState::EXPOSED ==> flood_reaches(b0, row0, col0, r, c),
                    stack_valid(b0, pending@, row0, col0),
                    self.cells@[cell_index(row0, col0)].state == CellState::EXPOSED || in_stack(
                        pending@,
                        row0,
                        col0,
                    ),
                    frontier_pending(b0, self.cells@, pending@),
                decreases hidden_total(self.cells@) * 9 + pending@.len(),
            {
                let ghost pend0 = pending@;
                let rc: (isize, isize) = pending.pop().unwrap();
                let ghost pend1 = pending@;
                let ghost bpre = self.cells@;
                proof {
                    assert(rc == pend0.last());
                    assert(pend1 == pend0.drop_last());
                    assert forall|k: int| 0 <= k < pend1.len() implies pend1[k] == pend0[k] by {}
                    lemma_flat_coords();
                }
                if !Grid::is_out_of_bounds(rc.0, rc.1) {
                    let r = rc.0 as usize;
                    let c = rc.1 as usize;
                    let ghost rr = r as int;
                    let ghost cc = c as int;
                    let i = r * GRID_SIZE + c;
                    proof {
                        assert(rr == rc.0 as int && cc == rc.1 as int);
                        assert(spec_in_bounds(rr, cc));
                        assert(i as int == cell_index(rr, cc));
                    }
                    if self.cells[i].state == CellState::HIDDEN {
                        let mut cl = self.cells[i];
                        cl.expose();
                        self.cells[i] = cl;
                        proof {
                            assert(b0[cell_index(rr, cc)].state == CellState::HIDDEN);
                            assert(pend0[pend0.len() - 1] == rc);
                            assert(flood_reaches(b0, row0, col0, rr, cc));
                            lemma_hidden_below_update(
                                bpre,
                                i as int,
                                cl,
                                (GRID_SIZE * GRID_SIZE) as int,
                            );
                            lemma_hidden_below_bounds(self.cells@, (GRID_SIZE * GRID_SIZE) as int);
                            assert(hidden_total(self.cells@) == hidden_total(bpre) - 1);
                            // soundness: the one newly exposed cell is reached
                            assert forall|r3: int, c3: int|
                                spec_in_bounds(r3, c3) && b0[#[trigger] cell_index(r3, c3)].state
                                    == CellState::HIDDEN && self.cells@[cell_index(r3, c3)].state
                                    == CellState::EXPOSED implies flood_reaches(
                                b0,
                                row0,
                                col0,
                                r3,
                                c3,
                            ) by {
                                if cell_index(r3, c3) == i as int {
                                    assert(r3 == rr && c3 == cc);
                                } else {
                                    assert(self.cells@[cell_index(r3, c3)] == bpre[cell_index(
                                        r3,
                                        c3,
                                    )]);
                                }
                            }
                        }
                        if !cl.bombed && cl.value == 0 {
                            let ghost bmid = self.cells@;
                            let ghost pmid = pending@;
                            proof {
                                assert(cascades(b0, rr, cc)) by {
                                    assert(b0[cell_index(rr, cc)].bombed == cl.bombed);
                                    assert(b0[cell_index(rr, cc)].value == cl.value);
                                }
                                if spec_in_bounds(rr - 1, cc - 1) && b0[cell_index(
                                    rr - 1,
                                    cc - 1,
                                )].state == CellState::HIDDEN {
                                    lemma_flood_reaches_step(
                                        b0,
                                        row0,
                                        col0,
                                        rr,
                                        cc,
                                        rr - 1,
                                        cc - 1,
                                    );
                                }
                                if spec_in_bounds(rr - 1, cc) && b0[cell_index(rr - 1, cc)].state
                                    == CellState::HIDDEN {
                                    lemma_flood_reaches_step(b0, row0, col0, rr, cc, rr - 1, cc);
                                }
                                if spec_in_bounds(rr - 1, cc + 1) && b0[cell_index(
                                    rr - 1,
                                    cc + 1,
                                )].state == CellState::HIDDEN {
                                    lemma_flood_reaches_step(
                                        b0,
                                        row0,
                                        col0,
                                        rr,
                                        cc,
                                        rr - 1,
                                        cc + 1,
                                    );
                                }
                                if spec_in_bounds(rr, cc - 1) && b0[cell_index(rr, cc - 1)].state
                                    == CellState::HIDDEN {
                                    lemma_flood_reaches_step(b0, row0, col0, rr, cc, rr, cc - 1);
                                }
                                if spec_in_bounds(rr, cc + 1) && b0[cell_index(rr, cc + 1)].state
                                    == CellState::HIDDEN {
                                    lemma_flood_reaches_step(b0, row0, col0, rr, cc, rr, cc + 1);
                                }
                                if spec_in_bounds(rr + 1, cc - 1) && b0[cell_index(
                                    rr + 1,
                                    cc - 1,
                                )].state == CellState::HIDDEN {
                                    lemma_flood_reaches_step(
                                        b0,
                                        row0,
                                        col0,
                                        rr,
                                        cc,
                                        rr + 1,
                                        cc - 1,
                                    );
                                }
                                if spec_in_bounds(rr + 1, cc) && b0[cell_index(rr + 1, cc)].state
                                    == CellState::HIDDEN {
                                    lemma_flood_reaches_step(b0, row0, col0, rr, cc, rr + 1, cc);
                                }
                                if spec_in_bounds(rr + 1, cc + 1) && b0[cell_index(
                                    rr + 1,
                                    cc + 1,
                                )].state == CellState::HIDDEN {
                                    lemma_flood_reaches_step(
                                        b0,
                                        row0,
                                        col0,
                                        rr,
                                        cc,
                                        rr + 1,
                                        cc + 1,
                                    );
                                }
                            }
                            pending.push((rc.0 - 1, rc.1 - 1));
                            pending.push((rc.0 - 1, rc.1));
                            pending.push((rc.0 - 1, rc.1 + 1));
                            pending.push((rc.0, rc.1 - 1));
                            pending.push((rc.0, rc.1 + 1));
                            pending.push((rc.0 + 1, rc.1 - 1));
                            pending.push((rc.0 + 1, rc.1));
                            pending.push((rc.0 + 1, rc.1 + 1));
                            proof {
                                assert(pending@.len() == pmid.len() + 8);
                                assert forall|k: int| 0 <= k < pmid.len() implies pending@[k]
                                    == pmid[k] by {}
                                let base = pmid.len() as int;
                                assert(pending@[base + 0].0 as int == rr - 1
                                    && pending@[base + 0].1 as int == cc - 1);
                                assert(pending@[base + 1].0 as int == rr - 1
                                    && pending@[base + 1].1 as int == cc);
                                assert(pending@[base + 2].0 as int == rr - 1
                                    && pending@[base + 2].1 as int == cc + 1);
                                assert(pending@[base + 3].0 as int == rr
                                    && pending@[base + 3].1 as int == cc - 1);
                                assert(pending@[base + 4].0 as int == rr
                                    && pending@[base + 4].1 as int == cc + 1);
                                assert(pending@[base + 5].0 as int == rr + 1
                                    && pending@[base + 5].1 as int == cc - 1);
                                assert(pending@[base + 6].0 as int == rr + 1
                                    && pending@[base + 6].1 as int == cc);
                                assert(pending@[base + 7].0 as int == rr + 1
                                    && pending@[base + 7].1 as int == cc + 1);
                                // the worklist keeps only meaningful entries
                                assert(stack_valid(b0, pending@, row0, col0)) by {
                                    assert forall|k: int| 0 <= k < pending@.len() implies (
                                    spec_in_bounds(
                                        (#[trigger] pending@[k]).0 as int,
                                        pending@[k].1 as int,
                                    ) && b0[cell_index(
                                        pending@[k].0 as int,
                                        pending@[k].1 as int,
                                    )].state == CellState::HIDDEN ==> flood_reaches(
                                        b0,
                                        row0,
                                        col0,
                                        pending@[k].0 as int,
                                        pending@[k].1 as int,
                                    )) by {
                                        if k < pmid.len() {
                                            assert(pending@[k] == pmid[k]);
                                        }
                                    }
                                }
                                // every neighbor of the cascading cell is on the worklist
                                assert forall|r2: int, c2: int|
                                    spec_in_bounds(r2, c2) && spec_adjacent(
                                        rr,
                                        cc,
                                        r2,
                                        c2,
                                    ) implies in_stack(pending@, r2, c2) by {
                                    assert(r2 == rr - 1 || r2 == rr || r2 == rr + 1);
                                    assert(c2 == cc - 1 || c2 == cc || c2 == cc + 1);
                                }
                                // start stays covered
                                if bmid[cell_index(row0, col0)].state != CellState::EXPOSED {
                                    lemma_in_stack_pop(pend0, row0, col0);
                                    if in_stack(pend1, row0, col0) {
                                        lemma_in_stack_prefix(pend1, pending@, row0, col0);
                                    } else {
                                        assert(rr == row0 && cc == col0);
                                        assert(false);
                                    }
                                }
                                // the frontier stays covered
                                assert(frontier_pending(b0, self.cells@, pending@)) by {
                                    assert forall|r3: int, c3: int, r4: int, c4: int|
                                        spec_in_bounds(r3, c3) && b0[#[trigger] cell_index(
                                            r3,
                                            c3,
                                        )].state == CellState::HIDDEN && self.cells@[cell_index(
                                            r3,
                                            c3,
                                        )].state == CellState::EXPOSED && cascades(b0, r3, c3)
                                            && spec_in_bounds(r4, c4) && spec_adjacent(
                                            r3,
                                            c3,
                                            r4,
                                            c4,
                                        ) implies self.cells@[#[trigger] cell_index(
                                        r4,
                                        c4,
                                    )].state != CellState::HIDDEN || in_stack(
                                        pending@,
                                        r4,
                                        c4,
                                    ) by {
                                        if r3 == rr && c3 == cc {
                                            assert(in_stack(pending@, r4, c4));
                                        } else {
                                            assert(bpre[cell_index(r3, c3)].state
                                                == CellState::EXPOSED);
                                            if bpre[cell_index(r4, c4)].state
                                                != CellState::HIDDEN {
                                            } else {
                                                assert(in_stack(pend0, r4, c4));
                                                lemma_in_stack_pop(pend0, r4, c4);
                                                if in_stack(pend1, r4, c4) {
                                                    lemma_in_stack_prefix(pend1, pending@, r4, c4);
                                                } else {
                                                    assert(r4 == rr && c4 == cc);
                                                    assert(self.cells@[cell_index(r4, c4)].state
                                                        == CellState::EXPOSED);
                                                }
                                            }
                                        }
                                    }
                                }
                            }
                        } else {
                            proof {
                                assert(!cascades(b0, rr, cc)) by {
                                    assert(b0[cell_index(rr, cc)].bombed == cl.bombed);
                                    assert(b0[cell_index(rr, cc)].value == cl.value);
                                }
                                // start stays covered
                                if self.cells@[cell_index(row0, col0)].state
                                    != CellState::EXPOSED {
                                    lemma_in_stack_pop(pend0, row0, col0);
                                    if !in_stack(pend1, row0, col0) {
                                        assert(rr == row0 && cc == col0);
                                        assert(false);
                                    }
                                }
                                // the frontier stays covered
                                assert(frontier_pending(b0, self.cells@, pending@)) by {
                                    assert forall|r3: int, c3: int, r4: int, c4: int|
                                        spec_in_bounds(r3, c3) && b0[#[trigger] cell_index(
                                            r3,
                                            c3,
                                        )].state == CellState::HIDDEN && self.cells@[cell_index(
                                            r3,
                                            c3,
                                        )].state == CellState::EXPOSED && cascades(b0, r3, c3)
                                            && spec_in_bounds(r4, c4) && spec_adjacent(
                                            r3,
                                            c3,
                                            r4,
                                            c4,
                                        ) implies self.cells@[#[trigger] cell_index(
                                        r4,
                                        c4,
                                    )].state != CellState::HIDDEN || in_stack(
                                        pending@,
                                        r4,
                                        c4,
                                    ) by {
                                        assert(!(r3 == rr && c3 == cc));
                                        assert(bpre[cell_index(r3, c3)].state
                                            == CellState::EXPOSED);
                                        if bpre[cell_index(r4, c4)].state != CellState::HIDDEN {
                                        } else {
                                            assert(in_stack(pend0, r4, c4));
                                            lemma_in_stack_pop(pend0, r4, c4);
                                            if !in_stack(pend1, r4, c4) {
                                                assert(r4 == rr && c4 == cc);
                                                assert(self.cells@[cell_index(r4, c4)].state
                                                    == CellState::EXPOSED);
                                            }
                                        }
                                    }
                                }
                            }
                        }
                    } else {
                        proof {
                            // nothing changed; only the worklist shrank
                            if self.cells@[cell_index(row0, col0)].state != CellState::EXPOSED {
                                lemma_in_stack_pop(pend0, row0, col0);
                                if !in_stack(pend1, row0, col0) {
                                    assert(rr == row0 && cc == col0);
                                    assert(self.cells@[cell_index(rr, cc)].state
                                        != CellState::HIDDEN);
                                    assert(false);
                                }
                            }
                            assert(frontier_pending(b0, self.cells@, pending@)) by {
                                assert forall|r3: int, c3: int, r4: int, c4: int|
                                    spec_in_bounds(r3, c3) && b0[#[trigger] cell_index(
                                        r3,
                                        c3,
                                    )].state == CellState::HIDDEN && self.cells@[cell_index(
                                        r3,
                                        c3,
                                    )].state == CellState::EXPOSED && cascades(b0, r3, c3)
                                        && spec_in_bounds(r4, c4) && spec_adjacent(
                                        r3,
                                        c3,
                                        r4,
                                        c4,
                                    ) implies self.cells@[#[trigger] cell_index(r4, c4)].state
                                    != CellState::HIDDEN || in_stack(pending@, r4, c4) by {
                                    if self.cells@[cell_index(r4, c4)].state
                                        == CellState::HIDDEN {
                                        assert(in_stack(pend0, r4, c4));
                                        lemma_in_stack_pop(pend0, r4, c4);
                                        if !in_stack(pend1, r4, c4) {
                                            assert(r4 == rr && c4 == cc);
                                            assert(self.cells@[cell_index(r4, c4)].state
                                                != CellState::HIDDEN);
                                        }
                                    }
                                }
                            }
                        }
                    }
                } else {
                    proof {
                        assert(!spec_in_bounds(rc.0 as int, rc.1 as int));
                        if self.cells@[cell_index(row0, col0)].state != CellState::EXPOSED {
                            lemma_in_stack_pop(pend0, row0, col0);
                            if !in_stack(pend1, row0, col0) {
                                assert(rc.0 as int == row0 && rc.1 as int == col0);
                                assert(false);
                            }
                        }
                        assert(frontier_pending(b0, self.cells@, pending@)) by {
                            assert forall|r3: int, c3: int, r4: int, c4: int|
                                spec_in_bounds(r3, c3) && b0[#[trigger] cell_index(r3, c3)].state
                                    == CellState::HIDDEN && self.cells@[cell_index(r3, c3)].state
                                    == CellState::EXPOSED && cascades(b0, r3, c3)
                                    && spec_in_bounds(r4, c4) && spec_adjacent(
                                    r3,
                                    c3,
                                    r4,
                                    c4,
                                ) implies self.cells@[#[trigger] cell_index(r4, c4)].state
                                != CellState::HIDDEN || in_stack(pending@, r4, c4) by {
                                if self.cells@[cell_index(r4, c4)].state == CellState::HIDDEN {
                                    assert(in_stack(pend0, r4, c4));
                                    lemma_in_stack_pop(pend0, r4, c4);
                                    if !in_stack(pend1, r4, c4) {
                                        assert(r4 == rc.0 as int && c4 == rc.1 as int);
                                        assert(false);
                                    }
                                }
                            }
                        }
                    }
                }
            }
            proof {
                let bfin = self.cells@;
                assert(bfin[cell_index(row0, col0)].state == CellState::EXPOSED) by {
                    assert(!in_stack(pending@, row0, col0));
                }
                assert(cascade_frontier_closed(b0, bfin)) by {
                    assert forall|r3: int, c3: int, r4: int, c4: int|
                        spec_in_bounds(r3, c3) && b0[#[trigger] cell_index(r3, c3)].state
                            == CellState::HIDDEN && bfin[cell_index(r3, c3)].state
                            == CellState::EXPOSED && cascades(b0, r3, c3) && spec_in_bounds(r4, c4)
                            && spec_adjacent(r3, c3, r4, c4) implies bfin[#[trigger] cell_index(
                        r4,
                        c4,
                    )].state != CellState::HIDDEN by {
                        assert(!in_stack(pending@, r4, c4));
                    }
                }
                assert forall|r3: int, c3: int|
                    spec_in_bounds(r3, c3) && b0[#[trigger] cell_index(r3, c3)].state
                        == CellState::HIDDEN && bfin[cell_index(r3, c3)].state
                        == CellState::HIDDEN implies !flood_reaches(b0, row0, col0, r3, c3) by {
                    if flood_reaches(b0, row0, col0, r3, c3) {
                        let p = choose|p: Seq<(int, int)>|
                            is_flood_path(b0, p, row0, col0, r3, c3);
                        lemma_flood_complete(b0, bfin, row0, col0, p, r3, c3);
                    }
                }
                lemma_flood_result_pointwise(b0, row0, col0);
                let fr = flood_result(b0, row0, col0);
                assert(bfin =~= fr) by {
                    assert forall|i: int| 0 <= i < b0.len() implies bfin[i] == fr[i] by {
                        let r3 = i / (GRID_SIZE as int);
                        let c3 = i % (GRID_SIZE as int);
                        assert(spec_in_bounds(r3, c3) && cell_index(r3, c3) == i);
                        if b0[i].state == CellState::HIDDEN {
                            if bfin[i].state == CellState::EXPOSED {
                                assert(flood_reaches(b0, row0, col0, r3, c3));
                                assert(fr[cell_index(r3, c3)] == exposed_version(b0[i]));
                                assert(bfin[i] == exposed_version(b0[i]));
                            } else {
                                assert(bfin[i].state == CellState::HIDDEN);
                                assert(!flood_reaches(b0, row0, col0, r3, c3));
                                assert(bfin[i] == b0[i]);
                            }
                        } else {
                            if flood_reaches(b0, row0, col0, r3, c3) {
                                lemma_flood_reaches_hidden(b0, row0, col0, r3, c3);
                                assert(false);
                            }
                            assert(bfin[i] == b0[i]);
                        }
                    }
                }
                assert(self.cells@ == fr);
            }
        } else {
            proof {
                assert(flood_result(b0, row0, col0) == b0);
            }
        }
    }

    /// Whether a signed coordinate pair misses the grid on either axis.
    pub fn is_out_of_bounds(row: isize, col: isize) -> (r: bool)
        ensures
            r == !spec_in_bounds(row as int, col as int),
    {
        row < 0 || row > (GRID_SIZE as isize) - 1 || col < 0 || col > (GRID_SIZE as isize) - 1
    }

    /// Flip the seal on the cell at `(row, col)`: a sealed cell turns
    /// hidden again, a hidden one turns sealed, an exposed one is left
    /// alone.
    pub fn toggle_seal(&mut self, row: usize, col: usize)
        requires
            old(self).wf(),
            spec_in_bounds(row as int, col as int),
        ensures
            final(self).wf(),
            final(self).cells@ == toggle_result(old(self).cells@, row as int, col as int),
            final(self).cells@[cell_index(row as int, col as int)] == toggled_cell(
                old(self).cells@[cell_index(row as int, col as int)],
            ),
            forall|i: int|
                0 <= i < old(self).cells@.len() && i != cell_index(row as int, col as int)
                    ==> final(self).cells@[i] == old(self).cells@[i],
    {
        proof {
            lemma_flat_coords();
        }
        let i = row * GRID_SIZE + col;
        let mut cl = self.cells[i];
        match cl.state {
            CellState::SEALED => cl.unseal(),
            _ => cl.seal(),
        }
        self.cells[i] = cl;
        proof {
            assert(cl == toggled_cell(old(self).cells@[i as int]));
            assert(self.cells@ =~= toggle_result(old(self).cells@, row as int, col as int));
        }
    }
}

} // verus!
