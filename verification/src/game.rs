//! A full game: one grid together with the overall outcome, recomputed
//! after every player action.

use vstd::prelude::*;

use crate::board::BOMB_COUNT;
use crate::board::GRID_SIZE;
use crate::board::counts_correct;
use crate::board::mine_total;
use crate::cell::Cell;
use crate::cell::CellState;
use crate::grid::Grid;

verus! {

/// Overall outcome of a game.
#[allow(non_camel_case_types)]
#[derive(Copy, Clone, Debug, PartialEq, Eq, Structural)]
pub enum GameState {
    INPROGRESS,
    LOST,
    WON,
}

/// Whether some mine has been exposed: the loss condition.
pub open spec fn any_mine_exposed(b: Seq<Cell>) -> bool {
    exists|i: int| 0 <= i < b.len() && (#[trigger] b[i]).bombed && b[i].state == CellState::EXPOSED
}

/// Whether every non-mine cell has been exposed: the win condition, as
/// long as no mine went off first.
pub open spec fn all_safe_exposed(b: Seq<Cell>) -> bool {
    forall|i: int|
        0 <= i < b.len() && !(#[trigger] b[i]).bombed ==> b[i].state == CellState::EXPOSED
}

/// The outcome a board stands for: lost as soon as any exposed cell is a
/// mine, won once every non-mine cell is exposed and no mine is, and in
/// progress otherwise.
pub open spec fn progress_of(b: Seq<Cell>) -> GameState {
    if any_mine_exposed(b) {
        GameState::LOST
    } else if all_safe_exposed(b) {
        GameState::WON
    } else {
        GameState::INPROGRESS
    }
}

/// One game: the grid it is played on and the outcome so far. The engine
/// does not itself block grid operations once the game is won or lost; it
/// accepts them silently, and `update_game_state` recomputes the outcome
/// from the grid alone. Stopping play after game over is the caller's
/// business, and a restart is a fresh `Game`.
pub struct Game {
    pub grid: Grid,
    pub state: GameState,
}

impl Game {
    pub open spec fn wf(self) -> bool {
        self.grid.wf()
    }

    /// Start a fresh randomized game: a newly built grid, in progress.
    pub fn new() -> (g: Game)
        ensures
            g.wf(),
            g.state == GameState::INPROGRESS,
            g.grid.cells@.len() == GRID_SIZE * GRID_SIZE,
            counts_correct(g.grid.cells@),
            mine_total(g.grid.cells@) == BOMB_COUNT as int,
            forall|i: int|
                0 <= i < g.grid.cells@.len() ==> (#[trigger] g.grid.cells@[i]).state
                    == CellState::HIDDEN,
    {
        Game { grid: Grid::new(), state: GameState::INPROGRESS }
    }

    /// Recompute the outcome from the grid alone: `LOST` if and only if at
    /// least one exposed cell is a mine; `WON` if and only if no mine is
    /// exposed and every non-mine cell is; `INPROGRESS` otherwise. The
    /// grid itself is left untouched.
    pub fn update_game_state(&mut self)
        ensures
            final(self).grid == old(self).grid,
            final(self).state == progress_of(old(self).grid.cells@),
            final(self).state == GameState::LOST <==> any_mine_exposed(old(self).grid.cells@),
            final(self).state == GameState::WON <==> (!any_mine_exposed(old(self).grid.cells@)
                && all_safe_exposed(old(self).grid.cells@)),
            final(self).state == GameState::INPROGRESS <==> (!any_mine_exposed(
                old(self).grid.cells@,
            ) && !all_safe_exposed(old(self).grid.cells@)),
    {
        let ghost g0 = self.grid;
        let ghost b = self.grid.cells@;
        let mut mine_exposed = false;
        let mut safe_unexposed = false;
        let mut i: usize = 0;
        let n = self.grid.cells.len();
        while i < n
            invariant
                self.grid == g0,
                self.state == old(self).state,
                n == b.len(),
                b == self.grid.cells@,
                i <= n,
                mine_exposed <==> exists|j: int|
                    0 <= j < i as int && (#[trigger] b[j]).bombed && b[j].state
                        == CellState::EXPOSED,
                safe_unexposed <==> exists|j: int|
                    0 <= j < i as int && !(#[trigger] b[j]).bombed && b[j].state
                        != CellState::EXPOSED,
            decreases n - i,
        {
            let cl = self.grid.cells[i];
            if cl.state == CellState::EXPOSED {
                if cl.bombed {
                    mine_exposed = true;
                }
            } else {
                if !cl.bombed {
                    safe_unexposed = true;
                }
            }
            i = i + 1;
        }
        self.state = if mine_exposed {
            GameState::LOST
        } else if safe_unexposed {
            GameState::INPROGRESS
        } else {
            GameState::WON
        };
    }
}

} // verus!
