//! A single grid position: its visibility state, mine flag and
//! adjacent-mine count, with the transitions the rules allow.

use vstd::prelude::*;

verus! {

/// Visibility of one cell. `EXPOSED` is terminal: no transition leaves it.
#[allow(non_camel_case_types)]
#[derive(Copy, Clone, Debug, PartialEq, Eq, Structural)]
pub enum CellState {
    EXPOSED,
    SEALED,
    HIDDEN,
}

/// One cell of the grid. `bombed` and `value` are fixed once the grid is
/// built; only `state` changes during play.
#[derive(Copy, Clone, Debug, PartialEq, Eq, Structural)]
pub struct Cell {
    pub state: CellState,
    pub bombed: bool,
    pub value: u8,
}

impl Cell {
    /// The adjacency count fits in one cell's 8 neighbors, and a mine
    /// carries no count of its own.
    pub open spec fn wf(self) -> bool {
        self.value <= 8 && (self.bombed ==> self.value == 0)
    }

    pub fn new() -> (c: Cell)
        ensures
            c.state == CellState::HIDDEN,
            !c.bombed,
            c.value == 0,
    {
        Cell { state: CellState::HIDDEN, bombed: false, value: 0 }
    }

    /// Make the cell visible, whatever it was before.
    pub fn expose(&mut self)
        ensures
            final(self).state == CellState::EXPOSED,
            final(self).bombed == old(self).bombed,
            final(self).value == old(self).value,
    {
        self.state = CellState::EXPOSED;
    }

    /// Mark the cell as a suspected mine; an exposed cell is left alone.
    pub fn seal(&mut self)
        ensures
            final(self).state == (if old(self).state == CellState::EXPOSED {
                CellState::EXPOSED
            } else {
                CellState::SEALED
            }),
            final(self).bombed == old(self).bombed,
            final(self).value == old(self).value,
    {
        match self.state {
            CellState::EXPOSED => (),
            _ => self.state = CellState::SEALED,
        }
    }

    /// Remove the mark; an exposed cell is left alone.
    pub fn unseal(&mut self)
        ensures
            final(self).state == (if old(self).state == CellState::EXPOSED {
                CellState::EXPOSED
            } else {
                CellState::HIDDEN
            }),
            final(self).bombed == old(self).bombed,
            final(self).value == old(self).value,
    {
        match self.state {
            CellState::EXPOSED => (),
            _ => self.state = CellState::HIDDEN,
        }
    }

    /// Turn the cell into a mine. Construction-time only: a cell that
    /// already carries a count cannot become a mine.
    pub fn set_bombed(&mut self)
        requires
            old(self).value == 0,
        ensures
            final(self).state == old(self).state,
            final(self).bombed,
            final(self).value == old(self).value,
    {
        self.bombed = true;
    }

    /// Raise the adjacency count by one. Construction-time only: a mine's
    /// count is never raised, and a count never passes 8.
    pub fn increment(&mut self)
        requires
            !old(self).bombed,
            old(self).value < 8,
        ensures
            final(self).state == old(self).state,
            final(self).bombed == old(self).bombed,
            final(self).value == old(self).value + 1,
    {
        self.value = self.value + 1;
    }
}

} // verus!
