use minesweeper_logic::BOMB_COUNT;
use minesweeper_logic::Cell;
use minesweeper_logic::CellState;
use minesweeper_logic::GRID_SIZE;
use minesweeper_logic::Grid;

fn blank_grid() -> Grid {
    Grid { cells: vec![Cell::new(); GRID_SIZE * GRID_SIZE] }
}

fn state_at(grid: &Grid, row: usize, col: usize) -> CellState {
    grid.cells[row * GRID_SIZE + col].state
}

#[test]
fn it_should_initialize_2d_grid_of_hidden_cells() {
    let grid = Grid::new();
    for i in 0..GRID_SIZE {
        for j in 0..GRID_SIZE {
            assert!(matches!(state_at(&grid, i, j), CellState::HIDDEN));
        }
    }
}

#[test]
fn it_should_initialize_specified_number_of_bombs() {
    let grid = Grid::new();
    let mut actual_bomb_count = 0;
    for i in 0..GRID_SIZE {
        for j in 0..GRID_SIZE {
            if grid.cells[i * GRID_SIZE + j].bombed == true {
                actual_bomb_count += 1;
            }
        }
    }
    assert_eq!(actual_bomb_count, BOMB_COUNT);
}

#[test]
fn it_should_be_out_of_bounds() {
    assert_eq!(Grid::is_out_of_bounds(-1, 0), true);
    assert_eq!(Grid::is_out_of_bounds(0, -1), true);
    assert_eq!(
        Grid::is_out_of_bounds(0, isize::try_from(GRID_SIZE).unwrap() + 1),
        true
    );
    assert_eq!(
        Grid::is_out_of_bounds(isize::try_from(GRID_SIZE).unwrap() + 1, 0),
        true
    );
}

#[test]
fn it_should_calculate_the_correct_count_of_adj_bombs() {
    let mut grid = blank_grid();
    grid.cells[0].set_bombed();
    grid.cells[2 * GRID_SIZE + 2].set_bombed();
    grid.calculate_valued_cells();

    // -------------
    // | * | 1 | 0 |
    // | 1 | 2 | 1 |
    // | 0 | 1 | * |

    assert_eq!(grid.cells[1].value, 1);
    assert_eq!(grid.cells[GRID_SIZE + 1].value, 2);
}

#[test]
fn it_should_expose_the_cell_if_its_bombed() {
    let mut grid = blank_grid();
    grid.cells[0].set_bombed();
    grid.calculate_valued_cells();
    grid.expose_cell(0, 0);
    assert!(matches!(state_at(&grid, 0, 0), CellState::EXPOSED));
}

#[test]
fn it_should_expose_the_cell_and_resursively_expose_neighbors_when_its_value_is_0() {
    let mut grid = blank_grid();
    grid.expose_cell(0, 0);
    for row in 0..GRID_SIZE {
        for col in 0..GRID_SIZE {
            assert!(matches!(state_at(&grid, row, col), CellState::EXPOSED));
        }
    }
}

#[test]
fn it_should_only_expose_the_numbered_cell() {
    let mut grid = blank_grid();
    grid.cells[GRID_SIZE + 1].set_bombed();
    grid.calculate_valued_cells();
    grid.expose_cell(0, 0);
    assert!(matches!(state_at(&grid, 0, 0), CellState::EXPOSED));
    for row in 1..GRID_SIZE {
        for col in 1..GRID_SIZE {
            assert!(matches!(state_at(&grid, row, col), CellState::HIDDEN));
        }
    }
}

#[test]
fn exposing_next_to_one_mine_shows_count_one_and_stops_there() {
    let mut grid = blank_grid();
    grid.cells[GRID_SIZE + 1].set_bombed();
    grid.calculate_valued_cells();
    grid.expose_cell(0, 0);
    assert!(matches!(state_at(&grid, 0, 0), CellState::EXPOSED));
    assert_eq!(grid.cells[0].value, 1);
    assert!(matches!(state_at(&grid, 0, 1), CellState::HIDDEN));
    assert!(matches!(state_at(&grid, 1, 0), CellState::HIDDEN));
    assert!(matches!(state_at(&grid, 1, 1), CellState::HIDDEN));
}

#[test]
fn every_fresh_grid_counts_its_neighbor_mines_exactly() {
    let grid = Grid::new();
    for row in 0..GRID_SIZE {
        for col in 0..GRID_SIZE {
            let cell = grid.cells[row * GRID_SIZE + col];
            if cell.bombed {
                assert_eq!(cell.value, 0);
            } else {
                let mut count = 0u8;
                for dr in -1i32..=1i32 {
                    for dc in -1i32..=1i32 {
                        if dr == 0 && dc == 0 {
                            continue;
                        }
                        let r = row as i32 + dr;
                        let c = col as i32 + dc;
                        if r >= 0
                            && r < GRID_SIZE as i32
                            && c >= 0
                            && c < GRID_SIZE as i32
                            && grid.cells[r as usize * GRID_SIZE + c as usize].bombed
                        {
                            count += 1;
                        }
                    }
                }
                assert_eq!(cell.value, count);
            }
        }
    }
}

#[test]
fn exposing_a_cell_twice_changes_nothing_more() {
    let mut grid = blank_grid();
    grid.cells[GRID_SIZE + 1].set_bombed();
    grid.calculate_valued_cells();
    grid.expose_cell(0, 0);
    let after_once: Vec<CellState> = grid.cells.iter().map(|c| c.state).collect();
    grid.expose_cell(0, 0);
    let after_twice: Vec<CellState> = grid.cells.iter().map(|c| c.state).collect();
    assert_eq!(after_once, after_twice);
}

#[test]
fn cascade_exposes_region_and_border_but_not_the_mine() {
    let mut grid = blank_grid();
    grid.cells[0].set_bombed();
    grid.calculate_valued_cells();
    grid.expose_cell(9, 9);
    for row in 0..GRID_SIZE {
        for col in 0..GRID_SIZE {
            if row == 0 && col == 0 {
                assert!(matches!(state_at(&grid, row, col), CellState::HIDDEN));
            } else {
                assert!(matches!(state_at(&grid, row, col), CellState::EXPOSED));
            }
        }
    }
}

#[test]
fn toggle_seal_alternates_between_sealed_and_hidden() {
    let mut grid = blank_grid();
    grid.toggle_seal(2, 2);
    assert!(matches!(state_at(&grid, 2, 2), CellState::SEALED));
    grid.toggle_seal(2, 2);
    assert!(matches!(state_at(&grid, 2, 2), CellState::HIDDEN));
}

#[test]
fn exposing_a_sealed_cell_is_a_no_op() {
    let mut grid = blank_grid();
    grid.toggle_seal(2, 2);
    assert!(matches!(state_at(&grid, 2, 2), CellState::SEALED));
    grid.expose_cell(2, 2);
    assert!(matches!(state_at(&grid, 2, 2), CellState::SEALED));
}

#[test]
fn toggle_seal_leaves_an_exposed_cell_alone() {
    let mut grid = blank_grid();
    grid.cells[GRID_SIZE + 1].set_bombed();
    grid.calculate_valued_cells();
    grid.expose_cell(0, 0);
    grid.toggle_seal(0, 0);
    assert!(matches!(state_at(&grid, 0, 0), CellState::EXPOSED));
}
