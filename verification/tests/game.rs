use minesweeper_logic::Cell;
use minesweeper_logic::CellState;
use minesweeper_logic::GRID_SIZE;
use minesweeper_logic::Game;
use minesweeper_logic::GameState;
use minesweeper_logic::Grid;

fn blank_game() -> Game {
    Game {
        grid: Grid { cells: vec![Cell::new(); GRID_SIZE * GRID_SIZE] },
        state: GameState::INPROGRESS,
    }
}

#[test]
fn it_should_initialize_with_the_inprogress_state() {
    let game = Game::new();
    assert!(matches!(game.state, GameState::INPROGRESS));
}

#[test]
fn it_should_set_the_game_to_lost_state_when_clicking_a_bomb() {
    let mut game = blank_game();
    game.grid.cells[0].set_bombed();
    game.grid.calculate_valued_cells();
    game.grid.expose_cell(0, 0);
    assert!(matches!(game.grid.cells[0].state, CellState::EXPOSED));
    game.update_game_state();
    assert!(matches!(game.state, GameState::LOST));
}

#[test]
fn it_should_set_the_game_to_won_state_when_all_other_cells_are_exposed() {
    let mut game = blank_game();
    game.grid.cells[0].set_bombed();
    game.grid.calculate_valued_cells();
    game.grid.expose_cell(0, 1); // right
    game.update_game_state();
    assert!(matches!(game.state, GameState::INPROGRESS));
    game.grid.expose_cell(1, 1); // diagonal
    game.update_game_state();
    assert!(matches!(game.state, GameState::INPROGRESS));
    game.grid.expose_cell(1, 0); // below
    game.update_game_state();
    assert!(matches!(game.state, GameState::INPROGRESS));
    game.grid.expose_cell(2, 2); // any empty cell away from the mine
    game.update_game_state();
    assert!(matches!(game.state, GameState::WON));
}

#[test]
fn exposing_a_mine_free_grid_once_wins_it() {
    let mut game = blank_game();
    game.grid.expose_cell(0, 0);
    for row in 0..GRID_SIZE {
        for col in 0..GRID_SIZE {
            let cell = game.grid.cells[row * GRID_SIZE + col];
            assert!(matches!(cell.state, CellState::EXPOSED));
            assert_eq!(cell.value, 0);
        }
    }
    game.update_game_state();
    assert!(matches!(game.state, GameState::WON));
}

#[test]
fn a_seal_toggles_back_and_forth_and_blocks_exposure() {
    let mut game = blank_game();
    game.grid.toggle_seal(2, 2);
    assert!(matches!(
        game.grid.cells[2 * GRID_SIZE + 2].state,
        CellState::SEALED
    ));
    game.grid.toggle_seal(2, 2);
    assert!(matches!(
        game.grid.cells[2 * GRID_SIZE + 2].state,
        CellState::HIDDEN
    ));
    game.grid.toggle_seal(2, 2);
    game.grid.expose_cell(2, 2);
    assert!(matches!(
        game.grid.cells[2 * GRID_SIZE + 2].state,
        CellState::SEALED
    ));
}

#[test]
fn a_fresh_randomized_game_is_in_progress_by_its_own_count() {
    let mut game = Game::new();
    game.update_game_state();
    assert!(matches!(game.state, GameState::INPROGRESS));
}
