use minesweeper_logic::Cell;
use minesweeper_logic::CellState;

#[test]
fn it_should_be_hidden_by_default() {
    let cell = Cell::new();
    assert!(matches!(cell.state, CellState::HIDDEN));
}

#[test]
fn it_should_expose_a_cell() {
    let mut cell = Cell::new();
    cell.expose();
    assert!(matches!(cell.state, CellState::EXPOSED));
}

#[test]
fn it_should_seal_a_cell() {
    let mut cell = Cell::new();
    cell.seal();
    assert!(matches!(cell.state, CellState::SEALED));
}

#[test]
fn it_should_unseal_a_cell_and_make_it_hidden() {
    let mut cell = Cell::new();
    cell.seal();
    cell.unseal();
    assert!(matches!(cell.state, CellState::HIDDEN));
}

#[test]
fn it_should_not_be_able_to_seal_or_unseal_an_exposed_cell() {
    let mut cell = Cell::new();
    cell.expose();

    cell.seal();
    assert!(matches!(cell.state, CellState::EXPOSED));

    cell.unseal();
    assert!(matches!(cell.state, CellState::EXPOSED));
}

#[test]
fn it_should_be_not_be_bombed_by_default() {
    let cell = Cell::new();
    assert_eq!(cell.bombed, false);
}

#[test]
fn it_should_have_a_0_value_by_default() {
    let cell = Cell::new();
    assert_eq!(cell.value, 0);
}

#[test]
fn expose_keeps_mine_flag_and_value() {
    let mut cell = Cell::new();
    cell.increment();
    cell.increment();
    cell.expose();
    assert_eq!(cell.value, 2);
    assert_eq!(cell.bombed, false);
    assert!(matches!(cell.state, CellState::EXPOSED));
}

#[test]
fn set_bombed_marks_the_cell_as_a_mine() {
    let mut cell = Cell::new();
    cell.set_bombed();
    assert_eq!(cell.bombed, true);
    assert_eq!(cell.value, 0);
    assert!(matches!(cell.state, CellState::HIDDEN));
}
