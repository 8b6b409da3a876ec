//! Tests of the board-level pieces: coordinates and the neighbor relation,
//! the cell store, and the grid's mine placement.

use n_minesweeper::cells::{CellState, CellStore};
use n_minesweeper::coord::Coord;
use n_minesweeper::grid::Grid;
use n_minesweeper::settings::GameSettings;
use n_minesweeper::GameError;

fn coord(x: u32, y: u32) -> Coord {
    Coord::new(x, y)
}

#[test]
fn neighbors_are_eight_connected() {
    let c = coord(4, 4);
    assert!(c.is_near(&coord(3, 3)));
    assert!(c.is_near(&coord(4, 3)));
    assert!(c.is_near(&coord(5, 5)));
    assert!(c.is_near(&coord(3, 5)));
    assert!(!c.is_near(&coord(6, 4)));
    assert!(!c.is_near(&coord(4, 6)));
    assert!(!c.is_near(&coord(2, 2)));
}

#[test]
fn cell_is_not_near_itself() {
    // Standard semantics, deliberately: a cell never counts toward its own
    // adjacency total.
    let c = coord(2, 2);
    assert!(!c.is_near(&coord(2, 2)));
    assert!(coord(0, 0).is_near(&coord(0, 1)));
    assert!(!coord(0, 0).is_near(&coord(0, 0)));
}

#[test]
fn store_defaults_to_hidden_and_counts() {
    let mut store = CellStore::new(3, 2);
    for x in 0..3 {
        for y in 0..2 {
            assert_eq!(store.state_of(coord(x, y)), CellState::Hidden);
        }
    }
    assert_eq!(store.count_hidden(), 6);
    assert!(store.set_flag(coord(1, 1), true));
    assert!(store.reveal_cell(coord(0, 0)).is_ok());
    assert_eq!(store.count_revealed(), 1);
    assert_eq!(store.count_flagged(), 1);
    assert_eq!(store.count_hidden(), 4);
}

#[test]
fn store_rejects_reveal_of_flagged_cell() {
    let mut store = CellStore::new(2, 2);
    store.set_flag(coord(0, 1), true);
    let r = store.reveal_cell(coord(0, 1));
    assert!(matches!(r, Err(GameError::InvalidTransition)));
    assert_eq!(store.state_of(coord(0, 1)), CellState::Flagged);
    // Revealing twice is idempotent.
    assert!(store.reveal_cell(coord(1, 1)).is_ok());
    assert!(store.reveal_cell(coord(1, 1)).is_ok());
    assert_eq!(store.count_revealed(), 1);
}

#[test]
fn store_flags_only_unrevealed_cells() {
    let mut store = CellStore::new(2, 2);
    store.reveal_cell(coord(0, 0)).unwrap();
    assert!(!store.set_flag(coord(0, 0), true));
    assert_eq!(store.state_of(coord(0, 0)), CellState::Revealed);
    assert!(!store.set_flag(coord(1, 0), false));
    assert_eq!(store.state_of(coord(1, 0)), CellState::Hidden);
}

#[test]
fn generation_fills_the_only_free_cell() {
    // One cell left after the exclusion: the draw has no freedom, so the
    // sampled index must stay below its bound for this to land in bounds.
    let mut grid = Grid::new(1, 2);
    grid.generate(1, Some(coord(0, 0))).unwrap();
    let bombs = grid.bombs();
    assert_eq!(bombs.len(), 1);
    assert_eq!(bombs[0], coord(0, 1));
    assert!(grid.is_mine(coord(0, 1)));
    assert!(!grid.is_mine(coord(0, 0)));
}

#[test]
fn generation_rejects_impossible_count() {
    let mut grid = Grid::new(2, 2);
    let r = grid.generate(4, Some(coord(1, 1)));
    assert!(matches!(r, Err(GameError::ConfigurationError)));
    assert_eq!(grid.bombs().len(), 0);
    assert!(grid.generate(3, Some(coord(1, 1))).is_ok());
    assert_eq!(grid.bombs().len(), 3);
    assert!(!grid.is_mine(coord(1, 1)));
}

#[test]
fn adjacency_counts_mines_around_a_cell() {
    let mut grid = Grid::new(3, 3);
    grid.mines.push(coord(0, 0));
    grid.mines.push(coord(2, 2));
    grid.mines.push(coord(1, 2));
    assert_eq!(grid.adjacent_mines(coord(1, 1)), 3);
    assert_eq!(grid.adjacent_mines(coord(0, 1)), 2);
    assert_eq!(grid.adjacent_mines(coord(2, 0)), 0);
    // A mined cell counts its neighbors, not itself.
    assert_eq!(grid.adjacent_mines(coord(2, 2)), 1);
}

#[test]
fn default_game_settings_match_the_stock_board() {
    let s = GameSettings::default();
    assert_eq!(s.width, 20);
    assert_eq!(s.height, 20);
    assert_eq!(s.bombs, 40);
    assert_eq!(s.speed, 2);
}
