//! End-to-end tests of the session controller: flood-fill clearing, flag
//! handling, win/loss evaluation and the error paths.

use n_minesweeper::cells::CellState;
use n_minesweeper::coord::Coord;
use n_minesweeper::session::{
    start_session, start_session_with_mines, CellDelta, Session, SessionStatus,
};
use n_minesweeper::GameError;

fn coord(x: u32, y: u32) -> Coord {
    Coord::new(x, y)
}

fn session_3x3_mine_at_2_2() -> Session {
    start_session_with_mines(3, 3, vec![coord(2, 2)]).unwrap()
}

fn counters_sum(s: &Session) -> usize {
    s.cells.count_revealed() + s.cells.count_hidden() + s.cells.count_flagged()
}

#[test]
fn start_session_rejects_full_board() {
    // A 2-by-2 board cannot take 4 mines and still leave a safe first click.
    let r = start_session(2, 2, 4);
    assert!(matches!(r, Err(GameError::ConfigurationError)));
    assert!(start_session(2, 2, 3).is_ok());
}

#[test]
fn start_session_rejects_empty_board() {
    assert!(matches!(start_session(0, 4, 0), Err(GameError::ConfigurationError)));
    assert!(matches!(start_session(4, 0, 0), Err(GameError::ConfigurationError)));
}

#[test]
fn eager_start_rejects_bad_layouts() {
    let dup = start_session_with_mines(3, 3, vec![coord(1, 1), coord(1, 1)]);
    assert!(matches!(dup, Err(GameError::ConfigurationError)));
    let off = start_session_with_mines(3, 3, vec![coord(3, 0)]);
    assert!(matches!(off, Err(GameError::OutOfBounds)));
    let full = start_session_with_mines(2, 2, vec![
        coord(0, 0),
        coord(0, 1),
        coord(1, 0),
        coord(1, 1),
    ]);
    assert!(matches!(full, Err(GameError::ConfigurationError)));
}

#[test]
fn flood_reveals_connected_region() {
    // 3x3 grid, single mine at (2,2): revealing (0,0) must flood-reveal all
    // 8 other cells, the three neighbors of the mine labeled 1, the rest 0.
    let mut s = session_3x3_mine_at_2_2();
    let first = s.reveal_cell(coord(0, 0)).unwrap();
    assert!(first.is_empty());
    let deltas = s.drain();
    assert_eq!(deltas.len(), 8);
    for d in &deltas {
        assert_eq!(d.new_state, CellState::Revealed);
        assert!(!(d.coord.x == 2 && d.coord.y == 2));
        let expected = if (d.coord.x == 1 && d.coord.y == 1)
            || (d.coord.x == 1 && d.coord.y == 2)
            || (d.coord.x == 2 && d.coord.y == 1)
        {
            1
        } else {
            0
        };
        assert_eq!(d.adjacency_count, Some(expected));
    }
    for x in 0..3 {
        for y in 0..3 {
            let expected = if x == 2 && y == 2 {
                CellState::Hidden
            } else {
                CellState::Revealed
            };
            assert_eq!(s.cells.state_of(coord(x, y)), expected);
        }
    }
    assert_eq!(s.cells.count_revealed(), 8);
    // All non-mines revealed but the mine is not flagged: no win yet.
    assert_eq!(s.session_status(), SessionStatus::Playing);
}

#[test]
fn win_needs_every_mine_flagged() {
    let mut s = session_3x3_mine_at_2_2();
    s.reveal_cell(coord(0, 0)).unwrap();
    s.drain();
    assert_eq!(s.session_status(), SessionStatus::Playing);
    let d = s.toggle_flag(coord(2, 2)).unwrap().unwrap();
    assert_eq!(d.new_state, CellState::Flagged);
    assert_eq!(s.session_status(), SessionStatus::Won);
    // The game is frozen: further actions change nothing.
    assert!(s.toggle_flag(coord(2, 2)).unwrap().is_none());
    assert!(s.reveal_cell(coord(2, 2)).unwrap().is_empty());
    assert_eq!(s.cells.state_of(coord(2, 2)), CellState::Flagged);
}

#[test]
fn flags_alone_do_not_win() {
    // Every non-mine revealed is required too: flagging the mine on a fresh
    // board must not report a win.
    let mut s = session_3x3_mine_at_2_2();
    s.toggle_flag(coord(2, 2)).unwrap();
    assert_eq!(s.session_status(), SessionStatus::Playing);
}

#[test]
fn reveal_flagged_cell_is_noop() {
    let mut s = session_3x3_mine_at_2_2();
    s.toggle_flag(coord(0, 0)).unwrap();
    let before_revealed = s.cells.count_revealed();
    let before_flagged = s.cells.count_flagged();
    let r = s.reveal_cell(coord(0, 0)).unwrap();
    assert!(r.is_empty());
    assert_eq!(s.cells.state_of(coord(0, 0)), CellState::Flagged);
    assert_eq!(s.cells.count_revealed(), before_revealed);
    assert_eq!(s.cells.count_flagged(), before_flagged);
    assert_eq!(s.session_status(), SessionStatus::Playing);
    // The queued work list stays empty: nothing to drain.
    assert!(s.drain().is_empty());
}

#[test]
fn flag_then_unflag_restores_hidden() {
    let mut s = session_3x3_mine_at_2_2();
    let on = s.toggle_flag(coord(1, 1)).unwrap().unwrap();
    assert_eq!(on.new_state, CellState::Flagged);
    assert_eq!(on.adjacency_count, None);
    let off = s.toggle_flag(coord(1, 1)).unwrap().unwrap();
    assert_eq!(off.new_state, CellState::Hidden);
    assert_eq!(s.cells.state_of(coord(1, 1)), CellState::Hidden);
    assert_eq!(s.cells.count_flagged(), 0);
    // No residue: revealing the cell now behaves as if it was never flagged.
    s.reveal_cell(coord(1, 1)).unwrap();
    let deltas = s.drain();
    assert_eq!(deltas.len(), 1);
    assert_eq!(deltas[0].coord, coord(1, 1));
    assert_eq!(deltas[0].adjacency_count, Some(1));
}

#[test]
fn flagging_revealed_cell_is_ignored() {
    let mut s = session_3x3_mine_at_2_2();
    s.reveal_cell(coord(1, 1)).unwrap();
    s.drain();
    assert_eq!(s.cells.state_of(coord(1, 1)), CellState::Revealed);
    assert!(s.toggle_flag(coord(1, 1)).unwrap().is_none());
    assert_eq!(s.cells.state_of(coord(1, 1)), CellState::Revealed);
}

#[test]
fn revealing_a_mine_loses_and_shows_mines() {
    let mut s = start_session_with_mines(3, 3, vec![coord(0, 2), coord(2, 2)]).unwrap();
    let deltas = s.reveal_cell(coord(2, 2)).unwrap();
    assert_eq!(s.session_status(), SessionStatus::Lost);
    assert_eq!(deltas.len(), 2);
    for d in &deltas {
        assert_eq!(d.new_state, CellState::Revealed);
        assert_eq!(d.adjacency_count, None);
    }
    let mut shown: Vec<(u32, u32)> = deltas.iter().map(|d| (d.coord.x, d.coord.y)).collect();
    shown.sort();
    assert_eq!(shown, vec![(0, 2), (2, 2)]);
    assert_eq!(s.cells.state_of(coord(0, 2)), CellState::Revealed);
    assert_eq!(s.cells.state_of(coord(2, 2)), CellState::Revealed);
    // Frozen after the loss.
    assert!(s.reveal_cell(coord(0, 0)).unwrap().is_empty());
    assert!(s.toggle_flag(coord(0, 0)).unwrap().is_none());
    assert!(s.tick(100).is_empty());
}

#[test]
fn flagged_mine_keeps_its_flag_on_loss() {
    let mut s = start_session_with_mines(3, 3, vec![coord(0, 2), coord(2, 2)]).unwrap();
    s.toggle_flag(coord(0, 2)).unwrap();
    let deltas = s.reveal_cell(coord(2, 2)).unwrap();
    assert_eq!(s.session_status(), SessionStatus::Lost);
    assert_eq!(deltas.len(), 1);
    assert_eq!(deltas[0].coord, coord(2, 2));
    assert_eq!(s.cells.state_of(coord(0, 2)), CellState::Flagged);
}

#[test]
fn out_of_bounds_is_rejected_unchanged() {
    let mut s = session_3x3_mine_at_2_2();
    assert!(matches!(s.reveal_cell(coord(3, 0)), Err(GameError::OutOfBounds)));
    assert!(matches!(s.toggle_flag(coord(0, 9)), Err(GameError::OutOfBounds)));
    assert_eq!(s.cells.count_revealed(), 0);
    assert_eq!(s.cells.count_flagged(), 0);
    assert_eq!(s.session_status(), SessionStatus::Playing);
}

#[test]
fn tick_respects_step_budget_and_resumes() {
    let mut s = start_session_with_mines(4, 1, Vec::new()).unwrap();
    s.reveal_cell(coord(0, 0)).unwrap();
    let first = s.tick(1);
    assert_eq!(first.len(), 1);
    assert_eq!(first[0].coord, coord(0, 0));
    assert!(s.cells.count_revealed() < 4);
    let rest = s.tick(1000);
    assert_eq!(first.len() + rest.len(), 4);
    assert_eq!(s.cells.count_revealed(), 4);
    // A mine-free board is won once everything is revealed.
    assert_eq!(s.session_status(), SessionStatus::Won);
}

#[test]
fn zero_budget_tick_changes_nothing() {
    let mut s = session_3x3_mine_at_2_2();
    s.reveal_cell(coord(0, 0)).unwrap();
    assert!(s.tick(0).is_empty());
    assert_eq!(s.cells.count_revealed(), 0);
}

#[test]
fn counters_partition_the_board() {
    // revealed + hidden + flagged == width * height, at every point.
    let mut s = session_3x3_mine_at_2_2();
    assert_eq!(counters_sum(&s), 9);
    s.toggle_flag(coord(0, 1)).unwrap();
    assert_eq!(counters_sum(&s), 9);
    s.reveal_cell(coord(0, 0)).unwrap();
    s.drain();
    assert_eq!(counters_sum(&s), 9);
    let mut lost = start_session_with_mines(3, 3, vec![coord(1, 1)]).unwrap();
    lost.reveal_cell(coord(1, 1)).unwrap();
    assert_eq!(counters_sum(&lost), 9);
}

#[test]
fn first_click_is_never_a_mine() {
    // Deferred generation with the clicked cell excluded, over many draws.
    for _ in 0..200 {
        let mut s = start_session(5, 5, 10).unwrap();
        s.reveal_cell(coord(2, 3)).unwrap();
        let bombs = s.bomb_coordinates();
        assert_eq!(bombs.len(), 10);
        for b in bombs.iter() {
            assert!(!(b.x == 2 && b.y == 3));
            assert!(b.x < 5 && b.y < 5);
        }
        for i in 0..bombs.len() {
            for j in 0..i {
                assert!(bombs[i] != bombs[j]);
            }
        }
        assert_eq!(s.session_status(), SessionStatus::Playing);
    }
}

#[test]
fn deltas_report_each_cell_once() {
    let mut s = start_session_with_mines(6, 6, vec![coord(5, 5)]).unwrap();
    s.reveal_cell(coord(0, 0)).unwrap();
    let deltas: Vec<CellDelta> = s.drain();
    for i in 0..deltas.len() {
        for j in 0..i {
            assert!(deltas[i].coord != deltas[j].coord);
        }
    }
    assert_eq!(deltas.len(), 35);
}

#[test]
fn flood_stops_at_flag_wall() {
    // A 5x1 strip with no mines: a flag at (2,0) walls the flood off.
    let mut s = start_session_with_mines(5, 1, Vec::new()).unwrap();
    s.toggle_flag(coord(2, 0)).unwrap();
    s.reveal_cell(coord(0, 0)).unwrap();
    let deltas = s.drain();
    assert_eq!(deltas.len(), 2);
    assert_eq!(s.cells.state_of(coord(0, 0)), CellState::Revealed);
    assert_eq!(s.cells.state_of(coord(1, 0)), CellState::Revealed);
    assert_eq!(s.cells.state_of(coord(2, 0)), CellState::Flagged);
    assert_eq!(s.cells.state_of(coord(3, 0)), CellState::Hidden);
    assert_eq!(s.cells.state_of(coord(4, 0)), CellState::Hidden);
    // Removing the wall does not reveal anything by itself; the walled-off
    // cell takes its own click.
    s.toggle_flag(coord(2, 0)).unwrap();
    assert_eq!(s.cells.state_of(coord(2, 0)), CellState::Hidden);
    assert!(s.drain().is_empty());
    s.reveal_cell(coord(2, 0)).unwrap();
    let rest = s.drain();
    assert_eq!(rest.len(), 3);
    assert_eq!(s.cells.count_revealed(), 5);
    assert_eq!(s.session_status(), SessionStatus::Won);
}

#[test]
fn full_game_keeps_counters_consistent() {
    let mines = vec![coord(0, 4), coord(4, 0), coord(2, 2)];
    let mut s = start_session_with_mines(5, 5, mines.clone()).unwrap();
    let moves = [
        (true, coord(0, 0)),
        (false, coord(2, 2)),
        (true, coord(4, 4)),
        (false, coord(2, 2)),
        (false, coord(2, 2)),
        (true, coord(3, 3)),
        (true, coord(1, 3)),
        (true, coord(3, 1)),
    ];
    for (is_reveal, c) in moves {
        if is_reveal {
            s.reveal_cell(c).unwrap();
            s.drain();
        } else {
            s.toggle_flag(c).unwrap();
        }
        let sum = s.cells.count_revealed() + s.cells.count_hidden() + s.cells.count_flagged();
        assert_eq!(sum, 25);
        assert_eq!(s.session_status(), SessionStatus::Playing);
    }
    // Finish: flag every mine, reveal everything else.
    for m in &mines {
        if s.cells.state_of(*m) == CellState::Hidden {
            s.toggle_flag(*m).unwrap();
        }
    }
    for x in 0..5 {
        for y in 0..5 {
            let c = coord(x, y);
            if !mines.contains(&c) && s.cells.state_of(c) == CellState::Hidden {
                s.reveal_cell(c).unwrap();
                s.drain();
            }
        }
    }
    assert_eq!(s.session_status(), SessionStatus::Won);
    assert_eq!(s.cells.count_revealed(), 22);
    assert_eq!(s.cells.count_flagged(), 3);
}
