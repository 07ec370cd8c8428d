use minesweeper::board::Board;
use minesweeper::{Cell, CellState, GameResult, ToggleOutcome};

fn mask(size: usize, mines: &[(usize, usize)]) -> Vec<bool> {
    let mut v = vec![false; size * size];
    for &(r, c) in mines {
        v[r * size + c] = true;
    }
    v
}

fn cell(b: &Board, r: usize, c: usize) -> CellState {
    b.cell_at(r, c).expect("coordinate must be in range")
}

fn uncovered_set(b: &Board, size: usize) -> Vec<(usize, usize)> {
    let mut out = Vec::new();
    for r in 0..size {
        for c in 0..size {
            if cell(b, r, c).uncovered {
                out.push((r, c));
            }
        }
    }
    out
}

#[test]
fn single_cell_no_mine_wins_at_once() {
    // 1x1 grid without a mine: one uncover clears the board.
    let mines = mask(1, &[]);
    let mut b = Board::from_mines(1, &mines);
    assert_eq!(b.result(), GameResult::InProgress);
    assert_eq!(b.uncover(0, 0), Ok(GameResult::Won));
    assert_eq!(b.result(), GameResult::Won);
    assert!(cell(&b, 0, 0).uncovered);
}

#[test]
fn two_by_two_diagonal_mines_scenario() {
    // Mines at (0,0) and (1,1): (0,1) reads 2; detonating (0,0) then loses.
    let mines = mask(2, &[(0, 0), (1, 1)]);
    let mut b = Board::from_mines(2, &mines);
    assert_eq!(b.uncover(0, 1), Ok(GameResult::InProgress));
    let cs = cell(&b, 0, 1);
    assert!(cs.uncovered);
    assert_eq!(cs.content, Cell::Value(2));
    assert_eq!(b.uncover(0, 0), Ok(GameResult::Lost));
    assert_eq!(b.result(), GameResult::Lost);
}

#[test]
fn uncovering_is_monotone_across_calls() {
    let mines = mask(3, &[(0, 0)]);
    let mut b = Board::from_mines(3, &mines);
    let mut seen: Vec<(usize, usize)> = Vec::new();
    let calls = [(1usize, 1usize), (0, 1), (2, 2), (0, 0), (1, 0)];
    for &(r, c) in &calls {
        let _ = b.toggle_flag(2, 0);
        let _ = b.uncover(r, c);
        let now = uncovered_set(&b, 3);
        for p in &seen {
            assert!(now.contains(p), "a cell went from uncovered back to covered");
        }
        seen = now;
    }
}

#[test]
fn flood_fill_uncovers_exactly_the_connected_region() {
    // Mine at (0,0); (0,2) flagged. Uncovering the far corner floods every
    // empty cell connected to it plus the bordering value cells, skips the
    // flagged cell, and never touches the mine.
    let mines = mask(3, &[(0, 0)]);
    let mut b = Board::from_mines(3, &mines);
    assert_eq!(b.toggle_flag(0, 2), Ok(ToggleOutcome::Toggled));
    assert_eq!(b.uncover(2, 2), Ok(GameResult::InProgress));
    let mut got = uncovered_set(&b, 3);
    got.sort();
    assert_eq!(
        got,
        vec![(0, 1), (1, 0), (1, 1), (1, 2), (2, 0), (2, 1), (2, 2)]
    );
    // Unflagging the last safe cell and uncovering it finishes the game:
    // it is empty, and its whole neighborhood is already uncovered.
    assert_eq!(b.toggle_flag(0, 2), Ok(ToggleOutcome::Toggled));
    assert_eq!(b.uncover(0, 2), Ok(GameResult::Won));
    assert!(!cell(&b, 0, 0).uncovered);
}

#[test]
fn value_cell_does_not_cascade() {
    // Uncovering a numbered cell uncovers only that cell.
    let mines = mask(3, &[(0, 0)]);
    let mut b = Board::from_mines(3, &mines);
    assert_eq!(b.uncover(1, 1), Ok(GameResult::InProgress));
    assert_eq!(uncovered_set(&b, 3), vec![(1, 1)]);
}

#[test]
fn flag_protects_covered_cell() {
    let mines = mask(2, &[(0, 0), (1, 1)]);
    let mut b = Board::from_mines(2, &mines);
    assert_eq!(b.toggle_flag(0, 0), Ok(ToggleOutcome::Toggled));
    // The flagged mine survives an uncover attempt; nothing changes.
    assert_eq!(b.uncover(0, 0), Ok(GameResult::InProgress));
    assert!(!cell(&b, 0, 0).uncovered);
    assert!(cell(&b, 0, 0).flagged);
    assert_eq!(b.result(), GameResult::InProgress);
    // Unflagging re-arms it.
    assert_eq!(b.toggle_flag(0, 0), Ok(ToggleOutcome::Toggled));
    assert_eq!(b.uncover(0, 0), Ok(GameResult::Lost));
    assert!(cell(&b, 0, 0).uncovered);
}

#[test]
fn uncovering_a_mine_loses_without_cascade() {
    let mines = mask(3, &[(1, 1)]);
    let mut b = Board::from_mines(3, &mines);
    assert_eq!(b.uncover(1, 1), Ok(GameResult::Lost));
    assert_eq!(b.result(), GameResult::Lost);
    // Only the detonated mine is uncovered.
    assert_eq!(uncovered_set(&b, 3), vec![(1, 1)]);
}

#[test]
fn clearing_every_safe_cell_wins_in_any_order() {
    // One known mine; uncover the safe cells in a scrambled order.
    let mines = mask(2, &[(0, 0)]);
    let mut b = Board::from_mines(2, &mines);
    assert_eq!(b.uncover(1, 0), Ok(GameResult::InProgress));
    assert_eq!(b.uncover(1, 1), Ok(GameResult::InProgress));
    assert_eq!(b.uncover(0, 1), Ok(GameResult::Won));
    assert_eq!(b.result(), GameResult::Won);

    let mut b2 = Board::from_mines(2, &mines);
    assert_eq!(b2.uncover(0, 1), Ok(GameResult::InProgress));
    assert_eq!(b2.uncover(1, 1), Ok(GameResult::InProgress));
    assert_eq!(b2.uncover(1, 0), Ok(GameResult::Won));

    // Detonating the mine instead forecloses the win.
    let mut b3 = Board::from_mines(2, &mines);
    assert_eq!(b3.uncover(0, 1), Ok(GameResult::InProgress));
    assert_eq!(b3.uncover(0, 0), Ok(GameResult::Lost));
    assert_eq!(b3.uncover(1, 0), Ok(GameResult::Lost));
    assert_eq!(b3.result(), GameResult::Lost);
}

#[test]
fn terminal_states_absorb_all_calls() {
    // Lost game: nothing moves any more.
    let mines = mask(2, &[(0, 0), (1, 1)]);
    let mut b = Board::from_mines(2, &mines);
    assert_eq!(b.uncover(0, 0), Ok(GameResult::Lost));
    let frozen = uncovered_set(&b, 2);
    assert_eq!(b.uncover(0, 1), Ok(GameResult::Lost));
    assert_eq!(b.toggle_flag(1, 0), Ok(ToggleOutcome::NoOp));
    assert_eq!(uncovered_set(&b, 2), frozen);
    assert!(!cell(&b, 1, 0).flagged);
    assert_eq!(b.result(), GameResult::Lost);

    // Won game likewise.
    let mines2 = mask(1, &[]);
    let mut w = Board::from_mines(1, &mines2);
    assert_eq!(w.uncover(0, 0), Ok(GameResult::Won));
    assert_eq!(w.uncover(0, 0), Ok(GameResult::Won));
    assert_eq!(w.toggle_flag(0, 0), Ok(ToggleOutcome::NoOp));
    assert_eq!(w.result(), GameResult::Won);
}

#[test]
fn uncover_on_already_uncovered_cell_is_noop() {
    let mines = mask(3, &[(0, 0)]);
    let mut b = Board::from_mines(3, &mines);
    assert_eq!(b.uncover(1, 1), Ok(GameResult::InProgress));
    let before = uncovered_set(&b, 3);
    assert_eq!(b.uncover(1, 1), Ok(GameResult::InProgress));
    assert_eq!(uncovered_set(&b, 3), before);
}
