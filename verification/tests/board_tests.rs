use minesweeper::board::Board;
use minesweeper::{Cell, CellState, EngineError, GameResult, ToggleOutcome};

fn mask(size: usize, mines: &[(usize, usize)]) -> Vec<bool> {
    let mut v = vec![false; size * size];
    for &(r, c) in mines {
        v[r * size + c] = true;
    }
    v
}

fn cell(b: &Board, r: usize, c: usize) -> CellState {
    b.cell_at(r, c).expect("coordinate must be in range")
}

#[test]
fn value_consistency_fixed_grid() {
    // Mine at (0,0) only: its three neighbors read 1, everything else is empty.
    let mines = mask(3, &[(0, 0)]);
    let b = Board::from_mines(3, &mines);
    assert_eq!(cell(&b, 1, 1).content, Cell::Value(1));
    assert_eq!(cell(&b, 2, 2).content, Cell::Empty);
    assert_eq!(cell(&b, 0, 1).content, Cell::Value(1));
    assert_eq!(cell(&b, 1, 0).content, Cell::Value(1));
    assert_eq!(cell(&b, 0, 2).content, Cell::Empty);
    assert_eq!(cell(&b, 0, 0).content, Cell::Mine);
}

#[test]
fn value_counts_clip_at_edges() {
    // A full ring of mines around the center of a 3x3 grid.
    let mines = mask(
        3,
        &[
            (0, 0),
            (0, 1),
            (0, 2),
            (1, 0),
            (1, 2),
            (2, 0),
            (2, 1),
            (2, 2),
        ],
    );
    let b = Board::from_mines(3, &mines);
    assert_eq!(cell(&b, 1, 1).content, Cell::Value(8));
}

#[test]
fn construction_starts_covered_and_unflagged() {
    let mines = mask(4, &[(1, 2), (3, 3)]);
    let b = Board::from_mines(4, &mines);
    for r in 0..4 {
        for c in 0..4 {
            let cs = cell(&b, r, c);
            assert!(!cs.uncovered);
            assert!(!cs.flagged);
        }
    }
    assert_eq!(b.result(), GameResult::InProgress);
}

#[test]
fn random_board_is_covered_and_consistent() {
    let mut b = Board::new(10, 30);
    let mut safe: Option<(usize, usize)> = None;
    for r in 0..10 {
        for c in 0..10 {
            let cs = cell(&b, r, c);
            assert!(!cs.uncovered);
            assert!(!cs.flagged);
            if cs.content != Cell::Mine && safe.is_none() {
                safe = Some((r, c));
            }
        }
    }
    match safe {
        Some((r, c)) => {
            assert_eq!(b.result(), GameResult::InProgress);
            // uncovering a safe cell never loses
            assert_ne!(b.uncover(r, c), Ok(GameResult::Lost));
        }
        None => {
            // with every cell a mine there is nothing left to clear
            assert_eq!(b.result(), GameResult::Won);
        }
    }
}

#[test]
fn out_of_range_is_rejected_without_change() {
    let mines = mask(3, &[(0, 0)]);
    let mut b = Board::from_mines(3, &mines);
    assert_eq!(b.uncover(3, 0), Err(EngineError::IndexOutOfBounds));
    assert_eq!(b.uncover(0, 7), Err(EngineError::IndexOutOfBounds));
    assert_eq!(b.toggle_flag(5, 5), Err(EngineError::IndexOutOfBounds));
    for r in 0..3 {
        for c in 0..3 {
            assert!(!cell(&b, r, c).uncovered);
            assert!(!cell(&b, r, c).flagged);
        }
    }
    assert_eq!(b.result(), GameResult::InProgress);
    assert!(b.is_out_of_bounds(3, 0));
    assert!(!b.is_out_of_bounds(2, 2));
    assert!(b.cell_at(3, 3).is_none());
}

#[test]
fn toggle_flag_flips_only_the_target() {
    let mines = mask(3, &[(0, 0)]);
    let mut b = Board::from_mines(3, &mines);
    assert_eq!(b.toggle_flag(1, 1), Ok(ToggleOutcome::Toggled));
    assert!(cell(&b, 1, 1).flagged);
    assert!(b.is_cell_flagged(1, 1));
    for r in 0..3 {
        for c in 0..3 {
            if (r, c) != (1, 1) {
                assert!(!cell(&b, r, c).flagged);
            }
        }
    }
    assert_eq!(b.toggle_flag(1, 1), Ok(ToggleOutcome::Toggled));
    assert!(!cell(&b, 1, 1).flagged);
}

#[test]
fn toggle_flag_on_uncovered_cell_is_noop() {
    let mines = mask(3, &[(0, 0)]);
    let mut b = Board::from_mines(3, &mines);
    assert_eq!(b.uncover(1, 1), Ok(GameResult::InProgress));
    assert!(cell(&b, 1, 1).uncovered);
    assert_eq!(b.toggle_flag(1, 1), Ok(ToggleOutcome::NoOp));
    assert!(!cell(&b, 1, 1).flagged);
}

#[test]
fn cell_state_accessors() {
    let empty = CellState::default();
    assert_eq!(empty.content, Cell::Empty);
    assert!(!empty.uncovered);
    assert!(!empty.flagged);
    assert!(empty.is_empty());
    assert!(!empty.is_mine());
    assert_eq!(empty.get_value(), 0);

    let mine = CellState {
        content: Cell::Mine,
        uncovered: false,
        flagged: false,
    };
    assert!(mine.is_mine());
    assert!(!mine.is_empty());
    assert_eq!(mine.get_value(), 0);

    let three = CellState {
        content: Cell::Value(3),
        uncovered: true,
        flagged: false,
    };
    assert!(!three.is_mine());
    assert!(!three.is_empty());
    assert_eq!(three.get_value(), 3);
}

#[test]
fn neighbor_counts_by_position() {
    let mines = mask(3, &[(0, 0)]);
    let b = Board::from_mines(3, &mines);
    assert_eq!(b.get_neighbors(0, 0).len(), 3);
    assert_eq!(b.get_neighbors(0, 1).len(), 5);
    assert_eq!(b.get_neighbors(1, 1).len(), 8);
    assert_eq!(b.get_neighbors(2, 2).len(), 3);
    let mut nbrs = b.get_neighbors(2, 2);
    nbrs.sort();
    assert_eq!(nbrs, vec![(1, 1), (1, 2), (2, 1)]);
}
