use vstd::prelude::*;

verus! {

/// What a cell permanently holds: a mine, a positive neighbor-mine count, or
/// nothing (no mine anywhere around it).
#[derive(Clone, Copy, PartialEq, Eq, Structural, Debug)]
pub enum Cell {
    Value(i32),
    Empty,
    Mine,
}

/// The action a front end may route a click to: planting a flag or uncovering.
#[derive(Clone, Copy, PartialEq, Eq, Structural, Debug)]
pub enum Action {
    Flag,
    Uncover,
}

/// The state of a game: still running, cleared, or detonated.
#[derive(Clone, Copy, PartialEq, Eq, Structural, Debug)]
pub enum GameResult {
    InProgress,
    Won,
    Lost,
}

/// Signalled when a coordinate lies outside the grid.
#[derive(Clone, Copy, PartialEq, Eq, Structural, Debug)]
pub enum EngineError {
    IndexOutOfBounds,
}

/// Whether a flag toggle changed the cell or was ignored.
#[derive(Clone, Copy, PartialEq, Eq, Structural, Debug)]
pub enum ToggleOutcome {
    Toggled,
    NoOp,
}

/// Per-cell record: content fixed at generation, plus the two mutable
/// player-facing bits.
#[derive(Clone, Copy, PartialEq, Eq, Structural, Debug)]
pub struct CellState {
    pub content: Cell,
    pub uncovered: bool,
    pub flagged: bool,
}

impl Default for CellState {
    /// A covered, unflagged cell with nothing in it.
    fn default() -> (c: CellState)
        ensures
            c == (CellState { content: Cell::Empty, uncovered: false, flagged: false }),
    {
        CellState { content: Cell::Empty, uncovered: false, flagged: false }
    }
}

impl CellState {
    /// The digit a `Value` cell shows; `0` for anything else.
    pub open spec fn value_of(self) -> int {
        match self.content {
            Cell::Value(k) => if k >= 0 {
                k as int
            } else {
                0
            },
            _ => 0,
        }
    }

    pub fn is_empty(&self) -> (r: bool)
        ensures
            r == (self.content is Empty),
    {
        matches!(self.content, Cell::Empty)
    }

    pub fn is_mine(&self) -> (r: bool)
        ensures
            r == (self.content is Mine),
    {
        matches!(self.content, Cell::Mine)
    }

    pub fn get_value(&self) -> (r: usize)
        ensures
            r as int == self.value_of(),
    {
        if let Cell::Value(v) = self.content {
            if v >= 0 {
                v as usize
            } else {
                0
            }
        } else {
            0
        }
    }
}

} // verus!
