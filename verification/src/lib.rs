//! A verified Minesweeper board engine: grid generation with hidden mines,
//! neighbor-count computation, flood-fill reveal, flag toggling, and win/loss
//! determination.

pub mod board;
pub mod cell;
pub mod laws;
pub mod uncover;

pub use board::Board;
pub use cell::Action;
pub use cell::Cell;
pub use cell::CellState;
pub use cell::EngineError;
pub use cell::GameResult;
pub use cell::ToggleOutcome;
