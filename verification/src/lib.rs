//! Core engine of a Minesweeper-style puzzle game.
//!
//! The library owns the board model and the clearing algorithm: mine
//! placement, per-cell state tracking, breadth-first flood-fill reveal with an
//! explicit work queue and step budget, flag handling, and the win/loss
//! evaluation. Rendering and input handling live outside and talk to the
//! engine through plain values.

pub mod cells;
pub mod coord;
pub mod grid;
pub mod session;
pub mod settings;
pub mod win;

use vstd::prelude::*;

verus! {

/// Everything that can go wrong at the engine boundary. All of these are
/// recoverable: the caller's state is left unchanged and a corrected request
/// can simply be re-issued.
#[derive(Clone, Copy, Debug, PartialEq, Eq, Structural)]
pub enum GameError {
    /// A coordinate outside the grid was handed in.
    OutOfBounds,
    /// The requested mine count is incompatible with the grid size.
    ConfigurationError,
    /// A reveal was attempted on a flagged cell without an explicit unflag.
    InvalidTransition,
}

} // verus!
