//! The ways a request to the engine can be turned down.

use vstd::prelude::*;

verus! {

/// Why a stone could not be placed. Each is an ordinary, recoverable answer
/// of the rules, never a fault of the engine.
#[derive(Clone, Copy, Debug, PartialEq, Eq, Structural)]
pub enum TurnErrors {
    /// The point already holds a stone.
    AlreadyPlaced,
    /// The move would bring back a position that the game has already seen.
    Ko,
    /// The move would leave its own group without a liberty and capture
    /// nothing.
    Suicide,
    /// The point is not on the board.
    OutofBounds,
}

/// Why the history pointer could not be moved.
#[derive(Clone, Copy, Debug, PartialEq, Eq, Structural)]
pub enum TreeErrors {
    /// The pointer is already at the first position.
    BelowZero,
    /// The pointer is already at, or the target lies beyond, the last position.
    AboveMax,
}

} // verus!
