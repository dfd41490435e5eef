//! What a player may do when it is their turn.

use vstd::prelude::*;
use crate::coordinate::Coordinate;

verus! {

#[derive(Clone, Copy, Debug)]
pub enum Turn {
    /// Place a stone on the given point.
    Move(Coordinate),
    /// Place nothing; two passes in a row end the game.
    Pass,
    /// Give the game up.
    Resign,
}

impl Turn {
    /// The point of a move, `None` for a pass or a resignation.
    pub fn _handle_turn(turn: Turn) -> (point: Option<Coordinate>)
        ensures
            point == (match turn {
                Turn::Move(coordinate) => Some(coordinate),
                _ => None,
            }),
    {
        match turn {
            Turn::Move(coordinate) => Some(coordinate),
            _ => None,
        }
    }

    /// The move that places a stone on `coordinate`.
    pub fn _into_turn(coordinate: Coordinate) -> (turn: Turn)
        ensures
            turn == Turn::Move(coordinate),
    {
        Turn::Move(coordinate)
    }
}

} // verus!
