use vstd::prelude::*;

use crate::board::Position;

verus! {

/// Every way in which a request to the engine can be refused.
#[derive(Debug, Clone, Copy, PartialEq, Eq, Structural)]
pub enum GoError {
    /// The position lies outside the grid.
    OutOfBounds { pos: Position },
    /// The placement targets a cell that already holds a stone.
    PositionOccupied { pos: Position },
    /// The placed stone's group would have no liberty and nothing was captured.
    SuicidalMove,
    /// A single-stone recapture would restore the position from just before
    /// the previous capturing move.
    KoRuleViolation,
    /// The session has already ended with two consecutive passes.
    GameOver,
}

impl GoError {
    pub fn out_of_bounds(pos: Position) -> (r: Self)
        ensures
            r == (GoError::OutOfBounds { pos }),
    {
        GoError::OutOfBounds { pos }
    }

    pub fn position_occupied(pos: Position) -> (r: Self)
        ensures
            r == (GoError::PositionOccupied { pos }),
    {
        GoError::PositionOccupied { pos }
    }

    pub fn suicidal_move() -> (r: Self)
        ensures
            r == GoError::SuicidalMove,
    {
        GoError::SuicidalMove
    }

    pub fn ko_rule_violation() -> (r: Self)
        ensures
            r == GoError::KoRuleViolation,
    {
        GoError::KoRuleViolation
    }

    pub fn game_over() -> (r: Self)
        ensures
            r == GoError::GameOver,
    {
        GoError::GameOver
    }
}

} // verus!
