//! The outcome of a move.

use vstd::prelude::*;

verus! {

/// What [`crate::Grid::open`] and [`crate::Grid::flag`] report back.
#[derive(Clone, Copy, Debug, PartialEq, Eq, Structural)]
pub enum Status {
    /// The move was carried out.
    Success,
    /// The cell carries a flag, so it stays closed.
    CannotOpenFlaggedCell,
    /// The cell is open already.
    CannotOpenOpenedCell,
    /// An open cell takes no flag.
    CannotFlagOpenedCell,
    /// The row or the column lies outside the board.
    PositionOutOfBounds,
    /// The move was carried out and every flag now sits on a mine.
    GameWon,
    /// A mine was opened.
    GameOver,
    /// No flag is left to place or to move.
    FlagLimitReached,
}

impl Status {
    /// The statuses after which a round is over.
    pub open spec fn spec_is_terminal(&self) -> bool {
        *self == Status::GameWon || *self == Status::GameOver
    }

    /// Whether the round is over: the caller stops on a win or a loss and
    /// goes on after every other status.
    #[verifier::when_used_as_spec(spec_is_terminal)]
    pub fn is_terminal(&self) -> (over: bool)
        ensures
            over == self.spec_is_terminal(),
    {
        match self {
            Status::GameWon | Status::GameOver => true,
            _ => false,
        }
    }
}

} // verus!
