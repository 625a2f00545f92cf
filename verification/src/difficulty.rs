//! The three board presets.

use vstd::prelude::*;

verus! {

/// A preset that fixes the side of the board and the number of mines: 10
/// mines on 10 by 10 cells, 40 on 20 by 20, or 160 on 40 by 40.
#[derive(Clone, Copy, Debug, PartialEq, Eq, Structural)]
pub enum Difficulty {
    Easy,
    Medium,
    Hard,
}

impl Difficulty {
    /// The side of the square board.
    pub open spec fn board_size(&self) -> nat {
        match self {
            Difficulty::Easy => 10,
            Difficulty::Medium => 20,
            Difficulty::Hard => 40,
        }
    }

    /// The number of mines laid on the board.
    pub open spec fn mine_count(&self) -> nat {
        match self {
            Difficulty::Easy => 10,
            Difficulty::Medium => 40,
            Difficulty::Hard => 160,
        }
    }

    /// The side of the square board: 10, 20 or 40.
    pub fn get_board_size(&self) -> (size: usize)
        ensures
            size == self.board_size(),
    {
        match self {
            Difficulty::Easy => 10,
            Difficulty::Medium => 20,
            Difficulty::Hard => 40,
        }
    }

    /// The number of mines laid on the board: 10, 40 or 160.
    pub fn get_mine_count(&self) -> (count: usize)
        ensures
            count == self.mine_count(),
    {
        match self {
            Difficulty::Easy => 10,
            Difficulty::Medium => 40,
            Difficulty::Hard => 160,
        }
    }

    /// Every preset leaves at least one cell free of mines.
    pub proof fn lemma_mines_fit(self)
        ensures
            0 < self.mine_count() < self.board_size() * self.board_size(),
    {
    }
}

} // verus!
