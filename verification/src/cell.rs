//! One square of the board and its two moves.

use vstd::prelude::*;
use crate::status::Status;

verus! {

/// A square of the board: it holds a mine or it is safe.
///
/// A mined cell is never open, since opening it ends the round. A safe cell
/// knows how many of its neighbours are mined and is hidden, flagged or
/// open.
#[derive(Clone, Copy, Debug, PartialEq, Eq, Structural)]
pub enum Cell {
    NonMined { adjacent_mine_count: u8, opened: bool, flagged: bool },
    Mined { flagged: bool },
}

/// What the player sees of a cell while the round is on: whether it is
/// open, and if so how many mines are around it; if not, whether it
/// carries a flag. A mine does not show.
#[derive(Clone, Copy, Debug, PartialEq, Eq, Structural)]
pub enum Visibility {
    Hidden,
    Flagged,
    Opened { adjacent_mine_count: u8 },
}

impl Cell {
    pub open spec fn spec_is_mined(&self) -> bool {
        *self is Mined
    }

    pub open spec fn spec_is_flagged(&self) -> bool {
        match *self {
            Cell::NonMined { flagged, .. } => flagged,
            Cell::Mined { flagged } => flagged,
        }
    }

    pub open spec fn spec_is_opened(&self) -> bool {
        match *self {
            Cell::NonMined { opened, .. } => opened,
            Cell::Mined { .. } => false,
        }
    }

    /// The stored number of mined neighbours; a mined cell stores none and
    /// counts as 0.
    pub open spec fn spec_adjacent_mines(&self) -> u8 {
        match *self {
            Cell::NonMined { adjacent_mine_count, .. } => adjacent_mine_count,
            Cell::Mined { .. } => 0,
        }
    }

    /// A safe cell that is neither open nor flagged: the only kind that
    /// `open` changes.
    pub open spec fn is_hidden(&self) -> bool {
        *self matches Cell::NonMined { opened, flagged, .. } && !opened && !flagged
    }

    /// A hidden cell without mined neighbours: opening it opens its
    /// neighbours too.
    pub open spec fn is_blank(&self) -> bool {
        self.is_hidden() && self.spec_adjacent_mines() == 0
    }

    /// A cell has at most 8 neighbours, and it is never open and flagged at
    /// once.
    pub open spec fn wf(&self) -> bool {
        *self matches Cell::NonMined { adjacent_mine_count, opened, flagged }
            ==> adjacent_mine_count <= 8 && !(opened && flagged)
    }

    /// The cell after `open`: a hidden cell is open, any other is as it was.
    pub open spec fn after_open(&self) -> Cell {
        match *self {
            Cell::NonMined { adjacent_mine_count, opened: false, flagged: false } => {
                Cell::NonMined { adjacent_mine_count, opened: true, flagged: false }
            },
            _ => *self,
        }
    }

    /// What `open` reports for the cell.
    pub open spec fn open_status(&self) -> Status {
        match *self {
            Cell::Mined { .. } => Status::GameOver,
            Cell::NonMined { flagged: true, .. } => Status::CannotOpenFlaggedCell,
            Cell::NonMined { opened: true, .. } => Status::CannotOpenOpenedCell,
            Cell::NonMined { .. } => Status::Success,
        }
    }

    /// The cell after `flag`: an open cell is as it was, any other has its
    /// flag toggled.
    pub open spec fn after_flag(&self) -> Cell {
        match *self {
            Cell::NonMined { adjacent_mine_count, opened: false, flagged } => Cell::NonMined {
                adjacent_mine_count,
                opened: false,
                flagged: !flagged,
            },
            Cell::NonMined { .. } => *self,
            Cell::Mined { flagged } => Cell::Mined { flagged: !flagged },
        }
    }

    /// What `flag` reports for the cell.
    pub open spec fn flag_status(&self) -> Status {
        if self.spec_is_opened() {
            Status::CannotFlagOpenedCell
        } else {
            Status::Success
        }
    }

    /// A hidden safe cell with the given number of mined neighbours.
    pub open spec fn hidden(count: u8) -> Cell {
        Cell::NonMined { adjacent_mine_count: count, opened: false, flagged: false }
    }

    pub open spec fn spec_visibility(&self) -> Visibility {
        if self.spec_is_opened() {
            Visibility::Opened { adjacent_mine_count: self.spec_adjacent_mines() }
        } else if self.spec_is_flagged() {
            Visibility::Flagged
        } else {
            Visibility::Hidden
        }
    }

    /// What the player sees of the cell.
    #[verifier::when_used_as_spec(spec_visibility)]
    pub fn visibility(&self) -> (seen: Visibility)
        ensures
            seen == self.spec_visibility(),
    {
        match self {
            Cell::NonMined { adjacent_mine_count, opened: true, .. } => Visibility::Opened {
                adjacent_mine_count: *adjacent_mine_count,
            },
            Cell::NonMined { flagged: true, .. } => Visibility::Flagged,
            Cell::Mined { flagged: true } => Visibility::Flagged,
            _ => Visibility::Hidden,
        }
    }

    /// Whether the cell holds a mine.
    #[verifier::when_used_as_spec(spec_is_mined)]
    pub fn is_mined(&self) -> (mined: bool)
        ensures
            mined == self.spec_is_mined(),
    {
        match self {
            Cell::Mined { .. } => true,
            Cell::NonMined { .. } => false,
        }
    }

    /// Whether the cell carries a flag.
    #[verifier::when_used_as_spec(spec_is_flagged)]
    pub fn is_flagged(&self) -> (flagged: bool)
        ensures
            flagged == self.spec_is_flagged(),
    {
        match self {
            Cell::NonMined { flagged, .. } => *flagged,
            Cell::Mined { flagged } => *flagged,
        }
    }

    /// Whether the cell is open.
    #[verifier::when_used_as_spec(spec_is_opened)]
    pub fn is_opened(&self) -> (opened: bool)
        ensures
            opened == self.spec_is_opened(),
    {
        match self {
            Cell::NonMined { opened, .. } => *opened,
            Cell::Mined { .. } => false,
        }
    }

    /// The stored number of mined neighbours, 0 for a mine.
    #[verifier::when_used_as_spec(spec_adjacent_mines)]
    pub fn adjacent_mines(&self) -> (count: u8)
        ensures
            count == self.spec_adjacent_mines(),
    {
        match self {
            Cell::NonMined { adjacent_mine_count, .. } => *adjacent_mine_count,
            Cell::Mined { .. } => 0,
        }
    }

    /// Neither move makes a valid cell invalid: no cell comes to be open
    /// and flagged at once.
    pub proof fn lemma_moves_keep_wf(self)
        requires
            self.wf(),
        ensures
            self.after_open().wf(),
            self.after_flag().wf(),
    {
    }

    /// Opens the cell if it is hidden and safe. Returns the status and
    /// whether the neighbours are to be opened as well, which is so when
    /// the cell was opened just now and none of its neighbours is mined.
    pub fn open(&mut self) -> (result: (Status, bool))
        ensures
            *final(self) == old(self).after_open(),
            result.0 == old(self).open_status(),
            result.1 == old(self).is_blank(),
    {
        match *self {
            Cell::NonMined { adjacent_mine_count, opened, flagged } => {
                if flagged {
                    (Status::CannotOpenFlaggedCell, false)
                } else if opened {
                    (Status::CannotOpenOpenedCell, false)
                } else {
                    *self = Cell::NonMined { adjacent_mine_count, opened: true, flagged: false };
                    (Status::Success, adjacent_mine_count == 0)
                }
            },
            Cell::Mined { .. } => (Status::GameOver, false),
        }
    }

    /// Toggles the flag unless the cell is open. Returns the status and
    /// whether the cell carries a flag afterwards as a result of this call.
    pub fn flag(&mut self) -> (result: (Status, bool))
        ensures
            *final(self) == old(self).after_flag(),
            result.0 == old(self).flag_status(),
            result.1 == (!old(self).spec_is_opened() && !old(self).spec_is_flagged()),
    {
        match *self {
            Cell::NonMined { adjacent_mine_count, opened, flagged } => {
                if opened {
                    return (Status::CannotFlagOpenedCell, false);
                }
                *self = Cell::NonMined { adjacent_mine_count, opened: false, flagged: !flagged };
                (Status::Success, !flagged)
            },
            Cell::Mined { flagged } => {
                *self = Cell::Mined { flagged: !flagged };
                (Status::Success, !flagged)
            },
        }
    }
}

} // verus!
