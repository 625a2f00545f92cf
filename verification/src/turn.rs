//! A turn of the game: from the two lines that the player typed to the move
//! on the grid.

use vstd::prelude::*;
use crate::board::{position, Board};
use crate::grid::Grid;
use crate::input::{action_of, coords_of, get_action, get_coords, Action};
use crate::status::Status;

verus! {

/// The board and the status that come of a turn: the action that the
/// second line asks for, at the position that the first line names.
pub open spec fn played(board: Board, coords: Seq<char>, action: Seq<char>) -> (Board, Status) {
    let p = position(coords_of(coords));
    match action_of(action) {
        Action::Open => (board.after_open(p), board.open_status(p)),
        Action::Flag => (board.after_flag(p), board.flag_status(p)),
    }
}

/// A line in which the row or the column cannot be read, or is 0, names a
/// position off every board that a grid can hold, so the turn is refused as
/// out of bounds, or for want of a flag, and changes nothing.
pub proof fn unreadable_coords_are_refused(board: Board, coords: Seq<char>, action: Seq<char>)
    requires
        board.wf(),
        board.size <= usize::MAX,
        coords_of(coords).0 == usize::MAX || coords_of(coords).1 == usize::MAX,
    ensures
        !board.in_bounds(position(coords_of(coords))),
        played(board, coords, action).0 == board,
        played(board, coords, action).1 == Status::PositionOutOfBounds || played(
            board,
            coords,
            action,
        ).1 == Status::FlagLimitReached,
{
    board.lemma_open_needs_hidden(position(coords_of(coords)));
}

/// Carries out a turn: reads the position from `coords` and the action
/// from `action`, and opens or flags the cell.
pub fn play(grid: &mut Grid, coords: &str, action: &str) -> (status: Status)
    requires
        old(grid)@.wf(),
    ensures
        (final(grid)@, status) == played(old(grid)@, coords@, action@),
        final(grid)@.wf(),
{
    let (row, col) = get_coords(coords);
    match get_action(action) {
        Action::Open => grid.open(row, col),
        Action::Flag => grid.flag(row, col),
    }
}

} // verus!
