//! What holds of every valid board, stated over the model and proved from
//! its definitions.

use vstd::prelude::*;
use crate::board::{adjacent, mines_around, neighborhood, Board};
use crate::cell::Cell;
use crate::status::Status;

verus! {

/// A valid board holds as many mines as it was laid out with, and every
/// other cell of its `size * size` cells is safe.
pub proof fn mines_and_safe_cells_fill_the_board(board: Board)
    requires
        board.wf(),
    ensures
        board.mine_set().len() == board.mine_count,
        board.safe_set().len() == board.size * board.size - board.mine_count,
        board.safe_set().len() > 0,
{
    board.lemma_sets_finite();
}

/// On a valid board every safe cell stores the number of mined cells among
/// the up to 8 cells that touch it.
pub proof fn safe_cells_count_their_mined_neighbours(board: Board, p: (int, int))
    requires
        board.wf(),
        board.in_bounds(p),
        !board.at(p).is_mined(),
    ensures
        board.at(p).spec_adjacent_mines() == board.mine_set().intersect(neighborhood(p)).len(),
        board.at(p).spec_adjacent_mines() == Set::new(
            |q: (int, int)| board.in_bounds(q) && adjacent(p, q) && board.at(q).is_mined(),
        ).len(),
{
    assert(board.at(p).spec_adjacent_mines() == mines_around(board.mine_set(), p));
    assert(board.mine_set().intersect(neighborhood(p)) =~= Set::new(
        |q: (int, int)| board.in_bounds(q) && adjacent(p, q) && board.at(q).is_mined(),
    ));
}

/// Opening a hidden cell opens every cell that it reaches along a cascade
/// path, itself included, and leaves every other cell as it was.
pub proof fn opening_opens_what_is_reached(board: Board, p: (int, int), q: (int, int))
    requires
        board.wf(),
        board.in_bounds(q),
    ensures
        board.reaches(p, q) ==> board.after_open(p).at(q).is_opened(),
        !board.reaches(p, q) ==> board.after_open(p).at(q) == board.at(q),
        board.hidden(p) ==> board.reaches(p, p),
{
    if board.reaches(p, q) {
        board.lemma_reaches_hidden(p, q);
    }
    if board.hidden(p) {
        board.lemma_reaches_self(p);
    }
}

/// The distance to walk from `p` to `q`, a row or a column at a time.
pub open spec fn walk(p: (int, int), q: (int, int)) -> nat {
    (if p.0 <= q.0 {
        q.0 - p.0
    } else {
        p.0 - q.0
    } + if p.1 <= q.1 {
        q.1 - p.1
    } else {
        p.1 - q.1
    }) as nat
}

/// Where every cell is blank, every cell reaches every other.
pub proof fn blank_boards_are_connected(board: Board, p: (int, int), q: (int, int))
    requires
        board.in_bounds(p),
        board.in_bounds(q),
        forall|x: (int, int)| board.in_bounds(x) ==> #[trigger] board.blank(x),
    ensures
        board.reaches(p, q),
    decreases walk(p, q),
{
    if p == q {
        assert(board.blank(p));
        board.lemma_reaches_self(p);
    } else {
        let back = if q.0 > p.0 {
            (q.0 - 1, q.1)
        } else if q.0 < p.0 {
            (q.0 + 1, q.1)
        } else if q.1 > p.1 {
            (q.0, q.1 - 1)
        } else {
            (q.0, q.1 + 1)
        };
        blank_boards_are_connected(board, p, back);
        assert(board.blank(back) && board.blank(q));
        board.lemma_reaches_step(p, back, q);
    }
}

/// On a board without a mine on which nothing is open yet, opening any
/// cell opens the whole board.
pub proof fn opening_a_mine_free_board_opens_it_all(board: Board, p: (int, int), q: (int, int))
    requires
        board.wf(),
        board.mine_count == 0,
        board.untouched(),
        board.in_bounds(p),
        board.in_bounds(q),
    ensures
        board.after_open(p).at(q).is_opened(),
{
    board.lemma_sets_finite();
    assert forall|x: (int, int)| board.in_bounds(x) implies #[trigger] board.blank(x) by {
        assert(board.at(x).wf());
        if board.at(x).is_mined() {
            assert(board.mine_set().contains(x));
        }
        assert(board.mine_set() =~= Set::empty());
        assert(board.mine_set().intersect(neighborhood(x)) =~= Set::empty());
        assert(board.at(x).spec_adjacent_mines() == mines_around(board.mine_set(), x));
    }
    blank_boards_are_connected(board, p, q);
}

/// A move lays no mine and lifts none, changes no count of mines, and
/// leaves the board its size: it opens cells, or it toggles one flag and
/// moves it between the board and the budget.
pub proof fn moves_keep_the_layout(board: Board, p: (int, int), q: (int, int))
    requires
        board.wf(),
        board.in_bounds(q),
    ensures
        board.after_open(p).at(q).is_mined() == board.at(q).is_mined(),
        board.after_open(p).at(q).spec_adjacent_mines() == board.at(q).spec_adjacent_mines(),
        board.after_open(p).at(q).is_flagged() == board.at(q).is_flagged(),
        board.after_open(p).flags_left == board.flags_left,
        board.after_flag(p).at(q).is_mined() == board.at(q).is_mined(),
        board.after_flag(p).at(q).spec_adjacent_mines() == board.at(q).spec_adjacent_mines(),
        board.after_flag(p).at(q).is_opened() == board.at(q).is_opened(),
        q != p ==> board.after_flag(p).at(q) == board.at(q),
        board.after_open(p).size == board.size == board.after_flag(p).size,
        board.after_open(p).mine_count == board.mine_count == board.after_flag(p).mine_count,
{
    if board.reaches(p, q) {
        board.lemma_reaches_hidden(p, q);
    }
    if board.can_flag(p) {
        board.lemma_with_cell(p, board.at(p).after_flag());
    }
}

/// A move keeps a valid board valid: the flags that are left and those on
/// the board still add up to the number of mines.
pub proof fn moves_keep_the_board_valid(board: Board, p: (int, int))
    requires
        board.wf(),
    ensures
        board.after_open(p).wf(),
        board.after_flag(p).wf(),
        board.after_open(p).flags_left + board.after_open(p).flag_set().len()
            == board.mine_count,
        board.after_flag(p).flags_left + board.after_flag(p).flag_set().len()
            == board.mine_count,
{
    board.lemma_after_open_wf(p);
    board.lemma_after_flag_wf(p);
}

/// Opening a cell that is open already is refused and changes nothing,
/// however often it is tried.
pub proof fn opening_an_open_cell_changes_nothing(board: Board, p: (int, int))
    requires
        board.wf(),
        board.in_bounds(p),
        board.at(p).is_opened(),
    ensures
        board.open_status(p) == Status::CannotOpenOpenedCell,
        board.after_open(p) == board,
{
    assert(board.at(p).wf());
    board.lemma_open_needs_hidden(p);
}

/// Flagging a cell and then flagging it again gives back the board as it
/// was, the flags that are left included, provided that both calls find a
/// flag left.
pub proof fn flagging_twice_restores_the_board(board: Board, p: (int, int))
    requires
        board.wf(),
        board.flags_left > 0,
        board.after_flag(p).flags_left > 0,
    ensures
        board.after_flag(p).after_flag(p) == board,
        board.after_flag(p).after_flag(p).flags_left == board.flags_left,
{
    if board.can_flag(p) {
        let once = board.after_flag(p);
        let cell = board.at(p).after_flag();
        board.lemma_with_cell(p, cell);
        assert(once.at(p) == cell);
        assert(once.can_flag(p));
        let twice = once.after_flag(p);
        once.lemma_after_flag_shape(p);
        assert(twice.cells =~~= board.cells) by {
            assert(once.cells == board.with_cell(p, cell).cells);
            assert(twice.cells == once.with_cell(p, cell.after_flag()).cells);
            assert(cell.after_flag() == board.at(p));
        }
    }
}

/// The flags left never exceed the mines. Once as many flags are placed as
/// there are mines, none is left, and `flag` is refused with
/// `FlagLimitReached` and changes nothing.
pub proof fn no_flag_beyond_the_mines(board: Board, p: (int, int))
    requires
        board.wf(),
    ensures
        board.flags_left <= board.mine_count,
        board.after_flag(p).flags_left <= board.mine_count,
        board.flag_set().len() == board.mine_count ==> board.flag_status(p)
            == Status::FlagLimitReached && board.after_flag(p) == board,
{
    board.lemma_after_flag_wf(p);
}

/// Opening a mine loses the round, flagged or not, and changes nothing.
pub proof fn opening_a_mine_ends_the_round(board: Board, p: (int, int))
    requires
        board.wf(),
        board.in_bounds(p),
        board.at(p).is_mined(),
    ensures
        board.open_status(p) == Status::GameOver,
        board.after_open(p) == board,
{
    board.lemma_open_needs_hidden(p);
}

/// A position off the board is refused by `open`, and by `flag` while a
/// flag is left; neither changes anything.
pub proof fn positions_off_the_board_are_refused(board: Board, p: (int, int))
    requires
        board.wf(),
        !board.in_bounds(p),
    ensures
        board.open_status(p) == Status::PositionOutOfBounds,
        board.after_open(p) == board,
        board.flags_left > 0 ==> board.flag_status(p) == Status::PositionOutOfBounds,
        board.after_flag(p) == board,
{
    board.lemma_open_needs_hidden(p);
}

} // verus!
