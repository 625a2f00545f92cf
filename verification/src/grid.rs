//! The grid: the board as it is held in memory, and the moves on it.

use vstd::prelude::*;
use vstd::set_lib::*;
use vstd::seq_lib::*;
use crate::board::{
    is_neighbor_list, lemma_neighbor_list_step, lemma_neighbor_list_whole, lemma_position_set_step,
    lemma_positions, mines_around, neighborhood, position, position_set, positions,
    row_major_before, row_segment, valid_layout, Board,
};
use crate::random::rand_coord;
use crate::cell::Cell;
use crate::difficulty::Difficulty;
use crate::status::Status;

verus! {

/// A Minesweeper board in play. Its model is a [`Board`]; every grid that
/// this module hands out is a valid one.
#[derive(Debug, PartialEq)]
pub struct Grid {
    board: Vec<Vec<Cell>>,
    board_size: usize,
    mine_count: usize,
    flags_left: usize,
}

impl View for Grid {
    type V = Board;

    closed spec fn view(&self) -> Board {
        Board {
            size: self.board_size as nat,
            mine_count: self.mine_count as nat,
            flags_left: self.flags_left as nat,
            cells: Seq::new(self.board@.len(), |r: int| self.board@[r]@),
        }
    }
}

impl Clone for Grid {
    /// A copy of the grid: the same board in the same state.
    fn clone(&self) -> (copy: Self)
        ensures
            copy@ == self@,
    {
        let mut board: Vec<Vec<Cell>> = Vec::new();
        for r in 0..self.board.len()
            invariant
                board@.len() == r,
                forall|i: int| 0 <= i < r ==> (#[trigger] board@[i])@ == self.board@[i]@,
        {
            let mut row: Vec<Cell> = Vec::new();
            let width = self.board[r].len();
            for c in 0..width
                invariant
                    r < self.board@.len(),
                    width == self.board@[r as int]@.len(),
                    row@ == self.board@[r as int]@.take(c as int),
            {
                row.push(self.board[r][c]);
            }
            assert(row@ =~= self.board@[r as int]@);
            board.push(row);
        }
        let copy = Grid {
            board,
            board_size: self.board_size,
            mine_count: self.mine_count,
            flags_left: self.flags_left,
        };
        assert(copy@.cells =~~= self@.cells);
        copy
    }
}

/// How many draws may land on a mine before the mines that are still to be
/// laid go to the first free cells instead. It bounds the time that laying
/// takes; a draw lands on a mine at most as often as the board is mined, so
/// on a sparsely mined board the limit is out of reach in practice.
pub const REDRAW_LIMIT: usize = 1_000_000;

impl Grid {
    /// The side of a grid is a machine word, and so are its counts.
    pub proof fn lemma_fits(&self)
        ensures
            self@.size <= usize::MAX,
            self@.mine_count <= usize::MAX,
            self@.flags_left <= usize::MAX,
    {
    }

    /// The side of the board.
    pub fn size(&self) -> (size: usize)
        ensures
            size == self@.size,
    {
        self.board_size
    }

    /// The number of mines on the board.
    pub fn mines(&self) -> (count: usize)
        ensures
            count == self@.mine_count,
    {
        self.mine_count
    }

    /// The number of flags that are left to place.
    pub fn flags_remaining(&self) -> (left: usize)
        ensures
            left == self@.flags_left,
    {
        self.flags_left
    }

    /// The preset that the board has the size and the mines of, if it has
    /// those of one.
    pub fn difficulty(&self) -> (preset: Option<Difficulty>)
        ensures
            preset == self@.difficulty(),
    {
        if self.board_size == 10 && self.mine_count == 10 {
            Some(Difficulty::Easy)
        } else if self.board_size == 20 && self.mine_count == 40 {
            Some(Difficulty::Medium)
        } else if self.board_size == 40 && self.mine_count == 160 {
            Some(Difficulty::Hard)
        } else {
            None
        }
    }

    /// The cell at `row`, `col`, or `None` off the board.
    pub fn cell(&self, row: usize, col: usize) -> (cell: Option<Cell>)
        requires
            self@.wf(),
        ensures
            cell == if self@.in_bounds((row as int, col as int)) {
                Some(self@.at((row as int, col as int)))
            } else {
                None
            },
    {
        if row < self.board_size && col < self.board_size {
            Some(self.get(row, col))
        } else {
            None
        }
    }

    /// Whether the round is won: no flag is left and every flag sits on a
    /// mine.
    pub fn has_won(&self) -> (won: bool)
        requires
            self@.wf(),
        ensures
            won == self@.won(),
    {
        self.has_won_helper()
    }
}

impl Grid {
    /// A new board for `difficulty`, with its mines laid at random: nothing
    /// is open, nothing is flagged, and every flag is left to place.
    ///
    /// Each mine goes to a cell drawn at random, and a draw that lands on a
    /// mine is made again, up to [`REDRAW_LIMIT`] times in all. Where the
    /// mines come to lie is left open; all else is determined.
    pub fn new(difficulty: Difficulty) -> (grid: Grid)
        ensures
            grid@.wf(),
            grid@ == Board::fresh(difficulty.board_size(), grid@.mine_set()),
            grid@.difficulty() == Some(difficulty),
            grid@.mine_set().len() == difficulty.mine_count(),
            grid@.safe_set().len() == difficulty.board_size() * difficulty.board_size()
                - difficulty.mine_count(),
    {
        let board_size = difficulty.get_board_size();
        let mine_count = difficulty.get_mine_count();
        let mut grid = Grid::blank(board_size);
        proof {
            difficulty.lemma_mines_fit();
        }
        grid.init(mine_count);
        proof {
            grid@.lemma_sets_finite();
        }
        grid
    }

    /// A new board of side `board_size` with its mines at `mines`, given as
    /// `(row, column)` pairs. Returns `None` unless the list is a valid
    /// layout: every mine on the board, no cell named twice, one cell at
    /// least left free.
    pub fn from_mines(board_size: usize, mines: &Vec<(usize, usize)>) -> (made: Option<Grid>)
        ensures
            made is Some <==> valid_layout(board_size as nat, mines@),
            made matches Some(grid) ==> grid@ == Board::fresh(
                board_size as nat,
                position_set(mines@),
            ) && grid@.wf(),
    {
        match board_size.checked_mul(board_size) {
            Some(area) => {
                if mines.len() >= area {
                    return None;
                }
            },
            None => {},
        }
        let mut grid = Grid::blank(board_size);
        proof {
            Board::lemma_fresh(board_size as nat, Set::empty());
            assert(position_set(mines@.take(0)) =~= Set::<(int, int)>::empty());
        }
        let mut k: usize = 0;
        while k < mines.len()
            invariant
                k <= mines.len() < board_size * board_size,
                grid@.size == board_size,
                grid@.shaped(),
                grid@.untouched(),
                grid@.mine_set() == position_set(mines@.take(k as int)),
                grid@.mine_count == grid@.mine_set().len() == k,
                grid@.flags_left == grid@.mine_count,
                forall|i: int|
                    0 <= i < k ==> (#[trigger] mines@[i]).0 < board_size && mines@[i].1
                        < board_size,
                forall|i: int, j: int| 0 <= i < j < k ==> mines@[i] != mines@[j],
            decreases mines.len() - k,
        {
            let (row, col) = mines[k];
            if row >= board_size || col >= board_size {
                return None;
            }
            proof {
                lemma_position_set_step(mines@, k as int);
                grid@.lemma_sets_finite();
            }
            if !grid.place_mine(row, col) {
                proof {
                    let m = choose|m: int| 0 <= m < k && #[trigger] mines@[m] == mines@[k as int];
                    assert(mines@[m] == mines@[k as int] && m != k);
                }
                return None;
            }
            k += 1;
        }
        let ghost laid = grid@.mine_set();
        grid.set_count();
        proof {
            assert(mines@.take(mines@.len() as int) =~= mines@);
            Board::lemma_fresh_wf(board_size as nat, laid);
        }
        Some(grid)
    }

    /// A fixed board to try the moves on: 10 by 10, with a mine in each of
    /// the 10 cells of the top row and nothing opened or flagged. The grid
    /// it is called on is left as it is.
    pub fn test(&mut self) -> (grid: Grid)
        ensures
            *final(self) == *old(self),
            grid@ == Board::fresh(10, row_segment(0, 10)),
            grid@.wf(),
    {
        let mut mines: Vec<(usize, usize)> = Vec::new();
        for col in 0..10usize
            invariant
                mines@ == Seq::new(col as nat, |k: int| (0usize, k as usize)),
        {
            mines.push((0, col));
        }
        proof {
            assert(position_set(mines@) =~= row_segment(0, 10)) by {
                assert forall|p: (int, int)| row_segment(0, 10).contains(p) implies position_set(
                    mines@,
                ).contains(p) by {
                    assert(position(mines@[p.1]) == p);
                }
            }
        }
        match Grid::from_mines(10, &mines) {
            Some(grid) => grid,
            None => vstd::pervasive::unreached(),
        }
    }

    /// The coordinates of the cells around row `i`, column `j`: up to 8,
    /// fewer at an edge or a corner, none for a position that touches no
    /// cell of the board. They come row by row.
    pub fn get_neighbor_cells_coords(&self, i: usize, j: usize) -> (coords: Vec<(usize, usize)>)
        ensures
            is_neighbor_list(self@.size, (i as int, j as int), coords@),
    {
        let n = self.board_size;
        let mut coords = Vec::<(usize, usize)>::new();
        if n == 0 || i > n || j > n {
            return coords;
        }
        let row_lo = if i > 0 { i - 1 } else { 0 };
        let row_hi = if i < n - 1 { i + 1 } else { n - 1 };
        let col_lo = if j > 0 { j - 1 } else { 0 };
        let col_hi = if j < n - 1 { j + 1 } else { n - 1 };
        let ghost p = (i as int, j as int);
        let mut r = row_lo;
        while r <= row_hi
            invariant
                row_lo <= r <= row_hi + 1,
                row_hi < n,
                col_lo <= col_hi + 1,
                col_hi < n,
                i - 1 <= row_lo,
                row_hi <= i + 1,
                forall|q: (usize, usize)|
                    #[trigger] coords@.contains(q) <==> row_lo <= q.0 < r && col_lo <= q.1
                        <= col_hi && q != (i, j),
                forall|a: int, b: int|
                    0 <= a < b < coords@.len() ==> row_major_before(
                        position(#[trigger] coords@[a]),
                        position(#[trigger] coords@[b]),
                    ),
            decreases row_hi + 1 - r,
        {
            let mut c = col_lo;
            while c <= col_hi
                invariant
                    row_lo <= r <= row_hi,
                    col_lo <= c <= col_hi + 1,
                    col_hi < n,
                    forall|q: (usize, usize)|
                        #[trigger] coords@.contains(q) <==> (row_lo <= q.0 < r && col_lo <= q.1
                            <= col_hi || q.0 == r && col_lo <= q.1 < c) && q != (i, j),
                    forall|a: int, b: int|
                        0 <= a < b < coords@.len() ==> row_major_before(
                            position(#[trigger] coords@[a]),
                            position(#[trigger] coords@[b]),
                        ),
                decreases col_hi + 1 - c,
            {
                if r != i || c != j {
                    let ghost listed = coords@;
                    coords.push((r, c));
                    proof {
                        broadcast use lemma_seq_contains_after_push;

                        assert forall|a: int, b: int|
                            0 <= a < b < coords@.len() implies row_major_before(
                            position(#[trigger] coords@[a]),
                            position(#[trigger] coords@[b]),
                        ) by {
                            if b == listed.len() {
                                assert(listed.contains(listed[a]));
                            } else {
                                assert(coords@[a] == listed[a] && coords@[b] == listed[b]);
                            }
                        }
                    }
                }
                c += 1;
            }
            r += 1;
        }
        coords
    }

    /// A board of hidden cells without a mine.
    fn blank(board_size: usize) -> (grid: Grid)
        ensures
            grid@ == Board::fresh(board_size as nat, Set::empty()),
    {
        let mut board: Vec<Vec<Cell>> = Vec::new();
        let mut r: usize = 0;
        while r < board_size
            invariant
                r <= board_size,
                board@.len() == r,
                forall|i: int|
                    0 <= i < r ==> (#[trigger] board@[i])@ == Seq::new(
                        board_size as nat,
                        |j: int| Cell::hidden(0),
                    ),
            decreases board_size - r,
        {
            let mut row: Vec<Cell> = Vec::new();
            let mut c: usize = 0;
            while c < board_size
                invariant
                    c <= board_size,
                    row@ == Seq::new(c as nat, |j: int| Cell::hidden(0)),
                decreases board_size - c,
            {
                row.push(Cell::NonMined { adjacent_mine_count: 0, opened: false, flagged: false });
                c += 1;
            }
            board.push(row);
            r += 1;
        }
        let grid = Grid { board, board_size, mine_count: 0, flags_left: 0 };
        proof {
            let none = Set::<(int, int)>::empty();
            assert forall|p: (int, int)| #[trigger] mines_around(none, p) == 0 by {
                assert(none.intersect(neighborhood(p)) =~= none);
            }
            assert(grid@.cells =~~= Board::fresh(board_size as nat, none).cells);
        }
        grid
    }

    /// Lays `count` mines at random and counts the mines around each safe
    /// cell.
    fn init(&mut self, count: usize)
        requires
            old(self)@ == Board::fresh(old(self)@.size, Set::empty()),
            count < old(self)@.size * old(self)@.size,
        ensures
            final(self)@ == Board::fresh(old(self)@.size, final(self)@.mine_set()),
            final(self)@.mine_set().len() == count,
            final(self)@.wf(),
    {
        proof {
            Board::lemma_fresh(self@.size, Set::empty());
        }
        self.set_mines(count);
        let ghost mines = self@.mine_set();
        self.set_count();
        proof {
            Board::lemma_fresh(self@.size, mines);
            Board::lemma_fresh_wf(self@.size, mines);
        }
    }

    /// Lays `count` mines on a board that has none. Each mine goes to a
    /// cell drawn at random; a draw that lands on a mine is made again.
    /// Once `REDRAW_LIMIT` draws have landed on a mine, the mines still to
    /// be laid go to the first free cells.
    fn set_mines(&mut self, count: usize)
        requires
            old(self)@.shaped(),
            old(self)@.untouched(),
            old(self)@.mine_set() == Set::<(int, int)>::empty(),
            old(self)@.mine_count == 0,
            old(self)@.flags_left == 0,
            count < old(self)@.size * old(self)@.size,
        ensures
            final(self)@.size == old(self)@.size,
            final(self)@.shaped(),
            final(self)@.untouched(),
            final(self)@.mine_set().len() == count,
            final(self)@.mine_count == count,
            final(self)@.flags_left == count,
    {
        let board_size = self.board_size;
        let mut mine_count = count;
        let mut redraws = REDRAW_LIMIT;
        while mine_count > 0
            invariant
                self@.size == board_size,
                self@.shaped(),
                self@.untouched(),
                self@.mine_set().finite(),
                self@.mine_set().len() == count - mine_count,
                self@.mine_count == self@.mine_set().len(),
                self@.flags_left == self@.mine_count,
                mine_count <= count < board_size * board_size,
            decreases mine_count, redraws,
        {
            assert(board_size > 0) by (nonlinear_arith)
                requires
                    count < board_size * board_size,
            ;
            let (row, col) = if redraws > 0 {
                rand_coord(&board_size)
            } else {
                self.first_free_cell()
            };
            if self.place_mine(row, col) {
                mine_count -= 1;
            } else {
                redraws -= 1;
            }
        }
    }

    /// Lays a mine at `row`, `col` unless one lies there already, and says
    /// whether it did. A mine that is laid adds one flag to the budget.
    fn place_mine(&mut self, row: usize, col: usize) -> (placed: bool)
        requires
            old(self)@.shaped(),
            old(self)@.untouched(),
            old(self)@.in_bounds((row as int, col as int)),
            old(self)@.mine_count == old(self)@.mine_set().len(),
            old(self)@.flags_left == old(self)@.mine_count,
            old(self)@.mine_count < usize::MAX,
        ensures
            placed == !old(self)@.mine_set().contains((row as int, col as int)),
            final(self)@.mine_set() == if placed {
                old(self)@.mine_set().insert((row as int, col as int))
            } else {
                old(self)@.mine_set()
            },
            final(self)@.size == old(self)@.size,
            final(self)@.shaped(),
            final(self)@.untouched(),
            final(self)@.mine_count == final(self)@.mine_set().len(),
            final(self)@.flags_left == final(self)@.mine_count,
    {
        let ghost p = (row as int, col as int);
        let ghost before = self@;
        if self.get(row, col).is_mined() {
            return false;
        }
        self.set_cell(row, col, Cell::Mined { flagged: false });
        self.mine_count = self.mine_count + 1;
        self.flags_left = self.flags_left + 1;
        proof {
            let mine = Cell::Mined { flagged: false };
            before.lemma_with_cell(p, mine);
            before.lemma_with_cell_sets(p, mine);
            before.lemma_sets_finite();
            assert(self@.cells == before.with_cell(p, mine).cells);
            assert(self@.mine_set() =~= before.with_cell(p, mine).mine_set());
            assert forall|q: (int, int)| self@.in_bounds(q) implies !(#[trigger] self@.at(
                q,
            )).is_opened() && !self@.at(q).is_flagged() by {
                if q != p {
                    assert(before.with_cell(p, mine).at(q) == before.at(q));
                }
            }
        }
        true
    }

    /// The first cell without a mine, reading the board row by row.
    fn first_free_cell(&self) -> (coord: (usize, usize))
        requires
            self@.shaped(),
            self@.mine_set().len() < self@.size * self@.size,
        ensures
            self@.in_bounds((coord.0 as int, coord.1 as int)),
            !self@.mine_set().contains((coord.0 as int, coord.1 as int)),
            forall|q: (int, int)|
                self@.in_bounds(q) && row_major_before(q, (coord.0 as int, coord.1 as int))
                    ==> #[trigger] self@.mine_set().contains(q),
    {
        let mut r: usize = 0;
        while r < self.board_size
            invariant
                self@.shaped(),
                r <= self.board_size,
                forall|q: (int, int)|
                    self@.in_bounds(q) && q.0 < r ==> #[trigger] self@.mine_set().contains(q),
            decreases self.board_size - r,
        {
            let mut c: usize = 0;
            while c < self.board_size
                invariant
                    self@.shaped(),
                    r < self.board_size,
                    c <= self.board_size,
                    forall|q: (int, int)|
                        self@.in_bounds(q) && row_major_before(q, (r as int, c as int))
                            ==> #[trigger] self@.mine_set().contains(q),
                decreases self.board_size - c,
            {
                if !self.get(r, c).is_mined() {
                    return (r, c);
                }
                c += 1;
            }
            r += 1;
        }
        proof {
            lemma_positions(self@.size);
            assert(self@.mine_set() =~= positions(self@.size));
        }
        vstd::pervasive::unreached()
    }

    /// Stores in every safe cell the number of mines around it.
    fn set_count(&mut self)
        requires
            old(self)@.shaped(),
            old(self)@.untouched(),
            old(self)@.mine_count == old(self)@.mine_set().len(),
            old(self)@.flags_left == old(self)@.mine_count,
        ensures
            final(self)@ == Board::fresh(old(self)@.size, old(self)@.mine_set()),
    {
        let board_size = self.board_size;
        let ghost mines = self@.mine_set();
        let ghost start = self@;
        for i in 0..board_size
            invariant
                self@.shaped(),
                self@.untouched(),
                self@.size == board_size == start.size,
                self@.mine_count == start.mine_count,
                self@.flags_left == start.flags_left,
                self@.mine_set() == mines,
                forall|q: (int, int)|
                    self@.in_bounds(q) && q.0 < i && !mines.contains(q) ==> #[trigger] self@.at(q)
                        == Cell::hidden(mines_around(mines, q) as u8),
        {
            for j in 0..board_size
                invariant
                    self@.shaped(),
                    self@.untouched(),
                    self@.size == board_size == start.size,
                    self@.mine_count == start.mine_count,
                    self@.flags_left == start.flags_left,
                    self@.mine_set() == mines,
                    i < board_size,
                    forall|q: (int, int)|
                        self@.in_bounds(q) && row_major_before(q, (i as int, j as int))
                            && !mines.contains(q) ==> #[trigger] self@.at(q) == Cell::hidden(
                            mines_around(mines, q) as u8,
                        ),
            {
                let ghost p = (i as int, j as int);
                let ghost before = self@;
                if !self.get(i, j).is_mined() {
                    let count = self.get_mine_count(i, j);
                    let cell = Cell::NonMined {
                        adjacent_mine_count: count,
                        opened: false,
                        flagged: false,
                    };
                    self.set_cell(i, j, cell);
                    proof {
                        before.lemma_with_cell(p, cell);
                        before.lemma_with_cell_sets(p, cell);
                        assert(self@.cells == before.with_cell(p, cell).cells);
                        assert(self@.mine_set() =~= before.with_cell(p, cell).mine_set());
                        assert(self@.mine_set() =~= mines);
                        assert forall|q: (int, int)| self@.in_bounds(q) implies !(
                        #[trigger] self@.at(q)).is_opened() && !self@.at(q).is_flagged() by {
                            if q != p {
                                assert(before.with_cell(p, cell).at(q) == before.at(q));
                            }
                        }
                        assert forall|q: (int, int)|
                            self@.in_bounds(q) && row_major_before(q, (i as int, j + 1))
                                && !mines.contains(q) implies #[trigger] self@.at(q)
                            == Cell::hidden(mines_around(mines, q) as u8) by {
                            if q != p {
                                assert(before.with_cell(p, cell).at(q) == before.at(q));
                            }
                        }
                    }
                }
            }
        }
        proof {
            let fresh = Board::fresh(start.size, mines);
            assert forall|r: int, c: int| 0 <= r < start.size && 0 <= c < start.size implies (
            #[trigger] self@.cells[r][c]) == fresh.cells[r][c] by {
                let q = (r, c);
                assert(self@.in_bounds(q));
                assert(self@.at(q) == self@.cells[r][c]);
            }
            assert(self@.cells =~~= fresh.cells);
        }
    }

    /// Counts the mines around `i`, `j`.
    fn get_mine_count(&self, i: usize, j: usize) -> (count: u8)
        requires
            self@.shaped(),
        ensures
            count == mines_around(self@.mine_set(), (i as int, j as int)),
    {
        let coords = self.get_neighbor_cells_coords(i, j);
        let ghost p = (i as int, j as int);
        let ghost mines = self@.mine_set();
        let mut count: u8 = 0;
        let mut k: usize = 0;
        proof {
            self@.lemma_sets_finite();
            lemma_neighbor_list_whole(self@.size, p, coords@, mines);
        }
        while k < coords.len()
            invariant
                self@.shaped(),
                mines == self@.mine_set(),
                mines.finite(),
                is_neighbor_list(self@.size, p, coords@),
                k <= coords.len(),
                count == mines.intersect(position_set(coords@.take(k as int))).len(),
            decreases coords.len() - k,
        {
            let (r, c) = coords[k];
            proof {
                lemma_neighbor_list_step(self@.size, p, coords@, mines, k as int);
            }
            if self.get(r, c).is_mined() {
                count += 1;
            }
            k += 1;
        }
        count
    }
}

impl Grid {
    /// Opens the cell at `row`, `col`.
    ///
    /// Off the board the result is `PositionOutOfBounds`; on a mine it is
    /// `GameOver`, on a flagged cell `CannotOpenFlaggedCell`, on an open
    /// cell `CannotOpenOpenedCell`. In each of these cases nothing changes.
    ///
    /// A hidden cell is opened. If no mine is around it, the cells around
    /// it are opened in the same way, and so on: in the end every cell that
    /// the position reaches along a cascade path is open, and no other cell
    /// has changed. The result is `GameWon` if the round is won then, and
    /// `Success` if not.
    pub fn open(&mut self, row: usize, col: usize) -> (status: Status)
        requires
            old(self)@.wf(),
        ensures
            final(self)@ == old(self)@.after_open((row as int, col as int)),
            status == old(self)@.open_status((row as int, col as int)),
            final(self)@.wf(),
    {
        let ghost start = (row as int, col as int);
        let ghost before = self@;
        proof {
            before.lemma_after_open_wf(start);
        }
        if row >= self.board_size || col >= self.board_size {
            proof {
                before.lemma_open_needs_hidden(start);
            }
            return Status::PositionOutOfBounds;
        }
        let (status, cascade) = self.open_cell(row, col);
        match status {
            Status::Success => {},
            _ => {
                proof {
                    before.lemma_open_needs_hidden(start);
                    assert(self@.cells =~~= before.cells);
                }
                return status;
            },
        }
        let mut pending = if cascade {
            self.get_neighbor_cells_coords(row, col)
        } else {
            Vec::new()
        };
        proof {
            before.lemma_cascade_begins(start, pending@);
        }
        while pending.len() > 0
            invariant
                before.cascading(self@, start, pending@),
            decreases self@.hidden_set().len(), pending@.len(),
        {
            let ghost now = self@;
            let ghost waiting = pending@;
            let (r, c) = pending.pop().unwrap();
            assert((r, c) == waiting.last() && pending@ == waiting.drop_last());
            assert(before.in_bounds(position(waiting[waiting.len() - 1])));
            let (_, cascade) = self.open_cell(r, c);
            let mut around = if cascade {
                self.get_neighbor_cells_coords(r, c)
            } else {
                Vec::new()
            };
            proof {
                before.lemma_cascade_goes_on(now, start, waiting, around@);
                now.lemma_sets_finite();
            }
            pending.append(&mut around);
        }
        proof {
            assert(pending@ =~= Seq::empty());
            before.lemma_cascade_ends(self@, start);
        }
        if self.has_won_helper() {
            Status::GameWon
        } else {
            status
        }
    }

    /// Places a flag on the closed cell at `row`, `col`, or takes its flag
    /// away. A flag that is placed comes out of the budget, one that is
    /// taken away goes back into it.
    ///
    /// With no flag left nothing happens and `FlagLimitReached` is
    /// returned, wherever the position lies. Off the board the result is
    /// `PositionOutOfBounds`, on an open cell `CannotFlagOpenedCell`, and
    /// nothing changes. Otherwise the flag is toggled; the result is
    /// `GameWon` if that wins the round and `Success` if not.
    pub fn flag(&mut self, row: usize, col: usize) -> (status: Status)
        requires
            old(self)@.wf(),
        ensures
            final(self)@ == old(self)@.after_flag((row as int, col as int)),
            status == old(self)@.flag_status((row as int, col as int)),
            final(self)@.wf(),
    {
        let ghost p = (row as int, col as int);
        let ghost before = self@;
        proof {
            before.lemma_after_flag_wf(p);
        }
        if self.flags_left == 0 {
            return Status::FlagLimitReached;
        }
        if row >= self.board_size || col >= self.board_size {
            return Status::PositionOutOfBounds;
        }
        let mut cell = self.get(row, col);
        let (status, now_flagged) = cell.flag();
        match status {
            Status::Success => {},
            _ => {
                return status;
            },
        }
        proof {
            before.lemma_sets_finite();
            assert(before.flag_set().contains(p) == before.at(p).is_flagged());
        }
        self.set_cell(row, col, cell);
        if now_flagged {
            self.flags_left = self.flags_left - 1;
        } else {
            self.flags_left = self.flags_left + 1;
        }
        assert(self@ == before.after_flag(p));
        if self.has_won_helper() {
            Status::GameWon
        } else {
            status
        }
    }

    /// Opens the cell at `row`, `col` if it is hidden. Returns its status
    /// and whether the cells around it are to be opened next.
    fn open_cell(&mut self, row: usize, col: usize) -> (result: (Status, bool))
        requires
            old(self)@.shaped(),
            old(self)@.in_bounds((row as int, col as int)),
        ensures
            final(self)@ == old(self)@.with_opened((row as int, col as int)),
            result.0 == old(self)@.at((row as int, col as int)).open_status(),
            result.1 == old(self)@.blank((row as int, col as int)),
    {
        let mut cell = self.get(row, col);
        let result = cell.open();
        self.set_cell(row, col, cell);
        result
    }

    fn has_won_helper(&self) -> (won: bool)
        requires
            self@.shaped(),
        ensures
            won == self@.won(),
    {
        if self.flags_left != 0 {
            return false;
        }
        let board_size = self.board_size;
        for i in 0..board_size
            invariant
                self@.shaped(),
                self@.size == board_size,
                forall|q: (int, int)|
                    self@.in_bounds(q) && q.0 < i && (#[trigger] self@.at(q)).is_flagged()
                        ==> self@.at(q).is_mined(),
        {
            for j in 0..board_size
                invariant
                    self@.shaped(),
                    self@.size == board_size,
                    i < board_size,
                    forall|q: (int, int)|
                        self@.in_bounds(q) && row_major_before(q, (i as int, j as int)) && (
                        #[trigger] self@.at(q)).is_flagged() ==> self@.at(q).is_mined(),
            {
                match self.get(i, j) {
                    Cell::NonMined { flagged, .. } => {
                        if flagged {
                            return false;
                        }
                    },
                    Cell::Mined { .. } => {},
                }
            }
        }
        true
    }

    fn get(&self, row: usize, col: usize) -> (cell: Cell)
        requires
            self@.shaped(),
            self@.in_bounds((row as int, col as int)),
        ensures
            cell == self@.at((row as int, col as int)),
    {
        assert(self@.cells[row as int].len() == self@.size);
        self.board[row][col]
    }

    fn set_cell(&mut self, row: usize, col: usize, cell: Cell)
        requires
            old(self)@.shaped(),
            old(self)@.in_bounds((row as int, col as int)),
        ensures
            final(self)@ == old(self)@.with_cell((row as int, col as int), cell),
    {
        assert(self@.cells[row as int].len() == self@.size);
        self.board[row][col] = cell;
        assert(self@.cells =~~= old(self)@.with_cell((row as int, col as int), cell).cells);
    }
}

} // verus!
