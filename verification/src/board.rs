//! The mathematical model of a grid: what a board is, which boards are
//! valid, and what the two moves do to one.

use vstd::prelude::*;
use vstd::set_lib::*;
use crate::cell::Cell;
use crate::difficulty::Difficulty;
use crate::status::Status;

verus! {

/// The positions `(row, column)` of a square board of side `size`.
pub open spec fn positions(size: nat) -> Set<(int, int)> {
    rectangle(size, size)
}

/// The positions of the first `rows` rows of a board with `cols` columns.
pub open spec fn rectangle(rows: nat, cols: nat) -> Set<(int, int)> {
    Set::new(|p: (int, int)| 0 <= p.0 < rows && 0 <= p.1 < cols)
}

/// The first `cols` positions of row `row`.
pub open spec fn row_segment(row: int, cols: nat) -> Set<(int, int)> {
    Set::new(|p: (int, int)| p.0 == row && 0 <= p.1 < cols)
}

/// Two distinct positions that touch by a side or by a corner.
pub open spec fn adjacent(p: (int, int), q: (int, int)) -> bool {
    &&& p != q
    &&& -1 <= p.0 - q.0 <= 1
    &&& -1 <= p.1 - q.1 <= 1
}

/// A stretch of `cols` positions in a row holds `cols` positions.
pub proof fn lemma_row_segment(row: int, cols: nat)
    ensures
        row_segment(row, cols).finite(),
        row_segment(row, cols).len() == cols,
    decreases cols,
{
    if cols == 0 {
        assert(row_segment(row, cols) =~= Set::empty());
    } else {
        let shorter = (cols - 1) as nat;
        lemma_row_segment(row, shorter);
        assert(row_segment(row, cols) =~= row_segment(row, shorter).insert((row, cols - 1)));
    }
}

/// `rows` rows of `cols` positions hold `rows * cols` positions.
pub proof fn lemma_rectangle(rows: nat, cols: nat)
    ensures
        rectangle(rows, cols).finite(),
        rectangle(rows, cols).len() == rows * cols,
    decreases rows,
{
    if rows == 0 {
        assert(rectangle(rows, cols) =~= Set::empty());
    } else {
        let above = (rows - 1) as nat;
        lemma_rectangle(above, cols);
        lemma_row_segment(above as int, cols);
        let upper = rectangle(above, cols);
        let last = row_segment(above as int, cols);
        assert(upper.disjoint(last));
        lemma_set_disjoint_lens(upper, last);
        assert(rectangle(rows, cols) =~= upper + last);
        assert(rows * cols == above * cols + cols) by (nonlinear_arith)
            requires
                rows == above + 1,
        ;
    }
}

/// A board of side `size` has `size * size` positions.
pub proof fn lemma_positions(size: nat)
    ensures
        positions(size).finite(),
        positions(size).len() == size * size,
{
    lemma_rectangle(size, size);
}

/// `p` comes before `q` when the board is read row by row.
pub open spec fn row_major_before(p: (int, int), q: (int, int)) -> bool {
    p.0 < q.0 || (p.0 == q.0 && p.1 < q.1)
}

/// The up to 8 positions that touch `p`.
pub open spec fn neighborhood(p: (int, int)) -> Set<(int, int)> {
    Set::new(|q: (int, int)| adjacent(p, q))
}

/// How many of the positions around `p` are in `mines`. A set of mines
/// holds positions of the board only, so at an edge or a corner fewer than
/// 8 positions can count.
pub open spec fn mines_around(mines: Set<(int, int)>, p: (int, int)) -> nat {
    mines.intersect(neighborhood(p)).len()
}

/// A pair of coordinates as a position.
pub open spec fn position(coord: (usize, usize)) -> (int, int) {
    (coord.0 as int, coord.1 as int)
}

/// `coords` lists the neighbours of `p` on a board of side `size`: each
/// position of the board that touches `p`, once, row by row.
pub open spec fn is_neighbor_list(size: nat, p: (int, int), coords: Seq<(usize, usize)>) -> bool {
    &&& forall|q: (usize, usize)|
        #[trigger] coords.contains(q) <==> q.0 < size && q.1 < size && adjacent(p, position(q))
    &&& forall|a: int, b: int|
        0 <= a < b < coords.len() ==> row_major_before(
            position(#[trigger] coords[a]),
            position(#[trigger] coords[b]),
        )
}

/// The positions that a list of coordinates names.
pub open spec fn position_set(coords: Seq<(usize, usize)>) -> Set<(int, int)> {
    Set::new(
        |p: (int, int)|
            exists|i: int| 0 <= i < coords.len() && position(#[trigger] coords[i]) == p,
    )
}

/// A list of mine coordinates that a board of side `size` can be laid out
/// with: every mine is on the board, no cell is named twice, and one cell
/// at least is left free.
pub open spec fn valid_layout(size: nat, mines: Seq<(usize, usize)>) -> bool {
    &&& mines.len() < size * size
    &&& forall|i: int| 0 <= i < mines.len() ==> (#[trigger] mines[i]).0 < size && mines[i].1 < size
    &&& mines.no_duplicates()
}

/// Each further coordinate of a list adds its position to those named
/// before it.
pub proof fn lemma_position_set_step(coords: Seq<(usize, usize)>, k: int)
    requires
        0 <= k < coords.len(),
    ensures
        position_set(coords.take(k + 1)) == position_set(coords.take(k)).insert(
            position(coords[k]),
        ),
        position_set(coords.take(k)).contains(position(coords[k])) <==> exists|m: int|
            0 <= m < k && #[trigger] coords[m] == coords[k],
{
    let seen = position_set(coords.take(k));
    let next = position_set(coords.take(k + 1));
    let q = position(coords[k]);
    assert forall|x: (int, int)| next.contains(x) <==> seen.insert(q).contains(x) by {
        if next.contains(x) {
            let m = choose|m: int|
                0 <= m < coords.take(k + 1).len() && position(#[trigger] coords.take(k + 1)[m])
                    == x;
            if m < k {
                assert(position(coords.take(k)[m]) == x);
            }
        }
        if seen.contains(x) {
            let m = choose|m: int|
                0 <= m < coords.take(k).len() && position(#[trigger] coords.take(k)[m]) == x;
            assert(position(coords.take(k + 1)[m]) == x);
        }
        if x == q {
            assert(position(coords.take(k + 1)[k]) == x);
        }
    }
    assert(next =~= seen.insert(q));
    if seen.contains(q) {
        let m = choose|m: int|
            0 <= m < coords.take(k).len() && position(#[trigger] coords.take(k)[m]) == q;
        assert(coords[m] == coords[k]);
    }
    if exists|m: int| 0 <= m < k && #[trigger] coords[m] == coords[k] {
        let m = choose|m: int| 0 <= m < k && #[trigger] coords[m] == coords[k];
        assert(position(coords.take(k)[m]) == q);
    }
}

/// Going down a list of neighbours, each coordinate names a position of the
/// board that none before it named, and the mines among the positions named
/// so far are never more than 8.
pub proof fn lemma_neighbor_list_step(
    size: nat,
    p: (int, int),
    coords: Seq<(usize, usize)>,
    mines: Set<(int, int)>,
    k: int,
)
    requires
        is_neighbor_list(size, p, coords),
        mines.finite(),
        0 <= k < coords.len(),
    ensures
        coords[k].0 < size && coords[k].1 < size,
        mines.intersect(position_set(coords.take(k + 1))) == if mines.contains(
            position(coords[k]),
        ) {
            mines.intersect(position_set(coords.take(k))).insert(position(coords[k]))
        } else {
            mines.intersect(position_set(coords.take(k)))
        },
        !mines.intersect(position_set(coords.take(k))).contains(position(coords[k])),
        mines.intersect(position_set(coords.take(k))).finite(),
        mines.intersect(position_set(coords.take(k + 1))).len() <= 8,
{
    let seen = position_set(coords.take(k));
    let next = position_set(coords.take(k + 1));
    let q = position(coords[k]);
    assert(coords.contains(coords[k]));
    lemma_position_set_step(coords, k);
    if seen.contains(q) {
        let m = choose|m: int| 0 <= m < k && #[trigger] coords[m] == coords[k];
        assert(row_major_before(position(coords[m]), position(coords[k])));
    }
    assert(mines.intersect(next) =~= if mines.contains(q) {
        mines.intersect(seen).insert(q)
    } else {
        mines.intersect(seen)
    });
    lemma_neighborhood(p);
    assert forall|x: (int, int)| mines.intersect(next).contains(x) implies neighborhood(
        p,
    ).contains(x) by {
        let m = choose|m: int|
            0 <= m < coords.take(k + 1).len() && position(#[trigger] coords.take(k + 1)[m]) == x;
        assert(coords.contains(coords[m]));
    }
    lemma_len_subset(mines.intersect(next), neighborhood(p));
}

/// The mines that a list of neighbours names are the mines around the
/// position, provided that all mines lie on the board.
pub proof fn lemma_neighbor_list_whole(
    size: nat,
    p: (int, int),
    coords: Seq<(usize, usize)>,
    mines: Set<(int, int)>,
)
    requires
        is_neighbor_list(size, p, coords),
        size <= usize::MAX,
        mines.subset_of(positions(size)),
    ensures
        mines.intersect(position_set(coords.take(0))) == Set::<(int, int)>::empty(),
        mines.intersect(position_set(coords.take(coords.len() as int))).len() == mines_around(
            mines,
            p,
        ),
{
    assert(mines.intersect(position_set(coords.take(0))) =~= Set::<(int, int)>::empty());
    assert(coords.take(coords.len() as int) =~= coords);
    assert forall|x: (int, int)| mines.intersect(position_set(coords)).contains(x)
        <==> mines.intersect(neighborhood(p)).contains(x) by {
        if mines.intersect(position_set(coords)).contains(x) {
            let m = choose|m: int| 0 <= m < coords.len() && position(#[trigger] coords[m]) == x;
            assert(coords.contains(coords[m]));
        }
        if mines.intersect(neighborhood(p)).contains(x) {
            assert(positions(size).contains(x));
            let xu = (x.0 as usize, x.1 as usize);
            assert(position(xu) == x);
            assert(coords.contains(xu));
            let m = choose|m: int| 0 <= m < coords.len() && coords[m] == xu;
            assert(position(coords[m]) == x);
        }
    }
    assert(mines.intersect(position_set(coords)) =~= mines.intersect(neighborhood(p)));
}

/// A position has 8 neighbours, so no more than 8 mines are around it.
pub proof fn lemma_neighborhood(p: (int, int))
    ensures
        neighborhood(p).finite(),
        neighborhood(p).len() == 8,
        forall|mines: Set<(int, int)>| #[trigger] mines_around(mines, p) <= 8,
{
    let (r, c) = p;
    let all = set![
        (r - 1, c - 1),
        (r - 1, c),
        (r - 1, c + 1),
        (r, c - 1),
        (r, c + 1),
        (r + 1, c - 1),
        (r + 1, c),
        (r + 1, c + 1),
    ];
    assert(neighborhood(p) =~= all);
    assert forall|mines: Set<(int, int)>| #[trigger] mines_around(mines, p) <= 8 by {
        lemma_len_intersect(neighborhood(p), mines);
        assert(mines.intersect(neighborhood(p)) =~= neighborhood(p).intersect(mines));
    }
}

/// The model of a grid: a square of cells, the number of mines it was laid
/// out with, and the flags that are left to place.
pub struct Board {
    pub size: nat,
    pub mine_count: nat,
    pub flags_left: nat,
    pub cells: Seq<Seq<Cell>>,
}

impl Board {
    pub open spec fn in_bounds(self, p: (int, int)) -> bool {
        0 <= p.0 < self.size && 0 <= p.1 < self.size
    }

    /// The cell at row `p.0`, column `p.1`.
    pub open spec fn at(self, p: (int, int)) -> Cell {
        self.cells[p.0][p.1]
    }

    /// The preset that the board has the size and the mines of, if one
    /// has.
    pub open spec fn difficulty(self) -> Option<Difficulty> {
        if self.size == 10 && self.mine_count == 10 {
            Some(Difficulty::Easy)
        } else if self.size == 20 && self.mine_count == 40 {
            Some(Difficulty::Medium)
        } else if self.size == 40 && self.mine_count == 160 {
            Some(Difficulty::Hard)
        } else {
            None
        }
    }

    /// There are `size` rows of `size` cells each.
    pub open spec fn shaped(self) -> bool {
        &&& self.cells.len() == self.size
        &&& forall|r: int| 0 <= r < self.size ==> (#[trigger] self.cells[r]).len() == self.size
    }

    /// The positions that hold a mine.
    pub open spec fn mine_set(self) -> Set<(int, int)> {
        Set::new(|p: (int, int)| self.in_bounds(p) && self.at(p).is_mined())
    }

    /// The positions that hold no mine.
    pub open spec fn safe_set(self) -> Set<(int, int)> {
        Set::new(|p: (int, int)| self.in_bounds(p) && !self.at(p).is_mined())
    }

    /// The positions that carry a flag.
    pub open spec fn flag_set(self) -> Set<(int, int)> {
        Set::new(|p: (int, int)| self.in_bounds(p) && self.at(p).is_flagged())
    }

    /// The positions that `open` can still open: safe, closed, unflagged.
    pub open spec fn hidden_set(self) -> Set<(int, int)> {
        Set::new(|p: (int, int)| self.hidden(p))
    }

    /// `p` is on the board and its cell is safe, closed and unflagged.
    pub open spec fn hidden(self, p: (int, int)) -> bool {
        self.in_bounds(p) && self.at(p).is_hidden()
    }

    /// `p` is hidden and has no mined neighbour on record.
    pub open spec fn blank(self, p: (int, int)) -> bool {
        self.in_bounds(p) && self.at(p).is_blank()
    }

    /// No cell is open and none is flagged.
    pub open spec fn untouched(self) -> bool {
        forall|p: (int, int)|
            self.in_bounds(p) ==> !(#[trigger] self.at(p)).is_opened() && !self.at(p).is_flagged()
    }

    /// Every safe cell stores the number of mines around it.
    pub open spec fn counts_exact(self) -> bool {
        forall|p: (int, int)|
            self.in_bounds(p) && !(#[trigger] self.at(p)).is_mined() ==> self.at(
                p,
            ).spec_adjacent_mines() == mines_around(self.mine_set(), p)
    }

    /// The validity of a board. The flags are a budget: those left and
    /// those placed add up to the number of mines. At least one cell is
    /// safe.
    pub open spec fn wf(self) -> bool {
        &&& self.shaped()
        &&& self.mine_count < self.size * self.size
        &&& self.mine_set().len() == self.mine_count
        &&& self.flags_left + self.flag_set().len() == self.mine_count
        &&& forall|p: (int, int)| self.in_bounds(p) ==> (#[trigger] self.at(p)).wf()
        &&& self.counts_exact()
    }

    /// The round is won when no flag is left and none sits on a safe cell.
    pub open spec fn won(self) -> bool {
        &&& self.flags_left == 0
        &&& forall|p: (int, int)|
            self.in_bounds(p) && (#[trigger] self.at(p)).is_flagged() ==> self.at(p).is_mined()
    }

    /// The board with the cell at `p` replaced.
    pub open spec fn with_cell(self, p: (int, int), cell: Cell) -> Board {
        Board { cells: self.cells.update(p.0, self.cells[p.0].update(p.1, cell)), ..self }
    }

    /// The board on which nothing has been opened or flagged yet, with its
    /// mines at `mines`.
    pub open spec fn fresh(size: nat, mines: Set<(int, int)>) -> Board {
        Board {
            size,
            mine_count: mines.len(),
            flags_left: mines.len(),
            cells: Seq::new(
                size,
                |r: int|
                    Seq::new(
                        size,
                        |c: int|
                            if mines.contains((r, c)) {
                                Cell::Mined { flagged: false }
                            } else {
                                Cell::hidden(mines_around(mines, (r, c)) as u8)
                            },
                    ),
            ),
        }
    }

    /// A chain of hidden cells in which each but the last is blank and
    /// touches the next: the way along which opening the first cell comes
    /// to open the last.
    pub open spec fn cascade_path(self, path: Seq<(int, int)>) -> bool {
        &&& path.len() >= 1
        &&& forall|i: int| 0 <= i < path.len() ==> self.hidden(#[trigger] path[i])
        &&& forall|i: int|
            0 <= i < path.len() - 1 ==> self.blank(#[trigger] path[i]) && adjacent(
                path[i],
                path[i + 1],
            )
    }

    /// Opening `from` opens `to`: both are hidden and a cascade path leads
    /// from the one to the other.
    pub open spec fn reaches(self, from: (int, int), to: (int, int)) -> bool {
        exists|path: Seq<(int, int)>|
            #![auto]
            self.cascade_path(path) && path.first() == from && path.last() == to
    }

    /// The board after `open` at `p`: every cell that `p` reaches is open,
    /// all else is as before. Where `p` is off the board or its cell is not
    /// hidden, `p` reaches nothing and the board is unchanged.
    pub open spec fn after_open(self, p: (int, int)) -> Board {
        Board {
            cells: Seq::new(
                self.size,
                |r: int|
                    Seq::new(
                        self.size,
                        |c: int|
                            if self.reaches(p, (r, c)) {
                                self.at((r, c)).after_open()
                            } else {
                                self.at((r, c))
                            },
                    ),
            ),
            ..self
        }
    }

    /// What `open` at `p` reports.
    pub open spec fn open_status(self, p: (int, int)) -> Status {
        if !self.in_bounds(p) {
            Status::PositionOutOfBounds
        } else if self.at(p).open_status() == Status::Success && self.after_open(p).won() {
            Status::GameWon
        } else {
            self.at(p).open_status()
        }
    }

    /// Whether `flag` at `p` toggles a flag: a flag is left, `p` is on the
    /// board and its cell is closed.
    pub open spec fn can_flag(self, p: (int, int)) -> bool {
        self.flags_left > 0 && self.in_bounds(p) && !self.at(p).is_opened()
    }

    /// The board after `flag` at `p`: where the flag is toggled, a flag
    /// that was placed is taken from the budget and one that was removed is
    /// given back.
    pub open spec fn after_flag(self, p: (int, int)) -> Board {
        if !self.can_flag(p) {
            self
        } else if self.at(p).is_flagged() {
            Board { flags_left: self.flags_left + 1, ..self.with_cell(p, self.at(p).after_flag()) }
        } else {
            Board {
                flags_left: (self.flags_left - 1) as nat,
                ..self.with_cell(p, self.at(p).after_flag())
            }
        }
    }

    /// What `flag` at `p` reports. The budget is looked at first, so with
    /// no flag left even a flag that is on the board stays where it is.
    pub open spec fn flag_status(self, p: (int, int)) -> Status {
        if self.flags_left == 0 {
            Status::FlagLimitReached
        } else if !self.in_bounds(p) {
            Status::PositionOutOfBounds
        } else if self.at(p).is_opened() {
            Status::CannotFlagOpenedCell
        } else if self.after_flag(p).won() {
            Status::GameWon
        } else {
            Status::Success
        }
    }
}

impl Board {
    /// The sets of positions that a board defines lie on the board, so they
    /// are finite and none is larger than the board.
    pub proof fn lemma_sets_finite(self)
        ensures
            self.mine_set().finite(),
            self.safe_set().finite(),
            self.flag_set().finite(),
            self.hidden_set().finite(),
            self.mine_set().len() <= self.size * self.size,
            self.flag_set().len() <= self.size * self.size,
            self.hidden_set().len() <= self.size * self.size,
            self.mine_set().len() + self.safe_set().len() == self.size * self.size,
    {
        let all = positions(self.size);
        lemma_positions(self.size);
        lemma_len_subset(self.mine_set(), all);
        lemma_len_subset(self.safe_set(), all);
        lemma_len_subset(self.flag_set(), all);
        lemma_len_subset(self.hidden_set(), all);
        assert(self.mine_set().disjoint(self.safe_set()));
        lemma_set_disjoint_lens(self.mine_set(), self.safe_set());
        assert(self.mine_set() + self.safe_set() =~= all);
    }

    /// Replacing one cell leaves every other cell and the shape as they
    /// were.
    pub proof fn lemma_with_cell(self, p: (int, int), cell: Cell)
        requires
            self.shaped(),
            self.in_bounds(p),
        ensures
            self.with_cell(p, cell).shaped(),
            self.with_cell(p, cell).size == self.size,
            self.with_cell(p, cell).at(p) == cell,
            forall|q: (int, int)|
                self.in_bounds(q) && q != p ==> #[trigger] self.with_cell(p, cell).at(q) == self.at(
                    q,
                ),
    {
        let after = self.with_cell(p, cell);
        assert forall|r: int| 0 <= r < after.size implies (#[trigger] after.cells[r]).len()
            == after.size by {
            assert(self.cells[r].len() == self.size);
        }
    }

    /// What replacing one cell does to the sets of positions.
    pub proof fn lemma_with_cell_sets(self, p: (int, int), cell: Cell)
        requires
            self.shaped(),
            self.in_bounds(p),
        ensures
            self.with_cell(p, cell).mine_set() == if cell.is_mined() {
                self.mine_set().insert(p)
            } else {
                self.mine_set().remove(p)
            },
            self.with_cell(p, cell).flag_set() == if cell.is_flagged() {
                self.flag_set().insert(p)
            } else {
                self.flag_set().remove(p)
            },
            self.with_cell(p, cell).hidden_set() == if cell.is_hidden() {
                self.hidden_set().insert(p)
            } else {
                self.hidden_set().remove(p)
            },
    {
        self.lemma_with_cell(p, cell);
        let after = self.with_cell(p, cell);
        assert forall|q: (int, int)| after.in_bounds(q) implies #[trigger] after.at(q) == if q
            == p {
            cell
        } else {
            self.at(q)
        } by {}
        assert(after.mine_set() =~= if cell.is_mined() {
            self.mine_set().insert(p)
        } else {
            self.mine_set().remove(p)
        });
        assert(after.flag_set() =~= if cell.is_flagged() {
            self.flag_set().insert(p)
        } else {
            self.flag_set().remove(p)
        });
        assert(after.hidden_set() =~= if cell.is_hidden() {
            self.hidden_set().insert(p)
        } else {
            self.hidden_set().remove(p)
        });
    }

    /// A fresh board is what its definition says, cell by cell.
    pub proof fn lemma_fresh(size: nat, mines: Set<(int, int)>)
        requires
            mines.subset_of(positions(size)),
        ensures
            Board::fresh(size, mines).shaped(),
            Board::fresh(size, mines).untouched(),
            Board::fresh(size, mines).mine_set() == mines,
            Board::fresh(size, mines).flag_set() == Set::<(int, int)>::empty(),
            Board::fresh(size, mines).counts_exact(),
            mines.finite(),
    {
        let b = Board::fresh(size, mines);
        lemma_positions(size);
        lemma_len_subset(mines, positions(size));
        assert(b.mine_set() =~= mines) by {
            assert forall|p: (int, int)| b.mine_set().contains(p) <==> mines.contains(p) by {
                if mines.contains(p) {
                    assert(positions(size).contains(p));
                }
            }
        }
        assert(b.flag_set() =~= Set::<(int, int)>::empty());
        assert forall|p: (int, int)|
            b.in_bounds(p) && !(#[trigger] b.at(p)).is_mined() implies b.at(
            p,
        ).spec_adjacent_mines() == mines_around(b.mine_set(), p) by {
            lemma_neighborhood(p);
            assert(mines_around(mines, p) <= 8);
        }
    }

    /// A fresh board is valid as long as one cell is left without a mine.
    pub proof fn lemma_fresh_wf(size: nat, mines: Set<(int, int)>)
        requires
            mines.subset_of(positions(size)),
            mines.len() < size * size,
        ensures
            Board::fresh(size, mines).wf(),
    {
        let b = Board::fresh(size, mines);
        Self::lemma_fresh(size, mines);
        assert forall|p: (int, int)| b.in_bounds(p) implies (#[trigger] b.at(p)).wf() by {
            lemma_neighborhood(p);
            assert(mines_around(mines, p) <= 8);
        }
    }
}

impl Board {
    /// `flag` keeps the shape of the board.
    pub proof fn lemma_after_flag_shape(self, p: (int, int))
        requires
            self.shaped(),
        ensures
            self.after_flag(p).shaped(),
            self.after_flag(p).size == self.size,
    {
        if self.can_flag(p) {
            self.lemma_with_cell(p, self.at(p).after_flag());
        }
    }

    /// `flag` keeps a valid board valid.
    pub proof fn lemma_after_flag_wf(self, p: (int, int))
        requires
            self.wf(),
        ensures
            self.after_flag(p).wf(),
            self.after_flag(p).mine_set() == self.mine_set(),
            self.after_flag(p).size == self.size,
            self.after_flag(p).mine_count == self.mine_count,
    {
        if self.can_flag(p) {
            let cell = self.at(p).after_flag();
            let after = self.after_flag(p);
            self.lemma_with_cell(p, cell);
            self.lemma_with_cell_sets(p, cell);
            self.lemma_sets_finite();
            assert(after.cells == self.with_cell(p, cell).cells);
            assert(after.mine_set() =~= self.with_cell(p, cell).mine_set());
            assert(after.flag_set() =~= self.with_cell(p, cell).flag_set());
            assert(after.mine_set() =~= self.mine_set());
            assert forall|q: (int, int)| after.in_bounds(q) implies (#[trigger] after.at(
                q,
            )).wf() by {
                if q != p {
                    assert(self.with_cell(p, cell).at(q) == self.at(q));
                } else {
                    assert(self.at(p).wf());
                }
            }
            assert forall|q: (int, int)|
                after.in_bounds(q) && !(#[trigger] after.at(q)).is_mined() implies after.at(
                q,
            ).spec_adjacent_mines() == mines_around(after.mine_set(), q) by {
                if q != p {
                    assert(self.with_cell(p, cell).at(q) == self.at(q));
                } else {
                    assert(!self.at(p).is_mined());
                }
            }
        }
    }
}

} // verus!
