//! How `open` spreads: the facts about cascade paths that relate the
//! work-list traversal of the grid to the cells that a position reaches.

use vstd::prelude::*;
use crate::board::{adjacent, is_neighbor_list, position, Board};
use crate::cell::Cell;

verus! {

impl Board {
    /// A hidden cell reaches itself.
    pub proof fn lemma_reaches_self(self, p: (int, int))
        requires
            self.hidden(p),
        ensures
            self.reaches(p, p),
    {
        let path = seq![p];
        assert(self.cascade_path(path) && path.first() == p && path.last() == p);
    }

    /// A cascade path goes on from a blank cell to any hidden cell that
    /// touches it.
    pub proof fn lemma_reaches_step(self, from: (int, int), via: (int, int), to: (int, int))
        requires
            self.reaches(from, via),
            self.blank(via),
            adjacent(via, to),
            self.hidden(to),
        ensures
            self.reaches(from, to),
    {
        let path = choose|path: Seq<(int, int)>|
            #![auto]
            self.cascade_path(path) && path.first() == from && path.last() == via;
        let longer = path.push(to);
        assert forall|i: int| 0 <= i < longer.len() implies self.hidden(#[trigger] longer[i]) by {
            if i < path.len() {
                assert(longer[i] == path[i]);
            }
        }
        assert forall|i: int| 0 <= i < longer.len() - 1 implies self.blank(#[trigger] longer[i])
            && adjacent(longer[i], longer[i + 1]) by {
            assert(longer[i] == path[i]);
            if i < path.len() - 1 {
                assert(longer[i + 1] == path[i + 1]);
            }
        }
        assert(self.cascade_path(longer) && longer.first() == from && longer.last() == to);
    }

    /// Only a hidden cell reaches anything, and only hidden cells are
    /// reached.
    pub proof fn lemma_reaches_hidden(self, from: (int, int), to: (int, int))
        requires
            self.reaches(from, to),
        ensures
            self.hidden(from),
            self.hidden(to),
    {
        let path = choose|path: Seq<(int, int)>|
            #![auto]
            self.cascade_path(path) && path.first() == from && path.last() == to;
        assert(self.hidden(path[0]));
        assert(self.hidden(path[path.len() - 1]));
    }

    /// `opened` holds whatever the cascade from a cell in it can open next.
    pub open spec fn cascade_closed(self, opened: Set<(int, int)>) -> bool {
        forall|p: (int, int), q: (int, int)|
            #![trigger opened.contains(p), adjacent(p, q)]
            opened.contains(p) && self.blank(p) && adjacent(p, q) && self.hidden(q)
                ==> opened.contains(q)
    }

    proof fn lemma_path_inside(self, opened: Set<(int, int)>, path: Seq<(int, int)>, i: int)
        requires
            self.cascade_closed(opened),
            self.cascade_path(path),
            opened.contains(path.first()),
            0 <= i < path.len(),
        ensures
            opened.contains(path[i]),
        decreases i,
    {
        if i > 0 {
            self.lemma_path_inside(opened, path, i - 1);
            assert(self.blank(path[i - 1]) && adjacent(path[i - 1], path[i]));
            assert(self.hidden(path[i]));
        }
    }

    /// A set that holds `from` and is closed under the cascade holds every
    /// cell that `from` reaches.
    pub proof fn lemma_closed_holds_reached(self, from: (int, int), opened: Set<(int, int)>)
        requires
            opened.contains(from),
            self.cascade_closed(opened),
        ensures
            forall|to: (int, int)| #[trigger] self.reaches(from, to) ==> opened.contains(to),
    {
        assert forall|to: (int, int)| #[trigger] self.reaches(from, to) implies opened.contains(
            to,
        ) by {
            let path = choose|path: Seq<(int, int)>|
                #![auto]
                self.cascade_path(path) && path.first() == from && path.last() == to;
            self.lemma_path_inside(opened, path, path.len() - 1);
        }
    }

    /// The cells of `now` that differ from those of `self`.
    pub open spec fn changed_set(self, now: Board) -> Set<(int, int)> {
        Set::new(|q: (int, int)| self.in_bounds(q) && now.at(q) != self.at(q))
    }

    /// The state of a cascade that began with opening `start` on the board
    /// `self` and has come to the board `now`, with the coordinates in
    /// `pending` still to be tried: only cells that `start` reaches have
    /// been opened, `start` among them, and every hidden cell around an
    /// opened blank cell has been opened too or is pending.
    pub open spec fn cascading(
        self,
        now: Board,
        start: (int, int),
        pending: Seq<(usize, usize)>,
    ) -> bool {
        &&& now.size == self.size <= usize::MAX
        &&& now.mine_count == self.mine_count
        &&& now.flags_left == self.flags_left
        &&& now.shaped()
        &&& self.shaped()
        &&& forall|q: (int, int)|
            self.in_bounds(q) && (#[trigger] now.at(q)) != self.at(q) ==> self.reaches(start, q)
                && now.at(q) == self.at(q).after_open()
        &&& self.changed_set(now).contains(start)
        &&& forall|k: int|
            0 <= k < pending.len() ==> self.in_bounds(position(#[trigger] pending[k])) && (
            self.hidden(position(pending[k])) ==> self.reaches(start, position(pending[k])))
        &&& forall|p: (int, int), q: (int, int)|
            #![trigger self.changed_set(now).contains(p), adjacent(p, q)]
            self.changed_set(now).contains(p) && self.blank(p) && adjacent(p, q) && self.hidden(q)
                ==> self.changed_set(now).contains(q) || pending.contains(
                (q.0 as usize, q.1 as usize),
            )
    }

    /// The board with the cell at `p` opened, if it is hidden.
    pub open spec fn with_opened(self, p: (int, int)) -> Board {
        self.with_cell(p, self.at(p).after_open())
    }

    /// A cascade begins: `start` is opened and, if it is blank, the cells
    /// around it are pending.
    pub proof fn lemma_cascade_begins(self, start: (int, int), around: Seq<(usize, usize)>)
        requires
            self.shaped(),
            self.size <= usize::MAX,
            self.hidden(start),
            self.blank(start) ==> is_neighbor_list(self.size, start, around),
            !self.blank(start) ==> around.len() == 0,
        ensures
            self.cascading(self.with_opened(start), start, around),
    {
        let now = self.with_opened(start);
        self.lemma_with_cell(start, self.at(start).after_open());
        self.lemma_reaches_self(start);
        assert forall|k: int| 0 <= k < around.len() implies self.in_bounds(
            position(#[trigger] around[k]),
        ) && (self.hidden(position(around[k])) ==> self.reaches(start, position(around[k]))) by {
            assert(around.contains(around[k]));
            if self.hidden(position(around[k])) {
                self.lemma_reaches_step(start, start, position(around[k]));
            }
        }
        assert forall|p: (int, int), q: (int, int)|
            #![trigger self.changed_set(now).contains(p), adjacent(p, q)]
            self.changed_set(now).contains(p) && self.blank(p) && adjacent(p, q) && self.hidden(
                q,
            ) implies self.changed_set(now).contains(q) || around.contains(
            (q.0 as usize, q.1 as usize),
        ) by {
            assert(p == start);
            assert(position((q.0 as usize, q.1 as usize)) == q);
        }
    }

    /// A cascade goes on: the last pending cell is opened if it is hidden,
    /// and if it is blank the cells around it become pending. Either a
    /// hidden cell was opened, or nothing changed and one cell fewer is
    /// pending.
    pub proof fn lemma_cascade_goes_on(
        self,
        now: Board,
        start: (int, int),
        pending: Seq<(usize, usize)>,
        around: Seq<(usize, usize)>,
    )
        requires
            self.cascading(now, start, pending),
            pending.len() > 0,
            now.blank(position(pending.last())) ==> is_neighbor_list(
                self.size,
                position(pending.last()),
                around,
            ),
            !now.blank(position(pending.last())) ==> around.len() == 0,
        ensures
            self.cascading(
                now.with_opened(position(pending.last())),
                start,
                pending.drop_last() + around,
            ),
            now.hidden(position(pending.last())) ==> now.with_opened(
                position(pending.last()),
            ).hidden_set() == now.hidden_set().remove(position(pending.last()))
                && now.hidden_set().contains(position(pending.last())),
            !now.hidden(position(pending.last())) ==> now.with_opened(position(pending.last()))
                == now,
    {
        let t = position(pending.last());
        let next = now.with_opened(t);
        let rest = pending.drop_last() + around;
        assert(self.in_bounds(position(pending[pending.len() - 1])));
        now.lemma_with_cell(t, now.at(t).after_open());
        now.lemma_with_cell_sets(t, now.at(t).after_open());
        if !now.hidden(t) {
            assert(next.cells =~~= now.cells);
        } else {
            // a hidden cell of `now` has not been touched since `self`
            assert(now.at(t) == self.at(t));
            assert(self.hidden(t));
        }
        assert forall|q: (int, int)|
            self.in_bounds(q) && (#[trigger] next.at(q)) != self.at(q) implies self.reaches(
            start,
            q,
        ) && next.at(q) == self.at(q).after_open() by {
            if q != t {
                assert(next.at(q) == now.at(q));
            }
        }
        assert(next.at(start) != self.at(start)) by {
            if start != t {
                assert(next.at(start) == now.at(start));
            }
            assert(self.changed_set(now).contains(start));
        }
        assert forall|k: int| 0 <= k < rest.len() implies self.in_bounds(
            position(#[trigger] rest[k]),
        ) && (self.hidden(position(rest[k])) ==> self.reaches(start, position(rest[k]))) by {
            if k < pending.len() - 1 {
                assert(rest[k] == pending[k]);
            } else {
                let a = around[k - (pending.len() - 1)];
                assert(rest[k] == a);
                assert(around.contains(a));
                assert(self.blank(t));
                if self.hidden(position(a)) {
                    self.lemma_reaches_step(start, t, position(a));
                }
            }
        }
        assert forall|p: (int, int), q: (int, int)|
            #![trigger self.changed_set(next).contains(p), adjacent(p, q)]
            self.changed_set(next).contains(p) && self.blank(p) && adjacent(p, q) && self.hidden(
                q,
            ) implies self.changed_set(next).contains(q) || rest.contains(
            (q.0 as usize, q.1 as usize),
        ) by {
            let qu = (q.0 as usize, q.1 as usize);
            assert(position(qu) == q);
            if p != t {
                assert(next.at(p) == now.at(p));
            }
            if q != t {
                assert(next.at(q) == now.at(q));
            }
            if self.changed_set(now).contains(p) {
                assert(adjacent(p, q));
                if !self.changed_set(now).contains(q) {
                    assert(pending.contains(qu));
                    let k = choose|k: int| 0 <= k < pending.len() && pending[k] == qu;
                    if k < pending.len() - 1 {
                        assert(rest[k] == qu);
                    } else {
                        // `q` is the cell that was tried just now
                        assert(q == t);
                        assert(now.at(t) == self.at(t));
                        assert(next.at(t) != self.at(t));
                    }
                } else {
                    if q == t {
                        assert(!now.hidden(t));
                    }
                }
            } else {
                // `p` was opened just now
                assert(p == t);
                assert(now.blank(t));
                assert(around.contains(qu));
                let k = choose|k: int| 0 <= k < around.len() && around[k] == qu;
                assert(rest[pending.len() - 1 + k] == qu);
            }
        }
    }

    /// A cascade is over when nothing is pending: the board has become what
    /// `after_open` says.
    pub proof fn lemma_cascade_ends(self, now: Board, start: (int, int))
        requires
            self.cascading(now, start, Seq::empty()),
        ensures
            now == self.after_open(start),
    {
        let opened = self.changed_set(now);
        let none = Seq::<(usize, usize)>::empty();
        assert forall|p: (int, int), q: (int, int)|
            #![trigger opened.contains(p), adjacent(p, q)]
            opened.contains(p) && self.blank(p) && adjacent(p, q) && self.hidden(
                q,
            ) implies opened.contains(q) by {
            assert(!none.contains((q.0 as usize, q.1 as usize)));
        }
        self.lemma_closed_holds_reached(start, opened);
        let after = self.after_open(start);
        assert forall|r: int, c: int| 0 <= r < self.size && 0 <= c < self.size implies (
        #[trigger] now.cells[r][c]) == after.cells[r][c] by {
            let q = (r, c);
            assert(now.at(q) == now.cells[r][c]);
            if self.reaches(start, q) {
                assert(opened.contains(q));
            }
        }
        assert(now.cells =~~= after.cells);
    }

    /// Opening a cell that is not hidden, or a position off the board,
    /// changes nothing.
    pub proof fn lemma_open_needs_hidden(self, p: (int, int))
        requires
            self.shaped(),
            !self.hidden(p),
        ensures
            self.after_open(p) == self,
    {
        let after = self.after_open(p);
        assert forall|r: int, c: int| 0 <= r < self.size && 0 <= c < self.size implies (
        #[trigger] after.cells[r][c]) == self.cells[r][c] by {
            if self.reaches(p, (r, c)) {
                self.lemma_reaches_hidden(p, (r, c));
            }
        }
        assert(after.cells =~~= self.cells);
    }

    /// `open` keeps a valid board valid, and moves neither a mine nor a
    /// flag.
    pub proof fn lemma_after_open_wf(self, p: (int, int))
        requires
            self.wf(),
        ensures
            self.after_open(p).wf(),
            self.after_open(p).mine_set() == self.mine_set(),
            self.after_open(p).flag_set() == self.flag_set(),
            self.after_open(p).won() == self.won(),
    {
        let after = self.after_open(p);
        assert forall|q: (int, int)| self.in_bounds(q) implies #[trigger] after.at(q)
            == if self.reaches(p, q) {
            self.at(q).after_open()
        } else {
            self.at(q)
        } by {}
        assert forall|q: (int, int)| self.in_bounds(q) implies (#[trigger] after.at(q)).is_mined()
            == self.at(q).is_mined() && after.at(q).is_flagged() == self.at(q).is_flagged()
            && after.at(q).spec_adjacent_mines() == self.at(q).spec_adjacent_mines() && after.at(
            q,
        ).wf() by {
            assert(self.at(q).wf());
        }
        assert(after.mine_set() =~= self.mine_set());
        assert(after.flag_set() =~= self.flag_set());
        assert forall|q: (int, int)| after.in_bounds(q) implies (#[trigger] after.at(q)).is_mined()
            == self.at(q).is_mined() && after.at(q).is_flagged() == self.at(q).is_flagged() by {}
        assert(after.won() == self.won()) by {
            if self.won() {
                assert forall|q: (int, int)|
                    after.in_bounds(q) && (#[trigger] after.at(q)).is_flagged() implies after.at(
                    q,
                ).is_mined() by {
                    assert(self.at(q).is_flagged());
                }
            }
            if after.won() {
                assert forall|q: (int, int)|
                    self.in_bounds(q) && (#[trigger] self.at(q)).is_flagged() implies self.at(
                    q,
                ).is_mined() by {
                    assert(after.at(q).is_flagged());
                }
            }
        }
    }
}

} // verus!
