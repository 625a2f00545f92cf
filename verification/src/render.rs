//! The board as text: what the player is shown during a round, and the
//! board with its mines in the open for the end of one.

use vstd::prelude::*;
use vstd::string::*;
use crate::board::Board;
use crate::cell::{Cell, Visibility};
use crate::grid::Grid;

verus! {

/// The digit `d` as text.
pub open spec fn digit_text(d: nat) -> Seq<char> {
    if d == 0 {
        "0"@
    } else if d == 1 {
        "1"@
    } else if d == 2 {
        "2"@
    } else if d == 3 {
        "3"@
    } else if d == 4 {
        "4"@
    } else if d == 5 {
        "5"@
    } else if d == 6 {
        "6"@
    } else if d == 7 {
        "7"@
    } else if d == 8 {
        "8"@
    } else {
        "9"@
    }
}

/// The number `n` in decimal digits.
pub open spec fn decimal(n: nat) -> Seq<char>
    decreases n,
{
    if n < 10 {
        digit_text(n)
    } else {
        decimal(n / 10) + digit_text(n % 10)
    }
}

/// The first `n` pieces of the line that is drawn between two rows.
pub open spec fn bars(n: nat) -> Seq<char>
    decreases n,
{
    if n == 0 {
        Seq::empty()
    } else {
        bars((n - 1) as nat) + "|---"@
    }
}

/// The line between two rows of a board of side `size`.
pub open spec fn rule(size: nat) -> Seq<char> {
    bars(size) + "|\n"@
}

/// The numbers of the first `n` columns, as they head the board.
pub open spec fn column_numbers(n: nat) -> Seq<char>
    decreases n,
{
    if n == 0 {
        Seq::empty()
    } else {
        column_numbers((n - 1) as nat) + decimal((n - 1) as nat) + "   "@
    }
}

/// A cell as the player is shown it: its count of mines if it is open, `F`
/// if it is flagged, a dot if it is hidden.
pub open spec fn shown_cell(cell: Cell) -> Seq<char> {
    match cell.spec_visibility() {
        Visibility::Opened { adjacent_mine_count } => "| "@ + decimal(adjacent_mine_count as nat)
            + " "@,
        Visibility::Flagged => "| F "@,
        Visibility::Hidden => "| \u{2022} "@,
    }
}

/// A cell with nothing hidden: the count of a safe cell, `F` for a mine
/// that is flagged, `M` for one that is not.
pub open spec fn revealed_cell(cell: Cell) -> Seq<char> {
    match cell {
        Cell::NonMined { adjacent_mine_count, .. } => "| "@ + decimal(adjacent_mine_count as nat)
            + " "@,
        Cell::Mined { flagged: true } => "| F "@,
        Cell::Mined { flagged: false } => "| M "@,
    }
}

impl Board {
    /// The first `n` cells of row `row` as the player is shown them.
    pub open spec fn shown_cells(self, row: int, n: nat) -> Seq<char>
        decreases n,
    {
        if n == 0 {
            Seq::empty()
        } else {
            self.shown_cells(row, (n - 1) as nat) + shown_cell(self.at((row, n - 1)))
        }
    }

    /// The first `n` rows as the player is shown them, each with its number
    /// before it and a rule below it.
    pub open spec fn shown_rows(self, n: nat) -> Seq<char>
        decreases n,
    {
        if n == 0 {
            Seq::empty()
        } else {
            self.shown_rows((n - 1) as nat) + decimal((n - 1) as nat) + " "@ + self.shown_cells(
                n - 1,
                self.size,
            ) + "|\n  "@ + rule(self.size)
        }
    }

    /// The board as the player is shown it: the column numbers, a rule,
    /// and the rows.
    pub open spec fn shown(self) -> Seq<char> {
        "    "@ + column_numbers(self.size) + "\n  "@ + rule(self.size) + self.shown_rows(self.size)
    }

    /// The first `n` cells of row `row` with nothing hidden.
    pub open spec fn revealed_cells(self, row: int, n: nat) -> Seq<char>
        decreases n,
    {
        if n == 0 {
            Seq::empty()
        } else {
            self.revealed_cells(row, (n - 1) as nat) + revealed_cell(self.at((row, n - 1)))
        }
    }

    /// The first `n` rows with nothing hidden, each with a rule below it.
    pub open spec fn revealed_rows(self, n: nat) -> Seq<char>
        decreases n,
    {
        if n == 0 {
            Seq::empty()
        } else {
            self.revealed_rows((n - 1) as nat) + self.revealed_cells(n - 1, self.size) + "|\n"@
                + rule(self.size)
        }
    }

    /// The board with nothing hidden: a rule, and the rows.
    pub open spec fn revealed(self) -> Seq<char> {
        rule(self.size) + self.revealed_rows(self.size)
    }
}

fn digit(d: usize) -> (text: &'static str)
    requires
        d < 10,
    ensures
        text@ == digit_text(d as nat),
{
    match d {
        0 => "0",
        1 => "1",
        2 => "2",
        3 => "3",
        4 => "4",
        5 => "5",
        6 => "6",
        7 => "7",
        8 => "8",
        _ => "9",
    }
}

/// Appends `n` in decimal digits.
fn push_decimal(text: &mut String, n: usize)
    ensures
        final(text)@ == old(text)@ + decimal(n as nat),
    decreases n,
{
    if n >= 10 {
        push_decimal(text, n / 10);
    }
    text.append(digit(n % 10));
    assert(text@ =~= old(text)@ + decimal(n as nat));
}

/// Appends the line between two rows.
fn push_rule(text: &mut String, size: usize)
    ensures
        final(text)@ == old(text)@ + rule(size as nat),
{
    for i in 0..size
        invariant
            text@ == old(text)@ + bars(i as nat),
    {
        text.append("|---");
        assert(text@ =~= old(text)@ + bars((i + 1) as nat));
    }
    text.append("|\n");
    assert(text@ =~= old(text)@ + rule(size as nat));
}

fn push_shown_cell(text: &mut String, cell: Cell)
    ensures
        final(text)@ == old(text)@ + shown_cell(cell),
{
    match cell.visibility() {
        Visibility::Opened { adjacent_mine_count } => {
            text.append("| ");
            push_decimal(text, adjacent_mine_count as usize);
            text.append(" ");
        },
        Visibility::Flagged => {
            text.append("| F ");
        },
        Visibility::Hidden => {
            text.append("| \u{2022} ");
        },
    }
    assert(text@ =~= old(text)@ + shown_cell(cell));
}

fn push_revealed_cell(text: &mut String, cell: Cell)
    ensures
        final(text)@ == old(text)@ + revealed_cell(cell),
{
    match cell {
        Cell::NonMined { adjacent_mine_count, .. } => {
            text.append("| ");
            push_decimal(text, adjacent_mine_count as usize);
            text.append(" ");
        },
        Cell::Mined { flagged: true } => {
            text.append("| F ");
        },
        Cell::Mined { flagged: false } => {
            text.append("| M ");
        },
    }
    assert(text@ =~= old(text)@ + revealed_cell(cell));
}

impl Grid {
    /// The board as text for the player: above the board the numbers of
    /// the columns, before each row its number; an open cell shows its
    /// count of mines, a flagged cell `F`, a hidden cell a dot.
    pub fn render(&self) -> (text: String)
        requires
            self@.wf(),
        ensures
            text@ == self@.shown(),
    {
        let size = self.size();
        let mut text = String::new();
        text.append("    ");
        let ghost head = text@;
        for col in 0..size
            invariant
                text@ == head + column_numbers(col as nat),
        {
            push_decimal(&mut text, col);
            text.append("   ");
            assert(text@ =~= head + column_numbers((col + 1) as nat));
        }
        text.append("\n  ");
        push_rule(&mut text, size);
        let ghost top = text@;
        for row in 0..size
            invariant
                self@.wf(),
                size == self@.size,
                text@ == top + self@.shown_rows(row as nat),
        {
            push_decimal(&mut text, row);
            text.append(" ");
            let ghost left = text@;
            for col in 0..size
                invariant
                    self@.wf(),
                    size == self@.size,
                    row < size,
                    text@ == left + self@.shown_cells(row as int, col as nat),
            {
                match self.cell(row, col) {
                    Some(cell) => push_shown_cell(&mut text, cell),
                    None => {},
                }
                assert(text@ =~= left + self@.shown_cells(row as int, (col + 1) as nat));
            }
            text.append("|\n  ");
            push_rule(&mut text, size);
            assert(text@ =~= top + self@.shown_rows((row + 1) as nat));
        }
        assert(text@ =~= self@.shown());
        text
    }

    /// The board as text with nothing hidden, for the end of a round: a
    /// safe cell shows its count of mines, a mine `M`, or `F` if it is
    /// flagged.
    pub fn render_revealed(&self) -> (text: String)
        requires
            self@.wf(),
        ensures
            text@ == self@.revealed(),
    {
        let size = self.size();
        let mut text = String::new();
        push_rule(&mut text, size);
        let ghost top = text@;
        for row in 0..size
            invariant
                self@.wf(),
                size == self@.size,
                text@ == top + self@.revealed_rows(row as nat),
        {
            let ghost left = text@;
            for col in 0..size
                invariant
                    self@.wf(),
                    size == self@.size,
                    row < size,
                    text@ == left + self@.revealed_cells(row as int, col as nat),
            {
                match self.cell(row, col) {
                    Some(cell) => push_revealed_cell(&mut text, cell),
                    None => {},
                }
                assert(text@ =~= left + self@.revealed_cells(row as int, (col + 1) as nat));
            }
            text.append("|\n");
            push_rule(&mut text, size);
            assert(text@ =~= top + self@.revealed_rows((row + 1) as nat));
        }
        assert(text@ =~= self@.revealed());
        text
    }
}

} // verus!
