//! Reading a line that the player typed: the coordinates of a move, the
//! action, the difficulty. Each function takes the line as it was read and
//! never fails: what cannot be read as asked stands for a fixed default.

use vstd::prelude::*;
use crate::difficulty::Difficulty;

verus! {

/// What the player wants done with a cell.
#[derive(Clone, Copy, Debug, PartialEq, Eq, Structural)]
pub enum Action {
    Open,
    Flag,
}

/// The characters that count as white space at the ends of a line.
pub open spec fn is_whitespace(c: char) -> bool {
    let n = c as u32;
    ||| 0x09 <= n <= 0x0D
    ||| n == 0x20
    ||| n == 0x85
    ||| n == 0xA0
    ||| n == 0x1680
    ||| 0x2000 <= n <= 0x200A
    ||| n == 0x2028
    ||| n == 0x2029
    ||| n == 0x202F
    ||| n == 0x205F
    ||| n == 0x3000
}

/// The line without the white space at its two ends.
pub open spec fn trim(s: Seq<char>) -> Seq<char>
    decreases s.len(),
{
    if s.len() > 0 && is_whitespace(s.first()) {
        trim(s.drop_first())
    } else if s.len() > 0 && is_whitespace(s.last()) {
        trim(s.drop_last())
    } else {
        s
    }
}

/// The length of the first field: the number of characters before the
/// first blank, or all of them where there is none.
pub open spec fn field_len(s: Seq<char>) -> nat
    decreases s.len(),
{
    if s.len() == 0 || s.first() == ' ' {
        0
    } else {
        1 + field_len(s.drop_first())
    }
}

/// The first of the fields that single blanks separate.
pub open spec fn first_field(s: Seq<char>) -> Seq<char> {
    s.take(field_len(s) as int)
}

/// What follows the blank that ends the first field, if one does.
pub open spec fn after_first_field(s: Seq<char>) -> Option<Seq<char>> {
    if field_len(s) == s.len() {
        None
    } else {
        Some(s.skip(field_len(s) as int + 1))
    }
}

pub open spec fn is_digit(c: char) -> bool {
    '0' <= c <= '9'
}

pub open spec fn digit_value(c: char) -> nat {
    (c as u32 - '0' as u32) as nat
}

/// The value of a run of decimal digits, `None` where a character is no
/// digit. The empty run has the value 0.
pub open spec fn digits(s: Seq<char>) -> Option<nat>
    decreases s.len(),
{
    if s.len() == 0 {
        Some(0)
    } else {
        match digits(s.drop_last()) {
            Some(value) if is_digit(s.last()) => Some(value * 10 + digit_value(s.last())),
            _ => None,
        }
    }
}

/// The number that a field writes: one or more decimal digits, with a `+`
/// before them or without.
pub open spec fn number(s: Seq<char>) -> Option<nat> {
    let unsigned = if s.len() > 0 && s.first() == '+' {
        s.drop_first()
    } else {
        s
    };
    if unsigned.len() == 0 {
        None
    } else {
        digits(unsigned)
    }
}

/// The number that a field writes if it is one and no greater than `max`.
pub open spec fn number_up_to(s: Seq<char>, max: nat) -> Option<nat> {
    match number(s) {
        Some(value) if value <= max => Some(value),
        _ => None,
    }
}

/// The coordinate that the player's number stands for. The player counts
/// from 1 and the board from 0. A field that is no number counts as 0, and
/// 0 stands for a coordinate that lies on no board.
pub open spec fn coordinate(field: Seq<char>) -> usize {
    match number_up_to(field, usize::MAX as nat) {
        Some(value) if value > 0 => (value - 1) as usize,
        _ => usize::MAX,
    }
}

/// The row and the column of a line such as `3 7`: its first two fields,
/// once the white space at its ends is gone. A field that is missing counts
/// as one that is no number.
pub open spec fn coords_of(line: Seq<char>) -> (usize, usize) {
    let fields = trim(line);
    (
        coordinate(first_field(fields)),
        match after_first_field(fields) {
            Some(rest) => coordinate(first_field(rest)),
            None => usize::MAX,
        },
    )
}

/// The action of a line: to open where it begins with `o` or `O`, to flag
/// otherwise.
pub open spec fn action_of(line: Seq<char>) -> Action {
    if line.len() > 0 && (line.first() == 'o' || line.first() == 'O') {
        Action::Open
    } else {
        Action::Flag
    }
}

/// Whether a line says yes: it begins with `y` or `Y`.
pub open spec fn says_yes(line: Seq<char>) -> bool {
    line.len() > 0 && (line.first() == 'y' || line.first() == 'Y')
}

/// The difficulty of a line: `2` is medium, `3` is hard, and anything else
/// is easy.
pub open spec fn difficulty_of(line: Seq<char>) -> Difficulty {
    match number_up_to(trim(line), u8::MAX as nat) {
        Some(value) if value == 2 => Difficulty::Medium,
        Some(value) if value == 3 => Difficulty::Hard,
        _ => Difficulty::Easy,
    }
}

/// `trim` cuts the line down to the part between its first and its last
/// character that is no white space.
pub proof fn lemma_trim(s: Seq<char>, from: int, to: int)
    requires
        0 <= from <= to <= s.len(),
        forall|i: int| 0 <= i < from ==> is_whitespace(#[trigger] s[i]),
        forall|i: int| to <= i < s.len() ==> is_whitespace(#[trigger] s[i]),
        from < to ==> !is_whitespace(s[from]) && !is_whitespace(s[to - 1]),
    ensures
        trim(s) == s.subrange(from, to),
    decreases s.len(),
{
    if s.len() > 0 && is_whitespace(s.first()) {
        let rest = s.drop_first();
        if from == 0 {
            assert(to == 0);
            assert forall|i: int| 0 <= i < rest.len() implies is_whitespace(#[trigger] rest[i]) by {
                assert(rest[i] == s[i + 1]);
            }
            lemma_trim(rest, 0, 0);
            assert(rest.subrange(0, 0) =~= s.subrange(from, to));
        } else {
            assert forall|i: int| 0 <= i < from - 1 implies is_whitespace(#[trigger] rest[i]) by {
                assert(rest[i] == s[i + 1]);
            }
            assert forall|i: int| to - 1 <= i < rest.len() implies is_whitespace(
                #[trigger] rest[i],
            ) by {
                assert(rest[i] == s[i + 1]);
            }
            lemma_trim(rest, from - 1, to - 1);
            assert(rest.subrange(from - 1, to - 1) =~= s.subrange(from, to));
        }
    } else if s.len() > 0 && is_whitespace(s.last()) {
        let rest = s.drop_last();
        assert(from == 0 || is_whitespace(s[0]));
        assert(to < s.len());
        assert forall|i: int| 0 <= i < from implies is_whitespace(#[trigger] rest[i]) by {
            assert(rest[i] == s[i]);
        }
        assert forall|i: int| to <= i < rest.len() implies is_whitespace(#[trigger] rest[i]) by {
            assert(rest[i] == s[i]);
        }
        lemma_trim(rest, from, to);
        assert(rest.subrange(from, to) =~= s.subrange(from, to));
    } else {
        if s.len() > 0 {
            assert(from == 0 || is_whitespace(s[0]));
            assert(to == s.len() || is_whitespace(s[s.len() - 1]));
        }
        assert(s.subrange(from, to) =~= s);
    }
}

/// The first field ends at the first blank.
pub proof fn lemma_field_len(s: Seq<char>, end: int)
    requires
        0 <= end <= s.len(),
        forall|i: int| 0 <= i < end ==> #[trigger] s[i] != ' ',
        end < s.len() ==> s[end] == ' ',
    ensures
        field_len(s) == end,
    decreases s.len(),
{
    if end > 0 {
        let rest = s.drop_first();
        assert(s[0] != ' ');
        assert forall|i: int| 0 <= i < end - 1 implies #[trigger] rest[i] != ' ' by {
            assert(rest[i] == s[i + 1]);
        }
        lemma_field_len(rest, end - 1);
    }
}

/// A run of digits has a value only if each part that it begins with has
/// one, and none of these is greater than that of the whole.
pub proof fn lemma_digits_prefix(s: Seq<char>, k: int)
    requires
        0 <= k <= s.len(),
        digits(s) is Some,
    ensures
        digits(s.take(k)) is Some,
        digits(s.take(k))->0 <= digits(s)->0,
    decreases s.len(),
{
    if k < s.len() {
        lemma_digits_prefix(s.drop_last(), k);
        assert(s.drop_last().take(k) =~= s.take(k));
    } else {
        assert(s.take(k) =~= s);
    }
}

fn whitespace(c: char) -> (white: bool)
    ensures
        white == is_whitespace(c),
{
    let n = c as u32;
    (0x09 <= n && n <= 0x0D) || n == 0x20 || n == 0x85 || n == 0xA0 || n == 0x1680 || (0x2000 <= n
        && n <= 0x200A) || n == 0x2028 || n == 0x2029 || n == 0x202F || n == 0x205F || n == 0x3000
}

fn characters(line: &str) -> (chars: Vec<char>)
    ensures
        chars@ == line@,
{
    let mut chars: Vec<char> = Vec::new();
    for c in it: line.chars()
        invariant
            chars@ == it.seq().take(it.index()),
    {
        chars.push(c);
    }
    chars
}

/// Where the line begins and ends once the white space at its ends is
/// gone.
fn trim_bounds(chars: &Vec<char>) -> (bounds: (usize, usize))
    ensures
        bounds.0 <= bounds.1 <= chars@.len(),
        chars@.subrange(bounds.0 as int, bounds.1 as int) == trim(chars@),
{
    let mut from: usize = 0;
    while from < chars.len() && whitespace(chars[from])
        invariant
            from <= chars@.len(),
            forall|i: int| 0 <= i < from ==> is_whitespace(#[trigger] chars@[i]),
        decreases chars@.len() - from,
    {
        from += 1;
    }
    let mut to: usize = chars.len();
    while to > from && whitespace(chars[to - 1])
        invariant
            from <= to <= chars@.len(),
            forall|i: int| to <= i < chars@.len() ==> is_whitespace(#[trigger] chars@[i]),
        decreases to,
    {
        to -= 1;
    }
    proof {
        lemma_trim(chars@, from as int, to as int);
    }
    (from, to)
}

/// Where the field that begins at `from` ends: at the first blank before
/// `to`, or at `to`.
fn field_end(chars: &Vec<char>, from: usize, to: usize) -> (end: usize)
    requires
        from <= to <= chars@.len(),
    ensures
        from <= end <= to,
        end - from == field_len(chars@.subrange(from as int, to as int)),
{
    let ghost line = chars@.subrange(from as int, to as int);
    let mut end = from;
    while end < to && chars[end] != ' '
        invariant
            from <= end <= to <= chars@.len(),
            line == chars@.subrange(from as int, to as int),
            forall|i: int| 0 <= i < end - from ==> #[trigger] line[i] != ' ',
        decreases to - end,
    {
        assert(line[end - from] == chars@[end as int]);
        end += 1;
    }
    proof {
        lemma_field_len(line, end - from);
    }
    end
}

/// Reads the characters from `from` to `to` as a number up to `max`.
fn parse_number(chars: &Vec<char>, from: usize, to: usize, max: usize) -> (parsed: Option<usize>)
    requires
        from <= to <= chars@.len(),
        max >= 9,
    ensures
        parsed matches Some(value) ==> number_up_to(
            chars@.subrange(from as int, to as int),
            max as nat,
        ) == Some(value as nat),
        parsed is None ==> number_up_to(chars@.subrange(from as int, to as int), max as nat)
            is None,
{
    let ghost field = chars@.subrange(from as int, to as int);
    let first = if from < to && chars[from] == '+' {
        from + 1
    } else {
        from
    };
    if first == to {
        return None;
    }
    let ghost run = chars@.subrange(first as int, to as int);
    assert(run =~= if field.len() > 0 && field.first() == '+' {
        field.drop_first()
    } else {
        field
    });
    let mut value: usize = 0;
    let mut i = first;
    assert(run.take(0) =~= Seq::<char>::empty());
    assert(number(field) == digits(run));
    while i < to
        invariant
            from <= first <= i <= to <= chars@.len(),
            run == chars@.subrange(first as int, to as int),
            number(chars@.subrange(from as int, to as int)) == digits(run),
            digits(run.take(i - first)) == Some(value as nat),
            value <= max,
            max >= 9,
        decreases to - i,
    {
        let c = chars[i];
        let ghost longer = run.take(i - first + 1);
        proof {
            assert(longer.drop_last() =~= run.take(i - first));
            assert(longer.last() == c);
            if digits(run) is Some {
                lemma_digits_prefix(run, i - first + 1);
            }
        }
        if !('0' <= c && c <= '9') {
            return None;
        }
        let d = (c as u32 - '0' as u32) as usize;
        if value > (max - d) / 10 {
            return None;
        }
        value = value * 10 + d;
        i += 1;
    }
    assert(run.take(to - first) =~= run);
    Some(value)
}

/// Reads the characters from `from` to `to` as a coordinate.
fn parse_coordinate(chars: &Vec<char>, from: usize, to: usize) -> (coord: usize)
    requires
        from <= to <= chars@.len(),
    ensures
        coord == coordinate(chars@.subrange(from as int, to as int)),
{
    match parse_number(chars, from, to, usize::MAX) {
        Some(value) => if value > 0 {
            value - 1
        } else {
            usize::MAX
        },
        None => usize::MAX,
    }
}

/// Reads the row and the column of a move from a line such as `3 7`.
///
/// The player counts rows and columns from 1. Where a number is missing, is
/// 0 or cannot be read, the coordinate is `usize::MAX`, which lies on no
/// board, so that the move is refused as out of bounds.
pub fn get_coords(line: &str) -> (coords: (usize, usize))
    ensures
        coords == coords_of(line@),
{
    let chars = characters(line);
    let (from, to) = trim_bounds(&chars);
    let ghost fields = chars@.subrange(from as int, to as int);
    let row_end = field_end(&chars, from, to);
    assert(first_field(fields) =~= chars@.subrange(from as int, row_end as int));
    let row = parse_coordinate(&chars, from, row_end);
    if row_end == to {
        return (row, usize::MAX);
    }
    let ghost rest = chars@.subrange(row_end + 1, to as int);
    assert(fields.skip(row_end - from + 1) =~= rest);
    let col_end = field_end(&chars, row_end + 1, to);
    assert(first_field(rest) =~= chars@.subrange(row_end + 1, col_end as int));
    let col = parse_coordinate(&chars, row_end + 1, col_end);
    (row, col)
}

/// Reads the action of a move from a line: to open if the line begins with
/// the letter o, to flag if it begins with anything else or is empty.
pub fn get_action(line: &str) -> (action: Action)
    ensures
        action == action_of(line@),
{
    let chars = characters(line);
    if chars.len() > 0 && (chars[0] == 'o' || chars[0] == 'O') {
        Action::Open
    } else {
        Action::Flag
    }
}

/// Reads the answer to whether another round is wanted: yes if the line
/// begins with the letter y, no if it begins with anything else or is
/// empty.
pub fn play_again(line: &str) -> (again: bool)
    ensures
        again == says_yes(line@),
{
    let chars = characters(line);
    chars.len() > 0 && (chars[0] == 'y' || chars[0] == 'Y')
}

/// Reads the difficulty from a line: `2` for medium, `3` for hard; any
/// other line, a number or not, gives easy.
pub fn get_difficulty(line: &str) -> (difficulty: Difficulty)
    ensures
        difficulty == difficulty_of(line@),
{
    let chars = characters(line);
    let (from, to) = trim_bounds(&chars);
    match parse_number(&chars, from, to, 255) {
        Some(2) => Difficulty::Medium,
        Some(3) => Difficulty::Hard,
        _ => Difficulty::Easy,
    }
}

} // verus!
