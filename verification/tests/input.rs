use minesweeper::input::{get_action, get_coords, get_difficulty, Action};
use minesweeper::{Difficulty, Grid, Status};

fn coords_by_std(line: &str) -> (usize, usize) {
    let fields = line
        .trim()
        .split(' ')
        .map(|x| x.parse::<usize>().unwrap_or_default())
        .collect::<Vec<usize>>();
    let row = fields.first().unwrap_or(&0).wrapping_sub(1);
    let col = fields.get(1).unwrap_or(&0).wrapping_sub(1);
    (row, col)
}

fn difficulty_by_std(line: &str) -> Difficulty {
    match line.trim().parse::<u8>().unwrap_or(1) {
        2 => Difficulty::Medium,
        3 => Difficulty::Hard,
        _ => Difficulty::Easy,
    }
}

fn action_by_std(line: &str) -> Action {
    if line.to_ascii_lowercase().chars().next().unwrap_or('F') == 'o' {
        Action::Open
    } else {
        Action::Flag
    }
}

const LINES: [&str; 48] = [
    "",
    "\n",
    " ",
    "3 7\n",
    "3 7\r\n",
    "1 1",
    "  4 2  ",
    "\t10 20\t\n",
    "10",
    "0 0",
    "0 5",
    "5 0",
    "3  7",
    "3 7 9",
    "3 7 x",
    "a b",
    "3 b",
    "a 7",
    "+3 +7",
    "+ 7",
    "3 +",
    "-3 7",
    "3 -7",
    "03 007",
    "3,7",
    "3\t7",
    "3.0 7",
    "٣ ٧",
    "３ ７",
    "\u{3000}3 7\u{3000}",
    "\u{a0}2 2\u{2009}",
    "\u{200b}2 2",
    "18446744073709551615 1",
    "18446744073709551616 1",
    "1 18446744073709551615",
    "99999999999999999999999999 2",
    "4294967295 4294967296",
    "4294967296 4294967297",
    "255",
    "256",
    "2",
    " 2 \n",
    "3\n",
    "+3",
    "03",
    "1",
    "0",
    "2 3",
];

#[test]
fn coords_agree_with_the_standard_parser() {
    for line in LINES {
        assert_eq!(get_coords(line), coords_by_std(line), "line {line:?}");
    }
}

#[test]
fn difficulty_agrees_with_the_standard_parser() {
    for line in LINES {
        assert_eq!(get_difficulty(line), difficulty_by_std(line), "line {line:?}");
    }
}

#[test]
fn action_agrees_with_the_standard_parser() {
    for line in LINES {
        assert_eq!(get_action(line), action_by_std(line), "line {line:?}");
    }
    for line in ["o", "O", "o\n", "open", "Open", "f", "F\n", " o", "x", "0", "ö", "Ö"] {
        assert_eq!(get_action(line), action_by_std(line), "line {line:?}");
    }
}

#[test]
fn coords_count_from_one() {
    assert_eq!(get_coords("1 1\n"), (0, 0));
    assert_eq!(get_coords("3 7\n"), (2, 6));
    assert_eq!(get_coords("10 40\n"), (9, 39));
    assert_eq!(get_coords("  12 5 \r\n"), (11, 4));
}

#[test]
fn coords_that_cannot_be_read_lie_off_every_board() {
    assert_eq!(get_coords(""), (usize::MAX, usize::MAX));
    assert_eq!(get_coords("\n"), (usize::MAX, usize::MAX));
    assert_eq!(get_coords("a b\n"), (usize::MAX, usize::MAX));
    assert_eq!(get_coords("0 0\n"), (usize::MAX, usize::MAX));
    assert_eq!(get_coords("5\n"), (4, usize::MAX));
    assert_eq!(get_coords("x 5\n"), (usize::MAX, 4));
    assert_eq!(get_coords("5  6\n"), (4, usize::MAX));
    assert_eq!(get_coords("99999999999999999999999999 2\n"), (usize::MAX, 1));
}

#[test]
fn coords_take_the_largest_number() {
    let line = format!("{} {}", usize::MAX, usize::MAX - 1);
    assert_eq!(get_coords(&line), (usize::MAX - 1, usize::MAX - 2));
}

#[test]
fn unreadable_coords_are_out_of_bounds() {
    let mut grid = Grid::new(Difficulty::Easy);
    let before = grid.clone();
    for line in ["", "zero zero", "0 1", "1 0", "1", "11 1", "1 11"] {
        let (row, col) = get_coords(line);
        assert_eq!(grid.open(row, col), Status::PositionOutOfBounds, "line {line:?}");
        assert_eq!(grid.flag(row, col), Status::PositionOutOfBounds, "line {line:?}");
    }
    assert_eq!(grid, before);
}

#[test]
fn action_is_open_only_for_the_letter_o() {
    assert_eq!(get_action("o\n"), Action::Open);
    assert_eq!(get_action("O\n"), Action::Open);
    assert_eq!(get_action("open\n"), Action::Open);
    assert_eq!(get_action("f\n"), Action::Flag);
    assert_eq!(get_action("\n"), Action::Flag);
    assert_eq!(get_action(""), Action::Flag);
    assert_eq!(get_action(" o\n"), Action::Flag);
}

#[test]
fn difficulty_defaults_to_easy() {
    assert_eq!(get_difficulty("1\n"), Difficulty::Easy);
    assert_eq!(get_difficulty("2\n"), Difficulty::Medium);
    assert_eq!(get_difficulty("3\n"), Difficulty::Hard);
    assert_eq!(get_difficulty(" 3 \n"), Difficulty::Hard);
    assert_eq!(get_difficulty("+2\n"), Difficulty::Medium);
    assert_eq!(get_difficulty("\n"), Difficulty::Easy);
    assert_eq!(get_difficulty("0\n"), Difficulty::Easy);
    assert_eq!(get_difficulty("4\n"), Difficulty::Easy);
    assert_eq!(get_difficulty("hard\n"), Difficulty::Easy);
    assert_eq!(get_difficulty("258\n"), Difficulty::Easy);
    assert_eq!(get_difficulty("2 3\n"), Difficulty::Easy);
}
