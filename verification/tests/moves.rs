use minesweeper::{Cell, Difficulty, Grid, Status, Visibility};

fn opened_map(grid: &Grid) -> Vec<Vec<bool>> {
    let n = grid.size();
    (0..n).map(|r| (0..n).map(|c| grid.cell(r, c).unwrap().is_opened()).collect()).collect()
}

fn flagged_count(grid: &Grid) -> usize {
    let n = grid.size();
    let mut count = 0;
    for r in 0..n {
        for c in 0..n {
            if grid.cell(r, c).unwrap().is_flagged() {
                count += 1;
            }
        }
    }
    count
}

#[test]
fn open_off_the_board() {
    let mut grid = Grid::from_mines(3, &vec![(0, 0)]).unwrap();
    let before = grid.clone();
    assert_eq!(grid.open(3, 0), Status::PositionOutOfBounds);
    assert_eq!(grid.open(0, 3), Status::PositionOutOfBounds);
    assert_eq!(grid.open(usize::MAX, usize::MAX), Status::PositionOutOfBounds);
    assert_eq!(grid, before);
}

#[test]
fn open_a_numbered_cell_opens_only_it() {
    let mut grid = Grid::from_mines(3, &vec![(1, 1)]).unwrap();
    assert_eq!(grid.open(0, 0), Status::Success);
    let opened = opened_map(&grid);
    for r in 0..3 {
        for c in 0..3 {
            assert_eq!(opened[r][c], (r, c) == (0, 0));
        }
    }
    assert_eq!(
        grid.cell(0, 0).unwrap().visibility(),
        Visibility::Opened { adjacent_mine_count: 1 }
    );
}

#[test]
fn open_a_mine_is_game_over() {
    let mut grid = Grid::from_mines(3, &vec![(1, 1)]).unwrap();
    let before = grid.clone();
    assert_eq!(grid.open(1, 1), Status::GameOver);
    assert_eq!(grid, before);
}

#[test]
fn open_a_mine_is_game_over_after_other_moves() {
    let mut grid = Grid::from_mines(4, &vec![(1, 1), (3, 3)]).unwrap();
    assert_eq!(grid.open(0, 0), Status::Success);
    assert_eq!(grid.flag(1, 1), Status::Success);
    let before = grid.clone();
    assert_eq!(grid.open(1, 1), Status::GameOver);
    assert_eq!(grid.open(3, 3), Status::GameOver);
    assert_eq!(grid, before);
}

#[test]
fn open_a_mine_on_the_trial_board() {
    let mut any = Grid::new(Difficulty::Easy);
    let mut grid = any.test();
    for c in 0..10 {
        assert_eq!(grid.open(0, c), Status::GameOver);
    }
}

#[test]
fn open_an_opened_cell_changes_nothing() {
    let mut grid = Grid::from_mines(3, &vec![(1, 1)]).unwrap();
    assert_eq!(grid.open(0, 0), Status::Success);
    let before = grid.clone();
    for _ in 0..3 {
        assert_eq!(grid.open(0, 0), Status::CannotOpenOpenedCell);
        assert_eq!(grid, before);
    }
}

#[test]
fn open_a_flagged_cell_is_refused() {
    let mut grid = Grid::from_mines(3, &vec![(1, 1), (2, 2)]).unwrap();
    assert_eq!(grid.flag(0, 0), Status::Success);
    let before = grid.clone();
    assert_eq!(grid.open(0, 0), Status::CannotOpenFlaggedCell);
    assert_eq!(grid, before);
}

#[test]
fn open_on_a_board_without_mines_opens_it_all() {
    for start in [(0, 0), (2, 3), (4, 4)] {
        let mut grid = Grid::from_mines(5, &vec![]).unwrap();
        // no mine and no flag left to place: the round is won at once
        assert_eq!(grid.open(start.0, start.1), Status::GameWon);
        for r in 0..5 {
            for c in 0..5 {
                assert_eq!(
                    grid.cell(r, c).unwrap(),
                    Cell::NonMined { adjacent_mine_count: 0, opened: true, flagged: false }
                );
            }
        }
    }
}

#[test]
fn open_on_a_large_board_without_mines_halts() {
    let mut grid = Grid::from_mines(40, &vec![]).unwrap();
    assert_eq!(grid.open(20, 20), Status::GameWon);
    assert!(opened_map(&grid).iter().all(|row| row.iter().all(|&o| o)));
}

#[test]
fn cascade_stops_at_numbered_cells() {
    // . . . . .
    // . . . . .
    // . . 1 1 1
    // . . 1 M 1
    // . . 1 1 1
    let mut grid = Grid::from_mines(5, &vec![(3, 3)]).unwrap();
    assert_eq!(grid.open(0, 0), Status::Success);
    let opened = opened_map(&grid);
    let expected = [
        [true, true, true, true, true],
        [true, true, true, true, true],
        [true, true, true, true, true],
        [true, true, true, false, false],
        [true, true, true, false, false],
    ];
    for r in 0..5 {
        for c in 0..5 {
            assert_eq!(opened[r][c], expected[r][c], "at {r},{c}");
        }
    }
}

#[test]
fn cascade_does_not_cross_a_wall_of_numbers() {
    // a column of mines splits the board
    // . 2 M 2 .
    // . 3 M 3 .
    // . 3 M 3 .
    // . 3 M 3 .
    // . 2 M 2 .
    let mines = vec![(0, 2), (1, 2), (2, 2), (3, 2), (4, 2)];
    let mut grid = Grid::from_mines(5, &mines).unwrap();
    assert_eq!(grid.open(2, 0), Status::Success);
    let opened = opened_map(&grid);
    for r in 0..5 {
        for c in 0..5 {
            assert_eq!(opened[r][c], c <= 1, "at {r},{c}");
        }
    }
    assert_eq!(grid.open(0, 4), Status::Success);
    let opened = opened_map(&grid);
    for r in 0..5 {
        for c in 0..5 {
            assert_eq!(opened[r][c], c != 2, "at {r},{c}");
        }
    }
}

#[test]
fn cascade_skips_flagged_cells() {
    // the flag at (0, 1) and the numbers around the mine keep (0, 0) apart
    let mut grid = Grid::from_mines(5, &vec![(4, 4), (4, 0)]).unwrap();
    assert_eq!(grid.flag(1, 1), Status::Success);
    assert_eq!(grid.open(0, 4), Status::Success);
    let opened = opened_map(&grid);
    let expected = [
        [true, true, true, true, true],
        [true, false, true, true, true],
        [true, true, true, true, true],
        [true, true, true, true, true],
        [false, true, true, true, false],
    ];
    for r in 0..5 {
        for c in 0..5 {
            assert_eq!(opened[r][c], expected[r][c], "at {r},{c}");
        }
    }
    assert!(grid.cell(1, 1).unwrap().is_flagged());
    assert_eq!(grid.flags_remaining(), 1);
}

#[test]
fn a_cell_that_was_flagged_can_be_opened_later() {
    let mut grid = Grid::from_mines(6, &vec![(5, 5), (5, 0)]).unwrap();
    assert_eq!(grid.flag(2, 2), Status::Success);
    assert_eq!(grid.open(0, 0), Status::Success);
    assert!(!grid.cell(2, 2).unwrap().is_opened());
    assert_eq!(grid.flag(2, 2), Status::Success);
    let before = opened_map(&grid);
    assert_eq!(grid.open(2, 2), Status::Success);
    let after = opened_map(&grid);
    for r in 0..6 {
        for c in 0..6 {
            assert_eq!(after[r][c], before[r][c] || (r, c) == (2, 2), "at {r},{c}");
        }
    }
}

#[test]
fn opening_changes_nothing_but_what_is_open() {
    let mines = vec![(0, 0), (3, 4), (6, 1), (7, 7)];
    let fresh = Grid::from_mines(8, &mines).unwrap();
    let mut grid = fresh.clone();
    assert_eq!(grid.flag(2, 0), Status::Success);
    assert_eq!(grid.open(4, 0), Status::Success);
    assert_eq!(grid.size(), 8);
    assert_eq!(grid.mines(), 4);
    assert_eq!(grid.flags_remaining(), 3);
    for r in 0..8 {
        for c in 0..8 {
            let was = fresh.cell(r, c).unwrap();
            let is = grid.cell(r, c).unwrap();
            assert_eq!(is.is_mined(), was.is_mined());
            assert_eq!(is.adjacent_mines(), was.adjacent_mines());
            assert_eq!(is.is_flagged(), (r, c) == (2, 0));
            assert!(!(is.is_opened() && is.is_flagged()));
        }
    }
}

#[test]
fn flag_with_no_flag_left() {
    let mut grid = Grid::from_mines(3, &vec![(0, 0)]).unwrap();
    assert_eq!(grid.flag(1, 1), Status::Success);
    assert_eq!(grid.flags_remaining(), 0);
    let before = grid.clone();
    // a further flag on an unflagged cell
    assert_eq!(grid.flag(2, 2), Status::FlagLimitReached);
    // the budget is looked at first: off the board, and on the flagged cell too
    assert_eq!(grid.flag(7, 7), Status::FlagLimitReached);
    assert_eq!(grid.flag(1, 1), Status::FlagLimitReached);
    assert_eq!(grid, before);
}

#[test]
fn flag_limit_after_as_many_flags_as_mines() {
    let mut any = Grid::new(Difficulty::Easy);
    let mut grid = any.test();
    // ten flags on safe cells
    for c in 0..10 {
        assert_eq!(grid.flags_remaining(), 10 - c);
        assert_eq!(grid.flag(5, c), Status::Success);
    }
    assert_eq!(grid.flags_remaining(), 0);
    assert_eq!(flagged_count(&grid), 10);
    assert_eq!(grid.flag(6, 0), Status::FlagLimitReached);
    assert_eq!(grid.flags_remaining(), 0);
    assert_eq!(flagged_count(&grid), 10);
    assert!(!grid.has_won());
}

#[test]
fn flag_off_the_board() {
    let mut grid = Grid::from_mines(3, &vec![(0, 0)]).unwrap();
    let before = grid.clone();
    assert_eq!(grid.flag(3, 0), Status::PositionOutOfBounds);
    assert_eq!(grid.flag(0, 3), Status::PositionOutOfBounds);
    assert_eq!(grid, before);
}

#[test]
fn flag_an_opened_cell_is_refused() {
    let mut grid = Grid::from_mines(3, &vec![(1, 1)]).unwrap();
    assert_eq!(grid.open(0, 0), Status::Success);
    let before = grid.clone();
    assert_eq!(grid.flag(0, 0), Status::CannotFlagOpenedCell);
    assert_eq!(grid, before);
    assert_eq!(grid.flags_remaining(), 1);
}

#[test]
fn flag_and_unflag_restore_the_budget() {
    let mut grid = Grid::from_mines(4, &vec![(0, 0), (3, 3)]).unwrap();
    let before = grid.clone();
    assert_eq!(grid.flags_remaining(), 2);
    assert_eq!(grid.flag(1, 2), Status::Success);
    assert_eq!(grid.flags_remaining(), 1);
    assert!(grid.cell(1, 2).unwrap().is_flagged());
    assert_eq!(grid.flag(1, 2), Status::Success);
    assert_eq!(grid.flags_remaining(), 2);
    assert_eq!(grid, before);
    // and once more
    assert_eq!(grid.flag(1, 2), Status::Success);
    assert_eq!(grid.flag(1, 2), Status::Success);
    assert_eq!(grid.flags_remaining(), 2);
    assert_eq!(grid, before);
}

#[test]
fn flag_and_unflag_a_mine_restore_the_budget() {
    let mut grid = Grid::from_mines(4, &vec![(0, 0), (3, 3)]).unwrap();
    let before = grid.clone();
    assert_eq!(grid.flag(0, 0), Status::Success);
    assert_eq!(grid.flags_remaining(), 1);
    assert_eq!(grid.flag(0, 0), Status::Success);
    assert_eq!(grid, before);
}

#[test]
fn last_flag_cannot_be_taken_back() {
    let mut grid = Grid::from_mines(3, &vec![(0, 0)]).unwrap();
    assert_eq!(grid.flag(2, 2), Status::Success);
    assert_eq!(grid.flag(2, 2), Status::FlagLimitReached);
    assert!(grid.cell(2, 2).unwrap().is_flagged());
    assert_eq!(grid.flags_remaining(), 0);
}

#[test]
fn budget_and_flags_add_up_to_the_mines() {
    let mut grid = Grid::from_mines(4, &vec![(0, 0), (1, 1), (2, 2)]).unwrap();
    let moves = [(0, 1), (3, 3), (0, 1), (1, 1), (3, 0), (3, 3), (2, 0)];
    for (r, c) in moves {
        grid.flag(r, c);
        assert_eq!(grid.flags_remaining() + flagged_count(&grid), 3);
    }
}

#[test]
fn flagging_the_only_mine_wins() {
    let mut grid = Grid::from_mines(3, &vec![(0, 0)]).unwrap();
    assert!(!grid.has_won());
    assert_eq!(grid.flag(0, 0), Status::GameWon);
    assert_eq!(grid.flags_remaining(), 0);
    for r in 0..3 {
        for c in 0..3 {
            assert_eq!(grid.cell(r, c).unwrap().is_flagged(), (r, c) == (0, 0));
        }
    }
    assert!(grid.has_won());
}

#[test]
fn flagging_every_mine_wins() {
    let mut grid = Grid::from_mines(4, &vec![(0, 0), (2, 1), (3, 3)]).unwrap();
    assert_eq!(grid.flag(0, 0), Status::Success);
    assert_eq!(grid.flag(3, 3), Status::Success);
    assert!(!grid.has_won());
    assert_eq!(grid.flag(2, 1), Status::GameWon);
    assert!(grid.has_won());
}

#[test]
fn a_flag_on_a_safe_cell_does_not_win() {
    let mut grid = Grid::from_mines(3, &vec![(0, 0), (2, 2)]).unwrap();
    assert_eq!(grid.flag(0, 0), Status::Success);
    assert_eq!(grid.flag(1, 1), Status::Success);
    assert_eq!(grid.flags_remaining(), 0);
    assert!(!grid.has_won());
}

#[test]
fn opening_after_the_win_reports_it() {
    let mut grid = Grid::from_mines(3, &vec![(0, 0)]).unwrap();
    assert_eq!(grid.flag(0, 0), Status::GameWon);
    assert_eq!(grid.open(2, 2), Status::GameWon);
    assert_eq!(grid.open(2, 2), Status::CannotOpenOpenedCell);
    assert_eq!(grid.open(0, 0), Status::GameOver);
}

#[test]
fn fresh_board_is_not_won() {
    assert!(!Grid::new(Difficulty::Easy).has_won());
    assert!(!Grid::new(Difficulty::Medium).has_won());
    assert!(!Grid::new(Difficulty::Hard).has_won());
}

#[test]
fn a_round_on_a_random_board() {
    let mut grid = Grid::new(Difficulty::Medium);
    let n = grid.size();
    // flag every mine, the last flag wins
    let mut placed = 0;
    for r in 0..n {
        for c in 0..n {
            if grid.cell(r, c).unwrap().is_mined() {
                placed += 1;
                let status = grid.flag(r, c);
                if placed < 40 {
                    assert_eq!(status, Status::Success);
                } else {
                    assert_eq!(status, Status::GameWon);
                }
            }
        }
    }
    assert_eq!(placed, 40);
    assert!(grid.has_won());
    // every safe cell can still be opened, and no mine is opened by a cascade
    for r in 0..n {
        for c in 0..n {
            let cell = grid.cell(r, c).unwrap();
            if !cell.is_mined() && !cell.is_opened() {
                assert_eq!(grid.open(r, c), Status::GameWon);
            }
        }
    }
    for r in 0..n {
        for c in 0..n {
            let cell = grid.cell(r, c).unwrap();
            assert_eq!(cell.is_opened(), !cell.is_mined());
        }
    }
}
