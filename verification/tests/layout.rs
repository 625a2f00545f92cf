use minesweeper::{Cell, Difficulty, Grid};

fn mined_neighbours(grid: &Grid, row: usize, col: usize) -> u8 {
    let size = grid.size() as i64;
    let mut count = 0;
    for dr in -1i64..=1 {
        for dc in -1i64..=1 {
            if dr == 0 && dc == 0 {
                continue;
            }
            let r = row as i64 + dr;
            let c = col as i64 + dc;
            if r >= 0 && r < size && c >= 0 && c < size {
                if grid.cell(r as usize, c as usize).unwrap().is_mined() {
                    count += 1;
                }
            }
        }
    }
    count
}

fn check_fresh(grid: &Grid, size: usize, mines: usize) {
    assert_eq!(grid.size(), size);
    assert_eq!(grid.mines(), mines);
    assert_eq!(grid.flags_remaining(), mines);
    let mut mined = 0;
    let mut safe = 0;
    for r in 0..size {
        for c in 0..size {
            match grid.cell(r, c).unwrap() {
                Cell::Mined { flagged } => {
                    assert!(!flagged);
                    mined += 1;
                }
                Cell::NonMined { adjacent_mine_count, opened, flagged } => {
                    assert!(!opened);
                    assert!(!flagged);
                    assert_eq!(adjacent_mine_count, mined_neighbours(grid, r, c));
                    safe += 1;
                }
            }
        }
    }
    assert_eq!(mined, mines);
    assert_eq!(safe, size * size - mines);
}

#[test]
fn new_easy_board_holds_its_mines() {
    check_fresh(&Grid::new(Difficulty::Easy), 10, 10);
}

#[test]
fn new_medium_board_holds_its_mines() {
    check_fresh(&Grid::new(Difficulty::Medium), 20, 40);
}

#[test]
fn new_hard_board_holds_its_mines() {
    check_fresh(&Grid::new(Difficulty::Hard), 40, 160);
}

#[test]
fn new_boards_are_laid_again_and_again() {
    for _ in 0..50 {
        check_fresh(&Grid::new(Difficulty::Easy), 10, 10);
    }
}

#[test]
fn new_boards_differ() {
    let first = Grid::new(Difficulty::Hard);
    let mut differs = false;
    for _ in 0..20 {
        if Grid::new(Difficulty::Hard) != first {
            differs = true;
        }
    }
    assert!(differs);
}

#[test]
fn difficulty_of_a_board() {
    assert_eq!(Grid::new(Difficulty::Easy).difficulty(), Some(Difficulty::Easy));
    assert_eq!(Grid::new(Difficulty::Medium).difficulty(), Some(Difficulty::Medium));
    assert_eq!(Grid::new(Difficulty::Hard).difficulty(), Some(Difficulty::Hard));
    assert_eq!(Grid::from_mines(3, &vec![(1, 1)]).unwrap().difficulty(), None);
    assert_eq!(Grid::from_mines(10, &vec![(1, 1)]).unwrap().difficulty(), None);
}

#[test]
fn cell_off_the_board_is_none() {
    let grid = Grid::new(Difficulty::Easy);
    assert!(grid.cell(9, 9).is_some());
    assert_eq!(grid.cell(10, 0), None);
    assert_eq!(grid.cell(0, 10), None);
    assert_eq!(grid.cell(usize::MAX, usize::MAX), None);
}

#[test]
fn single_mine_in_the_middle_counts_one_all_around() {
    let grid = Grid::from_mines(3, &vec![(1, 1)]).unwrap();
    check_fresh(&grid, 3, 1);
    for r in 0..3 {
        for c in 0..3 {
            let cell = grid.cell(r, c).unwrap();
            if (r, c) == (1, 1) {
                assert_eq!(cell, Cell::Mined { flagged: false });
            } else {
                assert_eq!(
                    cell,
                    Cell::NonMined { adjacent_mine_count: 1, opened: false, flagged: false }
                );
            }
        }
    }
}

#[test]
fn counts_on_a_crowded_board() {
    // M M M
    // M . M
    // M M .
    let mines = vec![(0, 0), (0, 1), (0, 2), (1, 0), (1, 2), (2, 0), (2, 1)];
    let grid = Grid::from_mines(3, &mines).unwrap();
    check_fresh(&grid, 3, 7);
    assert_eq!(grid.cell(1, 1).unwrap().adjacent_mines(), 7);
    assert_eq!(grid.cell(2, 2).unwrap().adjacent_mines(), 2);
}

#[test]
fn eight_mines_around_one_cell() {
    let mines = vec![(0, 0), (0, 1), (0, 2), (1, 0), (1, 2), (2, 0), (2, 1), (2, 2)];
    let grid = Grid::from_mines(3, &mines).unwrap();
    assert_eq!(grid.cell(1, 1).unwrap().adjacent_mines(), 8);
}

#[test]
fn counts_at_corners_and_edges() {
    let grid = Grid::from_mines(4, &vec![(0, 0), (3, 3), (0, 3)]).unwrap();
    let expected: [[u8; 4]; 4] = [[0, 1, 1, 0], [1, 1, 1, 1], [0, 0, 1, 1], [0, 0, 1, 0]];
    for r in 0..4 {
        for c in 0..4 {
            let cell = grid.cell(r, c).unwrap();
            if !cell.is_mined() {
                assert_eq!(cell.adjacent_mines(), expected[r][c], "at {r},{c}");
            }
        }
    }
}

#[test]
fn from_mines_without_mines() {
    let grid = Grid::from_mines(2, &vec![]).unwrap();
    check_fresh(&grid, 2, 0);
}

#[test]
fn from_mines_on_the_smallest_board() {
    let grid = Grid::from_mines(1, &vec![]).unwrap();
    check_fresh(&grid, 1, 0);
    assert!(Grid::from_mines(1, &vec![(0, 0)]).is_none());
}

#[test]
fn from_mines_refuses_a_board_without_cells() {
    assert!(Grid::from_mines(0, &vec![]).is_none());
}

#[test]
fn from_mines_refuses_a_mine_off_the_board() {
    assert!(Grid::from_mines(3, &vec![(3, 0)]).is_none());
    assert!(Grid::from_mines(3, &vec![(0, 3)]).is_none());
    assert!(Grid::from_mines(3, &vec![(0, 0), (usize::MAX, 1)]).is_none());
}

#[test]
fn from_mines_refuses_a_cell_named_twice() {
    assert!(Grid::from_mines(3, &vec![(0, 0), (1, 1), (0, 0)]).is_none());
}

#[test]
fn from_mines_refuses_a_full_board() {
    assert!(Grid::from_mines(2, &vec![(0, 0), (0, 1), (1, 0), (1, 1)]).is_none());
    assert!(Grid::from_mines(2, &vec![(0, 0), (0, 1), (1, 0)]).is_some());
}

#[test]
fn from_mines_takes_any_order() {
    let a = Grid::from_mines(3, &vec![(2, 2), (0, 1)]).unwrap();
    let b = Grid::from_mines(3, &vec![(0, 1), (2, 2)]).unwrap();
    assert_eq!(a, b);
}

#[test]
fn trial_board_has_its_top_row_mined() {
    let mut any = Grid::from_mines(1, &vec![]).unwrap();
    let kept = any.clone();
    let grid = any.test();
    assert_eq!(any, kept);
    check_fresh(&grid, 10, 10);
    for c in 0..10 {
        assert!(grid.cell(0, c).unwrap().is_mined());
    }
    assert_eq!(grid.cell(1, 0).unwrap().adjacent_mines(), 2);
    for c in 1..9 {
        assert_eq!(grid.cell(1, c).unwrap().adjacent_mines(), 3);
    }
    assert_eq!(grid.cell(1, 9).unwrap().adjacent_mines(), 2);
    for r in 2..10 {
        for c in 0..10 {
            assert_eq!(grid.cell(r, c).unwrap().adjacent_mines(), 0);
        }
    }
}

#[test]
fn neighbours_of_a_corner() {
    let grid = Grid::from_mines(3, &vec![]).unwrap();
    assert_eq!(grid.get_neighbor_cells_coords(0, 0), vec![(0, 1), (1, 0), (1, 1)]);
    assert_eq!(grid.get_neighbor_cells_coords(2, 2), vec![(1, 1), (1, 2), (2, 1)]);
    assert_eq!(grid.get_neighbor_cells_coords(0, 2), vec![(0, 1), (1, 1), (1, 2)]);
    assert_eq!(grid.get_neighbor_cells_coords(2, 0), vec![(1, 0), (1, 1), (2, 1)]);
}

#[test]
fn neighbours_of_an_edge() {
    let grid = Grid::from_mines(3, &vec![]).unwrap();
    assert_eq!(
        grid.get_neighbor_cells_coords(0, 1),
        vec![(0, 0), (0, 2), (1, 0), (1, 1), (1, 2)]
    );
    assert_eq!(
        grid.get_neighbor_cells_coords(1, 0),
        vec![(0, 0), (0, 1), (1, 1), (2, 0), (2, 1)]
    );
}

#[test]
fn neighbours_in_the_middle() {
    let grid = Grid::from_mines(3, &vec![]).unwrap();
    assert_eq!(
        grid.get_neighbor_cells_coords(1, 1),
        vec![(0, 0), (0, 1), (0, 2), (1, 0), (1, 2), (2, 0), (2, 1), (2, 2)]
    );
}

#[test]
fn neighbours_on_the_smallest_board() {
    let grid = Grid::from_mines(1, &vec![]).unwrap();
    assert_eq!(grid.get_neighbor_cells_coords(0, 0), vec![]);
}

#[test]
fn neighbours_of_a_position_off_the_board() {
    let grid = Grid::from_mines(3, &vec![]).unwrap();
    assert_eq!(grid.get_neighbor_cells_coords(3, 0), vec![(2, 0), (2, 1)]);
    assert_eq!(grid.get_neighbor_cells_coords(3, 3), vec![(2, 2)]);
    assert_eq!(grid.get_neighbor_cells_coords(1, 3), vec![(0, 2), (1, 2), (2, 2)]);
    assert_eq!(grid.get_neighbor_cells_coords(4, 1), vec![]);
    assert_eq!(grid.get_neighbor_cells_coords(usize::MAX, usize::MAX), vec![]);
}
