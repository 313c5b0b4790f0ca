use minefield::board::{Board, BoardError, FieldCell};
use minefield::cascade::RevealOutcome;
use minefield::generate::generate_board;

fn cell(b: &Board, x: usize, y: usize) -> FieldCell {
    b.cell_at(x, y).expect("cell on the grid")
}

fn brute_count(b: &Board, x: usize, y: usize, pick: fn(&FieldCell) -> bool) -> usize {
    let mut n = 0;
    for dy in -1i64..=1 {
        for dx in -1i64..=1 {
            if dx == 0 && dy == 0 {
                continue;
            }
            let nx = x as i64 + dx;
            let ny = y as i64 + dy;
            if nx < 0 || ny < 0 || nx >= b.width() as i64 || ny >= b.height() as i64 {
                continue;
            }
            if pick(&cell(b, nx as usize, ny as usize)) {
                n += 1;
            }
        }
    }
    n
}

fn assert_counters_exact(b: &Board) {
    for y in 0..b.height() {
        for x in 0..b.width() {
            let c = cell(b, x, y);
            assert_eq!(c.neighbors, brute_count(b, x, y, |c| c.is_mine));
            assert_eq!(c.flagged_neighbors, brute_count(b, x, y, |c| c.is_flagged));
        }
    }
}

fn mines_on(b: &Board) -> usize {
    let mut n = 0;
    for y in 0..b.height() {
        for x in 0..b.width() {
            if cell(b, x, y).is_mine {
                n += 1;
            }
        }
    }
    n
}

/// A board with mines at the given cells.
fn board_with(width: usize, height: usize, mines: &[(usize, usize)]) -> Board {
    let mut layout = vec![false; width * height];
    for &(x, y) in mines {
        layout[y * width + x] = true;
    }
    Board::from_mines(width, height, &layout).expect("valid layout")
}

#[test]
fn new_cell_is_blank() {
    let c = FieldCell::new();
    assert!(!c.is_mine && !c.is_flagged && !c.is_uncovered);
    assert_eq!(c.neighbors, 0);
    assert_eq!(c.flagged_neighbors, 0);
}

#[test]
fn from_mines_counts_neighbours() {
    let b = board_with(3, 3, &[(0, 0), (2, 2)]);
    assert_eq!(b.mine_count(), 2);
    assert_eq!(cell(&b, 1, 1).neighbors, 2);
    assert_eq!(cell(&b, 0, 1).neighbors, 1);
    assert_eq!(cell(&b, 2, 0).neighbors, 0);
    assert_eq!(cell(&b, 0, 0).neighbors, 0);
    assert_counters_exact(&b);
    assert_eq!(b.covered_count(), 9);
    assert!(b.cell_at(3, 0).is_none());
}

#[test]
fn from_mines_rejects_bad_input() {
    assert_eq!(Board::from_mines(0, 3, &vec![]).err(), Some(BoardError::EmptyBoard));
    assert_eq!(Board::from_mines(2, 2, &vec![false; 3]).err(), Some(BoardError::SizeMismatch));
    assert_eq!(Board::from_mines(2, 1, &vec![true, true]).err(), Some(BoardError::TooManyMines));
    assert_eq!(Board::from_mines(usize::MAX, 2, &vec![]).err(), Some(BoardError::TooLarge));
}

#[test]
fn generated_board_keeps_first_click_safe() {
    for &(fx, fy) in &[(0usize, 0usize), (4, 4), (9, 0), (9, 7), (3, 7)] {
        for _ in 0..20 {
            let b = generate_board(40, fx, fy, 10, 8).expect("room for mines");
            for y in 0..8usize {
                for x in 0..10usize {
                    if x.abs_diff(fx) <= 1 && y.abs_diff(fy) <= 1 {
                        assert!(!cell(&b, x, y).is_mine);
                    }
                }
            }
        }
    }
}

#[test]
fn generated_board_has_exact_mine_count() {
    for mines in [0usize, 1, 10, 40, 71] {
        let b = generate_board(mines, 5, 5, 10, 8).expect("room for mines");
        assert_eq!(mines_on(&b), mines);
        assert_eq!(b.mine_count(), mines);
    }
}

#[test]
fn generated_board_neighbour_counts_are_exact() {
    for _ in 0..10 {
        let b = generate_board(30, 2, 3, 9, 9).expect("room for mines");
        assert_counters_exact(&b);
        assert_eq!(b.covered_count(), 81);
    }
}

#[test]
fn generated_board_fills_every_free_slot() {
    // 4x4 with the click in a corner leaves 12 slots
    let b = generate_board(12, 0, 0, 4, 4).expect("exactly enough room");
    for y in 0..4usize {
        for x in 0..4usize {
            assert_eq!(cell(&b, x, y).is_mine, x > 1 || y > 1);
        }
    }
}

#[test]
fn generate_reports_configuration_errors() {
    assert_eq!(generate_board(1, 0, 0, 0, 5).err(), Some(BoardError::EmptyBoard));
    assert_eq!(generate_board(1, 5, 0, 5, 5).err(), Some(BoardError::OriginOutOfBounds));
    assert_eq!(generate_board(25, 0, 0, 5, 5).err(), Some(BoardError::TooManyMines));
    assert_eq!(generate_board(1, 1, 1, 3, 3).err(), Some(BoardError::NoRoomForMines));
    assert_eq!(generate_board(1, 0, 0, usize::MAX, 2).err(), Some(BoardError::TooLarge));
}

#[test]
fn flag_counts_follow_toggles() {
    let mut b = board_with(5, 4, &[(1, 1), (3, 2)]);
    let moves = [(0, 0), (1, 1), (4, 3), (1, 1), (2, 2), (0, 0), (4, 0), (3, 2), (2, 2), (0, 3)];
    for &(x, y) in &moves {
        b.toggle_flag(x, y);
        assert_counters_exact(&b);
    }
    assert!(cell(&b, 4, 3).is_flagged);
    assert!(!cell(&b, 1, 1).is_flagged);
    assert_eq!(cell(&b, 3, 3).flagged_neighbors, 2);
    assert_eq!(cell(&b, 1, 0).flagged_neighbors, 0);
}

#[test]
fn flag_ignores_uncovered_and_off_grid_cells() {
    let mut b = board_with(3, 3, &[(2, 2)]);
    assert_eq!(b.reveal_at(0, 0, true), RevealOutcome::NewlyUncovered(8));
    b.toggle_flag(0, 0);
    assert!(!cell(&b, 0, 0).is_flagged);
    b.toggle_flag(3, 0);
    b.toggle_flag(0, 7);
    assert_counters_exact(&b);
    assert_eq!(cell(&b, 1, 1).flagged_neighbors, 0);
}

#[test]
fn repeated_click_uncovers_nothing_more() {
    let mut b = board_with(4, 4, &[(2, 2)]);
    assert_eq!(b.reveal_at(1, 1, true), RevealOutcome::NewlyUncovered(1));
    let covered = b.covered_count();
    assert_eq!(b.reveal_at(1, 1, true), RevealOutcome::NewlyUncovered(0));
    assert_eq!(b.covered_count(), covered);
    assert!(cell(&b, 1, 1).is_uncovered);
    let mut b = board_with(4, 4, &[(3, 3)]);
    assert_eq!(b.reveal_at(0, 0, true), RevealOutcome::NewlyUncovered(15));
    assert_eq!(b.reveal_at(0, 0, true), RevealOutcome::NewlyUncovered(0));
    assert_eq!(b.reveal_at(2, 2, true), RevealOutcome::NewlyUncovered(0));
    assert_eq!(b.covered_count(), 1);
}

#[test]
fn cascade_stops_at_numbered_cells() {
    // a wall of mines in column 2 splits the board
    let mut b = board_with(5, 3, &[(2, 0), (2, 1), (2, 2)]);
    assert_eq!(b.reveal_at(0, 1, true), RevealOutcome::NewlyUncovered(6));
    for y in 0..3usize {
        assert!(cell(&b, 0, y).is_uncovered);
        assert!(cell(&b, 1, y).is_uncovered);
        assert!(!cell(&b, 3, y).is_uncovered);
        assert!(!cell(&b, 4, y).is_uncovered);
    }
    assert!(!b.is_won());
}

#[test]
fn satisfied_cell_spreads_through_its_flags() {
    let mut b = board_with(3, 3, &[(0, 0)]);
    assert_eq!(b.reveal_at(1, 1, true), RevealOutcome::NewlyUncovered(1));
    b.toggle_flag(0, 0);
    // (1,1) now has as many flags as mines around it: a second click chords
    assert_eq!(b.reveal_at(1, 1, true), RevealOutcome::NewlyUncovered(7));
    assert!(b.is_won());
}

#[test]
fn chording_onto_a_misplaced_flag_hits_a_mine() {
    let mut b = board_with(3, 3, &[(0, 0)]);
    assert_eq!(b.reveal_at(1, 1, true), RevealOutcome::NewlyUncovered(1));
    b.toggle_flag(2, 2);
    assert_eq!(b.reveal_at(1, 1, true), RevealOutcome::MineHit);
}

#[test]
fn clicking_a_mine_is_a_hit() {
    let mut b = board_with(3, 3, &[(1, 1)]);
    assert_eq!(b.reveal_at(1, 1, true), RevealOutcome::MineHit);
    assert!(!cell(&b, 1, 1).is_uncovered);
    assert_eq!(b.covered_count(), 9);
}

#[test]
fn flagged_cell_is_not_revealed() {
    let mut b = board_with(3, 3, &[(2, 2)]);
    b.toggle_flag(0, 0);
    assert_eq!(b.reveal_at(0, 0, true), RevealOutcome::NewlyUncovered(0));
    assert!(!cell(&b, 0, 0).is_uncovered);
    assert_eq!(b.covered_count(), 9);
    // a flagged mine is safe to click as well
    b.toggle_flag(2, 2);
    assert_eq!(b.reveal_at(2, 2, true), RevealOutcome::NewlyUncovered(0));
}

#[test]
fn flags_block_the_cascade() {
    let mut b = board_with(4, 1, &[]);
    b.toggle_flag(2, 0);
    // (1,0) has a flag beside it but no mine: it is not satisfied, so the cascade stops there
    assert_eq!(b.reveal_at(0, 0, true), RevealOutcome::NewlyUncovered(2));
    assert!(!cell(&b, 2, 0).is_uncovered);
    assert!(!cell(&b, 3, 0).is_uncovered);
}

#[test]
fn off_grid_reveal_does_nothing() {
    let mut b = board_with(3, 3, &[(2, 2)]);
    assert_eq!(b.reveal_at(-1, 0, true), RevealOutcome::NewlyUncovered(0));
    assert_eq!(b.reveal_at(0, 3, true), RevealOutcome::NewlyUncovered(0));
    assert_eq!(b.reveal_at(3, 1, false), RevealOutcome::NewlyUncovered(0));
    assert_eq!(b.covered_count(), 9);
}

#[test]
fn indirect_visit_of_uncovered_cell_counts_nothing() {
    let mut b = board_with(3, 3, &[(2, 2)]);
    assert_eq!(b.reveal_at(0, 0, true), RevealOutcome::NewlyUncovered(8));
    assert_eq!(b.reveal_at(0, 0, false), RevealOutcome::NewlyUncovered(0));
}

#[test]
fn four_by_four_single_reveal_wins() {
    let mut b = board_with(4, 4, &[(3, 3)]);
    assert_eq!(cell(&b, 0, 0).neighbors, 0);
    assert_eq!(b.reveal_at(0, 0, true), RevealOutcome::NewlyUncovered(15));
    for y in 0..4usize {
        for x in 0..4usize {
            assert_eq!(cell(&b, x, y).is_uncovered, (x, y) != (3, 3));
        }
    }
    assert_eq!(b.covered_count(), 1);
    assert!(b.is_won());
}

#[test]
fn win_needs_every_safe_cell() {
    let mut b = board_with(3, 1, &[(0, 0)]);
    assert!(!b.is_won());
    assert_eq!(b.reveal_at(1, 0, true), RevealOutcome::NewlyUncovered(1));
    assert!(!b.is_won());
    assert_eq!(b.reveal_at(2, 0, true), RevealOutcome::NewlyUncovered(1));
    assert!(b.is_won());
    assert_eq!(b.covered_count(), b.mine_count());
}

#[test]
fn large_board_cascade_finishes() {
    let mut b = board_with(50, 50, &[(49, 49)]);
    assert_eq!(b.reveal_at(0, 0, true), RevealOutcome::NewlyUncovered(2499));
    assert!(b.is_won());
    let mut b = generate_board(0, 25, 25, 50, 50).expect("empty board");
    assert_eq!(b.reveal_at(25, 25, true), RevealOutcome::NewlyUncovered(2500));
}
