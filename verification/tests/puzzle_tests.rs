use magic_hexagon::hexagon::{hexagon_grid, MAGIC_SUM};
use magic_hexagon::{Grid, LineCheck, LineFamily, Puzzle};

const KNOWN: [u8; 19] = [3, 17, 18, 19, 7, 1, 11, 16, 2, 5, 6, 9, 12, 4, 8, 14, 10, 13, 15];

fn single_line(target: u32) -> Grid {
    let family = LineFamily { starts: vec![(0, 0)], step: (0, 1) };
    Grid::new(vec![vec![true, true, true]], vec![family], target).ok().unwrap()
}

fn filled<'a>(grid: &'a Grid, values: &[u8]) -> Puzzle<'a> {
    let mut p = Puzzle::new(grid);
    for (cell, &v) in values.iter().enumerate() {
        assert!(p.place(cell, v));
    }
    p
}

#[test]
fn new_puzzle_is_blank() {
    let grid = hexagon_grid(MAGIC_SUM).ok().unwrap();
    let p = Puzzle::new(&grid);
    for cell in 0..19 {
        assert_eq!(p.get(cell), None);
    }
    assert_eq!(p.get(19), None);
    assert!(!p.is_complete());
    assert_eq!(p.first_empty(0), 0);
    assert_eq!(p.next_unused(1), Some(1));
    for v in 0..=255u8 {
        assert!(!p.is_used(v));
    }
}

#[test]
fn blank_puzzle_passes_the_check() {
    let grid = hexagon_grid(MAGIC_SUM).ok().unwrap();
    let p = Puzzle::new(&grid);
    assert!(p.check_solution());
    for l in 0..grid.line_count() {
        assert_eq!(p.check_line(l), LineCheck::Indeterminate);
    }
}

#[test]
fn place_takes_only_free_numbers_and_empty_cells() {
    let grid = single_line(6);
    let mut p = Puzzle::new(&grid);
    assert!(!p.place(0, 0));
    assert!(!p.place(0, 4));
    assert!(!p.place(3, 1));
    assert!(p.place(1, 2));
    assert_eq!(p.get(1), Some(2));
    assert!(p.is_used(2));
    assert!(!p.place(1, 3));
    assert!(!p.place(0, 2));
    assert_eq!(p.get(0), None);
    assert!(p.place(0, 3));
    assert_eq!(p.get(0), Some(3));
    assert_eq!(p.get(1), Some(2));
    assert_eq!(p.get(2), None);
}

#[test]
fn clear_gives_the_number_back() {
    let grid = single_line(6);
    let mut p = Puzzle::new(&grid);
    assert!(p.place(1, 2));
    assert_eq!(p.clear(0), None);
    assert_eq!(p.clear(7), None);
    assert_eq!(p.clear(1), Some(2));
    assert_eq!(p.get(1), None);
    assert!(!p.is_used(2));
    assert!(p.place(0, 2));
}

#[test]
fn next_unused_skips_taken_numbers() {
    let grid = single_line(6);
    let mut p = Puzzle::new(&grid);
    assert!(p.place(0, 1));
    assert!(p.place(2, 2));
    assert_eq!(p.next_unused(0), Some(3));
    assert_eq!(p.next_unused(1), Some(3));
    assert_eq!(p.next_unused(3), Some(3));
    assert_eq!(p.next_unused(4), None);
    assert_eq!(p.next_unused(255), None);
    assert!(p.place(1, 3));
    assert_eq!(p.next_unused(1), None);
}

#[test]
fn first_empty_looks_from_the_given_cell_on() {
    let grid = single_line(6);
    let mut p = Puzzle::new(&grid);
    assert!(p.place(1, 2));
    assert_eq!(p.first_empty(0), 0);
    assert_eq!(p.first_empty(1), 2);
    assert_eq!(p.first_empty(2), 2);
    assert_eq!(p.first_empty(3), 3);
    assert_eq!(p.first_empty(9), 3);
    assert!(p.place(2, 1));
    assert_eq!(p.first_empty(1), 3);
}

#[test]
fn line_with_an_empty_cell_is_indeterminate() {
    let grid = single_line(6);
    let mut p = Puzzle::new(&grid);
    assert!(p.place(0, 3));
    assert!(p.place(2, 2));
    assert_eq!(p.check_line(0), LineCheck::Indeterminate);
    assert!(p.check_solution());
}

#[test]
fn full_line_with_the_target_sum_passes() {
    let grid = single_line(6);
    let p = filled(&grid, &[2, 3, 1]);
    assert_eq!(p.check_line(0), LineCheck::Pass);
    assert!(p.check_solution());
    assert!(p.is_complete());
}

#[test]
fn full_line_with_another_sum_fails() {
    let grid = single_line(5);
    let p = filled(&grid, &[2, 3, 1]);
    assert_eq!(p.check_line(0), LineCheck::Fail);
    assert!(!p.check_solution());
}

#[test]
fn known_magic_hexagon_passes() {
    let grid = hexagon_grid(MAGIC_SUM).ok().unwrap();
    let p = filled(&grid, &KNOWN);
    assert!(p.is_complete());
    assert!(p.check_solution());
    for l in 0..grid.line_count() {
        assert_eq!(p.check_line(l), LineCheck::Pass);
    }
}

#[test]
fn swapped_magic_hexagon_fails() {
    let grid = hexagon_grid(MAGIC_SUM).ok().unwrap();
    let mut values = KNOWN;
    values.swap(0, 1);
    let p = filled(&grid, &values);
    assert!(p.is_complete());
    assert!(!p.check_solution());
    // the top row still holds the same numbers
    assert_eq!(p.check_line(10), LineCheck::Pass);
    // the line down to the left from the first cell does not
    assert_eq!(p.check_line(0), LineCheck::Fail);
}

#[test]
fn partial_hexagon_fails_as_soon_as_one_full_line_is_off() {
    let grid = hexagon_grid(MAGIC_SUM).ok().unwrap();
    let mut p = Puzzle::new(&grid);
    assert!(p.place(0, 1));
    assert!(p.place(1, 2));
    assert!(p.check_solution());
    assert!(p.place(2, 3));
    assert_eq!(p.check_line(10), LineCheck::Fail);
    assert!(!p.check_solution());
    assert_eq!(p.clear(2), Some(3));
    assert!(p.check_solution());
}

#[test]
fn partial_hexagon_with_right_full_lines_passes() {
    let grid = hexagon_grid(MAGIC_SUM).ok().unwrap();
    let p = filled(&grid, &KNOWN[..8]);
    assert!(!p.is_complete());
    assert!(p.check_solution());
    assert_eq!(p.check_line(10), LineCheck::Pass);
    assert_eq!(p.check_line(11), LineCheck::Pass);
    assert_eq!(p.check_line(0), LineCheck::Pass);
    assert_eq!(p.check_line(12), LineCheck::Indeterminate);
}

#[test]
fn value_at_reads_by_position() {
    let grid = hexagon_grid(MAGIC_SUM).ok().unwrap();
    let p = filled(&grid, &KNOWN);
    assert_eq!(p.value_at(0, 2), Some(3));
    assert_eq!(p.value_at(2, 4), Some(5));
    assert_eq!(p.value_at(4, 6), Some(15));
    assert_eq!(p.value_at(0, 0), None);
    assert_eq!(p.value_at(5, 0), None);
    let blank = Puzzle::new(&grid);
    assert_eq!(blank.value_at(0, 2), None);
}

#[test]
fn duplicate_is_independent_of_its_source() {
    let grid = single_line(6);
    let mut p = Puzzle::new(&grid);
    assert!(p.place(0, 3));
    let q = p.duplicate();
    assert_eq!(p.clear(0), Some(3));
    assert_eq!(q.get(0), Some(3));
    assert!(q.is_used(3));
    assert_eq!(p.get(0), None);
    assert_eq!(q.descriptor().cell_count(), 3);
}
