use magic_hexagon::hexagon::{active_tiles, hexagon_grid, line_families, MAGIC_SUM};
use magic_hexagon::lines::walk_line;
use magic_hexagon::pattern::{is_active, is_rectangular};
use magic_hexagon::tiling::{find_cell, is_tiled};
use magic_hexagon::{get_active_tiles_coords, ConfigError, Grid, LineFamily};

fn error_of(r: Result<Grid, ConfigError>) -> Option<ConfigError> {
    match r {
        Ok(_) => None,
        Err(e) => Some(e),
    }
}

fn family(starts: &[(usize, usize)], step: (isize, isize)) -> LineFamily {
    LineFamily { starts: starts.to_vec(), step }
}

#[test]
fn hexagon_pattern_has_the_expected_rows() {
    let t = true;
    let f = false;
    let expected = vec![
        vec![f, f, t, f, t, f, t, f, f],
        vec![f, t, f, t, f, t, f, t, f],
        vec![t, f, t, f, t, f, t, f, t],
        vec![f, t, f, t, f, t, f, t, f],
        vec![f, f, t, f, t, f, t, f, f],
    ];
    assert_eq!(active_tiles(), expected);
}

#[test]
fn active_coords_of_the_hexagon_are_in_reading_order() {
    let coords = get_active_tiles_coords(&active_tiles());
    let expected: Vec<(usize, usize)> = vec![
        (0, 2), (0, 4), (0, 6),
        (1, 1), (1, 3), (1, 5), (1, 7),
        (2, 0), (2, 2), (2, 4), (2, 6), (2, 8),
        (3, 1), (3, 3), (3, 5), (3, 7),
        (4, 2), (4, 4), (4, 6),
    ];
    assert_eq!(coords, expected);
}

#[test]
fn active_coords_of_a_small_pattern() {
    let pattern = vec![vec![true, false, true], vec![false, true, true]];
    assert_eq!(get_active_tiles_coords(&pattern), vec![(0, 0), (0, 2), (1, 1), (1, 2)]);
}

#[test]
fn active_coords_of_empty_patterns() {
    let none: Vec<Vec<bool>> = Vec::new();
    assert_eq!(get_active_tiles_coords(&none), Vec::<(usize, usize)>::new());
    let no_columns: Vec<Vec<bool>> = vec![Vec::new(), Vec::new()];
    assert_eq!(get_active_tiles_coords(&no_columns), Vec::<(usize, usize)>::new());
    let all_off = vec![vec![false, false], vec![false, false]];
    assert_eq!(get_active_tiles_coords(&all_off), Vec::<(usize, usize)>::new());
}

#[test]
fn rectangular_patterns_are_told_from_ragged_ones() {
    assert!(is_rectangular(&Vec::new()));
    assert!(is_rectangular(&vec![vec![true, false], vec![false, false]]));
    assert!(!is_rectangular(&vec![vec![true, false], vec![false]]));
    assert!(!is_rectangular(&vec![vec![], vec![false]]));
}

#[test]
fn positions_outside_the_pattern_are_not_active() {
    let pattern = active_tiles();
    assert!(is_active(&pattern, 0, 2));
    assert!(!is_active(&pattern, 0, 0));
    assert!(!is_active(&pattern, 5, 2));
    assert!(!is_active(&pattern, 2, 9));
    assert!(!is_active(&pattern, usize::MAX, usize::MAX));
}

#[test]
fn walk_stops_at_the_edge_of_the_rectangle() {
    let pattern = active_tiles();
    assert_eq!(walk_line(&pattern, (0, 2), (1, -1)), vec![(0, 2), (1, 1), (2, 0)]);
    assert_eq!(
        walk_line(&pattern, (2, 0), (0, 2)),
        vec![(2, 0), (2, 2), (2, 4), (2, 6), (2, 8)]
    );
    assert_eq!(
        walk_line(&pattern, (0, 6), (1, -1)),
        vec![(0, 6), (1, 5), (2, 4), (3, 3), (4, 2)]
    );
}

#[test]
fn walk_stops_at_the_first_inactive_position() {
    let pattern = active_tiles();
    assert_eq!(walk_line(&pattern, (0, 2), (0, 2)), vec![(0, 2), (0, 4), (0, 6)]);
    assert_eq!(walk_line(&pattern, (0, 2), (0, 1)), vec![(0, 2)]);
    assert_eq!(walk_line(&pattern, (0, 2), (1, 1)), vec![(0, 2), (1, 3), (2, 4), (3, 5), (4, 6)]);
    assert_eq!(walk_line(&pattern, (4, 6), (-1, -1)), vec![(4, 6), (3, 5), (2, 4), (1, 3), (0, 2)]);
}

#[test]
fn walk_from_an_inactive_start_or_with_no_step_is_empty() {
    let pattern = active_tiles();
    assert_eq!(walk_line(&pattern, (0, 0), (0, 2)), Vec::<(usize, usize)>::new());
    assert_eq!(walk_line(&pattern, (7, 7), (1, 0)), Vec::<(usize, usize)>::new());
    assert_eq!(walk_line(&pattern, (0, 2), (0, 0)), Vec::<(usize, usize)>::new());
}

#[test]
fn walk_with_a_huge_step_does_not_overflow() {
    let pattern = active_tiles();
    assert_eq!(walk_line(&pattern, (0, 2), (isize::MAX, isize::MAX)), vec![(0, 2)]);
    assert_eq!(walk_line(&pattern, (0, 2), (isize::MIN, 0)), vec![(0, 2)]);
}

#[test]
fn find_cell_gives_the_index_in_reading_order() {
    let coords = get_active_tiles_coords(&active_tiles());
    assert_eq!(find_cell(&coords, (0, 2)), 0);
    assert_eq!(find_cell(&coords, (2, 4)), 9);
    assert_eq!(find_cell(&coords, (4, 6)), 18);
}

#[test]
fn tiling_needs_every_cell_exactly_once() {
    assert!(is_tiled(4, &vec![vec![0, 1], vec![3, 2]]));
    assert!(!is_tiled(4, &vec![vec![0, 1], vec![3]]));
    assert!(!is_tiled(4, &vec![vec![0, 1], vec![1, 2, 3]]));
    assert!(!is_tiled(4, &vec![vec![0, 1, 2, 3, 0]]));
    assert!(is_tiled(0, &Vec::new()));
    assert!(!is_tiled(1, &Vec::new()));
}

#[test]
fn magic_hexagon_grid_has_nineteen_cells_and_fifteen_lines() {
    let grid = hexagon_grid(MAGIC_SUM).ok().unwrap();
    assert_eq!(grid.cell_count(), 19);
    assert_eq!(grid.line_count(), 15);
    assert_eq!(grid.target(), 38);
    assert_eq!(grid.positions().len(), 19);
    assert_eq!(grid.positions()[7], (2, 0));
}

#[test]
fn magic_hexagon_lines_run_in_walk_order() {
    let grid = hexagon_grid(MAGIC_SUM).ok().unwrap();
    // down to the left
    assert_eq!(grid.line(0), &vec![0, 3, 7]);
    assert_eq!(grid.line(1), &vec![1, 4, 8, 12]);
    assert_eq!(grid.line(2), &vec![2, 5, 9, 13, 16]);
    assert_eq!(grid.line(3), &vec![6, 10, 14, 17]);
    assert_eq!(grid.line(4), &vec![11, 15, 18]);
    // down to the right
    assert_eq!(grid.line(5), &vec![7, 12, 16]);
    assert_eq!(grid.line(6), &vec![3, 8, 13, 17]);
    assert_eq!(grid.line(7), &vec![0, 4, 9, 14, 18]);
    assert_eq!(grid.line(8), &vec![1, 5, 10, 15]);
    assert_eq!(grid.line(9), &vec![2, 6, 11]);
    // the rows
    assert_eq!(grid.line(10), &vec![0, 1, 2]);
    assert_eq!(grid.line(11), &vec![3, 4, 5, 6]);
    assert_eq!(grid.line(12), &vec![7, 8, 9, 10, 11]);
    assert_eq!(grid.line(13), &vec![12, 13, 14, 15]);
    assert_eq!(grid.line(14), &vec![16, 17, 18]);
}

#[test]
fn every_cell_lies_on_one_line_of_each_family() {
    let grid = hexagon_grid(MAGIC_SUM).ok().unwrap();
    for family in 0..3 {
        let mut seen = vec![0usize; 19];
        for l in family * 5..family * 5 + 5 {
            for &c in grid.line(l) {
                seen[c] += 1;
            }
        }
        assert_eq!(seen, vec![1usize; 19]);
    }
}

#[test]
fn cell_at_maps_positions_to_indices() {
    let grid = hexagon_grid(MAGIC_SUM).ok().unwrap();
    assert_eq!(grid.cell_at(0, 2), Some(0));
    assert_eq!(grid.cell_at(2, 8), Some(11));
    assert_eq!(grid.cell_at(4, 6), Some(18));
    assert_eq!(grid.cell_at(0, 0), None);
    assert_eq!(grid.cell_at(9, 9), None);
}

#[test]
fn ragged_pattern_is_rejected() {
    let r = Grid::new(vec![vec![true, true], vec![true]], Vec::new(), 3);
    assert_eq!(error_of(r), Some(ConfigError::Ragged));
}

#[test]
fn more_than_255_cells_are_rejected() {
    let r = Grid::new(vec![vec![true; 16]; 16], Vec::new(), 3);
    assert_eq!(error_of(r), Some(ConfigError::TooManyCells));
    let r = Grid::new(vec![vec![true; 17]; 15], Vec::new(), 3);
    assert!(r.is_ok());
    assert_eq!(r.ok().unwrap().cell_count(), 255);
}

#[test]
fn zero_step_is_rejected() {
    let r = Grid::new(vec![vec![true, true, true]], vec![family(&[(0, 0)], (0, 0))], 6);
    assert_eq!(error_of(r), Some(ConfigError::ZeroStep));
}

#[test]
fn start_outside_the_cells_is_rejected() {
    let starts = [(0, 0), (1, 0), (2, 0), (3, 0), (4, 0)];
    let r = Grid::new(active_tiles(), vec![family(&starts, (0, 2))], 38);
    assert_eq!(error_of(r), Some(ConfigError::BadStart));
    let r = Grid::new(vec![vec![true, true, true]], vec![family(&[(1, 0)], (0, 1))], 6);
    assert_eq!(error_of(r), Some(ConfigError::BadStart));
}

#[test]
fn family_that_leaves_a_cell_out_is_rejected() {
    let starts = [(0, 2), (1, 1), (2, 0), (3, 1)];
    let r = Grid::new(active_tiles(), vec![family(&starts, (0, 2))], 38);
    assert_eq!(error_of(r), Some(ConfigError::NotTiled));
    let r = Grid::new(vec![vec![true, true, true]], vec![family(&[(0, 1)], (0, 1))], 6);
    assert_eq!(error_of(r), Some(ConfigError::NotTiled));
}

#[test]
fn family_that_takes_a_cell_twice_is_rejected() {
    let starts = [(0, 2), (1, 1), (2, 0), (3, 1), (4, 2), (4, 4)];
    let r = Grid::new(active_tiles(), vec![family(&starts, (0, 2))], 38);
    assert_eq!(error_of(r), Some(ConfigError::NotTiled));
    let r = Grid::new(vec![vec![true, true, true]], vec![family(&[(0, 0), (0, 0)], (0, 1))], 6);
    assert_eq!(error_of(r), Some(ConfigError::NotTiled));
}

#[test]
fn first_defective_family_decides_the_error() {
    let line = vec![vec![true, true, true]];
    let families = vec![
        family(&[(0, 0)], (0, 1)),
        family(&[(0, 1)], (0, 1)),
        family(&[(0, 0)], (0, 0)),
    ];
    assert_eq!(error_of(Grid::new(line.clone(), families, 6)), Some(ConfigError::NotTiled));
    let families = vec![family(&[(0, 0)], (0, 1)), family(&[(0, 5)], (0, 0))];
    assert_eq!(error_of(Grid::new(line, families, 6)), Some(ConfigError::ZeroStep));
}

#[test]
fn family_without_lines_is_accepted() {
    let r = Grid::new(vec![vec![true, true, true]], vec![family(&[], (0, 1))], 6);
    assert!(r.is_ok());
    assert_eq!(r.ok().unwrap().line_count(), 0);
}

#[test]
fn hexagon_families_are_the_three_directions() {
    let families = line_families();
    assert_eq!(families.len(), 3);
    assert_eq!(families[0].step, (1, -1));
    assert_eq!(families[1].step, (1, 1));
    assert_eq!(families[2].step, (0, 2));
    assert_eq!(families[0].starts, vec![(0, 2), (0, 4), (0, 6), (1, 7), (2, 8)]);
    assert_eq!(families[1].starts, vec![(2, 0), (1, 1), (0, 2), (0, 4), (0, 6)]);
    assert_eq!(families[2].starts, vec![(0, 2), (1, 1), (2, 0), (3, 1), (4, 2)]);
}

#[test]
fn lines_are_tagged_with_their_family() {
    let grid = hexagon_grid(MAGIC_SUM).ok().unwrap();
    for l in 0..15 {
        assert_eq!(grid.line_family(l), l / 5);
    }
    assert_eq!(grid.family_step(grid.line_family(3)), (1, -1));
    assert_eq!(grid.family_step(grid.line_family(7)), (1, 1));
    assert_eq!(grid.family_step(grid.line_family(12)), (0, 2));
}

#[test]
fn families_without_lines_are_skipped_in_the_tags() {
    let pattern = vec![vec![true, true], vec![true, true]];
    let families = vec![
        family(&[], (1, 1)),
        family(&[(0, 0), (1, 0)], (0, 1)),
        family(&[], (0, 1)),
        family(&[(0, 0), (0, 1)], (1, 0)),
    ];
    let grid = Grid::new(pattern, families, 5).ok().unwrap();
    assert_eq!(grid.line_count(), 4);
    assert_eq!(grid.line_family(0), 1);
    assert_eq!(grid.line_family(1), 1);
    assert_eq!(grid.line_family(2), 3);
    assert_eq!(grid.line_family(3), 3);
    assert_eq!(grid.line(2), &vec![0, 2]);
    assert_eq!(grid.line(3), &vec![1, 3]);
}
