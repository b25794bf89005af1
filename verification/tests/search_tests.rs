use magic_hexagon::hexagon::{hexagon_grid, MAGIC_SUM};
use magic_hexagon::{Grid, LineCheck, LineFamily, Puzzle, Solutions};

const KNOWN: [u8; 19] = [3, 17, 18, 19, 7, 1, 11, 16, 2, 5, 6, 9, 12, 4, 8, 14, 10, 13, 15];

fn single_line(target: u32) -> Grid {
    let family = LineFamily { starts: vec![(0, 0)], step: (0, 1) };
    Grid::new(vec![vec![true, true, true]], vec![family], target).ok().unwrap()
}

fn square(target: u32) -> Grid {
    let across = LineFamily { starts: vec![(0, 0), (1, 0), (2, 0)], step: (0, 1) };
    let down = LineFamily { starts: vec![(0, 0), (0, 1), (0, 2)], step: (1, 0) };
    Grid::new(vec![vec![true; 3]; 3], vec![across, down], target).ok().unwrap()
}

fn free_cells(n: usize) -> Grid {
    Grid::new(vec![vec![true; n]], Vec::new(), 0).ok().unwrap()
}

fn values(p: &Puzzle) -> Vec<u8> {
    let n = p.descriptor().cell_count();
    (0..n).map(|c| p.get(c).unwrap()).collect()
}

fn drain(s: &mut Solutions) -> Vec<Vec<u8>> {
    let mut found = Vec::new();
    while let Some(p) = s.next_puzzle() {
        found.push(values(&p));
    }
    found
}

fn all_solutions(grid: &Grid) -> Vec<Vec<u8>> {
    drain(&mut Puzzle::new(grid).gen_all_puzzles())
}

fn permutations(n: u8) -> Vec<Vec<u8>> {
    fn extend(prefix: &mut Vec<u8>, n: u8, out: &mut Vec<Vec<u8>>) {
        if prefix.len() == n as usize {
            out.push(prefix.clone());
            return;
        }
        for v in 1..=n {
            if !prefix.contains(&v) {
                prefix.push(v);
                extend(prefix, n, out);
                prefix.pop();
            }
        }
    }
    let mut out = Vec::new();
    extend(&mut Vec::new(), n, &mut out);
    out
}

fn line_sums_match(grid: &Grid, solution: &[u8]) -> bool {
    (0..grid.line_count()).all(|l| {
        let sum: u32 = grid.line(l).iter().map(|&c| solution[c] as u32).sum();
        sum == grid.target()
    })
}

#[test]
fn three_cell_line_with_reachable_sum_has_six_solutions() {
    let grid = single_line(6);
    let found = all_solutions(&grid);
    let expected: Vec<Vec<u8>> = vec![
        vec![1, 2, 3],
        vec![1, 3, 2],
        vec![2, 1, 3],
        vec![2, 3, 1],
        vec![3, 1, 2],
        vec![3, 2, 1],
    ];
    assert_eq!(found, expected);
}

#[test]
fn three_cell_line_with_unreachable_sum_has_no_solution() {
    let grid = single_line(5);
    let mut search = Puzzle::new(&grid).gen_all_puzzles();
    assert!(search.next_puzzle().is_none());
    assert!(search.next_puzzle().is_none());
    assert_eq!(search.visited(), 16);
}

#[test]
fn exhausted_search_stays_exhausted() {
    let grid = single_line(6);
    let mut search = Puzzle::new(&grid).gen_all_puzzles();
    assert_eq!(drain(&mut search).len(), 6);
    let seen = search.visited();
    assert_eq!(seen, 16);
    assert!(search.next_puzzle().is_none());
    assert!(search.next_puzzle().is_none());
    assert_eq!(search.visited(), seen);
}

#[test]
fn nothing_is_searched_before_the_first_request() {
    let grid = single_line(6);
    let search = Puzzle::new(&grid).gen_all_puzzles();
    assert_eq!(search.visited(), 0);
}

#[test]
fn first_solution_costs_one_path_only() {
    let grid = single_line(6);
    let mut search = Puzzle::new(&grid).gen_all_puzzles();
    let first = search.next_puzzle().unwrap();
    assert_eq!(values(&first), vec![1, 2, 3]);
    assert_eq!(search.visited(), 4);
    let second = search.next_puzzle().unwrap();
    assert_eq!(values(&second), vec![1, 3, 2]);
    assert_eq!(search.visited(), 6);
}

#[test]
fn reading_one_solution_does_not_walk_the_whole_tree() {
    let grid = free_cells(10);
    let mut search = Puzzle::new(&grid).gen_all_puzzles();
    let first = search.next_puzzle().unwrap();
    assert_eq!(values(&first), vec![1, 2, 3, 4, 5, 6, 7, 8, 9, 10]);
    // eleven assignments on the way down, out of nearly ten million
    assert_eq!(search.visited(), 11);
}

#[test]
fn grid_without_lines_yields_every_permutation_in_order() {
    let grid = free_cells(5);
    let mut search = Puzzle::new(&grid).gen_all_puzzles();
    let found = drain(&mut search);
    assert_eq!(found.len(), 120);
    assert_eq!(found, permutations(5));
    // 1 + 5 + 20 + 60 + 120 + 120
    assert_eq!(search.visited(), 326);
}

#[test]
fn grid_without_cells_has_the_empty_solution() {
    let grid = Grid::new(Vec::new(), Vec::new(), 0).ok().unwrap();
    let mut search = Puzzle::new(&grid).gen_all_puzzles();
    let found = drain(&mut search);
    assert_eq!(found, vec![Vec::<u8>::new()]);
    assert_eq!(search.visited(), 1);
}

#[test]
fn semi_magic_squares_match_generate_and_filter() {
    let grid = square(15);
    let found = all_solutions(&grid);
    let expected: Vec<Vec<u8>> =
        permutations(9).into_iter().filter(|s| line_sums_match(&grid, s)).collect();
    assert_eq!(found.len(), 72);
    assert_eq!(found, expected);
}

#[test]
fn every_solution_is_a_bijection_onto_one_to_n() {
    let grid = square(15);
    for solution in all_solutions(&grid) {
        let mut sorted = solution.clone();
        sorted.sort();
        assert_eq!(sorted, vec![1, 2, 3, 4, 5, 6, 7, 8, 9]);
    }
}

#[test]
fn every_solution_has_every_line_at_the_target() {
    let grid = square(15);
    let mut search = Puzzle::new(&grid).gen_all_puzzles();
    let mut count = 0;
    while let Some(p) = search.next_puzzle() {
        assert!(p.is_complete());
        assert!(p.check_solution());
        for l in 0..grid.line_count() {
            assert_eq!(p.check_line(l), LineCheck::Pass);
        }
        assert!(line_sums_match(&grid, &values(&p)));
        count += 1;
    }
    assert_eq!(count, 72);
}

#[test]
fn solutions_come_in_rising_order_without_repeats() {
    let found = all_solutions(&square(15));
    for pair in found.windows(2) {
        assert!(pair[0] < pair[1]);
    }
}

#[test]
fn two_runs_yield_the_same_sequence() {
    let grid = square(15);
    let first = all_solutions(&grid);
    let second = all_solutions(&grid);
    assert_eq!(first, second);
    let other_grid = square(15);
    assert_eq!(all_solutions(&other_grid), first);
}

#[test]
fn interleaved_runs_do_not_disturb_each_other() {
    let grid = square(15);
    let expected = all_solutions(&grid);
    let mut a = Puzzle::new(&grid).gen_all_puzzles();
    let mut b = Puzzle::new(&grid).gen_all_puzzles();
    let first_a = values(&a.next_puzzle().unwrap());
    let second_a = values(&a.next_puzzle().unwrap());
    let first_b = values(&b.next_puzzle().unwrap());
    assert_eq!(first_a, expected[0]);
    assert_eq!(second_a, expected[1]);
    assert_eq!(first_b, expected[0]);
    let mut rest = vec![first_b];
    rest.extend(drain(&mut b));
    assert_eq!(rest, expected);
}

#[test]
fn unreachable_target_on_the_hexagon_is_pruned_early() {
    let grid = hexagon_grid(1).ok().unwrap();
    let mut search = Puzzle::new(&grid).gen_all_puzzles();
    assert!(search.next_puzzle().is_none());
    // the top row is full after three placements and never adds up to 1:
    // 1 + 19 + 19 * 18 + 19 * 18 * 17 assignments, where 19! is over 10^17
    assert_eq!(search.visited(), 6176);
}

#[test]
fn unreachable_target_on_the_square_yields_nothing() {
    let grid = square(16);
    let mut search = Puzzle::new(&grid).gen_all_puzzles();
    assert!(search.next_puzzle().is_none());
    // three rows of 16 would need the numbers 1 to 9 to add up to 48; every
    // first row is looked at, and far from every filling of the square
    let visited = search.visited();
    assert!(visited >= 1 + 9 + 72 + 504);
    assert!(visited < 362880);
}

#[test]
fn pruned_search_visits_what_generate_and_filter_predicts() {
    // below the root and the 3 + 6 + 6 assignments of the first row, only
    // the first rows that add up to the target are gone into
    let grid = {
        let across = LineFamily { starts: vec![(0, 0), (1, 0)], step: (0, 1) };
        Grid::new(vec![vec![true; 3]; 2], vec![across], 6).ok().unwrap()
    };
    let mut search = Puzzle::new(&grid).gen_all_puzzles();
    assert!(drain(&mut search).is_empty());
    let first_rows = 6 * 5 * 4;
    let passing = permutations(6).into_iter().filter(|s| s[0] + s[1] + s[2] == 6).count() / 6;
    assert_eq!(passing, 6);
    let below_each = 3 + 6 + 6;
    assert_eq!(search.visited(), (1 + 6 + 30 + first_rows + passing * below_each) as u64);
}

#[test]
fn search_from_a_partly_filled_hexagon_finds_the_magic_hexagon() {
    let grid = hexagon_grid(MAGIC_SUM).ok().unwrap();
    let mut seed = Puzzle::new(&grid);
    for cell in 0..7 {
        assert!(seed.place(cell, KNOWN[cell]));
    }
    let mut search = seed.gen_all_puzzles();
    let found = drain(&mut search);
    assert_eq!(found, vec![KNOWN.to_vec()]);
    assert!(search.visited() < 100_000);
}

#[test]
fn search_keeps_numbers_placed_anywhere() {
    let grid = single_line(6);
    let mut seed = Puzzle::new(&grid);
    assert!(seed.place(1, 1));
    let found = drain(&mut seed.gen_all_puzzles());
    assert_eq!(found, vec![vec![2, 1, 3], vec![3, 1, 2]]);
}

#[test]
fn search_from_a_full_puzzle_checks_it() {
    let good = single_line(6);
    let mut seed = Puzzle::new(&good);
    for (cell, v) in [(0, 3u8), (1, 1), (2, 2)] {
        assert!(seed.place(cell, v));
    }
    assert_eq!(drain(&mut seed.gen_all_puzzles()), vec![vec![3, 1, 2]]);
    let bad = single_line(7);
    let mut seed = Puzzle::new(&bad);
    for (cell, v) in [(0, 3u8), (1, 1), (2, 2)] {
        assert!(seed.place(cell, v));
    }
    assert!(seed.gen_all_puzzles().next_puzzle().is_none());
}

#[test]
fn search_from_a_failing_seed_yields_nothing_at_once() {
    let grid = hexagon_grid(MAGIC_SUM).ok().unwrap();
    let mut seed = Puzzle::new(&grid);
    for (cell, v) in [(0, 1u8), (1, 2), (2, 3)] {
        assert!(seed.place(cell, v));
    }
    let mut search = seed.gen_all_puzzles();
    assert!(search.next_puzzle().is_none());
    assert_eq!(search.visited(), 1);
}
