//! The magic hexagon of order three: nineteen cells in rows of three,
//! four, five, four and three, with fifteen lines in three directions that
//! all add up to 38.

use vstd::prelude::*;
use crate::grid::{config_error, ConfigError, Grid, LineFamily};
use crate::pattern::rows;

verus! {

/// The number of rows of the rectangle that holds the hexagon.
pub const H: usize = 5;

/// The number of columns of the rectangle that holds the hexagon.
pub const W: usize = 9;

/// The sum of every line of the magic hexagon.
pub const MAGIC_SUM: u32 = 38;

/// Whether the position in row `y` and column `x` is a cell of the
/// hexagon. Neighbours in a row lie two columns apart, and each row is
/// shifted by one column against the next.
pub open spec fn hexagon_cell(y: int, x: int) -> bool {
    let d = if y < 2 {
        2 - y
    } else {
        y - 2
    };
    0 <= y < 5 && d <= x <= 8 - d && (x + y) % 2 == 0
}

/// The pattern of the hexagon as the contracts read it.
pub open spec fn hexagon_pattern() -> Seq<Seq<bool>> {
    Seq::new(5, |y: int| Seq::new(9, |x: int| hexagon_cell(y, x)))
}

/// The starts of the lines that run down to the left, down to the right
/// and along the rows.
pub open spec fn hexagon_starts() -> Seq<Seq<(usize, usize)>> {
    seq![
        seq![(0usize, 2usize), (0usize, 4usize), (0usize, 6usize), (1usize, 7usize), (2usize, 8usize)],
        seq![(2usize, 0usize), (1usize, 1usize), (0usize, 2usize), (0usize, 4usize), (0usize, 6usize)],
        seq![(0usize, 2usize), (1usize, 1usize), (2usize, 0usize), (3usize, 1usize), (4usize, 2usize)],
    ]
}

/// The steps of the three directions.
pub open spec fn hexagon_steps() -> Seq<(isize, isize)> {
    seq![(1isize, -1isize), (1isize, 1isize), (0isize, 2isize)]
}

/// `families` are the three line families of the hexagon.
pub open spec fn hexagon_families(families: Seq<LineFamily>) -> bool {
    &&& families.len() == 3
    &&& forall|f: int|
        0 <= f < 3 ==> (#[trigger] families[f]).starts@ == hexagon_starts()[f] && families[f].step
            == hexagon_steps()[f]
}

/// The pattern of the hexagon: five rows of nine flags.
pub fn active_tiles() -> (pattern: Vec<Vec<bool>>)
    ensures
        rows(pattern@) == hexagon_pattern(),
{
    let mut pattern: Vec<Vec<bool>> = Vec::new();
    let mut y: usize = 0;
    while y < H
        invariant
            y <= 5,
            pattern@.len() == y,
            forall|i: int| 0 <= i < y ==> (#[trigger] pattern@[i])@ == hexagon_pattern()[i],
        decreases 5 - y,
    {
        let d: usize = if y < 2 {
            2 - y
        } else {
            y - 2
        };
        let mut row: Vec<bool> = Vec::new();
        let mut x: usize = 0;
        while x < W
            invariant
                y < 5,
                d == (if y < 2 {
                    2 - y
                } else {
                    y - 2
                }),
                x <= 9,
                row@.len() == x,
                forall|j: int| 0 <= j < x ==> #[trigger] row@[j] == hexagon_cell(y as int, j),
            decreases 9 - x,
        {
            row.push(d <= x && x <= 8 - d && (x + y) % 2 == 0);
            x += 1;
        }
        proof {
            assert(row@ =~= hexagon_pattern()[y as int]);
        }
        pattern.push(row);
        y += 1;
    }
    proof {
        assert(rows(pattern@) =~= hexagon_pattern());
    }
    pattern
}

/// One family of five lines.
fn family(starts: [(usize, usize); 5], step: (isize, isize)) -> (f: LineFamily)
    ensures
        f.starts@ == starts@,
        f.step == step,
{
    let mut list: Vec<(usize, usize)> = Vec::new();
    let mut i: usize = 0;
    while i < 5
        invariant
            i <= 5,
            list@ == starts@.take(i as int),
        decreases 5 - i,
    {
        list.push(starts[i]);
        proof {
            assert(list@ =~= starts@.take(i + 1));
        }
        i += 1;
    }
    proof {
        assert(starts@.take(5) =~= starts@);
    }
    LineFamily { starts: list, step }
}

/// The three line families of the hexagon: the lines that run down to the
/// left, those that run down to the right, and the rows.
pub fn line_families() -> (families: Vec<LineFamily>)
    ensures
        hexagon_families(families@),
{
    let mut families: Vec<LineFamily> = Vec::new();
    let left = family([(0, 2), (0, 4), (0, 6), (1, 7), (2, 8)], (1, -1));
    let right = family([(2, 0), (1, 1), (0, 2), (0, 4), (0, 6)], (1, 1));
    let across = family([(0, 2), (1, 1), (2, 0), (3, 1), (4, 2)], (0, 2));
    proof {
        assert(left.starts@ =~= hexagon_starts()[0]);
        assert(right.starts@ =~= hexagon_starts()[1]);
        assert(across.starts@ =~= hexagon_starts()[2]);
    }
    families.push(left);
    families.push(right);
    families.push(across);
    families
}

/// The grid of the hexagon with the target sum `target`; the magic hexagon
/// has `MAGIC_SUM`.
pub fn hexagon_grid(target: u32) -> (r: Result<Grid, ConfigError>)
    ensures
        match r {
            Ok(g) => {
                &&& g.wf()
                &&& g.pattern() == hexagon_pattern()
                &&& hexagon_families(g.families())
                &&& g.board().target == target
            },
            Err(e) => exists|families: Seq<LineFamily>|
                hexagon_families(families) && config_error(hexagon_pattern(), families) == Some(e),
        },
{
    let pattern = active_tiles();
    let families = line_families();
    Grid::new(pattern, families, target)
}

} // verus!
