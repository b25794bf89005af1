//! The grid descriptor: the pattern of cells, the families of lines laid
//! through it, and the sum that every line has to reach.

use vstd::prelude::*;
use crate::lines::{walk, walk_line};
use crate::model::Board;
use crate::pattern::{
    active, active_coords, get_active_tiles_coords, is_active, is_rectangular, lists_cells,
    rectangular, rows, width,
};
use crate::tiling::{
    cell_index, cells_along, cells_of, find_cell, is_tiled, lemma_apart_no_duplicates,
    lemma_cells_differ, lines_of, locate, place, tiled, within,
};

verus! {

/// The lines of one direction: where each of them starts, and the step
/// `(rows, columns)` that leads from one of its cells to the next.
pub struct LineFamily {
    pub starts: Vec<(usize, usize)>,
    pub step: (isize, isize),
}

/// Why a configuration is no grid.
#[derive(Clone, Copy, Debug, PartialEq, Eq, Structural)]
pub enum ConfigError {
    /// The rows of the pattern differ in length.
    Ragged,
    /// The pattern has more positions than can be listed.
    TooLarge,
    /// The pattern has more than 255 cells, so that their numbers do not
    /// fit in a byte.
    TooManyCells,
    /// A family has the step `(0, 0)`.
    ZeroStep,
    /// A line starts at a position that is no cell.
    BadStart,
    /// The lines of a family do not tile the grid: some cell lies on none
    /// of them, or on more than one.
    NotTiled,
}

/// A grid of cells with the lines that have to add up to the target.
pub struct Grid {
    pattern: Vec<Vec<bool>>,
    families: Vec<LineFamily>,
    coords: Vec<(usize, usize)>,
    lines: Vec<Vec<usize>>,
    target: u32,
}

/// The cells of the line from `start` in the direction `step`, in walk
/// order.
pub open spec fn line_from(p: Seq<Seq<bool>>, start: (usize, usize), step: (isize, isize)) -> Seq<
    int,
> {
    cells_along(
        active_coords(p),
        walk(p, start.0 as int, start.1 as int, step.0 as int, step.1 as int),
    )
}

/// The lines of one family, in the order of their starts.
pub open spec fn family_lines(p: Seq<Seq<bool>>, family: LineFamily) -> Seq<Seq<int>> {
    Seq::new(family.starts@.len(), |s: int| line_from(p, family.starts@[s], family.step))
}

/// The lines of the first `f` families, family by family.
pub open spec fn lines_upto(p: Seq<Seq<bool>>, families: Seq<LineFamily>, f: int) -> Seq<Seq<int>>
    decreases f,
{
    if f <= 0 {
        Seq::empty()
    } else {
        lines_upto(p, families, f - 1) + family_lines(p, families[f - 1])
    }
}

/// With more families come no fewer lines.
pub proof fn lemma_lines_upto_grow(p: Seq<Seq<bool>>, families: Seq<LineFamily>, f: int, g: int)
    requires
        0 <= f <= g,
    ensures
        lines_upto(p, families, f).len() <= lines_upto(p, families, g).len(),
    decreases g - f,
{
    if f < g {
        lemma_lines_upto_grow(p, families, f, g - 1);
    }
}

/// Every line of the configuration.
pub open spec fn all_lines(p: Seq<Seq<bool>>, families: Seq<LineFamily>) -> Seq<Seq<int>> {
    lines_upto(p, families, families.len() as int)
}

/// What is wrong with one family, if anything: first its step, next its
/// starts, last the way its lines lie on the grid. A family without lines
/// has nothing to tile.
pub open spec fn family_defect(p: Seq<Seq<bool>>, family: LineFamily) -> Option<ConfigError> {
    if family.step.0 == 0 && family.step.1 == 0 {
        Some(ConfigError::ZeroStep)
    } else if exists|s: int|
        0 <= s < family.starts@.len() && !active(
            p,
            (#[trigger] family.starts@[s]).0 as int,
            family.starts@[s].1 as int,
        ) {
        Some(ConfigError::BadStart)
    } else if family.starts@.len() > 0 && !tiled(active_coords(p).len(), family_lines(p, family)) {
        Some(ConfigError::NotTiled)
    } else {
        None
    }
}

/// The defect of the first family from `from` on that has one.
pub open spec fn first_defect(p: Seq<Seq<bool>>, families: Seq<LineFamily>, from: int) -> Option<
    ConfigError,
>
    decreases families.len() - from,
{
    if from < 0 || from >= families.len() {
        None
    } else {
        match family_defect(p, families[from]) {
            Some(e) => Some(e),
            None => first_defect(p, families, from + 1),
        }
    }
}

/// What is wrong with a configuration, if anything: first the shape and
/// size of the pattern, next the number of cells, last the families in
/// their order.
pub open spec fn config_error(p: Seq<Seq<bool>>, families: Seq<LineFamily>) -> Option<
    ConfigError,
> {
    if !rectangular(p) {
        Some(ConfigError::Ragged)
    } else if p.len() * width(p) * 16 > isize::MAX {
        Some(ConfigError::TooLarge)
    } else if active_coords(p).len() > 255 {
        Some(ConfigError::TooManyCells)
    } else {
        first_defect(p, families, 0)
    }
}

/// Where no family from `from` on has a defect, the family `f` has none.
pub proof fn lemma_no_defect(p: Seq<Seq<bool>>, families: Seq<LineFamily>, from: int, f: int)
    requires
        0 <= from <= f < families.len(),
        first_defect(p, families, from) is None,
    ensures
        family_defect(p, families[f]) is None,
    decreases f - from,
{
    if from < f {
        lemma_no_defect(p, families, from + 1, f);
    }
}

/// Walks the lines of one family and tests that they tile the grid.
fn check_family(pattern: &Vec<Vec<bool>>, coords: &Vec<(usize, usize)>, family: &LineFamily) -> (r:
    Result<Vec<Vec<usize>>, ConfigError>)
    requires
        coords@ == active_coords(rows(pattern@)),
        lists_cells(rows(pattern@), coords@),
    ensures
        match r {
            Ok(lines) => {
                &&& family_defect(rows(pattern@), *family) is None
                &&& lines_of(lines@) == family_lines(rows(pattern@), *family)
                &&& within(coords@.len(), lines_of(lines@))
                &&& forall|l: int|
                    0 <= l < lines@.len() ==> (#[trigger] lines_of(lines@)[l]).no_duplicates()
            },
            Err(e) => family_defect(rows(pattern@), *family) == Some(e),
        },
{
    let ghost p = rows(pattern@);
    if family.step.0 == 0 && family.step.1 == 0 {
        return Err(ConfigError::ZeroStep);
    }
    let count: usize = family.starts.len();
    let mut s: usize = 0;
    while s < count
        invariant
            p == rows(pattern@),
            family.step.0 != 0 || family.step.1 != 0,
            count == family.starts@.len(),
            s <= count,
            forall|i: int|
                0 <= i < s ==> active(
                    p,
                    (#[trigger] family.starts@[i]).0 as int,
                    family.starts@[i].1 as int,
                ),
        decreases count - s,
    {
        let start = family.starts[s];
        if !is_active(pattern, start.0, start.1) {
            assert(!active(p, family.starts@[s as int].0 as int, family.starts@[s as int].1 as int));
            return Err(ConfigError::BadStart);
        }
        s += 1;
    }
    let mut lines: Vec<Vec<usize>> = Vec::new();
    let mut s: usize = 0;
    while s < count
        invariant
            p == rows(pattern@),
            coords@ == active_coords(p),
            lists_cells(p, coords@),
            count == family.starts@.len(),
            s <= count,
            lines@.len() == s,
            family.step.0 != 0 || family.step.1 != 0,
            forall|i: int|
                0 <= i < count ==> active(
                    p,
                    (#[trigger] family.starts@[i]).0 as int,
                    family.starts@[i].1 as int,
                ),
            forall|i: int|
                0 <= i < s ==> cells_of((#[trigger] lines@[i])@) == line_from(
                    p,
                    family.starts@[i],
                    family.step,
                ),
            forall|i: int, k: int|
                0 <= i < s && 0 <= k < lines@[i]@.len() ==> (#[trigger] lines@[i]@[k])
                    < coords@.len(),
        decreases count - s,
    {
        let start = family.starts[s];
        let line = walk_line(pattern, start, family.step);
        let cells = locate(
            coords,
            &line,
            Ghost(p),
            Ghost((start.0 as int, start.1 as int, family.step.0 as int, family.step.1 as int)),
        );
        lines.push(cells);
        s += 1;
    }
    proof {
        assert(lines_of(lines@) =~= family_lines(p, *family));
        assert forall|l: int, k: int| place(lines_of(lines@), l, k) implies 0 <= #[trigger] lines_of(
            lines@,
        )[l][k] < coords@.len() by {
            assert(lines_of(lines@)[l][k] == lines@[l]@[k] as int);
        }
    }
    if count == 0 {
        return Ok(lines);
    }
    if !is_tiled(coords.len(), &lines) {
        return Err(ConfigError::NotTiled);
    }
    proof {
        assert forall|l: int| 0 <= l < lines@.len() implies (#[trigger] lines_of(
            lines@,
        )[l]).no_duplicates() by {
            lemma_apart_no_duplicates(lines_of(lines@), l);
        }
    }
    Ok(lines)
}

impl Grid {
    /// The pattern of cells, row by row.
    pub closed spec fn pattern(&self) -> Seq<Seq<bool>> {
        rows(self.pattern@)
    }

    /// The families of lines that the grid was made with.
    pub closed spec fn families(&self) -> Seq<LineFamily> {
        self.families@
    }

    /// The position of each cell, by the cell's index.
    pub closed spec fn coords(&self) -> Seq<(usize, usize)> {
        self.coords@
    }

    /// What a search reads of this grid.
    pub closed spec fn board(&self) -> Board {
        Board {
            cells: self.coords@.len(),
            lines: lines_of(self.lines@),
            target: self.target as int,
        }
    }

    /// The invariant of a grid descriptor: its configuration has no defect,
    /// its cells are the cells of the pattern in reading order, and its
    /// lines are the lines of its families.
    pub closed spec fn wf(&self) -> bool {
        &&& config_error(self.pattern(), self.families@) is None
        &&& self.coords@ == active_coords(self.pattern())
        &&& lists_cells(self.pattern(), self.coords@)
        &&& lines_of(self.lines@) == all_lines(self.pattern(), self.families@)
        &&& self.board().valid()
    }

    /// What a well-formed grid is made of.
    pub proof fn lemma_wf(&self)
        requires
            self.wf(),
        ensures
            config_error(self.pattern(), self.families()) is None,
            self.coords() == active_coords(self.pattern()),
            lists_cells(self.pattern(), self.coords()),
            self.board().cells == self.coords().len(),
            self.board().lines == all_lines(self.pattern(), self.families()),
            self.board().valid(),
    {
    }

    /// In a well-formed grid every family has a step that leads somewhere
    /// and starts its lines on cells, and where it has lines at all, each
    /// cell of the grid lies on exactly one of them.
    pub proof fn lemma_family(&self, f: int)
        requires
            self.wf(),
            0 <= f < self.families().len(),
        ensures
            self.families()[f].step.0 != 0 || self.families()[f].step.1 != 0,
            forall|s: int|
                0 <= s < self.families()[f].starts@.len() ==> active(
                    self.pattern(),
                    (#[trigger] self.families()[f].starts@[s]).0 as int,
                    self.families()[f].starts@[s].1 as int,
                ),
            self.families()[f].starts@.len() > 0 ==> tiled(
                self.board().cells,
                family_lines(self.pattern(), self.families()[f]),
            ),
    {
        lemma_no_defect(self.pattern(), self.families@, 0, f);
    }

    /// Once a grid is well formed, so is its board.
    pub proof fn lemma_board_valid(&self)
        requires
            self.wf(),
        ensures
            self.board().valid(),
    {
    }

    /// The grid with the given pattern of cells, families of lines and
    /// target sum, or what is wrong with them.
    pub fn new(pattern: Vec<Vec<bool>>, families: Vec<LineFamily>, target: u32) -> (r: Result<
        Grid,
        ConfigError,
    >)
        ensures
            match r {
                Ok(g) => {
                    &&& config_error(rows(pattern@), families@) is None
                    &&& g.wf()
                    &&& g.pattern() == rows(pattern@)
                    &&& g.families() == families@
                    &&& g.board().target == target
                },
                Err(e) => config_error(rows(pattern@), families@) == Some(e),
            },
    {
        let ghost p = rows(pattern@);
        if !is_rectangular(&pattern) {
            return Err(ConfigError::Ragged);
        }
        let h: usize = pattern.len();
        let w: usize = if h == 0 {
            0
        } else {
            pattern[0].len()
        };
        let fits: bool = match h.checked_mul(w) {
            Some(positions) => match positions.checked_mul(16) {
                Some(bytes) => bytes <= isize::MAX as usize,
                None => false,
            },
            None => false,
        };
        if !fits {
            return Err(ConfigError::TooLarge);
        }
        let coords = get_active_tiles_coords(&pattern);
        if coords.len() > 255 {
            return Err(ConfigError::TooManyCells);
        }
        let mut lines: Vec<Vec<usize>> = Vec::new();
        let mut f: usize = 0;
        proof {
            assert(lines_of(lines@) =~= lines_upto(p, families@, 0));
        }
        while f < families.len()
            invariant
                p == rows(pattern@),
                coords@ == active_coords(p),
                lists_cells(p, coords@),
                rectangular(p),
                p.len() * width(p) * 16 <= isize::MAX,
                coords@.len() <= 255,
                f <= families@.len(),
                first_defect(p, families@, 0) == first_defect(p, families@, f as int),
                lines_of(lines@) == lines_upto(p, families@, f as int),
                within(coords@.len(), lines_of(lines@)),
                forall|l: int|
                    0 <= l < lines@.len() ==> (#[trigger] lines_of(lines@)[l]).no_duplicates(),
            decreases families@.len() - f,
        {
            match check_family(&pattern, &coords, &families[f]) {
                Err(e) => {
                    assert(first_defect(p, families@, f as int) == Some(e));
                    return Err(e);
                },
                Ok(found) => {
                    assert(first_defect(p, families@, f as int) == first_defect(
                        p,
                        families@,
                        f + 1,
                    ));
                    let mut more = found;
                    let ghost had = lines@;
                    let ghost got = more@;
                    lines.append(&mut more);
                    proof {
                        assert(lines_of(lines@) =~= lines_of(had) + lines_of(got));
                        assert forall|l: int, k: int|
                            place(lines_of(lines@), l, k) implies 0 <= #[trigger] lines_of(
                            lines@,
                        )[l][k] < coords@.len() by {
                            if l < had.len() {
                                assert(place(lines_of(had), l, k));
                                assert(lines_of(lines@)[l] == lines_of(had)[l]);
                            } else {
                                assert(place(lines_of(got), l - had.len(), k));
                                assert(lines_of(lines@)[l] == lines_of(got)[l - had.len()]);
                            }
                        }
                        assert forall|l: int| 0 <= l < lines@.len() implies (#[trigger] lines_of(
                            lines@,
                        )[l]).no_duplicates() by {
                            if l < had.len() {
                                assert(lines_of(lines@)[l] == lines_of(had)[l]);
                            } else {
                                assert(lines_of(lines@)[l] == lines_of(got)[l - had.len()]);
                            }
                        }
                    }
                },
            }
            f += 1;
        }
        let g = Grid { pattern, families, coords, lines, target };
        proof {
            assert forall|l: int| 0 <= l < g.board().lines.len() implies g.board().line_valid(
                #[trigger] g.board().lines[l],
            ) by {
                let line = g.board().lines[l];
                assert(line.no_duplicates());
                assert forall|k: int| 0 <= k < line.len() implies 0 <= #[trigger] line[k]
                    < g.board().cells by {
                    assert(place(g.board().lines, l, k));
                }
            }
        }
        Ok(g)
    }

    /// The number of cells, which is also the largest number to place.
    pub fn cell_count(&self) -> (n: usize)
        requires
            self.wf(),
        ensures
            n == self.board().cells,
            n <= 255,
    {
        self.coords.len()
    }

    /// The number of lines.
    pub fn line_count(&self) -> (n: usize)
        ensures
            n == self.board().lines.len(),
    {
        self.lines.len()
    }

    /// The sum that every line has to reach.
    pub fn target(&self) -> (t: u32)
        ensures
            t == self.board().target,
    {
        self.target
    }

    /// The cells of line `l` in walk order.
    pub fn line(&self, l: usize) -> (cells: &Vec<usize>)
        requires
            l < self.board().lines.len(),
        ensures
            cells_of(cells@) == self.board().lines[l as int],
    {
        &self.lines[l]
    }

    /// The direction family of line `l`, as an index into the families that
    /// the grid was made with: the families before it have fewer than
    /// `l + 1` lines between them, and with it they have more than `l`.
    pub fn line_family(&self, l: usize) -> (f: usize)
        requires
            self.wf(),
            l < self.board().lines.len(),
        ensures
            f < self.families().len(),
            lines_upto(self.pattern(), self.families(), f as int).len() <= l < lines_upto(
                self.pattern(),
                self.families(),
                f + 1,
            ).len(),
    {
        let ghost p = self.pattern();
        let ghost fams = self.families@;
        let mut f: usize = 0;
        let mut before: usize = 0;
        loop
            invariant
                p == self.pattern(),
                fams == self.families@,
                f <= fams.len(),
                before == lines_upto(p, fams, f as int).len(),
                before <= l,
                l < lines_upto(p, fams, fams.len() as int).len(),
            decreases fams.len() - f,
        {
            assert(f < fams.len());
            assert(self.families.len() == fams.len());
            let count: usize = self.families[f].starts.len();
            assert(lines_upto(p, fams, f + 1) == lines_upto(p, fams, f as int) + family_lines(
                p,
                fams[f as int],
            ));
            if l - before < count {
                return f;
            }
            proof {
                lemma_lines_upto_grow(p, fams, f + 1, fams.len() as int);
            }
            before = before + count;
            f += 1;
        }
    }

    /// The step of the family with index `f`.
    pub fn family_step(&self, f: usize) -> (step: (isize, isize))
        requires
            f < self.families().len(),
        ensures
            step == self.families()[f as int].step,
    {
        self.families[f].step
    }

    /// The positions of the cells in reading order: the cell with index
    /// `i` lies at the `i`-th of them.
    pub fn positions(&self) -> (coords: &Vec<(usize, usize)>)
        ensures
            coords@ == self.coords(),
    {
        &self.coords
    }

    /// The index of the cell at row `y` and column `x`, if there is a cell.
    pub open spec fn cell_of(&self, y: int, x: int) -> Option<int> {
        if active(self.pattern(), y, x) {
            Some(cell_index(self.coords(), (y, x)))
        } else {
            None
        }
    }

    /// The index of the cell at row `y` and column `x`, if there is a cell.
    pub fn cell_at(&self, y: usize, x: usize) -> (r: Option<usize>)
        requires
            self.wf(),
        ensures
            match r {
                Some(c) => self.cell_of(y as int, x as int) == Some(c as int) && c
                    < self.board().cells && self.coords()[c as int] == (y, x),
                None => self.cell_of(y as int, x as int) is None,
            },
    {
        if is_active(&self.pattern, y, x) {
            let c: usize = find_cell(&self.coords, (y, x));
            proof {
                let i = self.coords@.index_of((y, x));
                assert(0 <= i < self.coords@.len() && self.coords@[i] == (y, x));
                lemma_cells_differ(self.pattern(), self.coords@, i, c as int);
            }
            Some(c)
        } else {
            None
        }
    }
}

} // verus!
