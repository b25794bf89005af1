//! The assignment state: the numbers placed so far and the set of numbers
//! that are taken.

use vstd::prelude::*;
use crate::grid::Grid;
use crate::tiling::cells_of;
use crate::model::{
    blank, complete, holds, lemma_line_len, lemma_line_sum_bound, lemma_line_sum_step, line_check,
    line_filled, line_sum, passes, Board, LineCheck,
};

verus! {

/// A grid together with the numbers placed in its cells so far.
pub struct Puzzle<'a> {
    grid: &'a Grid,
    values: Vec<Option<u8>>,
    used: Vec<bool>,
}

impl<'a> View for Puzzle<'a> {
    type V = Seq<Option<u8>>;

    /// The number in each cell, by the cell's index.
    closed spec fn view(&self) -> Seq<Option<u8>> {
        self.values@
    }
}

impl<'a> Puzzle<'a> {
    /// The grid that this puzzle is laid out on.
    pub closed spec fn grid(&self) -> Grid {
        *self.grid
    }

    /// What the search reads of the grid.
    pub open spec fn board(&self) -> Board {
        self.grid().board()
    }

    /// The invariant of an assignment state: the grid is well formed, the
    /// numbers are admitted by its board, and the set of taken numbers is
    /// the set of numbers that stand in some cell.
    pub closed spec fn wf(&self) -> bool {
        &&& self.grid.wf()
        &&& self.grid.board().admits(self.values@)
        &&& self.used@.len() == self.values@.len()
        &&& forall|k: int|
            0 <= k < self.used@.len() ==> #[trigger] self.used@[k] == holds(
                self.values@,
                (k + 1) as u8,
            )
    }

    /// A well-formed puzzle holds an assignment that its board admits.
    pub proof fn lemma_wf(&self)
        requires
            self.wf(),
        ensures
            self.grid().wf(),
            self.board().valid(),
            self.board().admits(self@),
    {
        self.grid.lemma_board_valid();
    }

    /// The puzzle on `grid` in which no cell holds a number.
    pub fn new(grid: &'a Grid) -> (p: Self)
        requires
            grid.wf(),
        ensures
            p.wf(),
            p.grid() == *grid,
            p@ == blank(grid.board().cells),
    {
        let n: usize = grid.cell_count();
        let mut values: Vec<Option<u8>> = Vec::new();
        let mut used: Vec<bool> = Vec::new();
        let mut i: usize = 0;
        while i < n
            invariant
                i <= n,
                values@.len() == i,
                used@.len() == i,
                forall|k: int| 0 <= k < i ==> (#[trigger] values@[k]) is None,
                forall|k: int| 0 <= k < i ==> !#[trigger] used@[k],
            decreases n - i,
        {
            values.push(None);
            used.push(false);
            i += 1;
        }
        proof {
            grid.lemma_board_valid();
            assert(values@ =~= blank(grid.board().cells));
        }
        Puzzle { grid, values, used }
    }

    /// The grid that this puzzle is laid out on.
    pub fn descriptor(&self) -> (g: &'a Grid)
        ensures
            *g == self.grid(),
    {
        self.grid
    }

    /// The number in the cell with index `cell`, if the grid has such a cell
    /// and it holds one.
    pub fn get(&self, cell: usize) -> (r: Option<u8>)
        ensures
            r == (if cell < self@.len() {
                self@[cell as int]
            } else {
                None
            }),
    {
        if cell < self.values.len() {
            self.values[cell]
        } else {
            None
        }
    }

    /// The number at row `y` and column `x`, if there is a cell and it
    /// holds one.
    pub fn value_at(&self, y: usize, x: usize) -> (r: Option<u8>)
        requires
            self.wf(),
        ensures
            r == (match self.grid().cell_of(y as int, x as int) {
                Some(c) => self@[c],
                None => None,
            }),
    {
        proof {
            self.grid.lemma_board_valid();
        }
        match self.grid.cell_at(y, x) {
            Some(c) => self.values[c],
            None => None,
        }
    }

    /// Whether some cell holds the number `v`.
    pub fn is_used(&self, v: u8) -> (r: bool)
        requires
            self.wf(),
        ensures
            r == holds(self@, v),
    {
        if v >= 1 && (v as usize) <= self.used.len() {
            let k: usize = (v - 1) as usize;
            assert(self.used@[k as int] == holds(self.values@, (k + 1) as u8));
            self.used[k]
        } else {
            proof {
                if holds(self@, v) {
                    let i = choose|i: int| 0 <= i < self@.len() && #[trigger] self@[i] == Some(v);
                    assert(self.values@[i] is Some);
                }
            }
            false
        }
    }

    /// Puts `v` into the empty cell `cell`, if `v` is a number of the board
    /// that no cell holds yet. Says whether it did; if not, nothing changes.
    pub fn place(&mut self, cell: usize, v: u8) -> (ok: bool)
        requires
            old(self).wf(),
        ensures
            final(self).wf(),
            final(self).grid() == old(self).grid(),
            ok == (cell < old(self)@.len() && old(self)@[cell as int] is None && 1 <= v
                <= old(self).board().cells && !holds(old(self)@, v)),
            ok ==> final(self)@ == old(self)@.update(cell as int, Some(v)),
            !ok ==> final(self)@ == old(self)@,
    {
        if cell >= self.values.len() || v == 0 || (v as usize) > self.used.len() {
            return false;
        }
        if self.values[cell].is_some() {
            return false;
        }
        let k: usize = (v - 1) as usize;
        proof {
            self.grid.lemma_board_valid();
        }
        assert(self.used@[k as int] == holds(self.values@, (k + 1) as u8));
        if self.used[k] {
            return false;
        }
        let ghost before = self.values@;
        let ghost taken = self.used@;
        self.values.set(cell, Some(v));
        self.used.set(k, true);
        proof {
            let after = self.values@;
            assert(after[cell as int] == Some(v));
            assert forall|i: int, j: int|
                0 <= i < j < after.len() && (#[trigger] after[i]) is Some implies after[i]
                != #[trigger] after[j] by {
                if i == cell {
                    assert(before[j] != Some(v));
                } else if j == cell {
                    assert(before[i] != Some(v));
                } else {
                    assert(before[i] != before[j]);
                }
            }
            assert forall|m: int| 0 <= m < self.used@.len() implies #[trigger] self.used@[m]
                == holds(after, (m + 1) as u8) by {
                let w = (m + 1) as u8;
                if m == k {
                } else {
                    assert(taken[m] == holds(before, w));
                    if holds(before, w) {
                        let i = choose|i: int| 0 <= i < before.len() && #[trigger] before[i] == Some(w);
                        assert(after[i] == Some(w));
                    }
                    if holds(after, w) {
                        let i = choose|i: int| 0 <= i < after.len() && #[trigger] after[i] == Some(w);
                        assert(before[i] == Some(w));
                    }
                }
            }
        }
        true
    }

    /// Empties the cell `cell` and hands back the number that it held.
    pub fn clear(&mut self, cell: usize) -> (r: Option<u8>)
        requires
            old(self).wf(),
        ensures
            final(self).wf(),
            final(self).grid() == old(self).grid(),
            r == (if cell < old(self)@.len() {
                old(self)@[cell as int]
            } else {
                None
            }),
            final(self)@ == (if cell < old(self)@.len() {
                old(self)@.update(cell as int, None)
            } else {
                old(self)@
            }),
    {
        if cell >= self.values.len() {
            return None;
        }
        match self.values[cell] {
            None => {
                assert(self.values@ =~= self.values@.update(cell as int, None));
                None
            },
            Some(v) => {
                let ghost before = self.values@;
                let ghost taken = self.used@;
                proof {
                    self.grid.lemma_board_valid();
                }
                assert(before[cell as int] is Some);
                let k: usize = (v - 1) as usize;
                self.values.set(cell, None);
                self.used.set(k, false);
                proof {
                    let after = self.values@;
                    assert forall|i: int, j: int|
                        0 <= i < j < after.len() && (#[trigger] after[i]) is Some implies after[i]
                        != #[trigger] after[j] by {
                        if j != cell {
                            assert(before[i] != before[j]);
                        }
                    }
                    assert forall|m: int| 0 <= m < self.used@.len() implies #[trigger] self.used@[m]
                        == holds(after, (m + 1) as u8) by {
                        let w = (m + 1) as u8;
                        if m == k {
                            if holds(after, w) {
                                let i = choose|i: int|
                                    0 <= i < after.len() && #[trigger] after[i] == Some(w);
                                assert(before[i] is Some);
                                if i < cell {
                                    assert(before[i] != before[cell as int]);
                                } else {
                                    assert(before[cell as int] != before[i]);
                                }
                            }
                        } else {
                            assert(taken[m] == holds(before, w));
                            if holds(before, w) {
                                let i = choose|i: int|
                                    0 <= i < before.len() && #[trigger] before[i] == Some(w);
                                assert(after[i] == Some(w));
                            }
                            if holds(after, w) {
                                let i = choose|i: int|
                                    0 <= i < after.len() && #[trigger] after[i] == Some(w);
                                assert(before[i] == Some(w));
                            }
                        }
                    }
                }
                Some(v)
            },
        }
    }

    /// The first empty cell at or after `from`, or the number of cells if
    /// there is none.
    pub fn first_empty(&self, from: usize) -> (c: usize)
        ensures
            from <= c || c == self@.len(),
            c <= self@.len(),
            c < self@.len() ==> self@[c as int] is None,
            forall|i: int| from <= i < c ==> (#[trigger] self@[i]) is Some,
    {
        let n: usize = self.values.len();
        let mut c: usize = from;
        while c < n
            invariant
                n == self.values@.len(),
                from <= c,
                forall|i: int| from <= i < c && i < n ==> (#[trigger] self.values@[i]) is Some,
            decreases n - c,
        {
            if self.values[c].is_none() {
                return c;
            }
            c += 1;
        }
        n
    }

    /// Whether every cell holds a number.
    pub fn is_complete(&self) -> (r: bool)
        ensures
            r == complete(self@),
    {
        let c: usize = self.first_empty(0);
        c == self.values.len()
    }

    /// The smallest number from `from` on that the board has and no cell
    /// holds, if there is one.
    pub fn next_unused(&self, from: u8) -> (r: Option<u8>)
        requires
            self.wf(),
        ensures
            match r {
                Some(v) => from <= v && 1 <= v <= self.board().cells && !holds(self@, v)
                    && forall|w: u8| from <= w < v && 1 <= w ==> holds(self@, w),
                None => forall|w: u8| from <= w && 1 <= w <= self.board().cells ==> holds(self@, w),
            },
    {
        let n: usize = self.used.len();
        proof {
            self.grid.lemma_board_valid();
        }
        let mut k: usize = if from == 0 {
            0
        } else {
            (from - 1) as usize
        };
        while k < n
            invariant
                self.wf(),
                n == self.used@.len(),
                n <= 255,
                from <= k + 1,
                forall|w: u8| from <= w && 1 <= w && w < k + 1 ==> holds(self@, w),
            decreases n - k,
        {
            proof {
                assert(self.used@[k as int] == holds(self.values@, (k + 1) as u8));
            }
            if !self.used[k] {
                return Some((k + 1) as u8);
            }
            k += 1;
        }
        None
    }

    /// The verdict on line `l` of the grid.
    pub fn check_line(&self, l: usize) -> (r: LineCheck)
        requires
            self.wf(),
            l < self.board().lines.len(),
        ensures
            r == line_check(self.board(), self@, self.board().lines[l as int]),
    {
        let cells = self.grid.line(l);
        let ghost line = self.board().lines[l as int];
        let ghost b = self.board();
        proof {
            self.lemma_wf();
            assert(b.line_valid(line));
            lemma_line_len(b, line);
            assert(line.len() == cells@.len());
        }
        let mut sum: u32 = 0;
        let mut k: usize = 0;
        while k < cells.len()
            invariant
                self.wf(),
                b == self.board(),
                b.valid(),
                b.admits(self@),
                b.line_valid(line),
                l < b.lines.len(),
                line == b.lines[l as int],
                line == cells_of(cells@),
                line.len() <= 255,
                line.len() == cells@.len(),
                k <= cells.len(),
                sum == line_sum(self@, line.take(k as int)),
                sum <= k * 255,
                forall|j: int| 0 <= j < k ==> self@[#[trigger] line[j]] is Some,
            decreases cells.len() - k,
        {
            let c: usize = cells[k];
            proof {
                assert(line[k as int] == c as int);
                assert(0 <= line[k as int] < b.cells);
                lemma_line_sum_step(self@, line, k as int);
                lemma_line_sum_bound(b, self@, line, k as int + 1);
            }
            match self.values[c] {
                None => {
                    proof {
                        assert(self@[line[k as int]] is None);
                        assert(!line_filled(self@, line));
                    }
                    return LineCheck::Indeterminate;
                },
                Some(v) => {
                    sum = sum + v as u32;
                },
            }
            k += 1;
        }
        proof {
            assert(line.take(k as int) =~= line);
        }
        if sum == self.grid.target() {
            LineCheck::Pass
        } else {
            LineCheck::Fail
        }
    }

    /// Whether no line of the grid fails: every line in which each cell
    /// holds a number adds up to the target.
    pub fn check_solution(&self) -> (r: bool)
        requires
            self.wf(),
        ensures
            r == passes(self.board(), self@),
    {
        let n: usize = self.grid.line_count();
        let mut l: usize = 0;
        while l < n
            invariant
                self.wf(),
                n == self.board().lines.len(),
                l <= n,
                forall|m: int|
                    0 <= m < l ==> line_check(self.board(), self@, #[trigger] self.board().lines[m])
                        != LineCheck::Fail,
            decreases n - l,
        {
            match self.check_line(l) {
                LineCheck::Fail => {
                    return false;
                },
                _ => {},
            }
            l += 1;
        }
        true
    }

    /// A second puzzle with the same grid and the same numbers.
    pub fn duplicate(&self) -> (p: Self)
        requires
            self.wf(),
        ensures
            p.wf(),
            p.grid() == self.grid(),
            p@ == self@,
    {
        let n: usize = self.values.len();
        let mut values: Vec<Option<u8>> = Vec::new();
        let mut used: Vec<bool> = Vec::new();
        let mut i: usize = 0;
        while i < n
            invariant
                n == self.values@.len(),
                n == self.used@.len(),
                i <= n,
                values@ == self.values@.take(i as int),
                used@ == self.used@.take(i as int),
            decreases n - i,
        {
            values.push(self.values[i]);
            used.push(self.used[i]);
            proof {
                assert(values@ =~= self.values@.take(i + 1));
                assert(used@ =~= self.used@.take(i + 1));
            }
            i += 1;
        }
        proof {
            assert(values@ =~= self.values@);
            assert(used@ =~= self.used@);
        }
        Puzzle { grid: self.grid, values, used }
    }
}

} // verus!
