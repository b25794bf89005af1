//! Lines as lists of cell indices, and the test that the lines of one
//! direction tile the grid: every cell lies on exactly one of them.

use vstd::prelude::*;
use crate::lines::{lemma_walk_active, spots, walk};
use crate::pattern::{active, lists_cells, read_before};

verus! {

/// The cells of a line as the model has them.
pub open spec fn cells_of(line: Seq<usize>) -> Seq<int> {
    line.map_values(|c: usize| c as int)
}

/// Lines as the model has them.
pub open spec fn lines_of(lines: Seq<Vec<usize>>) -> Seq<Seq<int>> {
    lines.map_values(|line: Vec<usize>| cells_of(line@))
}

/// The index of the cell at `pos` in the list of cells.
pub open spec fn cell_index(coords: Seq<(usize, usize)>, pos: (int, int)) -> int {
    coords.index_of((pos.0 as usize, pos.1 as usize))
}

/// The cells, by index, that lie at the positions of a walk.
pub open spec fn cells_along(coords: Seq<(usize, usize)>, positions: Seq<(int, int)>) -> Seq<int> {
    positions.map_values(|pos: (int, int)| cell_index(coords, pos))
}

/// There is a `k`-th place on line `l`.
pub open spec fn place(lines: Seq<Seq<int>>, l: int, k: int) -> bool {
    0 <= l < lines.len() && 0 <= k < lines[l].len()
}

/// The place `(l1, k1)` comes before the place `(l, k)` when the lines are
/// gone through one after the other.
pub open spec fn earlier(l1: int, k1: int, l: int, k: int) -> bool {
    l1 < l || (l1 == l && k1 < k)
}

/// Some place before `(l, k)` holds the cell `c`.
pub open spec fn met(lines: Seq<Seq<int>>, l: int, k: int, c: int) -> bool {
    exists|l1: int, k1: int|
        place(lines, l1, k1) && earlier(l1, k1, l, k) && #[trigger] lines[l1][k1] == c
}

/// No two places before `(l, k)` hold the same cell.
pub open spec fn apart_before(lines: Seq<Seq<int>>, l: int, k: int) -> bool {
    forall|l1: int, k1: int, l2: int, k2: int|
        place(lines, l1, k1) && place(lines, l2, k2) && earlier(l1, k1, l, k) && earlier(
            l2,
            k2,
            l,
            k,
        ) && #[trigger] lines[l1][k1] == #[trigger] lines[l2][k2] ==> l1 == l2 && k1 == k2
}

/// Some place on the lines holds the cell `c`.
pub open spec fn covered(lines: Seq<Seq<int>>, c: int) -> bool {
    exists|l: int, k: int| place(lines, l, k) && #[trigger] lines[l][k] == c
}

/// No two places on the lines hold the same cell.
pub open spec fn apart(lines: Seq<Seq<int>>) -> bool {
    forall|l1: int, k1: int, l2: int, k2: int|
        place(lines, l1, k1) && place(lines, l2, k2) && #[trigger] lines[l1][k1]
            == #[trigger] lines[l2][k2] ==> l1 == l2 && k1 == k2
}

/// The lines tile a grid of `cells` cells: each cell lies on exactly one
/// of them, at one place.
pub open spec fn tiled(cells: nat, lines: Seq<Seq<int>>) -> bool {
    &&& apart(lines)
    &&& forall|c: int| 0 <= c < cells ==> #[trigger] covered(lines, c)
}

/// Every line names cells below `cells`.
pub open spec fn within(cells: nat, lines: Seq<Seq<int>>) -> bool {
    forall|l: int, k: int| place(lines, l, k) ==> 0 <= #[trigger] lines[l][k] < cells
}

/// A list of cells in reading order names no position twice.
pub proof fn lemma_cells_differ(p: Seq<Seq<bool>>, coords: Seq<(usize, usize)>, i: int, j: int)
    requires
        lists_cells(p, coords),
        0 <= i < coords.len(),
        0 <= j < coords.len(),
        coords[i] == coords[j],
    ensures
        i == j,
{
    if i < j {
        assert(read_before(coords[i], coords[j]));
    } else if j < i {
        assert(read_before(coords[j], coords[i]));
    }
}

/// Lines that lie apart name no cell twice.
pub proof fn lemma_apart_no_duplicates(lines: Seq<Seq<int>>, l: int)
    requires
        apart(lines),
        0 <= l < lines.len(),
    ensures
        lines[l].no_duplicates(),
{
    assert forall|i: int, j: int|
        0 <= i < lines[l].len() && 0 <= j < lines[l].len() && i != j implies lines[l][i]
        != lines[l][j] by {
        assert(place(lines, l, i) && place(lines, l, j));
    }
}

/// The index of the first cell at `pos`.
pub fn find_cell(coords: &Vec<(usize, usize)>, pos: (usize, usize)) -> (k: usize)
    requires
        coords@.contains(pos),
    ensures
        k < coords@.len(),
        coords@[k as int] == pos,
        forall|j: int| 0 <= j < k ==> coords@[j] != pos,
{
    let mut k: usize = 0;
    while coords[k].0 != pos.0 || coords[k].1 != pos.1
        invariant
            k < coords@.len(),
            exists|j: int| k <= j < coords@.len() && coords@[j] == pos,
            forall|j: int| 0 <= j < k ==> coords@[j] != pos,
        decreases coords@.len() - k,
    {
        proof {
            let j = choose|j: int| k <= j < coords@.len() && coords@[j] == pos;
            assert(k + 1 <= j);
            assert(coords.len() == coords@.len());
        }
        k += 1;
    }
    k
}

/// The cells, by index, at the positions of a walk through the pattern.
pub(crate) fn locate(
    coords: &Vec<(usize, usize)>,
    line: &Vec<(usize, usize)>,
    Ghost(p): Ghost<Seq<Seq<bool>>>,
    Ghost(from): Ghost<(int, int, int, int)>,
) -> (cells: Vec<usize>)
    requires
        lists_cells(p, coords@),
        spots(line@) == walk(p, from.0, from.1, from.2, from.3),
    ensures
        cells_of(cells@) == cells_along(coords@, spots(line@)),
        forall|k: int| 0 <= k < cells@.len() ==> (#[trigger] cells@[k]) < coords@.len(),
{
    let mut cells: Vec<usize> = Vec::new();
    let mut k: usize = 0;
    while k < line.len()
        invariant
            lists_cells(p, coords@),
            spots(line@) == walk(p, from.0, from.1, from.2, from.3),
            k <= line@.len(),
            cells@.len() == k,
            forall|i: int| 0 <= i < k ==> (#[trigger] cells@[i]) < coords@.len(),
            forall|i: int|
                0 <= i < k ==> (#[trigger] cells@[i]) as int == cell_index(
                    coords@,
                    spots(line@)[i],
                ),
        decreases line@.len() - k,
    {
        let pos = line[k];
        proof {
            lemma_walk_active(p, from.0, from.1, from.2, from.3, k as int);
            assert(spots(line@)[k as int] == (pos.0 as int, pos.1 as int));
            assert(active(p, pos.0 as int, pos.1 as int));
        }
        let c: usize = find_cell(coords, pos);
        proof {
            let i = coords@.index_of(pos);
            assert(0 <= i < coords@.len() && coords@[i] == pos);
            lemma_cells_differ(p, coords@, i, c as int);
        }
        cells.push(c);
        k += 1;
    }
    proof {
        assert(cells_of(cells@) =~= cells_along(coords@, spots(line@)));
    }
    cells
}

/// Whether the lines tile a grid of `n` cells.
pub fn is_tiled(n: usize, lines: &Vec<Vec<usize>>) -> (r: bool)
    requires
        within(n as nat, lines_of(lines@)),
    ensures
        r == tiled(n as nat, lines_of(lines@)),
{
    let ghost view = lines_of(lines@);
    let mut marks: Vec<bool> = Vec::new();
    let mut c: usize = 0;
    while c < n
        invariant
            c <= n,
            marks@.len() == c,
            forall|i: int| 0 <= i < c ==> !#[trigger] marks@[i],
        decreases n - c,
    {
        marks.push(false);
        c += 1;
    }
    let mut l: usize = 0;
    while l < lines.len()
        invariant
            view == lines_of(lines@),
            within(n as nat, view),
            marks@.len() == n,
            l <= lines@.len(),
            apart_before(view, l as int, 0),
            forall|i: int| 0 <= i < n ==> #[trigger] marks@[i] == met(view, l as int, 0, i),
        decreases lines@.len() - l,
    {
        let line = &lines[l];
        let mut k: usize = 0;
        while k < line.len()
            invariant
                view == lines_of(lines@),
                within(n as nat, view),
                marks@.len() == n,
                l < lines@.len(),
                line@ == lines@[l as int]@,
                k <= line@.len(),
                apart_before(view, l as int, k as int),
                forall|i: int| 0 <= i < n ==> #[trigger] marks@[i] == met(view, l as int, k as int, i),
            decreases line@.len() - k,
        {
            let cell: usize = line[k];
            proof {
                assert(place(view, l as int, k as int));
                assert(view[l as int][k as int] == cell as int);
            }
            if marks[cell] {
                proof {
                    assert(met(view, l as int, k as int, cell as int));
                    let (l1, k1) = choose|l1: int, k1: int|
                        place(view, l1, k1) && earlier(l1, k1, l as int, k as int)
                            && #[trigger] view[l1][k1] == cell as int;
                    assert(view[l1][k1] == view[l as int][k as int]);
                    assert(!apart(view));
                }
                return false;
            }
            let ghost before = marks@;
            marks.set(cell, true);
            proof {
                let lg = l as int;
                let kg = k as int;
                assert forall|i: int| 0 <= i < n implies #[trigger] marks@[i] == met(
                    view,
                    lg,
                    kg + 1,
                    i,
                ) by {
                    if i == cell {
                        assert(place(view, lg, kg) && earlier(lg, kg, lg, kg + 1) && view[lg][kg]
                            == i);
                    } else {
                        assert(before[i] == met(view, lg, kg, i));
                        if met(view, lg, kg, i) {
                            let (l1, k1) = choose|l1: int, k1: int|
                                place(view, l1, k1) && earlier(l1, k1, lg, kg)
                                    && #[trigger] view[l1][k1] == i;
                            assert(earlier(l1, k1, lg, kg + 1));
                        }
                        if met(view, lg, kg + 1, i) {
                            let (l1, k1) = choose|l1: int, k1: int|
                                place(view, l1, k1) && earlier(l1, k1, lg, kg + 1)
                                    && #[trigger] view[l1][k1] == i;
                            assert(earlier(l1, k1, lg, kg));
                        }
                    }
                }
                assert forall|l1: int, k1: int, l2: int, k2: int|
                    place(view, l1, k1) && place(view, l2, k2) && earlier(l1, k1, lg, kg + 1)
                        && earlier(l2, k2, lg, kg + 1) && #[trigger] view[l1][k1]
                        == #[trigger] view[l2][k2] implies l1 == l2 && k1 == k2 by {
                    let here1 = l1 == lg && k1 == kg;
                    let here2 = l2 == lg && k2 == kg;
                    if here1 && !here2 {
                        assert(earlier(l2, k2, lg, kg));
                        assert(met(view, lg, kg, cell as int));
                    } else if here2 && !here1 {
                        assert(earlier(l1, k1, lg, kg));
                        assert(met(view, lg, kg, cell as int));
                    } else if !here1 && !here2 {
                        assert(earlier(l1, k1, lg, kg) && earlier(l2, k2, lg, kg));
                    }
                }
            }
            k += 1;
        }
        proof {
            let lg = l as int;
            let kg = k as int;
            assert(view[lg].len() == kg);
            assert forall|i: int| 0 <= i < n implies #[trigger] marks@[i] == met(
                view,
                lg + 1,
                0,
                i,
            ) by {
                if met(view, lg, kg, i) {
                    let (l1, k1) = choose|l1: int, k1: int|
                        place(view, l1, k1) && earlier(l1, k1, lg, kg) && #[trigger] view[l1][k1]
                            == i;
                    assert(earlier(l1, k1, lg + 1, 0));
                }
                if met(view, lg + 1, 0, i) {
                    let (l1, k1) = choose|l1: int, k1: int|
                        place(view, l1, k1) && earlier(l1, k1, lg + 1, 0)
                            && #[trigger] view[l1][k1] == i;
                    assert(earlier(l1, k1, lg, kg));
                }
            }
            assert forall|l1: int, k1: int, l2: int, k2: int|
                place(view, l1, k1) && place(view, l2, k2) && earlier(l1, k1, lg + 1, 0)
                    && earlier(l2, k2, lg + 1, 0) && #[trigger] view[l1][k1]
                    == #[trigger] view[l2][k2] implies l1 == l2 && k1 == k2 by {
                assert(earlier(l1, k1, lg, kg) && earlier(l2, k2, lg, kg));
            }
        }
        l += 1;
    }
    proof {
        let end = l as int;
        assert forall|l1: int, k1: int, l2: int, k2: int|
            place(view, l1, k1) && place(view, l2, k2) && #[trigger] view[l1][k1]
                == #[trigger] view[l2][k2] implies l1 == l2 && k1 == k2 by {
            assert(earlier(l1, k1, end, 0) && earlier(l2, k2, end, 0));
        }
    }
    let mut c: usize = 0;
    while c < n
        invariant
            view == lines_of(lines@),
            marks@.len() == n,
            l == lines@.len(),
            c <= n,
            apart(view),
            forall|i: int| 0 <= i < n ==> #[trigger] marks@[i] == met(view, l as int, 0, i),
            forall|i: int| 0 <= i < c ==> #[trigger] covered(view, i),
        decreases n - c,
    {
        if !marks[c] {
            proof {
                if covered(view, c as int) {
                    let (l1, k1) = choose|l1: int, k1: int|
                        place(view, l1, k1) && #[trigger] view[l1][k1] == c as int;
                    assert(earlier(l1, k1, l as int, 0));
                    assert(met(view, l as int, 0, c as int));
                }
            }
            return false;
        }
        proof {
            assert(met(view, l as int, 0, c as int));
            let (l1, k1) = choose|l1: int, k1: int|
                place(view, l1, k1) && earlier(l1, k1, l as int, 0) && #[trigger] view[l1][k1]
                    == c as int;
            assert(covered(view, c as int));
        }
        c += 1;
    }
    true
}

} // verus!
