//! The mathematical model that the contracts of this crate are stated over.

use vstd::prelude::*;

verus! {

/// A numbering in progress: for each cell, by its index, the number placed
/// there, if any.
pub type Assignment = Seq<Option<u8>>;

/// What a search reads of a grid: how many cells there are, which cells each
/// line runs through, and the sum that every line has to reach.
pub struct Board {
    pub cells: nat,
    pub lines: Seq<Seq<int>>,
    pub target: int,
}

/// What checking one line against an assignment can give.
#[derive(Clone, Copy, PartialEq, Eq, Structural, Debug)]
pub enum LineCheck {
    /// Every cell of the line holds a number and they add up to the target.
    Pass,
    /// Every cell of the line holds a number and they add up to something else.
    Fail,
    /// Some cell of the line is still empty.
    Indeterminate,
}

impl Board {
    /// A line names cells of the board, none of them twice.
    pub open spec fn line_valid(self, line: Seq<int>) -> bool {
        &&& line.no_duplicates()
        &&& forall|k: int| 0 <= k < line.len() ==> 0 <= #[trigger] line[k] < self.cells
    }

    /// The numbers 1 to `cells` fit in a byte and every line is valid.
    pub open spec fn valid(self) -> bool {
        &&& self.cells <= 255
        &&& forall|l: int| 0 <= l < self.lines.len() ==> self.line_valid(#[trigger] self.lines[l])
    }

    /// `a` gives every cell of the board at most one number between 1 and
    /// `cells`, and no number to two cells.
    pub open spec fn admits(self, a: Assignment) -> bool {
        &&& a.len() == self.cells
        &&& forall|i: int|
            0 <= i < a.len() && (#[trigger] a[i]) is Some ==> 1 <= a[i].unwrap() <= self.cells
        &&& forall|i: int, j: int|
            0 <= i < j < a.len() && (#[trigger] a[i]) is Some ==> a[i] != #[trigger] a[j]
    }
}

/// The assignment of `cells` cells in which no cell holds a number.
pub open spec fn blank(cells: nat) -> Assignment {
    Seq::new(cells, |i: int| None::<u8>)
}

/// Some cell of `a` holds the number `v`.
pub open spec fn holds(a: Assignment, v: u8) -> bool {
    exists|i: int| 0 <= i < a.len() && #[trigger] a[i] == Some(v)
}

/// Every cell of `a` holds a number.
pub open spec fn complete(a: Assignment) -> bool {
    forall|i: int| 0 <= i < a.len() ==> (#[trigger] a[i]) is Some
}

/// Every cell of `a` before `upto` holds a number.
pub open spec fn filled_below(a: Assignment, upto: int) -> bool {
    forall|i: int| 0 <= i < upto && i < a.len() ==> (#[trigger] a[i]) is Some
}

/// `s` has every number that `a` has, in the same cell.
pub open spec fn extends(s: Assignment, a: Assignment) -> bool {
    &&& s.len() == a.len()
    &&& forall|i: int| 0 <= i < a.len() && (#[trigger] a[i]) is Some ==> s[i] == a[i]
}

/// What a cell adds to the sum of a line: its number, or nothing while it is
/// empty.
pub open spec fn cell_value(c: Option<u8>) -> int {
    match c {
        Some(v) => v as int,
        None => 0,
    }
}

/// Every cell of `line` holds a number in `a`.
pub open spec fn line_filled(a: Assignment, line: Seq<int>) -> bool {
    forall|k: int| 0 <= k < line.len() ==> a[#[trigger] line[k]] is Some
}

/// The sum of the numbers that `a` has in the cells of `line`.
pub open spec fn line_sum(a: Assignment, line: Seq<int>) -> int
    decreases line.len(),
{
    if line.len() == 0 {
        0
    } else {
        line_sum(a, line.drop_last()) + cell_value(a[line.last()])
    }
}

/// The three-way verdict on one line: undecided while a cell is empty, and
/// otherwise decided by the sum.
pub open spec fn line_check(b: Board, a: Assignment, line: Seq<int>) -> LineCheck {
    if !line_filled(a, line) {
        LineCheck::Indeterminate
    } else if line_sum(a, line) == b.target {
        LineCheck::Pass
    } else {
        LineCheck::Fail
    }
}

/// No line of the board fails on `a`: each one is either undecided or adds
/// up to the target.
pub open spec fn passes(b: Board, a: Assignment) -> bool {
    forall|l: int|
        0 <= l < b.lines.len() ==> line_check(b, a, #[trigger] b.lines[l]) != LineCheck::Fail
}

/// `s` is a solution of the board: every cell has its own number from 1 to
/// `cells`, and every line adds up to the target.
pub open spec fn solves(b: Board, s: Assignment) -> bool {
    &&& b.admits(s)
    &&& complete(s)
    &&& passes(b, s)
}

/// `s` comes before `t` when both are read cell by cell: they agree up to
/// some cell, and there `s` holds the smaller number.
pub open spec fn comes_before(s: Assignment, t: Assignment) -> bool {
    exists|k: int|
        0 <= k < s.len() && k < t.len() && #[trigger] cell_value(s[k]) < cell_value(t[k])
            && forall|i: int| 0 <= i < k ==> #[trigger] s[i] == t[i]
}

/// The solutions that a depth-first search finds below `a`, in the order in
/// which it finds them. The search leaves the cells before `from` as they
/// are, fills the first empty cell from there on with each unused number in
/// rising order, and gives up a branch as soon as a line fails.
pub open spec fn completions(b: Board, a: Assignment, from: nat) -> Seq<Assignment>
    decreases b.cells - from, 1nat, 0nat,
{
    if from >= b.cells {
        if passes(b, a) {
            seq![a]
        } else {
            Seq::empty()
        }
    } else if a[from as int] is Some {
        completions(b, a, from + 1)
    } else if !passes(b, a) {
        Seq::empty()
    } else {
        branches(b, a, from, 1)
    }
}

/// The part of `completions` that puts the numbers from `v` on into `cell`.
pub open spec fn branches(b: Board, a: Assignment, cell: nat, v: nat) -> Seq<Assignment>
    decreases b.cells - cell, 0nat, b.cells + 1 - v,
{
    if cell >= b.cells || v > b.cells {
        Seq::empty()
    } else {
        let below = if holds(a, v as u8) {
            Seq::empty()
        } else {
            completions(b, a.update(cell as int, Some(v as u8)), cell + 1)
        };
        below + branches(b, a, cell, v + 1)
    }
}

/// The number of assignments that the search of `completions` looks at:
/// one for each state in which it checks the lines.
pub open spec fn nodes(b: Board, a: Assignment, from: nat) -> nat
    decreases b.cells - from, 1nat, 0nat,
{
    if from >= b.cells {
        1
    } else if a[from as int] is Some {
        nodes(b, a, from + 1)
    } else if !passes(b, a) {
        1
    } else {
        1 + branch_nodes(b, a, from, 1)
    }
}

/// The part of `nodes` that belongs to the numbers from `v` on in `cell`.
pub open spec fn branch_nodes(b: Board, a: Assignment, cell: nat, v: nat) -> nat
    decreases b.cells - cell, 0nat, b.cells + 1 - v,
{
    if cell >= b.cells || v > b.cells {
        0
    } else {
        let below = if holds(a, v as u8) {
            0
        } else {
            nodes(b, a.update(cell as int, Some(v as u8)), cell + 1)
        };
        below + branch_nodes(b, a, cell, v + 1)
    }
}

/// The cell from which the search goes on looking for an empty cell, given
/// the cells that it has filled on the way to the current assignment.
pub open spec fn cursor(path: Seq<int>) -> nat {
    if path.len() == 0 {
        0
    } else {
        (path.last() + 1) as nat
    }
}

/// The solutions that the search still finds once it is done with the
/// assignment `a`, which it reached by filling the cells of `path` in turn:
/// for each of those cells, from the last one back, the solutions under the
/// larger numbers that the cell can still take.
pub open spec fn siblings(b: Board, a: Assignment, path: Seq<int>) -> Seq<Assignment>
    decreases path.len(),
{
    if path.len() == 0 {
        Seq::empty()
    } else {
        let c = path.last();
        let parent = a.update(c, None);
        branches(b, parent, c as nat, (cell_value(a[c]) + 1) as nat) + siblings(
            b,
            parent,
            path.drop_last(),
        )
    }
}

/// The number of assignments that the search still looks at once it is done
/// with `a`.
pub open spec fn sibling_nodes(b: Board, a: Assignment, path: Seq<int>) -> nat
    decreases path.len(),
{
    if path.len() == 0 {
        0
    } else {
        let c = path.last();
        let parent = a.update(c, None);
        branch_nodes(b, parent, c as nat, (cell_value(a[c]) + 1) as nat) + sibling_nodes(
            b,
            parent,
            path.drop_last(),
        )
    }
}

/// Cells that hold a number are passed over: the search from `from` finds
/// what the search from `to` finds when every cell between them is filled.
pub proof fn lemma_skip_filled(b: Board, a: Assignment, from: nat, to: nat)
    requires
        from <= to <= b.cells,
        a.len() == b.cells,
        forall|i: int| from <= i < to ==> (#[trigger] a[i]) is Some,
    ensures
        completions(b, a, from) == completions(b, a, to),
        nodes(b, a, from) == nodes(b, a, to),
    decreases to - from,
{
    if from < to {
        assert(a[from as int] is Some);
        lemma_skip_filled(b, a, from + 1, to);
    }
}

/// Numbers that some cell holds are passed over.
pub proof fn lemma_skip_held(b: Board, a: Assignment, cell: nat, v: nat, w: nat)
    requires
        v <= w,
        forall|x: nat| v <= x < w && x <= b.cells ==> #[trigger] holds(a, x as u8),
    ensures
        branches(b, a, cell, v) == branches(b, a, cell, w),
        branch_nodes(b, a, cell, v) == branch_nodes(b, a, cell, w),
    decreases w - v,
{
    if v < w {
        lemma_skip_held(b, a, cell, v + 1, w);
        if cell < b.cells && v <= b.cells {
            assert(holds(a, v as u8));
            assert(Seq::<Assignment>::empty() + branches(b, a, cell, v + 1) =~= branches(
                b,
                a,
                cell,
                v + 1,
            ));
        } else if cell < b.cells {
            assert(w > b.cells);
        }
    }
}

/// Pruning. An assignment on which a line fails has no solutions below it,
/// and the search looks at it alone: it fills no further cell.
pub proof fn lemma_pruned(b: Board, a: Assignment, from: nat)
    requires
        !passes(b, a),
    ensures
        completions(b, a, from) == Seq::<Assignment>::empty(),
        nodes(b, a, from) == 1,
    decreases b.cells - from,
{
    if from < b.cells && a[from as int] is Some {
        lemma_pruned(b, a, from + 1);
    }
}

/// A full assignment on which no line fails is the one solution below
/// itself.
pub proof fn lemma_found(b: Board, a: Assignment, from: nat)
    requires
        from <= b.cells,
        a.len() == b.cells,
        forall|i: int| from <= i < b.cells ==> (#[trigger] a[i]) is Some,
        passes(b, a),
    ensures
        completions(b, a, from) == seq![a],
        nodes(b, a, from) == 1,
{
    lemma_skip_filled(b, a, from, b.cells);
}

/// An assignment with an empty cell and no unused number has no solutions
/// below it.
pub proof fn lemma_dead_end(b: Board, a: Assignment, from: nat, c: nat)
    requires
        from <= c < b.cells,
        a.len() == b.cells,
        forall|i: int| from <= i < c ==> (#[trigger] a[i]) is Some,
        a[c as int] is None,
        passes(b, a),
        forall|x: nat| 1 <= x <= b.cells ==> #[trigger] holds(a, x as u8),
    ensures
        completions(b, a, from) == Seq::<Assignment>::empty(),
        nodes(b, a, from) == 1,
{
    lemma_skip_filled(b, a, from, c);
    lemma_skip_held(b, a, c, 1, b.cells + 1);
}

/// Below an assignment that passes, the search first goes through what lies
/// below the smallest unused number in the first empty cell, and after
/// that through what lies below the larger numbers.
pub proof fn lemma_descend(b: Board, a: Assignment, from: nat, c: nat, v: nat)
    requires
        from <= c < b.cells,
        a.len() == b.cells,
        forall|i: int| from <= i < c ==> (#[trigger] a[i]) is Some,
        a[c as int] is None,
        passes(b, a),
        1 <= v <= b.cells,
        !holds(a, v as u8),
        forall|x: nat| 1 <= x < v ==> #[trigger] holds(a, x as u8),
    ensures
        completions(b, a, from) == completions(b, a.update(c as int, Some(v as u8)), c + 1)
            + branches(b, a, c, v + 1),
        nodes(b, a, from) == 1 + nodes(b, a.update(c as int, Some(v as u8)), c + 1)
            + branch_nodes(b, a, c, v + 1),
{
    lemma_skip_filled(b, a, from, c);
    lemma_skip_held(b, a, c, 1, v);
}

/// What is left among the numbers from `v` on, when `w` is the smallest of
/// them that is unused.
pub proof fn lemma_next_branch(b: Board, a: Assignment, c: nat, v: nat, w: nat)
    requires
        c < b.cells,
        v <= w <= b.cells,
        !holds(a, w as u8),
        forall|x: nat| v <= x < w ==> #[trigger] holds(a, x as u8),
    ensures
        branches(b, a, c, v) == completions(b, a.update(c as int, Some(w as u8)), c + 1)
            + branches(b, a, c, w + 1),
        branch_nodes(b, a, c, v) == nodes(b, a.update(c as int, Some(w as u8)), c + 1)
            + branch_nodes(b, a, c, w + 1),
{
    lemma_skip_held(b, a, c, v, w);
}

/// Nothing is left among the numbers from `v` on when all of them are held.
pub proof fn lemma_no_branch(b: Board, a: Assignment, c: nat, v: nat)
    requires
        forall|x: nat| v <= x <= b.cells ==> #[trigger] holds(a, x as u8),
    ensures
        branches(b, a, c, v) == Seq::<Assignment>::empty(),
        branch_nodes(b, a, c, v) == 0,
{
    if v <= b.cells {
        lemma_skip_held(b, a, c, v, b.cells + 1);
    }
}

/// What is left after an assignment that was reached by filling the empty
/// cell `c` with `v`: the larger numbers in `c`, and what was left before.
pub proof fn lemma_siblings_push(b: Board, a: Assignment, path: Seq<int>, c: int, v: u8)
    requires
        0 <= c < a.len(),
        a[c] is None,
    ensures
        siblings(b, a.update(c, Some(v)), path.push(c)) == branches(
            b,
            a,
            c as nat,
            (v + 1) as nat,
        ) + siblings(b, a, path),
        sibling_nodes(b, a.update(c, Some(v)), path.push(c)) == branch_nodes(
            b,
            a,
            c as nat,
            (v + 1) as nat,
        ) + sibling_nodes(b, a, path),
        cursor(path.push(c)) == c + 1,
{
    assert(a.update(c, Some(v)).update(c, None) =~= a);
    assert(path.push(c).drop_last() =~= path);
}

/// What is left after an assignment whose last filled cell is `c`.
pub proof fn lemma_siblings_pop(b: Board, a: Assignment, path: Seq<int>)
    requires
        path.len() > 0,
    ensures
        siblings(b, a, path) == branches(
            b,
            a.update(path.last(), None),
            path.last() as nat,
            (cell_value(a[path.last()]) + 1) as nat,
        ) + siblings(b, a.update(path.last(), None), path.drop_last()),
        sibling_nodes(b, a, path) == branch_nodes(
            b,
            a.update(path.last(), None),
            path.last() as nat,
            (cell_value(a[path.last()]) + 1) as nat,
        ) + sibling_nodes(b, a.update(path.last(), None), path.drop_last()),
{
}

/// A valid line is no longer than the board has cells.
pub proof fn lemma_line_len(b: Board, line: Seq<int>)
    requires
        b.line_valid(line),
    ensures
        line.len() <= b.cells,
{
    line.unique_seq_to_set();
    vstd::set_lib::lemma_int_range(0, b.cells as int);
    let range = vstd::set_lib::set_int_range(0, b.cells as int);
    assert forall|c: int| line.to_set().contains(c) implies range.contains(c) by {
        let k = choose|k: int| 0 <= k < line.len() && line[k] == c;
        assert(0 <= line[k] < b.cells);
    }
    vstd::set_lib::lemma_len_subset(line.to_set(), range);
}

/// The sum of a line is the sum of its first cells plus the next one.
pub proof fn lemma_line_sum_step(a: Assignment, line: Seq<int>, k: int)
    requires
        0 <= k < line.len(),
    ensures
        line_sum(a, line.take(k + 1)) == line_sum(a, line.take(k)) + cell_value(a[line[k]]),
{
    assert(line.take(k + 1).drop_last() =~= line.take(k));
}

/// While every cell of a line holds a number of the board, the sum of its
/// first `k` cells is at most `k` times the number of cells.
pub proof fn lemma_line_sum_bound(b: Board, a: Assignment, line: Seq<int>, k: int)
    requires
        b.admits(a),
        b.line_valid(line),
        0 <= k <= line.len(),
    ensures
        0 <= line_sum(a, line.take(k)) <= k * 255,
    decreases k,
{
    if k > 0 {
        lemma_line_sum_bound(b, a, line, k - 1);
        lemma_line_sum_step(a, line, k - 1);
        let c = line[k - 1];
        assert(0 <= c < b.cells);
        if a[c] is Some {
            assert(1 <= a[c].unwrap() <= b.cells);
        }
    }
}

} // verus!
