//! What holds of the enumeration as a whole: it hands out solutions only,
//! it misses none, and it hands them out in rising order.

use vstd::prelude::*;
use crate::model::{
    blank, branches, cell_value, comes_before, complete, completions, extends, filled_below,
    holds, line_check, line_filled, line_sum, passes, solves, Assignment, Board, LineCheck,
};

verus! {

/// Each element of `list` comes before every later one.
pub open spec fn rising(list: Seq<Assignment>) -> bool {
    forall|i: int, j: int|
        0 <= i < j < list.len() ==> comes_before(#[trigger] list[i], #[trigger] list[j])
}

/// Every element of `list` solves the board and keeps the numbers of `a`.
pub open spec fn all_solve(b: Board, a: Assignment, list: Seq<Assignment>) -> bool {
    forall|k: int|
        0 <= k < list.len() ==> solves(b, #[trigger] list[k]) && extends(list[k], a)
}

/// Putting an unused number of the board into an empty cell gives an
/// assignment that the board admits.
pub proof fn lemma_admits_place(b: Board, a: Assignment, c: int, v: u8)
    requires
        b.admits(a),
        0 <= c < a.len(),
        a[c] is None,
        1 <= v <= b.cells,
        !holds(a, v),
    ensures
        b.admits(a.update(c, Some(v))),
{
    let child = a.update(c, Some(v));
    assert forall|i: int, j: int|
        0 <= i < j < child.len() && (#[trigger] child[i]) is Some implies child[i]
        != #[trigger] child[j] by {
        if i == c {
            assert(a[j] != Some(v));
        } else if j == c {
            assert(a[i] != Some(v));
        } else {
            assert(a[i] != a[j]);
        }
    }
    assert forall|i: int| 0 <= i < child.len() && (#[trigger] child[i]) is Some implies 1
        <= child[i].unwrap() <= b.cells by {
        if i != c {
            assert(a[i] is Some);
        }
    }
}

/// Emptying a cell gives an assignment that the board admits.
pub proof fn lemma_admits_clear(b: Board, a: Assignment, c: int)
    requires
        b.admits(a),
        0 <= c < a.len(),
    ensures
        b.admits(a.update(c, None)),
{
    let parent = a.update(c, None);
    assert forall|i: int, j: int|
        0 <= i < j < parent.len() && (#[trigger] parent[i]) is Some implies parent[i]
        != #[trigger] parent[j] by {
        if j != c {
            assert(a[i] != a[j]);
        }
    }
    assert forall|i: int| 0 <= i < parent.len() && (#[trigger] parent[i]) is Some implies 1
        <= parent[i].unwrap() <= b.cells by {
        assert(a[i] is Some);
    }
}

/// Two assignments that agree on the cells of a line give it the same sum.
pub proof fn lemma_line_sum_agrees(a: Assignment, s: Assignment, line: Seq<int>)
    requires
        forall|k: int| 0 <= k < line.len() ==> a[#[trigger] line[k]] == s[line[k]],
    ensures
        line_sum(a, line) == line_sum(s, line),
    decreases line.len(),
{
    if line.len() > 0 {
        let front = line.drop_last();
        assert forall|k: int| 0 <= k < front.len() implies a[#[trigger] front[k]] == s[front[k]] by {
            assert(front[k] == line[k]);
        }
        lemma_line_sum_agrees(a, s, front);
        assert(line.last() == line[line.len() - 1]);
    }
}

/// Giving up a branch loses nothing: an assignment on which a line fails
/// has no solution among the assignments that keep its numbers. Put the
/// other way round, whatever a passing assignment extends passes too.
pub proof fn lemma_pruning_is_safe(b: Board, a: Assignment, s: Assignment)
    requires
        b.valid(),
        a.len() == b.cells,
        extends(s, a),
        passes(b, s),
    ensures
        passes(b, a),
{
    assert forall|l: int| 0 <= l < b.lines.len() implies line_check(b, a, #[trigger] b.lines[l])
        != LineCheck::Fail by {
        let line = b.lines[l];
        assert(b.line_valid(line));
        if line_filled(a, line) {
            assert forall|k: int| 0 <= k < line.len() implies a[#[trigger] line[k]] == s[line[k]] by {
                assert(a[line[k]] is Some);
            }
            lemma_line_sum_agrees(a, s, line);
            assert(line_filled(s, line)) by {
                assert forall|k: int| 0 <= k < line.len() implies s[#[trigger] line[k]] is Some by {
                    assert(a[line[k]] is Some);
                }
            }
            assert(line_check(b, s, line) != LineCheck::Fail);
        }
    }
}

/// In a solution every line adds up to the target.
pub proof fn lemma_solution_lines(b: Board, s: Assignment, l: int)
    requires
        b.valid(),
        solves(b, s),
        0 <= l < b.lines.len(),
    ensures
        line_sum(s, b.lines[l]) == b.target,
{
    let line = b.lines[l];
    assert(b.line_valid(line));
    assert forall|k: int| 0 <= k < line.len() implies s[#[trigger] line[k]] is Some by {
        assert(0 <= line[k] < b.cells);
    }
    assert(line_check(b, s, line) != LineCheck::Fail);
}

/// In a solution the numbers are exactly those from 1 to the number of
/// cells: each of them stands in some cell, and, as the board admits the
/// assignment, in one cell only.
pub proof fn lemma_solution_uses_every_number(b: Board, s: Assignment, v: u8)
    requires
        b.admits(s),
        complete(s),
        1 <= v <= b.cells,
    ensures
        holds(s, v),
{
    let numbers: Seq<int> = Seq::new(s.len(), |i: int| cell_value(s[i]));
    assert forall|i: int, j: int|
        0 <= i < numbers.len() && 0 <= j < numbers.len() && i != j implies numbers[i]
        != numbers[j] by {
        assert(s[i] is Some && s[j] is Some);
        if i < j {
            assert(s[i] != s[j]);
        } else {
            assert(s[j] != s[i]);
        }
    }
    numbers.unique_seq_to_set();
    let range = vstd::set_lib::set_int_range(1, b.cells as int + 1);
    vstd::set_lib::lemma_int_range(1, b.cells as int + 1);
    assert forall|n: int| numbers.to_set().contains(n) implies range.contains(n) by {
        let i = choose|i: int| 0 <= i < numbers.len() && numbers[i] == n;
        assert(s[i] is Some);
        assert(1 <= s[i].unwrap() <= b.cells);
    }
    vstd::seq_lib::seq_to_set_is_finite(numbers);
    vstd::set_lib::lemma_subset_equality(numbers.to_set(), range);
    assert(range.contains(v as int));
    assert(numbers.to_set().contains(v as int));
    let i = choose|i: int| 0 <= i < numbers.len() && numbers[i] == v as int;
    assert(s[i] is Some);
    assert(s[i] == Some(v));
}

/// Soundness. Whatever the search finds below an assignment solves the
/// board and keeps the numbers of that assignment: every cell has its own
/// number from 1 to the number of cells, and every line adds up to the
/// target.
pub proof fn lemma_completions_solve(b: Board, a: Assignment, from: nat)
    requires
        b.valid(),
        b.admits(a),
        from <= b.cells,
        filled_below(a, from as int),
    ensures
        all_solve(b, a, completions(b, a, from)),
    decreases b.cells - from, 1nat, 0nat,
{
    if from >= b.cells {
        if passes(b, a) {
            assert(complete(a));
        }
    } else if a[from as int] is Some {
        lemma_completions_solve(b, a, from + 1);
    } else if !passes(b, a) {
    } else {
        lemma_branches_solve(b, a, from, 1);
    }
}

/// Soundness of one branching: what the search finds with the numbers from
/// `v` on in `cell` solves the board, keeps the numbers of `a`, and has one
/// of those numbers in `cell`.
pub proof fn lemma_branches_solve(b: Board, a: Assignment, cell: nat, v: nat)
    requires
        b.valid(),
        b.admits(a),
        cell < b.cells,
        a[cell as int] is None,
        filled_below(a, cell as int),
        1 <= v,
    ensures
        all_solve(b, a, branches(b, a, cell, v)),
        forall|k: int|
            0 <= k < branches(b, a, cell, v).len() ==> cell_value(
                (#[trigger] branches(b, a, cell, v)[k])[cell as int],
            ) >= v,
    decreases b.cells - cell, 0nat, b.cells + 1 - v,
{
    if v <= b.cells {
        let child = a.update(cell as int, Some(v as u8));
        let below = if holds(a, v as u8) {
            Seq::<Assignment>::empty()
        } else {
            completions(b, child, cell + 1)
        };
        let rest = branches(b, a, cell, v + 1);
        let all = branches(b, a, cell, v);
        assert(all == below + rest);
        lemma_branches_solve(b, a, cell, v + 1);
        if !holds(a, v as u8) {
            lemma_admits_place(b, a, cell as int, v as u8);
            lemma_completions_solve(b, child, cell + 1);
        }
        assert forall|k: int| 0 <= k < all.len() implies solves(b, #[trigger] all[k]) && extends(
            all[k],
            a,
        ) && cell_value(all[k][cell as int]) >= v by {
            if k < below.len() {
                let s = below[k];
                assert(all[k] == s);
                assert(solves(b, s) && extends(s, child));
                assert(child[cell as int] is Some);
                assert forall|i: int| 0 <= i < a.len() && (#[trigger] a[i]) is Some implies s[i]
                    == a[i] by {
                    assert(child[i] is Some);
                }
            } else {
                assert(all[k] == rest[k - below.len()]);
            }
        }
    }
}

/// Order. The search finds its solutions in rising order, so it finds none
/// of them twice.
pub proof fn lemma_completions_rise(b: Board, a: Assignment, from: nat)
    requires
        b.valid(),
        b.admits(a),
        from <= b.cells,
        filled_below(a, from as int),
    ensures
        rising(completions(b, a, from)),
    decreases b.cells - from, 1nat, 0nat,
{
    if from >= b.cells {
    } else if a[from as int] is Some {
        lemma_completions_rise(b, a, from + 1);
    } else if !passes(b, a) {
    } else {
        lemma_branches_rise(b, a, from, 1);
    }
}

/// Order within one branching.
pub proof fn lemma_branches_rise(b: Board, a: Assignment, cell: nat, v: nat)
    requires
        b.valid(),
        b.admits(a),
        cell < b.cells,
        a[cell as int] is None,
        filled_below(a, cell as int),
        1 <= v,
    ensures
        rising(branches(b, a, cell, v)),
    decreases b.cells - cell, 0nat, b.cells + 1 - v,
{
    if v <= b.cells {
        let child = a.update(cell as int, Some(v as u8));
        let below = if holds(a, v as u8) {
            Seq::<Assignment>::empty()
        } else {
            completions(b, child, cell + 1)
        };
        let rest = branches(b, a, cell, v + 1);
        let all = branches(b, a, cell, v);
        assert(all == below + rest);
        lemma_branches_rise(b, a, cell, v + 1);
        lemma_branches_solve(b, a, cell, v + 1);
        if !holds(a, v as u8) {
            lemma_admits_place(b, a, cell as int, v as u8);
            lemma_completions_rise(b, child, cell + 1);
            lemma_completions_solve(b, child, cell + 1);
        }
        assert forall|i: int, j: int| 0 <= i < j < all.len() implies comes_before(
            #[trigger] all[i],
            #[trigger] all[j],
        ) by {
            if j < below.len() {
                assert(all[i] == below[i] && all[j] == below[j]);
            } else if i >= below.len() {
                assert(all[i] == rest[i - below.len()] && all[j] == rest[j - below.len()]);
            } else {
                let s = below[i];
                let t = rest[j - below.len()];
                assert(all[i] == s && all[j] == t);
                assert(solves(b, s) && extends(s, child));
                assert(solves(b, t) && extends(t, a));
                assert(child[cell as int] is Some);
                assert(s[cell as int] == Some(v as u8));
                assert(cell_value(t[cell as int]) >= v + 1);
                assert forall|m: int| 0 <= m < cell implies #[trigger] s[m] == t[m] by {
                    assert(a[m] is Some);
                    assert(child[m] is Some);
                }
                assert(cell_value(s[cell as int]) < cell_value(t[cell as int]));
            }
        }
    }
}

/// Completeness. The search misses nothing: every solution of the board
/// that keeps the numbers of `a` is among those that it finds below `a`.
pub proof fn lemma_solutions_are_found(b: Board, a: Assignment, from: nat, s: Assignment)
    requires
        b.valid(),
        b.admits(a),
        from <= b.cells,
        filled_below(a, from as int),
        solves(b, s),
        extends(s, a),
    ensures
        completions(b, a, from).contains(s),
    decreases b.cells - from, 1nat, 0nat,
{
    lemma_pruning_is_safe(b, a, s);
    if from >= b.cells {
        assert(s =~= a) by {
            assert forall|i: int| 0 <= i < a.len() implies s[i] == a[i] by {
                assert(a[i] is Some);
            }
        }
        assert(seq![a][0] == a);
    } else if a[from as int] is Some {
        lemma_solutions_are_found(b, a, from + 1, s);
    } else {
        assert(s[from as int] is Some);
        assert(1 <= s[from as int].unwrap() <= b.cells);
        lemma_solutions_are_in_branches(b, a, from, 1, s);
    }
}

/// Completeness of one branching: a solution that keeps the numbers of `a`
/// and has a number from `v` on in `cell` is found there.
pub proof fn lemma_solutions_are_in_branches(
    b: Board,
    a: Assignment,
    cell: nat,
    v: nat,
    s: Assignment,
)
    requires
        b.valid(),
        b.admits(a),
        cell < b.cells,
        a[cell as int] is None,
        filled_below(a, cell as int),
        solves(b, s),
        extends(s, a),
        1 <= v <= cell_value(s[cell as int]),
    ensures
        branches(b, a, cell, v).contains(s),
    decreases b.cells - cell, 0nat, b.cells + 1 - v,
{
    assert(s[cell as int] is Some);
    assert(1 <= s[cell as int].unwrap() <= b.cells);
    let child = a.update(cell as int, Some(v as u8));
    let below = if holds(a, v as u8) {
        Seq::<Assignment>::empty()
    } else {
        completions(b, child, cell + 1)
    };
    let rest = branches(b, a, cell, v + 1);
    assert(branches(b, a, cell, v) == below + rest);
    if v == cell_value(s[cell as int]) {
        if holds(a, v as u8) {
            let i = choose|i: int| 0 <= i < a.len() && #[trigger] a[i] == Some(v as u8);
            assert(a[i] is Some);
            assert(s[i] == s[cell as int]);
            if i < cell {
                assert(s[i] is Some);
            } else {
                assert(s[cell as int] is Some);
            }
        }
        lemma_admits_place(b, a, cell as int, v as u8);
        assert(extends(s, child)) by {
            assert forall|i: int| 0 <= i < child.len() && (#[trigger] child[i]) is Some implies s[i]
                == child[i] by {
                if i != cell {
                    assert(a[i] is Some);
                }
            }
        }
        lemma_solutions_are_found(b, child, cell + 1, s);
        let k = choose|k: int| 0 <= k < below.len() && below[k] == s;
        assert((below + rest)[k] == s);
    } else {
        lemma_solutions_are_in_branches(b, a, cell, v + 1, s);
        let k = choose|k: int| 0 <= k < rest.len() && rest[k] == s;
        assert((below + rest)[below.len() + k] == s);
    }
}

/// The search from the empty grid finds exactly the solutions of the board:
/// each assignment that it finds is one, and each one is found.
pub proof fn lemma_search_is_exact(b: Board, s: Assignment)
    requires
        b.valid(),
    ensures
        completions(b, blank(b.cells), 0).contains(s) <==> solves(b, s),
{
    let a = blank(b.cells);
    assert(b.admits(a));
    lemma_completions_solve(b, a, 0);
    if solves(b, s) {
        lemma_solutions_are_found(b, a, 0, s);
    }
    if completions(b, a, 0).contains(s) {
        let k = choose|k: int| 0 <= k < completions(b, a, 0).len() && completions(b, a, 0)[k] == s;
        assert(solves(b, completions(b, a, 0)[k]));
    }
}

/// Nothing comes before itself.
pub proof fn lemma_rising_is_strict(s: Assignment)
    ensures
        !comes_before(s, s),
{
}

/// A rising list holds nothing twice.
pub proof fn lemma_rising_has_no_duplicates(list: Seq<Assignment>)
    requires
        rising(list),
    ensures
        list.no_duplicates(),
{
    assert forall|i: int, j: int| 0 <= i < list.len() && 0 <= j < list.len() && i != j implies list[i]
        != list[j] by {
        if i < j {
            assert(comes_before(list[i], list[j]));
        } else {
            assert(comes_before(list[j], list[i]));
        }
        lemma_rising_is_strict(list[i]);
    }
}

/// What comes before something that comes before a third comes before the
/// third.
pub proof fn lemma_comes_before_chain(s: Assignment, t: Assignment, u: Assignment)
    requires
        comes_before(s, t),
        comes_before(t, u),
    ensures
        comes_before(s, u),
{
    let k1 = choose|k: int|
        0 <= k < s.len() && k < t.len() && #[trigger] cell_value(s[k]) < cell_value(t[k])
            && forall|i: int| 0 <= i < k ==> #[trigger] s[i] == t[i];
    let k2 = choose|k: int|
        0 <= k < t.len() && k < u.len() && #[trigger] cell_value(t[k]) < cell_value(u[k])
            && forall|i: int| 0 <= i < k ==> #[trigger] t[i] == u[i];
    let k = if k1 <= k2 {
        k1
    } else {
        k2
    };
    assert forall|i: int| 0 <= i < k implies #[trigger] s[i] == u[i] by {
        assert(s[i] == t[i]);
        assert(t[i] == u[i]);
    }
    if k1 < k2 {
        assert(t[k1] == u[k1]);
    } else if k2 < k1 {
        assert(s[k2] == t[k2]);
    }
    assert(cell_value(s[k]) < cell_value(u[k]));
}

/// Two rising lists that hold the same assignments are the same list.
pub proof fn lemma_rising_lists_agree(x: Seq<Assignment>, y: Seq<Assignment>)
    requires
        rising(x),
        rising(y),
        forall|s: Assignment|
            #![trigger x.contains(s)]
            #![trigger y.contains(s)]
            x.contains(s) <==> y.contains(s),
    ensures
        x == y,
    decreases x.len(),
{
    if x.len() == 0 {
        if y.len() > 0 {
            assert(y.contains(y[0]));
            assert(x.contains(y[0]));
        }
        assert(x =~= y);
    } else {
        assert(x.contains(x[0]));
        assert(y.contains(x[0]));
        let j = choose|j: int| 0 <= j < y.len() && y[j] == x[0];
        assert(y.contains(y[0]));
        assert(x.contains(y[0]));
        let i = choose|i: int| 0 <= i < x.len() && x[i] == y[0];
        if j > 0 {
            assert(comes_before(y[0], y[j]));
            if i > 0 {
                assert(comes_before(x[0], x[i]));
                lemma_comes_before_chain(x[0], y[0], x[0]);
            }
            lemma_rising_is_strict(x[0]);
        }
        assert(x[0] == y[0]);
        let xs = x.skip(1);
        let ys = y.skip(1);
        assert forall|a: int, b: int| 0 <= a < b < xs.len() implies comes_before(
            #[trigger] xs[a],
            #[trigger] xs[b],
        ) by {
            assert(xs[a] == x[a + 1] && xs[b] == x[b + 1]);
        }
        assert forall|a: int, b: int| 0 <= a < b < ys.len() implies comes_before(
            #[trigger] ys[a],
            #[trigger] ys[b],
        ) by {
            assert(ys[a] == y[a + 1] && ys[b] == y[b + 1]);
        }
        assert forall|s: Assignment|
            #![trigger xs.contains(s)]
            #![trigger ys.contains(s)]
            xs.contains(s) <==> ys.contains(s) by {
            if xs.contains(s) {
                let k = choose|k: int| 0 <= k < xs.len() && xs[k] == s;
                assert(x[k + 1] == s);
                assert(x.contains(s));
                assert(y.contains(s));
                let m = choose|m: int| 0 <= m < y.len() && y[m] == s;
                if m == 0 {
                    assert(comes_before(x[0], x[k + 1]));
                    lemma_rising_is_strict(s);
                }
                assert(ys[m - 1] == s);
            }
            if ys.contains(s) {
                let k = choose|k: int| 0 <= k < ys.len() && ys[k] == s;
                assert(y[k + 1] == s);
                assert(y.contains(s));
                assert(x.contains(s));
                let m = choose|m: int| 0 <= m < x.len() && x[m] == s;
                if m == 0 {
                    assert(comes_before(y[0], y[k + 1]));
                    lemma_rising_is_strict(s);
                }
                assert(xs[m - 1] == s);
            }
        }
        lemma_rising_lists_agree(xs, ys);
        assert(x =~= y) by {
            assert(x.len() == y.len());
            assert forall|n: int| 0 <= n < x.len() implies x[n] == y[n] by {
                if n > 0 {
                    assert(x[n] == xs[n - 1]);
                    assert(y[n] == ys[n - 1]);
                }
            }
        }
    }
}

/// The search is pinned down by what it is to find: any list of exactly
/// the solutions that keep the numbers of `a`, in rising order, is the list
/// that the search from `a` hands out. Which cell the search fills next and
/// which lines it checks on the way leave no trace in the result.
pub proof fn lemma_enumeration_is_unique(b: Board, a: Assignment, list: Seq<Assignment>)
    requires
        b.valid(),
        b.admits(a),
        rising(list),
        forall|s: Assignment| #[trigger] list.contains(s) <==> solves(b, s) && extends(s, a),
    ensures
        list == completions(b, a, 0),
{
    let found = completions(b, a, 0);
    lemma_completions_rise(b, a, 0);
    lemma_completions_solve(b, a, 0);
    assert forall|s: Assignment|
        #![trigger list.contains(s)]
        #![trigger found.contains(s)]
        list.contains(s) <==> found.contains(s) by {
        if found.contains(s) {
            let k = choose|k: int| 0 <= k < found.len() && found[k] == s;
            assert(solves(b, found[k]) && extends(found[k], a));
        }
        if solves(b, s) && extends(s, a) {
            lemma_solutions_are_found(b, a, 0, s);
        }
    }
    lemma_rising_lists_agree(list, found);
}

} // verus!
