//! Walking a line: from a start position, step by step in one direction,
//! for as long as the positions are cells of the pattern.

use vstd::prelude::*;
use crate::pattern::{active, is_active, rows};

verus! {

/// A bound on the number of cells that a walk from `(y, x)` can still pass:
/// the distance to the edge that the step leads to.
pub open spec fn span(p: Seq<Seq<bool>>, y: int, x: int, dy: int, dx: int) -> nat {
    let room = if dy > 0 {
        p.len() - y
    } else if dy < 0 {
        y + 1
    } else if dx > 0 {
        p[y].len() - x
    } else {
        x + 1
    };
    if room < 0 {
        0
    } else {
        room as nat
    }
}

/// The positions of the line that starts at `(y, x)` and goes on by
/// `(dy, dx)`: it ends before the first position that is no cell of the
/// pattern, be it marked inactive or outside the rectangle. A step of
/// `(0, 0)` leads nowhere and gives no line.
pub open spec fn walk(p: Seq<Seq<bool>>, y: int, x: int, dy: int, dx: int) -> Seq<(int, int)>
    decreases span(p, y, x, dy, dx),
{
    if (dy == 0 && dx == 0) || !active(p, y, x) {
        Seq::empty()
    } else {
        seq![(y, x)] + walk(p, y + dy, x + dx, dy, dx)
    }
}

/// Positions as pairs of integers.
pub open spec fn spots(line: Seq<(usize, usize)>) -> Seq<(int, int)> {
    line.map_values(|c: (usize, usize)| (c.0 as int, c.1 as int))
}

/// Every position of a walk is a cell of the pattern.
pub proof fn lemma_walk_active(p: Seq<Seq<bool>>, y: int, x: int, dy: int, dx: int, k: int)
    requires
        0 <= k < walk(p, y, x, dy, dx).len(),
    ensures
        active(p, walk(p, y, x, dy, dx)[k].0, walk(p, y, x, dy, dx)[k].1),
    decreases k,
{
    let rest = walk(p, y + dy, x + dx, dy, dx);
    assert(walk(p, y, x, dy, dx) == seq![(y, x)] + rest);
    if k > 0 {
        lemma_walk_active(p, y + dy, x + dx, dy, dx, k - 1);
        assert((seq![(y, x)] + rest)[k] == rest[k - 1]);
    }
}

/// The `k`-th position of a walk lies `k` steps from its start.
pub proof fn lemma_walk_steps(p: Seq<Seq<bool>>, y: int, x: int, dy: int, dx: int, k: int)
    requires
        0 <= k < walk(p, y, x, dy, dx).len(),
    ensures
        walk(p, y, x, dy, dx)[k] == (y + k * dy, x + k * dx),
    decreases k,
{
    let rest = walk(p, y + dy, x + dx, dy, dx);
    assert(walk(p, y, x, dy, dx) == seq![(y, x)] + rest);
    if k > 0 {
        lemma_walk_steps(p, y + dy, x + dx, dy, dx, k - 1);
        assert((seq![(y, x)] + rest)[k] == rest[k - 1]);
        assert(dy + (k - 1) * dy == k * dy && dx + (k - 1) * dx == k * dx) by (nonlinear_arith);
    } else {
        assert(0 * dy == 0 && 0 * dx == 0) by (nonlinear_arith);
    }
}

/// A walk does not stop short: the position one step after its last is no
/// cell of the pattern.
pub proof fn lemma_walk_ends(p: Seq<Seq<bool>>, y: int, x: int, dy: int, dx: int)
    requires
        dy != 0 || dx != 0,
    ensures
        !active(
            p,
            y + walk(p, y, x, dy, dx).len() * dy,
            x + walk(p, y, x, dy, dx).len() * dx,
        ),
    decreases span(p, y, x, dy, dx),
{
    if active(p, y, x) {
        let rest = walk(p, y + dy, x + dx, dy, dx);
        assert(walk(p, y, x, dy, dx) == seq![(y, x)] + rest);
        lemma_walk_ends(p, y + dy, x + dx, dy, dx);
        let n = rest.len() as int;
        assert(dy + n * dy == (n + 1) * dy && dx + n * dx == (n + 1) * dx) by (nonlinear_arith);
    } else {
        assert(0 * dy == 0 && 0 * dx == 0) by (nonlinear_arith);
    }
}

/// The positions of the line from `start` in the direction `step`, in walk
/// order.
pub fn walk_line(pattern: &Vec<Vec<bool>>, start: (usize, usize), step: (isize, isize)) -> (line:
    Vec<(usize, usize)>)
    ensures
        spots(line@) == walk(
            rows(pattern@),
            start.0 as int,
            start.1 as int,
            step.0 as int,
            step.1 as int,
        ),
{
    let ghost p = rows(pattern@);
    let ghost dy = step.0 as int;
    let ghost dx = step.1 as int;
    let ghost whole = walk(p, start.0 as int, start.1 as int, dy, dx);
    let mut line: Vec<(usize, usize)> = Vec::new();
    if step.0 == 0 && step.1 == 0 {
        assert(spots(line@) =~= whole);
        return line;
    }
    let mut y: usize = start.0;
    let mut x: usize = start.1;
    assert(whole =~= spots(line@) + walk(p, y as int, x as int, dy, dx));
    loop
        invariant_except_break
            whole == spots(line@) + walk(p, y as int, x as int, dy, dx),
        invariant
            p == rows(pattern@),
            dy == step.0 as int,
            dx == step.1 as int,
            dy != 0 || dx != 0,
        ensures
            whole == spots(line@),
        decreases span(p, y as int, x as int, dy, dx),
    {
        if !is_active(pattern, y, x) {
            assert(whole =~= spots(line@));
            break ;
        }
        let ghost so_far = spots(line@);
        let ghost rest = walk(p, y + dy, x + dx, dy, dx);
        line.push((y, x));
        proof {
            assert(spots(line@) =~= so_far.push((y as int, x as int)));
            assert(whole =~= spots(line@) + rest);
        }
        let ny: Option<usize> = y.checked_add_signed(step.0);
        let nx: Option<usize> = x.checked_add_signed(step.1);
        match (ny, nx) {
            (Some(next_y), Some(next_x)) => {
                y = next_y;
                x = next_x;
            },
            _ => {
                proof {
                    assert(pattern.len() == pattern@.len());
                    if 0 <= y + dy < p.len() {
                        assert(p[y + dy] == pattern@[y + dy]@);
                        assert(pattern@[y + dy].len() == pattern@[y + dy]@.len());
                    }
                    assert(!active(p, y + dy, x + dx));
                    assert(rest =~= Seq::<(int, int)>::empty());
                    assert(whole =~= spots(line@));
                }
                break ;
            },
        }
    }
    line
}

} // verus!
