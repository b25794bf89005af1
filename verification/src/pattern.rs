//! The pattern of active cells: which positions of a rectangle belong to
//! the grid, and the list of those positions in reading order.

use itertools::Itertools;
use vstd::prelude::*;

verus! {

/// A pattern as the contracts read it: one sequence of flags per row.
pub open spec fn rows(pattern: Seq<Vec<bool>>) -> Seq<Seq<bool>> {
    pattern.map_values(|row: Vec<bool>| row@)
}

/// The number of columns, taken from the first row.
pub open spec fn width(p: Seq<Seq<bool>>) -> nat {
    if p.len() == 0 {
        0
    } else {
        p[0].len()
    }
}

/// Every row has the same number of columns.
pub open spec fn rectangular(p: Seq<Seq<bool>>) -> bool {
    forall|y: int| 0 <= y < p.len() ==> (#[trigger] p[y]).len() == width(p)
}

/// The position in row `y` and column `x` lies in the pattern and is
/// marked as a cell.
pub open spec fn active(p: Seq<Seq<bool>>, y: int, x: int) -> bool {
    0 <= y < p.len() && 0 <= x < p[y].len() && p[y][x]
}

/// The test that picks the cells out of all positions.
pub open spec fn is_cell(p: Seq<Seq<bool>>) -> spec_fn((usize, usize)) -> bool {
    |c: (usize, usize)| active(p, c.0 as int, c.1 as int)
}

/// Every position of a rectangle of `h` rows and `w` columns, row by row
/// and within a row from left to right.
pub open spec fn row_major(h: nat, w: nat) -> Seq<(usize, usize)> {
    Seq::new(h * w, |k: int| ((k / w as int) as usize, (k % w as int) as usize))
}

/// The cells of a pattern in reading order. The index of a cell in this
/// list is the index by which assignments and lines name it.
pub open spec fn active_coords(p: Seq<Seq<bool>>) -> Seq<(usize, usize)> {
    row_major(p.len(), width(p)).filter(is_cell(p))
}

/// `a` is read before `b`: it stands in an earlier row, or in the same row
/// further left.
pub open spec fn read_before(a: (usize, usize), b: (usize, usize)) -> bool {
    a.0 < b.0 || (a.0 == b.0 && a.1 < b.1)
}

/// `coords` lists the cells of the pattern, each once, in reading order.
pub open spec fn lists_cells(p: Seq<Seq<bool>>, coords: Seq<(usize, usize)>) -> bool {
    &&& forall|k: int|
        0 <= k < coords.len() ==> active(p, (#[trigger] coords[k]).0 as int, coords[k].1 as int)
    &&& forall|i: int, j: int|
        0 <= i < j < coords.len() ==> read_before(#[trigger] coords[i], #[trigger] coords[j])
    &&& forall|y: int, x: int| #[trigger]
        active(p, y, x) ==> coords.contains((y as usize, x as usize))
}

/// Where the `k`-th position of a rectangle lies, and that a later position
/// is read later.
pub proof fn lemma_row_major(h: nat, w: nat, k: int)
    requires
        0 <= k < h * w,
    ensures
        w > 0,
        0 <= k / (w as int) < h,
        0 <= k % (w as int) < w,
        k == (k / (w as int)) * w + k % (w as int),
{
    if w == 0 {
        assert(h * w == 0) by (nonlinear_arith)
            requires
                w == 0,
        ;
    }
    let d = w as int;
    vstd::arithmetic::div_mod::lemma_fundamental_div_mod(k, d);
    vstd::arithmetic::div_mod::lemma_mod_bound(k, d);
    assert(d * (h as int) == h * w) by (nonlinear_arith)
        requires
            d == w,
    ;
    vstd::arithmetic::div_mod::lemma_multiply_divide_lt(k, d, h as int);
    vstd::arithmetic::div_mod::lemma_div_pos_is_pos(k, d);
    assert((k / d) * d == d * (k / d)) by (nonlinear_arith);
}

/// The position in row `y` and column `x` of a rectangle is its
/// `y * w + x`-th.
pub proof fn lemma_row_major_at(h: nat, w: nat, y: int, x: int)
    requires
        0 <= y < h,
        0 <= x < w,
    ensures
        0 <= y * w + x < h * w,
        (y * w + x) / (w as int) == y,
        (y * w + x) % (w as int) == x,
{
    let d = w as int;
    assert(0 <= y * d + x < h * d) by (nonlinear_arith)
        requires
            0 <= y < h,
            0 <= x < d,
    ;
    vstd::arithmetic::div_mod::lemma_fundamental_div_mod_converse(y * d + x, d, y, x);
}

/// Whether the position `(y, x)` is a cell of the pattern.
pub fn is_active(pattern: &Vec<Vec<bool>>, y: usize, x: usize) -> (r: bool)
    ensures
        r == active(rows(pattern@), y as int, x as int),
{
    y < pattern.len() && x < pattern[y].len() && pattern[y][x]
}

/// Whether every row of the pattern has as many columns as the first.
pub fn is_rectangular(pattern: &Vec<Vec<bool>>) -> (r: bool)
    ensures
        r == rectangular(rows(pattern@)),
{
    let h: usize = pattern.len();
    if h == 0 {
        return true;
    }
    let w: usize = pattern[0].len();
    let mut y: usize = 0;
    while y < h
        invariant
            h == pattern@.len(),
            0 < h,
            w == width(rows(pattern@)),
            y <= h,
            forall|i: int| 0 <= i < y ==> (#[trigger] rows(pattern@)[i]).len() == w,
        decreases h - y,
    {
        if pattern[y].len() != w {
            assert(rows(pattern@)[y as int].len() != w);
            return false;
        }
        y += 1;
    }
    true
}

/// The pairs `(i, j)` with `i < h` and `j < w`, as
/// `Itertools::cartesian_product` yields them for the two ranges: for each
/// `i` in rising order, every `j` in rising order. The contract says so by
/// giving the pair at each place of the result; nothing of it is proved here.
#[verifier::external_body]
fn cartesian_product(h: usize, w: usize) -> (pairs: Vec<(usize, usize)>)
    requires
        h * w * 16 <= isize::MAX,
    ensures
        pairs@ == row_major(h as nat, w as nat),
{
    (0..h).cartesian_product(0..w).collect()
}

/// The cells of a rectangular pattern in reading order.
pub fn get_active_tiles_coords(pattern: &Vec<Vec<bool>>) -> (coords: Vec<(usize, usize)>)
    requires
        rectangular(rows(pattern@)),
        pattern@.len() * width(rows(pattern@)) * 16 <= isize::MAX,
    ensures
        coords@ == active_coords(rows(pattern@)),
        lists_cells(rows(pattern@), coords@),
{
    let ghost p = rows(pattern@);
    let h: usize = pattern.len();
    let w: usize = if h == 0 {
        0
    } else {
        pattern[0].len()
    };
    let pairs = cartesian_product(h, w);
    let ghost all = row_major(h as nat, w as nat);
    let mut coords: Vec<(usize, usize)> = Vec::new();
    let mut k: usize = 0;
    proof {
        assert(all.take(0).filter(is_cell(p)) =~= Seq::<(usize, usize)>::empty()) by {
            assert(all.take(0) =~= Seq::<(usize, usize)>::empty());
            all.take(0).lemma_filter_len(is_cell(p));
        }
    }
    while k < pairs.len()
        invariant
            p == rows(pattern@),
            rectangular(p),
            h == p.len(),
            w == width(p),
            pairs@ == all,
            all == row_major(h as nat, w as nat),
            k <= all.len(),
            coords@ == all.take(k as int).filter(is_cell(p)),
            forall|i: int|
                0 <= i < coords@.len() ==> active(
                    p,
                    (#[trigger] coords@[i]).0 as int,
                    coords@[i].1 as int,
                ) && coords@[i].0 * w + coords@[i].1 < k,
            forall|i: int, j: int|
                0 <= i < j < coords@.len() ==> read_before(
                    #[trigger] coords@[i],
                    #[trigger] coords@[j],
                ),
            forall|j: int|
                0 <= j < k && is_cell(p)(#[trigger] all[j]) ==> coords@.contains(all[j]),
        decreases all.len() - k,
    {
        let (y, x) = pairs[k];
        let ghost before = coords@;
        proof {
            lemma_row_major(h as nat, w as nat, k as int);
            assert(all[k as int] == (y, x));
            assert(p[y as int].len() == w);
            assert(all.take(k + 1) =~= all.take(k as int).push((y, x)));
            all.take(k as int).lemma_filter_push((y, x), is_cell(p));
        }
        if pattern[y][x] {
            coords.push((y, x));
            proof {
                assert forall|i: int, j: int| 0 <= i < j < coords@.len() implies read_before(
                    #[trigger] coords@[i],
                    #[trigger] coords@[j],
                ) by {
                    if j == before.len() {
                        let c = before[i];
                        assert(coords@[i] == c);
                        assert(c.0 * w + c.1 < y * w + x);
                        assert(c.1 < w);
                        assert(read_before(c, (y, x))) by (nonlinear_arith)
                            requires
                                c.0 * w + c.1 < y * w + x,
                                c.1 < w,
                                x < w,
                        {
                            if c.0 > y {
                                assert(c.0 * w >= (y + 1) * w);
                            }
                        }
                    } else {
                        assert(coords@[i] == before[i] && coords@[j] == before[j]);
                    }
                }
            }
        }
        proof {
            assert forall|j: int| 0 <= j < k + 1 && is_cell(p)(#[trigger] all[j]) implies coords@.contains(
                all[j],
            ) by {
                if j < k {
                    assert(before.contains(all[j]));
                    let i = choose|i: int| 0 <= i < before.len() && before[i] == all[j];
                    assert(coords@[i] == all[j]);
                } else {
                    assert(coords@[coords@.len() - 1] == all[j]);
                }
            }
            assert forall|i: int| 0 <= i < coords@.len() implies active(
                p,
                (#[trigger] coords@[i]).0 as int,
                coords@[i].1 as int,
            ) && coords@[i].0 * w + coords@[i].1 < k + 1 by {
                if i < before.len() {
                    assert(coords@[i] == before[i]);
                }
            }
        }
        k += 1;
    }
    proof {
        assert(all.take(k as int) =~= all);
        assert forall|y: int, x: int| #[trigger] active(p, y, x) implies coords@.contains(
            (y as usize, x as usize),
        ) by {
            assert(p[y].len() == w);
            lemma_row_major_at(h as nat, w as nat, y, x);
            let j = y * w + x;
            assert(all[j] == (y as usize, x as usize));
            assert(is_cell(p)(all[j]));
        }
    }
    coords
}

} // verus!
