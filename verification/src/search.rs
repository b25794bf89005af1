//! The backtracking enumerator: a depth-first walk over the placements that
//! hands out one solution at a time.

use vstd::prelude::*;
use crate::grid::Grid;
use crate::laws::{all_solve, lemma_completions_rise, lemma_completions_solve, rising};
use crate::model::{
    branch_nodes, branches, cell_value, comes_before, completions, cursor, extends, filled_below,
    holds, lemma_dead_end, lemma_descend, lemma_found, lemma_next_branch, lemma_no_branch,
    lemma_pruned, lemma_siblings_pop, lemma_siblings_push, nodes, sibling_nodes, siblings, solves,
    Assignment, Board,
};
use crate::puzzle::Puzzle;
use crate::tiling::cells_of;

verus! {

/// A search in progress. It holds the assignment that it will look at next
/// and the cells that it filled to get there, so that it can be asked for
/// one solution, left alone, and asked again.
pub struct Solutions<'a> {
    cur: Puzzle<'a>,
    path: Vec<usize>,
    exhausted: bool,
    visited: u64,
    seed: Ghost<Assignment>,
    given: Ghost<nat>,
}

/// A count that stops at the largest `u64`.
pub open spec fn capped(n: int) -> int {
    if n > u64::MAX {
        u64::MAX as int
    } else {
        n
    }
}

impl<'a> Solutions<'a> {
    /// The grid that is searched.
    pub closed spec fn grid(&self) -> Grid {
        self.cur.grid()
    }

    /// What the search reads of the grid.
    pub open spec fn board(&self) -> Board {
        self.grid().board()
    }

    /// The cells that the search has filled on the way to the assignment
    /// that it looks at next.
    pub closed spec fn trail(&self) -> Seq<int> {
        cells_of(self.path@)
    }

    /// What is still to come after the assignment that the search looks at
    /// next.
    spec fn later(&self) -> Seq<Assignment> {
        siblings(self.cur.board(), self.cur@, self.trail())
    }

    /// The number of assignments to look at after the next one and what
    /// lies below it.
    spec fn later_nodes(&self) -> nat {
        sibling_nodes(self.cur.board(), self.cur@, self.trail())
    }

    /// The solutions that are still to come, in the order in which they will
    /// come.
    pub closed spec fn remaining(&self) -> Seq<Assignment> {
        if self.exhausted {
            Seq::empty()
        } else {
            completions(self.cur.board(), self.cur@, cursor(self.trail())) + self.later()
        }
    }

    /// The number of assignments that the search has yet to look at before
    /// it is through.
    pub closed spec fn nodes_left(&self) -> nat {
        if self.exhausted {
            0
        } else {
            nodes(self.cur.board(), self.cur@, cursor(self.trail())) + self.later_nodes()
        }
    }

    /// The number of assignments that the search has looked at, which stops
    /// counting at the largest `u64`.
    pub closed spec fn nodes_seen(&self) -> nat {
        self.visited as nat
    }

    /// The assignment that the search started from.
    pub closed spec fn seed(&self) -> Assignment {
        self.seed@
    }

    /// The number of solutions handed out so far.
    pub closed spec fn handed_out(&self) -> nat {
        self.given@
    }

    /// Every solution of the search, those handed out and those to come:
    /// what a search from the seed finds.
    pub open spec fn all(&self) -> Seq<Assignment> {
        completions(self.board(), self.seed(), 0)
    }

    /// The invariant of a search: it stands somewhere in the list of all its
    /// solutions, with those before that place handed out and the others
    /// still to come.
    pub closed spec fn wf(&self) -> bool {
        &&& self.steady()
        &&& self.cur.board().admits(self.seed@)
        &&& self.given@ <= self.all().len()
        &&& self.remaining() == self.all().skip(self.given@ as int)
    }

    /// What holds between any two steps: the cells of the trail rise, each
    /// holds a number, and every cell up to the last of them is filled.
    spec fn steady(&self) -> bool {
        &&& self.cur.wf()
        &&& forall|k: int|
            0 <= k < self.path@.len() ==> (#[trigger] self.path@[k]) < self.cur@.len()
                && self.cur@[self.path@[k] as int] is Some
        &&& forall|i: int, j: int|
            0 <= i < j < self.path@.len() ==> (#[trigger] self.path@[i]) < (
            #[trigger] self.path@[j])
        &&& filled_below(self.cur@, cursor(self.trail()) as int)
    }

    /// The number of assignments looked at so far.
    pub fn visited(&self) -> (n: u64)
        ensures
            n == self.nodes_seen(),
    {
        self.visited
    }

    /// The cell from which to look for the next empty one.
    fn start(&self) -> (from: usize)
        requires
            self.steady(),
        ensures
            from == cursor(self.trail()),
            from <= self.cur@.len(),
    {
        if self.path.len() == 0 {
            0
        } else {
            let last: usize = self.path[self.path.len() - 1];
            assert(self.path@[self.path@.len() - 1] < self.cur@.len());
            proof {
                self.cur.lemma_wf();
            }
            last + 1
        }
    }

    /// Fills the empty cell `c` with the unused number `v` and adds the cell
    /// to the trail: the search will look at that assignment next.
    fn descend(&mut self, c: usize, v: u8)
        requires
            old(self).steady(),
            cursor(old(self).trail()) <= c < old(self).cur@.len(),
            old(self).cur@[c as int] is None,
            forall|i: int| 0 <= i < c ==> (#[trigger] old(self).cur@[i]) is Some,
            1 <= v <= old(self).cur.board().cells,
            !holds(old(self).cur@, v),
        ensures
            final(self).steady(),
            final(self).grid() == old(self).grid(),
            final(self).seed == old(self).seed,
            final(self).given == old(self).given,
            final(self).visited == old(self).visited,
            !final(self).exhausted,
            final(self).remaining() == completions(
                old(self).cur.board(),
                old(self).cur@.update(c as int, Some(v)),
                (c + 1) as nat,
            ) + (branches(old(self).cur.board(), old(self).cur@, c as nat, (v + 1) as nat) + old(
                self,
            ).later()),
            final(self).nodes_left() == nodes(
                old(self).cur.board(),
                old(self).cur@.update(c as int, Some(v)),
                (c + 1) as nat,
            ) + branch_nodes(old(self).cur.board(), old(self).cur@, c as nat, (v + 1) as nat)
                + old(self).later_nodes(),
    {
        let ghost b = self.cur.board();
        let ghost a = self.cur@;
        let ghost raw = self.path@;
        let ghost trail = self.trail();
        let placed = self.cur.place(c, v);
        assert(placed);
        self.path.push(c);
        self.exhausted = false;
        proof {
            assert(self.trail() =~= trail.push(c as int));
            lemma_siblings_push(b, a, trail, c as int, v);
            assert forall|i: int, j: int| 0 <= i < j < self.path@.len() implies (
            #[trigger] self.path@[i]) < (#[trigger] self.path@[j]) by {
                assert(self.path@[i] == raw[i]);
                if j < raw.len() {
                    assert(self.path@[j] == raw[j]);
                } else {
                    assert(raw[i] <= raw[raw.len() - 1]);
                    assert(trail.last() == raw[raw.len() - 1]);
                }
            }
            assert forall|k: int| 0 <= k < self.path@.len() implies (#[trigger] self.path@[k])
                < self.cur@.len() && self.cur@[self.path@[k] as int] is Some by {
                if k < raw.len() {
                    assert(self.path@[k] == raw[k]);
                }
            }
        }
    }

    /// Goes back from an assignment that the search is done with to the next
    /// one that it has to look at: empties the last cell of the trail and
    /// fills it with the next larger unused number, and where there is none,
    /// does the same one cell further back.
    fn retreat(&mut self)
        requires
            old(self).steady(),
        ensures
            final(self).steady(),
            final(self).grid() == old(self).grid(),
            final(self).seed == old(self).seed,
            final(self).given == old(self).given,
            final(self).visited == old(self).visited,
            final(self).remaining() == old(self).later(),
            final(self).nodes_left() == old(self).later_nodes(),
    {
        loop
            invariant
                self.steady(),
                self.grid() == old(self).grid(),
                self.seed == old(self).seed,
                self.given == old(self).given,
                self.visited == old(self).visited,
                self.later() == old(self).later(),
                self.later_nodes() == old(self).later_nodes(),
            decreases self.path@.len(),
        {
            let ghost b = self.cur.board();
            let ghost a = self.cur@;
            let ghost trail = self.trail();
            let ghost raw = self.path@;
            proof {
                self.cur.lemma_wf();
            }
            match self.path.pop() {
                None => {
                    self.exhausted = true;
                    return ;
                },
                Some(c) => {
                    let ghost parent = a.update(c as int, None);
                    proof {
                        assert(raw[raw.len() - 1] == c);
                        assert(trail.last() == c as int);
                        assert(self.trail() =~= trail.drop_last());
                        assert(a[c as int] is Some);
                        lemma_siblings_pop(b, a, trail);
                        assert forall|k: int| 0 <= k < self.path@.len() implies (
                        #[trigger] self.path@[k]) < c by {
                            assert(self.path@[k] == raw[k]);
                            assert(raw[k] < raw[raw.len() - 1]);
                        }
                        assert(forall|i: int| 0 <= i < c ==> (#[trigger] a[i]) is Some);
                    }
                    let held = self.cur.clear(c);
                    let v: u8 = match held {
                        Some(v) => v,
                        None => 0,
                    };
                    proof {
                        assert(cell_value(a[c as int]) == v as int);
                        assert(1 <= v <= b.cells);
                        if self.path@.len() > 0 {
                            assert(self.path@[self.path@.len() - 1] < c);
                        }
                        assert(self.steady());
                    }
                    let next: Option<u8> = if v < 255 {
                        self.cur.next_unused(v + 1)
                    } else {
                        None
                    };
                    match next {
                        None => {
                            proof {
                                lemma_no_branch(b, parent, c as nat, (v + 1) as nat);
                                assert(old(self).later() =~= self.later());
                            }
                        },
                        Some(w) => {
                            proof {
                                lemma_next_branch(b, parent, c as nat, (v + 1) as nat, w as nat);
                            }
                            self.descend(c, w);
                            proof {
                                assert(self.remaining() =~= old(self).later());
                            }
                            return ;
                        },
                    }
                },
            }
        }
    }

    /// Looks at the current assignment: hands it out if it is a solution,
    /// fills its first empty cell with the smallest unused number if no line
    /// fails yet, and otherwise goes on to the next assignment in line.
    fn visit(&mut self) -> (r: Option<Puzzle<'a>>)
        requires
            old(self).steady(),
            !old(self).exhausted,
        ensures
            final(self).steady(),
            final(self).grid() == old(self).grid(),
            final(self).seed == old(self).seed,
            final(self).given == old(self).given,
            final(self).nodes_left() + 1 == old(self).nodes_left(),
            final(self).visited as int == capped(old(self).visited + 1),
            match r {
                Some(p) => p.wf() && p.grid() == old(self).grid() && old(self).remaining()
                    == seq![p@] + final(self).remaining(),
                None => final(self).remaining() == old(self).remaining(),
            },
    {
        let ghost b = self.cur.board();
        let ghost a = self.cur@;
        proof {
            self.cur.lemma_wf();
        }
        let n: usize = self.cur.descriptor().cell_count();
        let from: usize = self.start();
        let c: usize = self.cur.first_empty(from);
        let ok: bool = self.cur.check_solution();
        if self.visited < u64::MAX {
            self.visited = self.visited + 1;
        }
        if !ok {
            proof {
                lemma_pruned(b, a, from as nat);
                assert(old(self).remaining() =~= old(self).later());
            }
            self.retreat();
            None
        } else if c >= n {
            let p = self.cur.duplicate();
            proof {
                lemma_found(b, a, from as nat);
            }
            self.retreat();
            Some(p)
        } else {
            match self.cur.next_unused(1) {
                None => {
                    proof {
                        lemma_dead_end(b, a, from as nat, c as nat);
                        assert(old(self).remaining() =~= old(self).later());
                    }
                    self.retreat();
                    None
                },
                Some(v) => {
                    proof {
                        lemma_descend(b, a, from as nat, c as nat, v as nat);
                    }
                    self.descend(c, v);
                    proof {
                        assert(self.remaining() =~= old(self).remaining());
                    }
                    None
                },
            }
        }
    }

    /// The next solution, or `None` once the search is through. Each call
    /// goes on from where the last one stopped and looks at no more
    /// assignments than it needs to find one solution. What it hands out
    /// solves the board and keeps the numbers that the search started from.
    pub fn next_puzzle(&mut self) -> (r: Option<Puzzle<'a>>)
        requires
            old(self).wf(),
        ensures
            final(self).wf(),
            final(self).grid() == old(self).grid(),
            final(self).seed() == old(self).seed(),
            match r {
                Some(p) => p.wf() && p.grid() == old(self).grid() && old(self).remaining().len() > 0
                    && p@ == old(self).remaining()[0] && final(self).remaining() == old(
                    self,
                ).remaining().skip(1) && final(self).handed_out() == old(self).handed_out() + 1
                    && solves(old(self).board(), p@) && extends(p@, old(self).seed()),
                None => old(self).remaining().len() == 0 && final(self).remaining().len() == 0
                    && final(self).nodes_left() == 0 && final(self).handed_out() == old(
                    self,
                ).handed_out(),
            },
            final(self).nodes_left() <= old(self).nodes_left(),
            final(self).nodes_seen() == capped(
                old(self).nodes_seen() + old(self).nodes_left() - final(self).nodes_left(),
            ),
    {
        loop
            invariant
                old(self).wf(),
                self.steady(),
                self.grid() == old(self).grid(),
                self.seed == old(self).seed,
                self.given == old(self).given,
                self.remaining() == old(self).remaining(),
                self.nodes_left() <= old(self).nodes_left(),
                self.visited as int == capped(
                    old(self).visited + old(self).nodes_left() - self.nodes_left(),
                ),
            decreases self.nodes_left(),
        {
            if self.exhausted {
                return None;
            }
            match self.visit() {
                Some(p) => {
                    proof {
                        let all = self.all();
                        let h = self.given@ as int;
                        assert((seq![p@] + self.remaining()).skip(1) =~= self.remaining());
                        assert((seq![p@] + self.remaining())[0] == p@);
                        assert(all.skip(h)[0] == all[h]);
                        assert(all.skip(h).skip(1) =~= all.skip(h + 1));
                        self.cur.lemma_wf();
                        lemma_completions_solve(self.board(), self.seed@, 0);
                    }
                    self.given = Ghost((self.given@ + 1) as nat);
                    return Some(p);
                },
                None => {},
            }
        }
    }

    /// Where a search stands: what is still to come is the list of all its
    /// solutions without those handed out.
    pub proof fn lemma_position(&self)
        requires
            self.wf(),
        ensures
            self.handed_out() <= self.all().len(),
            self.remaining() == self.all().skip(self.handed_out() as int),
            self.board().valid(),
            self.board().admits(self.seed()),
    {
        self.cur.lemma_wf();
    }

    /// Determinism. Two searches that started from the same numbers on the
    /// same board and have handed out equally many solutions have the same
    /// solutions still to come, in the same order, whatever else they went
    /// through.
    pub proof fn lemma_runs_agree(&self, other: &Solutions<'a>)
        requires
            self.wf(),
            other.wf(),
            self.board() == other.board(),
            self.seed() == other.seed(),
            self.handed_out() == other.handed_out(),
        ensures
            self.remaining() == other.remaining(),
    {
        self.lemma_position();
        other.lemma_position();
    }

    /// Every solution still to come solves the board and keeps the numbers
    /// that the search started from, and they come in rising order.
    pub proof fn lemma_remaining(&self)
        requires
            self.wf(),
        ensures
            all_solve(self.board(), self.seed(), self.remaining()),
            rising(self.remaining()),
    {
        let all = self.all();
        let h = self.given@ as int;
        self.cur.lemma_wf();
        lemma_completions_solve(self.board(), self.seed@, 0);
        lemma_completions_rise(self.board(), self.seed@, 0);
        let rest = self.remaining();
        assert forall|k: int| 0 <= k < rest.len() implies solves(self.board(), #[trigger] rest[k])
            && extends(rest[k], self.seed()) by {
            assert(rest[k] == all[h + k]);
        }
        assert forall|i: int, j: int| 0 <= i < j < rest.len() implies comes_before(
            #[trigger] rest[i],
            #[trigger] rest[j],
        ) by {
            assert(rest[i] == all[h + i] && rest[j] == all[h + j]);
        }
    }
}

impl<'a> Puzzle<'a> {
    /// Starts the search for the solutions that keep the numbers already
    /// placed in this puzzle. Nothing is searched until the first solution
    /// is asked for.
    pub fn gen_all_puzzles(self) -> (s: Solutions<'a>)
        requires
            self.wf(),
        ensures
            s.wf(),
            s.grid() == self.grid(),
            s.seed() == self@,
            s.handed_out() == 0,
            s.remaining() == completions(self.board(), self@, 0),
            s.nodes_left() == nodes(self.board(), self@, 0),
            s.nodes_seen() == 0,
    {
        let s = Solutions {
            cur: self,
            path: Vec::new(),
            exhausted: false,
            visited: 0,
            seed: Ghost(self@),
            given: Ghost(0),
        };
        proof {
            self.lemma_wf();
            assert(s.all().skip(0) =~= s.all());
            assert(s.trail() =~= Seq::<int>::empty());
            assert(s.remaining() =~= completions(self.board(), self@, 0));
        }
        s
    }
}

} // verus!
