//! A* search over the grid, with a closed set and lazily superseded frontier
//! entries.
use vstd::prelude::*;

use crate::cost::{
    bounded, cost_add, cost_lt, estimate, estimate_spec, le_pair, lemma_cost_lt_trans,
    lemma_estimate_chain, lemma_le_add, lemma_le_trans, lemma_lt_le, lemma_walk_split, padd, step,
    step_cost, val, walk_cost, Cost,
};
use crate::grid::{abs_diff, adjacent, blocked, in_grid, is_path, neighbors, reachable, GRID_SIZE};

verus! {

/// Number of cells on the grid.
pub const CELLS: usize = 64;

/// A frontier entry: a cell, the cost of the route that reached it, and the
/// estimate of what remains from it to the goal.
#[derive(Clone, Copy, Debug, PartialEq, Eq)]
pub struct Node {
    pub point: (usize, usize),
    pub g_score: Cost,
    pub h_score: Cost,
}

pub open spec fn f_spec(n: Node) -> Cost {
    cost_add(n.g_score, n.h_score)
}

/// Both scores of `n` are small enough to add and compare.
pub open spec fn node_ok(n: Node) -> bool {
    &&& n.g_score.ones + n.g_score.roots <= CELLS
    &&& n.h_score.ones + n.h_score.roots <= GRID_SIZE
}

impl Node {
    pub fn new(point: (usize, usize), g_score: Cost, h_score: Cost) -> (r: Node)
        ensures
            r == (Node { point, g_score, h_score }),
    {
        Node { point, g_score, h_score }
    }

    /// The estimated cost of a whole route through this entry.
    pub fn f_score(&self) -> (r: Cost)
        requires
            node_ok(*self),
        ensures
            r == f_spec(*self),
            bounded(r),
    {
        self.g_score.add(self.h_score)
    }
}

/// Position of a cell in the per-cell tables.
pub open spec fn idx(p: (usize, usize)) -> int {
    p.0 * GRID_SIZE + p.1
}

fn index_of(p: (usize, usize)) -> (r: usize)
    requires
        in_grid(p),
    ensures
        r == idx(p),
        r < CELLS,
{
    p.0 * GRID_SIZE + p.1
}

/// The cell at a position of the per-cell tables.
pub open spec fn cell_at(i: int) -> (usize, usize) {
    ((i / GRID_SIZE as int) as usize, (i % GRID_SIZE as int) as usize)
}

proof fn lemma_idx()
    ensures
        forall|p: (usize, usize)|
            in_grid(p) ==> 0 <= #[trigger] idx(p) < CELLS && cell_at(idx(p)) == p,
{
    assert forall|p: (usize, usize)| in_grid(p) implies 0 <= #[trigger] idx(p) < CELLS && cell_at(
        idx(p),
    ) == p by {
        let i = idx(p);
        assert(i / 8 == p.0 && i % 8 == p.1) by (nonlinear_arith)
            requires
                i == p.0 * 8 + p.1,
                0 <= p.1 < 8,
        ;
    }
}

/// Number of entries that hold `true`.
pub open spec fn count_true(s: Seq<bool>) -> nat
    decreases s.len(),
{
    if s.len() == 0 {
        0
    } else {
        count_true(s.drop_last()) + if s.last() {
            1nat
        } else {
            0nat
        }
    }
}

proof fn lemma_count_le(s: Seq<bool>, i: int)
    requires
        0 <= i < s.len(),
        !s[i],
    ensures
        count_true(s) < s.len(),
    decreases s.len(),
{
    if i < s.len() - 1 {
        lemma_count_le(s.drop_last(), i);
    } else {
        lemma_count_bound(s.drop_last());
    }
}

proof fn lemma_count_bound(s: Seq<bool>)
    ensures
        count_true(s) <= s.len(),
    decreases s.len(),
{
    if s.len() > 0 {
        lemma_count_bound(s.drop_last());
    }
}

proof fn lemma_count_set(s: Seq<bool>, i: int)
    requires
        0 <= i < s.len(),
        !s[i],
    ensures
        count_true(s.update(i, true)) == count_true(s) + 1,
    decreases s.len(),
{
    let t = s.update(i, true);
    if i < s.len() - 1 {
        assert(t.drop_last() =~= s.drop_last().update(i, true));
        lemma_count_set(s.drop_last(), i);
    } else {
        assert(t.drop_last() =~= s.drop_last());
    }
}

proof fn lemma_count_none(s: Seq<bool>)
    requires
        forall|k: int| 0 <= k < s.len() ==> !s[k],
    ensures
        count_true(s) == 0,
    decreases s.len(),
{
    if s.len() > 0 {
        lemma_count_none(s.drop_last());
    }
}

proof fn lemma_nothing_below_zero(t: Cost)
    ensures
        !cost_lt(t, crate::cost::zero()),
{
    let x = t.ones as int;
    assert(x * x >= 0) by (nonlinear_arith);
}

/// Removes and returns a frontier entry of least estimated total cost.
fn pop_cheapest(frontier: &mut Vec<Node>) -> (r: Node)
    requires
        old(frontier)@.len() > 0,
        forall|j: int| 0 <= j < old(frontier)@.len() ==> node_ok(#[trigger] old(frontier)@[j]),
    ensures
        exists|i: int|
            0 <= i < old(frontier)@.len() && r == old(frontier)@[i] && final(frontier)@ == old(
                frontier,
            )@.remove(i),
        forall|j: int|
            0 <= j < old(frontier)@.len() ==> !cost_lt(
                f_spec(#[trigger] old(frontier)@[j]),
                f_spec(r),
            ),
{
    let mut best: usize = 0;
    let mut best_f = frontier[0].f_score();
    let mut j: usize = 1;
    assert(!cost_lt(f_spec(frontier@[0]), best_f));
    while j < frontier.len()
        invariant
            best < j <= frontier@.len(),
            best_f == f_spec(frontier@[best as int]),
            bounded(best_f),
            forall|k: int| 0 <= k < j ==> !cost_lt(f_spec(#[trigger] frontier@[k]), best_f),
            forall|k: int| 0 <= k < frontier@.len() ==> node_ok(#[trigger] frontier@[k]),
        decreases frontier@.len() - j,
    {
        let f = frontier[j].f_score();
        if f.less(best_f) {
            proof {
                assert forall|k: int| 0 <= k < j implies !cost_lt(
                    f_spec(#[trigger] frontier@[k]),
                    f,
                ) by {
                    if cost_lt(f_spec(frontier@[k]), f) {
                        lemma_cost_lt_trans(f_spec(frontier@[k]), f, best_f);
                    }
                }
            }
            best = j;
            best_f = f;
        }
        j += 1;
    }
    frontier.remove(best)
}

/// The working state of one search: per-cell tables indexed by `idx`, the
/// number of cells closed so far, and the frontier.
pub(crate) struct Search {
    /// A route to the cell has been found.
    pub(crate) known: Vec<bool>,
    /// The cost of the cheapest route found so far.
    pub(crate) best: Vec<Cost>,
    /// The cell that route came from.
    pub(crate) pred: Vec<(usize, usize)>,
    /// The cell has been expanded.
    pub(crate) closed: Vec<bool>,
    /// When it was expanded: the number of cells closed before it.
    pub(crate) closed_at: Vec<usize>,
    pub(crate) expanded: usize,
    pub(crate) frontier: Vec<Node>,
}

impl Search {
    /// What the tables hold between steps: `known` cells have a best cost in
    /// `best`; every known cell but the start was entered from a closed,
    /// adjacent cell `pred`, closed before it; closed cells carry the order of
    /// their closing; frontier entries name known cells.
    pub(crate) open spec fn ok(
        &self,
        barriers: Seq<(usize, usize)>,
        cleared: bool,
        start: (usize, usize),
        goal: (usize, usize),
    ) -> bool {
        &&& self.known@.len() == CELLS
        &&& self.best@.len() == CELLS
        &&& self.pred@.len() == CELLS
        &&& self.closed@.len() == CELLS
        &&& self.closed_at@.len() == CELLS
        &&& self.expanded == count_true(self.closed@)
        &&& in_grid(start)
        &&& in_grid(goal)
        &&& self.known@[idx(start)]
        &&& self.best@[idx(start)] == crate::cost::zero()
        &&& !self.closed@[idx(goal)]
        &&& forall|p: (usize, usize)|
            in_grid(p) && #[trigger] self.closed@[idx(p)] ==> self.known@[idx(p)]
                && self.closed_at@[idx(p)] < self.expanded
        &&& forall|p: (usize, usize)|
            in_grid(p) && #[trigger] self.known@[idx(p)] ==> self.best@[idx(p)].ones
                + self.best@[idx(p)].roots <= self.expanded
        &&& forall|p: (usize, usize)|
            in_grid(p) && self.known@[idx(p)] && p != start ==> {
                let q = #[trigger] self.pred@[idx(p)];
                &&& in_grid(q)
                &&& self.closed@[idx(q)]
                &&& adjacent(q, p)
                &&& !blocked(barriers, cleared, p)
                &&& (self.closed@[idx(p)] ==> self.closed_at@[idx(q)] < self.closed_at@[idx(p)])
                &&& val(self.best@[idx(p)]) == padd(val(self.best@[idx(q)]), val(step_cost(q, p)))
            }
        &&& forall|j: int|
            0 <= j < self.frontier@.len() ==> in_grid((#[trigger] self.frontier@[j]).point)
                && self.known@[idx(self.frontier@[j].point)] && node_ok(self.frontier@[j])
                && self.frontier@[j].h_score == estimate_spec(self.frontier@[j].point, goal)
                && le_pair(
                val(self.best@[idx(self.frontier@[j].point)]),
                val(self.frontier@[j].g_score),
            )
        &&& forall|p: (usize, usize), q: Seq<(usize, usize)>|
            in_grid(p) && self.closed@[idx(p)] && #[trigger] is_path(barriers, cleared, q, start, p)
                ==> le_pair(val(self.best@[idx(p)]), walk_cost(q))
    }

    /// Every free neighbour of a closed cell other than `except` is known, and
    /// if still open, costs no more than the route through that cell.
    pub(crate) open spec fn spread(
        &self,
        barriers: Seq<(usize, usize)>,
        cleared: bool,
        except: (usize, usize),
    ) -> bool {
        forall|p: (usize, usize), q: (usize, usize)|
            #[trigger] adjacent(p, q) && self.closed@[idx(p)] && p != except && !blocked(
                barriers,
                cleared,
                q,
            ) ==> self.known@[idx(q)] && (!self.closed@[idx(q)] ==> le_pair(
                val(self.best@[idx(q)]),
                padd(val(self.best@[idx(p)]), val(step_cost(p, q))),
            ))
    }

    /// Every known cell that is not closed waits in the frontier, with an entry
    /// that carries its best cost.
    pub(crate) open spec fn waiting(&self) -> bool {
        forall|p: (usize, usize)|
            in_grid(p) && #[trigger] self.known@[idx(p)] && !self.closed@[idx(p)] ==> exists|
                j: int,
            | 0 <= j < self.frontier@.len() && #[trigger] self.frontier@[j].point == p
                && self.frontier@[j].g_score == self.best@[idx(p)]
    }

    /// Fresh tables: only `start` is known, at no cost, and waits in the frontier.
    fn start(
        Ghost(barriers): Ghost<Seq<(usize, usize)>>,
        cleared: bool,
        start: (usize, usize),
        goal: (usize, usize),
    ) -> (r: Search)
        requires
            in_grid(start),
            in_grid(goal),
        ensures
            r.ok(barriers, cleared, start, goal),
            r.spread(barriers, cleared, goal),
            r.waiting(),
    {
        proof {
            lemma_idx();
        }
        let mut known: Vec<bool> = Vec::new();
        let mut best: Vec<Cost> = Vec::new();
        let mut pred: Vec<(usize, usize)> = Vec::new();
        let mut closed: Vec<bool> = Vec::new();
        let mut closed_at: Vec<usize> = Vec::new();
        let mut i: usize = 0;
        while i < CELLS
            invariant
                i <= CELLS,
                known@.len() == i && best@.len() == i && pred@.len() == i,
                closed@.len() == i && closed_at@.len() == i,
                forall|k: int| 0 <= k < i ==> !known@[k] && !closed@[k] && best@[k] == crate::cost::zero(),
            decreases CELLS - i,
        {
            known.push(false);
            best.push(Cost::zero());
            pred.push(start);
            closed.push(false);
            closed_at.push(0);
            i += 1;
        }
        proof {
            lemma_count_none(closed@);
        }
        let ghost old_known = known@;
        known.set(index_of(start), true);
        let mut frontier: Vec<Node> = Vec::new();
        let h = estimate(start, goal);
        frontier.push(Node::new(start, Cost::zero(), h));
        let r = Search { known, best, pred, closed, closed_at, expanded: 0, frontier };
        proof {
            assert(r.frontier@[0].point == start);
            assert forall|p: (usize, usize)| in_grid(p) && #[trigger] r.known@[idx(p)] implies p
                == start by {
                if p != start {
                    assert(r.known@[idx(p)] == old_known[idx(p)]);
                }
            }
        }
        r
    }

    /// Walks the predecessors back from `goal` to `start` and returns the
    /// route start first.
    #[verifier::rlimit(40)]
    fn rebuild(
        &self,
        Ghost(barriers): Ghost<Seq<(usize, usize)>>,
        cleared: bool,
        start: (usize, usize),
        goal: (usize, usize),
    ) -> (r: Vec<(usize, usize)>)
        requires
            self.ok(barriers, cleared, start, goal),
            self.known@[idx(goal)],
        ensures
            is_path(barriers, cleared, r@, start, goal),
            walk_cost(r@) == val(self.best@[idx(goal)]),
    {
        proof {
            lemma_idx();
            lemma_count_bound(self.closed@);
        }
        let mut back: Vec<(usize, usize)> = Vec::new();
        back.push(goal);
        let mut cur = goal;
        let ghost mut fwd: Seq<(usize, usize)> = seq![goal];
        while !(cur.0 == start.0 && cur.1 == start.1)
            invariant
                self.ok(barriers, cleared, start, goal),
                self.expanded <= CELLS,
                in_grid(cur),
                self.known@[idx(cur)],
                back@.len() >= 1,
                back@[0] == goal,
                back@.last() == cur,
                forall|i: int|
                    1 <= i < back@.len() ==> #[trigger] adjacent(back@[i], back@[i - 1])
                        && !blocked(barriers, cleared, back@[i - 1]),
                fwd.len() == back@.len(),
                forall|i: int| 0 <= i < fwd.len() ==> #[trigger] fwd[i] == back@[back@.len() - 1 - i],
                val(self.best@[idx(goal)]) == padd(val(self.best@[idx(cur)]), walk_cost(fwd)),
            decreases (if self.closed@[idx(cur)] {
                self.closed_at@[idx(cur)] as int
            } else {
                CELLS as int
            }),
        {
            let prev = self.pred[index_of(cur)];
            let ghost before = back@;
            back.push(prev);
            proof {
                let old_fwd = fwd;
                fwd = seq![prev] + old_fwd;
                lemma_walk_split(fwd, 1);
                assert(fwd.subrange(1, fwd.len() as int) =~= old_fwd);
                let two = fwd.subrange(0, 2);
                assert(two.drop_last().len() == 1);
                assert(walk_cost(two.drop_last()) == (0int, 0int));
                assert(old_fwd[0] == cur);
                assert(two[0] == prev && two[1] == cur);
                assert(walk_cost(two) == val(step_cost(prev, cur)));
                assert forall|i: int| 0 <= i < fwd.len() implies #[trigger] fwd[i] == back@[back@.len()
                    - 1 - i] by {
                    if i > 0 {
                        assert(fwd[i] == old_fwd[i - 1]);
                    }
                }
            }
            proof {
                assert forall|i: int|
                    1 <= i < back@.len() implies #[trigger] adjacent(back@[i], back@[i - 1])
                    && !blocked(barriers, cleared, back@[i - 1]) by {
                    if i < before.len() {
                        assert(back@[i] == before[i] && back@[i - 1] == before[i - 1]);
                    }
                }
            }
            cur = prev;
        }
        let mut out: Vec<(usize, usize)> = Vec::new();
        let mut j: usize = back.len();
        while j > 0
            invariant
                j <= back@.len(),
                out@.len() == back@.len() - j,
                forall|k: int| 0 <= k < out@.len() ==> out@[k] == back@[back@.len() - 1 - k],
            decreases j,
        {
            j -= 1;
            out.push(back[j]);
        }
        proof {
            assert(out@ =~= fwd);
            assert(val(self.best@[idx(start)]) == (0int, 0int));
            let n = back@.len() as int;
            assert forall|i: int| 1 <= i < out@.len() implies #[trigger] adjacent(
                out@[i - 1],
                out@[i],
            ) && !blocked(barriers, cleared, out@[i]) by {
                assert(out@[i - 1] == back@[n - i]);
                assert(out@[i] == back@[n - i - 1]);
                assert(adjacent(back@[n - i], back@[n - i - 1]));
            }
        }
        out
    }
}

impl Search {
    /// `waiting`, but for the cell `c`.
    pub(crate) open spec fn waiting_but(&self, c: (usize, usize)) -> bool {
        forall|p: (usize, usize)|
            in_grid(p) && #[trigger] self.known@[idx(p)] && !self.closed@[idx(p)] && p != c
                ==> exists|j: int|
                0 <= j < self.frontier@.len() && #[trigger] self.frontier@[j].point == p
                    && self.frontier@[j].g_score == self.best@[idx(p)]
    }

    /// Takes an entry of least estimated total cost off the frontier.
    fn take_cheapest(
        &mut self,
        Ghost(barriers): Ghost<Seq<(usize, usize)>>,
        cleared: bool,
        start: (usize, usize),
        goal: (usize, usize),
    ) -> (r: Node)
        requires
            old(self).ok(barriers, cleared, start, goal),
            old(self).spread(barriers, cleared, goal),
            old(self).waiting(),
            old(self).frontier@.len() > 0,
        ensures
            final(self).ok(barriers, cleared, start, goal),
            final(self).spread(barriers, cleared, goal),
            final(self).waiting_but(r.point),
            in_grid(r.point),
            final(self).known@[idx(r.point)],
            final(self).expanded == old(self).expanded,
            final(self).best@ == old(self).best@,
            final(self).closed@ == old(self).closed@,
            final(self).frontier@.len() < old(self).frontier@.len(),
            exists|i: int| 0 <= i < old(self).frontier@.len() && old(self).frontier@[i] == r,
            forall|j: int|
                0 <= j < old(self).frontier@.len() ==> !cost_lt(
                    f_spec(#[trigger] old(self).frontier@[j]),
                    f_spec(r),
                ),
    {
        let ghost prev = self.frontier@;
        let r = pop_cheapest(&mut self.frontier);
        let ghost removed = choose|k: int|
            0 <= k < prev.len() && r == prev[k] && self.frontier@ == prev.remove(k);
        proof {
            assert forall|p: (usize, usize)|
                in_grid(p) && #[trigger] self.known@[idx(p)] && !self.closed@[idx(p)] && p
                    != r.point implies exists|j: int|
                0 <= j < self.frontier@.len() && #[trigger] self.frontier@[j].point == p
                    && self.frontier@[j].g_score == self.best@[idx(p)] by {
                let j = choose|j: int|
                    0 <= j < prev.len() && prev[j].point == p && prev[j].g_score == self.best@[idx(
                        p,
                    )];
                if j < removed {
                    assert(self.frontier@[j] == prev[j]);
                } else {
                    assert(self.frontier@[j - 1] == prev[j]);
                }
            }
            assert forall|j: int| 0 <= j < self.frontier@.len() implies in_grid(
                (#[trigger] self.frontier@[j]).point,
            ) && self.known@[idx(self.frontier@[j].point)] && node_ok(self.frontier@[j])
                && self.frontier@[j].h_score == estimate_spec(self.frontier@[j].point, goal)
                && le_pair(
                val(self.best@[idx(self.frontier@[j].point)]),
                val(self.frontier@[j].g_score),
            ) by {
                if j < removed {
                    assert(self.frontier@[j] == prev[j]);
                } else {
                    assert(self.frontier@[j] == prev[j + 1]);
                }
            }
            assert(in_grid(prev[removed].point));
        }
        r
    }

    /// Marks `c` as expanded.
    fn close(
        &mut self,
        Ghost(barriers): Ghost<Seq<(usize, usize)>>,
        cleared: bool,
        start: (usize, usize),
        goal: (usize, usize),
        c: (usize, usize),
    )
        requires
            old(self).ok(barriers, cleared, start, goal),
            old(self).spread(barriers, cleared, goal),
            old(self).waiting_but(c),
            in_grid(c),
            c != goal,
            old(self).known@[idx(c)],
            !old(self).closed@[idx(c)],
            forall|q: Seq<(usize, usize)>|
                #[trigger] is_path(barriers, cleared, q, start, c) ==> le_pair(
                    val(old(self).best@[idx(c)]),
                    walk_cost(q),
                ),
        ensures
            final(self).ok(barriers, cleared, start, goal),
            final(self).spread(barriers, cleared, c),
            final(self).waiting(),
            final(self).closed@[idx(c)],
            final(self).best@[idx(c)].ones + final(self).best@[idx(c)].roots
                < final(self).expanded,
            final(self).expanded == old(self).expanded + 1,
            final(self).expanded <= CELLS,
    {
        proof {
            lemma_idx();
        }
        let ci = index_of(c);
        proof {
            lemma_count_le(self.closed@, ci as int);
            lemma_count_set(self.closed@, ci as int);
        }
        let ghost prev = self.closed@;
        self.closed.set(ci, true);
        self.closed_at.set(ci, self.expanded);
        self.expanded = self.expanded + 1;
        proof {
            assert forall|p: (usize, usize)|
                in_grid(p) && #[trigger] self.known@[idx(p)] && !self.closed@[idx(p)] implies exists|
                    j: int,
                | 0 <= j < self.frontier@.len() && #[trigger] self.frontier@[j].point == p
                    && self.frontier@[j].g_score == self.best@[idx(p)] by {
                assert(p != c);
                assert(prev[idx(p)] == self.closed@[idx(p)]);
                assert(old(self).known@[idx(p)] && !old(self).closed@[idx(p)]);
                assert(self.frontier@ == old(self).frontier@);
            }
        }
    }

    /// Offers `n`, a free neighbour of the closed cell `c`, the route through
    /// `c`; it is taken when `n` is open and the route is new or cheaper.
    fn offer(
        &mut self,
        Ghost(barriers): Ghost<Seq<(usize, usize)>>,
        cleared: bool,
        start: (usize, usize),
        goal: (usize, usize),
        c: (usize, usize),
        n: (usize, usize),
    )
        requires
            old(self).ok(barriers, cleared, start, goal),
            old(self).waiting(),
            old(self).expanded <= CELLS,
            in_grid(c),
            old(self).closed@[idx(c)],
            old(self).best@[idx(c)].ones + old(self).best@[idx(c)].roots < old(self).expanded,
            adjacent(c, n),
            !blocked(barriers, cleared, n),
        ensures
            final(self).ok(barriers, cleared, start, goal),
            final(self).waiting(),
            final(self).known@[idx(n)],
            final(self).closed == old(self).closed,
            final(self).expanded == old(self).expanded,
            !final(self).closed@[idx(n)] ==> le_pair(
                val(final(self).best@[idx(n)]),
                padd(val(final(self).best@[idx(c)]), val(step_cost(c, n))),
            ),
            forall|p: (usize, usize)|
                in_grid(p) && #[trigger] old(self).known@[idx(p)] ==> final(self).known@[idx(p)]
                    && le_pair(val(final(self).best@[idx(p)]), val(old(self).best@[idx(p)])),
            forall|p: (usize, usize)|
                in_grid(p) && #[trigger] old(self).closed@[idx(p)] ==> final(self).best@[idx(p)]
                    == old(self).best@[idx(p)],
    {
        proof {
            lemma_idx();
            assert forall|p: (usize, usize)| in_grid(p) implies le_pair(
                val(#[trigger] self.best@[idx(p)]),
                val(self.best@[idx(p)]),
            ) by {
                lemma_lt_le(val(self.best@[idx(p)]), val(self.best@[idx(p)]));
            }
        }
        let ni = index_of(n);
        if self.closed[ni] {
            return;
        }
        let tentative = self.best[index_of(c)].add(step(c, n));
        if self.known[ni] && !tentative.less(self.best[ni]) {
            return;
        }
        proof {
            if n == start {
                lemma_nothing_below_zero(tentative);
            }
            lemma_lt_le(val(tentative), val(self.best@[ni as int]));
        }
        let ghost prev = self.frontier@;
        let ghost old_best = self.best@;
        let ghost was_known = self.known@[ni as int];
        self.best.set(ni, tentative);
        self.pred.set(ni, c);
        self.known.set(ni, true);
        self.frontier.push(Node::new(n, tentative, estimate(n, goal)));
        proof {
            assert(self.frontier@[self.frontier@.len() - 1].point == n);
            assert forall|j: int| 0 <= j < self.frontier@.len() implies in_grid(
                (#[trigger] self.frontier@[j]).point,
            ) && self.known@[idx(self.frontier@[j].point)] && node_ok(self.frontier@[j])
                && self.frontier@[j].h_score == estimate_spec(self.frontier@[j].point, goal)
                && le_pair(
                val(self.best@[idx(self.frontier@[j].point)]),
                val(self.frontier@[j].g_score),
            ) by {
                if j < prev.len() {
                    assert(self.frontier@[j] == prev[j]);
                    if prev[j].point == n {
                        lemma_le_trans(
                            val(tentative),
                            val(old_best[ni as int]),
                            val(prev[j].g_score),
                        );
                    }
                }
            }
            assert forall|p: (usize, usize)|
                in_grid(p) && #[trigger] self.known@[idx(p)] && !self.closed@[idx(
                    p,
                )] implies exists|j: int|
                0 <= j < self.frontier@.len() && #[trigger] self.frontier@[j].point == p
                    && self.frontier@[j].g_score == self.best@[idx(p)] by {
                if p != n {
                    let j = choose|j: int|
                        0 <= j < prev.len() && prev[j].point == p && prev[j].g_score == old_best[idx(
                            p,
                        )];
                    assert(self.frontier@[j] == prev[j]);
                }
            }
        }
    }

    /// Closes `c` and offers each of its free neighbours the route through it.
    fn expand(
        &mut self,
        barriers: &Vec<(usize, usize)>,
        cleared: bool,
        start: (usize, usize),
        goal: (usize, usize),
        c: (usize, usize),
    )
        requires
            old(self).ok(barriers@, cleared, start, goal),
            old(self).spread(barriers@, cleared, goal),
            old(self).waiting_but(c),
            in_grid(c),
            c != goal,
            old(self).known@[idx(c)],
            !old(self).closed@[idx(c)],
            forall|q: Seq<(usize, usize)>|
                #[trigger] is_path(barriers@, cleared, q, start, c) ==> le_pair(
                    val(old(self).best@[idx(c)]),
                    walk_cost(q),
                ),
        ensures
            final(self).ok(barriers@, cleared, start, goal),
            final(self).spread(barriers@, cleared, goal),
            final(self).waiting(),
            final(self).expanded == old(self).expanded + 1,
            final(self).expanded <= CELLS,
    {
        self.close(Ghost(barriers@), cleared, start, goal, c);
        let nbrs = neighbors(barriers, cleared, c);
        let mut k: usize = 0;
        while k < nbrs.len()
            invariant
                self.ok(barriers@, cleared, start, goal),
                self.expanded <= CELLS,
                in_grid(c),
                c != goal,
                self.closed@[idx(c)],
                self.best@[idx(c)].ones + self.best@[idx(c)].roots < self.expanded,
                k <= nbrs@.len(),
                forall|q: (usize, usize)|
                    #[trigger] nbrs@.contains(q) <==> adjacent(c, q) && !blocked(
                        barriers@,
                        cleared,
                        q,
                    ),
                forall|j: int|
                    0 <= j < k ==> self.known@[idx(#[trigger] nbrs@[j])] && (!self.closed@[idx(
                        nbrs@[j],
                    )] ==> le_pair(
                        val(self.best@[idx(nbrs@[j])]),
                        padd(val(self.best@[idx(c)]), val(step_cost(c, nbrs@[j]))),
                    )),
                self.spread(barriers@, cleared, c),
                self.waiting(),
                self.expanded == old(self).expanded + 1,
            decreases nbrs@.len() - k,
        {
            let n = nbrs[k];
            assert(nbrs@.contains(n));
            let ghost before = *self;
            self.offer(Ghost(barriers@), cleared, start, goal, c, n);
            proof {
                lemma_idx();
                assert forall|j: int| 0 <= j < k + 1 implies self.known@[idx(
                    #[trigger] nbrs@[j],
                )] && (!self.closed@[idx(nbrs@[j])] ==> le_pair(
                    val(self.best@[idx(nbrs@[j])]),
                    padd(val(self.best@[idx(c)]), val(step_cost(c, nbrs@[j]))),
                )) by {
                    if j < k {
                        let m = nbrs@[j];
                        assert(in_grid(m)) by {
                            assert(nbrs@.contains(m));
                        }
                        assert(before.known@[idx(m)]);
                        if !self.closed@[idx(m)] {
                            lemma_le_trans(
                                val(self.best@[idx(m)]),
                                val(before.best@[idx(m)]),
                                padd(val(before.best@[idx(c)]), val(step_cost(c, m))),
                            );
                        }
                    }
                }
                assert forall|p: (usize, usize), q: (usize, usize)|
                    #[trigger] adjacent(p, q) && self.closed@[idx(p)] && p != c && !blocked(
                        barriers@,
                        cleared,
                        q,
                    ) implies self.known@[idx(q)] && (!self.closed@[idx(q)] ==> le_pair(
                    val(self.best@[idx(q)]),
                    padd(val(self.best@[idx(p)]), val(step_cost(p, q))),
                )) by {
                    assert(before.known@[idx(q)]);
                    if !self.closed@[idx(q)] {
                        lemma_le_trans(
                            val(self.best@[idx(q)]),
                            val(before.best@[idx(q)]),
                            padd(val(before.best@[idx(p)]), val(step_cost(p, q))),
                        );
                    }
                }
            }
            k += 1;
        }
        proof {
            assert forall|p: (usize, usize), q: (usize, usize)|
                #[trigger] adjacent(p, q) && self.closed@[idx(p)] && p != goal && !blocked(
                    barriers@,
                    cleared,
                    q,
                ) implies self.known@[idx(q)] && (!self.closed@[idx(q)] ==> le_pair(
                val(self.best@[idx(q)]),
                padd(val(self.best@[idx(p)]), val(step_cost(p, q))),
            )) by {
                if p == c {
                    assert(nbrs@.contains(q));
                    let j = choose|j: int| 0 <= j < nbrs@.len() && nbrs@[j] == q;
                    assert(self.known@[idx(nbrs@[j])]);
                }
            }
        }
    }
}

proof fn lemma_first_open(
    s: Search,
    barriers: Seq<(usize, usize)>,
    cleared: bool,
    start: (usize, usize),
    goal: (usize, usize),
    q: Seq<(usize, usize)>,
    i: int,
) -> (m: int)
    requires
        s.ok(barriers, cleared, start, goal),
        is_path(barriers, cleared, q, start, q.last()),
        0 <= i < q.len(),
        !s.closed@[idx(q.last())],
        forall|k: int| 0 <= k < i ==> s.closed@[idx(#[trigger] q[k])],
    ensures
        i <= m < q.len(),
        !s.closed@[idx(q[m])],
        forall|k: int| 0 <= k < m ==> s.closed@[idx(#[trigger] q[k])],
    decreases q.len() - i,
{
    if s.closed@[idx(q[i])] {
        lemma_first_open(s, barriers, cleared, start, goal, q, i + 1)
    } else {
        i
    }
}

/// When an open cell leaves the frontier with the least estimated total, no
/// route to it is cheaper than its best cost.
#[verifier::rlimit(80)]
#[verifier::spinoff_prover]
proof fn lemma_popped_optimal(
    s: Search,
    barriers: Seq<(usize, usize)>,
    cleared: bool,
    start: (usize, usize),
    goal: (usize, usize),
    r: Node,
    q: Seq<(usize, usize)>,
)
    requires
        s.ok(barriers, cleared, start, goal),
        s.spread(barriers, cleared, goal),
        s.waiting(),
        exists|i: int| 0 <= i < s.frontier@.len() && s.frontier@[i] == r,
        forall|j: int|
            0 <= j < s.frontier@.len() ==> !cost_lt(f_spec(#[trigger] s.frontier@[j]), f_spec(r)),
        !s.closed@[idx(r.point)],
        is_path(barriers, cleared, q, start, r.point),
    ensures
        le_pair(val(s.best@[idx(r.point)]), walk_cost(q)),
{
    lemma_idx();
    let c = r.point;
    let ri = choose|i: int| 0 <= i < s.frontier@.len() && s.frontier@[i] == r;
    assert(in_grid(c) && node_ok(r));
    let m = lemma_first_open(s, barriers, cleared, start, goal, q, 0);
    let qm = q[m];
    let head = q.subrange(0, m + 1);
    let tail = q.subrange(m, q.len() as int);
    // the cost of the head bounds the best cost of its last cell
    if m == 0 {
        assert(qm == start);
        lemma_lt_le(val(s.best@[idx(start)]), val(s.best@[idx(start)]));
        assert(walk_cost(head) == (0int, 0int));
    } else {
        let p = q[m - 1];
        let i = m;
        assert(adjacent(q[i - 1], q[i]));
        assert(s.closed@[idx(p)]);
        let pre = q.subrange(0, m);
        assert(is_path(barriers, cleared, pre, start, p)) by {
            assert forall|k: int| 1 <= k < pre.len() implies #[trigger] adjacent(pre[k - 1], pre[k])
                && !blocked(barriers, cleared, pre[k]) by {
                assert(adjacent(q[k - 1], q[k]));
            }
        }
        assert(in_grid(p));
        assert(le_pair(val(s.best@[idx(p)]), walk_cost(pre)));
        assert(p != goal);
        assert(s.known@[idx(qm)]);
        assert(head.drop_last() =~= pre);
        lemma_lt_le(val(step_cost(p, qm)), val(step_cost(p, qm)));
        lemma_le_add(
            val(s.best@[idx(p)]),
            walk_cost(pre),
            val(step_cost(p, qm)),
            val(step_cost(p, qm)),
        );
        lemma_le_trans(
            val(s.best@[idx(qm)]),
            padd(val(s.best@[idx(p)]), val(step_cost(p, qm))),
            walk_cost(head),
        );
    }
    assert(in_grid(qm)) by {
        if m > 0 {
            let i = m;
            assert(adjacent(q[i - 1], q[i]));
        }
    }
    assert(s.known@[idx(qm)]);
    // the fresh frontier entry of that cell
    let e = choose|j: int|
        0 <= j < s.frontier@.len() && #[trigger] s.frontier@[j].point == qm
            && s.frontier@[j].g_score == s.best@[idx(qm)];
    let entry = s.frontier@[e];
    assert(node_ok(entry));
    // the estimate along the tail
    assert(crate::cost::steps_adjacent(tail)) by {
        assert forall|k: int| 1 <= k < tail.len() implies #[trigger] adjacent(tail[k - 1], tail[k]) by {
            let i = k + m;
            assert(adjacent(q[i - 1], q[i]));
        }
    }
    lemma_estimate_chain(tail, goal);
    lemma_walk_split(q, m);
    let hc = val(estimate_spec(c, goal));
    let hm = val(estimate_spec(qm, goal));
    lemma_le_add(val(s.best@[idx(qm)]), walk_cost(head), hm, padd(walk_cost(tail), hc));
    let fe = val(f_spec(entry));
    assert(fe == padd(val(s.best@[idx(qm)]), hm));
    assert(padd(walk_cost(head), padd(walk_cost(tail), hc)) == padd(walk_cost(q), hc));
    let fr = val(f_spec(r));
    assert(fr == padd(val(r.g_score), hc));
    assert(!cost_lt(f_spec(entry), f_spec(r)));
    lemma_le_trans(fr, fe, padd(walk_cost(q), hc));
    lemma_lt_le(hc, hc);
    lemma_le_add(val(s.best@[idx(c)]), val(r.g_score), hc, hc);
    lemma_le_trans(padd(val(s.best@[idx(c)]), hc), fr, padd(walk_cost(q), hc));
}

proof fn lemma_walk_known(
    s: Search,
    barriers: Seq<(usize, usize)>,
    cleared: bool,
    start: (usize, usize),
    goal: (usize, usize),
    path: Seq<(usize, usize)>,
    i: int,
)
    requires
        s.ok(barriers, cleared, start, goal),
        s.spread(barriers, cleared, goal),
        is_path(barriers, cleared, path, start, goal),
        0 <= i < path.len(),
        forall|p: (usize, usize)| in_grid(p) && #[trigger] s.known@[idx(p)] ==> s.closed@[idx(p)],
    ensures
        in_grid(path[i]),
        s.known@[idx(path[i])],
    decreases i,
{
    if i > 0 {
        lemma_walk_known(s, barriers, cleared, start, goal, path, i - 1);
        assert(adjacent(path[i - 1], path[i]));
        assert(s.closed@[idx(path[i - 1])]);
        assert(path[i - 1] != goal);
    }
}

/// With nothing left open, the known cells hold every cell reachable from the
/// start, and the goal is not among them.
proof fn lemma_exhausted(
    s: Search,
    barriers: Seq<(usize, usize)>,
    cleared: bool,
    start: (usize, usize),
    goal: (usize, usize),
)
    requires
        s.ok(barriers, cleared, start, goal),
        s.spread(barriers, cleared, goal),
        s.waiting(),
        s.frontier@.len() == 0,
    ensures
        !reachable(barriers, cleared, start, goal),
{
    if reachable(barriers, cleared, start, goal) {
        let path = choose|path: Seq<(usize, usize)>| is_path(barriers, cleared, path, start, goal);
        lemma_walk_known(s, barriers, cleared, start, goal, path, path.len() - 1);
        assert(s.known@[idx(goal)]);
        assert(s.closed@[idx(goal)]);
    }
}

/// `path` is a route from `start` to `goal` and no route costs less.
pub open spec fn shortest(
    barriers: Seq<(usize, usize)>,
    cleared: bool,
    path: Seq<(usize, usize)>,
    start: (usize, usize),
    goal: (usize, usize),
) -> bool {
    &&& is_path(barriers, cleared, path, start, goal)
    &&& forall|q: Seq<(usize, usize)>|
        #[trigger] is_path(barriers, cleared, q, start, goal) ==> le_pair(
            walk_cost(path),
            walk_cost(q),
        )
}

/// A shortest route from `start` to `goal` that enters no blocked cell, found
/// by A* search, or `None` when no such route exists. Barriers count unless
/// `cleared` is set.
pub fn find_path(barriers: &Vec<(usize, usize)>, cleared: bool, start: (usize, usize), goal: (
    usize,
    usize,
)) -> (r: Option<Vec<(usize, usize)>>)
    requires
        in_grid(start),
        in_grid(goal),
    ensures
        match r {
            Some(path) => shortest(barriers@, cleared, path@, start, goal),
            None => !reachable(barriers@, cleared, start, goal),
        },
{
    let mut st = Search::start(Ghost(barriers@), cleared, start, goal);
    while st.frontier.len() > 0
        invariant
            st.ok(barriers@, cleared, start, goal),
            st.spread(barriers@, cleared, goal),
            st.waiting(),
        decreases CELLS - st.expanded, st.frontier@.len(),
    {
        proof {
            lemma_count_bound(st.closed@);
        }
        let ghost before = st;
        let node = st.take_cheapest(Ghost(barriers@), cleared, start, goal);
        let c = node.point;
        proof {
            if !st.closed@[idx(c)] {
                assert forall|q: Seq<(usize, usize)>|
                    #[trigger] is_path(barriers@, cleared, q, start, c) implies le_pair(
                    val(st.best@[idx(c)]),
                    walk_cost(q),
                ) by {
                    lemma_popped_optimal(before, barriers@, cleared, start, goal, node, q);
                }
            }
        }
        if c.0 == goal.0 && c.1 == goal.1 {
            let path = st.rebuild(Ghost(barriers@), cleared, start, goal);
            return Some(path);
        }
        if !st.closed[index_of(c)] {
            st.expand(barriers, cleared, start, goal, c);
        }
    }
    proof {
        lemma_exhausted(st, barriers@, cleared, start, goal);
    }
    None
}

/// Clearing the barriers never makes the shortest route dearer: a shortest
/// route with the barriers cleared costs no more than one with them in force.
pub proof fn lemma_clearing_never_costs_more(
    barriers: Seq<(usize, usize)>,
    cleared: bool,
    start: (usize, usize),
    goal: (usize, usize),
    with_barriers: Seq<(usize, usize)>,
    without: Seq<(usize, usize)>,
)
    requires
        shortest(barriers, cleared, with_barriers, start, goal),
        shortest(barriers, true, without, start, goal),
    ensures
        le_pair(walk_cost(without), walk_cost(with_barriers)),
{
    assert(is_path(barriers, true, with_barriers, start, goal)) by {
        assert forall|i: int| 1 <= i < with_barriers.len() implies #[trigger] adjacent(
            with_barriers[i - 1],
            with_barriers[i],
        ) && !blocked(barriers, true, with_barriers[i]) by {
            assert(adjacent(with_barriers[i - 1], with_barriers[i]));
        }
    }
}

/// No route costs less than the estimate between its ends.
pub proof fn lemma_estimate_admissible(
    barriers: Seq<(usize, usize)>,
    cleared: bool,
    path: Seq<(usize, usize)>,
    start: (usize, usize),
    goal: (usize, usize),
)
    requires
        is_path(barriers, cleared, path, start, goal),
    ensures
        le_pair(val(estimate_spec(start, goal)), walk_cost(path)),
{
    assert(crate::cost::steps_adjacent(path)) by {
        assert forall|i: int| 1 <= i < path.len() implies #[trigger] adjacent(path[i - 1], path[i]) by {
            assert(adjacent(path[i - 1], path[i]));
        }
    }
    lemma_estimate_chain(path, goal);
    assert(val(estimate_spec(goal, goal)) == (0int, 0int));
    assert(padd(walk_cost(path), (0int, 0int)) == walk_cost(path));
}

/// One step from `x` toward `y`.
pub open spec fn toward(x: usize, y: usize) -> usize {
    if x < y {
        (x + 1) as usize
    } else if x > y {
        (x - 1) as usize
    } else {
        x
    }
}

pub open spec fn chebyshev(a: (usize, usize), b: (usize, usize)) -> nat {
    let dr = abs_diff(a.0, b.0);
    let dc = abs_diff(a.1, b.1);
    (if dr >= dc {
        dr
    } else {
        dc
    }) as nat
}

/// The route that steps diagonally toward `b` while both coordinates differ,
/// then straight on.
pub open spec fn direct_route(a: (usize, usize), b: (usize, usize)) -> Seq<(usize, usize)>
    decreases chebyshev(a, b),
{
    if a == b {
        seq![a]
    } else {
        seq![a] + direct_route((toward(a.0, b.0), toward(a.1, b.1)), b)
    }
}

proof fn lemma_direct_route(a: (usize, usize), b: (usize, usize), cleared: bool)
    requires
        in_grid(a),
        in_grid(b),
    ensures
        is_path(Seq::empty(), cleared, direct_route(a, b), a, b),
        walk_cost(direct_route(a, b)) == val(estimate_spec(a, b)),
    decreases chebyshev(a, b),
{
    if a != b {
        let n = (toward(a.0, b.0), toward(a.1, b.1));
        lemma_direct_route(n, b, cleared);
        let rest = direct_route(n, b);
        let p = direct_route(a, b);
        assert(p == seq![a] + rest);
        assert(adjacent(a, n));
        assert(p.subrange(1, p.len() as int) =~= rest);
        let two = p.subrange(0, 2);
        assert(two.drop_last().len() == 1);
        assert(walk_cost(two.drop_last()) == (0int, 0int));
        assert(two[0] == a && two[1] == n);
        lemma_walk_split(p, 1);
        assert(val(estimate_spec(a, b)) == padd(val(step_cost(a, n)), val(estimate_spec(n, b))));
        assert forall|i: int| 1 <= i < p.len() implies #[trigger] adjacent(p[i - 1], p[i])
            && !blocked(Seq::empty(), cleared, p[i]) by {
            if i > 1 {
                let j = i - 1;
                assert(adjacent(rest[j - 1], rest[j]));
            }
        }
    }
}

/// On a grid without barriers a shortest route costs exactly the estimate: as
/// many diagonal steps as the smaller offset, then straight steps for the rest.
pub proof fn lemma_open_grid_shortest(
    cleared: bool,
    path: Seq<(usize, usize)>,
    start: (usize, usize),
    goal: (usize, usize),
)
    requires
        in_grid(start),
        in_grid(goal),
        shortest(Seq::empty(), cleared, path, start, goal),
    ensures
        walk_cost(path) == val(estimate_spec(start, goal)),
{
    lemma_direct_route(start, goal, cleared);
    lemma_estimate_admissible(Seq::empty(), cleared, path, start, goal);
    crate::cost::lemma_trichotomy(walk_cost(path), val(estimate_spec(start, goal)));
}

proof fn lemma_shortest_no_loop(
    barriers: Seq<(usize, usize)>,
    cleared: bool,
    p: Seq<(usize, usize)>,
    start: (usize, usize),
    goal: (usize, usize),
    i: int,
    j: int,
)
    requires
        shortest(barriers, cleared, p, start, goal),
        0 <= i < j < p.len(),
    ensures
        p[i] != p[j],
{
    if p[i] == p[j] {
        let n = p.len() as int;
        let q = p.subrange(0, i + 1) + p.subrange(j + 1, n);
        assert(q.len() == n - (j - i));
        assert forall|t: int| 0 <= t < q.len() implies #[trigger] q[t] == (if t <= i {
            p[t]
        } else {
            p[t + (j - i)]
        }) by {}
        assert(is_path(barriers, cleared, q, start, goal)) by {
            assert forall|t: int| 1 <= t < q.len() implies #[trigger] adjacent(q[t - 1], q[t])
                && !blocked(barriers, cleared, q[t]) by {
                if t <= i {
                    assert(adjacent(p[t - 1], p[t]));
                } else {
                    let u = t + (j - i);
                    assert(q[t - 1] == p[u - 1]);
                    assert(adjacent(p[u - 1], p[u]));
                }
            }
        }
        lemma_walk_split(q, i);
        assert(q.subrange(0, i + 1) =~= p.subrange(0, i + 1));
        assert(q.subrange(i, q.len() as int) =~= p.subrange(j, n));
        lemma_walk_split(p, i);
        let rest = p.subrange(i, n);
        lemma_walk_split(rest, j - i);
        assert(rest.subrange(0, j - i + 1) =~= p.subrange(i, j + 1));
        assert(rest.subrange(j - i, rest.len() as int) =~= p.subrange(j, n));
        let m = walk_cost(p.subrange(i, j + 1));
        crate::cost::lemma_path_cost_parts(p.subrange(i, j + 1));
        assert(m.0 + m.1 == j - i);
        if m.0 == 0 {
            assert(2 * (m.1 * m.1) > 0) by (nonlinear_arith)
                requires
                    m.1 >= 1,
            ;
        }
        assert(crate::cost::lt_pair(walk_cost(q), walk_cost(p)));
    }
}

/// A shortest route never visits a cell twice.
pub proof fn lemma_shortest_no_repeat(
    barriers: Seq<(usize, usize)>,
    cleared: bool,
    p: Seq<(usize, usize)>,
    start: (usize, usize),
    goal: (usize, usize),
)
    requires
        shortest(barriers, cleared, p, start, goal),
    ensures
        p.no_duplicates(),
{
    assert forall|i: int, j: int| 0 <= i < p.len() && 0 <= j < p.len() && i != j implies p[i]
        != p[j] by {
        if i < j {
            lemma_shortest_no_loop(barriers, cleared, p, start, goal, i, j);
        } else {
            lemma_shortest_no_loop(barriers, cleared, p, start, goal, j, i);
        }
    }
}

/// The estimate obeys the triangle inequality: going by way of `b` is never
/// estimated cheaper than going straight from `a` to `c`.
pub proof fn lemma_estimate_triangle(a: (usize, usize), b: (usize, usize), c: (usize, usize))
    requires
        in_grid(a),
        in_grid(b),
        in_grid(c),
    ensures
        le_pair(
            val(estimate_spec(a, c)),
            padd(val(estimate_spec(a, b)), val(estimate_spec(b, c))),
        ),
{
    lemma_direct_route(a, b, true);
    lemma_direct_route(b, c, true);
    let p1 = direct_route(a, b);
    let p2 = direct_route(b, c);
    let k = p1.len() - 1;
    let q = p1 + p2.subrange(1, p2.len() as int);
    assert forall|t: int| 0 <= t < q.len() implies #[trigger] q[t] == (if t <= k {
        p1[t]
    } else {
        p2[t - k]
    }) by {}
    assert(is_path(Seq::empty(), true, q, a, c)) by {
        assert forall|t: int| 1 <= t < q.len() implies #[trigger] adjacent(q[t - 1], q[t])
            && !blocked(Seq::empty(), true, q[t]) by {
            if t <= k {
                assert(adjacent(p1[t - 1], p1[t]));
            } else {
                let u = t - k;
                assert(q[t - 1] == p2[u - 1]);
                assert(adjacent(p2[u - 1], p2[u]));
            }
        }
    }
    lemma_walk_split(q, k);
    assert(q.subrange(0, k + 1) =~= p1);
    assert(q.subrange(k, q.len() as int) =~= p2);
    lemma_estimate_admissible(Seq::empty(), true, q, a, c);
}

} // verus!
