//! Exact step costs. A cost is the real number `ones + roots * sqrt(2)`: an
//! orthogonal step costs 1 and a diagonal step costs sqrt(2), the straight-line
//! distance between the two cells. Costs are compared exactly, with integers.
use vstd::prelude::*;

use crate::grid::{abs_diff, adjacent};

verus! {

/// The cost `ones + roots * sqrt(2)`.
#[derive(Clone, Copy, Debug, PartialEq, Eq)]
pub struct Cost {
    pub ones: u64,
    pub roots: u64,
}

/// The largest part that the comparison of costs accepts.
pub const PART_MAX: u64 = 0xffff_ffff;

pub open spec fn bounded(a: Cost) -> bool {
    a.ones <= PART_MAX && a.roots <= PART_MAX
}

/// `x < y * sqrt(2)`, decided by comparing squares.
pub open spec fn below_root2(x: int, y: int) -> bool {
    if y >= 0 {
        x < 0 || x * x < 2 * (y * y)
    } else {
        x < 0 && x * x > 2 * (y * y)
    }
}

/// `a` is strictly cheaper than `b`.
pub open spec fn cost_lt(a: Cost, b: Cost) -> bool {
    below_root2(a.ones - b.ones, b.roots - a.roots)
}

pub open spec fn cost_add(a: Cost, b: Cost) -> Cost {
    Cost { ones: (a.ones + b.ones) as u64, roots: (a.roots + b.roots) as u64 }
}

pub open spec fn zero() -> Cost {
    Cost { ones: 0, roots: 0 }
}

/// The length of one step between adjacent cells.
pub open spec fn step_cost(a: (usize, usize), b: (usize, usize)) -> Cost {
    if a.0 != b.0 && a.1 != b.1 {
        Cost { ones: 0, roots: 1 }
    } else {
        Cost { ones: 1, roots: 0 }
    }
}

/// The length of the shortest 8-connected route between two cells when nothing
/// is in the way: as many diagonal steps as the smaller offset, then straight on.
pub open spec fn estimate_spec(a: (usize, usize), b: (usize, usize)) -> Cost {
    let dr = abs_diff(a.0, b.0);
    let dc = abs_diff(a.1, b.1);
    if dr <= dc {
        Cost { ones: (dc - dr) as u64, roots: dr as u64 }
    } else {
        Cost { ones: (dr - dc) as u64, roots: dc as u64 }
    }
}

impl Cost {
    /// No cost at all.
    pub fn zero() -> (r: Cost)
        ensures
            r == zero(),
    {
        Cost { ones: 0, roots: 0 }
    }

    /// The sum of two costs.
    pub fn add(self, other: Cost) -> (r: Cost)
        requires
            self.ones + other.ones <= u64::MAX,
            self.roots + other.roots <= u64::MAX,
        ensures
            r == cost_add(self, other),
    {
        Cost { ones: self.ones + other.ones, roots: self.roots + other.roots }
    }

    /// Whether `self` is strictly cheaper than `other`.
    pub fn less(self, other: Cost) -> (r: bool)
        requires
            bounded(self),
            bounded(other),
        ensures
            r == cost_lt(self, other),
    {
        let x: i128 = self.ones as i128 - other.ones as i128;
        let y: i128 = other.roots as i128 - self.roots as i128;
        assert(0 <= x * x <= 0x1_0000_0000_0000_0000) by (nonlinear_arith)
            requires
                -0xffff_ffff <= x <= 0xffff_ffff,
        ;
        assert(0 <= y * y <= 0x1_0000_0000_0000_0000) by (nonlinear_arith)
            requires
                -0xffff_ffff <= y <= 0xffff_ffff,
        ;
        let xx: i128 = x * x;
        let yy2: i128 = 2 * (y * y);
        if y >= 0 {
            x < 0 || xx < yy2
        } else {
            x < 0 && xx > yy2
        }
    }
}

/// The cost of one step from `a` to the adjacent cell `b`.
pub fn step(a: (usize, usize), b: (usize, usize)) -> (r: Cost)
    ensures
        r == step_cost(a, b),
{
    if a.0 != b.0 && a.1 != b.1 {
        Cost { ones: 0, roots: 1 }
    } else {
        Cost { ones: 1, roots: 0 }
    }
}

/// The unobstructed distance from `a` to `b`; it never exceeds the cost of any
/// walk between them, which makes it an admissible and consistent estimate.
pub fn estimate(a: (usize, usize), b: (usize, usize)) -> (r: Cost)
    ensures
        r == estimate_spec(a, b),
{
    let dr: usize = if a.0 >= b.0 { a.0 - b.0 } else { b.0 - a.0 };
    let dc: usize = if a.1 >= b.1 { a.1 - b.1 } else { b.1 - a.1 };
    if dr <= dc {
        Cost { ones: (dc - dr) as u64, roots: dr as u64 }
    } else {
        Cost { ones: (dr - dc) as u64, roots: dc as u64 }
    }
}

/// A walk costs one step per move, each step orthogonal or diagonal.
pub proof fn lemma_path_cost_parts(path: Seq<(usize, usize)>)
    ensures
        walk_cost(path).0 >= 0,
        walk_cost(path).1 >= 0,
        walk_cost(path).0 + walk_cost(path).1 == if path.len() == 0 {
            0
        } else {
            path.len() - 1
        },
    decreases path.len(),
{
    if path.len() > 1 {
        lemma_path_cost_parts(path.drop_last());
    }
}

/// The total length of a walk whose steps are all between adjacent cells.
pub fn path_cost(path: &Vec<(usize, usize)>) -> (r: Cost)
    requires
        path@.len() <= PART_MAX,
        forall|i: int| 1 <= i < path@.len() ==> #[trigger] adjacent(path@[i - 1], path@[i]),
    ensures
        val(r) == walk_cost(path@),
{
    let mut total = Cost::zero();
    if path.len() == 0 {
        return total;
    }
    let mut i: usize = 1;
    assert(path@.subrange(0, 1).len() == 1);
    while i < path.len()
        invariant
            1 <= i,
            path@.len() <= PART_MAX,
            i <= path@.len(),
            val(total) == walk_cost(path@.subrange(0, i as int)),
        decreases path@.len() - i,
    {
        proof {
            let s = path@.subrange(0, i + 1);
            assert(s.drop_last() =~= path@.subrange(0, i as int));
            lemma_path_cost_parts(path@.subrange(0, i as int));
        }
        total = total.add(step(path[i - 1], path[i]));
        i += 1;
    }
    proof {
        assert(path@.subrange(0, path@.len() as int) =~= path@);
    }
    total
}

proof fn lemma_below_root2_add(x1: int, y1: int, x2: int, y2: int)
    requires
        below_root2(x1, y1),
        below_root2(x2, y2),
    ensures
        below_root2(x1 + x2, y1 + y2),
{
    let x = x1 + x2;
    let y = y1 + y2;
    if y1 >= 0 && y2 >= 0 && x1 >= 0 && x2 >= 0 {
        assert(x * x < 2 * (y * y)) by (nonlinear_arith)
            requires
                x == x1 + x2,
                y == y1 + y2,
                x1 >= 0,
                x2 >= 0,
                y1 >= 0,
                y2 >= 0,
                x1 * x1 < 2 * (y1 * y1),
                x2 * x2 < 2 * (y2 * y2),
        ;
    } else if y1 < 0 && y2 < 0 {
        assert(x * x > 2 * (y * y)) by (nonlinear_arith)
            requires
                x == x1 + x2,
                y == y1 + y2,
                x1 < 0,
                x2 < 0,
                y1 < 0,
                y2 < 0,
                x1 * x1 > 2 * (y1 * y1),
                x2 * x2 > 2 * (y2 * y2),
        ;
    } else if y1 < 0 {
        lemma_mixed(x1, y1, x2, y2);
    } else if y2 < 0 {
        lemma_mixed(x2, y2, x1, y1);
    } else {
        assert(below_root2(x, y)) by (nonlinear_arith)
            requires
                x == x1 + x2,
                y == y1 + y2,
                y1 >= 0,
                y2 >= 0,
                x1 < 0 || x2 < 0,
                x1 < 0 || x1 * x1 < 2 * (y1 * y1),
                x2 < 0 || x2 * x2 < 2 * (y2 * y2),
        ;
    }
}

/// The sum rule when the first term has a negative multiple of sqrt(2).
proof fn lemma_mixed(x1: int, y1: int, x2: int, y2: int)
    requires
        y1 < 0,
        x1 < 0,
        x1 * x1 > 2 * (y1 * y1),
        y2 >= 0,
        x2 < 0 || x2 * x2 < 2 * (y2 * y2),
    ensures
        below_root2(x1 + x2, y1 + y2),
{
    let x = x1 + x2;
    let y = y1 + y2;
    if x2 < 0 {
        if y < 0 {
            assert(x * x > 2 * (y * y)) by (nonlinear_arith)
                requires
                    x == x1 + x2,
                    y == y1 + y2,
                    x1 < 0,
                    x2 < 0,
                    y1 < 0,
                    y2 >= 0,
                    y < 0,
                    x1 * x1 > 2 * (y1 * y1),
            ;
        }
    } else {
        // -x1 > -y1 * sqrt(2) and x2 < y2 * sqrt(2)
        if y >= 0 {
            if x >= 0 {
                assert(x * x < 2 * (y * y)) by (nonlinear_arith)
                    requires
                        x == x1 + x2,
                        y == y1 + y2,
                        x1 < 0,
                        x2 >= 0,
                        y1 < 0,
                        y2 >= 0,
                        x >= 0,
                        y >= 0,
                        x1 * x1 > 2 * (y1 * y1),
                        x2 * x2 < 2 * (y2 * y2),
                ;
            }
        } else {
            assert(x < 0 && x * x > 2 * (y * y)) by (nonlinear_arith)
                requires
                    x == x1 + x2,
                    y == y1 + y2,
                    x1 < 0,
                    x2 >= 0,
                    y1 < 0,
                    y2 >= 0,
                    y < 0,
                    x1 * x1 > 2 * (y1 * y1),
                    x2 * x2 < 2 * (y2 * y2),
            ;
        }
    }
}

/// The order of costs is transitive.
pub proof fn lemma_cost_lt_trans(a: Cost, b: Cost, c: Cost)
    requires
        cost_lt(a, b),
        cost_lt(b, c),
    ensures
        cost_lt(a, c),
{
    lemma_below_root2_add(a.ones - b.ones, b.roots - a.roots, b.ones - c.ones, c.roots - b.roots);
}

/// The cost `a` as a pair of integers `(ones, roots)`.
pub open spec fn val(a: Cost) -> (int, int) {
    (a.ones as int, a.roots as int)
}

pub open spec fn padd(a: (int, int), b: (int, int)) -> (int, int) {
    (a.0 + b.0, a.1 + b.1)
}

/// `a` is strictly cheaper than `b`, both read as `a.0 + a.1 * sqrt(2)`.
pub open spec fn lt_pair(a: (int, int), b: (int, int)) -> bool {
    below_root2(a.0 - b.0, b.1 - a.1)
}

/// `a` costs no more than `b`.
pub open spec fn le_pair(a: (int, int), b: (int, int)) -> bool {
    !lt_pair(b, a)
}

/// sqrt(2) is irrational: `x * x == 2 * y * y` only for zero.
proof fn lemma_no_root2(x: int, y: int)
    requires
        x >= 0,
        y >= 0,
        x * x == 2 * (y * y),
    ensures
        x == 0 && y == 0,
    decreases x,
{
    if x > 0 {
        let k = x / 2;
        if x % 2 == 1 {
            assert(x * x == 2 * (2 * (k * k) + 2 * k) + 1) by (nonlinear_arith)
                requires
                    x == 2 * k + 1,
            ;
        }
        assert(x == 2 * k);
        assert(y * y == 2 * (k * k)) by (nonlinear_arith)
            requires
                x == 2 * k,
                x * x == 2 * (y * y),
        ;
        assert(y < x) by (nonlinear_arith)
            requires
                x > 0,
                y >= 0,
                x * x == 2 * (y * y),
        ;
        assert(k >= 0);
        lemma_no_root2(y, k);
    } else {
        assert(x * x == 0) by (nonlinear_arith)
            requires
                x == 0,
        ;
        assert(y == 0) by (nonlinear_arith)
            requires
                y * y == 0,
        ;
    }
}

/// Of two costs one is cheaper, or they are the same.
pub proof fn lemma_trichotomy(a: (int, int), b: (int, int))
    ensures
        lt_pair(a, b) || lt_pair(b, a) || a == b,
{
    let x = a.0 - b.0;
    let y = b.1 - a.1;
    let nx = b.0 - a.0;
    let ny = a.1 - b.1;
    assert(nx * nx == x * x) by (nonlinear_arith)
        requires
            nx == -x,
    ;
    assert(ny * ny == y * y) by (nonlinear_arith)
        requires
            ny == -y,
    ;
    let ax = if x >= 0 { x } else { nx };
    let ay = if y >= 0 { y } else { ny };
    if x * x == 2 * (y * y) {
        lemma_no_root2(ax, ay);
    }
    if x != 0 {
        assert(x * x > 0) by (nonlinear_arith)
            requires
                x != 0,
        ;
    }
    if y != 0 {
        assert(y * y > 0) by (nonlinear_arith)
            requires
                y != 0,
        ;
    }
    assert(x * x >= 0 && y * y >= 0) by (nonlinear_arith);
}

/// Costing no more than is transitive.
pub proof fn lemma_le_trans(a: (int, int), b: (int, int), c: (int, int))
    requires
        le_pair(a, b),
        le_pair(b, c),
    ensures
        le_pair(a, c),
{
    lemma_trichotomy(a, b);
    lemma_trichotomy(b, c);
    if lt_pair(c, a) {
        if lt_pair(a, b) {
            lemma_below_root2_add(c.0 - a.0, a.1 - c.1, a.0 - b.0, b.1 - a.1);
        }
    }
}

/// Adding costs keeps their order.
pub proof fn lemma_le_add(a: (int, int), b: (int, int), c: (int, int), d: (int, int))
    requires
        le_pair(a, b),
        le_pair(c, d),
    ensures
        le_pair(padd(a, c), padd(b, d)),
{
    lemma_le_trans(padd(a, c), padd(b, c), padd(b, d));
}

/// The total length of a walk, as `(ones, roots)`.
pub open spec fn walk_cost(path: Seq<(usize, usize)>) -> (int, int)
    decreases path.len(),
{
    if path.len() <= 1 {
        (0, 0)
    } else {
        padd(
            walk_cost(path.drop_last()),
            val(step_cost(path[path.len() - 2], path[path.len() - 1])),
        )
    }
}

/// One step never gains more on the estimate than it costs.
pub proof fn lemma_estimate_consistent(a: (usize, usize), b: (usize, usize), g: (usize, usize))
    requires
        adjacent(a, b),
    ensures
        le_pair(val(estimate_spec(a, g)), padd(val(step_cost(a, b)), val(estimate_spec(b, g)))),
{
    let ha = val(estimate_spec(a, g));
    let hb = padd(val(step_cost(a, b)), val(estimate_spec(b, g)));
    let x = hb.0 - ha.0;
    let y = ha.1 - hb.1;
    assert((x == -2 && y == -2) || (x == 0 && y == -2) || (x == 0 && y == -1) || (x == 0 && y
        == 0) || (x == 2 && y == 0) || (x == 2 && y == 1));
}

/// Every step of `path` moves to an adjacent cell.
pub open spec fn steps_adjacent(path: Seq<(usize, usize)>) -> bool {
    forall|i: int| 1 <= i < path.len() ==> #[trigger] adjacent(path[i - 1], path[i])
}

/// Along a walk the estimate never falls faster than the walk costs.
pub proof fn lemma_estimate_chain(path: Seq<(usize, usize)>, g: (usize, usize))
    requires
        path.len() >= 1,
        steps_adjacent(path),
    ensures
        le_pair(
            val(estimate_spec(path[0], g)),
            padd(walk_cost(path), val(estimate_spec(path.last(), g))),
        ),
    decreases path.len(),
{
    let n = path.len() as int;
    if n == 1 {
        lemma_trichotomy((0, 0), (0, 0));
    } else {
        let init = path.drop_last();
        assert(steps_adjacent(init)) by {
            assert forall|i: int| 1 <= i < init.len() implies #[trigger] adjacent(
                init[i - 1],
                init[i],
            ) by {
                assert(adjacent(path[i - 1], path[i]));
            }
        }
        lemma_estimate_chain(init, g);
        let i = n - 1;
        assert(adjacent(path[i - 1], path[i]));
        lemma_estimate_consistent(path[n - 2], path[n - 1], g);
        let w = walk_cost(init);
        let st = val(step_cost(path[n - 2], path[n - 1]));
        let h2 = val(estimate_spec(path[n - 2], g));
        let h1 = val(estimate_spec(path[n - 1], g));
        lemma_le_add(w, w, h2, padd(st, h1));
        lemma_le_trans(val(estimate_spec(path[0], g)), padd(w, h2), padd(w, padd(st, h1)));
    }
}

/// The cost of a walk is the cost up to its `k`-th cell plus the cost from it.
pub proof fn lemma_walk_split(path: Seq<(usize, usize)>, k: int)
    requires
        0 <= k < path.len(),
    ensures
        walk_cost(path) == padd(
            walk_cost(path.subrange(0, k + 1)),
            walk_cost(path.subrange(k, path.len() as int)),
        ),
    decreases path.len(),
{
    let n = path.len() as int;
    if k == n - 1 {
        assert(path.subrange(0, k + 1) =~= path);
        assert(path.subrange(k, n).len() == 1);
    } else {
        lemma_walk_split(path.drop_last(), k);
        assert(path.drop_last().subrange(0, k + 1) =~= path.subrange(0, k + 1));
        let tail = path.subrange(k, n);
        assert(tail.drop_last() =~= path.drop_last().subrange(k, n - 1));
        assert(tail[tail.len() - 2] == path[n - 2]);
        assert(tail[tail.len() - 1] == path[n - 1]);
    }
}

/// `a` costs no more than itself, and a cheaper cost costs no more.
pub proof fn lemma_lt_le(a: (int, int), b: (int, int))
    ensures
        le_pair(a, a),
        lt_pair(a, b) ==> le_pair(a, b),
{
    assert(!below_root2(0, 0));
    if lt_pair(a, b) && lt_pair(b, a) {
        lemma_below_root2_add(a.0 - b.0, b.1 - a.1, b.0 - a.0, a.1 - b.1);
    }
}

} // verus!
