//! The grid model: coordinates, 8-connected neighbours, obstacles and paths.
use vstd::prelude::*;

verus! {

/// Side length of the square grid.
pub const GRID_SIZE: usize = 8;

/// A coordinate `(row, col)` lies on the grid.
pub open spec fn in_grid(p: (usize, usize)) -> bool {
    p.0 < GRID_SIZE && p.1 < GRID_SIZE
}

pub open spec fn abs_diff(a: usize, b: usize) -> int {
    if a >= b { a - b } else { b - a }
}

/// Two distinct grid cells that touch by a side or a corner.
pub open spec fn adjacent(a: (usize, usize), b: (usize, usize)) -> bool {
    &&& in_grid(a)
    &&& in_grid(b)
    &&& a != b
    &&& abs_diff(a.0, b.0) <= 1
    &&& abs_diff(a.1, b.1) <= 1
}

/// A cell is blocked when it holds a barrier and barriers are in force.
pub open spec fn blocked(barriers: Seq<(usize, usize)>, cleared: bool, p: (usize, usize)) -> bool {
    !cleared && barriers.contains(p)
}

/// `path` walks from `start` to `goal`: every step moves to an adjacent cell,
/// and every cell entered is free. The start cell itself is not examined.
pub open spec fn is_path(
    barriers: Seq<(usize, usize)>,
    cleared: bool,
    path: Seq<(usize, usize)>,
    start: (usize, usize),
    goal: (usize, usize),
) -> bool {
    &&& path.len() >= 1
    &&& path[0] == start
    &&& path.last() == goal
    &&& forall|i: int|
        1 <= i < path.len() ==> #[trigger] adjacent(path[i - 1], path[i]) && !blocked(
            barriers,
            cleared,
            path[i],
        )
}

/// Some path leads from `start` to `goal`.
pub open spec fn reachable(
    barriers: Seq<(usize, usize)>,
    cleared: bool,
    start: (usize, usize),
    goal: (usize, usize),
) -> bool {
    exists|path: Seq<(usize, usize)>| is_path(barriers, cleared, path, start, goal)
}

/// Whether `p` is one of `barriers`.
pub fn contains_cell(barriers: &Vec<(usize, usize)>, p: (usize, usize)) -> (r: bool)
    ensures
        r == barriers@.contains(p),
{
    let mut i: usize = 0;
    while i < barriers.len()
        invariant
            i <= barriers@.len(),
            forall|j: int| 0 <= j < i ==> barriers@[j] != p,
        decreases barriers@.len() - i,
    {
        let q = barriers[i];
        if q.0 == p.0 && q.1 == p.1 {
            assert(barriers@[i as int] == p);
            return true;
        }
        i += 1;
    }
    false
}

/// Whether `a` and `b` are adjacent grid cells.
pub fn is_adjacent(a: (usize, usize), b: (usize, usize)) -> (r: bool)
    ensures
        r == adjacent(a, b),
{
    if a.0 >= GRID_SIZE || a.1 >= GRID_SIZE || b.0 >= GRID_SIZE || b.1 >= GRID_SIZE {
        return false;
    }
    if a.0 == b.0 && a.1 == b.1 {
        return false;
    }
    let dr: usize = if a.0 >= b.0 { a.0 - b.0 } else { b.0 - a.0 };
    let dc: usize = if a.1 >= b.1 { a.1 - b.1 } else { b.1 - a.1 };
    dr <= 1 && dc <= 1
}

/// `a` comes before `b` reading row by row.
pub open spec fn row_major_before(a: (usize, usize), b: (usize, usize)) -> bool {
    a.0 < b.0 || (a.0 == b.0 && a.1 < b.1)
}

/// The cells of `s` come in strictly increasing row-major order.
pub open spec fn row_major_sorted(s: Seq<(usize, usize)>) -> bool {
    forall|i: int, j: int| 0 <= i < j < s.len() ==> row_major_before(s[i], s[j])
}

pub open spec fn scanned(q: (usize, usize), r: usize, c: usize) -> bool {
    q.0 < r || (q.0 == r && q.1 < c)
}

/// The free cells adjacent to `p`, row by row, each once.
pub fn neighbors(barriers: &Vec<(usize, usize)>, cleared: bool, p: (usize, usize)) -> (r: Vec<
    (usize, usize),
>)
    ensures
        r@.no_duplicates(),
        row_major_sorted(r@),
        forall|q: (usize, usize)|
            #[trigger] r@.contains(q) <==> adjacent(p, q) && !blocked(barriers@, cleared, q),
{
    let mut out: Vec<(usize, usize)> = Vec::new();
    let mut r: usize = 0;
    while r < GRID_SIZE
        invariant
            r <= GRID_SIZE,
            out@.no_duplicates(),
            row_major_sorted(out@),
            forall|q: (usize, usize)|
                #[trigger] out@.contains(q) <==> scanned(q, r, 0) && adjacent(p, q) && !blocked(
                    barriers@,
                    cleared,
                    q,
                ),
        decreases GRID_SIZE - r,
    {
        let mut c: usize = 0;
        while c < GRID_SIZE
            invariant
                r < GRID_SIZE,
                c <= GRID_SIZE,
                out@.no_duplicates(),
                row_major_sorted(out@),
                forall|q: (usize, usize)|
                    #[trigger] out@.contains(q) <==> scanned(q, r, c) && adjacent(p, q) && !blocked(
                        barriers@,
                        cleared,
                        q,
                    ),
            decreases GRID_SIZE - c,
        {
            let q = (r, c);
            let ghost prev = out@;
            if is_adjacent(p, q) && (cleared || !contains_cell(barriers, q)) {
                assert(!prev.contains(q));
                assert forall|i: int| 0 <= i < prev.len() implies row_major_before(prev[i], q) by {
                    assert(prev.contains(prev[i]));
                }
                out.push(q);
                proof {
                    assert forall|x: (usize, usize)| #[trigger]
                        out@.contains(x) <==> prev.contains(x) || x == q by {
                        if out@.contains(x) && x != q {
                            let k = choose|k: int| 0 <= k < out@.len() && out@[k] == x;
                            assert(prev[k] == x);
                        }
                        if prev.contains(x) {
                            let k = choose|k: int| 0 <= k < prev.len() && prev[k] == x;
                            assert(out@[k] == x);
                        }
                        if x == q {
                            assert(out@[out@.len() - 1] == q);
                        }
                    }
                }
            }
            c += 1;
        }
        proof {
            assert forall|q: (usize, usize)|
                #[trigger] out@.contains(q) <==> scanned(q, (r + 1) as usize, 0) && adjacent(p, q)
                    && !blocked(barriers@, cleared, q) by {
                if q.0 == r && q.1 >= GRID_SIZE {
                    assert(!adjacent(p, q));
                }
            }
        }
        r += 1;
    }
    proof {
        assert forall|q: (usize, usize)|
            #[trigger] out@.contains(q) <==> adjacent(p, q) && !blocked(barriers@, cleared, q) by {
            if q.0 >= GRID_SIZE {
                assert(!adjacent(p, q));
            }
        }
    }
    out
}

/// A goal whose every neighbour is blocked cannot be reached from a cell that
/// is neither the goal nor one of its neighbours.
pub proof fn lemma_enclosed_goal_unreachable(
    barriers: Seq<(usize, usize)>,
    cleared: bool,
    start: (usize, usize),
    goal: (usize, usize),
)
    requires
        in_grid(start),
        in_grid(goal),
        start != goal,
        !adjacent(start, goal),
        forall|q: (usize, usize)| #[trigger] adjacent(q, goal) ==> blocked(barriers, cleared, q),
    ensures
        !reachable(barriers, cleared, start, goal),
{
    if reachable(barriers, cleared, start, goal) {
        let path = choose|path: Seq<(usize, usize)>| is_path(barriers, cleared, path, start, goal);
        let n = path.len() as int;
        assert(n >= 2);
        let i = n - 1;
        assert(adjacent(path[i - 1], path[i]));
        if n == 2 {
            assert(adjacent(start, goal));
        } else {
            let j = n - 2;
            assert(adjacent(path[j - 1], path[j]));
            assert(!blocked(barriers, cleared, path[j]));
            assert(adjacent(path[j], goal));
        }
    }
}

} // verus!
