//! The game board and the routing policy: straight to the destination, or by
//! way of the powerup, which clears every barrier once it is collected.
use vstd::prelude::*;

use crate::grid::{adjacent, blocked, in_grid, is_path, neighbors, reachable, row_major_sorted};
use crate::search::{find_path, lemma_shortest_no_repeat, shortest};

verus! {

/// The board: the player, the destination, the barriers, and a powerup that
/// clears all barriers once collected.
#[derive(Debug)]
pub struct Game {
    pub player: (usize, usize),
    pub destination: (usize, usize),
    pub barriers: Vec<(usize, usize)>,
    pub powerup: (usize, usize),
    pub has_powerup: bool,
}

/// No route leads to the destination.
#[derive(Clone, Copy, Debug, PartialEq, Eq)]
pub struct NoPath;

/// `path` goes by a shortest route from `start` to `waypoint` under the
/// barriers as given, then by a shortest route on from `waypoint` to `goal`
/// with the barriers cleared; the two meet at position `k`.
pub open spec fn via_waypoint(
    barriers: Seq<(usize, usize)>,
    cleared: bool,
    path: Seq<(usize, usize)>,
    start: (usize, usize),
    waypoint: (usize, usize),
    goal: (usize, usize),
    k: int,
) -> bool {
    &&& 0 <= k < path.len()
    &&& shortest(barriers, cleared, path.subrange(0, k + 1), start, waypoint)
    &&& shortest(barriers, true, path.subrange(k, path.len() as int), waypoint, goal)
}

/// The route that `a_star` chooses.
pub open spec fn route_spec(g: Game, r: Result<Vec<(usize, usize)>, NoPath>) -> bool {
    let b = g.barriers@;
    if reachable(b, g.has_powerup, g.player, g.powerup) && reachable(
        b,
        true,
        g.powerup,
        g.destination,
    ) {
        r is Ok && exists|k: int|
            via_waypoint(b, g.has_powerup, r->Ok_0@, g.player, g.powerup, g.destination, k)
    } else if reachable(b, g.has_powerup, g.player, g.destination) {
        r is Ok && shortest(b, g.has_powerup, r->Ok_0@, g.player, g.destination)
    } else {
        r == Err::<Vec<(usize, usize)>, NoPath>(NoPath)
    }
}

/// `a` followed by `b` without its first cell, which is the last cell of `a`.
fn join(a: Vec<(usize, usize)>, b: Vec<(usize, usize)>) -> (r: Vec<(usize, usize)>)
    requires
        a@.len() >= 1,
        b@.len() >= 1,
    ensures
        r@ == a@ + b@.subrange(1, b@.len() as int),
{
    let mut r = a;
    let ghost first = r@;
    let mut i: usize = 1;
    while i < b.len()
        invariant
            1 <= i <= b@.len(),
            r@ == first + b@.subrange(1, i as int),
        decreases b@.len() - i,
    {
        r.push(b[i]);
        proof {
            assert(b@.subrange(1, i + 1) =~= b@.subrange(1, i as int).push(b@[i as int]));
        }
        i += 1;
    }
    r
}

impl Game {
    /// The board's cells all lie on the grid.
    pub open spec fn wf(&self) -> bool {
        in_grid(self.player) && in_grid(self.destination) && in_grid(self.powerup)
    }

    /// The standard board: the player in the corner, the destination behind a
    /// wall of barriers that fills column 2, the powerup on the player's side.
    pub fn new() -> (r: Game)
        ensures
            r.wf(),
            r.player == (0usize, 0usize),
            r.destination == (4usize, 7usize),
            r.barriers@ == seq![
                (0usize, 2usize),
                (1usize, 2usize),
                (2usize, 2usize),
                (3usize, 2usize),
                (4usize, 2usize),
                (5usize, 2usize),
                (6usize, 2usize),
                (7usize, 2usize),
            ],
            r.powerup == (5usize, 0usize),
            !r.has_powerup,
    {
        let r = Game {
            player: (0, 0),
            destination: (4, 7),
            barriers: vec![(0, 2), (1, 2), (2, 2), (3, 2), (4, 2), (5, 2), (6, 2), (7, 2)],
            powerup: (5, 0),
            has_powerup: false,
        };
        assert(r.barriers@ =~= seq![
            (0usize, 2usize),
            (1usize, 2usize),
            (2usize, 2usize),
            (3usize, 2usize),
            (4usize, 2usize),
            (5usize, 2usize),
            (6usize, 2usize),
            (7usize, 2usize),
        ]);
        r
    }

    /// The cells the player may step to from `point`: adjacent, on the grid,
    /// and free of barriers unless the powerup has been collected.
    pub fn get_neighbors(&self, point: (usize, usize)) -> (r: Vec<(usize, usize)>)
        ensures
            r@.no_duplicates(),
            row_major_sorted(r@),
            forall|q: (usize, usize)|
                #[trigger] r@.contains(q) <==> adjacent(point, q) && !blocked(
                    self.barriers@,
                    self.has_powerup,
                    q,
                ),
    {
        neighbors(&self.barriers, self.has_powerup, point)
    }

    /// A shortest route from `start` to `goal` on the board as it stands, or
    /// `None` when there is none.
    pub fn a_star_path(&self, start: (usize, usize), goal: (usize, usize)) -> (r: Option<
        Vec<(usize, usize)>,
    >)
        requires
            in_grid(start),
            in_grid(goal),
        ensures
            match r {
                Some(path) => shortest(self.barriers@, self.has_powerup, path@, start, goal),
                None => !reachable(self.barriers@, self.has_powerup, start, goal),
            },
    {
        find_path(&self.barriers, self.has_powerup, start, goal)
    }

    /// Moves the player to `point`. Reaching the powerup collects it, and from
    /// then on the barriers are gone.
    pub fn advance(&mut self, point: (usize, usize))
        ensures
            final(self).player == point,
            final(self).destination == old(self).destination,
            final(self).powerup == old(self).powerup,
            final(self).has_powerup == (old(self).has_powerup || point == old(self).powerup),
            final(self).has_powerup ==> final(self).barriers@.len() == 0,
            !final(self).has_powerup ==> final(self).barriers@ == old(self).barriers@,
    {
        if point.0 == self.powerup.0 && point.1 == self.powerup.1 {
            self.has_powerup = true;
        }
        if self.has_powerup {
            self.barriers.clear();
        }
        self.player = point;
    }

    /// The player's route to the destination. It goes by way of the powerup
    /// when the powerup can be reached; after it the barriers are gone. Else
    /// it goes straight, and fails when the destination cannot be reached.
    pub fn a_star(&mut self) -> (r: Result<Vec<(usize, usize)>, NoPath>)
        requires
            old(self).wf(),
        ensures
            *final(self) == *old(self),
            route_spec(*old(self), r),
    {
        let direct = self.a_star_path(self.player, self.destination);
        let to_powerup = self.a_star_path(self.player, self.powerup);
        let from_powerup = find_path(&self.barriers, true, self.powerup, self.destination);
        match (to_powerup, from_powerup) {
            (Some(first), Some(second)) => {
                let ghost k = first@.len() - 1;
                let ghost f = first@;
                let ghost g = second@;
                let path = join(first, second);
                proof {
                    assert(is_path(self.barriers@, self.has_powerup, f, self.player, self.powerup));
                    assert(is_path(self.barriers@, true, g, self.powerup, self.destination));
                    assert(path@.subrange(0, k + 1) =~= f);
                    assert(path@.subrange(k, path@.len() as int) =~= g);
                }
                let ghost pv = path@;
                let r: Result<Vec<(usize, usize)>, NoPath> = Ok(path);
                proof {
                    assert(r->Ok_0@ == pv);
                    assert(via_waypoint(
                        self.barriers@,
                        self.has_powerup,
                        pv,
                        self.player,
                        self.powerup,
                        self.destination,
                        k,
                    ));
                }
                r
            },
            _ => {
                assert(!(reachable(self.barriers@, self.has_powerup, self.player, self.powerup)
                    && reachable(self.barriers@, true, self.powerup, self.destination)));
                match direct {
                    Some(path) => Ok(path),
                    None => Err(NoPath),
                }
            },
        }
    }
}

/// Every step of a route by way of a waypoint moves to an adjacent cell, so no
/// cell stands twice in a row; and the waypoint stands in it once, where the
/// two legs meet.
pub proof fn lemma_waypoint_route_steps(
    barriers: Seq<(usize, usize)>,
    cleared: bool,
    path: Seq<(usize, usize)>,
    start: (usize, usize),
    waypoint: (usize, usize),
    goal: (usize, usize),
    k: int,
)
    requires
        via_waypoint(barriers, cleared, path, start, waypoint, goal, k),
    ensures
        path[0] == start,
        path[k] == waypoint,
        path.last() == goal,
        forall|i: int|
            1 <= i < path.len() ==> #[trigger] adjacent(path[i - 1], path[i]) && path[i - 1]
                != path[i],
        forall|i: int| 0 <= i < path.len() && #[trigger] path[i] == waypoint ==> i == k,
{
    let a = path.subrange(0, k + 1);
    let b = path.subrange(k, path.len() as int);
    assert(path[0] == a[0]);
    assert(path[k] == a[k]);
    assert(path.last() == b[b.len() - 1]);
    lemma_shortest_no_repeat(barriers, cleared, a, start, waypoint);
    lemma_shortest_no_repeat(barriers, true, b, waypoint, goal);
    assert forall|i: int| 0 <= i < path.len() && #[trigger] path[i] == waypoint implies i == k by {
        if i < k {
            assert(a[i] == path[i] && a[k] == waypoint);
        } else if i > k {
            assert(b[i - k] == path[i] && b[0] == waypoint);
        }
    }
    assert forall|i: int| 1 <= i < path.len() implies #[trigger] adjacent(path[i - 1], path[i])
        && path[i - 1] != path[i] by {
        if i <= k {
            assert(adjacent(a[i - 1], a[i]));
        } else {
            assert(adjacent(b[i - k - 1], b[i - k]));
        }
    }
}

} // verus!
