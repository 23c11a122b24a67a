use gridpath::cost::{estimate, path_cost, step, Cost};
use gridpath::game::{Game, NoPath};
use gridpath::grid::{contains_cell, is_adjacent, neighbors};
use gridpath::search::{find_path, Node};

fn column_two() -> Vec<(usize, usize)> {
    (0..8).map(|r| (r, 2)).collect()
}

fn ring_around(c: (usize, usize)) -> Vec<(usize, usize)> {
    let mut out = Vec::new();
    for dr in -1i32..=1 {
        for dc in -1i32..=1 {
            let r = c.0 as i32 + dr;
            let k = c.1 as i32 + dc;
            if (dr, dc) != (0, 0) && (0..8).contains(&r) && (0..8).contains(&k) {
                out.push((r as usize, k as usize));
            }
        }
    }
    out
}

fn assert_walk(path: &[(usize, usize)], start: (usize, usize), goal: (usize, usize)) {
    assert!(!path.is_empty());
    assert_eq!(path[0], start);
    assert_eq!(*path.last().unwrap(), goal);
    for w in path.windows(2) {
        assert!(is_adjacent(w[0], w[1]), "{:?} -> {:?}", w[0], w[1]);
    }
}

fn cost_value(c: Cost) -> f64 {
    c.ones as f64 + c.roots as f64 * 2f64.sqrt()
}

#[test]
fn open_grid_corner_to_corner_is_diagonal() {
    let path = find_path(&Vec::new(), false, (0, 0), (7, 7)).unwrap();
    assert_eq!(path.len(), 8);
    for (i, p) in path.iter().enumerate() {
        assert_eq!(*p, (i, i));
    }
    let c = path_cost(&path);
    assert_eq!(c, Cost { ones: 0, roots: 7 });
    assert!((cost_value(c) - 7.0 * 1.414).abs() < 0.01);
}

#[test]
fn open_grid_paths_are_shortest() {
    let cases = [((0, 0), (3, 7)), ((2, 5), (6, 1)), ((7, 0), (7, 7)), ((4, 4), (0, 6))];
    for (start, goal) in cases {
        let path = find_path(&Vec::new(), false, start, goal).unwrap();
        assert_walk(&path, start, goal);
        assert_eq!(path_cost(&path), estimate(start, goal));
    }
    assert_eq!(estimate((0, 0), (3, 7)), Cost { ones: 4, roots: 3 });
}

#[test]
fn same_cell_is_a_single_step_path() {
    let path = find_path(&column_two(), false, (3, 3), (3, 3)).unwrap();
    assert_eq!(path, vec![(3, 3)]);
    assert_eq!(path_cost(&path), Cost { ones: 0, roots: 0 });
}

#[test]
fn blocked_column_leaves_no_path() {
    let path = find_path(&column_two(), false, (0, 0), (4, 7));
    assert!(path.is_none());
    let game = Game::new();
    assert!(game.a_star_path((0, 0), (4, 7)).is_none());
}

#[test]
fn cleared_barriers_do_not_block() {
    let path = find_path(&column_two(), true, (0, 0), (4, 7)).unwrap();
    assert_walk(&path, (0, 0), (4, 7));
    assert_eq!(path_cost(&path), Cost { ones: 3, roots: 4 });
}

#[test]
fn enclosed_goal_is_unreachable() {
    let walls = ring_around((4, 4));
    assert_eq!(walls.len(), 8);
    assert!(find_path(&walls, false, (0, 0), (4, 4)).is_none());
    assert!(find_path(&walls, false, (7, 7), (4, 4)).is_none());
    let corner = ring_around((0, 7));
    assert!(find_path(&corner, false, (7, 0), (0, 7)).is_none());
}

#[test]
fn path_avoids_barriers() {
    let walls: Vec<(usize, usize)> = (0..7).map(|r| (r, 4)).collect();
    let path = find_path(&walls, false, (0, 0), (0, 7)).unwrap();
    assert_walk(&path, (0, 0), (0, 7));
    for p in &path {
        assert!(!walls.contains(p));
    }
    assert!(path.contains(&(7, 4)));
}

#[test]
fn clearing_barriers_never_costs_more() {
    let walls: Vec<(usize, usize)> = vec![(1, 1), (2, 2), (3, 3), (1, 3), (3, 1), (2, 4), (4, 2)];
    let pairs = [((0, 0), (5, 5)), ((0, 4), (4, 0)), ((2, 3), (7, 7))];
    for (start, goal) in pairs {
        let blocked = find_path(&walls, false, start, goal).unwrap();
        let open = find_path(&walls, true, start, goal).unwrap();
        let (b, o) = (path_cost(&blocked), path_cost(&open));
        assert!(!b.less(o));
        assert!(cost_value(o) <= cost_value(b) + 1e-9);
    }
    let blocked = find_path(&walls, false, (0, 0), (5, 5)).unwrap();
    let open = find_path(&walls, true, (0, 0), (5, 5)).unwrap();
    assert!(path_cost(&open).less(path_cost(&blocked)));
}

#[test]
fn route_goes_by_way_of_powerup() {
    let mut game = Game::new();
    let path = game.a_star().unwrap();
    assert_walk(&path, (0, 0), (4, 7));
    let at: Vec<usize> = (0..path.len()).filter(|&i| path[i] == (5, 0)).collect();
    assert_eq!(at.len(), 1);
    for p in &path[..at[0]] {
        assert_ne!(p.1, 2);
    }
    for w in path.windows(2) {
        assert_ne!(w[0], w[1]);
    }
    assert_eq!(path_cost(&path[..at[0] + 1].to_vec()), Cost { ones: 5, roots: 0 });
    assert_eq!(path_cost(&path[at[0]..].to_vec()), Cost { ones: 6, roots: 1 });
}

#[test]
fn route_falls_back_to_direct_path() {
    let mut game = Game::new();
    game.barriers = ring_around((5, 0));
    let path = game.a_star().unwrap();
    assert_walk(&path, (0, 0), (4, 7));
    assert!(!path.contains(&(5, 0)));
    assert_eq!(path_cost(&path), Cost { ones: 3, roots: 4 });
}

#[test]
fn route_fails_when_nothing_reaches_destination() {
    let mut game = Game::new();
    let mut walls = ring_around((5, 0));
    walls.extend(ring_around((4, 7)));
    game.barriers = walls;
    assert_eq!(game.a_star(), Err(NoPath));
}

#[test]
fn new_game_layout() {
    let game = Game::new();
    assert_eq!(game.player, (0, 0));
    assert_eq!(game.destination, (4, 7));
    assert_eq!(game.powerup, (5, 0));
    assert_eq!(game.barriers, column_two());
    assert!(!game.has_powerup);
}

#[test]
fn advancing_onto_powerup_clears_barriers() {
    let mut game = Game::new();
    game.advance((1, 0));
    assert_eq!(game.player, (1, 0));
    assert!(!game.has_powerup);
    assert_eq!(game.barriers.len(), 8);
    game.advance((5, 0));
    assert!(game.has_powerup);
    assert!(game.barriers.is_empty());
    game.advance((5, 1));
    assert!(game.has_powerup);
    assert_eq!(game.player, (5, 1));
}

#[test]
fn neighbors_of_corner_edge_and_middle() {
    let game = Game::new();
    let mut corner = game.get_neighbors((0, 0));
    corner.sort();
    assert_eq!(corner, vec![(0, 1), (1, 0), (1, 1)]);
    assert_eq!(game.get_neighbors((4, 4)).len(), 8);
    let mut by_wall = game.get_neighbors((4, 1));
    by_wall.sort();
    assert_eq!(by_wall, vec![(3, 0), (3, 1), (4, 0), (5, 0), (5, 1)]);
    assert_eq!(neighbors(&column_two(), true, (4, 1)).len(), 8);
    assert_eq!(neighbors(&Vec::new(), false, (7, 7)).len(), 3);
}

#[test]
fn adjacency_and_membership() {
    assert!(is_adjacent((3, 3), (4, 4)));
    assert!(is_adjacent((3, 3), (3, 2)));
    assert!(!is_adjacent((3, 3), (3, 3)));
    assert!(!is_adjacent((3, 3), (5, 3)));
    assert!(!is_adjacent((7, 7), (8, 7)));
    assert!(contains_cell(&column_two(), (6, 2)));
    assert!(!contains_cell(&column_two(), (6, 3)));
}

#[test]
fn step_and_estimate_costs() {
    assert_eq!(step((2, 2), (3, 3)), Cost { ones: 0, roots: 1 });
    assert_eq!(step((2, 2), (2, 3)), Cost { ones: 1, roots: 0 });
    assert_eq!(estimate((0, 0), (2, 5)), Cost { ones: 3, roots: 2 });
    assert_eq!(estimate((6, 1), (2, 5)), Cost { ones: 0, roots: 4 });
    assert_eq!(path_cost(&vec![(0, 0), (0, 1), (1, 2)]), Cost { ones: 1, roots: 1 });
    assert_eq!(path_cost(&Vec::new()), Cost { ones: 0, roots: 0 });
}

#[test]
fn cost_comparison_is_exact() {
    let two_diag = Cost { ones: 0, roots: 2 };
    let three = Cost { ones: 3, roots: 0 };
    let mixed = Cost { ones: 1, roots: 1 };
    assert!(two_diag.less(three));
    assert!(!three.less(two_diag));
    assert!(mixed.less(two_diag));
    assert!(!two_diag.less(two_diag));
    assert!(Cost { ones: 7, roots: 0 }.less(Cost { ones: 0, roots: 5 }));
    assert!(Cost { ones: 0, roots: 5 }.less(Cost { ones: 8, roots: 0 }));
    assert_eq!(two_diag.add(mixed), Cost { ones: 1, roots: 3 });
}

#[test]
fn node_total_is_cost_plus_estimate() {
    let n = Node::new((2, 3), Cost { ones: 2, roots: 1 }, estimate((2, 3), (7, 7)));
    assert_eq!(n.point, (2, 3));
    assert_eq!(n.h_score, Cost { ones: 1, roots: 4 });
    assert_eq!(n.f_score(), Cost { ones: 3, roots: 5 });
}

#[test]
fn collected_powerup_opens_the_wall() {
    let mut game = Game::new();
    game.advance((5, 0));
    let path = game.a_star_path((0, 0), (4, 7)).unwrap();
    assert_walk(&path, (0, 0), (4, 7));
    assert_eq!(path_cost(&path), estimate((0, 0), (4, 7)));
}

#[test]
fn neighbors_come_in_row_major_order() {
    let mut open = Game::new();
    open.barriers = Vec::new();
    assert_eq!(open.get_neighbors((0, 0)), vec![(0, 1), (1, 0), (1, 1)]);
    assert_eq!(
        open.get_neighbors((3, 3)),
        vec![(2, 2), (2, 3), (2, 4), (3, 2), (3, 4), (4, 2), (4, 3), (4, 4)]
    );
    let standard = Game::new();
    assert_eq!(standard.get_neighbors((0, 1)), vec![(0, 0), (1, 0), (1, 1)]);
    let mut powered = Game::new();
    powered.has_powerup = true;
    assert_eq!(powered.get_neighbors((0, 1)), vec![(0, 0), (0, 2), (1, 0), (1, 1), (1, 2)]);
}

#[test]
fn standard_route_exact_cells() {
    let mut game = Game::new();
    let path = game.a_star().unwrap();
    assert_eq!(&path[..6], &[(0, 0), (1, 0), (2, 0), (3, 0), (4, 0), (5, 0)]);
    assert_eq!(path.len(), 13);
    assert_eq!(path[12], (4, 7));
    assert_eq!(path.iter().filter(|&&p| p == (5, 0)).count(), 1);
    assert_eq!(path_cost(&path), Cost { ones: 11, roots: 1 });
}
