use rust_royale::arena::{ArenaGrid, TileType};
use rust_royale::constants::{ARENA_HEIGHT, ARENA_WIDTH};
use rust_royale::pathfinding::{calculate_a_star, heuristic, Node};

fn passable(grid: &ArenaGrid, p: (i32, i32), flying: bool) -> bool {
    p.0 >= 0
        && p.0 < ARENA_WIDTH as i32
        && p.1 >= 0
        && p.1 < ARENA_HEIGHT as i32
        && grid.tiles[p.1 as usize * ARENA_WIDTH + p.0 as usize].is_walkable(flying)
}

fn check_route(grid: &ArenaGrid, start: (i32, i32), path: &[(i32, i32)], flying: bool) {
    let mut prev = start;
    for &p in path {
        assert!(passable(grid, p, flying), "waypoint {:?} is not passable", p);
        assert_eq!(heuristic(prev, p), 1, "{:?} -> {:?} is not a single step", prev, p);
        prev = p;
    }
}

#[test]
fn heuristic_is_manhattan_distance() {
    assert_eq!(heuristic((0, 0), (3, 4)), 7);
    assert_eq!(heuristic((5, 2), (1, 9)), 11);
    assert_eq!(heuristic((-3, -3), (3, 3)), 12);
    assert_eq!(heuristic((7, 7), (7, 7)), 0);
}

#[test]
fn node_order_pops_lowest_cost_then_greatest_cell() {
    let a = Node { cost: 5, pos: (1, 1) };
    let b = Node { cost: 7, pos: (9, 9) };
    assert!(a.pops_before(&b));
    assert!(!b.pops_before(&a));
    let c = Node { cost: 5, pos: (2, 0) };
    assert!(c.pops_before(&a));
    assert!(!a.pops_before(&c));
    assert!(!a.pops_before(&a));
}

#[test]
fn ground_path_crosses_a_bridge() {
    let grid = ArenaGrid::new();
    let start = (4, 10);
    let goal = (4, 22);
    let path = calculate_a_star(&grid, start, goal, false, 0).expect("a route exists");
    check_route(&grid, start, &path, false);
    assert_eq!(*path.last().unwrap(), goal);
    // it has to use a bridge tile in the river rows
    assert!(path
        .iter()
        .any(|&(x, y)| y == 15 && grid.tiles[15 * ARENA_WIDTH + x as usize] == TileType::Bridge));
    // shortest possible length here is 12 (straight over the left bridge)
    assert_eq!(path.len(), 12);
}

#[test]
fn flying_path_crosses_the_river_directly() {
    let grid = ArenaGrid::new();
    let start = (10, 10);
    let goal = (10, 21);
    let path = calculate_a_star(&grid, start, goal, true, 0).expect("a route exists");
    check_route(&grid, start, &path, true);
    assert_eq!(path.len(), 11);
    assert_eq!(*path.last().unwrap(), goal);
}

#[test]
fn search_stops_within_attack_range() {
    let grid = ArenaGrid::new();
    let start = (10, 10);
    let goal = (10, 2);
    let path = calculate_a_star(&grid, start, goal, false, 3).expect("a route exists");
    check_route(&grid, start, &path, false);
    let end = *path.last().unwrap();
    assert!(heuristic(end, goal) <= 3);
}

#[test]
fn start_within_range_gives_empty_route() {
    let grid = ArenaGrid::new();
    let path = calculate_a_star(&grid, (10, 10), (11, 11), false, 2).expect("already in range");
    assert!(path.is_empty());
    let same = calculate_a_star(&grid, (10, 10), (10, 10), false, -1).expect("start is the goal");
    assert!(same.is_empty());
}

#[test]
fn unreachable_goal_gives_none() {
    let grid = ArenaGrid::new();
    // The middle of a tower can never be stood on, and range 0 asks for the cell itself.
    assert!(calculate_a_star(&grid, (10, 10), (9, 2), false, 0).is_none());
    // A cell outside the arena cannot be reached either.
    assert!(calculate_a_star(&grid, (10, 10), (40, 40), true, 0).is_none());
}

#[test]
fn start_outside_the_arena_is_handled() {
    let grid = ArenaGrid::new();
    // One step west of the left wall: the only neighbour inside is the wall itself.
    assert!(calculate_a_star(&grid, (-1, 10), (5, 10), false, 0).is_none());
    // Below the open space behind the blue king: it can walk in.
    let path = calculate_a_star(&grid, (9, -1), (9, 0), false, 0).expect("route");
    assert_eq!(path, vec![(9, 0)]);
}

/// Length of a shortest walk from `start` to a cell within `range` of `goal`
/// (or onto `goal`), by breadth-first search.
fn bfs_length(grid: &ArenaGrid, start: (i32, i32), goal: (i32, i32), flying: bool, range: i32) -> Option<usize> {
    let good = |p: (i32, i32)| heuristic(p, goal) <= range || p == goal;
    let mut seen = vec![false; ARENA_WIDTH * ARENA_HEIGHT];
    let mut layer = vec![start];
    let mut steps = 0;
    while !layer.is_empty() {
        if layer.iter().any(|&p| good(p)) {
            return Some(steps);
        }
        let mut next = Vec::new();
        for &(x, y) in &layer {
            for (dx, dy) in [(0, 1), (1, 0), (0, -1), (-1, 0)] {
                let q = (x + dx, y + dy);
                if passable(grid, q, flying) {
                    let i = q.1 as usize * ARENA_WIDTH + q.0 as usize;
                    if !seen[i] {
                        seen[i] = true;
                        next.push(q);
                    }
                }
            }
        }
        layer = next;
        steps += 1;
    }
    None
}

#[test]
fn range_search_takes_a_shortest_route() {
    let grid = ArenaGrid::new();
    // Straight down column 10 until three tiles from the goal.
    let path = calculate_a_star(&grid, (10, 10), (10, 2), false, 3).expect("a route exists");
    assert_eq!(path.len(), 5);
    assert_eq!(*path.last().unwrap(), (10, 5));
}

#[test]
fn routes_are_as_short_as_breadth_first_search() {
    let grid = ArenaGrid::new();
    let starts = [(4, 10), (15, 12), (9, 20), (0, 0), (19, 31), (10, 16)];
    let goals = [(4, 22), (10, 28), (2, 3), (17, 5), (9, 15), (10, 2)];
    for &flying in &[false, true] {
        for &range in &[0, 1, 3] {
            for &s in &starts {
                for &g in &goals {
                    let expected = bfs_length(&grid, s, g, flying, range);
                    let got = calculate_a_star(&grid, s, g, flying, range);
                    match (expected, got) {
                        (Some(n), Some(path)) => {
                            check_route(&grid, s, &path, flying);
                            assert_eq!(path.len(), n, "from {:?} to {:?} (range {}, flying {})", s, g, range, flying);
                        }
                        (None, None) => {}
                        (e, r) => panic!("from {:?} to {:?}: expected {:?}, got {:?}", s, g, e, r),
                    }
                }
            }
        }
    }
}

#[test]
fn extra_tiles_past_the_arena_are_ignored() {
    let mut grid = ArenaGrid::new();
    grid.tiles.extend(vec![TileType::Wall; 100]);
    let path = calculate_a_star(&grid, (4, 10), (4, 22), false, 0).expect("a route exists");
    check_route(&grid, (4, 10), &path, false);
    assert_eq!(path.len(), 12);
}
