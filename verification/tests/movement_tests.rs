use rust_royale::arena::ArenaGrid;
use rust_royale::components::{Position, SpawnLane, Team};
use rust_royale::constants::{is_in_arena, to_grid};
use rust_royale::deployment::PrincessPresence;
use rust_royale::pathfinding::calculate_a_star;
use rust_royale::movement::{
    chase_goal, lane_goal, on_left_side, resolve_step, river_between, settle_collision, try_calc_path,
};

#[test]
fn grid_conversion_rounds_toward_zero() {
    assert_eq!(to_grid(4500), 4);
    assert_eq!(to_grid(999), 0);
    assert_eq!(to_grid(-500), 0);
    assert_eq!(to_grid(-1500), -1);
    assert!(is_in_arena(0, 0));
    assert!(is_in_arena(19, 31));
    assert!(!is_in_arena(20, 31));
    assert!(!is_in_arena(0, -1));
}

#[test]
fn lane_goals() {
    let all = PrincessPresence { red_left: true, red_right: true, blue_left: true, blue_right: true };
    let none = PrincessPresence { red_left: false, red_right: false, blue_left: false, blue_right: false };
    assert_eq!(lane_goal(Team::Blue, true, all), (4, 27));
    assert_eq!(lane_goal(Team::Blue, false, all), (15, 27));
    assert_eq!(lane_goal(Team::Blue, true, none), (8, 26));
    assert_eq!(lane_goal(Team::Blue, false, none), (11, 26));
    assert_eq!(lane_goal(Team::Red, true, all), (4, 4));
    assert_eq!(lane_goal(Team::Red, false, all), (15, 4));
    assert_eq!(lane_goal(Team::Red, true, none), (8, 5));
    assert_eq!(lane_goal(Team::Red, false, none), (11, 5));
}

#[test]
fn chase_goals() {
    // king tower in the centre band: approach from the lane side, range 0
    assert_eq!(chase_goal(10_000, 29_000, 3, true), ((8, 26), 0));
    assert_eq!(chase_goal(10_000, 29_000, 3, false), ((11, 26), 0));
    assert_eq!(chase_goal(10_000, 3_000, 3, false), ((11, 5), 0));
    // other targets: their tile, at least range 1
    assert_eq!(chase_goal(4_500, 25_500, 3, true), ((4, 25), 3));
    assert_eq!(chase_goal(15_200, 6_100, 0, true), ((15, 6), 1));
}

#[test]
fn lane_side_and_river() {
    assert!(on_left_side(Some(SpawnLane::Left), 15_000));
    assert!(!on_left_side(Some(SpawnLane::Right), 1_000));
    assert!(on_left_side(None, 9_999));
    assert!(!on_left_side(None, 10_000));
    assert!(river_between(false, 10, 20));
    assert!(river_between(false, 20, 14));
    assert!(!river_between(true, 10, 20));
    assert!(!river_between(false, 15, 20));
    assert!(!river_between(false, 10, 14));
}

#[test]
fn path_is_replaced_only_by_a_real_route() {
    let grid = ArenaGrid::new();
    let mut path = vec![(1, 1)];
    // already in range: keep the old path
    try_calc_path(&mut path, calculate_a_star(&grid, (10, 10), (10, 11), false, 1));
    assert_eq!(path, vec![(1, 1)]);
    // unreachable: keep the old path
    try_calc_path(&mut path, calculate_a_star(&grid, (10, 10), (9, 2), false, 0));
    assert_eq!(path, vec![(1, 1)]);
    // reachable: take the route
    let mut path = Vec::new();
    try_calc_path(&mut path, calculate_a_star(&grid, (10, 10), (10, 12), false, 0));
    assert_eq!(path, vec![(10, 11), (10, 12)]);
}

#[test]
fn adopted_path_is_exactly_the_route() {
    let grid = ArenaGrid::new();
    let route = calculate_a_star(&grid, (4, 10), (4, 22), false, 0);
    let mut path = vec![(7, 7), (7, 8)];
    try_calc_path(&mut path, route.clone());
    assert_eq!(Some(path), route);
    let mut kept = vec![(7, 7)];
    try_calc_path(&mut kept, Some(Vec::new()));
    assert_eq!(kept, vec![(7, 7)]);
    try_calc_path(&mut kept, None);
    assert_eq!(kept, vec![(7, 7)]);
}

#[test]
fn steps_respect_terrain() {
    let grid = ArenaGrid::new();
    let p = Position { x: 10_500, y: 13_500 };
    // free step on grass
    assert_eq!(resolve_step(&grid, p, 100, 200, false, false), Position { x: 10_600, y: 13_700 });
    // step into the river is refused for ground units, x slide still allowed
    let q = Position { x: 10_500, y: 14_900 };
    assert_eq!(resolve_step(&grid, q, 50, 200, false, false), Position { x: 10_550, y: 14_900 });
    // flyers cross
    assert_eq!(resolve_step(&grid, q, 50, 200, true, false), Position { x: 10_550, y: 15_100 });
    // following a route ignores terrain
    assert_eq!(resolve_step(&grid, q, 50, 200, false, true), Position { x: 10_550, y: 15_100 });
    // a unit stuck in the river may move anywhere
    let r = Position { x: 10_500, y: 15_500 };
    assert_eq!(resolve_step(&grid, r, 0, 700, false, false), Position { x: 10_500, y: 16_200 });
}

#[test]
fn collision_pushes_respect_terrain() {
    let grid = ArenaGrid::new();
    let a = Position { x: 10_500, y: 10_500 };
    let b = Position { x: 10_900, y: 10_500 };
    let (na, nb) = settle_collision(&grid, a, b, false, false, (-100, 0), (-100, 0), false, (0, 0), (0, 0));
    assert_eq!(na, Position { x: 10_400, y: 10_500 });
    assert_eq!(nb, Position { x: 11_000, y: 10_500 });
    // A pressed against the river bank: B takes both pushes
    let a = Position { x: 10_500, y: 14_950 };
    let b = Position { x: 10_500, y: 14_500 };
    let (na, nb) = settle_collision(&grid, a, b, false, false, (0, 100), (0, 100), false, (0, 0), (0, 0));
    assert_eq!(na, a);
    assert_eq!(nb, Position { x: 10_500, y: 14_300 });
    // both blocked, same team: fallback nudges apply
    let a = Position { x: 500, y: 5_500 };
    let b = Position { x: 19_500, y: 5_500 };
    let (na, nb) = settle_collision(&grid, a, b, false, false, (-600, 0), (-600, 0), true, (10, 0), (10, 0));
    assert_eq!(na, Position { x: 510, y: 5_500 });
    assert_eq!(nb, Position { x: 19_490, y: 5_500 });
}
