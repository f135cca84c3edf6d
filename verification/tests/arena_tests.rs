use rust_royale::arena::{tower_center, tower_layout, ArenaGrid, TileType};
use rust_royale::components::{Team, TowerType};
use rust_royale::constants::{ARENA_HEIGHT, ARENA_WIDTH};

fn tile(grid: &ArenaGrid, x: usize, y: usize) -> TileType {
    grid.tiles[y * ARENA_WIDTH + x]
}

#[test]
fn arena_has_expected_dimensions() {
    let grid = ArenaGrid::new();
    assert_eq!(ARENA_WIDTH, 20);
    assert_eq!(ARENA_HEIGHT, 32);
    assert_eq!(grid.tiles.len(), 640);
}

#[test]
fn arena_walls_river_bridges_and_towers() {
    let grid = ArenaGrid::new();
    // side walls
    for y in 0..ARENA_HEIGHT {
        assert_eq!(tile(&grid, 0, y), TileType::Wall);
        assert_eq!(tile(&grid, 19, y), TileType::Wall);
    }
    // back corners are walls, the space behind the king stays open
    assert_eq!(tile(&grid, 1, 0), TileType::Wall);
    assert_eq!(tile(&grid, 6, 31), TileType::Wall);
    assert_eq!(tile(&grid, 13, 0), TileType::Wall);
    assert_eq!(tile(&grid, 7, 0), TileType::Grass);
    assert_eq!(tile(&grid, 12, 31), TileType::Grass);
    // river and bridges
    assert_eq!(tile(&grid, 1, 15), TileType::River);
    assert_eq!(tile(&grid, 10, 16), TileType::River);
    assert_eq!(tile(&grid, 3, 15), TileType::Bridge);
    assert_eq!(tile(&grid, 5, 16), TileType::Bridge);
    assert_eq!(tile(&grid, 16, 15), TileType::Bridge);
    assert_eq!(tile(&grid, 6, 15), TileType::River);
    // towers
    assert_eq!(tile(&grid, 3, 5), TileType::Tower);
    assert_eq!(tile(&grid, 5, 7), TileType::Tower);
    assert_eq!(tile(&grid, 6, 7), TileType::Grass);
    assert_eq!(tile(&grid, 8, 1), TileType::Tower);
    assert_eq!(tile(&grid, 11, 4), TileType::Tower);
    assert_eq!(tile(&grid, 11, 5), TileType::Grass);
    assert_eq!(tile(&grid, 16, 26), TileType::Tower);
    assert_eq!(tile(&grid, 8, 30), TileType::Tower);
    assert_eq!(tile(&grid, 10, 10), TileType::Grass);
}

#[test]
fn arena_is_symmetric() {
    let grid = ArenaGrid::new();
    for y in 0..ARENA_HEIGHT {
        for x in 0..ARENA_WIDTH {
            assert_eq!(tile(&grid, x, y), tile(&grid, x, ARENA_HEIGHT - 1 - y));
            assert_eq!(tile(&grid, x, y), tile(&grid, ARENA_WIDTH - 1 - x, y));
        }
    }
}

#[test]
fn default_arena_is_the_starting_arena() {
    let a = ArenaGrid::default();
    let b = ArenaGrid::new();
    assert_eq!(a.tiles, b.tiles);
}

#[test]
fn clear_tower_turns_footprint_to_grass() {
    let mut grid = ArenaGrid::new();
    grid.clear_tower(3, 24, 3);
    for y in 24..27 {
        for x in 3..6 {
            assert_eq!(tile(&grid, x, y), TileType::Grass);
        }
    }
    // other towers untouched
    assert_eq!(tile(&grid, 14, 24), TileType::Tower);
    assert_eq!(tile(&grid, 8, 27), TileType::Tower);
    assert_eq!(tile(&grid, 3, 15), TileType::Bridge);
}

#[test]
fn clear_tower_ignores_cells_outside_the_arena() {
    let mut grid = ArenaGrid::new();
    let before = grid.tiles.clone();
    grid.clear_tower(18, 30, 5);
    assert_eq!(tile(&grid, 18, 30), TileType::Grass);
    assert_eq!(tile(&grid, 19, 31), TileType::Grass);
    assert_eq!(grid.tiles.len(), before.len());
    assert_eq!(tile(&grid, 17, 31), before[31 * ARENA_WIDTH + 17]);
}

#[test]
fn walkable_and_deployable_rules() {
    assert!(TileType::Grass.is_walkable(false));
    assert!(TileType::Bridge.is_walkable(false));
    assert!(!TileType::River.is_walkable(false));
    assert!(TileType::River.is_walkable(true));
    assert!(!TileType::Tower.is_walkable(true));
    assert!(!TileType::Wall.is_walkable(true));
    assert!(TileType::Grass.is_deployable());
    assert!(TileType::Bridge.is_deployable());
    assert!(!TileType::River.is_deployable());
    assert!(!TileType::Tower.is_deployable());
    assert!(!TileType::Wall.is_deployable());
    assert_eq!(TileType::default(), TileType::Grass);
}

#[test]
fn tower_layout_matches_the_arena() {
    let grid = ArenaGrid::new();
    let layout = tower_layout();
    assert_eq!(layout.len(), 6);
    assert_eq!(layout[0].team, Team::Blue);
    assert_eq!(layout[2].kind, TowerType::King);
    assert_eq!((layout[5].start_x, layout[5].start_y), (8, 27));
    for p in layout.iter() {
        let size = if p.kind == TowerType::King { 4 } else { 3 };
        for y in p.start_y..p.start_y + size {
            for x in p.start_x..p.start_x + size {
                assert_eq!(tile(&grid, x, y), TileType::Tower);
            }
        }
    }
}

#[test]
fn tower_center_is_the_middle_of_the_footprint() {
    assert_eq!(tower_center(3, 3), 4500);
    assert_eq!(tower_center(8, 4), 10000);
    assert_eq!(tower_center(27, 4), 29000);
}
