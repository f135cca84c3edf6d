use rust_royale::arena::ArenaGrid;
use rust_royale::components::{Position, SpawnLane, Team, TowerFootprint, TowerType};
use rust_royale::deployment::{
    check_spell_deploy, check_troop_deploy, deployment_zone, princess_presence, swarm_offset,
    swarm_positions, tile_center, DeployError, PrincessPresence,
};
use rust_royale::match_rules::TowerState;

fn princess(team: Team, x: usize, y: usize) -> TowerState {
    TowerState {
        team,
        kind: TowerType::Princess,
        health: 1400,
        max_health: 1400,
        status: TowerType::Princess.initial_status(),
        footprint: TowerFootprint { start_x: x, start_y: y, size: 3 },
    }
}

fn all_standing() -> PrincessPresence {
    PrincessPresence { red_left: true, red_right: true, blue_left: true, blue_right: true }
}

#[test]
fn presence_follows_standing_princess_towers() {
    let towers = vec![princess(Team::Blue, 3, 5), princess(Team::Red, 14, 24)];
    let p = princess_presence(&towers);
    assert_eq!(
        p,
        PrincessPresence { red_left: false, red_right: true, blue_left: true, blue_right: false }
    );
    let none = princess_presence(&Vec::new());
    assert_eq!(
        none,
        PrincessPresence { red_left: false, red_right: false, blue_left: false, blue_right: false }
    );
}

#[test]
fn zones_expand_when_enemy_princess_falls() {
    let p = all_standing();
    assert_eq!(deployment_zone(Team::Blue, true, p), (0, 14));
    assert_eq!(deployment_zone(Team::Red, false, p), (17, 31));
    let fallen = PrincessPresence { red_left: false, red_right: true, blue_left: true, blue_right: false };
    assert_eq!(deployment_zone(Team::Blue, true, fallen), (0, 20));
    assert_eq!(deployment_zone(Team::Blue, false, fallen), (0, 14));
    assert_eq!(deployment_zone(Team::Red, false, fallen), (11, 31));
    assert_eq!(deployment_zone(Team::Red, true, fallen), (17, 31));
}

#[test]
fn troop_deploy_checks_each_error() {
    let grid = ArenaGrid::new();
    let p = all_standing();
    assert_eq!(check_troop_deploy(&grid, Team::Blue, 10, 10, p), Ok(()));
    assert_eq!(check_troop_deploy(&grid, Team::Blue, -1, 10, p), Err(DeployError::OutOfBounds));
    assert_eq!(check_troop_deploy(&grid, Team::Blue, 10, 32, p), Err(DeployError::OutOfBounds));
    assert_eq!(check_troop_deploy(&grid, Team::Blue, 4, 6, p), Err(DeployError::BlockedTile));
    assert_eq!(check_troop_deploy(&grid, Team::Blue, 0, 6, p), Err(DeployError::BlockedTile));
    assert_eq!(check_troop_deploy(&grid, Team::Blue, 10, 15, p), Err(DeployError::BlockedTile));
    // bridge tiles are deployable but lie outside Blue's zone while the princess stands
    assert_eq!(check_troop_deploy(&grid, Team::Blue, 4, 15, p), Err(DeployError::OutsideZone));
    assert_eq!(check_troop_deploy(&grid, Team::Red, 10, 10, p), Err(DeployError::OutsideZone));
    assert_eq!(check_troop_deploy(&grid, Team::Red, 10, 20, p), Ok(()));
    // the pocket opens once the red left princess is gone
    let fallen = PrincessPresence { red_left: false, ..p };
    assert_eq!(check_troop_deploy(&grid, Team::Blue, 4, 15, fallen), Ok(()));
    assert_eq!(check_troop_deploy(&grid, Team::Blue, 4, 20, fallen), Ok(()));
    assert_eq!(check_troop_deploy(&grid, Team::Blue, 4, 21, fallen), Err(DeployError::OutsideZone));
    assert_eq!(check_troop_deploy(&grid, Team::Blue, 15, 20, fallen), Err(DeployError::OutsideZone));
}

#[test]
fn spells_only_need_the_arena() {
    assert!(check_spell_deploy(4, 6));
    assert!(check_spell_deploy(10, 15));
    assert!(check_spell_deploy(0, 31));
    assert!(!check_spell_deploy(20, 0));
    assert!(!check_spell_deploy(3, -1));
}

#[test]
fn swarm_layout() {
    assert_eq!(swarm_offset(0, 1), (0, 0));
    assert_eq!(swarm_offset(0, 2), (-200, 0));
    assert_eq!(swarm_offset(1, 2), (200, 0));
    assert_eq!(swarm_offset(2, 15), (-200, -400));
    assert_eq!(swarm_offset(5, 15), (200, -800));
    assert_eq!(tile_center(4), 4500);
    assert_eq!(tile_center(0), 500);
    let ps = swarm_positions(4500, 10500, 3);
    assert_eq!(
        ps,
        vec![
            Position { x: 4300, y: 10500 },
            Position { x: 4700, y: 10500 },
            Position { x: 4300, y: 10100 }
        ]
    );
    assert_eq!(swarm_positions(1000, 1000, 1), vec![Position { x: 1000, y: 1000 }]);
    assert!(swarm_positions(1000, 1000, 0).is_empty());
}

#[test]
fn lanes_split_at_the_middle_column() {
    assert_eq!(SpawnLane::from_grid_x(0), SpawnLane::Left);
    assert_eq!(SpawnLane::from_grid_x(9), SpawnLane::Left);
    assert_eq!(SpawnLane::from_grid_x(10), SpawnLane::Right);
    assert_eq!(SpawnLane::from_grid_x(19), SpawnLane::Right);
}
