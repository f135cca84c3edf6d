use vstd::prelude::*;
use crate::arena::ArenaGrid;
use crate::components::{Position, Team, TowerType};
use crate::constants::{self, ARENA_WIDTH};
use crate::match_rules::TowerState;

verus! {

/// Which princess towers are still standing, per side and lane.
#[derive(Debug, Clone, Copy, PartialEq, Eq, Structural)]
pub struct PrincessPresence {
    pub red_left: bool,
    pub red_right: bool,
    pub blue_left: bool,
    pub blue_right: bool,
}

/// Whether a princess tower of `team` stands in the left (or right) lane.
pub open spec fn princess_standing(towers: Seq<TowerState>, team: Team, left: bool) -> bool {
    exists|i: int|
        0 <= i < towers.len() && (#[trigger] towers[i]).team == team && towers[i].kind
            == TowerType::Princess && (towers[i].footprint.start_x < ARENA_WIDTH / 2) == left
}

/// Finds which princess towers are still standing. A tower belongs to the left
/// lane when its footprint starts left of the middle column.
pub fn princess_presence(towers: &Vec<TowerState>) -> (p: PrincessPresence)
    ensures
        p.red_left == princess_standing(towers@, Team::Red, true),
        p.red_right == princess_standing(towers@, Team::Red, false),
        p.blue_left == princess_standing(towers@, Team::Blue, true),
        p.blue_right == princess_standing(towers@, Team::Blue, false),
{
    let divider = ARENA_WIDTH / 2;
    let mut p = PrincessPresence { red_left: false, red_right: false, blue_left: false, blue_right: false };
    let mut i: usize = 0;
    while i < towers.len()
        invariant
            i <= towers@.len(),
            divider == ARENA_WIDTH / 2,
            p.red_left == princess_standing(towers@.take(i as int), Team::Red, true),
            p.red_right == princess_standing(towers@.take(i as int), Team::Red, false),
            p.blue_left == princess_standing(towers@.take(i as int), Team::Blue, true),
            p.blue_right == princess_standing(towers@.take(i as int), Team::Blue, false),
        decreases towers@.len() - i,
    {
        let t = towers[i];
        let ghost before = towers@.take(i as int);
        let ghost after = towers@.take(i + 1);
        if t.kind == TowerType::Princess {
            let left = t.footprint.start_x < divider;
            match t.team {
                Team::Red => {
                    if left {
                        p.red_left = true;
                    } else {
                        p.red_right = true;
                    }
                },
                Team::Blue => {
                    if left {
                        p.blue_left = true;
                    } else {
                        p.blue_right = true;
                    }
                },
            }
        }
        proof {
            assert(after[i as int] == t);
            assert forall|team: Team, left: bool| #[trigger] princess_standing(after, team, left) == (
            princess_standing(before, team, left) || (t.team == team && t.kind == TowerType::Princess
                && (t.footprint.start_x < ARENA_WIDTH / 2) == left)) by {
                if princess_standing(before, team, left) {
                    let w = choose|w: int|
                        0 <= w < before.len() && (#[trigger] before[w]).team == team && before[w].kind
                            == TowerType::Princess && (before[w].footprint.start_x < ARENA_WIDTH / 2)
                            == left;
                    assert(after[w] == before[w]);
                }
                if princess_standing(after, team, left) {
                    let w = choose|w: int|
                        0 <= w < after.len() && (#[trigger] after[w]).team == team && after[w].kind
                            == TowerType::Princess && (after[w].footprint.start_x < ARENA_WIDTH / 2)
                            == left;
                    if w < i {
                        assert(before[w] == after[w]);
                    }
                }
            }
        }
        i = i + 1;
    }
    assert(towers@.take(towers@.len() as int) =~= towers@);
    p
}

/// The rows `(min_y, max_y)` where `team` may drop a troop in a lane. Blue owns
/// rows 0 to 14 and Red rows 17 to 31; once the enemy princess tower of a lane
/// falls, the pocket in that lane opens up to row 20 (Blue) or down to row 11 (Red).
pub open spec fn spec_deployment_zone(team: Team, is_left_lane: bool, p: PrincessPresence) -> (i32, i32) {
    match team {
        Team::Blue => (0, if (if is_left_lane { p.red_left } else { p.red_right }) { 14 } else { 20 }),
        Team::Red => (if (if is_left_lane { p.blue_left } else { p.blue_right }) { 17 } else { 11 }, 31),
    }
}

/// The rows in which `team` may deploy troops in the given lane.
pub fn deployment_zone(team: Team, is_left_lane: bool, p: PrincessPresence) -> (zone: (i32, i32))
    ensures
        zone == spec_deployment_zone(team, is_left_lane, p),
{
    match team {
        Team::Blue => {
            let enemy_alive = if is_left_lane { p.red_left } else { p.red_right };
            (0, if enemy_alive { 14 } else { 20 })
        },
        Team::Red => {
            let enemy_alive = if is_left_lane { p.blue_left } else { p.blue_right };
            (if enemy_alive { 17 } else { 11 }, 31)
        },
    }
}

/// Why a troop could not be dropped.
#[derive(Debug, Clone, Copy, PartialEq, Eq, Structural)]
pub enum DeployError {
    /// The tile lies outside the arena.
    OutOfBounds,
    /// The tile is river, tower or wall.
    BlockedTile,
    /// The tile lies outside the team's deployment zone.
    OutsideZone,
}

/// The verdict on dropping a troop of `team` at `(x, y)`, checked in order:
/// the arena bounds, the terrain, then the deployment zone of the tile's lane.
pub open spec fn spec_troop_deploy_check(
    grid: ArenaGrid,
    team: Team,
    x: int,
    y: int,
    p: PrincessPresence,
) -> Result<(), DeployError> {
    if !constants::in_arena(x, y) {
        Err(DeployError::OutOfBounds)
    } else if !grid.tile(x, y).spec_deployable() {
        Err(DeployError::BlockedTile)
    } else {
        let zone = spec_deployment_zone(team, x < ARENA_WIDTH as int / 2, p);
        if y < zone.0 || y > zone.1 {
            Err(DeployError::OutsideZone)
        } else {
            Ok(())
        }
    }
}

/// Checks whether a troop card may be dropped on a tile. Elixir is checked by
/// the caller afterwards.
pub fn check_troop_deploy(grid: &ArenaGrid, team: Team, grid_x: i32, grid_y: i32, p: PrincessPresence) -> (r:
    Result<(), DeployError>)
    requires
        grid.wf(),
    ensures
        r == spec_troop_deploy_check(*grid, team, grid_x as int, grid_y as int, p),
{
    if !constants::is_in_arena(grid_x, grid_y) {
        return Err(DeployError::OutOfBounds);
    }
    let idx: usize = (grid_y as usize) * ARENA_WIDTH + (grid_x as usize);
    assert(idx as int == constants::cell_index(grid_x as int, grid_y as int));
    if !grid.tiles[idx].is_deployable() {
        return Err(DeployError::BlockedTile);
    }
    let is_left_lane = grid_x < (ARENA_WIDTH / 2) as i32;
    let (min_y, max_y) = deployment_zone(team, is_left_lane, p);
    if grid_y < min_y || grid_y > max_y {
        return Err(DeployError::OutsideZone);
    }
    Ok(())
}

/// Spells ignore terrain and zones: they only have to land inside the arena.
pub fn check_spell_deploy(grid_x: i32, grid_y: i32) -> (ok: bool)
    ensures
        ok == constants::in_arena(grid_x as int, grid_y as int),
{
    constants::is_in_arena(grid_x, grid_y)
}

/// Only princess towers mark a lane as defended: a standing princess tower of
/// `team` on one side of the middle column marks that side, and when every tower
/// of `team` on that side is a king, the side is open.
pub proof fn law_only_princess_towers_count(towers: Seq<TowerState>, team: Team, left: bool)
    ensures
        (exists|i: int|
            0 <= i < towers.len() && (#[trigger] towers[i]).team == team && towers[i].kind == TowerType::Princess
                && (towers[i].footprint.start_x < 10) == left) ==> princess_standing(towers, team, left),
        (forall|i: int|
            0 <= i < towers.len() && (#[trigger] towers[i]).team == team && (towers[i].footprint.start_x < 10)
                == left ==> towers[i].kind == TowerType::King) ==> !princess_standing(towers, team, left),
{
}

/// Deployment zones go by the column the troop is dropped in, for both sides:
/// columns left of the middle form the left lane. On a deployable arena tile,
/// Blue may drop up to row 14 while the enemy princess tower of that lane
/// stands and up to row 20 once it has fallen; Red may drop from row 17, or
/// from row 11 once the Blue princess tower of that lane has fallen.
pub proof fn law_deploy_zone_follows_the_column(grid: ArenaGrid, team: Team, x: int, y: int, p: PrincessPresence)
    requires
        constants::in_arena(x, y),
        grid.tile(x, y).spec_deployable(),
    ensures
        (spec_troop_deploy_check(grid, team, x, y, p) is Ok) == match team {
            Team::Blue => y <= if (if x < 10 { p.red_left } else { p.red_right }) { 14int } else { 20int },
            Team::Red => y >= if (if x < 10 { p.blue_left } else { p.blue_right }) { 17int } else { 11int },
        },
        spec_troop_deploy_check(grid, team, x, y, p) is Err ==> spec_troop_deploy_check(grid, team, x, y, p)
            == Err::<(), DeployError>(DeployError::OutsideZone),
{
}

/// The fixed-point centre of a tile coordinate.
pub fn tile_center(g: i32) -> (c: i32)
    requires
        -2147483 <= g <= 2147482,
    ensures
        c == g * 1000 + 500,
{
    g * 1000 + 500
}

/// Offset of the `i`-th unit of a group of `count` dropped together: units
/// alternate left and right of the drop point, two per row, each row 0.4 tiles
/// further back. A single unit lands exactly on the drop point.
pub open spec fn spec_swarm_offset(i: int, count: int) -> (int, int) {
    if count > 1 {
        ((i % 2) * 400 - 200, -((i / 2) * 400))
    } else {
        (0, 0)
    }
}

/// The offset of one unit of a group.
pub fn swarm_offset(i: u32, count: u32) -> (o: (i32, i32))
    requires
        i < count,
        count > 1 ==> (i / 2) * 400 <= 2147483648,
    ensures
        o.0 == spec_swarm_offset(i as int, count as int).0,
        o.1 == spec_swarm_offset(i as int, count as int).1,
{
    if count > 1 {
        let half: i64 = (i / 2) as i64;
        let odd: i32 = (i % 2) as i32;
        let back: i64 = half * 400;
        ((odd * 400) - 200, (-back) as i32)
    } else {
        (0, 0)
    }
}

/// Where each unit of a group of `count` dropped at `(base_x, base_y)` appears.
pub fn swarm_positions(base_x: i32, base_y: i32, count: u32) -> (ps: Vec<Position>)
    requires
        count > 1 ==> ((count - 1) / 2) * 400 <= 2147483648 && i32::MIN <= base_y - ((count - 1) / 2)
            * 400 && i32::MIN + 200 <= base_x <= i32::MAX - 200,
    ensures
        ps@.len() == count,
        forall|i: int|
            0 <= i < count ==> (#[trigger] ps@[i]).x == base_x + spec_swarm_offset(i, count as int).0
                && ps@[i].y == base_y + spec_swarm_offset(i, count as int).1,
{
    let mut ps: Vec<Position> = Vec::new();
    let mut i: u32 = 0;
    while i < count
        invariant
            i <= count,
            count > 1 ==> ((count - 1) / 2) * 400 <= 2147483648 && i32::MIN <= base_y - ((count - 1)
                / 2) * 400 && i32::MIN + 200 <= base_x <= i32::MAX - 200,
            ps@.len() == i,
            forall|j: int|
                0 <= j < i ==> (#[trigger] ps@[j]).x == base_x + spec_swarm_offset(j, count as int).0
                    && ps@[j].y == base_y + spec_swarm_offset(j, count as int).1,
        decreases count - i,
    {
        proof {
            if count > 1 {
                assert((i / 2) * 400 <= ((count - 1) / 2) * 400) by (nonlinear_arith)
                    requires
                        i < count,
                ;
            }
        }
        let (ox, oy) = swarm_offset(i, count);
        ps.push(Position { x: base_x + ox, y: base_y + oy });
        i = i + 1;
    }
    ps
}

} // verus!
