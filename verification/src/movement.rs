use vstd::prelude::*;
use crate::arena::{self, ArenaGrid};
use crate::components::{Position, SpawnLane, Team};
use crate::constants::{self, ARENA_HEIGHT, ARENA_WIDTH};
use crate::deployment::PrincessPresence;

verus! {

/// Adopts the route A* returned (`route`, the result of `calculate_a_star`)
/// only when it is not empty. `None` or an empty route (the start is already
/// close enough in Manhattan terms) leaves the old, usually empty, path alone,
/// which lets the straight-line approach take over.
pub fn try_calc_path(path: &mut Vec<(i32, i32)>, route: Option<Vec<(i32, i32)>>)
    ensures
        final(path)@ == (if route matches Some(v) && v@.len() > 0 {
            route->0@
        } else {
            old(path)@
        }),
{
    if let Some(new_route) = route {
        if new_route.len() > 0 {
            *path = new_route;
        }
    }
}

/// Whether a unit counts as marching on the left side: its deployment lane
/// when it has one, otherwise whether it stands left of the arena's middle.
pub fn on_left_side(spawn_lane: Option<SpawnLane>, pos_x: i32) -> (left: bool)
    ensures
        left == match spawn_lane {
            Some(SpawnLane::Left) => true,
            Some(SpawnLane::Right) => false,
            None => pos_x < 10_000,
        },
{
    match spawn_lane {
        Some(SpawnLane::Left) => true,
        Some(SpawnLane::Right) => false,
        None => pos_x < 10_000,
    }
}

/// The tile a troop with no target marches to: in front of the enemy princess
/// tower of its lane while that tower stands, otherwise the approach tile of the
/// enemy king tower on its side.
pub open spec fn spec_lane_goal(team: Team, on_left: bool, p: PrincessPresence) -> (i32, i32) {
    match team {
        Team::Blue => if on_left {
            if p.red_left { (4, 27) } else { (8, 26) }
        } else {
            if p.red_right { (15, 27) } else { (11, 26) }
        },
        Team::Red => if on_left {
            if p.blue_left { (4, 4) } else { (8, 5) }
        } else {
            if p.blue_right { (15, 4) } else { (11, 5) }
        },
    }
}

/// The march goal of a troop without a target.
pub fn lane_goal(team: Team, on_left: bool, p: PrincessPresence) -> (g: (i32, i32))
    ensures
        g == spec_lane_goal(team, on_left, p),
{
    match team {
        Team::Blue => {
            if on_left {
                if p.red_left {
                    (4, 27)
                } else {
                    (8, 26)
                }
            } else {
                if p.red_right {
                    (15, 27)
                } else {
                    (11, 26)
                }
            }
        },
        Team::Red => {
            if on_left {
                if p.blue_left {
                    (4, 4)
                } else {
                    (8, 5)
                }
            } else {
                if p.blue_right {
                    (15, 4)
                } else {
                    (11, 5)
                }
            }
        },
    }
}

/// The A* goal and range for chasing a target at fixed-point `(tx, ty)`. A target
/// in the centre band (the king towers) is approached from the tile on the
/// troop's own side of the king, with range 0, so left-lane troops are not pulled
/// across; any other target is approached directly, within `total_range` tiles
/// (at least one).
pub open spec fn spec_chase_goal(tx: i32, ty: i32, total_range: i32, on_left: bool) -> ((i32, i32), i32) {
    if 7000 <= tx <= 13000 {
        (
            (if on_left { 8 } else { 11 }, if constants::spec_to_grid(ty as int) > 15 { 26 } else { 5 }),
            0,
        )
    } else {
        (
            (constants::spec_to_grid(tx as int) as i32, constants::spec_to_grid(ty as int) as i32),
            if total_range > 1 { total_range } else { 1 },
        )
    }
}

/// Where and how close a troop chasing a target should path to.
pub fn chase_goal(tx: i32, ty: i32, total_range: i32, on_left: bool) -> (g: ((i32, i32), i32))
    ensures
        g == spec_chase_goal(tx, ty, total_range, on_left),
{
    let gy = constants::to_grid(ty);
    if tx >= 7_000 && tx <= 13_000 {
        let approach_x = if on_left { 8 } else { 11 };
        let approach_y = if gy > 15 { 26 } else { 5 };
        ((approach_x, approach_y), 0)
    } else {
        let range = if total_range > 1 { total_range } else { 1 };
        ((constants::to_grid(tx), gy), range)
    }
}

/// Whether the river separates a ground troop in row `troop_gy` from a target in
/// row `target_gy`, so that walking straight would run into the water.
pub fn river_between(is_flying: bool, troop_gy: i32, target_gy: i32) -> (b: bool)
    ensures
        b == (!is_flying && ((troop_gy <= 14 && target_gy >= 17) || (troop_gy >= 17 && target_gy <= 14))),
{
    !is_flying && ((troop_gy <= 14 && target_gy >= 17) || (troop_gy >= 17 && target_gy <= 14))
}

/// Whether a unit may step onto the tile containing fixed-point `(x, y)`.
pub open spec fn can_stand(grid: ArenaGrid, x: int, y: int, is_flying: bool) -> bool {
    grid.passable(constants::spec_to_grid(x), constants::spec_to_grid(y), is_flying)
}

/// Whether the tile containing fixed-point `(x, y)` is passable for the unit.
fn standable(grid: &ArenaGrid, x: i32, y: i32, is_flying: bool) -> (b: bool)
    requires
        grid.wf(),
    ensures
        b == can_stand(*grid, x as int, y as int, is_flying),
{
    let gx = constants::to_grid(x);
    let gy = constants::to_grid(y);
    if gx >= 0 && gx < ARENA_WIDTH as i32 && gy >= 0 && gy < ARENA_HEIGHT as i32 {
        let idx: usize = (gy as usize) * ARENA_WIDTH + (gx as usize);
        assert(idx as int == constants::cell_index(gx as int, gy as int));
        grid.tiles[idx].is_walkable(is_flying)
    } else {
        false
    }
}

/// The tile at a raw row-major index.
pub open spec fn raw_tile(grid: ArenaGrid, idx: int) -> arena::TileType {
    grid.tiles@[idx]
}

/// The position after a unit tries to move by `(mx, my)`. A unit following its
/// route or walking straight at its target (`bypass_terrain`) moves freely. Otherwise the
/// step is taken when its destination tile is passable; if not, each axis of the
/// move is tried on its own (sliding along walls), judged by the tile in the
/// unit's current row (for the x part) or column (for the y part), which only
/// bounds-checks the new coordinate. A unit already standing on an impassable or
/// off-arena tile moves freely so it can escape.
pub open spec fn spec_resolve_step(grid: ArenaGrid, pos: Position, mx: i32, my: i32, is_flying: bool, bypass_terrain: bool) -> Position {
    let full = Position { x: (pos.x + mx) as i32, y: (pos.y + my) as i32 };
    if bypass_terrain {
        full
    } else {
        let gx = constants::spec_to_grid(pos.x as int);
        let gy = constants::spec_to_grid(pos.y as int);
        let ngx = constants::spec_to_grid(pos.x + mx);
        let ngy = constants::spec_to_grid(pos.y + my);
        let stuck = !(constants::in_arena(gx, gy) && grid.tile(gx, gy).spec_walkable(is_flying));
        if stuck || can_stand(grid, pos.x + mx, pos.y + my, is_flying) {
            full
        } else {
            let slide_x = 0 <= ngx < ARENA_WIDTH && raw_tile(grid, gy * ARENA_WIDTH + ngx).spec_walkable(is_flying);
            let slide_y = 0 <= ngy < ARENA_HEIGHT && raw_tile(grid, ngy * ARENA_WIDTH + gx).spec_walkable(is_flying);
            Position {
                x: if slide_x { (pos.x + mx) as i32 } else { pos.x },
                y: if slide_y { (pos.y + my) as i32 } else { pos.y },
            }
        }
    }
}

/// Applies one movement step with the terrain rules of `spec_resolve_step`.
pub fn resolve_step(grid: &ArenaGrid, pos: Position, mx: i32, my: i32, is_flying: bool, bypass_terrain: bool) -> (p: Position)
    requires
        grid.wf(),
        i32::MIN <= pos.x + mx <= i32::MAX,
        i32::MIN <= pos.y + my <= i32::MAX,
        !bypass_terrain && !can_stand(*grid, pos.x + mx, pos.y + my, is_flying) ==> {
            let gx = constants::spec_to_grid(pos.x as int);
            let gy = constants::spec_to_grid(pos.y as int);
            let ngx = constants::spec_to_grid(pos.x + mx);
            let ngy = constants::spec_to_grid(pos.y + my);
            &&& 0 <= ngx < ARENA_WIDTH ==> 0 <= gy * ARENA_WIDTH + ngx < grid.tiles@.len()
            &&& 0 <= ngy < ARENA_HEIGHT ==> 0 <= ngy * ARENA_WIDTH + gx < grid.tiles@.len()
        },
    ensures
        p == spec_resolve_step(*grid, pos, mx, my, is_flying, bypass_terrain),
{
    let nx = pos.x + mx;
    let ny = pos.y + my;
    if bypass_terrain {
        return Position { x: nx, y: ny };
    }
    let full_ok = standable(grid, nx, ny, is_flying);
    let mut fx: i32 = 0;
    let mut fy: i32 = 0;
    if full_ok {
        fx = mx;
        fy = my;
    } else {
        let gx = constants::to_grid(pos.x);
        let gy = constants::to_grid(pos.y);
        let ngx = constants::to_grid(nx);
        if ngx >= 0 && ngx < ARENA_WIDTH as i32 {
            let idx = (gy * ARENA_WIDTH as i32 + ngx) as usize;
            if grid.tiles[idx].is_walkable(is_flying) {
                fx = mx;
            }
        }
        let ngy = constants::to_grid(ny);
        if ngy >= 0 && ngy < ARENA_HEIGHT as i32 {
            let idx = (ngy * ARENA_WIDTH as i32 + gx) as usize;
            if grid.tiles[idx].is_walkable(is_flying) {
                fy = my;
            }
        }
    }
    let cgx = constants::to_grid(pos.x);
    let cgy = constants::to_grid(pos.y);
    let stuck = if cgx >= 0 && cgx < ARENA_WIDTH as i32 && cgy >= 0 && cgy < ARENA_HEIGHT as i32 {
        let idx: usize = (cgy as usize) * ARENA_WIDTH + (cgx as usize);
        assert(idx as int == constants::cell_index(cgx as int, cgy as int));
        !grid.tiles[idx].is_walkable(is_flying)
    } else {
        true
    };
    if stuck {
        Position { x: nx, y: ny }
    } else {
        Position { x: pos.x + fx, y: pos.y + fy }
    }
}

/// The positions of two overlapping units after the collision push.
///
/// `push_a` is added to A and `push_b` subtracted from B. A push onto an
/// impassable (or off-arena) tile is refused: if A cannot move, B takes both
/// pushes; if B cannot move, A takes both (or only its own when the combined
/// push is also refused). When neither can move and both belong to the same team,
/// the gentler `fallback_a` / `fallback_b` nudges are applied regardless, so
/// that friendly units wedged on a bridge do not deadlock.
pub open spec fn spec_settle_collision(
    grid: ArenaGrid,
    a: Position,
    b: Position,
    a_flying: bool,
    b_flying: bool,
    push_a: (i32, i32),
    push_b: (i32, i32),
    same_team: bool,
    fallback_a: (i32, i32),
    fallback_b: (i32, i32),
) -> (Position, Position) {
    let new_ax = a.x + push_a.0;
    let new_ay = a.y + push_a.1;
    let a_blocked = !can_stand(grid, new_ax, new_ay, a_flying);
    let new_bx = if a_blocked { b.x - (push_a.0 + push_b.0) } else { b.x - push_b.0 };
    let new_by = if a_blocked { b.y - (push_a.1 + push_b.1) } else { b.y - push_b.1 };
    let b_blocked = !can_stand(grid, new_bx, new_by, b_flying);
    let b1 = if b_blocked { b } else { Position { x: new_bx as i32, y: new_by as i32 } };
    let fax = a.x + (push_a.0 + push_b.0);
    let fay = a.y + (push_a.1 + push_b.1);
    let a1 = if b_blocked && !a_blocked {
        if can_stand(grid, fax, fay, a_flying) {
            Position { x: fax as i32, y: fay as i32 }
        } else {
            Position { x: new_ax as i32, y: new_ay as i32 }
        }
    } else if !a_blocked {
        Position { x: new_ax as i32, y: new_ay as i32 }
    } else {
        a
    };
    if a_blocked && b_blocked && same_team {
        (
            Position { x: (a1.x + fallback_a.0) as i32, y: (a1.y + fallback_a.1) as i32 },
            Position { x: (b1.x - fallback_b.0) as i32, y: (b1.y - fallback_b.1) as i32 },
        )
    } else {
        (a1, b1)
    }
}

/// Resolves one collision push between two units (see `spec_settle_collision`).
pub fn settle_collision(
    grid: &ArenaGrid,
    a: Position,
    b: Position,
    a_flying: bool,
    b_flying: bool,
    push_a: (i32, i32),
    push_b: (i32, i32),
    same_team: bool,
    fallback_a: (i32, i32),
    fallback_b: (i32, i32),
) -> (r: (Position, Position))
    requires
        grid.wf(),
        i32::MIN <= push_a.0 + push_b.0 <= i32::MAX,
        i32::MIN <= push_a.1 + push_b.1 <= i32::MAX,
        i32::MIN <= a.x + push_a.0 <= i32::MAX,
        i32::MIN <= a.y + push_a.1 <= i32::MAX,
        i32::MIN <= a.x + (push_a.0 + push_b.0) <= i32::MAX,
        i32::MIN <= a.y + (push_a.1 + push_b.1) <= i32::MAX,
        i32::MIN <= b.x - push_b.0 <= i32::MAX,
        i32::MIN <= b.y - push_b.1 <= i32::MAX,
        i32::MIN <= b.x - (push_a.0 + push_b.0) <= i32::MAX,
        i32::MIN <= b.y - (push_a.1 + push_b.1) <= i32::MAX,
        same_team ==> i32::MIN <= a.x + fallback_a.0 <= i32::MAX && i32::MIN <= a.y + fallback_a.1
            <= i32::MAX && i32::MIN <= b.x - fallback_b.0 <= i32::MAX && i32::MIN <= b.y
            - fallback_b.1 <= i32::MAX,
    ensures
        r == spec_settle_collision(*grid, a, b, a_flying, b_flying, push_a, push_b, same_team, fallback_a, fallback_b),
{
    let new_ax = a.x + push_a.0;
    let new_ay = a.y + push_a.1;
    let a_blocked = !standable(grid, new_ax, new_ay, a_flying);
    let sum_x = push_a.0 + push_b.0;
    let sum_y = push_a.1 + push_b.1;
    let (new_bx, new_by) = if a_blocked {
        (b.x - sum_x, b.y - sum_y)
    } else {
        (b.x - push_b.0, b.y - push_b.1)
    };
    let mut pb = b;
    let mut b_blocked = true;
    if standable(grid, new_bx, new_by, b_flying) {
        pb = Position { x: new_bx, y: new_by };
        b_blocked = false;
    }
    let mut pa = a;
    if b_blocked && !a_blocked {
        let fax = a.x + sum_x;
        let fay = a.y + sum_y;
        if standable(grid, fax, fay, a_flying) {
            pa = Position { x: fax, y: fay };
        } else {
            pa = Position { x: new_ax, y: new_ay };
        }
    } else if !a_blocked {
        pa = Position { x: new_ax, y: new_ay };
    }
    if a_blocked && b_blocked && same_team {
        pa = Position { x: pa.x + fallback_a.0, y: pa.y + fallback_a.1 };
        pb = Position { x: pb.x - fallback_b.0, y: pb.y - fallback_b.1 };
    }
    (pa, pb)
}

/// Wall sliding: when a unit standing on a passable tile tries a step whose
/// destination tile is blocked, each axis of the move is kept exactly when the
/// tile reached by moving along that axis alone is passable; otherwise that
/// coordinate stays put. A step onto a passable tile, or one that bypasses the
/// terrain, is taken whole.
pub proof fn law_step_slides_along_walls(
    grid: ArenaGrid,
    pos: Position,
    mx: i32,
    my: i32,
    is_flying: bool,
    bypass_terrain: bool,
)
    requires
        i32::MIN <= pos.x + mx <= i32::MAX,
        i32::MIN <= pos.y + my <= i32::MAX,
    ensures
        ({
            let r = spec_resolve_step(grid, pos, mx, my, is_flying, bypass_terrain);
            let gx = constants::spec_to_grid(pos.x as int);
            let gy = constants::spec_to_grid(pos.y as int);
            let ngx = constants::spec_to_grid(pos.x + mx);
            let ngy = constants::spec_to_grid(pos.y + my);
            &&& (bypass_terrain || can_stand(grid, pos.x + mx, pos.y + my, is_flying) || !grid.passable(gx, gy, is_flying))
                ==> r.x == pos.x + mx && r.y == pos.y + my
            &&& (!bypass_terrain && !can_stand(grid, pos.x + mx, pos.y + my, is_flying) && grid.passable(gx, gy, is_flying))
                ==> (r.x == if grid.passable(ngx, gy, is_flying) { pos.x + mx } else { pos.x as int })
                && (r.y == if grid.passable(gx, ngy, is_flying) { pos.y + my } else { pos.y as int })
        }),
{
}

/// Collision pushes are conserved: each unit takes its own push when its tile
/// allows it; a push refused by the tile of one unit is taken by the other
/// instead, when that unit's tile allows the combined push; and a unit whose
/// pushed tile is refused stays where it is.
pub proof fn law_collision_pushes_are_conserved(
    grid: ArenaGrid,
    a: Position,
    b: Position,
    a_flying: bool,
    b_flying: bool,
    push_a: (i32, i32),
    push_b: (i32, i32),
    same_team: bool,
    fallback_a: (i32, i32),
    fallback_b: (i32, i32),
)
    requires
        i32::MIN <= a.x + push_a.0 <= i32::MAX,
        i32::MIN <= a.y + push_a.1 <= i32::MAX,
        i32::MIN <= a.x + push_a.0 + push_b.0 <= i32::MAX,
        i32::MIN <= a.y + push_a.1 + push_b.1 <= i32::MAX,
        i32::MIN <= b.x - push_b.0 <= i32::MAX,
        i32::MIN <= b.y - push_b.1 <= i32::MAX,
        i32::MIN <= b.x - push_a.0 - push_b.0 <= i32::MAX,
        i32::MIN <= b.y - push_a.1 - push_b.1 <= i32::MAX,
    ensures
        ({
            let r = spec_settle_collision(grid, a, b, a_flying, b_flying, push_a, push_b, same_team, fallback_a, fallback_b);
            let a_ok = can_stand(grid, a.x + push_a.0, a.y + push_a.1, a_flying);
            let b_ok = can_stand(grid, b.x - push_b.0, b.y - push_b.1, b_flying);
            let a_takes_all = can_stand(grid, a.x + push_a.0 + push_b.0, a.y + push_a.1 + push_b.1, a_flying);
            let b_takes_all = can_stand(grid, b.x - push_a.0 - push_b.0, b.y - push_a.1 - push_b.1, b_flying);
            &&& a_ok && b_ok ==> r.0.x == a.x + push_a.0 && r.0.y == a.y + push_a.1 && r.1.x == b.x - push_b.0
                && r.1.y == b.y - push_b.1
            &&& a_ok && !b_ok && a_takes_all ==> r.0.x == a.x + push_a.0 + push_b.0 && r.0.y == a.y + push_a.1
                + push_b.1 && r.1 == b
            &&& a_ok && !b_ok && !a_takes_all ==> r.0.x == a.x + push_a.0 && r.0.y == a.y + push_a.1 && r.1 == b
            &&& !a_ok && b_takes_all ==> r.0 == a && r.1.x == b.x - push_a.0 - push_b.0 && r.1.y == b.y
                - push_a.1 - push_b.1
        }),
{
}

} // verus!
