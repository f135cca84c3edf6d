use vstd::prelude::*;
use crate::constants::ARENA_WIDTH;

verus! {

/// The exact fixed-point coordinate of a unit (1000 = one tile).
#[derive(Debug, Clone, Copy, PartialEq, Eq, Structural)]
pub struct Position {
    pub x: i32,
    pub y: i32,
}

/// Remaining hit points.
#[derive(Debug, Clone, Copy, PartialEq, Eq, Structural)]
pub struct Health(pub i32);

/// Hit points at full health.
#[derive(Debug, Clone, Copy, PartialEq, Eq, Structural)]
pub struct MaxHealth(pub i32);

/// Fixed-point movement speed per second.
#[derive(Debug, Clone, Copy, PartialEq, Eq, Structural)]
pub struct Velocity(pub i32);

/// The side a unit fights for.
#[derive(Debug, Clone, Copy, PartialEq, Eq, Structural, Hash)]
pub enum Team {
    Blue,
    Red,
}

impl Default for Team {
    fn default() -> (t: Self)
        ensures
            t == Team::Blue,
    {
        Team::Blue
    }
}

impl Team {
    /// The other team.
    pub open spec fn spec_opponent(self) -> Team {
        match self {
            Team::Blue => Team::Red,
            Team::Red => Team::Blue,
        }
    }

    /// The team that fights against this one.
    pub fn opponent(&self) -> (t: Team)
        ensures
            t == self.spec_opponent(),
    {
        match self {
            Team::Blue => Team::Red,
            Team::Red => Team::Blue,
        }
    }
}

/// A princess tower is worth one crown; the king tower ends the match.
#[derive(Debug, Clone, Copy, PartialEq, Eq, Structural)]
pub enum TowerType {
    Princess,
    King,
}

/// King towers sleep until woken; princess towers are always active.
#[derive(Debug, Clone, Copy, PartialEq, Eq, Structural)]
pub enum TowerStatus {
    Sleeping,
    Active,
}

impl TowerType {
    /// The status a tower starts the match in.
    pub fn initial_status(&self) -> (s: TowerStatus)
        ensures
            *self == TowerType::Princess ==> s == TowerStatus::Active,
            *self == TowerType::King ==> s == TowerStatus::Sleeping,
    {
        match self {
            TowerType::Princess => TowerStatus::Active,
            TowerType::King => TowerStatus::Sleeping,
        }
    }
}

/// The grid origin and side of a tower's square footprint.
#[derive(Debug, Clone, Copy, PartialEq, Eq, Structural)]
pub struct TowerFootprint {
    pub start_x: usize,
    pub start_y: usize,
    pub size: usize,
}

/// The physical footprint (fixed-point radius) and weight used for pushing.
#[derive(Debug, Clone, Copy, PartialEq, Eq, Structural)]
pub struct PhysicalBody {
    pub radius: i32,
    pub mass: i32,
}

/// The half of the arena a troop was deployed in. Its default march stays in
/// that lane; only an actual target can pull it elsewhere.
#[derive(Debug, Clone, Copy, PartialEq, Eq, Structural)]
pub enum SpawnLane {
    Left,
    Right,
}

impl SpawnLane {
    /// Columns left of the middle of the arena form the left lane.
    pub open spec fn spec_from_grid_x(grid_x: int) -> SpawnLane {
        if grid_x < ARENA_WIDTH as int / 2 {
            SpawnLane::Left
        } else {
            SpawnLane::Right
        }
    }

    /// The lane of a deployment column.
    pub fn from_grid_x(grid_x: i32) -> (lane: SpawnLane)
        ensures
            lane == Self::spec_from_grid_x(grid_x as int),
    {
        if grid_x < (ARENA_WIDTH / 2) as i32 {
            SpawnLane::Left
        } else {
            SpawnLane::Right
        }
    }
}

/// Units that split into other units when they die.
#[derive(Debug, Clone, PartialEq, Eq)]
pub struct DeathSpawn {
    pub card_key: String,
    pub count: u32,
}

/// Raised when a unit with a death spawn dies.
#[derive(Debug, Clone, PartialEq, Eq)]
pub struct DeathSpawnEvent {
    pub card_key: String,
    pub count: u32,
    pub team: Team,
    pub fixed_x: i32,
    pub fixed_y: i32,
    /// The lane of the unit that died; the units it splits into march in it too.
    pub spawn_lane: Option<SpawnLane>,
}

/// A request, raised by input handling, to drop a card on a grid tile.
#[derive(Debug, Clone, PartialEq, Eq)]
pub struct SpawnRequest {
    pub card_key: String,
    pub team: Team,
    pub grid_x: i32,
    pub grid_y: i32,
}

} // verus!
