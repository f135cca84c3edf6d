use vstd::prelude::*;

verus! {

/// Movement speed class of a troop, as written in the card data.
#[derive(Debug, Clone, Copy, PartialEq, Eq, Structural)]
pub enum SpeedTier {
    VerySlow,
    Slow,
    Medium,
    Fast,
    VeryFast,
}

impl SpeedTier {
    /// Fixed-point tiles per second for each speed class (1000 = one tile).
    pub open spec fn spec_fixed_speed(self) -> i32 {
        match self {
            SpeedTier::VerySlow => 600,
            SpeedTier::Slow => 900,
            SpeedTier::Medium => 1200,
            SpeedTier::Fast => 1800,
            SpeedTier::VeryFast => 2400,
        }
    }

    /// The fixed-point speed a troop of this class moves at.
    pub fn fixed_speed(&self) -> (v: i32)
        ensures
            v == self.spec_fixed_speed(),
    {
        match self {
            SpeedTier::VerySlow => 600,
            SpeedTier::Slow => 900,
            SpeedTier::Medium => 1200,
            SpeedTier::Fast => 1800,
            SpeedTier::VeryFast => 2400,
        }
    }
}

/// What a unit prefers to attack.
#[derive(Debug, Clone, Copy, PartialEq, Eq, Structural)]
pub enum TargetPreference {
    Any,
    Buildings,
}

/// Where a splash attack is centred.
#[derive(Debug, Clone, Copy, PartialEq, Eq, Structural)]
pub enum SplashType {
    TargetCentered,
    SelfCentered,
    Linear,
}

/// What a spell card does when it lands.
#[derive(Debug, Clone, Copy, PartialEq, Eq, Structural)]
pub enum SpellType {
    Damage,
    Spawner,
}

/// Collision radius, in fixed-point units, of a body whose footprint is
/// `footprint_x` tiles wide: half the footprint.
pub fn collision_radius(footprint_x: usize) -> (r: i32)
    requires
        footprint_x * 1000 <= i32::MAX,
    ensures
        r == footprint_x * 500,
{
    (footprint_x as i32 * 1000) / 2
}

} // verus!
