use vstd::prelude::*;
use crate::components::{SpawnLane, Team};
use crate::match_rules::MatchPhase;
use crate::stats::TargetPreference;

verus! {

/// Whether a troop of the given lane may target a building at fixed-point `x`.
/// Non-buildings and units without a lane (towers) are always allowed. The
/// centre band from 7000 to 13000 (the king tower and the bridge approaches)
/// is open to both lanes; elsewhere a troop only targets buildings on its own side.
pub open spec fn spec_lane_allows_target(spawn_lane: Option<SpawnLane>, target_fixed_x: i32, target_is_building: bool) -> bool {
    if !target_is_building {
        true
    } else {
        match spawn_lane {
            None => true,
            Some(lane) => if 7000 <= target_fixed_x <= 13000 {
                true
            } else {
                match lane {
                    SpawnLane::Left => target_fixed_x < 10000,
                    SpawnLane::Right => target_fixed_x >= 10000,
                }
            },
        }
    }
}

/// The lane filter applied when choosing and keeping targets.
pub fn lane_allows_target(spawn_lane: Option<SpawnLane>, target_fixed_x: i32, target_is_building: bool) -> (b: bool)
    ensures
        b == spec_lane_allows_target(spawn_lane, target_fixed_x, target_is_building),
{
    if !target_is_building {
        return true;
    }
    let lane = match spawn_lane {
        Some(l) => l,
        None => return true,
    };
    if target_fixed_x >= 7_000 && target_fixed_x <= 13_000 {
        return true;
    }
    match lane {
        SpawnLane::Left => target_fixed_x < 10_000,
        SpawnLane::Right => target_fixed_x >= 10_000,
    }
}

/// What the targeting rules need to know about a unit looking for a target.
#[derive(Debug, Clone, Copy, PartialEq, Eq, Structural)]
pub struct Attacker {
    pub team: Team,
    pub targets_air: bool,
    pub targets_ground: bool,
    pub preference: TargetPreference,
    pub spawn_lane: Option<SpawnLane>,
    /// A sleeping king tower does not look for targets.
    pub sleeping: bool,
}

/// A unit that could be attacked, as seen from one attacker. `distance_key`
/// orders candidates by their edge-to-edge distance to the attacker (a smaller
/// key is a shorter distance); `in_sight` and `in_attack_range` say whether that
/// distance is within the attacker's sight range and attack range.
#[derive(Debug, Clone, Copy, PartialEq, Eq, Structural)]
pub struct Candidate {
    pub team: Team,
    pub fixed_x: i32,
    pub is_flying: bool,
    pub is_building: bool,
    pub distance_key: u32,
    pub in_sight: bool,
    pub in_attack_range: bool,
}

/// The attacker's current target, as found among the candidates.
#[derive(Debug, Clone, Copy, PartialEq, Eq, Structural)]
pub enum HeldTarget {
    /// No current target.
    Nothing,
    /// The current target no longer exists.
    Vanished,
    /// The current target is candidate `i`.
    Present(usize),
}

/// What the attacker should do with its target.
#[derive(Debug, Clone, Copy, PartialEq, Eq, Structural)]
pub enum TargetDecision {
    /// Leave target, path and attack timer as they are.
    Keep,
    /// Set the target to this candidate (or to none), clear the waypoint path
    /// if asked, and restart the attack timer with the first-attack delay if asked.
    Retarget { target: Option<usize>, clear_path: bool, reset_attack_timer: bool },
}

/// Whether `attacker` may target `c`: an enemy, in a layer it can hit (air or
/// ground), a building if it only attacks buildings, and allowed by the lane filter.
pub open spec fn can_target(a: Attacker, c: Candidate) -> bool {
    &&& c.team != a.team
    &&& if c.is_flying { a.targets_air } else { a.targets_ground }
    &&& (a.preference == TargetPreference::Buildings ==> c.is_building)
    &&& spec_lane_allows_target(a.spawn_lane, c.fixed_x, c.is_building)
}

/// Candidate `k` is the nearest target of the given kind (building or not);
/// among equally near ones it comes first.
pub open spec fn is_nearest(a: Attacker, cands: Seq<Candidate>, building: bool, k: int) -> bool {
    &&& 0 <= k < cands.len()
    &&& can_target(a, cands[k])
    &&& cands[k].is_building == building
    &&& forall|j: int|
        0 <= j < cands.len() && can_target(a, #[trigger] cands[j]) && cands[j].is_building == building
            ==> cands[k].distance_key <= cands[j].distance_key
    &&& forall|j: int|
        0 <= j < k && can_target(a, #[trigger] cands[j]) && cands[j].is_building == building
            ==> cands[j].distance_key > cands[k].distance_key
}

/// The nearest target of the given kind, if there is any.
pub open spec fn nearest(a: Attacker, cands: Seq<Candidate>, building: bool) -> Option<usize> {
    if exists|k: usize| is_nearest(a, cands, building, k as int) {
        Some(choose|k: usize| is_nearest(a, cands, building, k as int))
    } else {
        None
    }
}

proof fn lemma_nearest_unique(a: Attacker, cands: Seq<Candidate>, building: bool, k1: int, k2: int)
    requires
        is_nearest(a, cands, building, k1),
        is_nearest(a, cands, building, k2),
    ensures
        k1 == k2,
{
    assert(cands[k1].distance_key <= cands[k2].distance_key);
    assert(cands[k2].distance_key <= cands[k1].distance_key);
    if k1 < k2 {
        assert(can_target(a, cands[k1]));
    } else if k2 < k1 {
        assert(can_target(a, cands[k2]));
    }
}

/// Finds the nearest target of one kind by a scan that keeps the first of equals.
fn find_nearest(a: &Attacker, cands: &Vec<Candidate>, building: bool) -> (r: Option<usize>)
    ensures
        r == nearest(*a, cands@, building),
{
    let mut best: Option<usize> = None;
    let mut i: usize = 0;
    while i < cands.len()
        invariant
            i <= cands@.len(),
            best matches Some(k) ==> is_nearest(*a, cands@.take(i as int), building, k as int),
            best is None ==> forall|j: int|
                0 <= j < i ==> !(can_target(*a, #[trigger] cands@[j]) && cands@[j].is_building == building),
        decreases cands@.len() - i,
    {
        let c = cands[i];
        let eligible = c.team != a.team && (if c.is_flying { a.targets_air } else { a.targets_ground })
            && (a.preference != TargetPreference::Buildings || c.is_building) && lane_allows_target(
            a.spawn_lane,
            c.fixed_x,
            c.is_building,
        );
        let ghost pre = cands@.take(i as int);
        let ghost post = cands@.take(i + 1);
        assert(eligible == can_target(*a, c));
        if eligible && c.is_building == building {
            match best {
                None => {
                    best = Some(i);
                },
                Some(k) => {
                    if c.distance_key < cands[k].distance_key {
                        best = Some(i);
                    }
                },
            }
        }
        proof {
            assert(post[i as int] == c);
            assert forall|j: int| 0 <= j < i implies #[trigger] post[j] == pre[j] && pre[j] == cands@[j] by {}
            if let Some(k) = best {
                assert(is_nearest(*a, post, building, k as int)) by {
                    assert forall|j: int|
                        0 <= j < post.len() && can_target(*a, #[trigger] post[j]) && post[j].is_building
                            == building implies post[k as int].distance_key <= post[j].distance_key by {
                        if j < i {
                            assert(pre[j] == post[j]);
                        }
                    }
                    assert forall|j: int|
                        0 <= j < k && can_target(*a, #[trigger] post[j]) && post[j].is_building == building
                            implies post[j].distance_key > post[k as int].distance_key by {
                        if j < i {
                            assert(pre[j] == post[j]);
                        }
                    }
                }
            }
        }
        i = i + 1;
    }
    proof {
        assert(cands@.take(cands@.len() as int) =~= cands@);
        match best {
            Some(k) => {
                assert(is_nearest(*a, cands@, building, k as int));
                let c = choose|c: usize| is_nearest(*a, cands@, building, c as int);
                lemma_nearest_unique(*a, cands@, building, k as int, c as int);
            },
            None => {
                assert forall|k: usize| !is_nearest(*a, cands@, building, k as int) by {
                    if 0 <= k < cands@.len() {
                        assert(!(can_target(*a, cands@[k as int]) && cands@[k as int].is_building == building));
                    }
                }
            },
        }
    }
    best
}

/// The targeting rules for one attacker:
/// a sleeping tower does nothing; a current target that is still in sight and
/// allowed by the lane filter is kept; otherwise the nearest troop in sight wins,
/// and failing that the nearest building. The path is cleared when the old target
/// vanished or the new target is a different unit, and the attack timer is reset
/// when the new target is already within attack range.
pub open spec fn spec_choose_target(a: Attacker, held: HeldTarget, cands: Seq<Candidate>) -> TargetDecision {
    if a.sleeping {
        TargetDecision::Keep
    } else if (held matches HeldTarget::Present(i) && i < cands.len() && cands[i as int].in_sight
        && spec_lane_allows_target(a.spawn_lane, cands[i as int].fixed_x, cands[i as int].is_building)) {
        TargetDecision::Keep
    } else {
        let troop = nearest(a, cands, false);
        let chosen = match troop {
            Some(t) => if cands[t as int].in_sight {
                troop
            } else {
                nearest(a, cands, true)
            },
            None => nearest(a, cands, true),
        };
        match chosen {
            Some(c) => TargetDecision::Retarget {
                target: chosen,
                clear_path: held == HeldTarget::Vanished || held != HeldTarget::Present(c),
                reset_attack_timer: cands[c as int].in_attack_range,
            },
            None => TargetDecision::Retarget {
                target: None,
                clear_path: held == HeldTarget::Vanished,
                reset_attack_timer: false,
            },
        }
    }
}

/// Decides what an attacker targets this tick (see `spec_choose_target`).
pub fn choose_target(a: &Attacker, held: HeldTarget, cands: &Vec<Candidate>) -> (d: TargetDecision)
    requires
        held matches HeldTarget::Present(i) ==> i < cands@.len(),
    ensures
        d == spec_choose_target(*a, held, cands@),
{
    if a.sleeping {
        return TargetDecision::Keep;
    }
    if let HeldTarget::Present(i) = held {
        let c = cands[i];
        if c.in_sight && lane_allows_target(a.spawn_lane, c.fixed_x, c.is_building) {
            return TargetDecision::Keep;
        }
    }
    let troop = find_nearest(a, cands, false);
    let chosen = match troop {
        Some(t) => if cands[t].in_sight {
            troop
        } else {
            find_nearest(a, cands, true)
        },
        None => find_nearest(a, cands, true),
    };
    let vanished = match held {
        HeldTarget::Vanished => true,
        _ => false,
    };
    match chosen {
        Some(c) => {
            proof {
                let k = choose|k: usize| is_nearest(*a, cands@, false, k as int);
                let k2 = choose|k: usize| is_nearest(*a, cands@, true, k as int);
            }
            let same = match held {
                HeldTarget::Present(i) => i == c,
                _ => false,
            };
            TargetDecision::Retarget {
                target: chosen,
                clear_path: vanished || !same,
                reset_attack_timer: cands[c].in_attack_range,
            }
        },
        None => TargetDecision::Retarget { target: None, clear_path: vanished, reset_attack_timer: false },
    }
}

/// Air and ground targeting: an attacker that has nothing to keep and sees a
/// single enemy troop retargets to it exactly when it can hit that troop's
/// layer (air for a flyer, ground otherwise), the troop is allowed by the lane
/// filter and the attacker does not only attack buildings; otherwise it is left
/// without a target.
pub proof fn law_layers_decide_troop_targets(a: Attacker, c: Candidate)
    requires
        !a.sleeping,
        c.team != a.team,
        !c.is_building,
        c.in_sight,
    ensures
        ({
            let can_hit = (if c.is_flying { a.targets_air } else { a.targets_ground })
                && a.preference == TargetPreference::Any;
            spec_choose_target(a, HeldTarget::Nothing, seq![c]) == if can_hit {
                TargetDecision::Retarget { target: Some(0usize), clear_path: true, reset_attack_timer: c.in_attack_range }
            } else {
                TargetDecision::Retarget { target: None, clear_path: false, reset_attack_timer: false }
            }
        }),
{
    let cands = seq![c];
    let can_hit = (if c.is_flying { a.targets_air } else { a.targets_ground })
        && a.preference == TargetPreference::Any;
    assert(spec_lane_allows_target(a.spawn_lane, c.fixed_x, c.is_building));
    if can_hit {
        assert(can_target(a, cands[0]));
        assert(is_nearest(a, cands, false, 0usize as int));
        let k = choose|k: usize| is_nearest(a, cands, false, k as int);
        lemma_nearest_unique(a, cands, false, 0, k as int);
    } else {
        assert(!can_target(a, cands[0]));
        assert forall|k: usize| !is_nearest(a, cands, false, k as int) by {}
        assert forall|k: usize| !is_nearest(a, cands, true, k as int) by {}
    }
}

/// A target chosen for an attacker is always an enemy in a layer it can hit.
pub proof fn law_chosen_target_is_hittable(a: Attacker, held: HeldTarget, cands: Seq<Candidate>)
    ensures
        spec_choose_target(a, held, cands) matches TargetDecision::Retarget { target: Some(k), .. } ==> {
            &&& k < cands.len()
            &&& cands[k as int].team != a.team
            &&& cands[k as int].is_flying ==> a.targets_air
            &&& !cands[k as int].is_flying ==> a.targets_ground
        },
{
    if let TargetDecision::Retarget { target: Some(k), .. } = spec_choose_target(a, held, cands) {
        let t = nearest(a, cands, false);
        if t is Some && cands[t->0 as int].in_sight {
            assert(is_nearest(a, cands, false, t->0 as int));
        } else {
            assert(is_nearest(a, cands, true, k as int));
        }
    }
}

/// What an attacker does with its target on one combat tick.
#[derive(Debug, Clone, Copy, PartialEq, Eq, Structural)]
pub enum AttackStep {
    /// Nothing to attack.
    Idle,
    /// The target is gone: drop it and clear the path.
    DropTarget,
    /// The target is out of reach: keep it (movement closes in) but do not swing.
    OutOfRange,
    /// The target is within attack range: run the attack timer.
    Engage,
}

/// One combat tick for an attacker: whether it has a target, whether that target
/// still exists, and whether it is within attack range.
pub fn attack_step(has_target: bool, target_exists: bool, in_range: bool) -> (s: AttackStep)
    ensures
        !has_target ==> s == AttackStep::Idle,
        has_target && !target_exists ==> s == AttackStep::DropTarget,
        has_target && target_exists && !in_range ==> s == AttackStep::OutOfRange,
        has_target && target_exists && in_range ==> s == AttackStep::Engage,
{
    if !has_target {
        AttackStep::Idle
    } else if !target_exists {
        AttackStep::DropTarget
    } else if !in_range {
        AttackStep::OutOfRange
    } else {
        AttackStep::Engage
    }
}

/// A unit's health after a hit of `damage`. Once the match is over nothing is
/// struck any more, so the health stays as it is.
pub open spec fn health_after_hit(phase: MatchPhase, health: int, damage: int) -> int {
    if phase == MatchPhase::GameOver {
        health
    } else {
        health - damage
    }
}

/// Subtracts `damage` from a unit's health, unless the match is over; reports
/// whether the unit died (its health dropped to zero or below).
pub fn take_damage(phase: MatchPhase, health: &mut i32, damage: i32) -> (died: bool)
    requires
        phase != MatchPhase::GameOver ==> i32::MIN <= *old(health) - damage <= i32::MAX,
    ensures
        *final(health) == health_after_hit(phase, *old(health) as int, damage as int),
        died == (phase != MatchPhase::GameOver && *final(health) <= 0),
{
    if phase == MatchPhase::GameOver {
        return false;
    }
    *health = *health - damage;
    *health <= 0
}

/// The blast of a damage spell, split into waves.
#[derive(Debug, Clone, Copy, PartialEq, Eq, Structural)]
pub struct AoEPayload {
    /// Damage per wave to troops.
    pub damage: i32,
    /// Damage per wave to towers (spells hit towers for less).
    pub tower_damage: i32,
    /// Fixed-point blast radius.
    pub radius: i32,
    pub waves_total: u32,
    pub waves_remaining: u32,
    /// Push strength; divided by each target's mass.
    pub knockback: i32,
}

/// The total damage of a spell card (0 when it has none).
pub open spec fn spell_damage(damage: Option<i32>) -> i32 {
    match damage {
        Some(d) => d,
        None => 0,
    }
}

/// The crown-tower damage of a spell card: as given, or a third of its damage
/// (rounded toward zero).
pub open spec fn spell_tower_damage(damage: Option<i32>, crown_tower_damage: Option<i32>) -> i32 {
    match crown_tower_damage {
        Some(t) => t,
        None => crate::constants::trunc_div(spell_damage(damage) as int, 3) as i32,
    }
}

/// Rust's `total / d` on `i32`: the quotient rounded toward zero.
pub open spec fn div_toward_zero(total: int, d: int) -> int {
    if d > 0 {
        crate::constants::trunc_div(total, d)
    } else {
        -crate::constants::trunc_div(total, -d)
    }
}

/// One wave's share of a spell's damage (`total / d`, rounded toward zero).
fn wave_share(total: i32, d: i32) -> (q: i32)
    requires
        d != 0,
        !(total == i32::MIN && d == -1),
    ensures
        q == div_toward_zero(total as int, d as int),
{
    if d > 0 {
        total / d
    } else {
        let n: i64 = -(d as i64);
        let t: i64 = total as i64;
        let q0: i64 = t / n;
        proof {
            let a: int = t as int;
            let m: int = n as int;
            if a >= 0 {
                assert(0 <= a / m <= a) by (nonlinear_arith)
                    requires
                        a >= 0,
                        m >= 1,
                ;
            } else if m >= 2 {
                assert(0 <= (-a) / m <= 1073741824) by (nonlinear_arith)
                    requires
                        0 < -a <= 2147483648,
                        m >= 2,
                ;
            } else {
                assert((-a) / m == -a) by (nonlinear_arith)
                    requires
                        m == 1,
                ;
            }
        }
        (-q0) as i32
    }
}

impl AoEPayload {
    /// Builds the payload of a damage spell from its card data: the total
    /// damage (default 0) and the crown-tower damage (default a third of the
    /// damage, rounded toward zero) are spread evenly over the waves (default 1),
    /// each share rounded toward zero. The wave count is divided in as an `i32`,
    /// so a count above `i32::MAX` wraps around as Rust's `as` does.
    pub fn from_spell(
        damage: Option<i32>,
        crown_tower_damage: Option<i32>,
        waves: Option<u32>,
        radius: i32,
        knockback: i32,
    ) -> (p: AoEPayload)
        requires
            waves matches Some(w) ==> w >= 1 && ((w as i32) == -1 ==> spell_damage(damage) != i32::MIN
                && spell_tower_damage(damage, crown_tower_damage) != i32::MIN),
        ensures
            ({
                let w = match waves {
                    Some(w) => w,
                    None => 1u32,
                };
                &&& p.damage == div_toward_zero(spell_damage(damage) as int, (w as i32) as int)
                &&& p.tower_damage == div_toward_zero(
                    spell_tower_damage(damage, crown_tower_damage) as int,
                    (w as i32) as int,
                )
                &&& p.waves_total == w
                &&& p.waves_remaining == w
            }),
            p.radius == radius,
            p.knockback == knockback,
    {
        let dmg: i32 = match damage {
            Some(d) => d,
            None => 0,
        };
        let tower: i32 = match crown_tower_damage {
            Some(t) => t,
            None => dmg / 3,
        };
        let w: u32 = match waves {
            Some(w) => w,
            None => 1,
        };
        let wi: i32 = w as i32;
        proof {
            if w <= i32::MAX as u32 {
                assert(wi == w);
            } else {
                assert(wi < 0) by (bit_vector)
                    requires
                        w > 0x7fff_ffffu32,
                        wi == w as i32,
                ;
            }
        }
        AoEPayload {
            damage: wave_share(dmg, wi),
            tower_damage: wave_share(tower, wi),
            radius,
            waves_total: w,
            waves_remaining: w,
            knockback,
        }
    }

    /// The damage one wave deals to a target.
    pub fn damage_against(&self, target_is_tower: bool) -> (d: i32)
        ensures
            d == if target_is_tower { self.tower_damage } else { self.damage },
    {
        if target_is_tower {
            self.tower_damage
        } else {
            self.damage
        }
    }

    /// Counts off one wave; returns whether more waves follow.
    pub fn finish_wave(&mut self) -> (more: bool)
        requires
            old(self).waves_remaining >= 1,
        ensures
            *final(self) == after_wave(*old(self)),
            more == (final(self).waves_remaining > 0),
    {
        self.waves_remaining = self.waves_remaining - 1;
        self.waves_remaining > 0
    }
}

/// The payload once one more wave has struck.
pub open spec fn after_wave(p: AoEPayload) -> AoEPayload {
    AoEPayload { waves_remaining: (p.waves_remaining - 1) as u32, ..p }
}

/// How many times a spell with payload `p` still strikes: it strikes, counts
/// off the wave (`finish_wave`), and strikes again as long as more waves follow.
pub open spec fn strikes_left(p: AoEPayload) -> nat
    decreases p.waves_remaining,
{
    if p.waves_remaining == 0 {
        0
    } else if after_wave(p).waves_remaining > 0 {
        1 + strikes_left(after_wave(p))
    } else {
        1
    }
}

/// A spell strikes once per wave: a payload with `w` waves left strikes
/// exactly `w` more times (and `from_spell` starts it with all its waves left).
pub proof fn law_spell_strikes_every_wave(p: AoEPayload)
    requires
        p.waves_remaining >= 1,
    ensures
        strikes_left(p) == p.waves_remaining,
    decreases p.waves_remaining,
{
    if after_wave(p).waves_remaining > 0 {
        law_spell_strikes_every_wave(after_wave(p));
    }
}

} // verus!
