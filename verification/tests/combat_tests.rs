use rust_royale::match_rules::MatchPhase;
use rust_royale::combat::{
    attack_step, choose_target, lane_allows_target, take_damage, AoEPayload, AttackStep, Attacker,
    Candidate, HeldTarget, TargetDecision,
};
use rust_royale::components::{SpawnLane, Team, TowerType};
use rust_royale::stats::{collision_radius, SpeedTier, TargetPreference};

fn knight(lane: Option<SpawnLane>) -> Attacker {
    Attacker {
        team: Team::Blue,
        targets_air: false,
        targets_ground: true,
        preference: TargetPreference::Any,
        spawn_lane: lane,
        sleeping: false,
    }
}

fn cand(team: Team, x: i32, flying: bool, building: bool, key: u32, sight: bool, range: bool) -> Candidate {
    Candidate {
        team,
        fixed_x: x,
        is_flying: flying,
        is_building: building,
        distance_key: key,
        in_sight: sight,
        in_attack_range: range,
    }
}

#[test]
fn lane_filter() {
    assert!(lane_allows_target(Some(SpawnLane::Left), 15_000, false));
    assert!(lane_allows_target(None, 15_000, true));
    assert!(lane_allows_target(Some(SpawnLane::Left), 10_000, true));
    assert!(lane_allows_target(Some(SpawnLane::Right), 7_000, true));
    assert!(lane_allows_target(Some(SpawnLane::Left), 4_500, true));
    assert!(!lane_allows_target(Some(SpawnLane::Left), 15_500, true));
    assert!(!lane_allows_target(Some(SpawnLane::Right), 4_500, true));
    assert!(lane_allows_target(Some(SpawnLane::Right), 15_500, true));
}

#[test]
fn nearby_troop_beats_distant_building() {
    let cands = vec![
        cand(Team::Red, 4_500, false, true, 50, false, false),
        cand(Team::Red, 5_000, false, false, 30, true, false),
        cand(Team::Blue, 5_000, false, false, 1, true, true),
    ];
    let d = choose_target(&knight(Some(SpawnLane::Left)), HeldTarget::Nothing, &cands);
    assert_eq!(
        d,
        TargetDecision::Retarget { target: Some(1), clear_path: true, reset_attack_timer: false }
    );
}

#[test]
fn troop_out_of_sight_leaves_the_building() {
    let cands = vec![
        cand(Team::Red, 4_500, false, true, 50, false, false),
        cand(Team::Red, 5_000, false, false, 30, false, false),
    ];
    let d = choose_target(&knight(Some(SpawnLane::Left)), HeldTarget::Nothing, &cands);
    assert_eq!(
        d,
        TargetDecision::Retarget { target: Some(0), clear_path: true, reset_attack_timer: false }
    );
}

#[test]
fn ground_unit_ignores_flyers_and_wrong_lane_buildings() {
    let cands = vec![
        cand(Team::Red, 5_000, true, false, 1, true, true),
        cand(Team::Red, 15_500, false, true, 2, true, true),
        cand(Team::Red, 10_000, false, true, 40, false, false),
    ];
    let d = choose_target(&knight(Some(SpawnLane::Left)), HeldTarget::Nothing, &cands);
    assert_eq!(
        d,
        TargetDecision::Retarget { target: Some(2), clear_path: true, reset_attack_timer: false }
    );
}

#[test]
fn giant_only_sees_buildings() {
    let giant = Attacker { preference: TargetPreference::Buildings, ..knight(Some(SpawnLane::Right)) };
    let cands = vec![
        cand(Team::Red, 15_000, false, false, 1, true, true),
        cand(Team::Red, 15_500, false, true, 9, true, true),
    ];
    let d = choose_target(&giant, HeldTarget::Nothing, &cands);
    assert_eq!(
        d,
        TargetDecision::Retarget { target: Some(1), clear_path: true, reset_attack_timer: true }
    );
}

#[test]
fn ties_go_to_the_first_candidate() {
    let cands = vec![
        cand(Team::Red, 5_000, false, false, 7, true, false),
        cand(Team::Red, 6_000, false, false, 7, true, true),
    ];
    let d = choose_target(&knight(None), HeldTarget::Nothing, &cands);
    assert_eq!(
        d,
        TargetDecision::Retarget { target: Some(0), clear_path: true, reset_attack_timer: false }
    );
}

#[test]
fn sticky_target_is_kept() {
    let cands = vec![
        cand(Team::Red, 5_000, false, false, 1, true, true),
        cand(Team::Red, 6_000, false, false, 20, true, false),
    ];
    let d = choose_target(&knight(None), HeldTarget::Present(1), &cands);
    assert_eq!(d, TargetDecision::Keep);
}

#[test]
fn lost_sight_switches_but_reacquire_keeps_path() {
    // current target out of sight, nearest in-sight troop is another one
    let cands = vec![
        cand(Team::Red, 5_000, false, false, 1, true, true),
        cand(Team::Red, 6_000, false, false, 20, false, false),
    ];
    let d = choose_target(&knight(None), HeldTarget::Present(1), &cands);
    assert_eq!(
        d,
        TargetDecision::Retarget { target: Some(0), clear_path: true, reset_attack_timer: true }
    );
    // a building target that falls out of sight but is still the nearest is re-acquired
    let cands = vec![cand(Team::Red, 4_500, false, true, 30, false, false)];
    let d = choose_target(&knight(Some(SpawnLane::Left)), HeldTarget::Present(0), &cands);
    assert_eq!(
        d,
        TargetDecision::Retarget { target: Some(0), clear_path: false, reset_attack_timer: false }
    );
}

#[test]
fn vanished_target_clears_the_path() {
    let d = choose_target(&knight(None), HeldTarget::Vanished, &Vec::new());
    assert_eq!(
        d,
        TargetDecision::Retarget { target: None, clear_path: true, reset_attack_timer: false }
    );
    let d = choose_target(&knight(None), HeldTarget::Nothing, &Vec::new());
    assert_eq!(
        d,
        TargetDecision::Retarget { target: None, clear_path: false, reset_attack_timer: false }
    );
}

#[test]
fn sleeping_king_does_nothing() {
    let king = Attacker { sleeping: true, targets_air: true, ..knight(None) };
    let cands = vec![cand(Team::Red, 5_000, false, false, 1, true, true)];
    assert_eq!(choose_target(&king, HeldTarget::Nothing, &cands), TargetDecision::Keep);
}

#[test]
fn attack_steps() {
    assert_eq!(attack_step(false, false, false), AttackStep::Idle);
    assert_eq!(attack_step(true, false, true), AttackStep::DropTarget);
    assert_eq!(attack_step(true, true, false), AttackStep::OutOfRange);
    assert_eq!(attack_step(true, true, true), AttackStep::Engage);
}

#[test]
fn damage_and_death() {
    let mut hp = 100;
    assert!(!take_damage(MatchPhase::Regular, &mut hp, 60));
    assert_eq!(hp, 40);
    assert!(take_damage(MatchPhase::Overtime, &mut hp, 40));
    assert_eq!(hp, 0);
    assert!(take_damage(MatchPhase::DoubleElixir, &mut hp, 5));
    assert_eq!(hp, -5);
}

#[test]
fn no_damage_after_the_match() {
    let mut hp = 100;
    assert!(!take_damage(MatchPhase::GameOver, &mut hp, 500));
    assert_eq!(hp, 100);
}

#[test]
fn spell_payload_from_card_data() {
    let fireball = AoEPayload::from_spell(Some(572), Some(172), None, 2500, 1800);
    assert_eq!((fireball.damage, fireball.tower_damage), (572, 172));
    assert_eq!((fireball.waves_total, fireball.waves_remaining), (1, 1));
    assert_eq!(fireball.radius, 2500);
    let arrows = AoEPayload::from_spell(Some(300), None, Some(3), 4000, 0);
    assert_eq!((arrows.damage, arrows.tower_damage), (100, 33));
    let nothing = AoEPayload::from_spell(None, None, None, 1000, 0);
    assert_eq!((nothing.damage, nothing.tower_damage), (0, 0));
    let negative = AoEPayload::from_spell(Some(-7), None, Some(2), 1000, 0);
    assert_eq!((negative.damage, negative.tower_damage), (-3, -1));
    // A wave count past i32::MAX wraps around when divided in.
    let huge = AoEPayload::from_spell(Some(300), Some(90), Some(u32::MAX), 1000, 0);
    assert_eq!((huge.damage, huge.tower_damage), (-300, -90));
    assert_eq!(huge.waves_total, u32::MAX);
    let half = AoEPayload::from_spell(Some(i32::MIN), None, Some(0x8000_0000), 1000, 0);
    assert_eq!((half.damage, half.tower_damage), (1, 0));
}

#[test]
fn spell_strikes_once_per_wave() {
    for waves in 1..6u32 {
        let mut p = AoEPayload::from_spell(Some(500), None, Some(waves), 3000, 0);
        let mut strikes = 1;
        while p.finish_wave() {
            strikes += 1;
        }
        assert_eq!(strikes, waves);
    }
}

#[test]
fn spell_waves_count_down() {
    let mut p = AoEPayload::from_spell(Some(300), None, Some(3), 4000, 0);
    assert_eq!(p.damage_against(true), 33);
    assert_eq!(p.damage_against(false), 100);
    assert!(p.finish_wave());
    assert!(p.finish_wave());
    assert!(!p.finish_wave());
    assert_eq!(p.waves_remaining, 0);
}

#[test]
fn stats_conversions() {
    assert_eq!(SpeedTier::VerySlow.fixed_speed(), 600);
    assert_eq!(SpeedTier::Slow.fixed_speed(), 900);
    assert_eq!(SpeedTier::Medium.fixed_speed(), 1200);
    assert_eq!(SpeedTier::Fast.fixed_speed(), 1800);
    assert_eq!(SpeedTier::VeryFast.fixed_speed(), 2400);
    assert_eq!(collision_radius(1), 500);
    assert_eq!(collision_radius(2), 1000);
    assert_eq!(collision_radius(3), 1500);
    assert_eq!(TowerType::King.initial_status(), rust_royale::components::TowerStatus::Sleeping);
    assert_eq!(Team::Blue.opponent(), Team::Red);
    assert_eq!(Team::default(), Team::Blue);
}
