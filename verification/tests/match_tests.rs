use rust_royale::arena::{ArenaGrid, TileType};
use rust_royale::components::{Team, TowerFootprint, TowerStatus, TowerType};
use rust_royale::constants::ARENA_WIDTH;
use rust_royale::match_rules::{elixir_multiplier, ClockEvent, MatchPhase, MatchState, TowerState};

fn tower(team: Team, kind: TowerType, health: i32, x: usize, y: usize) -> TowerState {
    let size = if kind == TowerType::King { 4 } else { 3 };
    TowerState {
        team,
        kind,
        health,
        max_health: health,
        status: kind.initial_status(),
        footprint: TowerFootprint { start_x: x, start_y: y, size },
    }
}

fn six_towers(hp_princess: i32, hp_king: i32) -> Vec<TowerState> {
    vec![
        tower(Team::Blue, TowerType::Princess, hp_princess, 3, 5),
        tower(Team::Blue, TowerType::Princess, hp_princess, 14, 5),
        tower(Team::Blue, TowerType::King, hp_king, 8, 1),
        tower(Team::Red, TowerType::Princess, hp_princess, 3, 24),
        tower(Team::Red, TowerType::Princess, hp_princess, 14, 24),
        tower(Team::Red, TowerType::King, hp_king, 8, 27),
    ]
}

fn tile(grid: &ArenaGrid, x: usize, y: usize) -> TileType {
    grid.tiles[y * ARENA_WIDTH + x]
}

#[test]
fn match_starts_regular_with_no_crowns() {
    let s = MatchState::default();
    assert_eq!(s.phase, MatchPhase::Regular);
    assert_eq!((s.blue_crowns, s.red_crowns), (0, 0));
    assert_eq!(MatchPhase::default(), MatchPhase::Regular);
}

#[test]
fn princess_worth_one_crown_king_worth_three() {
    let mut s = MatchState::default();
    let mut grid = ArenaGrid::new();
    let mut towers = six_towers(100, 200);
    let removed = s.strike_towers(&mut grid, &mut towers, &vec![false, false, false, true, false, false], 150);
    assert_eq!(removed, vec![false, false, false, true, false, false]);
    assert_eq!((s.blue_crowns, s.red_crowns), (1, 0));
    assert_eq!(s.phase, MatchPhase::Regular);
    s.strike_towers(&mut grid, &mut towers, &vec![false, false, true, false, false, false], 250);
    assert_eq!((s.blue_crowns, s.red_crowns), (1, 3));
    assert_eq!(s.phase, MatchPhase::GameOver);
}

#[test]
fn overtime_tower_ends_match() {
    let mut s = MatchState { phase: MatchPhase::Overtime, blue_crowns: 1, red_crowns: 1 };
    let mut grid = ArenaGrid::new();
    let mut towers = six_towers(100, 200);
    s.strike_towers(&mut grid, &mut towers, &vec![true, false, false, false, false, false], 100);
    assert_eq!(s.red_crowns, 2);
    assert_eq!(s.phase, MatchPhase::GameOver);
}

#[test]
fn finished_match_is_not_struck() {
    let over = MatchState { phase: MatchPhase::GameOver, blue_crowns: 0, red_crowns: 0 };
    let mut s = over;
    let mut grid = ArenaGrid::new();
    let before = grid.tiles.clone();
    let mut towers = six_towers(100, 200);
    let saved = towers.clone();
    let removed = s.strike_towers(&mut grid, &mut towers, &vec![true, false, true, false, false, false], 500);
    assert!(removed.iter().all(|r| !r));
    assert_eq!(s, over);
    assert_eq!(towers, saved);
    assert_eq!(grid.tiles, before);
    let removed = s.tiebreaker(&mut grid, &towers);
    assert!(removed.iter().all(|r| !r));
    assert_eq!(s, over);
    assert_eq!(grid.tiles, before);
}

#[test]
fn clock_phases() {
    let mut s = MatchState::default();
    assert_eq!(s.advance_clock(false, false), ClockEvent::Steady);
    assert_eq!(s.advance_clock(true, false), ClockEvent::DoubleElixirStarted);
    assert_eq!(s.phase, MatchPhase::DoubleElixir);
    assert_eq!(s.advance_clock(true, false), ClockEvent::Steady);
    assert_eq!(s.advance_clock(true, true), ClockEvent::OvertimeStarted);
    assert_eq!(s.phase, MatchPhase::Overtime);
    assert_eq!(s.advance_clock(true, false), ClockEvent::Steady);
    assert_eq!(s.advance_clock(true, true), ClockEvent::TiebreakerDue);
    assert_eq!(s.phase, MatchPhase::Overtime);

    let mut lead = MatchState { phase: MatchPhase::DoubleElixir, blue_crowns: 1, red_crowns: 0 };
    assert_eq!(lead.advance_clock(true, true), ClockEvent::MatchEnded);
    assert_eq!(lead.phase, MatchPhase::GameOver);
    assert_eq!(lead.advance_clock(true, true), ClockEvent::Steady);
    assert_eq!(lead.phase, MatchPhase::GameOver);
}

#[test]
fn elixir_rates_per_phase() {
    assert_eq!(elixir_multiplier(MatchPhase::Regular), 1);
    assert_eq!(elixir_multiplier(MatchPhase::DoubleElixir), 2);
    assert_eq!(elixir_multiplier(MatchPhase::Overtime), 2);
    assert_eq!(elixir_multiplier(MatchPhase::GameOver), 0);
}

#[test]
fn strike_damages_and_wakes_the_king() {
    let mut s = MatchState::default();
    let mut grid = ArenaGrid::new();
    let mut towers = six_towers(1400, 2400);
    let hits = vec![false, false, false, false, false, true];
    let removed = s.strike_towers(&mut grid, &mut towers, &hits, 100);
    assert_eq!(towers[5].health, 2300);
    assert_eq!(towers[5].status, TowerStatus::Active);
    assert_eq!(towers[2].status, TowerStatus::Sleeping);
    assert!(removed.iter().all(|r| !r));
    assert_eq!(s, MatchState::default());
}

#[test]
fn princess_fall_wakes_its_king_and_clears_its_tiles() {
    let mut s = MatchState::default();
    let mut grid = ArenaGrid::new();
    let mut towers = six_towers(1400, 2400);
    towers[3].health = 50;
    let hits = vec![false, false, false, true, false, false];
    let removed = s.strike_towers(&mut grid, &mut towers, &hits, 80);
    assert_eq!(removed, vec![false, false, false, true, false, false]);
    assert_eq!(towers[3].health, -30);
    assert_eq!(towers[5].status, TowerStatus::Active);
    assert_eq!(towers[2].status, TowerStatus::Sleeping);
    assert_eq!((s.blue_crowns, s.red_crowns), (1, 0));
    assert_eq!(s.phase, MatchPhase::Regular);
    assert_eq!(tile(&grid, 4, 25), TileType::Grass);
    assert_eq!(tile(&grid, 14, 24), TileType::Tower);
}

#[test]
fn king_fall_takes_princesses_and_ends_match() {
    let mut s = MatchState::default();
    let mut grid = ArenaGrid::new();
    let mut towers = six_towers(1400, 10);
    let hits = vec![false, false, true, false, false, false];
    let removed = s.strike_towers(&mut grid, &mut towers, &hits, 20);
    assert_eq!(removed, vec![true, true, true, false, false, false]);
    assert_eq!((s.blue_crowns, s.red_crowns), (0, 3));
    assert_eq!(s.phase, MatchPhase::GameOver);
    assert_eq!(tile(&grid, 3, 5), TileType::Grass);
    assert_eq!(tile(&grid, 16, 7), TileType::Grass);
    assert_eq!(tile(&grid, 9, 2), TileType::Grass);
    assert_eq!(tile(&grid, 9, 28), TileType::Tower);
}

/// Six towers at full health (1400 for princesses, 2400 for kings).
fn full_towers() -> Vec<TowerState> {
    six_towers(1400, 2400)
}

#[test]
fn tiebreaker_destroys_the_weakest_share() {
    let mut s = MatchState { phase: MatchPhase::Overtime, blue_crowns: 0, red_crowns: 0 };
    let mut grid = ArenaGrid::new();
    let mut towers = full_towers();
    towers[4].health = 900;
    let removed = s.tiebreaker(&mut grid, &towers);
    assert_eq!(removed, vec![false, false, false, false, true, false]);
    assert_eq!((s.blue_crowns, s.red_crowns), (1, 0));
    assert_eq!(s.phase, MatchPhase::GameOver);
    assert_eq!(tile(&grid, 15, 25), TileType::Grass);
}

#[test]
fn tiebreaker_compares_shares_not_hit_points() {
    // Blue's princess keeps 700 of 1400 (50%); Red's king keeps 960 of 2400 (40%).
    let mut s = MatchState { phase: MatchPhase::Overtime, blue_crowns: 0, red_crowns: 0 };
    let mut grid = ArenaGrid::new();
    let mut towers = full_towers();
    towers[0].health = 700;
    towers[5].health = 960;
    let removed = s.tiebreaker(&mut grid, &towers);
    assert_eq!(removed, vec![false, false, false, true, true, true]);
    assert_eq!((s.blue_crowns, s.red_crowns), (3, 0));
}

#[test]
fn tiebreaker_equal_lowest_absolute_health_takes_one_side() {
    // Both at 100 HP: Blue's princess is at 1/14, Red's king at 1/24, so only Red loses.
    let mut s = MatchState { phase: MatchPhase::Overtime, blue_crowns: 0, red_crowns: 0 };
    let mut grid = ArenaGrid::new();
    let mut towers = full_towers();
    towers[0].health = 100;
    towers[5].health = 100;
    let removed = s.tiebreaker(&mut grid, &towers);
    assert_eq!(removed, vec![false, false, false, true, true, true]);
    assert_eq!((s.blue_crowns, s.red_crowns), (3, 0));
}

#[test]
fn tiebreaker_equal_shares_is_a_draw() {
    let mut s = MatchState { phase: MatchPhase::Overtime, blue_crowns: 1, red_crowns: 1 };
    let mut grid = ArenaGrid::new();
    let before = grid.tiles.clone();
    let removed = s.tiebreaker(&mut grid, &full_towers());
    assert!(removed.iter().all(|r| !r));
    assert_eq!((s.blue_crowns, s.red_crowns), (1, 1));
    assert_eq!(s.phase, MatchPhase::GameOver);
    assert_eq!(grid.tiles, before);

    // 700/1400 against 1200/2400: the same half share.
    let mut s = MatchState { phase: MatchPhase::Overtime, blue_crowns: 0, red_crowns: 0 };
    let mut towers = full_towers();
    towers[1].health = 700;
    towers[5].health = 1200;
    let removed = s.tiebreaker(&mut grid, &towers);
    assert!(removed.iter().all(|r| !r));
    assert_eq!((s.blue_crowns, s.red_crowns), (0, 0));

    let mut empty = MatchState { phase: MatchPhase::Overtime, blue_crowns: 0, red_crowns: 0 };
    let removed = empty.tiebreaker(&mut grid, &Vec::new());
    assert!(removed.is_empty());
    assert_eq!(empty.phase, MatchPhase::GameOver);
}

#[test]
fn tiebreaker_takes_only_the_first_of_equally_weak_towers() {
    let mut s = MatchState { phase: MatchPhase::Overtime, blue_crowns: 0, red_crowns: 0 };
    let mut grid = ArenaGrid::new();
    let mut towers = full_towers();
    towers[0].health = 300;
    towers[1].health = 300;
    let removed = s.tiebreaker(&mut grid, &towers);
    assert_eq!(removed, vec![true, false, false, false, false, false]);
    assert_eq!((s.blue_crowns, s.red_crowns), (0, 1));
}

#[test]
fn tiebreaker_lowest_king_takes_its_princesses() {
    let mut s = MatchState { phase: MatchPhase::Overtime, blue_crowns: 0, red_crowns: 0 };
    let mut grid = ArenaGrid::new();
    let mut towers = full_towers();
    towers[5].health = 100;
    let removed = s.tiebreaker(&mut grid, &towers);
    assert_eq!(removed, vec![false, false, false, true, true, true]);
    assert_eq!((s.blue_crowns, s.red_crowns), (3, 0));
}

#[test]
fn crowns_stay_capped_after_many_falls() {
    let mut s = MatchState { phase: MatchPhase::Regular, blue_crowns: 2, red_crowns: 0 };
    let mut grid = ArenaGrid::new();
    let mut towers = six_towers(10, 2400);
    let hits = vec![false, false, false, true, true, false];
    s.strike_towers(&mut grid, &mut towers, &hits, 50);
    assert_eq!(s.blue_crowns, 3);
    assert_eq!(s.red_crowns, 0);
}
