use vstd::prelude::*;
use crate::arena::{self, ArenaGrid, TileType};
use crate::components::{Team, TowerFootprint, TowerStatus, TowerType};
use crate::constants;

verus! {

/// The phases of a match.
#[derive(Debug, Clone, Copy, PartialEq, Eq, Structural)]
pub enum MatchPhase {
    /// The first two minutes, at normal elixir speed.
    Regular,
    /// The last minute, at double elixir speed.
    DoubleElixir,
    /// Sudden death after a drawn regulation time, at double elixir speed.
    Overtime,
    /// The match has ended.
    GameOver,
}

impl Default for MatchPhase {
    fn default() -> (p: Self)
        ensures
            p == MatchPhase::Regular,
    {
        MatchPhase::Regular
    }
}

/// The discrete state of a match: its phase and each side's crowns. The clock
/// and the elixir pools are continuous quantities kept by the caller.
#[derive(Debug, Clone, Copy, PartialEq, Eq, Structural)]
pub struct MatchState {
    pub phase: MatchPhase,
    pub blue_crowns: u8,
    pub red_crowns: u8,
}

impl Default for MatchState {
    fn default() -> (s: Self)
        ensures
            s.phase == MatchPhase::Regular,
            s.blue_crowns == 0,
            s.red_crowns == 0,
    {
        MatchState { phase: MatchPhase::Regular, blue_crowns: 0, red_crowns: 0 }
    }
}

/// What the match clock did on one tick.
#[derive(Debug, Clone, Copy, PartialEq, Eq, Structural)]
pub enum ClockEvent {
    /// Nothing changed.
    Steady,
    /// Sixty seconds are left: elixir now flows twice as fast.
    DoubleElixirStarted,
    /// Regulation ended level: one minute of sudden death begins (the clock is reset to 60).
    OvertimeStarted,
    /// Regulation ended with a leader: the match is over (the clock is set to 0).
    MatchEnded,
    /// Overtime ran out: the tiebreaker decides the match (the clock is set to 0).
    TiebreakerDue,
}

/// Crowns of a side after one of the opponent's towers falls: a king is worth
/// all three crowns, a princess one, and the count never passes three.
pub open spec fn crowns_after(c: u8, kind: TowerType) -> u8 {
    match kind {
        TowerType::King => 3,
        TowerType::Princess => if c >= 3 { 3 } else { (c + 1) as u8 },
    }
}

/// Crowns of a side after `kings` king and `princesses` princess towers of the
/// opponent fell, starting from `c`.
pub open spec fn crowns_after_falls(c: u8, kings: nat, princesses: nat) -> u8 {
    if kings > 0 {
        3
    } else if princesses == 0 {
        c
    } else if c + princesses >= 3 {
        3
    } else {
        (c + princesses) as u8
    }
}

/// Rank of a phase in the order in which a match goes through them.
pub open spec fn phase_rank(p: MatchPhase) -> int {
    match p {
        MatchPhase::Regular => 0,
        MatchPhase::DoubleElixir => 1,
        MatchPhase::Overtime => 2,
        MatchPhase::GameOver => 3,
    }
}

impl MatchState {
    /// The crowns `team` has won.
    pub open spec fn crowns(self, team: Team) -> u8 {
        match team {
            Team::Blue => self.blue_crowns,
            Team::Red => self.red_crowns,
        }
    }

    /// Neither side holds more than three crowns.
    pub open spec fn crowns_capped(self) -> bool {
        self.blue_crowns <= 3 && self.red_crowns <= 3
    }

    /// Records that a tower of `tower_team` fell: its opponent takes the crowns,
    /// and the match ends when the tower was a king or the match was in overtime.
    fn award_tower_destroyed(&mut self, tower_team: Team, tower_type: TowerType)
        ensures
            final(self).crowns(tower_team.spec_opponent()) == crowns_after(
                old(self).crowns(tower_team.spec_opponent()),
                tower_type,
            ),
            final(self).crowns(tower_team) == old(self).crowns(tower_team),
            final(self).phase == if tower_type == TowerType::King || old(self).phase
                == MatchPhase::Overtime {
                MatchPhase::GameOver
            } else {
                old(self).phase
            },
    {
        let is_king = match tower_type {
            TowerType::King => true,
            TowerType::Princess => false,
        };
        match tower_team {
            Team::Red => {
                self.blue_crowns = if is_king || self.blue_crowns >= 3 { 3 } else { self.blue_crowns + 1 };
            },
            Team::Blue => {
                self.red_crowns = if is_king || self.red_crowns >= 3 { 3 } else { self.red_crowns + 1 };
            },
        }
        if is_king || self.phase == MatchPhase::Overtime {
            self.phase = MatchPhase::GameOver;
        }
    }

    /// Advances the phase on one clock tick. `sixty_left` says whether the clock
    /// is at or below sixty seconds, `time_up` whether it is at or below zero.
    /// A finished match is left alone.
    pub fn advance_clock(&mut self, sixty_left: bool, time_up: bool) -> (event: ClockEvent)
        ensures
            final(self).blue_crowns == old(self).blue_crowns,
            final(self).red_crowns == old(self).red_crowns,
            phase_rank(final(self).phase) >= phase_rank(old(self).phase),
            old(self).phase == MatchPhase::GameOver ==> event == ClockEvent::Steady && final(self).phase == MatchPhase::GameOver,
            old(self).phase == MatchPhase::Regular ==> if sixty_left {
                event == ClockEvent::DoubleElixirStarted && final(self).phase == MatchPhase::DoubleElixir
            } else {
                event == ClockEvent::Steady && final(self).phase == MatchPhase::Regular
            },
            old(self).phase == MatchPhase::DoubleElixir ==> if !time_up {
                event == ClockEvent::Steady && final(self).phase == MatchPhase::DoubleElixir
            } else if old(self).blue_crowns == old(self).red_crowns {
                event == ClockEvent::OvertimeStarted && final(self).phase == MatchPhase::Overtime
            } else {
                event == ClockEvent::MatchEnded && final(self).phase == MatchPhase::GameOver
            },
            old(self).phase == MatchPhase::Overtime ==> if time_up {
                event == ClockEvent::TiebreakerDue && final(self).phase == MatchPhase::Overtime
            } else {
                event == ClockEvent::Steady && final(self).phase == MatchPhase::Overtime
            },
    {
        if self.phase == MatchPhase::GameOver {
            return ClockEvent::Steady;
        }
        if self.phase == MatchPhase::Regular && sixty_left {
            self.phase = MatchPhase::DoubleElixir;
            ClockEvent::DoubleElixirStarted
        } else if time_up {
            if self.phase == MatchPhase::DoubleElixir {
                if self.blue_crowns == self.red_crowns {
                    self.phase = MatchPhase::Overtime;
                    ClockEvent::OvertimeStarted
                } else {
                    self.phase = MatchPhase::GameOver;
                    ClockEvent::MatchEnded
                }
            } else if self.phase == MatchPhase::Overtime {
                ClockEvent::TiebreakerDue
            } else {
                ClockEvent::Steady
            }
        } else {
            ClockEvent::Steady
        }
    }
}

/// How fast elixir flows in a phase: normal in regular time, double in the
/// last minute and in overtime, and not at all once the match is over.
pub fn elixir_multiplier(phase: MatchPhase) -> (m: u32)
    ensures
        m == match phase {
            MatchPhase::Regular => 1u32,
            MatchPhase::GameOver => 0u32,
            _ => 2u32,
        },
{
    match phase {
        MatchPhase::Regular => 1,
        MatchPhase::GameOver => 0,
        _ => 2,
    }
}

/// A tower as the match rules see it.
#[derive(Debug, Clone, Copy, PartialEq, Eq, Structural)]
pub struct TowerState {
    pub team: Team,
    pub kind: TowerType,
    pub health: i32,
    /// The health the tower started the match with.
    pub max_health: i32,
    pub status: TowerStatus,
    pub footprint: TowerFootprint,
}

/// The footprint's far edges can be computed without overflow.
pub open spec fn footprint_ok(fp: TowerFootprint) -> bool {
    fp.start_x + fp.size <= usize::MAX && fp.start_y + fp.size <= usize::MAX
}

/// All footprints of a tower list can be computed without overflow.
pub open spec fn footprints_ok(towers: Seq<TowerState>) -> bool {
    forall|i: int| 0 <= i < towers.len() ==> footprint_ok(#[trigger] towers[i].footprint)
}

/// Number of towers of `team` and `kind` among the first `n` that fell.
pub open spec fn fallen_count(towers: Seq<TowerState>, down: Seq<bool>, team: Team, kind: TowerType, n: int) -> nat
    decreases n,
{
    if n <= 0 {
        0
    } else {
        fallen_count(towers, down, team, kind, n - 1) + if down[n - 1] && towers[n - 1].team == team
            && towers[n - 1].kind == kind {
            1nat
        } else {
            0nat
        }
    }
}

/// The team of the last tower of `kind` among the first `n` that fell.
pub open spec fn last_fallen(towers: Seq<TowerState>, down: Seq<bool>, kind: TowerType, n: int) -> Option<Team>
    decreases n,
{
    if n <= 0 {
        None
    } else if down[n - 1] && towers[n - 1].kind == kind {
        Some(towers[n - 1].team)
    } else {
        last_fallen(towers, down, kind, n - 1)
    }
}

/// Whether any of the first `n` towers fell.
pub open spec fn any_fallen(down: Seq<bool>, n: int) -> bool {
    exists|i: int| 0 <= i < n && #[trigger] down[i]
}

/// The match state after the towers marked in `down` fell, in order.
pub open spec fn state_after_falls(s: MatchState, towers: Seq<TowerState>, down: Seq<bool>, n: int) -> MatchState {
    MatchState {
        phase: if last_fallen(towers, down, TowerType::King, n) is Some || (s.phase == MatchPhase::Overtime
            && any_fallen(down, n)) {
            MatchPhase::GameOver
        } else {
            s.phase
        },
        blue_crowns: crowns_after_falls(
            s.blue_crowns,
            fallen_count(towers, down, Team::Red, TowerType::King, n),
            fallen_count(towers, down, Team::Red, TowerType::Princess, n),
        ),
        red_crowns: crowns_after_falls(
            s.red_crowns,
            fallen_count(towers, down, Team::Blue, TowerType::King, n),
            fallen_count(towers, down, Team::Blue, TowerType::Princess, n),
        ),
    }
}

/// A tower leaves the arena when it fell, or when it is a princess tower of the
/// side whose king fell: the king takes its princesses down with it.
pub open spec fn removed_after_falls(towers: Seq<TowerState>, down: Seq<bool>, i: int) -> bool {
    down[i] || (towers[i].kind == TowerType::Princess && last_fallen(
        towers,
        down,
        TowerType::King,
        towers.len() as int,
    ) == Some(towers[i].team))
}

/// Whether `(x, y)` lies under the footprint of a removed tower.
pub open spec fn under_removed(towers: Seq<TowerState>, removed: Seq<bool>, x: int, y: int) -> bool {
    exists|i: int|
        0 <= i < towers.len() && #[trigger] removed[i] && arena::in_square(
            x,
            y,
            towers[i].footprint.start_x as int,
            towers[i].footprint.start_y as int,
            towers[i].footprint.size as int,
        )
}

proof fn lemma_crowns_step(c: u8, kings: nat, princesses: nat, kind: TowerType)
    ensures
        kind == TowerType::King ==> crowns_after(crowns_after_falls(c, kings, princesses), kind)
            == crowns_after_falls(c, kings + 1, princesses),
        kind == TowerType::Princess ==> crowns_after(crowns_after_falls(c, kings, princesses), kind)
            == crowns_after_falls(c, kings, princesses + 1),
{
}

impl MatchState {
    /// Applies the fall of every tower marked in `down`, in list order: crowns,
    /// the end of the match, the cleared footprints, and the princess towers that
    /// go down with their king. Returns which towers left the arena and the side
    /// (if any) whose princess tower was the last to fall.
    fn record_falls(&mut self, grid: &mut ArenaGrid, towers: &Vec<TowerState>, down: &Vec<bool>) -> (res: (
        Vec<bool>,
        Option<Team>,
    ))
        requires
            old(grid).wf(),
            down@.len() == towers@.len(),
            footprints_ok(towers@),
        ensures
            *final(self) == state_after_falls(*old(self), towers@, down@, towers@.len() as int),
            res.0@.len() == towers@.len(),
            forall|i: int|
                0 <= i < towers@.len() ==> #[trigger] res.0@[i] == removed_after_falls(towers@, down@, i),
            res.1 == last_fallen(towers@, down@, TowerType::Princess, towers@.len() as int),
            final(grid).wf(),
            forall|x: int, y: int|
                #![trigger final(grid).tile(x, y)]
                constants::in_arena(x, y) ==> final(grid).tile(x, y) == if under_removed(
                    towers@,
                    res.0@,
                    x,
                    y,
                ) {
                    TileType::Grass
                } else {
                    old(grid).tile(x, y)
                },
    {
        let n = towers.len();
        let ghost s0 = *self;
        let ghost g0 = *grid;
        let mut removed: Vec<bool> = Vec::new();
        let mut king_lost: Option<Team> = None;
        let mut princess_lost: Option<Team> = None;
        let mut i: usize = 0;
        while i < n
            invariant
                n == towers@.len(),
                n == down@.len(),
                i <= n,
                footprints_ok(towers@),
                *self == state_after_falls(s0, towers@, down@, i as int),
                king_lost == last_fallen(towers@, down@, TowerType::King, i as int),
                princess_lost == last_fallen(towers@, down@, TowerType::Princess, i as int),
                removed@.len() == i,
                forall|j: int| 0 <= j < i ==> #[trigger] removed@[j] == down@[j],
                grid.wf(),
                forall|x: int, y: int|
                    #![trigger grid.tile(x, y)]
                    constants::in_arena(x, y) ==> grid.tile(x, y) == if under_removed(
                        towers@.take(i as int),
                        removed@,
                        x,
                        y,
                    ) {
                        TileType::Grass
                    } else {
                        g0.tile(x, y)
                    },
            decreases n - i,
        {
            let t = towers[i];
            let fell = down[i];
            let ghost r0 = removed@;
            let ghost g1 = *grid;
            if fell {
                assert(footprint_ok(towers@[i as int].footprint));
                grid.clear_tower(t.footprint.start_x, t.footprint.start_y, t.footprint.size);
                proof {
                    lemma_crowns_step(
                        self.blue_crowns,
                        fallen_count(towers@, down@, Team::Red, TowerType::King, i as int),
                        fallen_count(towers@, down@, Team::Red, TowerType::Princess, i as int),
                        t.kind,
                    );
                    lemma_crowns_step(
                        self.red_crowns,
                        fallen_count(towers@, down@, Team::Blue, TowerType::King, i as int),
                        fallen_count(towers@, down@, Team::Blue, TowerType::Princess, i as int),
                        t.kind,
                    );
                }
                self.award_tower_destroyed(t.team, t.kind);
                match t.kind {
                    TowerType::King => {
                        king_lost = Some(t.team);
                    },
                    TowerType::Princess => {
                        princess_lost = Some(t.team);
                    },
                }
            }
            removed.push(fell);
            proof {
                assert(any_fallen(down@, i + 1) == (any_fallen(down@, i as int) || fell)) by {
                    if fell {
                        assert(down@[i as int]);
                    }
                    if any_fallen(down@, i + 1) && !fell {
                        let w = choose|w: int| 0 <= w < i + 1 && #[trigger] down@[w];
                        assert(w < i);
                    }
                }
                assert forall|x: int, y: int| constants::in_arena(x, y) implies #[trigger] grid.tile(x, y)
                    == if under_removed(towers@.take(i + 1), removed@, x, y) {
                    TileType::Grass
                } else {
                    g0.tile(x, y)
                } by {
                    let tk = towers@.take(i + 1);
                    assert(tk[i as int] == t);
                    assert(removed@[i as int] == fell);
                    if fell && arena::in_square(
                        x,
                        y,
                        t.footprint.start_x as int,
                        t.footprint.start_y as int,
                        t.footprint.size as int,
                    ) {
                        assert(removed@[i as int]);
                        assert(under_removed(tk, removed@, x, y));
                    }
                    if under_removed(towers@.take(i as int), r0, x, y) {
                        let w = choose|w: int|
                            0 <= w < towers@.take(i as int).len() && #[trigger] r0[w] && arena::in_square(
                                x,
                                y,
                                towers@.take(i as int)[w].footprint.start_x as int,
                                towers@.take(i as int)[w].footprint.start_y as int,
                                towers@.take(i as int)[w].footprint.size as int,
                            );
                        assert(removed@[w] && tk[w] == towers@.take(i as int)[w]);
                    }
                    if under_removed(tk, removed@, x, y) {
                        let w = choose|w: int|
                            0 <= w < tk.len() && #[trigger] removed@[w] && arena::in_square(
                                x,
                                y,
                                tk[w].footprint.start_x as int,
                                tk[w].footprint.start_y as int,
                                tk[w].footprint.size as int,
                            );
                        if w < i {
                            assert(r0[w] && towers@.take(i as int)[w] == tk[w]);
                        }
                    }
                }
            }
            i = i + 1;
        }
        assert(towers@.take(n as int) =~= towers@);
        // A fallen king takes the princess towers of its side down with it.
        let ghost r1 = removed@;
        let ghost g2 = *grid;
        if let Some(losing) = king_lost {
            let mut j: usize = 0;
            while j < n
                invariant
                    n == towers@.len(),
                    n == down@.len(),
                    j <= n,
                    king_lost == Some(losing),
                    footprints_ok(towers@),
                    r1.len() == n,
                    removed@.len() == n,
                    forall|k: int|
                        0 <= k < n ==> #[trigger] removed@[k] == (r1[k] || (k < j && towers@[k].kind
                            == TowerType::Princess && towers@[k].team == losing)),
                    grid.wf(),
                    forall|x: int, y: int|
                        #![trigger grid.tile(x, y)]
                        constants::in_arena(x, y) ==> grid.tile(x, y) == if under_removed(
                            towers@,
                            removed@,
                            x,
                            y,
                        ) {
                            TileType::Grass
                        } else {
                            g0.tile(x, y)
                        },
                decreases n - j,
            {
                let t = towers[j];
                let ghost r2 = removed@;
                if t.team == losing && t.kind == TowerType::Princess {
                    assert(footprint_ok(towers@[j as int].footprint));
                    grid.clear_tower(t.footprint.start_x, t.footprint.start_y, t.footprint.size);
                    removed.set(j, true);
                    proof {
                        assert forall|x: int, y: int| constants::in_arena(x, y) implies #[trigger] grid.tile(
                            x,
                            y,
                        ) == if under_removed(towers@, removed@, x, y) {
                            TileType::Grass
                        } else {
                            g0.tile(x, y)
                        } by {
                            if arena::in_square(
                                x,
                                y,
                                t.footprint.start_x as int,
                                t.footprint.start_y as int,
                                t.footprint.size as int,
                            ) {
                                assert(removed@[j as int]);
                                assert(towers@[j as int] == t);
                                assert(under_removed(towers@, removed@, x, y));
                            }
                            if under_removed(towers@, r2, x, y) {
                                let w = choose|w: int|
                                    0 <= w < towers@.len() && #[trigger] r2[w] && arena::in_square(
                                        x,
                                        y,
                                        towers@[w].footprint.start_x as int,
                                        towers@[w].footprint.start_y as int,
                                        towers@[w].footprint.size as int,
                                    );
                                assert(removed@[w]);
                            }
                            if under_removed(towers@, removed@, x, y) {
                                let w = choose|w: int|
                                    0 <= w < towers@.len() && #[trigger] removed@[w] && arena::in_square(
                                        x,
                                        y,
                                        towers@[w].footprint.start_x as int,
                                        towers@[w].footprint.start_y as int,
                                        towers@[w].footprint.size as int,
                                    );
                                if w != j {
                                    assert(r2[w]);
                                }
                            }
                        }
                    }
                }
                j = j + 1;
            }
        }
        (removed, princess_lost)
    }
}

/// Which towers a strike brings down: those hit whose health drops to zero or below.
pub open spec fn strike_down(towers: Seq<TowerState>, hits: Seq<bool>, damage: i32) -> Seq<bool> {
    Seq::new(towers.len(), |i: int| hits[i] && towers[i].health - damage <= 0)
}

/// `a` stands at a smaller share of its full health than `b`
/// (`a.health / a.max_health < b.health / b.max_health`, compared crosswise).
pub open spec fn weaker(a: TowerState, b: TowerState) -> bool {
    a.health * b.max_health < b.health * a.max_health
}

/// Every tower has a positive full health, so shares of it can be compared.
pub open spec fn max_healths_ok(towers: Seq<TowerState>) -> bool {
    forall|i: int| 0 <= i < towers.len() ==> (#[trigger] towers[i]).max_health > 0
}

/// Tower `k` is `team`'s tower at the smallest share of its full health; among
/// equal shares it comes first.
pub open spec fn is_weakest(towers: Seq<TowerState>, team: Team, k: int) -> bool {
    &&& 0 <= k < towers.len()
    &&& towers[k].team == team
    &&& forall|j: int|
        0 <= j < towers.len() && (#[trigger] towers[j]).team == team ==> !weaker(towers[j], towers[k])
    &&& forall|j: int| 0 <= j < k && (#[trigger] towers[j]).team == team ==> weaker(towers[k], towers[j])
}

/// `team`'s weakest tower, if it has any tower left.
pub open spec fn weakest(towers: Seq<TowerState>, team: Team) -> Option<int> {
    if exists|k: int| is_weakest(towers, team, k) {
        Some(choose|k: int| is_weakest(towers, team, k))
    } else {
        None
    }
}

/// The tower the tiebreaker destroys: each side's weakest tower is compared by
/// its share of full health, and the one at the smaller share falls. When a side
/// has no tower left, or both shares are equal, the tiebreaker is a draw.
pub open spec fn tiebreak_loser(towers: Seq<TowerState>) -> Option<int> {
    match (weakest(towers, Team::Blue), weakest(towers, Team::Red)) {
        (Some(b), Some(r)) => if weaker(towers[b], towers[r]) {
            Some(b)
        } else if weaker(towers[r], towers[b]) {
            Some(r)
        } else {
            None
        },
        _ => None,
    }
}

/// Which towers the tiebreaker brings down: the loser's weakest tower only.
pub open spec fn tiebreak_down(towers: Seq<TowerState>) -> Seq<bool> {
    Seq::new(towers.len(), |i: int| tiebreak_loser(towers) == Some(i))
}

/// The match state after a strike: a finished match is left as it is.
pub open spec fn match_after_strike(s: MatchState, towers: Seq<TowerState>, hits: Seq<bool>, damage: i32) -> MatchState {
    if s.phase == MatchPhase::GameOver {
        s
    } else {
        state_after_falls(s, towers, strike_down(towers, hits, damage), towers.len() as int)
    }
}

/// The match state after the tiebreaker: the match is over, and a finished
/// match is left as it is.
pub open spec fn match_after_tiebreak(s: MatchState, towers: Seq<TowerState>) -> MatchState {
    if s.phase == MatchPhase::GameOver {
        s
    } else {
        MatchState {
            phase: MatchPhase::GameOver,
            ..state_after_falls(s, towers, tiebreak_down(towers), towers.len() as int)
        }
    }
}

/// Shares of full health are ordered transitively: below `b` and `b` no higher
/// than `j` means below `j`.
proof fn lemma_weaker_trans(c: TowerState, b: TowerState, j: TowerState)
    requires
        c.max_health > 0,
        b.max_health > 0,
        j.max_health > 0,
        weaker(c, b),
        !weaker(j, b),
    ensures
        weaker(c, j),
{
    let (hc, mc, hb, mb, hj, mj) = (
        c.health as int,
        c.max_health as int,
        b.health as int,
        b.max_health as int,
        j.health as int,
        j.max_health as int,
    );
    assert(hc * mb * mj < hb * mc * mj) by (nonlinear_arith)
        requires
            hc * mb < hb * mc,
            mj > 0,
    ;
    assert(hj * mb * mc >= hb * mj * mc) by (nonlinear_arith)
        requires
            hj * mb >= hb * mj,
            mc > 0,
    ;
    assert(hc * mj * mb < hj * mc * mb) by (nonlinear_arith)
        requires
            hc * mb * mj < hb * mc * mj,
            hj * mb * mc >= hb * mj * mc,
    ;
    assert(hc * mj < hj * mc) by (nonlinear_arith)
        requires
            hc * mj * mb < hj * mc * mb,
            mb > 0,
    ;
}

proof fn lemma_weakest_unique(towers: Seq<TowerState>, team: Team, k1: int, k2: int)
    requires
        is_weakest(towers, team, k1),
        is_weakest(towers, team, k2),
    ensures
        k1 == k2,
{
    assert(!weaker(towers[k1], towers[k2]));
    assert(!weaker(towers[k2], towers[k1]));
}

/// Whether `a` stands at a smaller share of its full health than `b`.
fn is_weaker(a: &TowerState, b: &TowerState) -> (r: bool)
    ensures
        r == weaker(*a, *b),
{
    let (ha, ma, hb, mb) = (a.health as i64, a.max_health as i64, b.health as i64, b.max_health as i64);
    assert(-0x4000_0000_0000_0000 <= ha * mb <= 0x4000_0000_0000_0000) by (nonlinear_arith)
        requires
            -0x8000_0000 <= ha <= 0x7fff_ffff,
            -0x8000_0000 <= mb <= 0x7fff_ffff,
    ;
    assert(-0x4000_0000_0000_0000 <= hb * ma <= 0x4000_0000_0000_0000) by (nonlinear_arith)
        requires
            -0x8000_0000 <= hb <= 0x7fff_ffff,
            -0x8000_0000 <= ma <= 0x7fff_ffff,
    ;
    ha * mb < hb * ma
}

/// Finds `team`'s weakest tower by a scan that keeps the first of equals.
fn find_weakest(towers: &Vec<TowerState>, team: Team) -> (r: Option<usize>)
    requires
        max_healths_ok(towers@),
    ensures
        r matches Some(k) ==> weakest(towers@, team) == Some(k as int),
        r is None ==> weakest(towers@, team) is None,
{
    let mut best: Option<usize> = None;
    let mut i: usize = 0;
    while i < towers.len()
        invariant
            i <= towers@.len(),
            max_healths_ok(towers@),
            best matches Some(k) ==> is_weakest(towers@.take(i as int), team, k as int),
            best is None ==> forall|j: int| 0 <= j < i ==> (#[trigger] towers@[j]).team != team,
        decreases towers@.len() - i,
    {
        let t = towers[i];
        let ghost pre = towers@.take(i as int);
        let ghost post = towers@.take(i + 1);
        let ghost old_best = best;
        if t.team == team {
            match best {
                None => {
                    best = Some(i);
                },
                Some(k) => {
                    if is_weaker(&t, &towers[k]) {
                        best = Some(i);
                    }
                },
            }
        }
        proof {
            assert(post[i as int] == t);
            assert forall|j: int| 0 <= j < i implies #[trigger] post[j] == pre[j] && pre[j] == towers@[j] by {}
            if let Some(k) = best {
                assert(is_weakest(post, team, k as int)) by {
                    if k == i && old_best is Some {
                        let k0 = old_best->0;
                        assert(weaker(t, towers@[k0 as int]));
                        assert forall|j: int| 0 <= j < i && (#[trigger] post[j]).team == team implies weaker(
                            post[k as int],
                            post[j],
                        ) by {
                            assert(pre[j] == post[j]);
                            assert(!weaker(pre[j], pre[k0 as int]));
                            lemma_weaker_trans(t, towers@[k0 as int], towers@[j]);
                        }
                    }
                    assert forall|j: int| 0 <= j < post.len() && (#[trigger] post[j]).team == team implies !weaker(
                        post[j],
                        post[k as int],
                    ) by {
                        if j < i {
                            assert(pre[j] == post[j]);
                        }
                    }
                }
            }
        }
        i = i + 1;
    }
    proof {
        assert(towers@.take(towers@.len() as int) =~= towers@);
        match best {
            Some(k) => {
                assert(is_weakest(towers@, team, k as int));
                let c = choose|c: int| is_weakest(towers@, team, c);
                lemma_weakest_unique(towers@, team, k as int, c);
            },
            None => {
                assert forall|k: int| !is_weakest(towers@, team, k) by {
                    if 0 <= k < towers@.len() {
                        assert(towers@[k].team != team);
                    }
                }
            },
        }
    }
    best
}

impl MatchState {
    /// Deals `damage` to every tower marked in `hits`, in list order. A hit
    /// wakes a sleeping king; a tower whose health drops to zero or below falls
    /// (see `record_falls`), and the king of a side that lost a princess tower
    /// wakes up. Once the match is over nothing is struck any more: the state,
    /// the towers and the grid stay as they are. Returns which towers left the arena.
    pub fn strike_towers(
        &mut self,
        grid: &mut ArenaGrid,
        towers: &mut Vec<TowerState>,
        hits: &Vec<bool>,
        damage: i32,
    ) -> (removed: Vec<bool>)
        requires
            old(grid).wf(),
            hits@.len() == old(towers)@.len(),
            footprints_ok(old(towers)@),
            old(self).phase != MatchPhase::GameOver ==> forall|i: int|
                0 <= i < hits@.len() && #[trigger] hits@[i] ==> i32::MIN <= old(towers)@[i].health - damage
                    <= i32::MAX,
        ensures
            final(towers)@.len() == old(towers)@.len(),
            old(self).phase == MatchPhase::GameOver ==> final(towers)@ == old(towers)@ && *final(grid)
                == *old(grid),
            old(self).phase != MatchPhase::GameOver ==> forall|i: int|
                0 <= i < final(towers)@.len() ==> {
                    let t0 = #[trigger] old(towers)@[i];
                    let t1 = final(towers)@[i];
                    &&& t1.team == t0.team
                    &&& t1.kind == t0.kind
                    &&& t1.max_health == t0.max_health
                    &&& t1.footprint == t0.footprint
                    &&& t1.health == if hits@[i] { t0.health - damage } else { t0.health as int }
                    &&& t1.status == if t0.status == TowerStatus::Sleeping && (hits@[i] || (t0.kind
                        == TowerType::King && last_fallen(
                        old(towers)@,
                        strike_down(old(towers)@, hits@, damage),
                        TowerType::Princess,
                        old(towers)@.len() as int,
                    ) == Some(t0.team))) {
                        TowerStatus::Active
                    } else {
                        t0.status
                    }
                },
            *final(self) == match_after_strike(*old(self), old(towers)@, hits@, damage),
            removed@.len() == old(towers)@.len(),
            forall|i: int|
                0 <= i < old(towers)@.len() ==> #[trigger] removed@[i] == (old(self).phase
                    != MatchPhase::GameOver && removed_after_falls(
                    old(towers)@,
                    strike_down(old(towers)@, hits@, damage),
                    i,
                )),
            final(grid).wf(),
            forall|x: int, y: int|
                #![trigger final(grid).tile(x, y)]
                constants::in_arena(x, y) ==> final(grid).tile(x, y) == if under_removed(
                    old(towers)@,
                    removed@,
                    x,
                    y,
                ) {
                    TileType::Grass
                } else {
                    old(grid).tile(x, y)
                },
    {
        if self.phase == MatchPhase::GameOver {
            let removed = no_removals(towers.len());
            proof {
                assert forall|x: int, y: int| !under_removed(towers@, removed@, x, y) by {}
            }
            return removed;
        }
        let ghost t0 = towers@;
        let n = towers.len();
        let mut down: Vec<bool> = Vec::new();
        let mut i: usize = 0;
        while i < n
            invariant
                n == t0.len(),
                n == hits@.len(),
                towers@.len() == n,
                i <= n,
                down@.len() == i,
                forall|j: int|
                    0 <= j < i ==> #[trigger] down@[j] == (hits@[j] && t0[j].health - damage <= 0),
                forall|j: int|
                    0 <= j < hits@.len() && #[trigger] hits@[j] ==> i32::MIN <= t0[j].health - damage
                        <= i32::MAX,
                forall|j: int|
                    0 <= j < n ==> {
                        let a = #[trigger] t0[j];
                        let b = towers@[j];
                        &&& b.team == a.team
                        &&& b.kind == a.kind
                        &&& b.max_health == a.max_health
                        &&& b.footprint == a.footprint
                        &&& b.health == if j < i && hits@[j] { a.health - damage } else { a.health as int }
                        &&& b.status == if j < i && hits@[j] && a.status == TowerStatus::Sleeping {
                            TowerStatus::Active
                        } else {
                            a.status
                        }
                    },
            decreases n - i,
        {
            let mut t = towers[i];
            assert(t.health == t0[i as int].health);
            if hits[i] {
                t.health = t.health - damage;
                if t.status == TowerStatus::Sleeping {
                    t.status = TowerStatus::Active;
                }
                towers.set(i, t);
                down.push(t.health <= 0);
            } else {
                down.push(false);
            }
            i = i + 1;
        }
        assert(down@ =~= strike_down(t0, hits@, damage));
        let ghost t1 = towers@;
        assert(footprints_ok(t1)) by {
            assert forall|j: int| 0 <= j < t1.len() implies footprint_ok(#[trigger] t1[j].footprint) by {
                assert(t1[j].footprint == t0[j].footprint);
            }
        }
        let (removed, princess_lost) = self.record_falls(grid, towers, &down);
        proof {
            lemma_same_shape_falls(t0, t1, down@, t0.len() as int);
            assert forall|x: int, y: int| under_removed(t1, removed@, x, y) == under_removed(t0, removed@, x, y) by {
                if under_removed(t1, removed@, x, y) {
                    let w = choose|w: int| 0 <= w < t1.len() && #[trigger] removed@[w] && arena::in_square(
                        x,
                        y,
                        t1[w].footprint.start_x as int,
                        t1[w].footprint.start_y as int,
                        t1[w].footprint.size as int,
                    );
                    assert(t1[w].footprint == t0[w].footprint);
                }
                if under_removed(t0, removed@, x, y) {
                    let w = choose|w: int| 0 <= w < t0.len() && #[trigger] removed@[w] && arena::in_square(
                        x,
                        y,
                        t0[w].footprint.start_x as int,
                        t0[w].footprint.start_y as int,
                        t0[w].footprint.size as int,
                    );
                    assert(t1[w].footprint == t0[w].footprint);
                }
            }
            assert forall|k: int| 0 <= k < t0.len() implies removed_after_falls(t1, down@, k) == removed_after_falls(t0, down@, k) by {
                assert(t1[k].kind == t0[k].kind && t1[k].team == t0[k].team);
            }
        }
        // The king of a side that lost a princess tower wakes up.
        if let Some(team) = princess_lost {
            let mut j: usize = 0;
            while j < n
                invariant
                    n == t0.len(),
                    t1.len() == n,
                    towers@.len() == n,
                    j <= n,
                    forall|k: int|
                        0 <= k < n ==> {
                            let a = #[trigger] t1[k];
                            let b = towers@[k];
                            &&& b.team == a.team
                            &&& b.kind == a.kind
                            &&& b.max_health == a.max_health
                            &&& b.footprint == a.footprint
                            &&& b.health == a.health
                            &&& b.status == if k < j && a.kind == TowerType::King && a.team == team
                                && a.status == TowerStatus::Sleeping {
                                TowerStatus::Active
                            } else {
                                a.status
                            }
                        },
                decreases n - j,
            {
                let mut t = towers[j];
                if t.kind == TowerType::King && t.team == team && t.status == TowerStatus::Sleeping {
                    t.status = TowerStatus::Active;
                    towers.set(j, t);
                }
                j = j + 1;
            }
        }
        removed
    }

    /// Settles a match whose overtime ran out: each side's weakest tower is
    /// compared by its share of full health, and the one at the smaller share
    /// falls (see `record_falls`); equal shares, or a side without towers, make
    /// a draw. Either way the match is over. A match that is already over is
    /// left as it is. Returns which towers left the arena.
    pub fn tiebreaker(&mut self, grid: &mut ArenaGrid, towers: &Vec<TowerState>) -> (removed: Vec<bool>)
        requires
            old(grid).wf(),
            footprints_ok(towers@),
            max_healths_ok(towers@),
        ensures
            *final(self) == match_after_tiebreak(*old(self), towers@),
            removed@.len() == towers@.len(),
            forall|i: int|
                0 <= i < towers@.len() ==> #[trigger] removed@[i] == (old(self).phase != MatchPhase::GameOver
                    && removed_after_falls(towers@, tiebreak_down(towers@), i)),
            final(grid).wf(),
            forall|x: int, y: int|
                #![trigger final(grid).tile(x, y)]
                constants::in_arena(x, y) ==> final(grid).tile(x, y) == if under_removed(
                    towers@,
                    removed@,
                    x,
                    y,
                ) {
                    TileType::Grass
                } else {
                    old(grid).tile(x, y)
                },
    {
        let n = towers.len();
        if self.phase == MatchPhase::GameOver {
            let removed = no_removals(n);
            proof {
                assert forall|x: int, y: int| !under_removed(towers@, removed@, x, y) by {}
            }
            return removed;
        }
        let blue = find_weakest(towers, Team::Blue);
        let red = find_weakest(towers, Team::Red);
        let loser: Option<usize> = match (blue, red) {
            (Some(b), Some(r)) => if is_weaker(&towers[b], &towers[r]) {
                Some(b)
            } else if is_weaker(&towers[r], &towers[b]) {
                Some(r)
            } else {
                None
            },
            _ => None,
        };
        assert(match loser {
            Some(l) => tiebreak_loser(towers@) == Some(l as int),
            None => tiebreak_loser(towers@) is None,
        });
        let mut down: Vec<bool> = Vec::new();
        let mut k: usize = 0;
        while k < n
            invariant
                n == towers@.len(),
                k <= n,
                down@.len() == k,
                match loser {
                    Some(l) => tiebreak_loser(towers@) == Some(l as int),
                    None => tiebreak_loser(towers@) is None,
                },
                forall|j: int| 0 <= j < k ==> #[trigger] down@[j] == tiebreak_down(towers@)[j],
            decreases n - k,
        {
            let falls = match loser {
                Some(l) => l == k,
                None => false,
            };
            down.push(falls);
            k = k + 1;
        }
        assert(down@ =~= tiebreak_down(towers@));
        let (removed, _) = self.record_falls(grid, towers, &down);
        self.phase = MatchPhase::GameOver;
        removed
    }
}

/// A list of `n` "not removed" marks.
fn no_removals(n: usize) -> (v: Vec<bool>)
    ensures
        v@.len() == n,
        forall|i: int| 0 <= i < n ==> !#[trigger] v@[i],
{
    let mut v: Vec<bool> = Vec::new();
    let mut i: usize = 0;
    while i < n
        invariant
            i <= n,
            v@.len() == i,
            forall|j: int| 0 <= j < i ==> !#[trigger] v@[j],
        decreases n - i,
    {
        v.push(false);
        i = i + 1;
    }
    v
}

/// The fall bookkeeping only looks at each tower's side and kind.
proof fn lemma_same_shape_falls(a: Seq<TowerState>, b: Seq<TowerState>, down: Seq<bool>, n: int)
    requires
        a.len() == b.len(),
        0 <= n <= a.len(),
        forall|i: int| 0 <= i < a.len() ==> #[trigger] a[i].team == b[i].team && a[i].kind == b[i].kind,
    ensures
        forall|team: Team, kind: TowerType|
            #[trigger] fallen_count(a, down, team, kind, n) == fallen_count(b, down, team, kind, n),
        forall|kind: TowerType| #[trigger] last_fallen(a, down, kind, n) == last_fallen(b, down, kind, n),
    decreases n,
{
    if n > 0 {
        lemma_same_shape_falls(a, b, down, n - 1);
        assert(a[n - 1].team == b[n - 1].team && a[n - 1].kind == b[n - 1].kind);
        assert forall|team: Team, kind: TowerType|
            #[trigger] fallen_count(a, down, team, kind, n) == fallen_count(b, down, team, kind, n) by {
            assert(fallen_count(a, down, team, kind, n - 1) == fallen_count(b, down, team, kind, n - 1));
        }
        assert forall|kind: TowerType| #[trigger] last_fallen(a, down, kind, n) == last_fallen(b, down, kind, n) by {
            assert(last_fallen(a, down, kind, n - 1) == last_fallen(b, down, kind, n - 1));
        }
    }
}

proof fn lemma_king_fall_counted(towers: Seq<TowerState>, down: Seq<bool>, i: int, n: int)
    requires
        0 <= i < n,
        down[i],
        towers[i].kind == TowerType::King,
    ensures
        fallen_count(towers, down, towers[i].team, TowerType::King, n) > 0,
        last_fallen(towers, down, TowerType::King, n) is Some,
    decreases n,
{
    if i < n - 1 {
        lemma_king_fall_counted(towers, down, i, n - 1);
    }
}

/// Towers falling never push either side past three crowns.
pub proof fn law_crowns_never_exceed_three(s: MatchState, towers: Seq<TowerState>, down: Seq<bool>, n: int)
    requires
        s.crowns_capped(),
    ensures
        state_after_falls(s, towers, down, n).crowns_capped(),
{
}

/// Crowns are never taken away: a side keeps every crown it has won.
pub proof fn law_crowns_never_decrease(s: MatchState, towers: Seq<TowerState>, down: Seq<bool>, n: int)
    requires
        s.crowns_capped(),
    ensures
        state_after_falls(s, towers, down, n).blue_crowns >= s.blue_crowns,
        state_after_falls(s, towers, down, n).red_crowns >= s.red_crowns,
{
}

/// When a king tower falls the match is over and its opponent holds all three crowns.
pub proof fn law_king_fall_ends_match(s: MatchState, towers: Seq<TowerState>, down: Seq<bool>, n: int, i: int)
    requires
        0 <= i < n,
        down[i],
        towers[i].kind == TowerType::King,
    ensures
        state_after_falls(s, towers, down, n).phase == MatchPhase::GameOver,
        state_after_falls(s, towers, down, n).crowns(towers[i].team.spec_opponent()) == 3,
{
    lemma_king_fall_counted(towers, down, i, n);
}

/// Sudden death: in overtime, the first tower to fall ends the match.
pub proof fn law_overtime_sudden_death(s: MatchState, towers: Seq<TowerState>, down: Seq<bool>, n: int, i: int)
    requires
        s.phase == MatchPhase::Overtime,
        0 <= i < n,
        down[i],
    ensures
        state_after_falls(s, towers, down, n).phase == MatchPhase::GameOver,
{
    assert(any_fallen(down, n));
}

/// Once the match is over it is frozen: a strike on towers changes neither the
/// phase nor either side's crowns (nor, see `strike_towers`, any tower or tile),
/// the tiebreaker leaves it as it is, and a hit leaves a unit's health as it is.
pub proof fn law_game_over_is_final(
    s: MatchState,
    towers: Seq<TowerState>,
    hits: Seq<bool>,
    damage: i32,
    unit_health: i32,
)
    requires
        s.phase == MatchPhase::GameOver,
    ensures
        match_after_strike(s, towers, hits, damage) == s,
        match_after_tiebreak(s, towers) == s,
        crate::combat::health_after_hit(s.phase, unit_health as int, damage as int) == unit_health,
{
}

/// The phase of a match only ever moves forward (regular, double elixir,
/// overtime, game over), whatever the clock says and whatever falls.
pub proof fn law_phases_only_advance(s: MatchState, towers: Seq<TowerState>, down: Seq<bool>, n: int)
    ensures
        phase_rank(state_after_falls(s, towers, down, n).phase) >= phase_rank(s.phase),
{
}

/// A princess tower is worth exactly one crown: without a king falling, each
/// fallen princess tower adds one crown to its opponent, up to three.
pub proof fn law_princess_worth_one_crown(c: u8, princesses: nat)
    requires
        c <= 3,
    ensures
        crowns_after_falls(c, 0, princesses) == if c + princesses >= 3 { 3 } else { c + princesses },
{
}

/// The tiebreaker takes exactly one tower: the weakest of its side, standing
/// at a smaller share of its full health than every tower of the other side.
pub proof fn law_tiebreak_takes_weakest(towers: Seq<TowerState>, i: int)
    requires
        max_healths_ok(towers),
        0 <= i < towers.len(),
        tiebreak_down(towers)[i],
    ensures
        forall|j: int|
            0 <= j < towers.len() && (#[trigger] towers[j]).team == towers[i].team ==> !weaker(
                towers[j],
                towers[i],
            ),
        forall|j: int|
            0 <= j < towers.len() && (#[trigger] towers[j]).team != towers[i].team ==> weaker(
                towers[i],
                towers[j],
            ),
        forall|j: int| 0 <= j < towers.len() && j != i ==> !(#[trigger] tiebreak_down(towers)[j]),
{
    let b = weakest(towers, Team::Blue)->0;
    let r = weakest(towers, Team::Red)->0;
    assert(is_weakest(towers, Team::Blue, b));
    assert(is_weakest(towers, Team::Red, r));
    assert forall|j: int|
        0 <= j < towers.len() && (#[trigger] towers[j]).team != towers[i].team implies weaker(
        towers[i],
        towers[j],
    ) by {
        if i == b {
            assert(towers[j].team == Team::Red);
            lemma_weaker_trans(towers[b], towers[r], towers[j]);
        } else {
            assert(towers[j].team == Team::Blue);
            lemma_weaker_trans(towers[r], towers[b], towers[j]);
        }
    }
}

/// When both sides' weakest towers stand at the same share of their full
/// health, the tiebreaker is a draw: no tower falls.
pub proof fn law_tiebreak_even_is_draw(towers: Seq<TowerState>, b: int, r: int)
    requires
        is_weakest(towers, Team::Blue, b),
        is_weakest(towers, Team::Red, r),
        !weaker(towers[b], towers[r]),
        !weaker(towers[r], towers[b]),
    ensures
        forall|j: int| 0 <= j < towers.len() ==> !(#[trigger] tiebreak_down(towers)[j]),
{
    let c = choose|k: int| is_weakest(towers, Team::Blue, k);
    lemma_weakest_unique(towers, Team::Blue, b, c);
    let d = choose|k: int| is_weakest(towers, Team::Red, k);
    lemma_weakest_unique(towers, Team::Red, r, d);
}

} // verus!
