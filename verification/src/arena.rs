use vstd::prelude::*;
use crate::components::{Team, TowerType};
use crate::constants::{self, ARENA_HEIGHT, ARENA_WIDTH};

verus! {

/// What occupies one tile of the arena.
#[derive(PartialEq, Eq, Structural, Clone, Copy, Debug)]
pub enum TileType {
    Grass,
    River,
    Bridge,
    Tower,
    Wall,
}

impl Default for TileType {
    fn default() -> (t: Self)
        ensures
            t == TileType::Grass,
    {
        TileType::Grass
    }
}

impl TileType {
    /// Ground troops walk on grass and bridges; flyers also cross the river.
    /// Towers and walls block everyone.
    pub open spec fn spec_walkable(self, is_flying: bool) -> bool {
        match self {
            TileType::River => is_flying,
            TileType::Tower | TileType::Wall => false,
            _ => true,
        }
    }

    /// Whether a unit (flying or not) may stand on this tile.
    pub fn is_walkable(&self, is_flying: bool) -> (b: bool)
        ensures
            b == self.spec_walkable(is_flying),
    {
        match self {
            TileType::River => is_flying,
            TileType::Tower | TileType::Wall => false,
            _ => true,
        }
    }

    /// Troops may only be dropped on grass or bridges.
    pub open spec fn spec_deployable(self) -> bool {
        self == TileType::Grass || self == TileType::Bridge
    }

    /// Whether a troop card may be dropped on this tile.
    pub fn is_deployable(&self) -> (b: bool)
        ensures
            b == self.spec_deployable(),
    {
        match self {
            TileType::Grass | TileType::Bridge => true,
            _ => false,
        }
    }
}

/// Whether `(x, y)` lies in the square of side `size` whose lower-left tile is `(sx, sy)`.
pub open spec fn in_square(x: int, y: int, sx: int, sy: int, size: int) -> bool {
    sx <= x < sx + size && sy <= y < sy + size
}

/// Tiles covered by the six towers when the match starts.
pub open spec fn starting_tower_cell(x: int, y: int) -> bool {
    ||| in_square(x, y, 3, 5, 3)
    ||| in_square(x, y, 14, 5, 3)
    ||| in_square(x, y, 8, 1, 4)
    ||| in_square(x, y, 3, 24, 3)
    ||| in_square(x, y, 14, 24, 3)
    ||| in_square(x, y, 8, 27, 4)
}

/// The side walls, and the back corners on either side of each king tower.
pub open spec fn wall_cell(x: int, y: int) -> bool {
    ||| x == 0
    ||| x == ARENA_WIDTH - 1
    ||| (y == 0 || y == ARENA_HEIGHT - 1) && (1 <= x <= 6 || 13 <= x <= 18)
}

/// The two river rows.
pub open spec fn river_cell(x: int, y: int) -> bool {
    (y == 15 || y == 16) && 1 <= x <= 18
}

/// The two three-tile-wide bridges across the river.
pub open spec fn bridge_cell(x: int, y: int) -> bool {
    (y == 15 || y == 16) && (3 <= x <= 5 || 14 <= x <= 16)
}

/// The tile at `(x, y)` of a freshly built arena.
pub open spec fn starting_tile(x: int, y: int) -> TileType {
    if starting_tower_cell(x, y) {
        TileType::Tower
    } else if bridge_cell(x, y) {
        TileType::Bridge
    } else if river_cell(x, y) {
        TileType::River
    } else if wall_cell(x, y) {
        TileType::Wall
    } else {
        TileType::Grass
    }
}

/// The tile at `(x, y)` of a row-major tile sequence.
pub open spec fn tile_of(tiles: Seq<TileType>, x: int, y: int) -> TileType {
    tiles[constants::cell_index(x, y)]
}

/// The static tile matrix of the arena, stored row by row.
pub struct ArenaGrid {
    pub tiles: Vec<TileType>,
}

impl ArenaGrid {
    /// The grid holds a tile for every arena cell (any tiles past the last
    /// cell are never looked at).
    pub open spec fn wf(&self) -> bool {
        self.tiles@.len() >= constants::arena_cells()
    }

    /// The tile at `(x, y)`.
    pub open spec fn tile(&self, x: int, y: int) -> TileType {
        tile_of(self.tiles@, x, y)
    }

    /// Whether a unit can stand on `(x, y)`: the tile is inside the arena and walkable.
    pub open spec fn passable(&self, x: int, y: int, is_flying: bool) -> bool {
        constants::in_arena(x, y) && self.tile(x, y).spec_walkable(is_flying)
    }

    /// Builds the match-start arena: side walls and back corners, the river with
    /// its two bridges, and the footprints of the six towers.
    pub fn new() -> (grid: Self)
        ensures
            grid.wf(),
            grid.tiles@.len() == constants::arena_cells(),
            forall|x: int, y: int|
                #![trigger grid.tile(x, y)]
                constants::in_arena(x, y) ==> grid.tile(x, y) == starting_tile(x, y),
    {
        let mut tiles = vec![TileType::Grass; ARENA_WIDTH * ARENA_HEIGHT];
        assert forall|cx: int, cy: int| constants::in_arena(cx, cy) implies #[trigger] tile_of(tiles@, cx, cy)
            == TileType::Grass by {
            assert(0 <= constants::cell_index(cx, cy) < constants::arena_cells());
        }

        // Solid outer boundary on the left and right edges.
        let mut y: usize = 0;
        while y < ARENA_HEIGHT
            invariant
                y <= ARENA_HEIGHT,
                tiles@.len() == constants::arena_cells(),
                forall|cx: int, cy: int|
                    #![trigger tile_of(tiles@, cx, cy)]
                    constants::in_arena(cx, cy) ==> tile_of(tiles@, cx, cy) == if (cx == 0 || cx
                        == ARENA_WIDTH - 1) && cy < y {
                        TileType::Wall
                    } else {
                        TileType::Grass
                    },
            decreases ARENA_HEIGHT - y,
        {
            Self::set_tile(&mut tiles, 0, y, TileType::Wall);
            Self::set_tile(&mut tiles, ARENA_WIDTH - 1, y, TileType::Wall);
            y = y + 1;
        }

        // Solid back corners beside each king tower; the space directly behind
        // the king (columns 7 to 12) stays open for deployment.
        let mut x: usize = 1;
        while x < 19
            invariant
                1 <= x <= 19,
                tiles@.len() == constants::arena_cells(),
                forall|cx: int, cy: int|
                    #![trigger tile_of(tiles@, cx, cy)]
                    constants::in_arena(cx, cy) ==> tile_of(tiles@, cx, cy) == if cx == 0 || cx
                        == ARENA_WIDTH - 1 || ((cy == 0 || cy == ARENA_HEIGHT - 1) && cx < x && (
                    cx <= 6 || 13 <= cx)) {
                        TileType::Wall
                    } else {
                        TileType::Grass
                    },
            decreases 19 - x,
        {
            if x <= 6 || x >= 13 {
                Self::set_tile(&mut tiles, x, 0, TileType::Wall);
                Self::set_tile(&mut tiles, x, ARENA_HEIGHT - 1, TileType::Wall);
            }
            x = x + 1;
        }
        assert forall|cx: int, cy: int| constants::in_arena(cx, cy) implies #[trigger] tile_of(tiles@, cx, cy)
            == if wall_cell(cx, cy) { TileType::Wall } else { TileType::Grass } by {}

        // The river occupies rows 15 and 16; bridges cross it at columns 3-5 and 14-16.
        let mut y: usize = 15;
        while y < 17
            invariant
                15 <= y <= 17,
                tiles@.len() == constants::arena_cells(),
                forall|cx: int, cy: int|
                    #![trigger tile_of(tiles@, cx, cy)]
                    constants::in_arena(cx, cy) ==> tile_of(tiles@, cx, cy) == if 15 <= cy < y && 1
                        <= cx <= 18 {
                        if bridge_cell(cx, cy) { TileType::Bridge } else { TileType::River }
                    } else if wall_cell(cx, cy) {
                        TileType::Wall
                    } else {
                        TileType::Grass
                    },
            decreases 17 - y,
        {
            let mut x: usize = 1;
            while x < 19
                invariant
                    15 <= y < 17,
                    1 <= x <= 19,
                    tiles@.len() == constants::arena_cells(),
                    forall|cx: int, cy: int|
                        #![trigger tile_of(tiles@, cx, cy)]
                        constants::in_arena(cx, cy) ==> tile_of(tiles@, cx, cy) == if (15 <= cy < y
                            && 1 <= cx <= 18) || (cy == y && 1 <= cx < x) {
                            if bridge_cell(cx, cy) { TileType::Bridge } else { TileType::River }
                        } else if wall_cell(cx, cy) {
                            TileType::Wall
                        } else {
                            TileType::Grass
                        },
                decreases 19 - x,
            {
                if (3 <= x && x <= 5) || (14 <= x && x <= 16) {
                    Self::set_tile(&mut tiles, x, y, TileType::Bridge);
                } else {
                    Self::set_tile(&mut tiles, x, y, TileType::River);
                }
                x = x + 1;
            }
            y = y + 1;
        }

        // Player side (blue): left princess, right princess, king.
        Self::place_tower(&mut tiles, 3, 5, 3);
        Self::place_tower(&mut tiles, 14, 5, 3);
        Self::place_tower(&mut tiles, 8, 1, 4);
        // Opponent side (red).
        Self::place_tower(&mut tiles, 3, 24, 3);
        Self::place_tower(&mut tiles, 14, 24, 3);
        Self::place_tower(&mut tiles, 8, 27, 4);

        ArenaGrid { tiles }
    }

    /// Sets one tile of a row-major tile vector.
    fn set_tile(tiles: &mut Vec<TileType>, x: usize, y: usize, t: TileType)
        requires
            old(tiles)@.len() >= constants::arena_cells(),
            x < ARENA_WIDTH,
            y < ARENA_HEIGHT,
        ensures
            final(tiles)@.len() == old(tiles)@.len(),
            forall|cx: int, cy: int|
                #![trigger tile_of(final(tiles)@, cx, cy)]
                constants::in_arena(cx, cy) ==> tile_of(final(tiles)@, cx, cy) == if cx == x && cy == y {
                    t
                } else {
                    tile_of(old(tiles)@, cx, cy)
                },
    {
        let i = y * ARENA_WIDTH + x;
        tiles[i] = t;
        assert forall|cx: int, cy: int| constants::in_arena(cx, cy) implies #[trigger] tile_of(tiles@, cx, cy)
            == if cx == x && cy == y { t } else { tile_of(old(tiles)@, cx, cy) } by {
            if !(cx == x && cy == y) {
                assert(constants::cell_index(cx, cy) != i);
            }
        }
    }

    /// Fills the square of side `size` at `(start_x, start_y)` with `t`,
    /// skipping the part of it that lies outside the arena.
    fn fill_square(tiles: &mut Vec<TileType>, start_x: usize, start_y: usize, size: usize, t: TileType)
        requires
            old(tiles)@.len() >= constants::arena_cells(),
            start_x + size <= usize::MAX,
            start_y + size <= usize::MAX,
        ensures
            final(tiles)@.len() == old(tiles)@.len(),
            forall|cx: int, cy: int|
                #![trigger tile_of(final(tiles)@, cx, cy)]
                constants::in_arena(cx, cy) ==> tile_of(final(tiles)@, cx, cy) == if in_square(
                    cx,
                    cy,
                    start_x as int,
                    start_y as int,
                    size as int,
                ) {
                    t
                } else {
                    tile_of(old(tiles)@, cx, cy)
                },
    {
        let ghost orig = tiles@;
        let end_y = start_y + size;
        let end_x = start_x + size;
        let mut y = start_y;
        while y < end_y
            invariant
                start_y <= y <= end_y,
                end_y == start_y + size,
                end_x == start_x + size,
                tiles@.len() == orig.len(),
                orig.len() >= constants::arena_cells(),
                forall|cx: int, cy: int|
                    #![trigger tile_of(tiles@, cx, cy)]
                    constants::in_arena(cx, cy) ==> tile_of(tiles@, cx, cy) == if start_x <= cx < end_x
                        && start_y <= cy < y {
                        t
                    } else {
                        tile_of(orig, cx, cy)
                    },
            decreases end_y - y,
        {
            let mut x = start_x;
            while x < end_x
                invariant
                    start_y <= y < end_y,
                    start_x <= x <= end_x,
                    end_y == start_y + size,
                    end_x == start_x + size,
                    tiles@.len() == orig.len(),
                orig.len() >= constants::arena_cells(),
                    forall|cx: int, cy: int|
                        #![trigger tile_of(tiles@, cx, cy)]
                        constants::in_arena(cx, cy) ==> tile_of(tiles@, cx, cy) == if (start_x <= cx < end_x
                            && start_y <= cy < y) || (cy == y && start_x <= cx < x) {
                            t
                        } else {
                            tile_of(orig, cx, cy)
                        },
                decreases end_x - x,
            {
                if x < ARENA_WIDTH && y < ARENA_HEIGHT {
                    Self::set_tile(tiles, x, y, t);
                }
                x = x + 1;
            }
            y = y + 1;
        }
    }

    /// Marks the square footprint of a tower as tower tiles.
    fn place_tower(tiles: &mut Vec<TileType>, start_x: usize, start_y: usize, size: usize)
        requires
            old(tiles)@.len() >= constants::arena_cells(),
            start_x + size <= usize::MAX,
            start_y + size <= usize::MAX,
        ensures
            final(tiles)@.len() == old(tiles)@.len(),
            forall|cx: int, cy: int|
                #![trigger tile_of(final(tiles)@, cx, cy)]
                constants::in_arena(cx, cy) ==> tile_of(final(tiles)@, cx, cy) == if in_square(
                    cx,
                    cy,
                    start_x as int,
                    start_y as int,
                    size as int,
                ) {
                    TileType::Tower
                } else {
                    tile_of(old(tiles)@, cx, cy)
                },
    {
        Self::fill_square(tiles, start_x, start_y, size, TileType::Tower);
    }

    /// Turns the tiles of a destroyed tower's footprint back into grass, so that
    /// pathfinding can route through the ruins. Parts of the square outside the
    /// arena are ignored.
    pub fn clear_tower(&mut self, start_x: usize, start_y: usize, size: usize)
        requires
            old(self).wf(),
            start_x + size <= usize::MAX,
            start_y + size <= usize::MAX,
        ensures
            final(self).wf(),
            final(self).tiles@.len() == old(self).tiles@.len(),
            forall|cx: int, cy: int|
                #![trigger final(self).tile(cx, cy)]
                constants::in_arena(cx, cy) ==> final(self).tile(cx, cy) == if in_square(
                    cx,
                    cy,
                    start_x as int,
                    start_y as int,
                    size as int,
                ) {
                    TileType::Grass
                } else {
                    old(self).tile(cx, cy)
                },
    {
        Self::fill_square(&mut self.tiles, start_x, start_y, size, TileType::Grass);
    }
}

/// Where one tower stands when the match starts.
#[derive(Debug, Clone, Copy, PartialEq, Eq, Structural)]
pub struct TowerPlacement {
    pub team: Team,
    pub kind: TowerType,
    pub start_x: usize,
    pub start_y: usize,
}

/// The six starting towers: for each side a princess tower per lane and a king
/// tower in the middle, Blue at the bottom and Red at the top.
pub open spec fn spec_tower_layout() -> Seq<TowerPlacement> {
    seq![
        TowerPlacement { team: Team::Blue, kind: TowerType::Princess, start_x: 3, start_y: 5 },
        TowerPlacement { team: Team::Blue, kind: TowerType::Princess, start_x: 14, start_y: 5 },
        TowerPlacement { team: Team::Blue, kind: TowerType::King, start_x: 8, start_y: 1 },
        TowerPlacement { team: Team::Red, kind: TowerType::Princess, start_x: 3, start_y: 24 },
        TowerPlacement { team: Team::Red, kind: TowerType::Princess, start_x: 14, start_y: 24 },
        TowerPlacement { team: Team::Red, kind: TowerType::King, start_x: 8, start_y: 27 },
    ]
}

/// The starting towers, in the order they are spawned.
pub fn tower_layout() -> (v: Vec<TowerPlacement>)
    ensures
        v@ == spec_tower_layout(),
{
    let mut v: Vec<TowerPlacement> = Vec::new();
    v.push(TowerPlacement { team: Team::Blue, kind: TowerType::Princess, start_x: 3, start_y: 5 });
    v.push(TowerPlacement { team: Team::Blue, kind: TowerType::Princess, start_x: 14, start_y: 5 });
    v.push(TowerPlacement { team: Team::Blue, kind: TowerType::King, start_x: 8, start_y: 1 });
    v.push(TowerPlacement { team: Team::Red, kind: TowerType::Princess, start_x: 3, start_y: 24 });
    v.push(TowerPlacement { team: Team::Red, kind: TowerType::Princess, start_x: 14, start_y: 24 });
    v.push(TowerPlacement { team: Team::Red, kind: TowerType::King, start_x: 8, start_y: 27 });
    assert(v@ =~= spec_tower_layout());
    v
}

/// The fixed-point centre coordinate of a tower footprint of `size` tiles starting at tile `start`.
pub fn tower_center(start: usize, size: usize) -> (c: i32)
    requires
        start * 1000 + size * 500 <= i32::MAX,
    ensures
        c == start * 1000 + size * 500,
{
    (start * 1000 + size * 500) as i32
}

/// The side of a tower's square footprint: princess towers span three tiles, the king four.
pub open spec fn footprint_side(kind: TowerType) -> int {
    match kind {
        TowerType::Princess => 3,
        TowerType::King => 4,
    }
}

/// The towers spawned at the start sit exactly on the tower tiles of the fresh
/// arena (given three-tile princess and four-tile king footprints).
pub proof fn law_towers_match_arena(x: int, y: int)
    ensures
        starting_tower_cell(x, y) <==> exists|k: int|
            0 <= k < 6 && in_square(
                x,
                y,
                (#[trigger] spec_tower_layout()[k]).start_x as int,
                spec_tower_layout()[k].start_y as int,
                footprint_side(spec_tower_layout()[k].kind),
            ),
{
    let l = spec_tower_layout();
    assert(l[0].start_x == 3 && l[0].start_y == 5 && l[0].kind == TowerType::Princess);
    assert(l[1].start_x == 14 && l[1].start_y == 5 && l[1].kind == TowerType::Princess);
    assert(l[2].start_x == 8 && l[2].start_y == 1 && l[2].kind == TowerType::King);
    assert(l[3].start_x == 3 && l[3].start_y == 24 && l[3].kind == TowerType::Princess);
    assert(l[4].start_x == 14 && l[4].start_y == 24 && l[4].kind == TowerType::Princess);
    assert(l[5].start_x == 8 && l[5].start_y == 27 && l[5].kind == TowerType::King);
}

/// The starting arena is fair: it is the same seen from either side (mirrored
/// top to bottom) and symmetric between the left and right lanes.
pub proof fn law_arena_is_symmetric(x: int, y: int)
    requires
        constants::in_arena(x, y),
    ensures
        starting_tile(x, y) == starting_tile(x, ARENA_HEIGHT - 1 - y),
        starting_tile(x, y) == starting_tile(ARENA_WIDTH - 1 - x, y),
{
}

impl Default for ArenaGrid {
    fn default() -> (grid: Self)
        ensures
            grid.wf(),
            grid.tiles@.len() == constants::arena_cells(),
            forall|x: int, y: int|
                #![trigger grid.tile(x, y)]
                constants::in_arena(x, y) ==> grid.tile(x, y) == starting_tile(x, y),
    {
        Self::new()
    }
}

} // verus!
