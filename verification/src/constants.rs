use vstd::prelude::*;

verus! {

/// Number of tile columns in the arena.
pub const ARENA_WIDTH: usize = 20;

/// Number of tile rows in the arena.
pub const ARENA_HEIGHT: usize = 32;

/// Fixed-point units per tile: a continuous coordinate of 1000 is one tile.
pub const FIXED_PER_TILE: i32 = 1000;

/// Number of tiles in the arena.
pub open spec fn arena_cells() -> int {
    ARENA_WIDTH as int * ARENA_HEIGHT as int
}

/// True when `(x, y)` names a tile of the arena.
pub open spec fn in_arena(x: int, y: int) -> bool {
    0 <= x < ARENA_WIDTH as int && 0 <= y < ARENA_HEIGHT as int
}

/// Row-major index of tile `(x, y)`.
pub open spec fn cell_index(x: int, y: int) -> int {
    y * ARENA_WIDTH as int + x
}

/// Rust's integer division, which rounds toward zero.
pub open spec fn trunc_div(a: int, d: int) -> int {
    if a >= 0 { a / d } else { -((-a) / d) }
}

/// The tile column or row that a fixed-point coordinate falls in
/// (integer division by 1000, rounding toward zero as Rust does).
pub open spec fn spec_to_grid(v: int) -> int {
    trunc_div(v, 1000)
}

/// Converts a fixed-point coordinate to a tile coordinate.
pub fn to_grid(v: i32) -> (g: i32)
    ensures
        g == spec_to_grid(v as int),
{
    v / FIXED_PER_TILE
}

/// Whether a tile coordinate lies inside the arena.
pub fn is_in_arena(x: i32, y: i32) -> (b: bool)
    ensures
        b == in_arena(x as int, y as int),
{
    x >= 0 && x < ARENA_WIDTH as i32 && y >= 0 && y < ARENA_HEIGHT as i32
}

} // verus!
