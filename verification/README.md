# Rust Royale

A small Clash Royale style arena battler. The game rules live in a library
whose behaviour is stated in `requires`/`ensures` contracts and proved with
Verus; the Bevy game around it is ordinary Rust.

## Layout

- `src/` — the verified library
  - `constants.rs` — arena size and fixed-point tile coordinates
  - `arena.rs` — the tile matrix, tower placement and removal, the starting layout
  - `pathfinding.rs` — A* over the tile grid: routes are valid walks, `None`
    exactly when no walk gets within range, and no walk within range is shorter
  - `movement.rs` — march and chase goals, wall sliding, collision settling
  - `deployment.rs` — deployment zones, drop checks, swarm layout
  - `combat.rs` — target choice, attack steps, damage, spell waves
  - `match_rules.rs` — phases, crowns, tower falls, the overtime tiebreaker
  - `deck.rs` — the shuffled starter deck and card rotation
  - `stats.rs`, `components.rs` — card enums and plain game values
- `tests/` — scenarios and checks of the laws on concrete values
- `app/` — the Bevy program: ECS components and systems, floating-point
  motion and timers, input and drawing, loading `assets/stats.json`

## Conventions

Positions are fixed point: 1000 units per tile. Continuous quantities (elixir,
clocks, distances in tiles) stay in `app/`; the library receives the decisions
that depend on them as plain values (for example a distance order key, or
whether sixty seconds are left).
