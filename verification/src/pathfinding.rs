use vstd::prelude::*;
use crate::arena::ArenaGrid;
use crate::constants::{self, ARENA_HEIGHT, ARENA_WIDTH};

verus! {

/// The absolute value of an integer.
pub open spec fn abs_int(v: int) -> int {
    if v < 0 { -v } else { v }
}

/// Manhattan distance between two grid cells.
pub open spec fn manhattan(a: (i32, i32), b: (i32, i32)) -> int {
    abs_int(a.0 - b.0) + abs_int(a.1 - b.1)
}

/// Two cells are neighbours when they share an edge (no diagonal moves).
pub open spec fn adjacent(a: (i32, i32), b: (i32, i32)) -> bool {
    manhattan(a, b) == 1
}

/// The cell a route ends on: its last waypoint, or the start when it has none.
pub open spec fn route_end(start: (i32, i32), path: Seq<(i32, i32)>) -> (i32, i32) {
    if path.len() == 0 {
        start
    } else {
        path.last()
    }
}

/// The cell a route visits just before its `i`-th waypoint.
pub open spec fn route_prev(start: (i32, i32), path: Seq<(i32, i32)>, i: int) -> (i32, i32) {
    if i == 0 {
        start
    } else {
        path[i - 1]
    }
}

/// `path` is a walk from `start`: every waypoint is a passable arena tile and
/// neighbours the cell before it.
pub open spec fn is_route(grid: ArenaGrid, start: (i32, i32), path: Seq<(i32, i32)>, is_flying: bool) -> bool {
    forall|i: int|
        #![trigger path[i]]
        0 <= i < path.len() ==> grid.passable(path[i].0 as int, path[i].1 as int, is_flying)
            && adjacent(route_prev(start, path, i), path[i])
}

/// A route is good enough once it ends within `range` tiles (Manhattan) of the goal,
/// or on the goal itself.
pub open spec fn reaches(end: (i32, i32), goal: (i32, i32), range: i32) -> bool {
    manhattan(end, goal) <= range || end == goal
}

/// Manhattan distance between two points: the A* heuristic.
pub fn heuristic(a: (i32, i32), b: (i32, i32)) -> (d: i32)
    requires
        manhattan(a, b) <= i32::MAX,
    ensures
        d == manhattan(a, b),
{
    let dx: i64 = if a.0 >= b.0 { a.0 as i64 - b.0 as i64 } else { b.0 as i64 - a.0 as i64 };
    let dy: i64 = if a.1 >= b.1 { a.1 as i64 - b.1 as i64 } else { b.1 as i64 - a.1 as i64 };
    (dx + dy) as i32
}

/// The heuristic computed without any risk of overflow.
fn wide_heuristic(a: (i32, i32), b: (i32, i32)) -> (d: i64)
    ensures
        d == manhattan(a, b),
{
    let dx: i64 = if a.0 >= b.0 { a.0 as i64 - b.0 as i64 } else { b.0 as i64 - a.0 as i64 };
    let dy: i64 = if a.1 >= b.1 { a.1 as i64 - b.1 as i64 } else { b.1 as i64 - a.1 as i64 };
    dx + dy
}

/// An entry of the A* frontier: a cell and its priority (cost so far plus
/// ten times the heuristic).
#[derive(Clone, Copy, Debug)]
pub struct Node {
    pub cost: i64,
    pub pos: (i32, i32),
}

/// Lexicographic "greater than" on cells.
pub open spec fn pos_greater(a: (i32, i32), b: (i32, i32)) -> bool {
    a.0 > b.0 || (a.0 == b.0 && a.1 > b.1)
}

impl Node {
    /// The frontier releases the lowest priority first; among equal priorities,
    /// the lexicographically greatest cell.
    pub open spec fn spec_pops_before(self, other: Node) -> bool {
        self.cost < other.cost || (self.cost == other.cost && pos_greater(self.pos, other.pos))
    }

    /// Whether `self` leaves the frontier before `other`.
    pub fn pops_before(&self, other: &Node) -> (b: bool)
        ensures
            b == self.spec_pops_before(*other),
    {
        self.cost < other.cost || (self.cost == other.cost && (self.pos.0 > other.pos.0 || (
        self.pos.0 == other.pos.0 && self.pos.1 > other.pos.1)))
    }
}

/// The position of the frontier entry that leaves next.
fn next_in_frontier(frontier: &Vec<Node>) -> (k: usize)
    requires
        frontier@.len() > 0,
    ensures
        k < frontier@.len(),
        forall|j: int| 0 <= j < frontier@.len() ==> !(#[trigger] frontier@[j]).spec_pops_before(frontier@[k as int]),
{
    let mut best: usize = 0;
    let mut i: usize = 1;
    while i < frontier.len()
        invariant
            0 < i <= frontier@.len(),
            best < i,
            forall|j: int| 0 <= j < i ==> !(#[trigger] frontier@[j]).spec_pops_before(frontier@[best as int]),
        decreases frontier@.len() - i,
    {
        if frontier[i].pops_before(&frontier[best]) {
            best = i;
        }
        i = i + 1;
    }
    best
}

// ---------------------------------------------------------------------------
// Search state. Costs are kept per tile, row by row: -1 for a tile not yet
// reached, otherwise the best known cost. `came` holds, per reached tile, the
// cell it was reached from. The start cell is reached with cost 0 even when it
// lies outside the arena.
// ---------------------------------------------------------------------------

/// Row-major index of a cell.
pub open spec fn cell_of(p: (i32, i32)) -> int {
    constants::cell_index(p.0 as int, p.1 as int)
}

/// Whether the search has reached cell `p`.
pub open spec fn reached(cost: Seq<i64>, start: (i32, i32), p: (i32, i32)) -> bool {
    p == start || (constants::in_arena(p.0 as int, p.1 as int) && cost[cell_of(p)] >= 0)
}

/// The best known cost of a reached cell.
pub open spec fn cost_at(cost: Seq<i64>, start: (i32, i32), p: (i32, i32)) -> int {
    if p == start {
        0
    } else {
        cost[cell_of(p)] as int
    }
}

/// Whether some frontier entry is for cell `p`.
pub open spec fn pending(frontier: Seq<Node>, p: (i32, i32)) -> bool {
    exists|k: int| 0 <= k < frontier.len() && (#[trigger] frontier[k]).pos == p
}

/// The weight of one cost entry in the termination measure.
pub open spec fn weight(c: i64) -> int {
    if c < 0 {
        10 * constants::arena_cells() + 10
    } else {
        c as int
    }
}

/// Sum of the weights of all cost entries.
pub open spec fn potential(s: Seq<i64>) -> int
    decreases s.len(),
{
    if s.len() == 0 {
        0
    } else {
        potential(s.drop_last()) + weight(s.last())
    }
}

/// Number of reached tiles.
pub open spec fn known(s: Seq<i64>) -> int
    decreases s.len(),
{
    if s.len() == 0 {
        0
    } else {
        known(s.drop_last()) + if s.last() >= 0 { 1int } else { 0int }
    }
}

proof fn lemma_potential_update(s: Seq<i64>, i: int, v: i64)
    requires
        0 <= i < s.len(),
    ensures
        potential(s.update(i, v)) == potential(s) - weight(s[i]) + weight(v),
        known(s.update(i, v)) == known(s) - (if s[i] >= 0 { 1int } else { 0int }) + (if v >= 0 {
            1int
        } else {
            0int
        }),
    decreases s.len(),
{
    let t = s.update(i, v);
    if i == s.len() - 1 {
        assert(t.drop_last() =~= s.drop_last());
    } else {
        assert(t.drop_last() =~= s.drop_last().update(i, v));
        lemma_potential_update(s.drop_last(), i, v);
    }
}

proof fn lemma_potential_nonneg(s: Seq<i64>)
    ensures
        potential(s) >= 0,
        0 <= known(s) <= s.len(),
    decreases s.len(),
{
    if s.len() > 0 {
        lemma_potential_nonneg(s.drop_last());
    }
}

proof fn lemma_known_short(s: Seq<i64>, i: int)
    requires
        0 <= i < s.len(),
        s[i] < 0,
    ensures
        known(s) < s.len(),
    decreases s.len(),
{
    lemma_potential_nonneg(s.drop_last());
    if i < s.len() - 1 {
        lemma_known_short(s.drop_last(), i);
    }
}

/// The bookkeeping facts that hold throughout the search.
pub open spec fn search_state_ok(
    grid: ArenaGrid,
    start: (i32, i32),
    is_flying: bool,
    cost: Seq<i64>,
    came: Seq<(i32, i32)>,
    frontier: Seq<Node>,
) -> bool {
    &&& grid.wf()
    &&& cost.len() == constants::arena_cells()
    &&& came.len() == constants::arena_cells()
    &&& constants::in_arena(start.0 as int, start.1 as int) ==> cost[cell_of(start)] == 0
    &&& forall|i: int|
        0 <= i < cost.len() ==> #[trigger] cost[i] == -1 || (0 <= cost[i] <= 10 * known(cost))
    &&& forall|k: int| 0 <= k < frontier.len() ==> reached(cost, start, (#[trigger] frontier[k]).pos)
    &&& forall|p: (i32, i32)|
        #[trigger] reached(cost, start, p) && p != start ==> {
            &&& grid.passable(p.0 as int, p.1 as int, is_flying)
            &&& reached(cost, start, came[cell_of(p)])
            &&& adjacent(came[cell_of(p)], p)
            &&& cost_at(cost, start, came[cell_of(p)]) + 10 <= cost_at(cost, start, p)
        }
}

/// Every reached cell other than `skip` either has all its passable neighbours
/// reached or is still waiting in the frontier.
pub open spec fn closed_except(
    grid: ArenaGrid,
    start: (i32, i32),
    is_flying: bool,
    cost: Seq<i64>,
    frontier: Seq<Node>,
    skip: Option<(i32, i32)>,
) -> bool {
    forall|p: (i32, i32), q: (i32, i32)|
        #[trigger] adjacent(p, q) && reached(cost, start, p) && grid.passable(
            q.0 as int,
            q.1 as int,
            is_flying,
        ) && skip != Some(p) ==> reached(cost, start, q) || pending(frontier, p)
}

/// Every reached cell that is close enough to the goal is still in the frontier.
pub open spec fn near_cells_pending(
    start: (i32, i32),
    goal: (i32, i32),
    range: i32,
    cost: Seq<i64>,
    frontier: Seq<Node>,
) -> bool {
    forall|p: (i32, i32)|
        #[trigger] reached(cost, start, p) ==> manhattan(p, goal) > range || pending(frontier, p)
}

/// Some frontier entry is for cell `p` with a priority of at most `bound`.
pub open spec fn has_entry(frontier: Seq<Node>, p: (i32, i32), bound: int) -> bool {
    exists|k: int| 0 <= k < frontier.len() && (#[trigger] frontier[k]).pos == p && frontier[k].cost <= bound
}

/// The A* priority of a reached cell: its cost plus ten times the heuristic.
pub open spec fn priority_of(cost: Seq<i64>, start: (i32, i32), goal: (i32, i32), p: (i32, i32)) -> int {
    cost_at(cost, start, p) + 10 * manhattan(p, goal)
}

/// Every passable neighbour of `p` is reached, at most one step dearer than `p`.
pub open spec fn relaxed(grid: ArenaGrid, start: (i32, i32), is_flying: bool, cost: Seq<i64>, p: (i32, i32)) -> bool {
    forall|q: (i32, i32)|
        #[trigger] adjacent(p, q) && grid.passable(q.0 as int, q.1 as int, is_flying) ==> reached(cost, start, q)
            && cost_at(cost, start, q) <= cost_at(cost, start, p) + 10
}

/// The facts that make the search optimal: an entry's priority never
/// undercuts its cell's current priority (the start's own entry aside); every
/// reached cell was reached from a cell outside the goal area; and every
/// reached cell other than `skip` either waits in the frontier with at most its
/// current priority, or lies outside the goal area with all its neighbours relaxed.
pub open spec fn astar_ok(
    grid: ArenaGrid,
    start: (i32, i32),
    goal: (i32, i32),
    range: i32,
    is_flying: bool,
    cost: Seq<i64>,
    came: Seq<(i32, i32)>,
    frontier: Seq<Node>,
    skip: Option<(i32, i32)>,
) -> bool {
    &&& forall|k: int|
        0 <= k < frontier.len() && (#[trigger] frontier[k]).pos != start ==> frontier[k].cost >= priority_of(
            cost,
            start,
            goal,
            frontier[k].pos,
        )
    &&& forall|p: (i32, i32)|
        #[trigger] reached(cost, start, p) ==> (p != start ==> manhattan(came[cell_of(p)], goal) > range) && (
        skip != Some(p) ==> has_entry(frontier, p, priority_of(cost, start, goal, p)) || (relaxed(
            grid,
            start,
            is_flying,
            cost,
            p,
        ) && manhattan(p, goal) > range))
}

/// The Manhattan distance changes by at most one between neighbours.
proof fn lemma_manhattan_step(a: (i32, i32), b: (i32, i32), goal: (i32, i32))
    requires
        adjacent(a, b),
    ensures
        manhattan(a, goal) <= manhattan(b, goal) + 1,
        manhattan(b, goal) <= manhattan(a, goal) + 1,
{
}

/// Along a route, the heuristic drops by at most one per step.
proof fn lemma_route_heuristic(start: (i32, i32), path: Seq<(i32, i32)>, goal: (i32, i32), i: int, grid: ArenaGrid, is_flying: bool)
    requires
        is_route(grid, start, path, is_flying),
        0 <= i <= path.len(),
    ensures
        manhattan(route_prev(start, path, i), goal) <= (path.len() - i) + manhattan(route_end(start, path), goal),
    decreases path.len() - i,
{
    if i < path.len() {
        lemma_route_heuristic(start, path, goal, i + 1, grid, is_flying);
        assert(adjacent(route_prev(start, path, i), path[i]));
        assert(route_prev(start, path, i + 1) == path[i]);
        lemma_manhattan_step(route_prev(start, path, i), path[i], goal);
    } else if path.len() > 0 {
        assert(route_prev(start, path, i) == path.last());
    }
}

/// Walking a route from its `i`-th cell on: either some frontier entry has a
/// priority within ten times the route's length plus its end's heuristic, or the
/// route's end is reached, no dearer than ten per step, and lies outside the goal area.
proof fn lemma_route_bound(
    grid: ArenaGrid,
    start: (i32, i32),
    goal: (i32, i32),
    range: i32,
    is_flying: bool,
    cost: Seq<i64>,
    came: Seq<(i32, i32)>,
    frontier: Seq<Node>,
    path: Seq<(i32, i32)>,
    i: int,
)
    requires
        astar_ok(grid, start, goal, range, is_flying, cost, came, frontier, None),
        is_route(grid, start, path, is_flying),
        0 <= i <= path.len(),
        reached(cost, start, route_prev(start, path, i)),
        cost_at(cost, start, route_prev(start, path, i)) <= 10 * i,
    ensures
        (exists|j: int|
            0 <= j < frontier.len() && (#[trigger] frontier[j]).cost <= 10 * path.len() + 10 * manhattan(
                route_end(start, path),
                goal,
            )) || (reached(cost, start, route_end(start, path)) && cost_at(cost, start, route_end(start, path))
            <= 10 * path.len() && manhattan(route_end(start, path), goal) > range),
    decreases path.len() - i,
{
    let c = route_prev(start, path, i);
    lemma_route_heuristic(start, path, goal, i, grid, is_flying);
    if has_entry(frontier, c, priority_of(cost, start, goal, c)) {
        let k = choose|k: int|
            0 <= k < frontier.len() && (#[trigger] frontier[k]).pos == c && frontier[k].cost <= priority_of(
                cost,
                start,
                goal,
                c,
            );
        assert(frontier[k].cost <= 10 * path.len() + 10 * manhattan(route_end(start, path), goal));
    } else if i == path.len() {
        if path.len() > 0 {
            assert(c == path.last());
        }
    } else {
        let q = path[i];
        assert(adjacent(c, q));
        assert(grid.passable(q.0 as int, q.1 as int, is_flying));
        assert(relaxed(grid, start, is_flying, cost, c));
        assert(route_prev(start, path, i + 1) == q);
        lemma_route_bound(grid, start, goal, range, is_flying, cost, came, frontier, path, i + 1);
    }
}

/// Taking an entry out of the frontier keeps the A* facts for every other cell.
proof fn lemma_astar_pop(
    grid: ArenaGrid,
    start: (i32, i32),
    goal: (i32, i32),
    range: i32,
    is_flying: bool,
    cost: Seq<i64>,
    came: Seq<(i32, i32)>,
    frontier: Seq<Node>,
    k: int,
)
    requires
        astar_ok(grid, start, goal, range, is_flying, cost, came, frontier, None),
        0 <= k < frontier.len(),
    ensures
        astar_ok(
            grid,
            start,
            goal,
            range,
            is_flying,
            cost,
            came,
            frontier.update(k, frontier.last()).drop_last(),
            Some(frontier[k].pos),
        ),
{
    let f1 = frontier.update(k, frontier.last()).drop_last();
    let cur = frontier[k].pos;
    assert forall|j: int| 0 <= j < f1.len() && (#[trigger] f1[j]).pos != start implies f1[j].cost
        >= priority_of(cost, start, goal, f1[j].pos) by {
        if j == k {
            assert(f1[j] == frontier[frontier.len() - 1]);
        } else {
            assert(f1[j] == frontier[j]);
        }
    }
    assert forall|p: (i32, i32)| #[trigger] reached(cost, start, p) && Some(cur) != Some(p) && has_entry(
        frontier,
        p,
        priority_of(cost, start, goal, p),
    ) implies has_entry(f1, p, priority_of(cost, start, goal, p)) by {
        let w = choose|w: int|
            0 <= w < frontier.len() && (#[trigger] frontier[w]).pos == p && frontier[w].cost <= priority_of(
                cost,
                start,
                goal,
                p,
            );
        if w == frontier.len() - 1 {
            assert(f1[k] == frontier[w]);
        } else {
            assert(f1[w] == frontier[w]);
        }
    }
}

/// Recording a cheaper way to `next` through `cur`, and queueing `next` with its
/// exact priority, keeps the A* facts; no reached cell gets dearer.
proof fn lemma_relax_astar(
    grid: ArenaGrid,
    start: (i32, i32),
    goal: (i32, i32),
    range: i32,
    is_flying: bool,
    cost: Seq<i64>,
    came: Seq<(i32, i32)>,
    frontier: Seq<Node>,
    cur: (i32, i32),
    next: (i32, i32),
    new_cost: i64,
    node: Node,
)
    requires
        cost.len() == constants::arena_cells(),
        came.len() == constants::arena_cells(),
        astar_ok(grid, start, goal, range, is_flying, cost, came, frontier, Some(cur)),
        forall|k: int| 0 <= k < frontier.len() ==> reached(cost, start, (#[trigger] frontier[k]).pos),
        reached(cost, start, cur),
        manhattan(cur, goal) > range,
        adjacent(cur, next),
        constants::in_arena(next.0 as int, next.1 as int),
        next != start,
        new_cost >= 0,
        new_cost == cost_at(cost, start, cur) + 10,
        !reached(cost, start, next) || new_cost < cost_at(cost, start, next),
        node.pos == next,
        node.cost == new_cost + 10 * manhattan(next, goal),
    ensures
        astar_ok(
            grid,
            start,
            goal,
            range,
            is_flying,
            cost.update(cell_of(next), new_cost),
            came.update(cell_of(next), cur),
            frontier.push(node),
            Some(cur),
        ),
        forall|p: (i32, i32)|
            #[trigger] reached(cost, start, p) ==> cost_at(cost.update(cell_of(next), new_cost), start, p)
                <= cost_at(cost, start, p),
{
    let c2 = cost.update(cell_of(next), new_cost);
    let m2 = came.update(cell_of(next), cur);
    let f2 = frontier.push(node);
    lemma_update_frame(cost, start, next, new_cost);
    assert(f2[frontier.len() as int] == node);
    assert forall|j: int| 0 <= j < f2.len() && (#[trigger] f2[j]).pos != start implies f2[j].cost
        >= priority_of(c2, start, goal, f2[j].pos) by {
        if j < frontier.len() {
            assert(f2[j] == frontier[j]);
            assert(reached(cost, start, frontier[j].pos));
        }
    }
    assert forall|p: (i32, i32)| #[trigger] reached(c2, start, p) implies (p != start ==> manhattan(
        m2[cell_of(p)],
        goal,
    ) > range) && (Some(cur) != Some(p) ==> has_entry(f2, p, priority_of(c2, start, goal, p)) || (
    relaxed(grid, start, is_flying, c2, p) && manhattan(p, goal) > range)) by {
        if p == next {
            assert(m2[cell_of(p)] == cur);
            assert(f2[frontier.len() as int].pos == p);
        } else {
            assert(reached(cost, start, p));
            if p != start {
                assert(cell_of(p) != cell_of(next));
                assert(m2[cell_of(p)] == came[cell_of(p)]);
            }
            if Some(cur) != Some(p) {
                if has_entry(frontier, p, priority_of(cost, start, goal, p)) {
                    let w = choose|w: int|
                        0 <= w < frontier.len() && (#[trigger] frontier[w]).pos == p && frontier[w].cost
                            <= priority_of(cost, start, goal, p);
                    assert(f2[w] == frontier[w]);
                } else {
                    assert forall|q: (i32, i32)|
                        #[trigger] adjacent(p, q) && grid.passable(q.0 as int, q.1 as int, is_flying) implies reached(
                        c2,
                        start,
                        q,
                    ) && cost_at(c2, start, q) <= cost_at(c2, start, p) + 10 by {
                        assert(reached(cost, start, q));
                        if q == next {
                        } else {
                        }
                    }
                }
            }
        }
    }
}

/// The cell that leaves the frontier first among those in the goal area is
/// reached at most ten per step of any route that ends in the goal area.
proof fn lemma_first_in_area_is_cheapest(
    grid: ArenaGrid,
    start: (i32, i32),
    goal: (i32, i32),
    range: i32,
    is_flying: bool,
    cost: Seq<i64>,
    came: Seq<(i32, i32)>,
    frontier: Seq<Node>,
    k: int,
)
    requires
        search_state_ok(grid, start, is_flying, cost, came, frontier),
        astar_ok(grid, start, goal, range, is_flying, cost, came, frontier, None),
        0 <= k < frontier.len(),
        forall|j: int| 0 <= j < frontier.len() ==> !(#[trigger] frontier[j]).spec_pops_before(frontier[k]),
        manhattan(frontier[k].pos, goal) <= range,
    ensures
        forall|path: Seq<(i32, i32)>|
            #[trigger] is_route(grid, start, path, is_flying) && manhattan(route_end(start, path), goal) <= range
                ==> cost_at(cost, start, frontier[k].pos) <= 10 * path.len(),
{
    let cur = frontier[k].pos;
    assert(reached(cost, start, cur));
    if cur != start {
        let from = came[cell_of(cur)];
        lemma_manhattan_step(from, cur, goal);
        assert(manhattan(cur, goal) >= range);
        assert(frontier[k].cost >= priority_of(cost, start, goal, cur));
    }
    assert forall|path: Seq<(i32, i32)>|
        #[trigger] is_route(grid, start, path, is_flying) && manhattan(route_end(start, path), goal) <= range
            implies cost_at(cost, start, cur) <= 10 * path.len() by {
        assert(route_prev(start, path, 0) == start);
        lemma_route_bound(grid, start, goal, range, is_flying, cost, came, frontier, path, 0);
        if cur != start {
            let j = choose|j: int|
                0 <= j < frontier.len() && (#[trigger] frontier[j]).cost <= 10 * path.len() + 10 * manhattan(
                    route_end(start, path),
                    goal,
                );
            assert(!frontier[j].spec_pops_before(frontier[k]));
        }
    }
}

/// When the search ends, the chosen cell is reached at most ten per step of any
/// route that is good enough: either it was the first cell of the goal area to
/// leave the frontier, or the frontier ran dry and every reached cell has all
/// its neighbours relaxed.
proof fn lemma_best_is_cheapest(
    grid: ArenaGrid,
    start: (i32, i32),
    goal: (i32, i32),
    range: i32,
    is_flying: bool,
    cost: Seq<i64>,
    came: Seq<(i32, i32)>,
    frontier: Seq<Node>,
    best: (i32, i32),
    found: bool,
)
    requires
        found ==> manhattan(best, goal) <= range,
        found ==> forall|path: Seq<(i32, i32)>|
            #[trigger] is_route(grid, start, path, is_flying) && manhattan(route_end(start, path), goal) <= range
                ==> cost_at(cost, start, best) <= 10 * path.len(),
        !found ==> astar_ok(grid, start, goal, range, is_flying, cost, came, frontier, None) && frontier.len()
            == 0 && best == goal,
    ensures
        forall|path: Seq<(i32, i32)>|
            #[trigger] is_route(grid, start, path, is_flying) && reaches(route_end(start, path), goal, range)
                ==> cost_at(cost, start, best) <= 10 * path.len(),
{
    assert forall|path: Seq<(i32, i32)>|
        #[trigger] is_route(grid, start, path, is_flying) && reaches(route_end(start, path), goal, range)
            implies cost_at(cost, start, best) <= 10 * path.len() by {
        if !found {
            assert(route_prev(start, path, 0) == start);
            lemma_route_bound(grid, start, goal, range, is_flying, cost, came, frontier, path, 0);
        }
    }
}

proof fn lemma_pending_push(frontier: Seq<Node>, n: Node, p: (i32, i32))
    ensures
        pending(frontier, p) ==> pending(frontier.push(n), p),
        pending(frontier.push(n), n.pos),
{
    if pending(frontier, p) {
        let k = choose|k: int| 0 <= k < frontier.len() && (#[trigger] frontier[k]).pos == p;
        assert(frontier.push(n)[k] == frontier[k]);
    }
    assert(frontier.push(n)[frontier.len() as int] == n);
}

proof fn lemma_pending_remove(frontier: Seq<Node>, k: int, p: (i32, i32))
    requires
        0 <= k < frontier.len(),
        pending(frontier, p),
        frontier[k].pos != p,
    ensures
        pending(frontier.update(k, frontier.last()).drop_last(), p),
{
    let f2 = frontier.update(k, frontier.last()).drop_last();
    let w = choose|w: int| 0 <= w < frontier.len() && (#[trigger] frontier[w]).pos == p;
    if w == frontier.len() - 1 {
        assert(f2[k] == frontier.last());
    } else {
        assert(f2[w] == frontier[w]);
    }
}

/// Frame facts for updating the cost entry of one arena cell.
proof fn lemma_update_frame(cost: Seq<i64>, start: (i32, i32), next: (i32, i32), new_cost: i64)
    requires
        cost.len() == constants::arena_cells(),
        constants::in_arena(next.0 as int, next.1 as int),
        next != start,
        new_cost >= 0,
    ensures
        forall|p: (i32, i32)|
            p != next ==> (#[trigger] reached(cost.update(cell_of(next), new_cost), start, p) == reached(
                cost,
                start,
                p,
            )),
        forall|p: (i32, i32)|
            p != next && reached(cost, start, p) ==> #[trigger] cost_at(
                cost.update(cell_of(next), new_cost),
                start,
                p,
            ) == cost_at(cost, start, p),
        reached(cost.update(cell_of(next), new_cost), start, next),
        cost_at(cost.update(cell_of(next), new_cost), start, next) == new_cost,
{
    let c2 = cost.update(cell_of(next), new_cost);
    assert forall|p: (i32, i32)| p != next implies (#[trigger] reached(c2, start, p) == reached(
        cost,
        start,
        p,
    )) by {
        if constants::in_arena(p.0 as int, p.1 as int) {
            assert(cell_of(p) != cell_of(next));
        }
    }
    assert forall|p: (i32, i32)| p != next && reached(cost, start, p) implies #[trigger] cost_at(
        c2,
        start,
        p,
    ) == cost_at(cost, start, p) by {
        if p != start {
            assert(cell_of(p) != cell_of(next));
        }
    }
}

/// The cost bounds and the termination measure after recording a new cost for `next`.
proof fn lemma_relax_costs(cost: Seq<i64>, start: (i32, i32), cur: (i32, i32), idx: int, new_cost: i64)
    requires
        cost.len() == constants::arena_cells(),
        0 <= idx < cost.len(),
        forall|i: int| 0 <= i < cost.len() ==> #[trigger] cost[i] == -1 || (0 <= cost[i] <= 10 * known(cost)),
        0 <= cost_at(cost, start, cur) <= 10 * known(cost),
        new_cost == cost_at(cost, start, cur) + 10,
        cost[idx] < 0 || new_cost < cost[idx],
    ensures
        forall|i: int|
            0 <= i < cost.len() ==> #[trigger] cost.update(idx, new_cost)[i] == -1 || (0 <= cost.update(
                idx,
                new_cost,
            )[i] <= 10 * known(cost.update(idx, new_cost))),
        potential(cost.update(idx, new_cost)) < potential(cost),
{
    let c2 = cost.update(idx, new_cost);
    lemma_potential_nonneg(cost);
    lemma_potential_update(cost, idx, new_cost);
    if cost[idx] < 0 {
        lemma_known_short(cost, idx);
    }
    lemma_potential_nonneg(c2);
    assert forall|i: int| 0 <= i < c2.len() implies #[trigger] c2[i] == -1 || (0 <= c2[i] <= 10
        * known(c2)) by {
        if i != idx {
            assert(c2[i] == cost[i]);
        }
    }
}

/// The predecessor links stay well founded after recording `cur` as the way to reach `next`.
proof fn lemma_relax_links(
    grid: ArenaGrid,
    start: (i32, i32),
    is_flying: bool,
    cost: Seq<i64>,
    came: Seq<(i32, i32)>,
    cur: (i32, i32),
    next: (i32, i32),
    new_cost: i64,
)
    requires
        cost.len() == constants::arena_cells(),
        came.len() == constants::arena_cells(),
        forall|p: (i32, i32)|
            #[trigger] reached(cost, start, p) && p != start ==> {
                &&& grid.passable(p.0 as int, p.1 as int, is_flying)
                &&& reached(cost, start, came[cell_of(p)])
                &&& adjacent(came[cell_of(p)], p)
                &&& cost_at(cost, start, came[cell_of(p)]) + 10 <= cost_at(cost, start, p)
            },
        reached(cost, start, cur),
        adjacent(cur, next),
        grid.passable(next.0 as int, next.1 as int, is_flying),
        new_cost == cost_at(cost, start, cur) + 10,
        next != start,
        cost_at(cost, start, cur) >= 0,
        !reached(cost, start, next) || new_cost < cost_at(cost, start, next),
    ensures
        forall|p: (i32, i32)|
            #[trigger] reached(cost.update(cell_of(next), new_cost), start, p) && p != start ==> {
                &&& grid.passable(p.0 as int, p.1 as int, is_flying)
                &&& reached(cost.update(cell_of(next), new_cost), start, came.update(cell_of(next), cur)[cell_of(p)])
                &&& adjacent(came.update(cell_of(next), cur)[cell_of(p)], p)
                &&& cost_at(cost.update(cell_of(next), new_cost), start, came.update(cell_of(next), cur)[cell_of(p)])
                    + 10 <= cost_at(cost.update(cell_of(next), new_cost), start, p)
            },
{
    let idx = cell_of(next);
    let c2 = cost.update(idx, new_cost);
    let m2 = came.update(idx, cur);
    lemma_update_frame(cost, start, next, new_cost);
    assert forall|p: (i32, i32)| #[trigger] reached(c2, start, p) && p != start implies {
        &&& grid.passable(p.0 as int, p.1 as int, is_flying)
        &&& reached(c2, start, m2[cell_of(p)])
        &&& adjacent(m2[cell_of(p)], p)
        &&& cost_at(c2, start, m2[cell_of(p)]) + 10 <= cost_at(c2, start, p)
    } by {
        if p == next {
            assert(m2[cell_of(p)] == cur);
        } else {
            assert(reached(cost, start, p));
            assert(cell_of(p) != idx);
            assert(m2[cell_of(p)] == came[cell_of(p)]);
        }
    }
}

/// Closure and pending facts after recording `next` and queueing it.
proof fn lemma_relax_frontier(
    grid: ArenaGrid,
    start: (i32, i32),
    goal: (i32, i32),
    range: i32,
    is_flying: bool,
    cost: Seq<i64>,
    frontier: Seq<Node>,
    cur: (i32, i32),
    next: (i32, i32),
    new_cost: i64,
    node: Node,
)
    requires
        cost.len() == constants::arena_cells(),
        forall|k: int| 0 <= k < frontier.len() ==> reached(cost, start, (#[trigger] frontier[k]).pos),
        closed_except(grid, start, is_flying, cost, frontier, Some(cur)),
        near_cells_pending(start, goal, range, cost, frontier),
        constants::in_arena(next.0 as int, next.1 as int),
        next != start,
        new_cost >= 0,
        node.pos == next,
    ensures
        forall|k: int|
            0 <= k < frontier.push(node).len() ==> reached(
                cost.update(cell_of(next), new_cost),
                start,
                (#[trigger] frontier.push(node)[k]).pos,
            ),
        closed_except(grid, start, is_flying, cost.update(cell_of(next), new_cost), frontier.push(node), Some(cur)),
        near_cells_pending(start, goal, range, cost.update(cell_of(next), new_cost), frontier.push(node)),
        forall|p: (i32, i32)|
            #[trigger] reached(cost, start, p) ==> reached(cost.update(cell_of(next), new_cost), start, p),
{
    let c2 = cost.update(cell_of(next), new_cost);
    let f2 = frontier.push(node);
    lemma_update_frame(cost, start, next, new_cost);
    lemma_pending_push(frontier, node, next);
    assert forall|p: (i32, i32)| pending(frontier, p) implies pending(f2, p) by {
        lemma_pending_push(frontier, node, p);
    }
    assert forall|k: int| 0 <= k < f2.len() implies reached(c2, start, (#[trigger] f2[k]).pos) by {
        if k < frontier.len() {
            assert(f2[k] == frontier[k]);
            assert(reached(cost, start, frontier[k].pos));
        }
    }
    assert forall|p: (i32, i32), q: (i32, i32)|
        #[trigger] adjacent(p, q) && reached(c2, start, p) && grid.passable(
            q.0 as int,
            q.1 as int,
            is_flying,
        ) && Some(cur) != Some(p) implies reached(c2, start, q) || pending(f2, p) by {
        if p != next {
            assert(reached(cost, start, p));
            if reached(cost, start, q) {
                if q != next {
                    assert(reached(c2, start, q));
                }
            }
        }
    }
    assert forall|p: (i32, i32)| #[trigger] reached(c2, start, p) implies manhattan(p, goal) > range
        || pending(f2, p) by {
        if p != next {
            assert(reached(cost, start, p));
        }
    }
    assert forall|p: (i32, i32)| #[trigger] reached(cost, start, p) implies reached(c2, start, p) by {
        if p != next {
        }
    }
}

/// Looks at the neighbour `(cur.0 + dx, cur.1 + dy)` of a reached cell and, when
/// it is passable and either unreached or reachable more cheaply through `cur`,
/// records the new cost and predecessor and queues it.
#[verifier::rlimit(40)]
fn relax(
    grid: &ArenaGrid,
    start: (i32, i32),
    goal: (i32, i32),
    Ghost(range): Ghost<i32>,
    is_flying: bool,
    cost: &mut Vec<i64>,
    came: &mut Vec<(i32, i32)>,
    frontier: &mut Vec<Node>,
    cur: (i32, i32),
    dx: i32,
    dy: i32,
)
    requires
        search_state_ok(*grid, start, is_flying, old(cost)@, old(came)@, old(frontier)@),
        reached(old(cost)@, start, cur),
        (dx == 0 && (dy == 1 || dy == -1)) || (dy == 0 && (dx == 1 || dx == -1)),
        closed_except(*grid, start, is_flying, old(cost)@, old(frontier)@, Some(cur)),
        near_cells_pending(start, goal, range, old(cost)@, old(frontier)@),
        astar_ok(*grid, start, goal, range, is_flying, old(cost)@, old(came)@, old(frontier)@, Some(cur)),
        manhattan(cur, goal) > range,
    ensures
        search_state_ok(*grid, start, is_flying, final(cost)@, final(came)@, final(frontier)@),
        closed_except(*grid, start, is_flying, final(cost)@, final(frontier)@, Some(cur)),
        near_cells_pending(start, goal, range, final(cost)@, final(frontier)@),
        astar_ok(*grid, start, goal, range, is_flying, final(cost)@, final(came)@, final(frontier)@, Some(cur)),
        forall|p: (i32, i32)|
            #[trigger] reached(old(cost)@, start, p) ==> reached(final(cost)@, start, p) && cost_at(
                final(cost)@,
                start,
                p,
            ) <= cost_at(old(cost)@, start, p),
        cost_at(final(cost)@, start, cur) == cost_at(old(cost)@, start, cur),
        forall|q: (i32, i32)|
            q.0 == cur.0 + dx && q.1 == cur.1 + dy && #[trigger] grid.passable(
                q.0 as int,
                q.1 as int,
                is_flying,
            ) ==> reached(final(cost)@, start, q) && cost_at(final(cost)@, start, q) <= cost_at(
                final(cost)@,
                start,
                cur,
            ) + 10,
        (final(frontier)@ == old(frontier)@ && final(cost)@ == old(cost)@) || (
        final(frontier)@.len() == old(frontier)@.len() + 1 && potential(final(cost)@)
            < potential(old(cost)@)),
{
    let nx: i64 = cur.0 as i64 + dx as i64;
    let ny: i64 = cur.1 as i64 + dy as i64;
    if nx < 0 || nx >= ARENA_WIDTH as i64 || ny < 0 || ny >= ARENA_HEIGHT as i64 {
        return ;
    }
    let next: (i32, i32) = (nx as i32, ny as i32);
    let idx: usize = (ny as usize) * ARENA_WIDTH + (nx as usize);
    assert(idx as int == cell_of(next));
    if !grid.tiles[idx].is_walkable(is_flying) {
        return ;
    }
    let cur_cost: i64 = if cur.0 == start.0 && cur.1 == start.1 {
        0
    } else {
        let ci: usize = (cur.1 as usize) * ARENA_WIDTH + (cur.0 as usize);
        assert(ci as int == cell_of(cur));
        cost[ci]
    };
    proof {
        lemma_potential_nonneg(cost@);
        assert(cur_cost == cost_at(cost@, start, cur));
        assert(0 <= cur_cost <= 10 * known(cost@));
    }
    let new_cost: i64 = cur_cost + 10;
    let prev: i64 = cost[idx];
    if prev < 0 || new_cost < prev {
        let ghost old_cost = cost@;
        let ghost old_came = came@;
        let ghost old_frontier = frontier@;
        proof {
            if next == start {
                assert(cost@[cell_of(start)] == 0);
            }
        }
        cost[idx] = new_cost;
        came[idx] = cur;
        let h: i64 = wide_heuristic(next, goal);
        let node = Node { cost: new_cost + h * 10, pos: next };
        frontier.push(node);
        proof {
            lemma_potential_nonneg(old_cost);
            assert(0 <= cost_at(old_cost, start, cur) <= 10 * known(old_cost)) by {
                if cur != start {
                    assert(old_cost[cell_of(cur)] >= 0);
                }
            }
            lemma_relax_costs(old_cost, start, cur, idx as int, new_cost);
            lemma_relax_links(*grid, start, is_flying, old_cost, old_came, cur, next, new_cost);
            lemma_relax_frontier(
                *grid,
                start,
                goal,
                range,
                is_flying,
                old_cost,
                old_frontier,
                cur,
                next,
                new_cost,
                node,
            );
            lemma_update_frame(old_cost, start, next, new_cost);
            lemma_relax_astar(
                *grid,
                start,
                goal,
                range,
                is_flying,
                old_cost,
                old_came,
                old_frontier,
                cur,
                next,
                new_cost,
                node,
            );
        }
    }
}

/// Taking an entry out of the frontier keeps the search invariants, except that
/// the taken cell may now have unreached neighbours.
proof fn lemma_after_pop(
    grid: ArenaGrid,
    start: (i32, i32),
    goal: (i32, i32),
    range: i32,
    is_flying: bool,
    cost: Seq<i64>,
    came: Seq<(i32, i32)>,
    frontier: Seq<Node>,
    k: int,
)
    requires
        search_state_ok(grid, start, is_flying, cost, came, frontier),
        closed_except(grid, start, is_flying, cost, frontier, None),
        near_cells_pending(start, goal, range, cost, frontier),
        0 <= k < frontier.len(),
    ensures
        search_state_ok(grid, start, is_flying, cost, came, frontier.update(k, frontier.last()).drop_last()),
        closed_except(grid, start, is_flying, cost, frontier.update(k, frontier.last()).drop_last(), Some(frontier[k].pos)),
        reached(cost, start, frontier[k].pos),
        manhattan(frontier[k].pos, goal) > range ==> near_cells_pending(
            start,
            goal,
            range,
            cost,
            frontier.update(k, frontier.last()).drop_last(),
        ),
{
    let f1 = frontier.update(k, frontier.last()).drop_last();
    let cur = frontier[k].pos;
    assert forall|j: int| 0 <= j < f1.len() implies reached(cost, start, (#[trigger] f1[j]).pos) by {
        if j == k {
            assert(f1[j] == frontier.last());
        } else {
            assert(f1[j] == frontier[j]);
        }
    }
    assert forall|p: (i32, i32), q: (i32, i32)|
        #[trigger] adjacent(p, q) && reached(cost, start, p) && grid.passable(
            q.0 as int,
            q.1 as int,
            is_flying,
        ) && Some(cur) != Some(p) implies reached(cost, start, q) || pending(f1, p) by {
        if !reached(cost, start, q) {
            lemma_pending_remove(frontier, k, p);
        }
    }
    if manhattan(cur, goal) > range {
        assert forall|p: (i32, i32)| #[trigger] reached(cost, start, p) implies manhattan(p, goal)
            > range || pending(f1, p) by {
            if p != cur && manhattan(p, goal) <= range {
                lemma_pending_remove(frontier, k, p);
            }
        }
    }
}

/// Relaxes the four neighbours of a cell just taken from the frontier.
#[verifier::rlimit(30)]
fn expand(
    grid: &ArenaGrid,
    start: (i32, i32),
    goal: (i32, i32),
    Ghost(range): Ghost<i32>,
    is_flying: bool,
    cost: &mut Vec<i64>,
    came: &mut Vec<(i32, i32)>,
    frontier: &mut Vec<Node>,
    cur: (i32, i32),
)
    requires
        search_state_ok(*grid, start, is_flying, old(cost)@, old(came)@, old(frontier)@),
        reached(old(cost)@, start, cur),
        closed_except(*grid, start, is_flying, old(cost)@, old(frontier)@, Some(cur)),
        near_cells_pending(start, goal, range, old(cost)@, old(frontier)@),
        astar_ok(*grid, start, goal, range, is_flying, old(cost)@, old(came)@, old(frontier)@, Some(cur)),
        manhattan(cur, goal) > range,
    ensures
        search_state_ok(*grid, start, is_flying, final(cost)@, final(came)@, final(frontier)@),
        closed_except(*grid, start, is_flying, final(cost)@, final(frontier)@, None),
        near_cells_pending(start, goal, range, final(cost)@, final(frontier)@),
        astar_ok(*grid, start, goal, range, is_flying, final(cost)@, final(came)@, final(frontier)@, None),
        potential(final(cost)@) * 5 + final(frontier)@.len() <= potential(old(cost)@) * 5 + old(
            frontier,
        )@.len(),
{
    let ghost c0 = cost@;
    relax(grid, start, goal, Ghost(range), is_flying, cost, came, frontier, cur, 0, 1);
    let ghost c1 = cost@;
    relax(grid, start, goal, Ghost(range), is_flying, cost, came, frontier, cur, 1, 0);
    let ghost c2 = cost@;
    relax(grid, start, goal, Ghost(range), is_flying, cost, came, frontier, cur, 0, -1);
    let ghost c3 = cost@;
    relax(grid, start, goal, Ghost(range), is_flying, cost, came, frontier, cur, -1, 0);
    proof {
        assert forall|p: (i32, i32), q: (i32, i32)|
            #[trigger] adjacent(p, q) && reached(cost@, start, p) && grid.passable(
                q.0 as int,
                q.1 as int,
                is_flying,
            ) && None::<(i32, i32)> != Some(p) implies reached(cost@, start, q) || pending(frontier@, p) by {
            if p == cur {
                assert((q.0 == cur.0 && (q.1 == cur.1 + 1 || q.1 == cur.1 - 1)) || (q.1 == cur.1 && (q.0
                    == cur.0 + 1 || q.0 == cur.0 - 1)));
            }
        }
        assert(relaxed(*grid, start, is_flying, cost@, cur)) by {
            assert forall|q: (i32, i32)|
                #[trigger] adjacent(cur, q) && grid.passable(q.0 as int, q.1 as int, is_flying) implies reached(
                cost@,
                start,
                q,
            ) && cost_at(cost@, start, q) <= cost_at(cost@, start, cur) + 10 by {
                if q.0 == cur.0 && q.1 == cur.1 + 1 {
                    assert(reached(c1, start, q));
                    assert(reached(c2, start, q));
                    assert(reached(c3, start, q));
                } else if q.0 == cur.0 + 1 && q.1 == cur.1 {
                    assert(reached(c2, start, q));
                    assert(reached(c3, start, q));
                } else if q.0 == cur.0 && q.1 == cur.1 - 1 {
                    assert(reached(c3, start, q));
                } else {
                    assert(q.0 == cur.0 - 1 && q.1 == cur.1);
                }
            }
        }
        lemma_astar_close(*grid, start, goal, range, is_flying, cost@, came@, frontier@, cur);
    }
}

/// Once the cell taken from the frontier has all its neighbours relaxed, the
/// A* facts hold for every reached cell again.
proof fn lemma_astar_close(
    grid: ArenaGrid,
    start: (i32, i32),
    goal: (i32, i32),
    range: i32,
    is_flying: bool,
    cost: Seq<i64>,
    came: Seq<(i32, i32)>,
    frontier: Seq<Node>,
    cur: (i32, i32),
)
    requires
        astar_ok(grid, start, goal, range, is_flying, cost, came, frontier, Some(cur)),
        relaxed(grid, start, is_flying, cost, cur),
        manhattan(cur, goal) > range,
    ensures
        astar_ok(grid, start, goal, range, is_flying, cost, came, frontier, None),
{
}

/// A route ending on a reached cell leaves every other reached cell closed, so once
/// the frontier is empty every walk from the start stays among reached cells.
proof fn lemma_routes_stay_reached(
    grid: ArenaGrid,
    start: (i32, i32),
    is_flying: bool,
    cost: Seq<i64>,
    frontier: Seq<Node>,
    path: Seq<(i32, i32)>,
)
    requires
        frontier.len() == 0,
        closed_except(grid, start, is_flying, cost, frontier, None),
        is_route(grid, start, path, is_flying),
    ensures
        reached(cost, start, route_end(start, path)),
    decreases path.len(),
{
    if path.len() > 0 {
        let p2 = path.drop_last();
        assert forall|i: int| 0 <= i < p2.len() implies grid.passable(
            (#[trigger] p2[i]).0 as int,
            p2[i].1 as int,
            is_flying,
        ) && adjacent(route_prev(start, p2, i), p2[i]) by {
            assert(p2[i] == path[i]);
            if i > 0 {
                assert(p2[i - 1] == path[i - 1]);
            }
        }
        lemma_routes_stay_reached(grid, start, is_flying, cost, frontier, p2);
        let last = path.last();
        let prev = route_end(start, p2);
        assert(route_prev(start, path, path.len() - 1) == prev);
        assert(path[path.len() - 1] == last);
        assert(adjacent(prev, last));
        assert(grid.passable(last.0 as int, last.1 as int, is_flying));
        assert(!pending(frontier, prev));
    }
}

/// Finds a route across the arena grid with A*, moving one tile at a time
/// horizontally or vertically over passable tiles (river tiles only when
/// flying; towers and walls never).
///
/// The search stops at the first cell it takes from the frontier that lies
/// within `attack_range_tiles` (Manhattan) of `goal`; if it runs out of cells it
/// falls back to the goal itself. The result lists the waypoints after `start`,
/// in walking order; it is empty when the start already qualifies, and `None`
/// when no walk from `start` reaches such a cell. No walk that ends within range
/// (or on the goal) is shorter than the route returned.
#[verifier::rlimit(40)]
pub fn calculate_a_star(
    grid: &ArenaGrid,
    start: (i32, i32),
    goal: (i32, i32),
    is_flying: bool,
    attack_range_tiles: i32,
) -> (result: Option<Vec<(i32, i32)>>)
    requires
        grid.wf(),
    ensures
        result matches Some(path) ==> is_route(*grid, start, path@, is_flying) && reaches(
            route_end(start, path@),
            goal,
            attack_range_tiles,
        ),
        result is None <==> forall|path: Seq<(i32, i32)>|
            #[trigger] is_route(*grid, start, path, is_flying) ==> !reaches(
                route_end(start, path),
                goal,
                attack_range_tiles,
            ),
        reaches(start, goal, attack_range_tiles) ==> (result matches Some(path) && path@.len() == 0),
        result matches Some(path) ==> forall|other: Seq<(i32, i32)>|
            #[trigger] is_route(*grid, start, other, is_flying) && reaches(
                route_end(start, other),
                goal,
                attack_range_tiles,
            ) ==> path@.len() <= other.len(),
{
    let ghost range = attack_range_tiles;
    let n: usize = ARENA_WIDTH * ARENA_HEIGHT;
    let mut cost: Vec<i64> = Vec::new();
    let mut came: Vec<(i32, i32)> = Vec::new();
    let mut i: usize = 0;
    while i < n
        invariant
            n == constants::arena_cells(),
            i <= n,
            cost@.len() == i,
            came@.len() == i,
            forall|j: int| 0 <= j < i ==> #[trigger] cost@[j] == -1,
        decreases n - i,
    {
        cost.push(-1);
        came.push((0, 0));
        i = i + 1;
    }
    let start_inside = constants::is_in_arena(start.0, start.1);
    if start_inside {
        let si: usize = (start.1 as usize) * ARENA_WIDTH + (start.0 as usize);
        assert(si as int == cell_of(start));
        cost[si] = 0;
    }
    let mut frontier: Vec<Node> = Vec::new();
    frontier.push(Node { cost: 0, pos: start });
    proof {
        lemma_potential_nonneg(cost@);
        assert forall|p: (i32, i32)| #[trigger] reached(cost@, start, p) implies p == start by {
            if p != start && constants::in_arena(p.0 as int, p.1 as int) {
                if start_inside {
                    assert(cell_of(p) != cell_of(start));
                }
                assert(cost@[cell_of(p)] == -1);
            }
        }
        assert(frontier@[0].pos == start);
        assert(pending(frontier@, start));
        assert forall|i: int| 0 <= i < cost@.len() implies #[trigger] cost@[i] == -1 || (0 <= cost@[i]
            <= 10 * known(cost@)) by {}
        assert(has_entry(frontier@, start, priority_of(cost@, start, goal, start)));
    }
    let mut best: (i32, i32) = goal;
    let mut found = false;
    while !found && frontier.len() > 0
        invariant
            search_state_ok(*grid, start, is_flying, cost@, came@, frontier@),
            !found ==> closed_except(*grid, start, is_flying, cost@, frontier@, None),
            !found ==> near_cells_pending(start, goal, range, cost@, frontier@),
            found ==> reached(cost@, start, best) && manhattan(best, goal) <= range,
            found ==> forall|path: Seq<(i32, i32)>|
                #[trigger] is_route(*grid, start, path, is_flying) && manhattan(route_end(start, path), goal)
                    <= range ==> cost_at(cost@, start, best) <= 10 * path.len(),
            !found ==> astar_ok(*grid, start, goal, range, is_flying, cost@, came@, frontier@, None),
            !found ==> best == goal,
            range == attack_range_tiles,
            manhattan(start, goal) <= range ==> (found ==> best == start) && (!found
                ==> frontier@.len() == 1 && frontier@[0].pos == start),
        decreases potential(cost@) * 5 + frontier@.len(),
    {
        proof {
            lemma_potential_nonneg(cost@);
        }
        let ghost c0 = cost@;
        let ghost f0 = frontier@;
        let k = next_in_frontier(&frontier);
        let current = frontier.swap_remove(k);
        proof {
            assert(frontier@ == f0.update(k as int, f0.last()).drop_last());
            lemma_after_pop(*grid, start, goal, range, is_flying, cost@, came@, f0, k as int);
            lemma_astar_pop(*grid, start, goal, range, is_flying, cost@, came@, f0, k as int);
        }
        let d: i64 = wide_heuristic(current.pos, goal);
        if d <= attack_range_tiles as i64 {
            best = current.pos;
            found = true;
            proof {
                lemma_potential_nonneg(cost@);
                lemma_first_in_area_is_cheapest(*grid, start, goal, range, is_flying, cost@, came@, f0, k as int);
            }
        } else {
            expand(grid, start, goal, Ghost(range), is_flying, &mut cost, &mut came, &mut frontier, current.pos);
            proof {
                lemma_potential_nonneg(cost@);
            }
        }
    }
    let best_known = (best.0 == start.0 && best.1 == start.1) || (constants::is_in_arena(best.0, best.1)
        && cost[(best.1 as usize) * ARENA_WIDTH + (best.0 as usize)] >= 0);
    if !best_known {
        proof {
            assert(!found);
            assert(frontier@.len() == 0);
            assert forall|path: Seq<(i32, i32)>| #[trigger] is_route(*grid, start, path, is_flying) implies !reaches(
                route_end(start, path),
                goal,
                attack_range_tiles,
            ) by {
                lemma_routes_stay_reached(*grid, start, is_flying, cost@, frontier@, path);
                let e = route_end(start, path);
                assert(!pending(frontier@, e));
                assert(e != goal);
            }
        }
        return None;
    }
    proof {
        if best != start {
            assert(cell_of(best) == (best.1 as usize) * ARENA_WIDTH + (best.0 as usize));
        }
        assert(reached(cost@, start, best));
        if reaches(start, goal, attack_range_tiles) {
            assert(best == start);
        }
        lemma_best_is_cheapest(*grid, start, goal, range, is_flying, cost@, came@, frontier@, best, found);
    }
    // Follow the predecessor links back to the start.
    let mut rev: Vec<(i32, i32)> = Vec::new();
    let mut cur: (i32, i32) = best;
    while !(cur.0 == start.0 && cur.1 == start.1)
        invariant
            search_state_ok(*grid, start, is_flying, cost@, came@, frontier@),
            reached(cost@, start, cur),
            rev@.len() == 0 ==> cur == best,
            rev@.len() > 0 ==> rev@[0] == best && adjacent(cur, rev@.last()),
            forall|i: int|
                0 <= i < rev@.len() ==> grid.passable(
                    (#[trigger] rev@[i]).0 as int,
                    rev@[i].1 as int,
                    is_flying,
                ),
            forall|i: int| 0 <= i < rev@.len() - 1 ==> adjacent(rev@[i + 1], #[trigger] rev@[i]),
            forall|i: int| 0 <= i < rev@.len() ==> #[trigger] rev@[i] != start,
            10 * rev@.len() + cost_at(cost@, start, cur) <= cost_at(cost@, start, best),
        decreases cost_at(cost@, start, cur),
    {
        let ghost r0 = rev@;
        assert(cost@[cell_of(cur)] >= 0);
        rev.push(cur);
        let ci: usize = (cur.1 as usize) * ARENA_WIDTH + (cur.0 as usize);
        assert(ci as int == cell_of(cur));
        let prev = came[ci];
        proof {
            assert(reached(cost@, start, prev));
            assert(cost_at(cost@, start, prev) >= 0) by {
                if prev != start {
                    assert(cost@[cell_of(prev)] >= 0);
                }
            }
            assert forall|i: int| 0 <= i < rev@.len() - 1 implies adjacent(
                rev@[i + 1],
                #[trigger] rev@[i],
            ) by {
                assert(rev@[i] == r0[i]);
                if i + 1 < r0.len() {
                    assert(rev@[i + 1] == r0[i + 1]);
                }
            }
        }
        cur = prev;
    }
    // Reverse into walking order.
    let len = rev.len();
    let mut path: Vec<(i32, i32)> = Vec::new();
    let mut j: usize = len;
    while j > 0
        invariant
            len == rev@.len(),
            j <= len,
            path@.len() == len - j,
            forall|i: int| 0 <= i < path@.len() ==> #[trigger] path@[i] == rev@[len - 1 - i],
        decreases j,
    {
        j = j - 1;
        path.push(rev[j]);
    }
    proof {
        assert forall|i: int| 0 <= i < path@.len() implies grid.passable(
            (#[trigger] path@[i]).0 as int,
            path@[i].1 as int,
            is_flying,
        ) && adjacent(route_prev(start, path@, i), path@[i]) by {
            assert(path@[i] == rev@[len - 1 - i]);
            if i > 0 {
                assert(path@[i - 1] == rev@[len - i]);
                assert(adjacent(rev@[(len - 1 - i) + 1], rev@[len - 1 - i]));
            }
        }
        if len > 0 {
            assert(path@.last() == rev@[0]);
        }
        assert(route_end(start, path@) == best);
        if best == start {
            assert(len == 0);
        }
        assert(is_route(*grid, start, path@, is_flying));
    }
    Some(path)
}

} // verus!
