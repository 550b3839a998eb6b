//! Theta*: A* on the eight-connected grid that reaches a cell from the
//! predecessor of its neighbour wherever that predecessor sees it, and
//! straightens the path that it finds.

use super::a_star::{
    entry_le, is_lowest, lowest, octile, push_side, reversed, side, walk, ClosedList, GScores,
    Metric, OpenList, DIAGONAL, STRAIGHT,
};
use super::progress::{first_potential, potential_not_negative, potential_ok, slot, total};
use super::theta_star_proof::{
    far_beyond, found_path_is_sound, no_better_way, no_sight_steps_when_exhausted,
    scores_leave_room, sight_first_state_ok, sight_frontier_ok, sight_ledger_ok,
    sight_pop_keeps_state, sight_relax_keeps_state, sight_settle_keeps_state,
};
use super::smoothing::{
    cleaned, furthest_visible, furthest_visible_is_inside, is_clear, king_distance, merged_part,
    merged_upto, optimized, optimized_keeps_ends, optimized_stays_clear, positioned,
};
use super::straight_line::{line_cell, line_cells, line_runs_from_end_to_end};
use super::straight_line_wide::{
    beside_along_x, beside_along_y, has_line_of_sight, line_of_sight, sight_along_line,
    sight_between_neighbors,
};
use crate::traits::computable_grid::{ComputeGrid, ComputeGridNode};
use crate::traits::compute_path::{ComputePath, NewComputer, ObstacleSet};
use vstd::multiset::Multiset;
use vstd::prelude::*;

verus! {

/// The largest octile distance between two cells.
pub open spec fn longest_distance() -> int {
    DIAGONAL * 0x1_0000_0000
}

/// The cost of moving through `nodes` in their order: the sum of the octile
/// distances between neighbours.
pub open spec fn path_cost(nodes: Seq<ComputeGridNode>) -> int
    decreases nodes.len(),
{
    if nodes.len() <= 1 {
        0
    } else {
        octile(nodes[0], nodes[1]) + path_cost(nodes.drop_first())
    }
}

/// The octile distance is no shorter by way of a third cell, is the same
/// both ways, and is a straight step at least between two cells.
pub proof fn octile_is_a_distance(a: ComputeGridNode, b: ComputeGridNode, c: ComputeGridNode)
    ensures
        octile(a, c) <= octile(a, b) + octile(b, c),
        octile(a, b) == octile(b, a),
        octile(a, a) == 0,
        a != b ==> octile(a, b) >= STRAIGHT,
        0 <= octile(a, b) <= longest_distance(),
{
}

/// Moving through cells costs the distance between the first and the last
/// at least.
pub proof fn path_cost_covers_distance(nodes: Seq<ComputeGridNode>)
    requires
        nodes.len() > 0,
    ensures
        octile(nodes[0], nodes.last()) <= path_cost(nodes),
    decreases nodes.len(),
{
    if nodes.len() > 1 {
        let rest = nodes.drop_first();
        path_cost_covers_distance(rest);
        octile_is_a_distance(nodes[0], nodes[1], nodes.last());
        assert(rest[0] == nodes[1]);
        assert(rest.last() == nodes.last());
    } else {
        octile_is_a_distance(nodes[0], nodes[0], nodes[0]);
    }
}

/// The cost of a path is the cost as far as one of its cells and the cost
/// from there on.
pub proof fn path_cost_splits(nodes: Seq<ComputeGridNode>, at: int)
    requires
        0 <= at < nodes.len(),
    ensures
        path_cost(nodes) == path_cost(nodes.take(at + 1)) + path_cost(nodes.skip(at)),
    decreases at,
{
    if at == 0 {
        assert(nodes.skip(0) =~= nodes);
        assert(path_cost(nodes.take(1)) == 0);
    } else {
        let rest = nodes.drop_first();
        path_cost_splits(rest, at - 1);
        assert(rest.take(at) =~= nodes.take(at + 1).drop_first());
        assert(rest.skip(at - 1) =~= nodes.skip(at));
        assert(nodes.take(at + 1)[0] == nodes[0]);
        assert(nodes.take(at + 1)[1] == nodes[1]);
    }
}

/// Passing over cells makes a walk no more costly.
pub proof fn cleaned_costs_no_more(obstacles: Set<ComputeGridNode>, nodes: Seq<ComputeGridNode>)
    ensures
        path_cost(cleaned(obstacles, nodes)) <= path_cost(nodes),
    decreases nodes.len(),
{
    if nodes.len() >= 2 {
        let hops = furthest_visible(obstacles, nodes, nodes.len() as int);
        furthest_visible_is_inside(obstacles, nodes, nodes.len() as int);
        let rest = nodes.skip(hops);
        cleaned_costs_no_more(obstacles, rest);
        let tail = cleaned(obstacles, rest);
        let whole = cleaned(obstacles, nodes);
        cleaned_keeps_ends(obstacles, rest);
        assert(whole =~= seq![nodes[0]] + tail);
        assert(whole.drop_first() =~= tail);
        assert(whole[1] == tail[0]);
        assert(tail[0] == rest[0]);
        assert(rest[0] == nodes[hops]);
        path_cost_splits(nodes, hops);
        path_cost_covers_distance(nodes.take(hops + 1));
        assert(nodes.take(hops + 1)[0] == nodes[0]);
        assert(nodes.take(hops + 1).last() == nodes[hops]);
    } else if nodes.len() == 1 {
        assert(path_cost(cleaned(obstacles, nodes)) == 0);
    }
}

/// Whether `chain` leads from `end` back to `start` through free cells of
/// the grid, each of which its successor in the chain sees.
pub open spec fn is_sight_chain(
    grid: ComputeGrid,
    obstacles: Set<ComputeGridNode>,
    start: ComputeGridNode,
    end: ComputeGridNode,
    chain: Seq<ComputeGridNode>,
) -> bool {
    &&& chain.len() > 0
    &&& chain[0] == end
    &&& chain.last() == start
    &&& forall|i: int|
        0 <= i < chain.len() - 1 ==> is_clear(grid, obstacles, #[trigger] chain[i])
            && line_of_sight(obstacles, chain[i + 1], chain[i])
}

/// Whether `route` leads from `start` to `end` in steps of a king of chess,
/// each to a free cell of the grid that the cell before it sees.
pub open spec fn is_sight_step_route(
    grid: ComputeGrid,
    obstacles: Set<ComputeGridNode>,
    start: ComputeGridNode,
    end: ComputeGridNode,
    route: Seq<ComputeGridNode>,
) -> bool {
    &&& route.len() > 0
    &&& route[0] == start
    &&& route.last() == end
    &&& forall|i: int|
        0 < i < route.len() ==> king_distance(route[i - 1], #[trigger] route[i]) == 1 && is_clear(
            grid,
            obstacles,
            route[i],
        ) && line_of_sight(obstacles, route[i - 1], route[i])
}

/// Whether such steps lead from `start` to `end`.
pub open spec fn has_sight_steps(
    grid: ComputeGrid,
    obstacles: Set<ComputeGridNode>,
    start: ComputeGridNode,
    end: ComputeGridNode,
) -> bool {
    exists|route: Seq<ComputeGridNode>| is_sight_step_route(grid, obstacles, start, end, route)
}

/// The eight neighbours of `center` on the grid, column by column.
pub open spec fn eight_neighbors(grid: ComputeGrid, center: ComputeGridNode) -> Seq<
    ComputeGridNode,
> {
    side(grid, center, -1, -1) + side(grid, center, -1, 0) + side(grid, center, -1, 1) + side(
        grid,
        center,
        0,
        -1,
    ) + side(grid, center, 0, 1) + side(grid, center, 1, -1) + side(grid, center, 1, 0) + side(
        grid,
        center,
        1,
        1,
    )
}

/// The better way to `neighbor`: from `from` at the cost of `from` and the
/// distance between the two, where that is less than what `neighbor` has.
pub open spec fn relaxed(
    scores: Map<ComputeGridNode, u128>,
    from: ComputeGridNode,
    neighbor: ComputeGridNode,
) -> Option<(ComputeGridNode, u128)> {
    if scores.contains_key(from) && (!scores.contains_key(neighbor) || scores[from] + octile(
        from,
        neighbor,
    ) < scores[neighbor]) {
        Some((from, (scores[from] + octile(from, neighbor)) as u128))
    } else {
        None
    }
}

/// The better way to `neighbor` when `current` is settled: from the
/// predecessor of `current` where that sees `neighbor`, else from `current`
/// where that sees it.
pub open spec fn vertex_spec(
    obstacles: Set<ComputeGridNode>,
    scores: Map<ComputeGridNode, u128>,
    parents: Map<ComputeGridNode, ComputeGridNode>,
    current: ComputeGridNode,
    neighbor: ComputeGridNode,
) -> Option<(ComputeGridNode, u128)> {
    if parents.contains_key(current) && line_of_sight(obstacles, parents[current], neighbor) {
        relaxed(scores, parents[current], neighbor)
    } else if line_of_sight(obstacles, current, neighbor) {
        relaxed(scores, current, neighbor)
    } else {
        None
    }
}

/// Passing over cells keeps the two ends of a walk.
pub proof fn cleaned_keeps_ends(obstacles: Set<ComputeGridNode>, nodes: Seq<ComputeGridNode>)
    requires
        nodes.len() > 0,
    ensures
        cleaned(obstacles, nodes).len() > 0,
        cleaned(obstacles, nodes)[0] == nodes[0],
        cleaned(obstacles, nodes).last() == nodes.last(),
    decreases nodes.len(),
{
    if nodes.len() >= 2 {
        let hops = furthest_visible(obstacles, nodes, nodes.len() as int);
        furthest_visible_is_inside(obstacles, nodes, nodes.len() as int);
        let rest = nodes.skip(hops);
        cleaned_keeps_ends(obstacles, rest);
        let whole = cleaned(obstacles, nodes);
        let tail = cleaned(obstacles, rest);
        assert(whole =~= seq![nodes[0]] + tail);
        assert(whole.last() == tail.last());
    }
}

/// Passing over cells brings in no cell: where every cell of a walk is a
/// free cell of the grid, so is every cell that is left.
pub proof fn cleaned_stays_clear(
    grid: ComputeGrid,
    obstacles: Set<ComputeGridNode>,
    nodes: Seq<ComputeGridNode>,
)
    requires
        forall|i: int| 0 <= i < nodes.len() ==> is_clear(grid, obstacles, #[trigger] nodes[i]),
    ensures
        forall|j: int|
            0 <= j < cleaned(obstacles, nodes).len() ==> is_clear(
                grid,
                obstacles,
                #[trigger] cleaned(obstacles, nodes)[j],
            ),
    decreases nodes.len(),
{
    if nodes.len() >= 2 {
        let hops = furthest_visible(obstacles, nodes, nodes.len() as int);
        furthest_visible_is_inside(obstacles, nodes, nodes.len() as int);
        let rest = nodes.skip(hops);
        assert forall|i: int| 0 <= i < rest.len() implies is_clear(
            grid,
            obstacles,
            #[trigger] rest[i],
        ) by {
            assert(rest[i] == nodes[i + hops]);
        }
        cleaned_stays_clear(grid, obstacles, rest);
        let whole = cleaned(obstacles, nodes);
        let tail = cleaned(obstacles, rest);
        assert(whole =~= seq![nodes[0]] + tail);
        assert forall|j: int| 0 <= j < whole.len() implies is_clear(
            grid,
            obstacles,
            #[trigger] whole[j],
        ) by {
            if j > 0 {
                assert(whole[j] == tail[j - 1]);
            } else {
                assert(whole[0] == nodes[0]);
            }
        }
    } else if nodes.len() == 1 {
        assert(cleaned(obstacles, nodes) =~= seq![nodes[0]]);
    }
}

/// Along the line between two cells of the grid that see each other, steps
/// within sight lead from one to the other.
pub proof fn sight_gives_steps(
    grid: ComputeGrid,
    obstacles: Set<ComputeGridNode>,
    a: ComputeGridNode,
    b: ComputeGridNode,
)
    requires
        line_of_sight(obstacles, a, b),
        grid.contains(a),
        grid.contains(b),
    ensures
        is_sight_step_route(grid, obstacles, a, b, line_cells(a, b)),
{
    let route = line_cells(a, b);
    sight_along_line(obstacles, a, b);
    line_runs_from_end_to_end(a, b, 0);
    assert forall|i: int| 0 < i < route.len() implies king_distance(
        route[i - 1],
        #[trigger] route[i],
    ) == 1 && is_clear(grid, obstacles, route[i]) && line_of_sight(
        obstacles,
        route[i - 1],
        route[i],
    ) by {
        let from = line_cell(a, b, i - 1);
        let to = line_cell(a, b, i);
        line_runs_from_end_to_end(a, b, i - 1);
        line_runs_from_end_to_end(a, b, i);
        assert(!obstacles.contains(from) && !obstacles.contains(to));
        assert(!obstacles.contains(beside_along_x(a, b, i - 1)));
        assert(!obstacles.contains(beside_along_y(a, b, i - 1)));
        sight_between_neighbors(obstacles, from, to);
    }
}

/// Steps within sight that lead to a cell, and on from there, lead all the way.
pub proof fn sight_steps_join(
    grid: ComputeGrid,
    obstacles: Set<ComputeGridNode>,
    start: ComputeGridNode,
    middle: ComputeGridNode,
    end: ComputeGridNode,
    first: Seq<ComputeGridNode>,
    second: Seq<ComputeGridNode>,
)
    requires
        is_sight_step_route(grid, obstacles, start, middle, first),
        is_sight_step_route(grid, obstacles, middle, end, second),
    ensures
        is_sight_step_route(grid, obstacles, start, end, first + second.drop_first()),
{
    let whole = first + second.drop_first();
    assert forall|i: int| 0 < i < whole.len() implies king_distance(
        whole[i - 1],
        #[trigger] whole[i],
    ) == 1 && is_clear(grid, obstacles, whole[i]) && line_of_sight(
        obstacles,
        whole[i - 1],
        whole[i],
    ) by {
        if i < first.len() {
            assert(whole[i] == first[i] && whole[i - 1] == first[i - 1]);
        } else {
            let j = i - first.len() + 1;
            assert(whole[i] == second[j]);
            if j == 1 {
                assert(whole[i - 1] == first.last());
                assert(second[0] == middle);
            } else {
                assert(whole[i - 1] == second[j - 1]);
            }
            assert(king_distance(second[j - 1], second[j]) == 1);
        }
    }
    if second.len() == 1 {
        assert(whole =~= first);
    } else {
        assert(whole.last() == second.last());
    }
}

/// Where a chain of sight leads back to a cell of the grid, steps within
/// sight lead from that cell to where the chain begins.
pub proof fn sight_chain_gives_steps(
    grid: ComputeGrid,
    obstacles: Set<ComputeGridNode>,
    start: ComputeGridNode,
    end: ComputeGridNode,
    chain: Seq<ComputeGridNode>,
)
    requires
        is_sight_chain(grid, obstacles, start, end, chain),
        grid.contains(start),
    ensures
        has_sight_steps(grid, obstacles, start, end),
    decreases chain.len(),
{
    if chain.len() == 1 {
        assert(is_sight_step_route(grid, obstacles, start, end, seq![start]));
    } else {
        let rest = chain.drop_first();
        let middle = chain[1];
        assert(rest[0] == middle && rest.last() == start);
        assert forall|i: int| 0 <= i < rest.len() - 1 implies is_clear(
            grid,
            obstacles,
            #[trigger] rest[i],
        ) && line_of_sight(obstacles, rest[i + 1], rest[i]) by {
            assert(rest[i] == chain[i + 1]);
            assert(rest[i + 1] == chain[i + 2]);
            assert(is_clear(grid, obstacles, chain[i + 1]));
        }
        sight_chain_gives_steps(grid, obstacles, start, middle, rest);
        let first = choose|route: Seq<ComputeGridNode>|
            is_sight_step_route(grid, obstacles, start, middle, route);
        assert(is_clear(grid, obstacles, chain[0]) && line_of_sight(obstacles, chain[1], chain[0]));
        assert(grid.contains(middle)) by {
            if chain.len() > 2 {
                assert(is_clear(grid, obstacles, chain[1]));
            }
        }
        sight_gives_steps(grid, obstacles, middle, end);
        sight_steps_join(grid, obstacles, start, middle, end, first, line_cells(middle, end));
    }
}

/// Whether `chain` is a chain of sight from `end` back to `start` that
/// costs no more than any route of steps within sight from `start` to `end`.
pub open spec fn is_cheapest_chain(
    grid: ComputeGrid,
    obstacles: Set<ComputeGridNode>,
    start: ComputeGridNode,
    end: ComputeGridNode,
    chain: Seq<ComputeGridNode>,
) -> bool {
    &&& is_sight_chain(grid, obstacles, start, end, chain)
    &&& forall|route: Seq<ComputeGridNode>| #[trigger]
        is_sight_step_route(grid, obstacles, start, end, route) ==> path_cost(chain) <= path_cost(
            route,
        )
}

/// Whether `path` is what Theta* hands back where it finds a way: a chain
/// of cells from `end` back to `start`, each seen by its successor and the
/// whole no more costly than any route of steps within sight, then without
/// the cells that can be passed over, with positions improved, and turned
/// round.
pub open spec fn is_found_path(
    grid: ComputeGrid,
    obstacles: Set<ComputeGridNode>,
    start: ComputeGridNode,
    end: ComputeGridNode,
    path: Seq<ComputeGridNode>,
) -> bool {
    &&& path.len() > 0
    &&& path[0] == start
    &&& path.last() == end
    &&& is_clear(grid, obstacles, start) ==> forall|i: int|
        0 <= i < path.len() ==> is_clear(grid, obstacles, #[trigger] path[i])
    &&& exists|chain: Seq<ComputeGridNode>| #[trigger]
        is_cheapest_chain(grid, obstacles, start, end, chain) && path == optimized(
            obstacles,
            cleaned(obstacles, chain),
        ).reverse()
}

/// The Theta* planner: it searches the eight-connected grid, reaches a cell
/// from the predecessor of its neighbour wherever that predecessor sees it,
/// and straightens the path it finds. Costs are octile distances, counted in
/// hundred-millionths of a straight step.
pub struct ThetaStar {
    grid: ComputeGrid,
    obstacles: ObstacleSet,
}

impl ThetaStar {
    pub closed spec fn grid(&self) -> ComputeGrid {
        self.grid
    }

    pub closed spec fn obstacles(&self) -> Set<ComputeGridNode> {
        self.obstacles@
    }

    /// The eight neighbours of `center` on the grid.
    pub fn neighbors(&self, center: &ComputeGridNode) -> (cells: Vec<ComputeGridNode>)
        ensures
            cells@ == eight_neighbors(self.grid(), *center),
            forall|m: ComputeGridNode|
                king_distance(*center, m) == 1 && self.grid().contains(m) ==> cells@.contains(m),
            forall|j: int|
                0 <= j < cells@.len() ==> king_distance(*center, #[trigger] cells@[j]) == 1
                    && self.grid().contains(cells@[j]),
    {
        let mut cells: Vec<ComputeGridNode> = Vec::new();
        push_side(&mut cells, &self.grid, center, -1, -1);
        push_side(&mut cells, &self.grid, center, -1, 0);
        push_side(&mut cells, &self.grid, center, -1, 1);
        push_side(&mut cells, &self.grid, center, 0, -1);
        push_side(&mut cells, &self.grid, center, 0, 1);
        push_side(&mut cells, &self.grid, center, 1, -1);
        push_side(&mut cells, &self.grid, center, 1, 0);
        push_side(&mut cells, &self.grid, center, 1, 1);
        proof {
            let g = self.grid;
            let c = *center;
            let s0 = side(g, c, -1, -1);
            let s1 = side(g, c, -1, 0);
            let s2 = side(g, c, -1, 1);
            let s3 = side(g, c, 0, -1);
            let s4 = side(g, c, 0, 1);
            let s5 = side(g, c, 1, -1);
            let s6 = side(g, c, 1, 0);
            let s7 = side(g, c, 1, 1);
            assert(cells@ =~= eight_neighbors(g, c));
            assert forall|m: ComputeGridNode|
                king_distance(c, m) == 1 && g.contains(m) implies cells@.contains(m) by {
                let dx = m.x - c.x;
                let dy = m.y - c.y;
                if dx == -1 && dy == -1 {
                    assert(s0[0] == m);
                    assert(cells@[0] == m);
                } else if dx == -1 && dy == 0 {
                    assert(s1[0] == m);
                    assert(cells@[s0.len() as int] == m);
                } else if dx == -1 && dy == 1 {
                    assert(s2[0] == m);
                    assert(cells@[(s0.len() + s1.len()) as int] == m);
                } else if dx == 0 && dy == -1 {
                    assert(s3[0] == m);
                    assert(cells@[(s0.len() + s1.len() + s2.len()) as int] == m);
                } else if dx == 0 && dy == 1 {
                    assert(s4[0] == m);
                    assert(cells@[(s0.len() + s1.len() + s2.len() + s3.len()) as int] == m);
                } else if dx == 1 && dy == -1 {
                    assert(s5[0] == m);
                    assert(cells@[(s0.len() + s1.len() + s2.len() + s3.len() + s4.len()) as int]
                        == m);
                } else if dx == 1 && dy == 0 {
                    assert(s6[0] == m);
                    assert(cells@[(s0.len() + s1.len() + s2.len() + s3.len() + s4.len()
                        + s5.len()) as int] == m);
                } else {
                    assert(dx == 1 && dy == 1);
                    assert(s7[0] == m);
                    assert(cells@[(s0.len() + s1.len() + s2.len() + s3.len() + s4.len() + s5.len()
                        + s6.len()) as int] == m);
                }
            }
        }
        cells
    }

    /// The octile distance between two cells.
    pub fn distance(&self, a: ComputeGridNode, b: ComputeGridNode) -> (d: u128)
        ensures
            d == octile(a, b),
    {
        Metric::Octile.distance(a, b)
    }

    /// Whether `a` sees `b` past the obstacles.
    pub fn los(&self, a: ComputeGridNode, b: ComputeGridNode) -> (sight: bool)
        ensures
            sight == line_of_sight(self.obstacles(), a, b),
    {
        has_line_of_sight(&self.obstacles, a, b)
    }

    /// The better way to `neighbor` when `current` is settled.
    pub fn vertex(
        &self,
        closed: &ClosedList,
        g_scores: &GScores,
        current: ComputeGridNode,
        neighbor: ComputeGridNode,
    ) -> (better: Option<(ComputeGridNode, u128)>)
        requires
            forall|n: ComputeGridNode| #[trigger]
                g_scores@.contains_key(n) ==> g_scores@[n] + longest_distance() <= u128::MAX,
        ensures
            better == vertex_spec(self.obstacles(), g_scores@, closed@, current, neighbor),
    {
        match closed.parent(&current) {
            Some(parent) => {
                if self.los(*parent, neighbor) {
                    return self.relax(g_scores, *parent, neighbor);
                }
            },
            None => {},
        }
        if self.los(current, neighbor) {
            return self.relax(g_scores, current, neighbor);
        }
        None
    }

    /// The way to `neighbor` from `current`, where it is better than what
    /// `neighbor` has.
    pub fn relax(
        &self,
        g_scores: &GScores,
        current: ComputeGridNode,
        neighbor: ComputeGridNode,
    ) -> (better: Option<(ComputeGridNode, u128)>)
        requires
            forall|n: ComputeGridNode| #[trigger]
                g_scores@.contains_key(n) ==> g_scores@[n] + longest_distance() <= u128::MAX,
        ensures
            better == relaxed(g_scores@, current, neighbor),
    {
        let g_current = match g_scores.get(&current) {
            Some(g) => g,
            None => {
                return None;
            },
        };
        let g = g_current + self.distance(current, neighbor);
        match g_scores.get(&neighbor) {
            Some(known) => {
                if g >= known {
                    return None;
                }
            },
            None => {},
        }
        Some((current, g))
    }
}

impl NewComputer for ThetaStar {
    fn new(grid: ComputeGrid, obstacles: ObstacleSet) -> (planner: Self)
        ensures
            planner.grid() == grid,
            planner.obstacles() == obstacles@,
    {
        Self { grid, obstacles }
    }
}

impl ComputePath for ThetaStar {
    fn draw_connections(&self) -> (draw: bool)
        ensures
            draw,
    {
        true
    }

    /// A path from `start` to `end` wherever steps of a king of chess, each
    /// to a free cell of the grid within sight, lead there; from a cell of
    /// the grid there is a path nowhere else.
    fn path(&self, start: ComputeGridNode, end: ComputeGridNode) -> (path: Vec<ComputeGridNode>)
        ensures
            has_sight_steps(self.grid(), self.obstacles(), start, end) ==> path@.len() > 0,
            path@.len() > 0 && self.grid().contains(start) ==> has_sight_steps(
                self.grid(),
                self.obstacles(),
                start,
                end,
            ),
            path@.len() > 0 ==> is_found_path(self.grid(), self.obstacles(), start, end, path@),
    {
        let mut open = OpenList::new(start, end, Metric::Octile);
        let mut closed = ClosedList::new(start);
        let mut g_scores = GScores::new(start);
        let ghost grid = self.grid;
        let ghost obstacles = self.obstacles@;
        let ghost mut potential: Seq<int> = first_potential(grid, start, far_beyond());
        proof {
            sight_first_state_ok(grid, obstacles, start, end);
        }
        loop
            invariant
                grid == self.grid(),
                obstacles == self.obstacles(),
                open.end() == end,
                open.metric() == Metric::Octile,
                closed.start() == start,
                closed.count() == g_scores.count(),
                sight_ledger_ok(grid, obstacles, start, g_scores@, closed@, g_scores.count()),
                sight_frontier_ok(grid, obstacles, end, g_scores@, open@, None),
                potential_ok(grid, g_scores@, potential, far_beyond()),
            decreases total(potential), open@.len(),
        {
            let ghost open_before = open@;
            let ghost potential_before = potential;
            proof {
                potential_not_negative(grid, g_scores@, potential, far_beyond());
            }
            let current = match open.pop_lowest_f() {
                Some(current) => current,
                None => {
                    proof {
                        no_sight_steps_when_exhausted(
                            grid,
                            obstacles,
                            start,
                            end,
                            g_scores@,
                            closed@,
                            g_scores.count(),
                            open@,
                        );
                    }
                    return Vec::new();
                },
            };
            let ghost low = lowest(open_before);
            if current.x == end.x && current.y == end.y {
                let ghost parents = closed@;
                let ghost reached = closed.count();
                proof {
                    g_scores.count_is_size();
                }
                let nodes = closed.construct_path_from(current).remove_redundant_nodes(
                    &self.obstacles,
                ).collect_with_optimized_node_positions();
                let path = reversed(nodes);
                proof {
                    found_path_is_sound(
                        grid,
                        obstacles,
                        start,
                        end,
                        g_scores@,
                        parents,
                        reached,
                        open_before,
                        low,
                        path@,
                    );
                }
                return path;
            }
            proof {
                sight_pop_keeps_state(grid, obstacles, end, g_scores@, open_before, low);
            }
            let ghost g_current = g_scores@[current];
            let neighbors = self.neighbors(&current);
            let mut i: usize = 0;
            while i < neighbors.len()
                invariant
                    grid == self.grid(),
                    obstacles == self.obstacles(),
                    open.end() == end,
                    open.metric() == Metric::Octile,
                    closed.start() == start,
                    closed.count() == g_scores.count(),
                    sight_ledger_ok(grid, obstacles, start, g_scores@, closed@, g_scores.count()),
                    sight_frontier_ok(grid, obstacles, end, g_scores@, open@, Some(current)),
                    potential_ok(grid, g_scores@, potential, far_beyond()),
                    i <= neighbors@.len(),
                    g_scores@.contains_key(current),
                    forall|j: int|
                        0 <= j < neighbors@.len() ==> king_distance(
                            current,
                            #[trigger] neighbors@[j],
                        ) == 1 && grid.contains(neighbors@[j]),
                    forall|j: int|
                        0 <= j < i && is_clear(grid, obstacles, #[trigger] neighbors@[j])
                            && line_of_sight(obstacles, current, neighbors@[j])
                            ==> g_scores@.contains_key(neighbors@[j]) && g_scores@[neighbors@[j]]
                            <= g_current + octile(current, neighbors@[j]),
                    g_scores@[current] == g_current,
                    0 <= total(potential) <= total(potential_before),
                    total(potential) == total(potential_before) ==> open@.len() + 1
                        == open_before.len(),
                decreases neighbors.len() - i,
            {
                let neighbor = neighbors[i];
                i += 1;
                if self.obstacles.contains(&neighbor) {
                    continue ;
                }
                // as many scores as fit a machine word leave room for one more distance
                let reached = g_scores.len();
                proof {
                    scores_leave_room(
                        grid,
                        obstacles,
                        start,
                        g_scores@,
                        closed@,
                        g_scores.count(),
                    );
                }
                let (from, g) = match self.vertex(&closed, &g_scores, current, neighbor) {
                    Some(better) => better,
                    None => {
                        proof {
                            if line_of_sight(obstacles, current, neighbor) {
                                no_better_way(
                                    grid,
                                    obstacles,
                                    start,
                                    g_scores@,
                                    closed@,
                                    g_scores.count(),
                                    current,
                                    neighbor,
                                );
                            }
                        }
                        continue ;
                    },
                };
                proof {
                    sight_relax_keeps_state(
                        grid,
                        obstacles,
                        start,
                        end,
                        g_scores@,
                        closed@,
                        g_scores.count(),
                        open@,
                        potential,
                        current,
                        neighbor,
                        from,
                        g,
                    );
                    potential = potential.update(slot(grid, neighbor), g as int);
                }
                open.push(neighbor, g);
                closed.insert(neighbor, from);
                g_scores.insert(neighbor, g);
            }
            proof {
                sight_settle_keeps_state(
                    grid,
                    obstacles,
                    end,
                    g_scores@,
                    open@,
                    current,
                    neighbors@,
                );
            }
        }
    }
}

} // verus!
