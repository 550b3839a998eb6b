//! What holds of shortest routes along the axes of a grid.

use super::a_star::{
    has_route, is_route, is_shortest_route, route_covers_distance, walkable, STRAIGHT,
};
use super::smoothing::{cleaned, is_clear, king_distance};
use super::straight_line_wide::sight_between_neighbors;
use super::theta_star::{
    cleaned_costs_no_more, has_sight_steps, is_cheapest_chain, is_sight_step_route, path_cost,
};
use crate::traits::computable_grid::{gap, manhattan, ComputeGrid, ComputeGridNode};
use vstd::prelude::*;

verus! {

/// The route from `from` to `to` that runs along `x` first and along `y` after.
pub open spec fn corner_route(from: ComputeGridNode, to: ComputeGridNode) -> Seq<ComputeGridNode> {
    let dx = gap(from.x as int, to.x as int);
    let sx: int = if to.x >= from.x {
        1
    } else {
        -1
    };
    let sy: int = if to.y >= from.y {
        1
    } else {
        -1
    };
    Seq::new(
        (manhattan(from, to) + 1) as nat,
        |i: int|
            if i <= dx {
                ComputeGridNode { x: (from.x + sx * i) as i32, y: from.y }
            } else {
                ComputeGridNode { x: to.x, y: (from.y + sy * (i - dx)) as i32 }
            },
    )
}

/// Between two cells of a grid without obstacles the corner route is a route.
pub proof fn corner_route_is_route(grid: ComputeGrid, from: ComputeGridNode, to: ComputeGridNode)
    requires
        grid.contains(from),
        grid.contains(to),
    ensures
        is_route(grid, Set::empty(), from, to, corner_route(from, to)),
        corner_route(from, to).len() == manhattan(from, to) + 1,
{
    let route = corner_route(from, to);
    let dx = gap(from.x as int, to.x as int);
    let dy = gap(from.y as int, to.y as int);
    let sx: int = if to.x >= from.x {
        1
    } else {
        -1
    };
    let sy: int = if to.y >= from.y {
        1
    } else {
        -1
    };
    assert forall|i: int| 0 <= i < route.len() implies (if i <= dx {
        route[i].x == from.x + sx * i && route[i].y == from.y
    } else {
        route[i].x == to.x && route[i].y == from.y + sy * (i - dx)
    }) by {
        assert(sx * i == i || sx * i == -i) by (nonlinear_arith)
            requires
                sx == 1 || sx == -1,
        ;
        assert(sy * (i - dx) == i - dx || sy * (i - dx) == -(i - dx)) by (nonlinear_arith)
            requires
                sy == 1 || sy == -1,
        ;
    }
    assert(sx * 0 == 0);
    assert(sx * dx == to.x - from.x) by (nonlinear_arith)
        requires
            sx == 1 && dx == to.x - from.x || sx == -1 && dx == from.x - to.x,
    ;
    assert(sy * dy == to.y - from.y) by (nonlinear_arith)
        requires
            sy == 1 && dy == to.y - from.y || sy == -1 && dy == from.y - to.y,
    ;
    assert(route[0] == from);
    assert(route.last() == to);
    assert forall|i: int| 0 < i < route.len() implies manhattan(route[i - 1], #[trigger] route[i])
        == 1 && walkable(grid, Set::empty(), route[i]) by {
        assert(sx * i == sx * (i - 1) + sx) by (nonlinear_arith);
        assert(sy * (i - dx) == sy * (i - 1 - dx) + sy) by (nonlinear_arith);
        assert(sx * i == i || sx * i == -i) by (nonlinear_arith)
            requires
                sx == 1 || sx == -1,
        ;
        assert(sy * (i - dx) == i - dx || sy * (i - dx) == -(i - dx)) by (nonlinear_arith)
            requires
                sy == 1 || sy == -1,
        ;
    }
}

/// A route with one more cell in front of it, one step from its start.
pub proof fn route_after_step(
    grid: ComputeGrid,
    obstacles: Set<ComputeGridNode>,
    before: ComputeGridNode,
    start: ComputeGridNode,
    end: ComputeGridNode,
    route: Seq<ComputeGridNode>,
)
    requires
        is_route(grid, obstacles, start, end, route),
        manhattan(before, start) == 1,
        walkable(grid, obstacles, start),
    ensures
        is_route(grid, obstacles, before, end, seq![before] + route),
{
    let longer = seq![before] + route;
    assert forall|i: int| 0 < i < longer.len() implies manhattan(
        longer[i - 1],
        #[trigger] longer[i],
    ) == 1 && walkable(grid, obstacles, longer[i]) by {
        if i > 1 {
            assert(longer[i] == route[i - 1]);
            assert(longer[i - 1] == route[i - 2]);
        }
    }
}

/// A route walked backwards is a route, where its start may be entered.
pub proof fn route_turns_round(
    grid: ComputeGrid,
    obstacles: Set<ComputeGridNode>,
    start: ComputeGridNode,
    end: ComputeGridNode,
    route: Seq<ComputeGridNode>,
)
    requires
        is_route(grid, obstacles, start, end, route),
        walkable(grid, obstacles, start),
    ensures
        is_route(grid, obstacles, end, start, route.reverse()),
{
    let back = route.reverse();
    assert forall|i: int| 0 < i < back.len() implies manhattan(back[i - 1], #[trigger] back[i])
        == 1 && walkable(grid, obstacles, back[i]) by {
        let j = route.len() - i;
        assert(back[i] == route[j - 1]);
        assert(back[i - 1] == route[j]);
        assert(manhattan(route[j - 1], route[j]) == 1);
        if j - 1 > 0 {
            assert(walkable(grid, obstacles, route[j - 1]));
        }
    }
}

/// On a grid without obstacles a shortest route between two cells, where
/// one can be reached from the other, takes as many steps as the cells are
/// apart along the axes.
pub proof fn shortest_route_without_obstacles(
    grid: ComputeGrid,
    start: ComputeGridNode,
    end: ComputeGridNode,
    path: Seq<ComputeGridNode>,
)
    requires
        has_route(grid, Set::empty(), start, end),
        is_shortest_route(grid, Set::empty(), start, end, path),
    ensures
        path.len() - 1 == manhattan(start, end),
{
    let none = Set::<ComputeGridNode>::empty();
    route_covers_distance(grid, none, start, end, path, 0);
    if start == end {
        assert(is_route(grid, none, start, end, seq![start]));
    } else if grid.contains(start) {
        let some = choose|route: Seq<ComputeGridNode>| is_route(grid, none, start, end, route);
        assert(walkable(grid, none, some[some.len() - 1]));
        corner_route_is_route(grid, start, end);
    } else {
        let some = choose|route: Seq<ComputeGridNode>| is_route(grid, none, start, end, route);
        assert(walkable(grid, none, some[some.len() - 1]));
        let first = some[1];
        assert(manhattan(some[0], first) == 1 && walkable(grid, none, first));
        corner_route_is_route(grid, first, end);
        route_after_step(grid, none, start, first, end, corner_route(first, end));
        assert(manhattan(first, end) + 1 == manhattan(start, end));
    }
}

/// A route that begins at a free cell passes through no obstacle.
pub proof fn route_avoids_obstacles(
    grid: ComputeGrid,
    obstacles: Set<ComputeGridNode>,
    start: ComputeGridNode,
    end: ComputeGridNode,
    route: Seq<ComputeGridNode>,
)
    requires
        is_route(grid, obstacles, start, end, route),
        !obstacles.contains(start),
    ensures
        forall|i: int| 0 <= i < route.len() ==> !obstacles.contains(#[trigger] route[i]),
{
    assert forall|i: int| 0 <= i < route.len() implies !obstacles.contains(#[trigger] route[i]) by {
        if i > 0 {
            assert(walkable(grid, obstacles, route[i]));
        }
    }
}

/// Between two walkable cells the shortest route there and the shortest
/// route back have the same number of cells, and so the same cost.
pub proof fn shortest_routes_cost_the_same(
    grid: ComputeGrid,
    obstacles: Set<ComputeGridNode>,
    start: ComputeGridNode,
    end: ComputeGridNode,
    there: Seq<ComputeGridNode>,
    back: Seq<ComputeGridNode>,
)
    requires
        walkable(grid, obstacles, start),
        walkable(grid, obstacles, end),
        is_shortest_route(grid, obstacles, start, end, there),
        is_shortest_route(grid, obstacles, end, start, back),
    ensures
        there.len() == back.len(),
{
    if has_route(grid, obstacles, start, end) {
        route_turns_round(grid, obstacles, start, end, there);
        assert(is_route(grid, obstacles, end, start, there.reverse()));
        route_turns_round(grid, obstacles, end, start, back);
        assert(is_route(grid, obstacles, start, end, back.reverse()));
    } else if has_route(grid, obstacles, end, start) {
        route_turns_round(grid, obstacles, end, start, back);
        assert(is_route(grid, obstacles, start, end, back.reverse()));
    }
}

/// A route along the axes that begins at a free cell is a route of steps
/// within sight, and costs a straight step for each of its steps.
pub proof fn axis_route_is_within_sight(
    grid: ComputeGrid,
    obstacles: Set<ComputeGridNode>,
    start: ComputeGridNode,
    end: ComputeGridNode,
    route: Seq<ComputeGridNode>,
)
    requires
        is_route(grid, obstacles, start, end, route),
        !obstacles.contains(start),
    ensures
        is_sight_step_route(grid, obstacles, start, end, route),
        path_cost(route) == STRAIGHT * (route.len() - 1),
    decreases route.len(),
{
    route_avoids_obstacles(grid, obstacles, start, end, route);
    assert forall|i: int| 0 < i < route.len() implies king_distance(
        route[i - 1],
        #[trigger] route[i],
    ) == 1 && is_clear(grid, obstacles, route[i]) by {
        assert(manhattan(route[i - 1], route[i]) == 1 && walkable(grid, obstacles, route[i]));
    }
    assert forall|i: int| 0 < i < route.len() implies super::straight_line_wide::line_of_sight(
        obstacles,
        route[i - 1],
        #[trigger] route[i],
    ) by {
        assert(manhattan(route[i - 1], route[i]) == 1);
        assert(!obstacles.contains(route[i - 1]));
        assert(!obstacles.contains(route[i]));
        sight_between_neighbors(obstacles, route[i - 1], route[i]);
    }
    if route.len() > 1 {
        let rest = route.drop_first();
        assert(manhattan(route[0], route[1]) == 1 && walkable(grid, obstacles, route[1]));
        assert forall|i: int| 0 < i < rest.len() implies manhattan(rest[i - 1], #[trigger] rest[i])
            == 1 && walkable(grid, obstacles, rest[i]) by {
            assert(rest[i] == route[i + 1]);
            assert(rest[i - 1] == route[i]);
            assert(manhattan(route[i], route[i + 1]) == 1 && walkable(
                grid,
                obstacles,
                route[i + 1],
            ));
        }
        assert(is_route(grid, obstacles, route[1], end, rest));
        axis_route_is_within_sight(grid, obstacles, route[1], end, rest);
        assert(STRAIGHT * (route.len() - 1) == STRAIGHT * (rest.len() - 1) + STRAIGHT)
            by (nonlinear_arith)
            requires
                route.len() - 1 == rest.len() - 1 + 1,
        ;
    }
}

/// Where a route along the axes leads from a free cell to another, steps
/// within sight lead there too.
pub proof fn sight_reaches_what_axes_reach(
    grid: ComputeGrid,
    obstacles: Set<ComputeGridNode>,
    start: ComputeGridNode,
    end: ComputeGridNode,
)
    requires
        has_route(grid, obstacles, start, end),
        !obstacles.contains(start),
    ensures
        has_sight_steps(grid, obstacles, start, end),
{
    let route = choose|route: Seq<ComputeGridNode>| is_route(grid, obstacles, start, end, route);
    axis_route_is_within_sight(grid, obstacles, start, end, route);
}

/// The chain of sight that Theta* finds from a free cell, and what is left
/// of it when the cells that can be passed over are gone, cost no more than
/// any route along the axes: any-angle shortcuts do not lengthen the way.
pub proof fn sight_chain_costs_no_more_than_axis_route(
    grid: ComputeGrid,
    obstacles: Set<ComputeGridNode>,
    start: ComputeGridNode,
    end: ComputeGridNode,
    chain: Seq<ComputeGridNode>,
    route: Seq<ComputeGridNode>,
)
    requires
        is_cheapest_chain(grid, obstacles, start, end, chain),
        is_route(grid, obstacles, start, end, route),
        !obstacles.contains(start),
    ensures
        path_cost(cleaned(obstacles, chain)) <= path_cost(chain),
        path_cost(chain) <= STRAIGHT * (route.len() - 1),
{
    axis_route_is_within_sight(grid, obstacles, start, end, route);
    cleaned_costs_no_more(obstacles, chain);
}

} // verus!
