//! Why the search of A* ends, and why what it hands back is a shortest route:
//! what the ledger, the scores and the frontier hold between two steps, and
//! how each step keeps it.

use super::a_star::{
    entry_le, is_lowest, is_route, is_shortest_route, has_route, route_covers_distance, walk, walkable,
};
use super::progress::{first_potential, first_potential_ok, potential_drops, potential_ok, slot, total};
use crate::traits::computable_grid::{manhattan, ComputeGrid, ComputeGridNode};
use vstd::multiset::Multiset;
use vstd::prelude::*;

verus! {

/// A number above every cost that a search can record.
pub open spec fn beyond() -> int {
    0x1_0000_0000_0000_0000
}

/// What the ledger and the scores of an A* search hold between two steps:
/// every recorded cell but the start is walkable and lies one step from its
/// predecessor, which was reached at a lower cost.
#[verifier::opaque]
pub open spec fn ledger_ok(
    grid: ComputeGrid,
    obstacles: Set<ComputeGridNode>,
    start: ComputeGridNode,
    scores: Map<ComputeGridNode, u128>,
    parents: Map<ComputeGridNode, ComputeGridNode>,
    reached: nat,
) -> bool {
    &&& forall|n: ComputeGridNode| #[trigger] scores.contains_key(n) <==> parents.contains_key(n)
    &&& scores.contains_key(start)
    &&& scores[start] == 0
    &&& parents[start] == start
    &&& forall|n: ComputeGridNode| #[trigger]
        scores.contains_key(n) && n != start ==> {
            &&& walkable(grid, obstacles, n)
            &&& scores.contains_key(parents[n])
            &&& manhattan(parents[n], n) == 1
            &&& scores[parents[n]] + 1 <= scores[n]
        }
    &&& forall|n: ComputeGridNode| #[trigger] scores.contains_key(n) ==> scores[n] + 1 <= reached
}

/// Whether every walkable neighbour of `node` has been reached at a cost of
/// no more than one step beyond that of `node`.
pub open spec fn settled(
    grid: ComputeGrid,
    obstacles: Set<ComputeGridNode>,
    scores: Map<ComputeGridNode, u128>,
    node: ComputeGridNode,
) -> bool {
    forall|m: ComputeGridNode|
        manhattan(node, m) == 1 && #[trigger] walkable(grid, obstacles, m) ==> scores.contains_key(
            m,
        ) && scores[m] <= scores[node] + 1
}

/// The entry under which the frontier holds `node` at its present cost.
pub open spec fn fresh_entry(
    scores: Map<ComputeGridNode, u128>,
    end: ComputeGridNode,
    node: ComputeGridNode,
) -> (u128, ComputeGridNode) {
    ((scores[node] + manhattan(node, end)) as u128, node)
}

/// What the frontier of an A* search holds between two steps.
#[verifier::opaque]
pub open spec fn frontier_ok(
    grid: ComputeGrid,
    obstacles: Set<ComputeGridNode>,
    end: ComputeGridNode,
    scores: Map<ComputeGridNode, u128>,
    open: Multiset<(u128, ComputeGridNode)>,
    except: Option<ComputeGridNode>,
) -> bool {
    &&& forall|e: (u128, ComputeGridNode)| #[trigger]
        open.count(e) > 0 ==> scores.contains_key(e.1) && e.0 >= scores[e.1] + manhattan(e.1, end)
    &&& scores.contains_key(end) ==> open.count(fresh_entry(scores, end, end)) > 0
    &&& forall|n: ComputeGridNode| #[trigger]
        scores.contains_key(n) && except != Some(n) ==> open.count(fresh_entry(scores, end, n))
            > 0 || settled(grid, obstacles, scores, n)
}

pub proof fn goal_is_settled(
    grid: ComputeGrid,
    obstacles: Set<ComputeGridNode>,
    start: ComputeGridNode,
    end: ComputeGridNode,
    scores: Map<ComputeGridNode, u128>,
    open: Multiset<(u128, ComputeGridNode)>,
    low: (u128, ComputeGridNode),
    route: Seq<ComputeGridNode>,
    i: int,
)
    requires
        frontier_ok(grid, obstacles, end, scores, open, None),
        is_lowest(open, low),
        low.1 == end,
        is_route(grid, obstacles, start, end, route),
        0 <= i < route.len(),
        scores.contains_key(route[i]),
        scores[route[i]] <= i,
    ensures
        scores.contains_key(end),
        scores[end] + 1 <= route.len(),
    decreases route.len() - i,
{
    reveal(frontier_ok);
    let n = route[i];
    assert(open.count(low) > 0);
    assert(scores.contains_key(end) && low.0 >= scores[end]);
    if i == route.len() - 1 {
    } else if open.count(fresh_entry(scores, end, n)) > 0 {
        route_covers_distance(grid, obstacles, start, end, route, i);
        assert(entry_le(low, fresh_entry(scores, end, n)));
    } else {
        assert(settled(grid, obstacles, scores, n));
        let m = route[i + 1];
        assert(manhattan(n, m) == 1 && walkable(grid, obstacles, m));
        goal_is_settled(grid, obstacles, start, end, scores, open, low, route, i + 1);
    }
}

pub proof fn settled_cells_hold_routes(
    grid: ComputeGrid,
    obstacles: Set<ComputeGridNode>,
    start: ComputeGridNode,
    end: ComputeGridNode,
    scores: Map<ComputeGridNode, u128>,
    route: Seq<ComputeGridNode>,
    i: int,
)
    requires
        frontier_ok(grid, obstacles, end, scores, Multiset::empty(), None),
        is_route(grid, obstacles, start, end, route),
        0 <= i < route.len(),
        scores.contains_key(route[i]),
    ensures
        scores.contains_key(end),
    decreases route.len() - i,
{
    reveal(frontier_ok);
    if i < route.len() - 1 {
        let n = route[i];
        assert(Multiset::<(u128, ComputeGridNode)>::empty().count(fresh_entry(scores, end, n))
            == 0);
        assert(settled(grid, obstacles, scores, n));
        let m = route[i + 1];
        assert(manhattan(n, m) == 1 && walkable(grid, obstacles, m));
        settled_cells_hold_routes(grid, obstacles, start, end, scores, route, i + 1);
    }
}

pub proof fn walk_is_chain(
    grid: ComputeGrid,
    obstacles: Set<ComputeGridNode>,
    start: ComputeGridNode,
    scores: Map<ComputeGridNode, u128>,
    parents: Map<ComputeGridNode, ComputeGridNode>,
    reached: nat,
    node: ComputeGridNode,
    budget: nat,
)
    requires
        ledger_ok(grid, obstacles, start, scores, parents, reached),
        scores.contains_key(node),
        scores[node] + 1 <= budget,
    ensures
        ({
            let w = walk(parents, start, node, budget);
            &&& 1 <= w.len() <= scores[node] + 1
            &&& w[0] == node
            &&& w.last() == start
            &&& forall|i: int|
                0 <= i < w.len() - 1 ==> manhattan(w[i + 1], #[trigger] w[i]) == 1 && walkable(
                    grid,
                    obstacles,
                    w[i],
                )
        }),
    decreases budget,
{
    reveal(ledger_ok);
    let w = walk(parents, start, node, budget);
    if node == start {
        assert(w =~= seq![node]);
    } else {
        assert(parents.contains_key(node));
        let tail = walk(parents, start, parents[node], (budget - 1) as nat);
        walk_is_chain(
            grid,
            obstacles,
            start,
            scores,
            parents,
            reached,
            parents[node],
            (budget - 1) as nat,
        );
        assert(w =~= seq![node] + tail);
        assert forall|i: int| 0 <= i < w.len() - 1 implies manhattan(w[i + 1], #[trigger] w[i])
            == 1 && walkable(grid, obstacles, w[i]) by {
            if i > 0 {
                assert(w[i] == tail[i - 1]);
                assert(w[i + 1] == tail[i]);
            } else {
                assert(w[1] == tail[0]);
            }
        }
    }
}

pub proof fn pop_keeps_state(
    grid: ComputeGrid,
    obstacles: Set<ComputeGridNode>,
    end: ComputeGridNode,
    scores: Map<ComputeGridNode, u128>,
    open: Multiset<(u128, ComputeGridNode)>,
    low: (u128, ComputeGridNode),
)
    requires
        frontier_ok(grid, obstacles, end, scores, open, None),
        open.count(low) > 0,
        low.1 != end,
    ensures
        frontier_ok(grid, obstacles, end, scores, open.remove(low), Some(low.1)),
        scores.contains_key(low.1),
{
    reveal(frontier_ok);
    let rest = open.remove(low);
    assert forall|e: (u128, ComputeGridNode)| #[trigger] rest.count(e) > 0 implies open.count(e)
        > 0 by {}
    assert forall|n: ComputeGridNode| #[trigger]
        scores.contains_key(n) && Some(low.1) != Some(n) implies rest.count(
        fresh_entry(scores, end, n),
    ) > 0 || settled(grid, obstacles, scores, n) by {
        assert(fresh_entry(scores, end, n) != low);
    }
    assert(fresh_entry(scores, end, end) != low);
}

pub proof fn relax_keeps_ledger(
    grid: ComputeGrid,
    obstacles: Set<ComputeGridNode>,
    start: ComputeGridNode,
    scores: Map<ComputeGridNode, u128>,
    parents: Map<ComputeGridNode, ComputeGridNode>,
    reached: nat,
    current: ComputeGridNode,
    neighbor: ComputeGridNode,
    g: u128,
)
    requires
        ledger_ok(grid, obstacles, start, scores, parents, reached),
        scores.contains_key(current),
        manhattan(current, neighbor) == 1,
        walkable(grid, obstacles, neighbor),
        g == scores[current] + 1,
        !scores.contains_key(neighbor) || g < scores[neighbor],
    ensures
        ledger_ok(
            grid,
            obstacles,
            start,
            scores.insert(neighbor, g),
            parents.insert(neighbor, current),
            reached + (if scores.contains_key(neighbor) {
                0nat
            } else {
                1nat
            }),
        ),
        neighbor != start,
        g <= reached,
        scores.contains_key(neighbor) == parents.contains_key(neighbor),
{
    reveal(ledger_ok);
    let scores2 = scores.insert(neighbor, g);
    let parents2 = parents.insert(neighbor, current);
    let reached2 = reached + (if scores.contains_key(neighbor) {
        0nat
    } else {
        1nat
    });
    assert(scores[current] + 1 <= reached);
    assert forall|n: ComputeGridNode| #[trigger]
        scores2.contains_key(n) && n != start implies {
        &&& walkable(grid, obstacles, n)
        &&& scores2.contains_key(parents2[n])
        &&& manhattan(parents2[n], n) == 1
        &&& scores2[parents2[n]] + 1 <= scores2[n]
    } by {
        if n != neighbor {
            assert(scores.contains_key(n));
            assert(scores.contains_key(parents[n]));
        }
    }
    assert forall|n: ComputeGridNode| #[trigger] scores2.contains_key(n) implies scores2[n] + 1
        <= reached2 by {
        if n != neighbor {
            assert(scores.contains_key(n));
        }
    }
}

pub proof fn relax_keeps_frontier(
    grid: ComputeGrid,
    obstacles: Set<ComputeGridNode>,
    end: ComputeGridNode,
    scores: Map<ComputeGridNode, u128>,
    open: Multiset<(u128, ComputeGridNode)>,
    current: ComputeGridNode,
    neighbor: ComputeGridNode,
    g: u128,
)
    requires
        frontier_ok(grid, obstacles, end, scores, open, Some(current)),
        !scores.contains_key(neighbor) || g < scores[neighbor],
        g + manhattan(neighbor, end) <= u128::MAX,
    ensures
        frontier_ok(
            grid,
            obstacles,
            end,
            scores.insert(neighbor, g),
            open.insert(((g + manhattan(neighbor, end)) as u128, neighbor)),
            Some(current),
        ),
{
    reveal(frontier_ok);
    let scores2 = scores.insert(neighbor, g);
    let entry = ((g + manhattan(neighbor, end)) as u128, neighbor);
    let open2 = open.insert(entry);
    assert forall|e: (u128, ComputeGridNode)| #[trigger] open2.count(e) > 0 implies scores2.contains_key(
        e.1,
    ) && e.0 >= scores2[e.1] + manhattan(e.1, end) by {
        if e != entry {
            assert(open.count(e) > 0);
        }
    }
    assert forall|n: ComputeGridNode| #[trigger]
        scores2.contains_key(n) && Some(current) != Some(n) implies open2.count(
        fresh_entry(scores2, end, n),
    ) > 0 || settled(grid, obstacles, scores2, n) by {
        if n == neighbor {
            assert(fresh_entry(scores2, end, n) == entry);
        } else {
            assert(scores.contains_key(n));
            assert(fresh_entry(scores2, end, n) == fresh_entry(scores, end, n));
            if open.count(fresh_entry(scores, end, n)) > 0 {
            } else {
                assert(settled(grid, obstacles, scores, n));
                assert forall|m: ComputeGridNode|
                    manhattan(n, m) == 1 && #[trigger] walkable(
                        grid,
                        obstacles,
                        m,
                    ) implies scores2.contains_key(m) && scores2[m] <= scores2[n] + 1 by {
                    assert(scores.contains_key(m) && scores[m] <= scores[n] + 1);
                }
            }
        }
    }
    if scores2.contains_key(end) {
        if end == neighbor {
            assert(fresh_entry(scores2, end, end) == entry);
        } else {
            assert(scores.contains_key(end));
            assert(fresh_entry(scores2, end, end) == fresh_entry(scores, end, end));
        }
    }
}

pub proof fn relax_keeps_state(
    grid: ComputeGrid,
    obstacles: Set<ComputeGridNode>,
    start: ComputeGridNode,
    end: ComputeGridNode,
    scores: Map<ComputeGridNode, u128>,
    parents: Map<ComputeGridNode, ComputeGridNode>,
    reached: nat,
    open: Multiset<(u128, ComputeGridNode)>,
    potential: Seq<int>,
    current: ComputeGridNode,
    neighbor: ComputeGridNode,
    g: u128,
)
    requires
        ledger_ok(grid, obstacles, start, scores, parents, reached),
        frontier_ok(grid, obstacles, end, scores, open, Some(current)),
        potential_ok(grid, scores, potential, beyond()),
        scores.contains_key(current),
        manhattan(current, neighbor) == 1,
        walkable(grid, obstacles, neighbor),
        g == scores[current] + 1,
        !scores.contains_key(neighbor) || g < scores[neighbor],
        reached < beyond(),
    ensures
        ({
            let scores2 = scores.insert(neighbor, g);
            let parents2 = parents.insert(neighbor, current);
            let reached2 = reached + (if scores.contains_key(neighbor) {
                0nat
            } else {
                1nat
            });
            let open2 = open.insert(((g + manhattan(neighbor, end)) as u128, neighbor));
            let potential2 = potential.update(slot(grid, neighbor), g as int);
            &&& ledger_ok(grid, obstacles, start, scores2, parents2, reached2)
            &&& frontier_ok(grid, obstacles, end, scores2, open2, Some(current))
            &&& potential_ok(grid, scores2, potential2, beyond())
            &&& 0 <= total(potential2) < total(potential)
            &&& neighbor != current
            &&& scores.contains_key(neighbor) == parents.contains_key(neighbor)
            &&& 0 <= slot(grid, neighbor) < potential.len()
            &&& scores2[current] == scores[current]
            &&& forall|n: ComputeGridNode| #[trigger]
                scores.contains_key(n) ==> scores2.contains_key(n) && scores2[n] <= scores[n]
        }),
{
    relax_keeps_ledger(grid, obstacles, start, scores, parents, reached, current, neighbor, g);
    relax_keeps_frontier(grid, obstacles, end, scores, open, current, neighbor, g);
    potential_drops(grid, scores, potential, beyond(), neighbor, g);
}

/// The state in which a search from `start` begins.
pub proof fn first_state_ok(
    grid: ComputeGrid,
    obstacles: Set<ComputeGridNode>,
    start: ComputeGridNode,
    end: ComputeGridNode,
)
    ensures
        ({
            let scores = Map::<ComputeGridNode, u128>::empty().insert(start, 0);
            let parents = Map::<ComputeGridNode, ComputeGridNode>::empty().insert(start, start);
            let open = Multiset::<(u128, ComputeGridNode)>::empty().insert(
                (manhattan(start, end) as u128, start),
            );
            &&& ledger_ok(grid, obstacles, start, scores, parents, 1)
            &&& frontier_ok(grid, obstacles, end, scores, open, None)
            &&& potential_ok(grid, scores, first_potential(grid, start, beyond()), beyond())
        }),
{
    reveal(ledger_ok);
    reveal(frontier_ok);
    let scores = Map::<ComputeGridNode, u128>::empty().insert(start, 0);
    let open = Multiset::<(u128, ComputeGridNode)>::empty().insert(
        (manhattan(start, end) as u128, start),
    );
    first_potential_ok(grid, start, beyond());
    assert(open.count(fresh_entry(scores, end, start)) > 0);
}

pub proof fn no_route_when_exhausted(
    grid: ComputeGrid,
    obstacles: Set<ComputeGridNode>,
    start: ComputeGridNode,
    end: ComputeGridNode,
    scores: Map<ComputeGridNode, u128>,
    parents: Map<ComputeGridNode, ComputeGridNode>,
    reached: nat,
    open: Multiset<(u128, ComputeGridNode)>,
)
    requires
        ledger_ok(grid, obstacles, start, scores, parents, reached),
        frontier_ok(grid, obstacles, end, scores, open, None),
        open.len() == 0,
    ensures
        is_shortest_route(grid, obstacles, start, end, Seq::empty()),
{
    reveal(ledger_ok);
    reveal(frontier_ok);
    assert(open =~= Multiset::<(u128, ComputeGridNode)>::empty());
    if has_route(grid, obstacles, start, end) {
        let route = choose|route: Seq<ComputeGridNode>|
            is_route(grid, obstacles, start, end, route);
        settled_cells_hold_routes(grid, obstacles, start, end, scores, route, 0);
        assert(open.count(fresh_entry(scores, end, end)) > 0);
    }
}

pub proof fn walked_path_is_shortest(
    grid: ComputeGrid,
    obstacles: Set<ComputeGridNode>,
    start: ComputeGridNode,
    end: ComputeGridNode,
    scores: Map<ComputeGridNode, u128>,
    parents: Map<ComputeGridNode, ComputeGridNode>,
    reached: nat,
    open: Multiset<(u128, ComputeGridNode)>,
    low: (u128, ComputeGridNode),
)
    requires
        ledger_ok(grid, obstacles, start, scores, parents, reached),
        frontier_ok(grid, obstacles, end, scores, open, None),
        is_lowest(open, low),
        low.1 == end,
    ensures
        is_shortest_route(
            grid,
            obstacles,
            start,
            end,
            walk(parents, start, end, reached).reverse(),
        ),
{
    entry_is_reached(grid, obstacles, end, scores, open, low);
    score_below_count(grid, obstacles, start, scores, parents, reached, end);
    start_costs_nothing(grid, obstacles, start, scores, parents, reached);
    walk_is_chain(grid, obstacles, start, scores, parents, reached, end, reached);
    let w = walk(parents, start, end, reached);
    let r = w.reverse();
    chain_turns_into_route(grid, obstacles, start, end, w);
    assert forall|route: Seq<ComputeGridNode>| #[trigger]
        is_route(grid, obstacles, start, end, route) implies r.len() <= route.len() by {
        goal_is_settled(grid, obstacles, start, end, scores, open, low, route, 0);
    }
}

pub proof fn entry_is_reached(
    grid: ComputeGrid,
    obstacles: Set<ComputeGridNode>,
    end: ComputeGridNode,
    scores: Map<ComputeGridNode, u128>,
    open: Multiset<(u128, ComputeGridNode)>,
    entry: (u128, ComputeGridNode),
)
    requires
        frontier_ok(grid, obstacles, end, scores, open, None),
        is_lowest(open, entry),
    ensures
        scores.contains_key(entry.1),
{
    reveal(frontier_ok);
    assert(open.count(entry) > 0);
}

pub proof fn start_costs_nothing(
    grid: ComputeGrid,
    obstacles: Set<ComputeGridNode>,
    start: ComputeGridNode,
    scores: Map<ComputeGridNode, u128>,
    parents: Map<ComputeGridNode, ComputeGridNode>,
    reached: nat,
)
    requires
        ledger_ok(grid, obstacles, start, scores, parents, reached),
    ensures
        scores.contains_key(start),
        scores[start] == 0,
{
    reveal(ledger_ok);
}

pub proof fn chain_turns_into_route(
    grid: ComputeGrid,
    obstacles: Set<ComputeGridNode>,
    start: ComputeGridNode,
    end: ComputeGridNode,
    w: Seq<ComputeGridNode>,
)
    requires
        w.len() >= 1,
        w[0] == end,
        w.last() == start,
        forall|i: int|
            0 <= i < w.len() - 1 ==> manhattan(w[i + 1], #[trigger] w[i]) == 1 && walkable(
                grid,
                obstacles,
                w[i],
            ),
    ensures
        is_route(grid, obstacles, start, end, w.reverse()),
{
    let r = w.reverse();
    assert(r.len() == w.len());
    assert(r[0] == w[w.len() - 1]);
    assert forall|i: int| 0 < i < r.len() implies manhattan(r[i - 1], #[trigger] r[i]) == 1
        && walkable(grid, obstacles, r[i]) by {
        let j = w.len() - 1 - i;
        assert(r[i] == w[j]);
        assert(r[i - 1] == w[j + 1]);
        assert(manhattan(w[j + 1], w[j]) == 1 && walkable(grid, obstacles, w[j]));
    }
}

pub proof fn settle_keeps_state(
    grid: ComputeGrid,
    obstacles: Set<ComputeGridNode>,
    end: ComputeGridNode,
    scores: Map<ComputeGridNode, u128>,
    open: Multiset<(u128, ComputeGridNode)>,
    current: ComputeGridNode,
    neighbors: Seq<ComputeGridNode>,
)
    requires
        frontier_ok(grid, obstacles, end, scores, open, Some(current)),
        scores.contains_key(current),
        forall|m: ComputeGridNode|
            manhattan(current, m) == 1 && grid.contains(m) ==> neighbors.contains(m),
        forall|j: int|
            0 <= j < neighbors.len() && walkable(grid, obstacles, #[trigger] neighbors[j])
                ==> scores.contains_key(neighbors[j]) && scores[neighbors[j]] <= scores[current]
                + 1,
    ensures
        frontier_ok(grid, obstacles, end, scores, open, None),
{
    reveal(frontier_ok);
    assert forall|m: ComputeGridNode|
        manhattan(current, m) == 1 && #[trigger] walkable(
            grid,
            obstacles,
            m,
        ) implies scores.contains_key(m) && scores[m] <= scores[current] + 1 by {
        assert(neighbors.contains(m));
        let j = choose|j: int| 0 <= j < neighbors.len() && neighbors[j] == m;
        assert(walkable(grid, obstacles, neighbors[j]));
    }
    assert(settled(grid, obstacles, scores, current));
}

pub proof fn score_below_count(
    grid: ComputeGrid,
    obstacles: Set<ComputeGridNode>,
    start: ComputeGridNode,
    scores: Map<ComputeGridNode, u128>,
    parents: Map<ComputeGridNode, ComputeGridNode>,
    reached: nat,
    node: ComputeGridNode,
)
    requires
        ledger_ok(grid, obstacles, start, scores, parents, reached),
        scores.contains_key(node),
    ensures
        scores[node] + 1 <= reached,
{
    reveal(ledger_ok);
}

} // verus!
