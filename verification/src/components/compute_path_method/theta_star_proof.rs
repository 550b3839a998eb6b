//! Why the search of Theta* ends, and why what it hands back is sound:
//! what the ledger, the scores and the frontier hold between two steps, and
//! how each step keeps it.

use super::a_star::{entry_le, is_lowest, octile, walk};
use super::progress::{first_potential, first_potential_ok, potential_drops, potential_ok, slot, total};
use super::smoothing::{
    cleaned, is_clear, king_distance, merged_part, merged_upto, optimized, optimized_keeps_ends,
    optimized_stays_clear, positioned,
};
use super::straight_line_wide::line_of_sight;
use super::theta_star::{
    cleaned_keeps_ends, cleaned_stays_clear, has_sight_steps, is_cheapest_chain, is_found_path,
    is_sight_chain, is_sight_step_route, longest_distance, octile_is_a_distance, path_cost,
    path_cost_covers_distance, relaxed, sight_chain_gives_steps, vertex_spec,
};
use crate::traits::computable_grid::{ComputeGrid, ComputeGridNode};
use vstd::multiset::Multiset;
use vstd::prelude::*;

verus! {

/// A number above every cost that a search of Theta* can record.
pub open spec fn far_beyond() -> int {
    0x2000_0000_0000_0000_0000_0000_0000_0000
}

#[verifier::opaque]
pub open spec fn sight_ledger_ok(
    grid: ComputeGrid,
    obstacles: Set<ComputeGridNode>,
    start: ComputeGridNode,
    scores: Map<ComputeGridNode, u128>,
    parents: Map<ComputeGridNode, ComputeGridNode>,
    reached: nat,
) -> bool {
    &&& forall|n: ComputeGridNode| #[trigger] scores.contains_key(n) <==> parents.contains_key(n)
    &&& scores.contains_key(start)
    &&& scores[start] == 0
    &&& parents[start] == start
    &&& reached >= 1
    &&& forall|n: ComputeGridNode| #[trigger]
        scores.contains_key(n) && n != start ==> {
            &&& is_clear(grid, obstacles, n)
            &&& scores.contains_key(parents[n])
            &&& line_of_sight(obstacles, parents[n], n)
            &&& parents[n] != n
            &&& scores[parents[n]] + octile(parents[n], n) <= scores[n]
        }
    &&& forall|n: ComputeGridNode| #[trigger]
        scores.contains_key(n) ==> scores[n] <= (reached - 1) * longest_distance()
}

pub open spec fn seen_from(
    grid: ComputeGrid,
    obstacles: Set<ComputeGridNode>,
    scores: Map<ComputeGridNode, u128>,
    node: ComputeGridNode,
) -> bool {
    forall|m: ComputeGridNode|
        king_distance(node, m) == 1 && #[trigger] is_clear(grid, obstacles, m) && line_of_sight(
            obstacles,
            node,
            m,
        ) ==> scores.contains_key(m) && scores[m] <= scores[node] + octile(node, m)
}

pub open spec fn octile_entry(
    scores: Map<ComputeGridNode, u128>,
    end: ComputeGridNode,
    node: ComputeGridNode,
) -> (u128, ComputeGridNode) {
    ((scores[node] + octile(node, end)) as u128, node)
}

#[verifier::opaque]
pub open spec fn sight_frontier_ok(
    grid: ComputeGrid,
    obstacles: Set<ComputeGridNode>,
    end: ComputeGridNode,
    scores: Map<ComputeGridNode, u128>,
    open: Multiset<(u128, ComputeGridNode)>,
    except: Option<ComputeGridNode>,
) -> bool {
    &&& forall|e: (u128, ComputeGridNode)| #[trigger]
        open.count(e) > 0 ==> scores.contains_key(e.1) && e.0 >= scores[e.1] + octile(e.1, end)
    &&& scores.contains_key(end) ==> open.count(octile_entry(scores, end, end)) > 0
    &&& forall|n: ComputeGridNode| #[trigger]
        scores.contains_key(n) && except != Some(n) ==> open.count(octile_entry(scores, end, n))
            > 0 || seen_from(grid, obstacles, scores, n)
}

pub proof fn sight_first_state_ok(
    grid: ComputeGrid,
    obstacles: Set<ComputeGridNode>,
    start: ComputeGridNode,
    end: ComputeGridNode,
)
    ensures
        ({
            let scores = Map::<ComputeGridNode, u128>::empty().insert(start, 0);
            let parents = Map::<ComputeGridNode, ComputeGridNode>::empty().insert(start, start);
            let open = Multiset::<(u128, ComputeGridNode)>::empty().insert(
                (octile(start, end) as u128, start),
            );
            &&& sight_ledger_ok(grid, obstacles, start, scores, parents, 1)
            &&& sight_frontier_ok(grid, obstacles, end, scores, open, None)
            &&& potential_ok(grid, scores, first_potential(grid, start, far_beyond()), far_beyond())
        }),
{
    reveal(sight_ledger_ok);
    reveal(sight_frontier_ok);
    let scores = Map::<ComputeGridNode, u128>::empty().insert(start, 0);
    let open = Multiset::<(u128, ComputeGridNode)>::empty().insert(
        (octile(start, end) as u128, start),
    );
    first_potential_ok(grid, start, far_beyond());
    assert(open.count(octile_entry(scores, end, start)) > 0);
}

pub proof fn sight_pop_keeps_state(
    grid: ComputeGrid,
    obstacles: Set<ComputeGridNode>,
    end: ComputeGridNode,
    scores: Map<ComputeGridNode, u128>,
    open: Multiset<(u128, ComputeGridNode)>,
    low: (u128, ComputeGridNode),
)
    requires
        sight_frontier_ok(grid, obstacles, end, scores, open, None),
        open.count(low) > 0,
        low.1 != end,
    ensures
        sight_frontier_ok(grid, obstacles, end, scores, open.remove(low), Some(low.1)),
        scores.contains_key(low.1),
{
    reveal(sight_frontier_ok);
    let rest = open.remove(low);
    assert forall|e: (u128, ComputeGridNode)| #[trigger] rest.count(e) > 0 implies open.count(e)
        > 0 by {}
    assert forall|n: ComputeGridNode| #[trigger]
        scores.contains_key(n) && Some(low.1) != Some(n) implies rest.count(
        octile_entry(scores, end, n),
    ) > 0 || seen_from(grid, obstacles, scores, n) by {
        assert(octile_entry(scores, end, n) != low);
    }
    assert(octile_entry(scores, end, end) != low);
}

/// What a better way to `neighbor` is made of.
pub proof fn better_way_is_sound(
    grid: ComputeGrid,
    obstacles: Set<ComputeGridNode>,
    start: ComputeGridNode,
    end: ComputeGridNode,
    scores: Map<ComputeGridNode, u128>,
    parents: Map<ComputeGridNode, ComputeGridNode>,
    reached: nat,
    current: ComputeGridNode,
    neighbor: ComputeGridNode,
    from: ComputeGridNode,
    g: u128,
)
    requires
        sight_ledger_ok(grid, obstacles, start, scores, parents, reached),
        scores.contains_key(current),
        vertex_spec(obstacles, scores, parents, current, neighbor) == Some((from, g)),
        reached <= u64::MAX,
    ensures
        scores.contains_key(from),
        line_of_sight(obstacles, from, neighbor),
        g == scores[from] + octile(from, neighbor),
        !scores.contains_key(neighbor) || g < scores[neighbor],
        neighbor != from,
        neighbor != start,
        g <= scores[current] + octile(current, neighbor),
        g <= reached * longest_distance(),
        g < far_beyond(),
        g + octile(neighbor, end) <= u128::MAX,
        scores.contains_key(neighbor) == parents.contains_key(neighbor),
{
    reveal(sight_ledger_ok);
    assert(relaxed(scores, from, neighbor) == Some((from, g)));
    assert(from == current || (parents.contains_key(current) && from == parents[current]));
    assert(scores[from] <= (reached - 1) * longest_distance());
    octile_is_a_distance(from, neighbor, end);
    octile_is_a_distance(from, current, neighbor);
    octile_is_a_distance(neighbor, end, end);
    assert((reached - 1) * longest_distance() + longest_distance() == reached
        * longest_distance()) by (nonlinear_arith);
    assert(reached * longest_distance() <= u64::MAX * longest_distance()) by (nonlinear_arith)
        requires
            reached <= u64::MAX,
            longest_distance() >= 0,
    ;
    if from != current && current != start {
        assert(scores[from] + octile(from, current) <= scores[current]);
    }
}

pub proof fn sight_relax_keeps_ledger(
    grid: ComputeGrid,
    obstacles: Set<ComputeGridNode>,
    start: ComputeGridNode,
    scores: Map<ComputeGridNode, u128>,
    parents: Map<ComputeGridNode, ComputeGridNode>,
    reached: nat,
    neighbor: ComputeGridNode,
    from: ComputeGridNode,
    g: u128,
)
    requires
        sight_ledger_ok(grid, obstacles, start, scores, parents, reached),
        is_clear(grid, obstacles, neighbor),
        scores.contains_key(from),
        line_of_sight(obstacles, from, neighbor),
        g == scores[from] + octile(from, neighbor),
        !scores.contains_key(neighbor) || g < scores[neighbor],
        neighbor != from,
        neighbor != start,
        g <= reached * longest_distance(),
    ensures
        sight_ledger_ok(
            grid,
            obstacles,
            start,
            scores.insert(neighbor, g),
            parents.insert(neighbor, from),
            reached + (if scores.contains_key(neighbor) {
                0nat
            } else {
                1nat
            }),
        ),
{
    reveal(sight_ledger_ok);
    let scores2 = scores.insert(neighbor, g);
    let parents2 = parents.insert(neighbor, from);
    let reached2 = reached + (if scores.contains_key(neighbor) {
        0nat
    } else {
        1nat
    });
    assert forall|n: ComputeGridNode| #[trigger]
        scores2.contains_key(n) && n != start implies {
        &&& is_clear(grid, obstacles, n)
        &&& scores2.contains_key(parents2[n])
        &&& line_of_sight(obstacles, parents2[n], n)
        &&& parents2[n] != n
        &&& scores2[parents2[n]] + octile(parents2[n], n) <= scores2[n]
    } by {
        if n != neighbor {
            assert(scores.contains_key(n));
            assert(scores.contains_key(parents[n]));
        }
    }
    assert forall|n: ComputeGridNode| #[trigger] scores2.contains_key(n) implies scores2[n] <= (
    reached2 - 1) * longest_distance() by {
        assert((reached2 - 1) * longest_distance() >= (reached - 1) * longest_distance())
            by (nonlinear_arith)
            requires
                reached2 >= reached,
                longest_distance() >= 0,
        ;
        if n != neighbor {
            assert(scores.contains_key(n));
        }
    }
}

pub proof fn sight_relax_keeps_frontier(
    grid: ComputeGrid,
    obstacles: Set<ComputeGridNode>,
    end: ComputeGridNode,
    scores: Map<ComputeGridNode, u128>,
    open: Multiset<(u128, ComputeGridNode)>,
    current: ComputeGridNode,
    neighbor: ComputeGridNode,
    g: u128,
)
    requires
        sight_frontier_ok(grid, obstacles, end, scores, open, Some(current)),
        !scores.contains_key(neighbor) || g < scores[neighbor],
        g + octile(neighbor, end) <= u128::MAX,
    ensures
        sight_frontier_ok(
            grid,
            obstacles,
            end,
            scores.insert(neighbor, g),
            open.insert(((g + octile(neighbor, end)) as u128, neighbor)),
            Some(current),
        ),
{
    reveal(sight_frontier_ok);
    let scores2 = scores.insert(neighbor, g);
    let entry = ((g + octile(neighbor, end)) as u128, neighbor);
    let open2 = open.insert(entry);
    assert forall|e: (u128, ComputeGridNode)| #[trigger] open2.count(e) > 0 implies scores2.contains_key(
        e.1,
    ) && e.0 >= scores2[e.1] + octile(e.1, end) by {
        if e != entry {
            assert(open.count(e) > 0);
        }
    }
    assert forall|n: ComputeGridNode| #[trigger]
        scores2.contains_key(n) && Some(current) != Some(n) implies open2.count(
        octile_entry(scores2, end, n),
    ) > 0 || seen_from(grid, obstacles, scores2, n) by {
        if n == neighbor {
            assert(octile_entry(scores2, end, n) == entry);
        } else {
            assert(scores.contains_key(n));
            assert(octile_entry(scores2, end, n) == octile_entry(scores, end, n));
            if open.count(octile_entry(scores, end, n)) > 0 {
            } else {
                assert(seen_from(grid, obstacles, scores, n));
                assert forall|m: ComputeGridNode|
                    king_distance(n, m) == 1 && #[trigger] is_clear(grid, obstacles, m)
                        && line_of_sight(obstacles, n, m) implies scores2.contains_key(m)
                    && scores2[m] <= scores2[n] + octile(n, m) by {
                    assert(scores.contains_key(m) && scores[m] <= scores[n] + octile(n, m));
                }
            }
        }
    }
    if scores2.contains_key(end) {
        if end == neighbor {
            assert(octile_entry(scores2, end, end) == entry);
        } else {
            assert(scores.contains_key(end));
            assert(octile_entry(scores2, end, end) == octile_entry(scores, end, end));
        }
    }
}

pub proof fn sight_relax_keeps_state(
    grid: ComputeGrid,
    obstacles: Set<ComputeGridNode>,
    start: ComputeGridNode,
    end: ComputeGridNode,
    scores: Map<ComputeGridNode, u128>,
    parents: Map<ComputeGridNode, ComputeGridNode>,
    reached: nat,
    open: Multiset<(u128, ComputeGridNode)>,
    potential: Seq<int>,
    current: ComputeGridNode,
    neighbor: ComputeGridNode,
    from: ComputeGridNode,
    g: u128,
)
    requires
        sight_ledger_ok(grid, obstacles, start, scores, parents, reached),
        sight_frontier_ok(grid, obstacles, end, scores, open, Some(current)),
        potential_ok(grid, scores, potential, far_beyond()),
        is_clear(grid, obstacles, neighbor),
        neighbor != current,
        scores.contains_key(current),
        vertex_spec(obstacles, scores, parents, current, neighbor) == Some((from, g)),
        reached <= u64::MAX,
    ensures
        ({
            let scores2 = scores.insert(neighbor, g);
            let parents2 = parents.insert(neighbor, from);
            let reached2 = reached + (if scores.contains_key(neighbor) {
                0nat
            } else {
                1nat
            });
            let open2 = open.insert(((g + octile(neighbor, end)) as u128, neighbor));
            let potential2 = potential.update(slot(grid, neighbor), g as int);
            &&& sight_ledger_ok(grid, obstacles, start, scores2, parents2, reached2)
            &&& sight_frontier_ok(grid, obstacles, end, scores2, open2, Some(current))
            &&& potential_ok(grid, scores2, potential2, far_beyond())
            &&& 0 <= total(potential2) < total(potential)
            &&& scores.contains_key(neighbor) == parents.contains_key(neighbor)
            &&& 0 <= slot(grid, neighbor) < potential.len()
            &&& g + octile(neighbor, end) <= u128::MAX
            &&& scores2[current] == scores[current]
            &&& g <= scores[current] + octile(current, neighbor)
            &&& forall|n: ComputeGridNode| #[trigger]
                scores.contains_key(n) ==> scores2.contains_key(n) && scores2[n] <= scores[n]
        }),
{
    better_way_is_sound(
        grid,
        obstacles,
        start,
        end,
        scores,
        parents,
        reached,
        current,
        neighbor,
        from,
        g,
    );
    sight_relax_keeps_ledger(grid, obstacles, start, scores, parents, reached, neighbor, from, g);
    sight_relax_keeps_frontier(grid, obstacles, end, scores, open, current, neighbor, g);
    potential_drops(grid, scores, potential, far_beyond(), neighbor, g);
}

/// Where no way to `neighbor` is better, `neighbor` has been reached at no
/// more than the cost of `current` and the distance between the two.
pub proof fn no_better_way(
    grid: ComputeGrid,
    obstacles: Set<ComputeGridNode>,
    start: ComputeGridNode,
    scores: Map<ComputeGridNode, u128>,
    parents: Map<ComputeGridNode, ComputeGridNode>,
    reached: nat,
    current: ComputeGridNode,
    neighbor: ComputeGridNode,
)
    requires
        sight_ledger_ok(grid, obstacles, start, scores, parents, reached),
        scores.contains_key(current),
        vertex_spec(obstacles, scores, parents, current, neighbor).is_none(),
        line_of_sight(obstacles, current, neighbor),
    ensures
        scores.contains_key(neighbor),
        scores[neighbor] <= scores[current] + octile(current, neighbor),
{
    reveal(sight_ledger_ok);
    assert(parents.contains_key(current));
    let parent = parents[current];
    octile_is_a_distance(parent, current, neighbor);
    if line_of_sight(obstacles, parent, neighbor) {
        assert(relaxed(scores, parent, neighbor).is_none());
        if current != start {
            assert(scores.contains_key(parent));
            assert(scores[parent] + octile(parent, current) <= scores[current]);
        }
    } else {
        assert(relaxed(scores, current, neighbor).is_none());
    }
}

pub proof fn sight_settle_keeps_state(
    grid: ComputeGrid,
    obstacles: Set<ComputeGridNode>,
    end: ComputeGridNode,
    scores: Map<ComputeGridNode, u128>,
    open: Multiset<(u128, ComputeGridNode)>,
    current: ComputeGridNode,
    neighbors: Seq<ComputeGridNode>,
)
    requires
        sight_frontier_ok(grid, obstacles, end, scores, open, Some(current)),
        forall|m: ComputeGridNode|
            king_distance(current, m) == 1 && grid.contains(m) ==> neighbors.contains(m),
        forall|j: int|
            0 <= j < neighbors.len() && is_clear(grid, obstacles, #[trigger] neighbors[j])
                && line_of_sight(obstacles, current, neighbors[j]) ==> scores.contains_key(
                neighbors[j],
            ) && scores[neighbors[j]] <= scores[current] + octile(current, neighbors[j]),
    ensures
        sight_frontier_ok(grid, obstacles, end, scores, open, None),
{
    reveal(sight_frontier_ok);
    assert forall|m: ComputeGridNode|
        king_distance(current, m) == 1 && #[trigger] is_clear(grid, obstacles, m) && line_of_sight(
            obstacles,
            current,
            m,
        ) implies scores.contains_key(m) && scores[m] <= scores[current] + octile(current, m) by {
        assert(neighbors.contains(m));
        let j = choose|j: int| 0 <= j < neighbors.len() && neighbors[j] == m;
        assert(is_clear(grid, obstacles, neighbors[j]));
    }
    assert(seen_from(grid, obstacles, scores, current));
}

/// When `end` comes first in the frontier, it has been reached at no more
/// than the cost of any route of steps within sight.
pub proof fn goal_costs_least(
    grid: ComputeGrid,
    obstacles: Set<ComputeGridNode>,
    start: ComputeGridNode,
    end: ComputeGridNode,
    scores: Map<ComputeGridNode, u128>,
    open: Multiset<(u128, ComputeGridNode)>,
    low: (u128, ComputeGridNode),
    route: Seq<ComputeGridNode>,
    i: int,
)
    requires
        sight_frontier_ok(grid, obstacles, end, scores, open, None),
        is_lowest(open, low),
        low.1 == end,
        is_sight_step_route(grid, obstacles, start, end, route),
        0 <= i < route.len(),
        scores.contains_key(route[i]),
        scores[route[i]] + path_cost(route.skip(i)) <= path_cost(route),
    ensures
        scores.contains_key(end),
        scores[end] <= path_cost(route),
    decreases route.len() - i,
{
    reveal(sight_frontier_ok);
    let n = route[i];
    let rest = route.skip(i);
    assert(open.count(low) > 0);
    assert(scores.contains_key(end) && low.0 >= scores[end] + octile(end, end));
    octile_is_a_distance(end, end, end);
    assert(rest[0] == n);
    assert(rest.last() == end);
    if i == route.len() - 1 {
        assert(path_cost(rest) == 0);
    } else if open.count(octile_entry(scores, end, n)) > 0 {
        path_cost_covers_distance(rest);
        assert(entry_le(low, octile_entry(scores, end, n)));
    } else {
        assert(seen_from(grid, obstacles, scores, n));
        let m = route[i + 1];
        assert(king_distance(n, m) == 1 && is_clear(grid, obstacles, m) && line_of_sight(
            obstacles,
            n,
            m,
        ));
        assert(rest[1] == m);
        assert(rest.drop_first() =~= route.skip(i + 1));
        goal_costs_least(grid, obstacles, start, end, scores, open, low, route, i + 1);
    }
}

pub proof fn sight_steps_stay_reached(
    grid: ComputeGrid,
    obstacles: Set<ComputeGridNode>,
    start: ComputeGridNode,
    end: ComputeGridNode,
    scores: Map<ComputeGridNode, u128>,
    route: Seq<ComputeGridNode>,
    i: int,
)
    requires
        sight_frontier_ok(grid, obstacles, end, scores, Multiset::empty(), None),
        is_sight_step_route(grid, obstacles, start, end, route),
        0 <= i < route.len(),
        scores.contains_key(route[i]),
    ensures
        scores.contains_key(end),
    decreases route.len() - i,
{
    reveal(sight_frontier_ok);
    if i < route.len() - 1 {
        let n = route[i];
        assert(Multiset::<(u128, ComputeGridNode)>::empty().count(octile_entry(scores, end, n))
            == 0);
        assert(seen_from(grid, obstacles, scores, n));
        let m = route[i + 1];
        assert(king_distance(n, m) == 1 && is_clear(grid, obstacles, m) && line_of_sight(
            obstacles,
            n,
            m,
        ));
        sight_steps_stay_reached(grid, obstacles, start, end, scores, route, i + 1);
    }
}

pub proof fn no_sight_steps_when_exhausted(
    grid: ComputeGrid,
    obstacles: Set<ComputeGridNode>,
    start: ComputeGridNode,
    end: ComputeGridNode,
    scores: Map<ComputeGridNode, u128>,
    parents: Map<ComputeGridNode, ComputeGridNode>,
    reached: nat,
    open: Multiset<(u128, ComputeGridNode)>,
)
    requires
        sight_ledger_ok(grid, obstacles, start, scores, parents, reached),
        sight_frontier_ok(grid, obstacles, end, scores, open, None),
        open.len() == 0,
    ensures
        !has_sight_steps(grid, obstacles, start, end),
        start != end,
{
    reveal(sight_ledger_ok);
    reveal(sight_frontier_ok);
    assert(open =~= Multiset::<(u128, ComputeGridNode)>::empty());
    if has_sight_steps(grid, obstacles, start, end) {
        let route = choose|route: Seq<ComputeGridNode>|
            is_sight_step_route(grid, obstacles, start, end, route);
        sight_steps_stay_reached(grid, obstacles, start, end, scores, route, 0);
        assert(open.count(octile_entry(scores, end, end)) > 0);
    }
    if start == end {
        assert(open.count(octile_entry(scores, end, end)) > 0);
    }
}

/// The cells that were reached at a cost of no more than `cost`.
pub open spec fn reached_below(scores: Map<ComputeGridNode, u128>, cost: int) -> Set<ComputeGridNode> {
    Set::new(|n: ComputeGridNode| scores.contains_key(n) && scores[n] <= cost)
}

pub proof fn sight_walk_fits(
    grid: ComputeGrid,
    obstacles: Set<ComputeGridNode>,
    start: ComputeGridNode,
    scores: Map<ComputeGridNode, u128>,
    parents: Map<ComputeGridNode, ComputeGridNode>,
    reached: nat,
    node: ComputeGridNode,
    budget: nat,
)
    requires
        sight_ledger_ok(grid, obstacles, start, scores, parents, reached),
        scores.dom().finite(),
        scores.contains_key(node),
        budget >= reached_below(scores, scores[node] as int).len(),
    ensures
        is_sight_chain(grid, obstacles, start, node, walk(parents, start, node, budget)),
        path_cost(walk(parents, start, node, budget)) <= scores[node],
    decreases budget,
{
    reveal(sight_ledger_ok);
    let below = reached_below(scores, scores[node] as int);
    assert(below.subset_of(scores.dom()));
    vstd::set_lib::lemma_len_subset(below, scores.dom());
    assert(below.contains(node));
    assert(below.len() >= 1) by {
        if below.len() == 0 {
            assert(below =~= Set::empty()) by {
                broadcast use vstd::set::group_set_axioms;

            }
        }
    }
    let w = walk(parents, start, node, budget);
    if node == start {
        assert(w =~= seq![node]);
    } else {
        let parent = parents[node];
        assert(parents.contains_key(node));
        let lower = reached_below(scores, scores[parent] as int);
        octile_is_a_distance(parent, node, node);
        assert(scores[parent] < scores[node]);
        assert(lower.subset_of(below.remove(node)));
        vstd::set_lib::lemma_len_subset(lower, below.remove(node));
        let tail = walk(parents, start, parent, (budget - 1) as nat);
        sight_walk_fits(
            grid,
            obstacles,
            start,
            scores,
            parents,
            reached,
            parent,
            (budget - 1) as nat,
        );
        assert(w =~= seq![node] + tail);
        assert(w.drop_first() =~= tail);
        assert(w[1] == parent);
        octile_is_a_distance(node, parent, parent);
        assert forall|i: int| 0 <= i < w.len() - 1 implies is_clear(
            grid,
            obstacles,
            #[trigger] w[i],
        ) && line_of_sight(obstacles, w[i + 1], w[i]) by {
            if i > 0 {
                assert(w[i] == tail[i - 1]);
                assert(w[i + 1] == tail[i]);
            } else {
                assert(w[1] == tail[0]);
            }
        }
    }
}

/// What a search hands back when it has reached `end`: the walk from `end`
/// back to `start`, straightened and turned round.
pub proof fn found_path_is_sound(
    grid: ComputeGrid,
    obstacles: Set<ComputeGridNode>,
    start: ComputeGridNode,
    end: ComputeGridNode,
    scores: Map<ComputeGridNode, u128>,
    parents: Map<ComputeGridNode, ComputeGridNode>,
    reached: nat,
    open: Multiset<(u128, ComputeGridNode)>,
    low: (u128, ComputeGridNode),
    path: Seq<ComputeGridNode>,
)
    requires
        sight_ledger_ok(grid, obstacles, start, scores, parents, reached),
        sight_frontier_ok(grid, obstacles, end, scores, open, None),
        is_lowest(open, low),
        low.1 == end,
        scores.dom().finite(),
        scores.dom().len() == reached,
        path == optimized(obstacles, cleaned(obstacles, walk(parents, start, end, reached))).reverse(),
    ensures
        is_found_path(grid, obstacles, start, end, path),
        start == end ==> path == seq![start],
        grid.contains(start) ==> has_sight_steps(grid, obstacles, start, end),
{
    assert(scores.contains_key(end) && scores.contains_key(start) && scores[start] == 0) by {
        reveal(sight_frontier_ok);
        reveal(sight_ledger_ok);
        assert(open.count(low) > 0);
    }
    let chain = walk(parents, start, end, reached);
    let below = reached_below(scores, scores[end] as int);
    assert(below.subset_of(scores.dom()));
    vstd::set_lib::lemma_len_subset(below, scores.dom());
    sight_walk_fits(grid, obstacles, start, scores, parents, reached, end, reached);
    cleaned_keeps_ends(obstacles, chain);
    let short = cleaned(obstacles, chain);
    optimized_keeps_ends(obstacles, short);
    let best = optimized(obstacles, short);
    assert(path.len() == best.len());
    assert(path[0] == best.last());
    assert(path.last() == best[0]);
    if is_clear(grid, obstacles, start) {
        assert forall|i: int| 0 <= i < chain.len() implies is_clear(
            grid,
            obstacles,
            #[trigger] chain[i],
        ) by {}
        cleaned_stays_clear(grid, obstacles, chain);
        optimized_stays_clear(grid, obstacles, short);
        assert forall|i: int| 0 <= i < path.len() implies is_clear(
            grid,
            obstacles,
            #[trigger] path[i],
        ) by {
            assert(path[i] == best[best.len() - 1 - i]);
        }
    }
    assert forall|route: Seq<ComputeGridNode>| #[trigger]
        is_sight_step_route(grid, obstacles, start, end, route) implies path_cost(chain)
        <= path_cost(route) by {
        assert(route.skip(0) =~= route);
        goal_costs_least(grid, obstacles, start, end, scores, open, low, route, 0);
    }
    assert(is_cheapest_chain(grid, obstacles, start, end, chain));
    if grid.contains(start) {
        sight_chain_gives_steps(grid, obstacles, start, end, chain);
    }
    if start == end {
        reveal(sight_ledger_ok);
        assert(reached >= 1);
        assert(chain =~= seq![start]);
        assert(short =~= seq![start]);
        let second = positioned(obstacles, short);
        assert(second =~= seq![start]);
        assert(merged_upto(obstacles, second, 0) =~= Seq::empty());
        assert(merged_part(obstacles, second, 0) =~= seq![start]);
        assert(merged_upto(obstacles, second, 1) =~= seq![start]);
        assert(best =~= seq![start]);
        assert(path =~= seq![start]);
    }
}

pub proof fn scores_leave_room(
    grid: ComputeGrid,
    obstacles: Set<ComputeGridNode>,
    start: ComputeGridNode,
    scores: Map<ComputeGridNode, u128>,
    parents: Map<ComputeGridNode, ComputeGridNode>,
    reached: nat,
)
    requires
        sight_ledger_ok(grid, obstacles, start, scores, parents, reached),
        reached <= u64::MAX,
    ensures
        forall|n: ComputeGridNode| #[trigger]
            scores.contains_key(n) ==> scores[n] + longest_distance() <= u128::MAX,
{
    reveal(sight_ledger_ok);
    assert((reached - 1) * longest_distance() <= u64::MAX * longest_distance()) by (nonlinear_arith)
        requires
            1 <= reached <= u64::MAX,
            longest_distance() >= 0,
    ;
}

} // verus!
