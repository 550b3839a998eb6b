//! A* on the four-connected grid, with the frontier and the ledger of
//! predecessors that Theta* shares.

use super::min_heap::{heap_pop, heap_push, is_heap};
use super::node_map::NodeMap;
use super::a_star_proof::{
    beyond, first_state_ok, frontier_ok, ledger_ok, no_route_when_exhausted, pop_keeps_state,
    relax_keeps_state, score_below_count, settle_keeps_state, walked_path_is_shortest,
};
use super::progress::{first_potential, potential_not_negative, potential_ok, slot, total};
use crate::traits::computable_grid::{
    abs_diff, gap, key_of, key_order, manhattan, ComputeGrid, ComputeGridNode,
};
use crate::traits::compute_path::{ComputePath, NewComputer, ObstacleSet};
use vstd::multiset::Multiset;
use vstd::prelude::*;

verus! {

broadcast use vstd::seq_lib::group_to_multiset_ensures;

/// The cost of one step along an axis, in the unit of the octile metric.
pub const STRAIGHT: u128 = 100_000_000;

/// The cost of one diagonal step in the same unit: the square root of two
/// to eight decimal places.
pub const DIAGONAL: u128 = 141_421_356;

/// How the distance between two cells is measured.
#[derive(Debug, PartialEq, Eq, Structural, Clone, Copy)]
pub enum Metric {
    /// The number of steps along the axes.
    RightAngle,
    /// Diagonal steps as far as both axes need covering, straight steps for the
    /// rest, in units of a hundred-millionth of a straight step.
    Octile,
}

/// The octile distance between two cells.
pub open spec fn octile(a: ComputeGridNode, b: ComputeGridNode) -> int {
    let dx = gap(a.x as int, b.x as int);
    let dy = gap(a.y as int, b.y as int);
    if dx > dy {
        DIAGONAL * dy + STRAIGHT * (dx - dy)
    } else {
        DIAGONAL * dx + STRAIGHT * (dy - dx)
    }
}

impl Metric {
    pub open spec fn distance_spec(&self, a: ComputeGridNode, b: ComputeGridNode) -> int {
        match self {
            Metric::RightAngle => manhattan(a, b),
            Metric::Octile => octile(a, b),
        }
    }

    /// The distance between two cells by this measure.
    pub fn distance(&self, a: ComputeGridNode, b: ComputeGridNode) -> (d: u128)
        ensures
            d == self.distance_spec(a, b),
            d <= DIAGONAL * 0x1_0000_0000,
    {
        let dx = abs_diff(a.x, b.x) as u128;
        let dy = abs_diff(a.y, b.y) as u128;
        match self {
            Metric::RightAngle => dx + dy,
            Metric::Octile => {
                let (long, short) = if dx > dy {
                    (dx, dy)
                } else {
                    (dy, dx)
                };
                DIAGONAL * short + STRAIGHT * (long - short)
            },
        }
    }
}

/// The order of the frontier: by estimated total cost, then by cell.
pub open spec fn entry_le(a: (u128, ComputeGridNode), b: (u128, ComputeGridNode)) -> bool {
    a.0 < b.0 || (a.0 == b.0 && key_of(a.1) <= key_of(b.1))
}

/// Whether `entry` is in `entries` and nothing in `entries` comes before it.
pub open spec fn is_lowest(
    entries: Multiset<(u128, ComputeGridNode)>,
    entry: (u128, ComputeGridNode),
) -> bool {
    &&& entries.count(entry) > 0
    &&& forall|other: (u128, ComputeGridNode)| #[trigger]
        entries.count(other) > 0 ==> entry_le(entry, other)
}

/// The entry of `entries` that comes first.
pub open spec fn lowest(entries: Multiset<(u128, ComputeGridNode)>) -> (u128, ComputeGridNode) {
    choose|entry: (u128, ComputeGridNode)| is_lowest(entries, entry)
}

/// The frontier of a search: cells with their estimated total cost `f`, the
/// cost `g` of reaching the cell plus its distance to the goal. A cell may be
/// in it more than once. The entries are kept as a binary heap.
pub struct OpenList {
    end: ComputeGridNode,
    metric: Metric,
    heap: Vec<(u128, ComputeGridNode)>,
}

impl View for OpenList {
    type V = Multiset<(u128, ComputeGridNode)>;

    closed spec fn view(&self) -> Multiset<(u128, ComputeGridNode)> {
        self.heap@.to_multiset()
    }
}

impl OpenList {
    #[verifier::type_invariant]
    spec fn heap_is_ordered(&self) -> bool {
        is_heap(self.heap@)
    }

    pub closed spec fn end(&self) -> ComputeGridNode {
        self.end
    }

    pub closed spec fn metric(&self) -> Metric {
        self.metric
    }

    /// The frontier that holds `start` alone, at its distance to `end`.
    pub fn new(start: ComputeGridNode, end: ComputeGridNode, metric: Metric) -> (open: Self)
        ensures
            open.end() == end,
            open.metric() == metric,
            open@ == Multiset::<(u128, ComputeGridNode)>::empty().insert(
                (metric.distance_spec(start, end) as u128, start),
            ),
    {
        let f = metric.distance(start, end);
        let mut heap: Vec<(u128, ComputeGridNode)> = Vec::new();
        assert(heap@.to_multiset() =~= Multiset::<(u128, ComputeGridNode)>::empty());
        heap.push((f, start));
        OpenList { end, metric, heap }
    }

    /// Takes out the entry that comes first, and hands back its cell.
    pub fn pop_lowest_f(&mut self) -> (node: Option<ComputeGridNode>)
        ensures
            final(self).end() == old(self).end(),
            final(self).metric() == old(self).metric(),
            match node {
                Some(n) => {
                    &&& is_lowest(old(self)@, lowest(old(self)@))
                    &&& n == lowest(old(self)@).1
                    &&& final(self)@ == old(self)@.remove(lowest(old(self)@))
                    &&& final(self)@.len() + 1 == old(self)@.len()
                },
                None => old(self)@.len() == 0 && final(self)@ == old(self)@,
            },
    {
        proof {
            use_type_invariant(&*self);
        }
        let ghost before = self.heap@;
        let mut heap: Vec<(u128, ComputeGridNode)> = Vec::new();
        core::mem::swap(&mut self.heap, &mut heap);
        let first = heap_pop(&mut heap);
        core::mem::swap(&mut self.heap, &mut heap);
        let entry = match first {
            Some(entry) => entry,
            None => {
                return None;
            },
        };
        proof {
            assert(before.contains(entry));
            assert forall|other: (u128, ComputeGridNode)| #[trigger]
                before.to_multiset().count(other) > 0 implies entry_le(entry, other) by {
                assert(before.contains(other));
                let j = choose|j: int| 0 <= j < before.len() && before[j] == other;
                assert(entry_le(entry, before[j]));
            }
            assert(is_lowest(before.to_multiset(), entry));
            let chosen = lowest(before.to_multiset());
            assert(is_lowest(before.to_multiset(), chosen));
            assert(entry_le(entry, chosen) && entry_le(chosen, entry));
            key_order(entry.1, chosen.1);
            assert(entry == chosen);
        }
        Some(entry.1)
    }

    /// Adds `node`, reached at cost `g`.
    pub fn push(&mut self, node: ComputeGridNode, g: u128)
        requires
            g + old(self).metric().distance_spec(node, old(self).end()) <= u128::MAX,
        ensures
            final(self).end() == old(self).end(),
            final(self).metric() == old(self).metric(),
            final(self)@ == old(self)@.insert(
                ((g + old(self).metric().distance_spec(node, old(self).end())) as u128, node),
            ),
    {
        proof {
            use_type_invariant(&*self);
        }
        let f = g + self.metric.distance(node, self.end);
        let mut heap: Vec<(u128, ComputeGridNode)> = Vec::new();
        core::mem::swap(&mut self.heap, &mut heap);
        heap_push(&mut heap, (f, node));
        core::mem::swap(&mut self.heap, &mut heap);
    }
}

/// The best known cost of reaching each cell. A cell without an entry has
/// not been reached: its cost is beyond every number.
pub struct GScores(NodeMap<u128>);

impl View for GScores {
    type V = Map<ComputeGridNode, u128>;

    closed spec fn view(&self) -> Map<ComputeGridNode, u128> {
        self.0@
    }
}

impl GScores {
    /// The number of cells that have a cost.
    pub closed spec fn count(&self) -> nat {
        self.0.count()
    }

    /// The cells that have a cost are finitely many, and `count` counts them.
    pub proof fn count_is_size(&self)
        ensures
            self@.dom().finite(),
            self@.dom().len() == self.count(),
    {
        self.0.count_is_size();
    }

    /// The scores with which a search from `start` begins: `start`, at no cost.
    pub fn new(start: ComputeGridNode) -> (scores: Self)
        ensures
            scores@ == Map::<ComputeGridNode, u128>::empty().insert(start, 0),
            scores.count() == 1,
    {
        let mut map = NodeMap::new();
        map.insert(start, 0u128);
        GScores(map)
    }

    /// Records that `node` is reached at the cost `score`.
    pub fn insert(&mut self, node: ComputeGridNode, score: u128)
        ensures
            final(self)@ == old(self)@.insert(node, score),
            final(self).count() == old(self).count() + (if old(self)@.contains_key(node) {
                0nat
            } else {
                1nat
            }),
    {
        self.0.insert(node, score);
    }

    /// The cost of reaching `node`, where it has been reached.
    pub fn get(&self, node: &ComputeGridNode) -> (score: Option<u128>)
        ensures
            score == (if self@.contains_key(*node) {
                Some(self@[*node])
            } else {
                None
            }),
    {
        match self.0.get(node) {
            Some(score) => Some(*score),
            None => None,
        }
    }

    pub fn len(&self) -> (len: usize)
        ensures
            len == self.count(),
    {
        self.0.len()
    }
}

/// The cells from `node` back along their predecessors: it ends with
/// `start`, with a cell that has no predecessor, or after `budget` cells.
pub open spec fn walk(
    parents: Map<ComputeGridNode, ComputeGridNode>,
    start: ComputeGridNode,
    node: ComputeGridNode,
    budget: nat,
) -> Seq<ComputeGridNode>
    decreases budget,
{
    if budget == 0 {
        Seq::empty()
    } else if node == start || !parents.contains_key(node) {
        seq![node]
    } else {
        seq![node] + walk(parents, start, parents[node], (budget - 1) as nat)
    }
}

/// The ledger of a search: for each cell that was reached, the cell it was
/// best reached from. The start is its own predecessor.
pub struct ClosedList {
    start: ComputeGridNode,
    parents: NodeMap<ComputeGridNode>,
}

impl View for ClosedList {
    type V = Map<ComputeGridNode, ComputeGridNode>;

    closed spec fn view(&self) -> Map<ComputeGridNode, ComputeGridNode> {
        self.parents@
    }
}

impl ClosedList {
    pub closed spec fn start(&self) -> ComputeGridNode {
        self.start
    }

    /// The number of cells that have a predecessor.
    pub closed spec fn count(&self) -> nat {
        self.parents.count()
    }

    /// The ledger with which a search from `start` begins.
    pub fn new(start: ComputeGridNode) -> (list: Self)
        ensures
            list.start() == start,
            list@ == Map::<ComputeGridNode, ComputeGridNode>::empty().insert(start, start),
            list.count() == 1,
    {
        let mut parents = NodeMap::new();
        parents.insert(start, start);
        Self { start, parents }
    }

    /// Records that `node` is best reached from `comes_from`.
    pub fn insert(&mut self, node: ComputeGridNode, comes_from: ComputeGridNode)
        ensures
            final(self).start() == old(self).start(),
            final(self)@ == old(self)@.insert(node, comes_from),
            final(self).count() == old(self).count() + (if old(self)@.contains_key(node) {
                0nat
            } else {
                1nat
            }),
    {
        self.parents.insert(node, comes_from);
    }

    /// The walk from `node` back to the start, which visits no more cells
    /// than the ledger has entries.
    pub fn construct_path_from(self, node: ComputeGridNode) -> (iterator: PathIterator)
        ensures
            iterator.parents() == self@,
            iterator.start() == self.start(),
            iterator.remaining() == walk(self@, self.start(), node, self.count()),
    {
        let budget = self.parents.len();
        let next = if budget == 0 {
            None
        } else {
            Some(node)
        };
        PathIterator { next, list: self, budget }
    }

    /// The cell that `node` is best reached from, where it was reached.
    pub fn parent(&self, node: &ComputeGridNode) -> (parent: Option<&ComputeGridNode>)
        ensures
            match parent {
                Some(p) => self@.contains_key(*node) && *p == self@[*node],
                None => !self@.contains_key(*node),
            },
    {
        self.parents.get(node)
    }

    pub fn len(&self) -> (len: usize)
        ensures
            len == self.count(),
    {
        self.parents.len()
    }
}

/// A walk through a ledger from a cell back to the start.
pub struct PathIterator {
    list: ClosedList,
    next: Option<ComputeGridNode>,
    budget: usize,
}

impl PathIterator {
    #[verifier::type_invariant]
    spec fn has_budget(&self) -> bool {
        self.next.is_some() ==> self.budget > 0
    }

    pub closed spec fn parents(&self) -> Map<ComputeGridNode, ComputeGridNode> {
        self.list@
    }

    pub closed spec fn start(&self) -> ComputeGridNode {
        self.list.start()
    }

    /// The cells still to come.
    pub closed spec fn remaining(&self) -> Seq<ComputeGridNode> {
        match self.next {
            Some(node) => walk(self.list@, self.list.start(), node, self.budget as nat),
            None => Seq::empty(),
        }
    }

    fn parent(&self, node: &ComputeGridNode) -> (parent: Option<ComputeGridNode>)
        ensures
            parent == (if *node != self.start() && self.parents().contains_key(*node) {
                Some(self.parents()[*node])
            } else {
                None
            }),
    {
        if node.x == self.list.start.x && node.y == self.list.start.y {
            return None;
        }
        match self.list.parent(node) {
            Some(parent) => Some(*parent),
            None => None,
        }
    }

    /// The next cell of the walk.
    pub fn next(&mut self) -> (node: Option<ComputeGridNode>)
        ensures
            final(self).parents() == old(self).parents(),
            final(self).start() == old(self).start(),
            match node {
                Some(n) => {
                    &&& old(self).remaining().len() > 0
                    &&& n == old(self).remaining()[0]
                    &&& final(self).remaining() == old(self).remaining().drop_first()
                },
                None => old(self).remaining().len() == 0 && final(self).remaining().len() == 0,
            },
    {
        proof {
            use_type_invariant(&*self);
        }
        let current = match self.next {
            Some(current) => current,
            None => {
                return None;
            },
        };
        let budget = self.budget - 1;
        let next = if budget == 0 {
            None
        } else {
            self.parent(&current)
        };
        proof {
            let parents = self.list@;
            let start = self.list.start();
            let whole = walk(parents, start, current, self.budget as nat);
            if current == start || !parents.contains_key(current) {
                assert(whole =~= seq![current]);
            } else {
                let tail = walk(parents, start, parents[current], budget as nat);
                assert(whole =~= seq![current] + tail);
                assert(whole.drop_first() =~= tail);
                if budget == 0 {
                    assert(tail =~= Seq::empty());
                }
            }
        }
        self.next = None;
        self.budget = budget;
        self.next = next;
        proof {
            assert(self.remaining() =~= old(self).remaining().drop_first());
        }
        Some(current)
    }

    /// All the cells of the walk, the cell it began at first.
    pub fn collect(self) -> (nodes: Vec<ComputeGridNode>)
        ensures
            nodes@ == self.remaining(),
    {
        let mut iterator = self;
        let mut nodes: Vec<ComputeGridNode> = Vec::new();
        loop
            invariant
                nodes@ + iterator.remaining() == self.remaining(),
            ensures
                nodes@ == self.remaining(),
            decreases iterator.remaining().len(),
        {
            let ghost before = iterator.remaining();
            match iterator.next() {
                Some(node) => {
                    nodes.push(node);
                    assert(nodes@ + iterator.remaining() =~= self.remaining()) by {
                        assert(before =~= seq![node] + iterator.remaining());
                    }
                },
                None => {
                    assert(nodes@ + iterator.remaining() =~= nodes@);
                    break ;
                },
            }
        }
        nodes
    }
}

/// Whether a path may enter `node`: it lies on the grid and is not blocked.
pub open spec fn walkable(
    grid: ComputeGrid,
    obstacles: Set<ComputeGridNode>,
    node: ComputeGridNode,
) -> bool {
    grid.contains(node) && !obstacles.contains(node)
}

/// Whether `route` leads from `start` to `end` in steps along the axes and
/// enters walkable cells only.
pub open spec fn is_route(
    grid: ComputeGrid,
    obstacles: Set<ComputeGridNode>,
    start: ComputeGridNode,
    end: ComputeGridNode,
    route: Seq<ComputeGridNode>,
) -> bool {
    &&& route.len() > 0
    &&& route[0] == start
    &&& route.last() == end
    &&& forall|i: int|
        0 < i < route.len() ==> manhattan(route[i - 1], #[trigger] route[i]) == 1 && walkable(
            grid,
            obstacles,
            route[i],
        )
}

/// Whether any route leads from `start` to `end`.
pub open spec fn has_route(
    grid: ComputeGrid,
    obstacles: Set<ComputeGridNode>,
    start: ComputeGridNode,
    end: ComputeGridNode,
) -> bool {
    exists|route: Seq<ComputeGridNode>| is_route(grid, obstacles, start, end, route)
}

/// Whether `path` is a route from `start` to `end` than which none is
/// shorter, or empty where there is no route.
pub open spec fn is_shortest_route(
    grid: ComputeGrid,
    obstacles: Set<ComputeGridNode>,
    start: ComputeGridNode,
    end: ComputeGridNode,
    path: Seq<ComputeGridNode>,
) -> bool {
    if has_route(grid, obstacles, start, end) {
        &&& is_route(grid, obstacles, start, end, path)
        &&& forall|route: Seq<ComputeGridNode>| #[trigger]
            is_route(grid, obstacles, start, end, route) ==> path.len() <= route.len()
    } else {
        path.len() == 0
    }
}

/// The cell at the offset `(dx, dy)` from `center`, where it lies on the grid.
pub open spec fn side(grid: ComputeGrid, center: ComputeGridNode, dx: int, dy: int) -> Seq<
    ComputeGridNode,
> {
    let x = center.x + dx;
    let y = center.y + dy;
    if grid.min.x <= x <= grid.max.x && grid.min.y <= y <= grid.max.y {
        seq![ComputeGridNode { x: x as i32, y: y as i32 }]
    } else {
        Seq::empty()
    }
}

/// The neighbours of `center` on the grid along the axes: above, below,
/// right, left.
pub open spec fn four_neighbors(grid: ComputeGrid, center: ComputeGridNode) -> Seq<
    ComputeGridNode,
> {
    side(grid, center, 0, 1) + side(grid, center, 0, -1) + side(grid, center, 1, 0) + side(
        grid,
        center,
        -1,
        0,
    )
}

/// Appends to `cells` the cell at an offset from `center`, where it lies on
/// the grid.
pub fn push_side(
    cells: &mut Vec<ComputeGridNode>,
    grid: &ComputeGrid,
    center: &ComputeGridNode,
    dx: i32,
    dy: i32,
)
    requires
        -1 <= dx <= 1,
        -1 <= dy <= 1,
    ensures
        final(cells)@ == old(cells)@ + side(*grid, *center, dx as int, dy as int),
{
    let x = center.x as i64 + dx as i64;
    let y = center.y as i64 + dy as i64;
    if x <= grid.max.x as i64 && x >= grid.min.x as i64 && y <= grid.max.y as i64 && y
        >= grid.min.y as i64 {
        cells.push(ComputeGridNode { x: x as i32, y: y as i32 });
        assert(cells@ =~= old(cells)@ + side(*grid, *center, dx as int, dy as int));
    } else {
        assert(cells@ =~= old(cells)@ + side(*grid, *center, dx as int, dy as int));
    }
}

/// The cells of `nodes`, last first.
pub fn reversed(nodes: Vec<ComputeGridNode>) -> (turned: Vec<ComputeGridNode>)
    ensures
        turned@ == nodes@.reverse(),
{
    let mut turned: Vec<ComputeGridNode> = Vec::new();
    let mut i: usize = nodes.len();
    while i > 0
        invariant
            i <= nodes@.len(),
            turned@.len() == nodes@.len() - i,
            forall|j: int| 0 <= j < turned@.len() ==> turned@[j] == nodes@[nodes@.len() - 1 - j],
        decreases i,
    {
        i -= 1;
        turned.push(nodes[i]);
    }
    assert(turned@ =~= nodes@.reverse());
    turned
}

/// Along a route the distance to its end shrinks by no more than one a step.
pub proof fn route_covers_distance(
    grid: ComputeGrid,
    obstacles: Set<ComputeGridNode>,
    start: ComputeGridNode,
    end: ComputeGridNode,
    route: Seq<ComputeGridNode>,
    i: int,
)
    requires
        is_route(grid, obstacles, start, end, route),
        0 <= i < route.len(),
    ensures
        manhattan(route[i], end) <= route.len() - 1 - i,
    decreases route.len() - i,
{
    if i < route.len() - 1 {
        route_covers_distance(grid, obstacles, start, end, route, i + 1);
        assert(manhattan(route[i], route[i + 1]) == 1);
    }
}

/// The shortest route from a cell to itself is that cell alone.
pub proof fn shortest_route_to_itself(
    grid: ComputeGrid,
    obstacles: Set<ComputeGridNode>,
    start: ComputeGridNode,
    path: Seq<ComputeGridNode>,
)
    requires
        is_shortest_route(grid, obstacles, start, start, path),
    ensures
        path == seq![start],
{
    let alone = seq![start];
    assert(is_route(grid, obstacles, start, start, alone));
    assert(path =~= alone);
}

/// The A* planner: it finds a shortest path along the axes of the grid
/// that enters no blocked cell.
pub struct AStar {
    grid: ComputeGrid,
    obstacles: ObstacleSet,
}

impl AStar {
    pub closed spec fn grid(&self) -> ComputeGrid {
        self.grid
    }

    pub closed spec fn obstacles(&self) -> Set<ComputeGridNode> {
        self.obstacles@
    }

    /// The neighbours of `center` on the grid: above, below, right, left.
    pub fn neighbors(&self, center: &ComputeGridNode) -> (cells: Vec<ComputeGridNode>)
        ensures
            cells@ == four_neighbors(self.grid(), *center),
            forall|m: ComputeGridNode|
                manhattan(*center, m) == 1 && self.grid().contains(m) ==> cells@.contains(m),
            forall|j: int|
                0 <= j < cells@.len() ==> manhattan(*center, #[trigger] cells@[j]) == 1
                    && self.grid().contains(cells@[j]),
    {
        let mut cells: Vec<ComputeGridNode> = Vec::new();
        push_side(&mut cells, &self.grid, center, 0, 1);
        push_side(&mut cells, &self.grid, center, 0, -1);
        push_side(&mut cells, &self.grid, center, 1, 0);
        push_side(&mut cells, &self.grid, center, -1, 0);
        proof {
            let g = self.grid;
            let c = *center;
            assert(cells@ =~= four_neighbors(g, c));
            assert forall|m: ComputeGridNode|
                manhattan(c, m) == 1 && g.contains(m) implies cells@.contains(m) by {
                let a = side(g, c, 0, 1);
                let b = side(g, c, 0, -1);
                let r = side(g, c, 1, 0);
                let l = side(g, c, -1, 0);
                if m.x == c.x && m.y == c.y + 1 {
                    assert(a[0] == m);
                    assert(cells@[0] == m);
                } else if m.x == c.x && m.y == c.y - 1 {
                    assert(b[0] == m);
                    assert(cells@[a.len() as int] == m);
                } else if m.x == c.x + 1 && m.y == c.y {
                    assert(r[0] == m);
                    assert(cells@[(a.len() + b.len()) as int] == m);
                } else {
                    assert(m.x == c.x - 1 && m.y == c.y);
                    assert(l[0] == m);
                    assert(cells@[(a.len() + b.len() + r.len()) as int] == m);
                }
            }
        }
        cells
    }

    /// The number of steps along the axes between two cells.
    pub fn distance(a: ComputeGridNode, b: ComputeGridNode) -> (d: u128)
        ensures
            d == manhattan(a, b),
    {
        Metric::RightAngle.distance(a, b)
    }
}

impl NewComputer for AStar {
    fn new(grid: ComputeGrid, obstacles: ObstacleSet) -> (planner: Self)
        ensures
            planner.grid() == grid,
            planner.obstacles() == obstacles@,
    {
        Self { grid, obstacles }
    }
}

impl ComputePath for AStar {
    fn draw_connections(&self) -> (draw: bool)
        ensures
            draw,
    {
        true
    }

    /// A shortest route from `start` to `end`, or nothing where no route
    /// leads there.
    fn path(&self, start: ComputeGridNode, end: ComputeGridNode) -> (path: Vec<ComputeGridNode>)
        ensures
            is_shortest_route(self.grid(), self.obstacles(), start, end, path@),
    {
        let mut open = OpenList::new(start, end, Metric::RightAngle);
        let mut closed = ClosedList::new(start);
        let mut g_scores = GScores::new(start);
        let ghost grid = self.grid;
        let ghost obstacles = self.obstacles@;
        let ghost mut potential: Seq<int> = first_potential(grid, start, beyond());
        proof {
            first_state_ok(grid, obstacles, start, end);
        }
        loop
            invariant
                grid == self.grid(),
                obstacles == self.obstacles(),
                open.end() == end,
                open.metric() == Metric::RightAngle,
                closed.start() == start,
                closed.count() == g_scores.count(),
                ledger_ok(grid, obstacles, start, g_scores@, closed@, g_scores.count()),
                frontier_ok(grid, obstacles, end, g_scores@, open@, None),
                potential_ok(grid, g_scores@, potential, beyond()),
            decreases total(potential), open@.len(),
        {
            let ghost open_before = open@;
            let ghost potential_before = potential;
            proof {
                potential_not_negative(grid, g_scores@, potential, beyond());
            }
            let current = match open.pop_lowest_f() {
                Some(current) => current,
                None => {
                    proof {
                        no_route_when_exhausted(
                            grid,
                            obstacles,
                            start,
                            end,
                            g_scores@,
                            closed@,
                            g_scores.count(),
                            open@,
                        );
                    }
                    let nothing: Vec<ComputeGridNode> = Vec::new();
                    proof {
                        assert(nothing@ =~= Seq::empty());
                        if start == end {
                            shortest_route_to_itself(grid, obstacles, start, nothing@);
                        }
                    }
                    return nothing;
                },
            };
            let ghost low = lowest(open_before);
            if current.x == end.x && current.y == end.y {
                proof {
                    walked_path_is_shortest(
                        grid,
                        obstacles,
                        start,
                        end,
                        g_scores@,
                        closed@,
                        g_scores.count(),
                        open_before,
                        low,
                    );
                }
                let walked = closed.construct_path_from(current).collect();
                let path = reversed(walked);
                proof {
                    if start == end {
                        shortest_route_to_itself(grid, obstacles, start, path@);
                    }
                }
                return path;
            }
            proof {
                pop_keeps_state(grid, obstacles, end, g_scores@, open_before, low);
            }
            let g_current = match g_scores.get(&current) {
                Some(g) => g,
                None => {
                    // every cell of the frontier has a score
                    return Vec::new();
                },
            };
            let neighbors = self.neighbors(&current);
            let mut i: usize = 0;
            while i < neighbors.len()
                invariant
                    grid == self.grid(),
                    obstacles == self.obstacles(),
                    open.end() == end,
                    open.metric() == Metric::RightAngle,
                    closed.start() == start,
                    closed.count() == g_scores.count(),
                    ledger_ok(grid, obstacles, start, g_scores@, closed@, g_scores.count()),
                    frontier_ok(grid, obstacles, end, g_scores@, open@, Some(current)),
                    potential_ok(grid, g_scores@, potential, beyond()),
                    i <= neighbors@.len(),
                    g_scores@.contains_key(current),
                    g_scores@[current] == g_current,
                    forall|j: int|
                        0 <= j < neighbors@.len() ==> manhattan(current, #[trigger] neighbors@[j])
                            == 1 && grid.contains(neighbors@[j]),
                    forall|j: int|
                        0 <= j < i && walkable(grid, obstacles, #[trigger] neighbors@[j])
                            ==> g_scores@.contains_key(neighbors@[j]) && g_scores@[neighbors@[j]]
                            <= g_current + 1,
                    0 <= total(potential) <= total(potential_before),
                    total(potential) == total(potential_before) ==> open@.len() + 1
                        == open_before.len(),
                decreases neighbors.len() - i,
            {
                let neighbor = neighbors[i];
                i += 1;
                if self.obstacles.contains(&neighbor) {
                    continue ;
                }
                // no score exceeds the number of scores, which fits a machine word
                let reached = g_scores.len();
                proof {
                    score_below_count(
                        grid,
                        obstacles,
                        start,
                        g_scores@,
                        closed@,
                        g_scores.count(),
                        current,
                    );
                }
                let g = g_current + 1;
                match g_scores.get(&neighbor) {
                    Some(known) => {
                        if g >= known {
                            continue ;
                        }
                    },
                    None => {},
                }
                proof {
                    relax_keeps_state(
                        grid,
                        obstacles,
                        start,
                        end,
                        g_scores@,
                        closed@,
                        g_scores.count(),
                        open@,
                        potential,
                        current,
                        neighbor,
                        g,
                    );
                    potential = potential.update(slot(grid, neighbor), g as int);
                }
                open.push(neighbor, g);
                closed.insert(neighbor, current);
                g_scores.insert(neighbor, g);
            }
            proof {
                settle_keeps_state(grid, obstacles, end, g_scores@, open@, current, neighbors@);
            }
        }
    }
}

} // verus!
