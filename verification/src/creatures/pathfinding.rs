//! A* path finding over the generated terrain: walks, their costs, and
//! the search with its proof of soundness, completeness and optimality.
use vstd::prelude::*;
use vstd::hash_map::HashMapWithView;
use std::collections::VecDeque;
use crate::grid::{GridPos, key_of, grid_key, lemma_key_injective, chebyshev};
use crate::world::world_generation::{WorldMap, tile_cost, MOVE_COST_LAND};

verus! {

broadcast use vstd::std_specs::hash::group_hash_axioms;

/// Largest number of tiles given a predecessor before a search gives up.
pub const MAX_SEARCH_TILES: usize = 512;

/// `a` and `b` are distinct and touch, sideways or diagonally.
pub open spec fn adjacent(a: GridPos, b: GridPos) -> bool {
    a != b && -1 <= a.x - b.x <= 1 && -1 <= a.y - b.y <= 1
}

/// `path` walks from `start` (not included) to `goal` one neighbouring tile at
/// a time, over tiles that can be entered.
pub open spec fn is_walk(world: &WorldMap, start: GridPos, goal: GridPos, path: Seq<GridPos>) -> bool {
    &&& path.len() == 0 ==> start == goal
    &&& path.len() > 0 ==> adjacent(start, path[0]) && path.last() == goal
    &&& forall|i: int| 0 <= i < path.len() - 1 ==> adjacent(#[trigger] path[i], path[i + 1])
    &&& forall|i: int| 0 <= i < path.len() ==> (#[trigger] world.spec_tile_cost(path[i])) is Some
}

/// Estimated cost between two tiles: the land cost times their Chebyshev
/// distance.
pub fn heuristic(a: GridPos, b: GridPos) -> (h: u32)
    requires
        i32::MIN <= a.x - b.x <= i32::MAX,
        i32::MIN <= a.y - b.y <= i32::MAX,
        MOVE_COST_LAND * chebyshev(a, b) <= u32::MAX,
    ensures
        h == MOVE_COST_LAND * chebyshev(a, b),
{
    let dx64 = a.x as i64 - b.x as i64;
    let dy64 = a.y as i64 - b.y as i64;
    let dx: u32 = if dx64 < 0 { (-dx64) as u32 } else { dx64 as u32 };
    let dy: u32 = if dy64 < 0 { (-dy64) as u32 } else { dy64 as u32 };
    let m = if dx >= dy { dx } else { dy };
    MOVE_COST_LAND * m
}

/// The offset, along `x`, of the `k`-th neighbouring tile: the four sides,
/// then the four corners.
pub open spec fn offset_x(k: int) -> int {
    if k == 0 || k == 4 || k == 6 { 1 } else if k == 1 || k == 5 || k == 7 { -1 } else { 0 }
}

/// The offset, along `y`, of the `k`-th neighbouring tile.
pub open spec fn offset_y(k: int) -> int {
    if k == 2 || k == 4 || k == 5 { 1 } else if k == 3 || k == 6 || k == 7 { -1 } else { 0 }
}

/// The `k`-th neighbouring tile of `p`.
pub open spec fn step_to(p: GridPos, k: int) -> GridPos {
    GridPos { x: (p.x + offset_x(k)) as i32, y: (p.y + offset_y(k)) as i32 }
}

/// The offset to the `k`-th neighbouring tile: the four sides, then the four
/// corners.
fn neighbor_offset(k: usize) -> (o: (i32, i32))
    requires
        k < 8,
    ensures
        o.0 == offset_x(k as int),
        o.1 == offset_y(k as int),
        -1 <= o.0 <= 1,
        -1 <= o.1 <= 1,
        o.0 != 0 || o.1 != 0,
{
    match k {
        0 => (1, 0),
        1 => (-1, 0),
        2 => (0, 1),
        3 => (0, -1),
        4 => (1, 1),
        5 => (-1, 1),
        6 => (1, -1),
        _ => (-1, -1),
    }
}

/// What stepping from `a` onto the touching tile `b` costs: the cost of
/// entering `b`, times 1.4 (rounded down) for a diagonal step.
pub open spec fn step_cost(world: &WorldMap, a: GridPos, b: GridPos) -> int {
    let c = world.spec_tile_cost(b).unwrap() as int;
    if a.x != b.x && a.y != b.y {
        c * 14 / 10
    } else {
        c
    }
}

/// What walking `path` from `start` costs: the sum of its step costs.
pub open spec fn walk_cost(world: &WorldMap, start: GridPos, path: Seq<GridPos>) -> int
    decreases path.len(),
{
    if path.len() == 0 {
        0
    } else {
        let prev = if path.len() == 1 { start } else { path[path.len() - 2] };
        walk_cost(world, start, path.drop_last()) + step_cost(world, prev, path.last())
    }
}

/// The cost of a walk is its first step's cost plus the cost of the rest.
proof fn lemma_walk_cost_cons(world: &WorldMap, s: GridPos, a: GridPos, p: Seq<GridPos>)
    ensures
        walk_cost(world, s, seq![a] + p) == step_cost(world, s, a) + walk_cost(world, a, p),
    decreases p.len(),
{
    let q = seq![a] + p;
    if p.len() == 0 {
        assert(q.drop_last() =~= Seq::<GridPos>::empty());
        assert(q.last() == a);
        assert(walk_cost(world, s, q.drop_last()) == 0);
        assert(walk_cost(world, s, q) == step_cost(world, s, a));
        assert(walk_cost(world, a, p) == 0);
    } else {
        assert(q.drop_last() =~= seq![a] + p.drop_last());
        assert(q.last() == p.last());
        let prev_q = q[q.len() - 2];
        let prev_p = if p.len() == 1 { a } else { p[p.len() - 2] };
        assert(prev_q == prev_p);
        lemma_walk_cost_cons(world, s, a, p.drop_last());
        assert(walk_cost(world, s, q) == walk_cost(world, s, q.drop_last()) + step_cost(world, prev_q, q.last()));
        assert(walk_cost(world, a, p) == walk_cost(world, a, p.drop_last()) + step_cost(world, prev_p, p.last()));
    }
}

/// Some walk leads from `start` to `p`.
pub open spec fn reachable(world: &WorldMap, start: GridPos, p: GridPos) -> bool {
    exists|path: Seq<GridPos>| #[trigger] is_walk(world, start, p, path)
}

/// The search's estimate of the cost from `p` to `goal`: the land cost per
/// step of Chebyshev distance.
pub open spec fn heur(p: GridPos, goal: GridPos) -> int {
    MOVE_COST_LAND * chebyshev(p, goal)
}

/// Some walk leads from `start` to `p` at a cost of at most `c`.
pub open spec fn within(world: &WorldMap, start: GridPos, p: GridPos, c: int) -> bool {
    exists|w: Seq<GridPos>| #[trigger] is_walk(world, start, p, w) && walk_cost(world, start, w) <= c
}

/// A tile that A* may expand on its way to `goal`: some walk reaches `e` at
/// a cost that, with the estimate from `e`, is no more than the cost of any
/// walk from `start` to `goal`.
pub open spec fn promising(world: &WorldMap, start: GridPos, goal: GridPos, e: GridPos) -> bool {
    exists|we: Seq<GridPos>|
        #[trigger] is_walk(world, start, e, we) && forall|w: Seq<GridPos>| #[trigger]
            is_walk(world, start, goal, w) ==> walk_cost(world, start, we) + heur(e, goal) <= walk_cost(world, start, w)
}

/// More than `MAX_SEARCH_TILES` distinct reachable tiles are `start` or touch
/// a promising tile: the tiles A* may record on its way to `goal`.
pub open spec fn many_promising(world: &WorldMap, start: GridPos, goal: GridPos) -> bool {
    exists|s: Seq<GridPos>|
        s.len() > MAX_SEARCH_TILES && #[trigger] s.no_duplicates() && forall|i: int|
            0 <= i < s.len() ==> reachable(world, start, #[trigger] s[i]) && (s[i] == start || exists|e: GridPos|
                promising(world, start, goal, e) && #[trigger] adjacent(e, s[i]))
}

/// A tile reaches itself by the empty walk.
pub proof fn lemma_reachable_self(world: &WorldMap, start: GridPos)
    ensures
        reachable(world, start, start),
{
    assert(is_walk(world, start, start, Seq::<GridPos>::empty()));
}

/// A walk to `p` followed by one step onto an enterable tile `n` that touches
/// `p` is a walk to `n`.
pub proof fn lemma_walk_extend(world: &WorldMap, start: GridPos, p: GridPos, n: GridPos)
    requires
        reachable(world, start, p),
        adjacent(p, n),
        world.spec_tile_cost(n) is Some,
    ensures
        reachable(world, start, n),
{
    let w = choose|w: Seq<GridPos>| is_walk(world, start, p, w);
    let w2 = w.push(n);
    assert(w2[w2.len() - 1] == n);
    if w.len() == 0 {
        assert(w2[0] == n);
    } else {
        assert(w[w.len() - 1] == p);
        assert(w2[0] == w[0]);
    }
    assert forall|i: int| 0 <= i < w2.len() - 1 implies adjacent(#[trigger] w2[i], w2[i + 1]) by {
        if i < w.len() - 1 {
            assert(w2[i] == w[i]);
            assert(w2[i + 1] == w[i + 1]);
            assert(adjacent(w[i], w[i + 1]));
        } else {
            assert(w2[i] == w[w.len() - 1]);
        }
    }
    assert forall|i: int| 0 <= i < w2.len() implies (#[trigger] world.spec_tile_cost(w2[i])) is Some by {
        if i < w.len() {
            assert(w2[i] == w[i]);
            assert(world.spec_tile_cost(w[i]) is Some);
        }
    }
    assert(is_walk(world, start, n, w2));
}

/// Every enterable tile touching `e` has a recorded cost.
spec fn steps_known(world: &WorldMap, g: Map<u64, u32>, e: GridPos) -> bool {
    forall|n: GridPos| #[trigger] adjacent(e, n) && world.spec_tile_cost(n) is Some ==> g.contains_key(key_of(n))
}

/// Some entry of the frontier is at `p`.
spec fn in_open(open: Seq<Node>, p: GridPos) -> bool {
    exists|i: int| 0 <= i < open.len() && (#[trigger] open[i]).pos == p
}

/// A walk that starts among tiles with a recorded cost, all of whose
/// enterable neighbours have one too, never leaves them.
proof fn lemma_walk_stays(
    world: &WorldMap,
    start: GridPos,
    goal: GridPos,
    path: Seq<GridPos>,
    g: Map<u64, u32>,
    expanded: Set<GridPos>,
)
    requires
        is_walk(world, start, goal, path),
        g.contains_key(key_of(start)),
        forall|p: GridPos| #[trigger] g.contains_key(key_of(p)) ==> expanded.contains(p),
        forall|e: GridPos| #[trigger] expanded.contains(e) ==> steps_known(world, g, e),
    ensures
        g.contains_key(key_of(goal)),
    decreases path.len(),
{
    if path.len() > 0 {
        let prefix = path.drop_last();
        let mid = if path.len() == 1 { start } else { path[path.len() - 2] };
        assert(path[path.len() - 1] == goal);
        if path.len() > 1 {
            assert(adjacent(path[path.len() - 2], path[path.len() - 1]));
            assert(prefix[prefix.len() - 1] == mid);
            assert(prefix[0] == path[0]);
        }
        assert forall|i: int| 0 <= i < prefix.len() - 1 implies adjacent(#[trigger] prefix[i], prefix[i + 1]) by {
            assert(prefix[i] == path[i]);
            assert(prefix[i + 1] == path[i + 1]);
            assert(adjacent(path[i], path[i + 1]));
        }
        assert forall|i: int| 0 <= i < prefix.len() implies (#[trigger] world.spec_tile_cost(prefix[i])) is Some by {
            assert(prefix[i] == path[i]);
            assert(world.spec_tile_cost(path[i]) is Some);
        }
        assert(is_walk(world, start, mid, prefix));
        lemma_walk_stays(world, start, mid, prefix, g, expanded);
        assert(expanded.contains(mid));
        assert(steps_known(world, g, mid));
        assert(adjacent(mid, goal));
        assert(world.spec_tile_cost(path[path.len() - 1]) is Some);
    }
}

/// An entry of the search frontier: a tile and its estimated total cost.
#[derive(Clone, Copy)]
struct Node {
    cost: u32,
    pos: GridPos,
}

/// Sum of the recorded costs of the tiles in `keys`.
spec fn sum_g(keys: Seq<GridPos>, g: Map<u64, u32>) -> int
    decreases keys.len(),
{
    if keys.len() == 0 {
        0
    } else {
        sum_g(keys.drop_last(), g) + g[key_of(keys.last())]
    }
}

proof fn lemma_sum_g_nonneg(keys: Seq<GridPos>, g: Map<u64, u32>)
    ensures
        sum_g(keys, g) >= 0,
    decreases keys.len(),
{
    if keys.len() > 0 {
        lemma_sum_g_nonneg(keys.drop_last(), g);
    }
}

proof fn lemma_sum_g_other(keys: Seq<GridPos>, g: Map<u64, u32>, p: GridPos, v: u32)
    requires
        !keys.contains(p),
    ensures
        sum_g(keys, g.insert(key_of(p), v)) == sum_g(keys, g),
    decreases keys.len(),
{
    if keys.len() > 0 {
        assert(!keys.drop_last().contains(p)) by {
            if keys.drop_last().contains(p) {
                let i = choose|i: int| 0 <= i < keys.drop_last().len() && keys.drop_last()[i] == p;
                assert(keys[i] == p);
            }
        }
        lemma_sum_g_other(keys.drop_last(), g, p, v);
        lemma_key_injective(keys.last(), p);
        assert(keys.last() != p) by {
            assert(keys[keys.len() - 1] == keys.last());
        }
    }
}

proof fn lemma_sum_g_update(keys: Seq<GridPos>, g: Map<u64, u32>, p: GridPos, v: u32)
    requires
        keys.contains(p),
        keys.no_duplicates(),
    ensures
        sum_g(keys, g.insert(key_of(p), v)) == sum_g(keys, g) - g[key_of(p)] + v,
    decreases keys.len(),
{
    let init = keys.drop_last();
    if keys.last() == p {
        assert(!init.contains(p)) by {
            if init.contains(p) {
                let i = choose|i: int| 0 <= i < init.len() && init[i] == p;
                assert(keys[i] == keys[keys.len() - 1]);
            }
        }
        lemma_sum_g_other(init, g, p, v);
    } else {
        assert(init.contains(p)) by {
            let i = choose|i: int| 0 <= i < keys.len() && keys[i] == p;
            assert(i != keys.len() - 1);
            assert(init[i] == p);
        }
        assert(init.no_duplicates()) by {
            assert forall|i: int, j: int| 0 <= i < init.len() && 0 <= j < init.len() && i != j implies init[i] != init[j] by {
                assert(keys[i] != keys[j]);
            }
        }
        lemma_sum_g_update(init, g, p, v);
        lemma_key_injective(keys.last(), p);
    }
}

/// Edge from `q` to `p` in the tree of predecessors: they touch, `p` can be
/// entered, and `q` has a smaller recorded cost.
spec fn edge_ok(world: &WorldMap, q: GridPos, p: GridPos, g: Map<u64, u32>) -> bool {
    &&& adjacent(q, p)
    &&& world.spec_tile_cost(p) is Some
    &&& g.contains_key(key_of(q))
    &&& g[key_of(q)] < g[key_of(p)]
}

/// What holds of the search state between steps.
spec fn search_inv(
    world: &WorldMap,
    start: GridPos,
    open: Seq<Node>,
    came: Map<u64, GridPos>,
    g: Map<u64, u32>,
    keys: Seq<GridPos>,
) -> bool {
    &&& 1 <= keys.len() <= 520
    &&& keys[0] == start
    &&& keys.no_duplicates()
    &&& forall|p: GridPos| #[trigger] g.contains_key(key_of(p)) <==> keys.contains(p)
    &&& forall|p: GridPos| #[trigger] came.contains_key(key_of(p)) <==> (keys.contains(p) && p != start)
    &&& g[key_of(start)] == 0
    &&& came.dom().finite()
    &&& came.len() == keys.len() - 1
    &&& forall|p: GridPos| #[trigger] came.contains_key(key_of(p)) ==> edge_ok(world, came[key_of(p)], p, g)
    &&& forall|i: int|
        0 <= i < keys.len() ==> g[key_of(#[trigger] keys[i])] <= 56 * (keys.len() - 1)
            && chebyshev(keys[i], start) <= keys.len() - 1
    &&& forall|i: int| 0 <= i < open.len() ==> keys.contains(#[trigger] open[i].pos)
}

/// Decreases with every step of the search.
spec fn potential(open_len: int, keys: Seq<GridPos>, g: Map<u64, u32>) -> int {
    open_len + 9 * (sum_g(keys, g) + 29121 * (520 - keys.len()))
}

proof fn lemma_member_bounds(keys: Seq<GridPos>, g: Map<u64, u32>, start: GridPos, p: GridPos)
    requires
        keys.contains(p),
        forall|i: int|
            0 <= i < keys.len() ==> g[key_of(#[trigger] keys[i])] <= 56 * (keys.len() - 1)
                && chebyshev(keys[i], start) <= keys.len() - 1,
    ensures
        g[key_of(p)] <= 56 * (keys.len() - 1),
        chebyshev(p, start) <= keys.len() - 1,
{
    let i = choose|i: int| 0 <= i < keys.len() && keys[i] == p;
    assert(g[key_of(keys[i])] <= 56 * (keys.len() - 1));
}

/// What the search knows of the tiles it has seen: each tile with a
/// recorded cost is reachable and, apart from the tile being expanded
/// (`busy`), waits on the frontier or has been expanded; every expanded
/// tile has all its enterable neighbours recorded; the goal is never
/// expanded.
spec fn explored(
    world: &WorldMap,
    start: GridPos,
    goal: GridPos,
    open: Seq<Node>,
    g: Map<u64, u32>,
    expanded: Set<GridPos>,
    busy: Option<GridPos>,
) -> bool {
    &&& forall|p: GridPos| #[trigger] g.contains_key(key_of(p)) ==> reachable(world, start, p) && (busy == Some(p)
        || in_open(open, p) || expanded.contains(p))
    &&& forall|e: GridPos| #[trigger] expanded.contains(e) ==> steps_known(world, g, e)
    &&& !expanded.contains(goal)
}

proof fn lemma_explored_start(world: &WorldMap, start: GridPos, goal: GridPos, open: Seq<Node>, g: Map<u64, u32>)
    requires
        open.len() == 1,
        open[0].pos == start,
        forall|p: GridPos| #[trigger] g.contains_key(key_of(p)) ==> p == start,
    ensures
        explored(world, start, goal, open, g, Set::empty(), None),
{
    lemma_reachable_self(world, start);
    assert(in_open(open, start)) by {
        assert(open[0].pos == start);
    }
}

/// Taking the entry at `best` off the frontier leaves every other recorded
/// tile where it was.
proof fn lemma_explored_pop(
    world: &WorldMap,
    start: GridPos,
    goal: GridPos,
    before: Seq<Node>,
    best: int,
    g: Map<u64, u32>,
    expanded: Set<GridPos>,
)
    requires
        explored(world, start, goal, before, g, expanded, None),
        0 <= best < before.len(),
    ensures
        explored(world, start, goal, before.update(best, before.last()).drop_last(), g, expanded, Some(before[best].pos)),
{
    let after = before.update(best, before.last()).drop_last();
    let current = before[best].pos;
    assert forall|p: GridPos| #[trigger] g.contains_key(key_of(p)) && p != current && in_open(before, p) implies in_open(
        after,
        p,
    ) by {
        let i = choose|i: int| 0 <= i < before.len() && (#[trigger] before[i]).pos == p;
        if i == before.len() - 1 {
            assert(after[best].pos == p);
        } else {
            assert(i != best);
            assert(after[i] == before[i]);
        }
    }
}

/// Recording a reachable neighbour `n` of the tile being expanded, and
/// putting it on the frontier, keeps what the search knows.
proof fn lemma_explored_visit(
    world: &WorldMap,
    start: GridPos,
    goal: GridPos,
    open: Seq<Node>,
    g: Map<u64, u32>,
    expanded: Set<GridPos>,
    current: GridPos,
    n: GridPos,
    v: u32,
    node: Node,
)
    requires
        explored(world, start, goal, open, g, expanded, Some(current)),
        g.contains_key(key_of(current)),
        adjacent(current, n),
        world.spec_tile_cost(n) is Some,
        node.pos == n,
    ensures
        explored(world, start, goal, open.push(node), g.insert(key_of(n), v), expanded, Some(current)),
{
    let g2 = g.insert(key_of(n), v);
    let open2 = open.push(node);
    lemma_walk_extend(world, start, current, n);
    assert(in_open(open2, n)) by {
        assert(open2[open.len() as int].pos == n);
    }
    assert forall|p: GridPos| #[trigger] g2.contains_key(key_of(p)) implies reachable(world, start, p) && (Some(current)
        == Some(p) || in_open(open2, p) || expanded.contains(p)) by {
        lemma_key_injective(p, n);
        if p != n {
            assert(g.contains_key(key_of(p)));
            if in_open(open, p) {
                let i = choose|i: int| 0 <= i < open.len() && (#[trigger] open[i]).pos == p;
                assert(open2[i] == open[i]);
            }
        }
    }
    assert forall|e: GridPos| #[trigger] expanded.contains(e) implies steps_known(world, g2, e) by {
        assert(steps_known(world, g, e));
        assert forall|m: GridPos| #[trigger] adjacent(e, m) && world.spec_tile_cost(m) is Some implies g2.contains_key(
            key_of(m),
        ) by {
            assert(g.contains_key(key_of(m)));
        }
    }
}

/// Once all neighbours of `current` are recorded, it counts as expanded.
proof fn lemma_explored_expand(
    world: &WorldMap,
    start: GridPos,
    goal: GridPos,
    open: Seq<Node>,
    g: Map<u64, u32>,
    expanded: Set<GridPos>,
    current: GridPos,
)
    requires
        explored(world, start, goal, open, g, expanded, Some(current)),
        i32::MIN + 1 <= current.x <= i32::MAX - 1,
        i32::MIN + 1 <= current.y <= i32::MAX - 1,
        forall|j: int| 0 <= j < 8 ==> (world.spec_tile_cost(#[trigger] step_to(current, j)) is Some ==> g.contains_key(
            key_of(step_to(current, j)),
        )),
        current != goal,
    ensures
        explored(world, start, goal, open, g, expanded.insert(current), None),
{
    assert(steps_known(world, g, current)) by {
        assert forall|n: GridPos| #[trigger] adjacent(current, n) && world.spec_tile_cost(n) is Some implies g.contains_key(
            key_of(n),
        ) by {
            let dx = n.x - current.x;
            let dy = n.y - current.y;
            let j: int = if dx == 1 && dy == 0 {
                0
            } else if dx == -1 && dy == 0 {
                1
            } else if dx == 0 && dy == 1 {
                2
            } else if dx == 0 && dy == -1 {
                3
            } else if dx == 1 && dy == 1 {
                4
            } else if dx == -1 && dy == 1 {
                5
            } else if dx == 1 && dy == -1 {
                6
            } else {
                7
            };
            assert(step_to(current, j) == n);
        }
    }
}

/// When the frontier runs out, no walk leads to the goal.
proof fn lemma_explored_exhausted(
    world: &WorldMap,
    start: GridPos,
    goal: GridPos,
    g: Map<u64, u32>,
    expanded: Set<GridPos>,
)
    requires
        explored(world, start, goal, Seq::empty(), g, expanded, None),
        g.contains_key(key_of(start)),
    ensures
        !reachable(world, start, goal),
{
    if reachable(world, start, goal) {
        let path = choose|path: Seq<GridPos>| is_walk(world, start, goal, path);
        assert forall|p: GridPos| #[trigger] g.contains_key(key_of(p)) implies expanded.contains(p) by {
            assert(!in_open(Seq::<Node>::empty(), p));
        }
        lemma_walk_stays(world, start, goal, path, g, expanded);
    }
}

/// Some entry of the frontier at `p` has a cost of at most `bound`.
spec fn in_open_le(open: Seq<Node>, p: GridPos, bound: int) -> bool {
    exists|i: int| 0 <= i < open.len() && (#[trigger] open[i]).pos == p && open[i].cost <= bound
}

/// Every enterable neighbour `n` of `e` is recorded at a cost of at most
/// `bound` plus the step onto `n`.
spec fn neighbors_bounded(world: &WorldMap, g: Map<u64, u32>, e: GridPos, bound: int) -> bool {
    forall|n: GridPos| #[trigger] adjacent(e, n) && world.spec_tile_cost(n) is Some ==> g.contains_key(key_of(n))
        && g[key_of(n)] <= bound + step_cost(world, e, n)
}

/// What the search knows of costs: each recorded tile, apart from the one
/// being expanded, waits on the frontier at no more than its cost plus its
/// estimate, or was last expanded at its present cost (`exp_g`); an expanded
/// tile's neighbours cost no more than a step beyond it; an entry of the
/// frontier other than the start costs at least its tile's cost plus its
/// estimate; and a tile costs at least its predecessor plus the step.
spec fn costs_inv(
    world: &WorldMap,
    start: GridPos,
    goal: GridPos,
    open: Seq<Node>,
    came: Map<u64, GridPos>,
    g: Map<u64, u32>,
    expanded: Set<GridPos>,
    exp_g: Map<GridPos, int>,
    busy: Option<GridPos>,
) -> bool {
    &&& forall|p: GridPos| #[trigger] g.contains_key(key_of(p)) ==> busy == Some(p) || in_open_le(
        open,
        p,
        g[key_of(p)] + heur(p, goal),
    ) || (expanded.contains(p) && exp_g[p] == g[key_of(p)])
    &&& forall|e: GridPos| #[trigger] expanded.contains(e) ==> neighbors_bounded(world, g, e, exp_g[e])
    &&& forall|i: int|
        0 <= i < open.len() ==> (#[trigger] open[i]).pos == start || open[i].cost >= g[key_of(open[i].pos)] + heur(
            open[i].pos,
            goal,
        )
    &&& forall|p: GridPos| #[trigger] came.contains_key(key_of(p)) ==> g[key_of(came[key_of(p)])] + step_cost(
        world,
        came[key_of(p)],
        p,
    ) <= g[key_of(p)]
}

proof fn lemma_costs_start(
    world: &WorldMap,
    start: GridPos,
    goal: GridPos,
    open: Seq<Node>,
    came: Map<u64, GridPos>,
    g: Map<u64, u32>,
)
    requires
        open.len() == 1,
        open[0].pos == start,
        open[0].cost == 0,
        forall|p: GridPos| #[trigger] g.contains_key(key_of(p)) ==> p == start,
        g[key_of(start)] == 0,
        came.dom() == Set::<u64>::empty(),
    ensures
        costs_inv(world, start, goal, open, came, g, Set::empty(), Map::empty(), None),
{
    assert(in_open_le(open, start, g[key_of(start)] + heur(start, goal))) by {
        assert(open[0].pos == start);
    }
}

/// Taking the entry at `best` off the frontier keeps what is known of costs.
proof fn lemma_costs_pop(
    world: &WorldMap,
    start: GridPos,
    goal: GridPos,
    before: Seq<Node>,
    best: int,
    came: Map<u64, GridPos>,
    g: Map<u64, u32>,
    expanded: Set<GridPos>,
    exp_g: Map<GridPos, int>,
)
    requires
        costs_inv(world, start, goal, before, came, g, expanded, exp_g, None),
        0 <= best < before.len(),
    ensures
        costs_inv(
            world,
            start,
            goal,
            before.update(best, before.last()).drop_last(),
            came,
            g,
            expanded,
            exp_g,
            Some(before[best].pos),
        ),
{
    let after = before.update(best, before.last()).drop_last();
    let current = before[best].pos;
    assert forall|p: GridPos| #[trigger] g.contains_key(key_of(p)) && p != current && in_open_le(
        before,
        p,
        g[key_of(p)] + heur(p, goal),
    ) implies in_open_le(after, p, g[key_of(p)] + heur(p, goal)) by {
        let i = choose|i: int| 0 <= i < before.len() && (#[trigger] before[i]).pos == p && before[i].cost <= g[key_of(p)]
            + heur(p, goal);
        if i == before.len() - 1 {
            assert(after[best] == before[i]);
        } else {
            assert(i != best);
            assert(after[i] == before[i]);
        }
    }
    assert forall|i: int| 0 <= i < after.len() implies (#[trigger] after[i]).pos == start || after[i].cost >= g[key_of(
        after[i].pos,
    )] + heur(after[i].pos, goal) by {
        if i == best {
            assert(after[i] == before[before.len() - 1]);
        } else {
            assert(after[i] == before[i]);
        }
    }
}

/// Recording a cheaper cost `t` for the neighbour `n` of the tile being
/// expanded, with `current` as its predecessor, and putting it on the
/// frontier keeps what is known of costs.
proof fn lemma_costs_visit(
    world: &WorldMap,
    start: GridPos,
    goal: GridPos,
    open: Seq<Node>,
    came: Map<u64, GridPos>,
    g: Map<u64, u32>,
    expanded: Set<GridPos>,
    exp_g: Map<GridPos, int>,
    current: GridPos,
    n: GridPos,
    t: u32,
    node: Node,
)
    requires
        costs_inv(world, start, goal, open, came, g, expanded, exp_g, Some(current)),
        forall|i: int| 0 <= i < open.len() ==> g.contains_key(key_of((#[trigger] open[i]).pos)),
        forall|p: GridPos| #[trigger] came.contains_key(key_of(p)) ==> g.contains_key(key_of(came[key_of(p)])),
        g.contains_key(key_of(current)),
        adjacent(current, n),
        world.spec_tile_cost(n) is Some,
        t == g[key_of(current)] + step_cost(world, current, n),
        g.contains_key(key_of(n)) ==> t < g[key_of(n)],
        node.pos == n,
        node.cost == t + heur(n, goal),
    ensures
        costs_inv(
            world,
            start,
            goal,
            open.push(node),
            came.insert(key_of(n), current),
            g.insert(key_of(n), t),
            expanded,
            exp_g,
            Some(current),
        ),
{
    let g2 = g.insert(key_of(n), t);
    let open2 = open.push(node);
    let came2 = came.insert(key_of(n), current);
    assert forall|x: GridPos| #[trigger] g.contains_key(key_of(x)) implies g2[key_of(x)] <= g[key_of(x)] by {
        lemma_key_injective(x, n);
    }
    lemma_key_injective(current, n);
    assert forall|p: GridPos| #[trigger] g2.contains_key(key_of(p)) implies Some(current) == Some(p) || in_open_le(
        open2,
        p,
        g2[key_of(p)] + heur(p, goal),
    ) || (expanded.contains(p) && exp_g[p] == g2[key_of(p)]) by {
        lemma_key_injective(p, n);
        if p == n {
            assert(open2[open.len() as int] == node);
        } else if p != current {
            assert(g.contains_key(key_of(p)));
            if in_open_le(open, p, g[key_of(p)] + heur(p, goal)) {
                let i = choose|i: int| 0 <= i < open.len() && (#[trigger] open[i]).pos == p && open[i].cost <= g[key_of(p)]
                    + heur(p, goal);
                assert(open2[i] == open[i]);
            }
        }
    }
    assert forall|e: GridPos| #[trigger] expanded.contains(e) implies neighbors_bounded(world, g2, e, exp_g[e]) by {
        assert(neighbors_bounded(world, g, e, exp_g[e]));
        assert forall|m: GridPos| #[trigger] adjacent(e, m) && world.spec_tile_cost(m) is Some implies g2.contains_key(
            key_of(m),
        ) && g2[key_of(m)] <= exp_g[e] + step_cost(world, e, m) by {
            assert(g.contains_key(key_of(m)));
        }
    }
    assert forall|i: int| 0 <= i < open2.len() implies (#[trigger] open2[i]).pos == start || open2[i].cost >= g2[key_of(
        open2[i].pos,
    )] + heur(open2[i].pos, goal) by {
        if i < open.len() {
            assert(open2[i] == open[i]);
            assert(g.contains_key(key_of(open[i].pos)));
        }
    }
    assert forall|p: GridPos| #[trigger] came2.contains_key(key_of(p)) implies g2[key_of(came2[key_of(p)])] + step_cost(
        world,
        came2[key_of(p)],
        p,
    ) <= g2[key_of(p)] by {
        lemma_key_injective(p, n);
        if p != n {
            let q = came[key_of(p)];
            assert(g.contains_key(key_of(q)));
            assert(g2[key_of(q)] <= g[key_of(q)]);
        }
    }
}

/// Once all neighbours of `current` are recorded at no more than a step
/// beyond its cost, it counts as expanded at that cost.
proof fn lemma_costs_expand(
    world: &WorldMap,
    start: GridPos,
    goal: GridPos,
    open: Seq<Node>,
    came: Map<u64, GridPos>,
    g: Map<u64, u32>,
    expanded: Set<GridPos>,
    exp_g: Map<GridPos, int>,
    current: GridPos,
    cur_g: u32,
)
    requires
        costs_inv(world, start, goal, open, came, g, expanded, exp_g, Some(current)),
        g.contains_key(key_of(current)),
        g[key_of(current)] == cur_g,
        i32::MIN + 1 <= current.x <= i32::MAX - 1,
        i32::MIN + 1 <= current.y <= i32::MAX - 1,
        forall|j: int| 0 <= j < 8 ==> (world.spec_tile_cost(#[trigger] step_to(current, j)) is Some ==> g.contains_key(
            key_of(step_to(current, j)),
        ) && g[key_of(step_to(current, j))] <= cur_g + step_cost(world, current, step_to(current, j))),
    ensures
        costs_inv(world, start, goal, open, came, g, expanded.insert(current), exp_g.insert(current, cur_g as int), None),
{
    let exp2 = expanded.insert(current);
    let eg2 = exp_g.insert(current, cur_g as int);
    assert(neighbors_bounded(world, g, current, cur_g as int)) by {
        assert forall|n: GridPos| #[trigger] adjacent(current, n) && world.spec_tile_cost(n) is Some implies g.contains_key(
            key_of(n),
        ) && g[key_of(n)] <= cur_g + step_cost(world, current, n) by {
            let dx = n.x - current.x;
            let dy = n.y - current.y;
            let j: int = if dx == 1 && dy == 0 {
                0
            } else if dx == -1 && dy == 0 {
                1
            } else if dx == 0 && dy == 1 {
                2
            } else if dx == 0 && dy == -1 {
                3
            } else if dx == 1 && dy == 1 {
                4
            } else if dx == -1 && dy == 1 {
                5
            } else if dx == 1 && dy == -1 {
                6
            } else {
                7
            };
            assert(step_to(current, j) == n);
        }
    }
    assert forall|e: GridPos| #[trigger] exp2.contains(e) implies neighbors_bounded(world, g, e, eg2[e]) by {
        if e != current {
            assert(expanded.contains(e));
        }
    }
}

/// The tile a walk from `start` stands on after `i` steps.
spec fn node_at(start: GridPos, w: Seq<GridPos>, i: int) -> GridPos {
    if i == 0 {
        start
    } else {
        w[i - 1]
    }
}

proof fn lemma_walk_cost_step(world: &WorldMap, start: GridPos, w: Seq<GridPos>, i: int)
    requires
        0 <= i < w.len(),
    ensures
        walk_cost(world, start, w.take(i + 1)) == walk_cost(world, start, w.take(i)) + step_cost(
            world,
            node_at(start, w, i),
            node_at(start, w, i + 1),
        ),
{
    let q = w.take(i + 1);
    assert(q.drop_last() =~= w.take(i));
    assert(q.last() == w[i]);
    if i > 0 {
        assert(q[q.len() - 2] == w[i - 1]);
    }
}

proof fn lemma_walk_cost_nonneg(world: &WorldMap, start: GridPos, w: Seq<GridPos>)
    ensures
        walk_cost(world, start, w) >= 0,
    decreases w.len(),
{
    if w.len() > 0 {
        lemma_walk_cost_nonneg(world, start, w.drop_last());
    }
}

/// The estimate never drops by more than the cost of a step.
proof fn lemma_heur_consistent(world: &WorldMap, a: GridPos, b: GridPos, goal: GridPos)
    requires
        adjacent(a, b),
        world.spec_tile_cost(b) is Some,
    ensures
        heur(a, goal) <= step_cost(world, a, b) + heur(b, goal),
{
    assert(world.spec_tile_cost(b).unwrap() >= MOVE_COST_LAND);
    assert(chebyshev(a, goal) <= chebyshev(b, goal) + 1);
}

/// Along a walk to the goal, what was spent plus what is estimated never
/// exceeds the cost of the whole walk.
proof fn lemma_consistent_tail(world: &WorldMap, start: GridPos, goal: GridPos, w: Seq<GridPos>, j: int)
    requires
        is_walk(world, start, goal, w),
        0 <= j <= w.len(),
    ensures
        walk_cost(world, start, w.take(j)) + heur(node_at(start, w, j), goal) <= walk_cost(world, start, w),
    decreases w.len() - j,
{
    if j == w.len() {
        assert(w.take(j) =~= w);
        if w.len() > 0 {
            assert(w[w.len() - 1] == goal);
        }
        assert(chebyshev(goal, goal) == 0);
    } else {
        lemma_consistent_tail(world, start, goal, w, j + 1);
        lemma_walk_cost_step(world, start, w, j);
        if j > 0 {
            assert(adjacent(w[j - 1], w[j]));
        }
        assert(world.spec_tile_cost(w[j]) is Some);
        lemma_heur_consistent(world, node_at(start, w, j), node_at(start, w, j + 1), goal);
    }
}

/// Along a walk from the start, the first tile that was not expanded at no
/// more than the walk's cost so far waits on the frontier at no more than
/// that cost plus its estimate.
proof fn lemma_gap(
    world: &WorldMap,
    start: GridPos,
    goal: GridPos,
    w: Seq<GridPos>,
    i: int,
    open: Seq<Node>,
    came: Map<u64, GridPos>,
    g: Map<u64, u32>,
    expanded: Set<GridPos>,
    exp_g: Map<GridPos, int>,
) -> (j: int)
    requires
        costs_inv(world, start, goal, open, came, g, expanded, exp_g, None),
        g.contains_key(key_of(start)),
        g[key_of(start)] == 0,
        is_walk(world, start, goal, w),
        0 <= i <= w.len(),
    ensures
        (0 <= j <= i && in_open_le(open, node_at(start, w, j), walk_cost(world, start, w.take(j)) + heur(
            node_at(start, w, j),
            goal,
        ))) || (j == -1 && expanded.contains(node_at(start, w, i)) && exp_g[node_at(start, w, i)] <= walk_cost(
            world,
            start,
            w.take(i),
        )),
    decreases i,
{
    if i == 0 {
        assert(w.take(0) =~= Seq::<GridPos>::empty());
        if in_open_le(open, start, g[key_of(start)] + heur(start, goal)) {
            0
        } else {
            -1
        }
    } else {
        let j0 = lemma_gap(world, start, goal, w, i - 1, open, came, g, expanded, exp_g);
        if j0 >= 0 {
            j0
        } else {
            let a = node_at(start, w, i - 1);
            let b = node_at(start, w, i);
            lemma_walk_cost_step(world, start, w, i - 1);
            if i > 1 {
                assert(adjacent(w[i - 2], w[i - 1]));
            }
            assert(adjacent(a, b));
            assert(world.spec_tile_cost(w[i - 1]) is Some);
            assert(neighbors_bounded(world, g, a, exp_g[a]));
            assert(g.contains_key(key_of(b)));
            let bound = walk_cost(world, start, w.take(i)) + heur(b, goal);
            if in_open_le(open, b, g[key_of(b)] + heur(b, goal)) {
                let k = choose|k: int| 0 <= k < open.len() && (#[trigger] open[k]).pos == b && open[k].cost <= g[key_of(b)]
                    + heur(b, goal);
                assert(open[k].cost <= bound);
                assert(in_open_le(open, b, bound));
                i
            } else {
                -1
            }
        }
    }
}

/// The frontier entry of least cost costs no more than any walk from the
/// start to the goal, while the goal has not been expanded.
proof fn lemma_pop_bound(
    world: &WorldMap,
    start: GridPos,
    goal: GridPos,
    open: Seq<Node>,
    best: int,
    came: Map<u64, GridPos>,
    g: Map<u64, u32>,
    expanded: Set<GridPos>,
    exp_g: Map<GridPos, int>,
    w: Seq<GridPos>,
)
    requires
        costs_inv(world, start, goal, open, came, g, expanded, exp_g, None),
        g.contains_key(key_of(start)),
        g[key_of(start)] == 0,
        !expanded.contains(goal),
        is_walk(world, start, goal, w),
        0 <= best < open.len(),
        forall|i: int| 0 <= i < open.len() ==> open[best].cost <= (#[trigger] open[i]).cost,
    ensures
        open[best].cost <= walk_cost(world, start, w),
{
    let j = lemma_gap(world, start, goal, w, w.len() as int, open, came, g, expanded, exp_g);
    if w.len() > 0 {
        assert(w[w.len() - 1] == goal);
    }
    assert(node_at(start, w, w.len() as int) == goal);
    assert(j >= 0);
    let b = node_at(start, w, j);
    let k = choose|k: int| 0 <= k < open.len() && (#[trigger] open[k]).pos == b && open[k].cost <= walk_cost(
        world,
        start,
        w.take(j),
    ) + heur(b, goal);
    assert(open[best].cost <= open[k].cost);
    lemma_consistent_tail(world, start, goal, w, j);
}

/// Walking one more step from the end of a walk adds the cost of the step.
proof fn lemma_walk_cost_push(world: &WorldMap, start: GridPos, p: GridPos, w: Seq<GridPos>, n: GridPos)
    requires
        is_walk(world, start, p, w),
    ensures
        walk_cost(world, start, w.push(n)) == walk_cost(world, start, w) + step_cost(world, p, n),
{
    let q = w.push(n);
    assert(q.drop_last() =~= w);
    if w.len() > 0 {
        assert(q[q.len() - 2] == w[w.len() - 1]);
    }
}

/// What the search knows of where its tiles come from: each recorded tile is
/// reached by a walk that costs no more than its recorded cost; every
/// expanded tile is promising; and each predecessor has been expanded, or is
/// the tile being expanded.
spec fn promise_inv(
    world: &WorldMap,
    start: GridPos,
    goal: GridPos,
    came: Map<u64, GridPos>,
    g: Map<u64, u32>,
    expanded: Set<GridPos>,
    busy: Option<GridPos>,
) -> bool {
    &&& forall|p: GridPos| #[trigger] g.contains_key(key_of(p)) ==> within(world, start, p, g[key_of(p)] as int)
    &&& forall|e: GridPos| #[trigger] expanded.contains(e) ==> promising(world, start, goal, e)
    &&& forall|p: GridPos| #[trigger] came.contains_key(key_of(p)) ==> expanded.contains(came[key_of(p)]) || busy == Some(
        came[key_of(p)],
    )
}

proof fn lemma_promise_start(world: &WorldMap, start: GridPos, goal: GridPos, came: Map<u64, GridPos>, g: Map<u64, u32>)
    requires
        forall|p: GridPos| #[trigger] g.contains_key(key_of(p)) ==> p == start,
        g[key_of(start)] == 0,
        came.dom() == Set::<u64>::empty(),
    ensures
        promise_inv(world, start, goal, came, g, Set::empty(), None),
{
    assert(is_walk(world, start, start, Seq::<GridPos>::empty()));
    assert(walk_cost(world, start, Seq::<GridPos>::empty()) == 0);
    assert forall|p: GridPos| #[trigger] came.contains_key(key_of(p)) implies false by {
        assert(came.dom().contains(key_of(p)));
    }
}

/// The tile taken off the frontier, when it is not the goal, is promising.
proof fn lemma_promise_pop(
    world: &WorldMap,
    start: GridPos,
    goal: GridPos,
    open: Seq<Node>,
    best: int,
    came: Map<u64, GridPos>,
    g: Map<u64, u32>,
    expanded: Set<GridPos>,
    exp_g: Map<GridPos, int>,
)
    requires
        promise_inv(world, start, goal, came, g, expanded, None),
        costs_inv(world, start, goal, open, came, g, expanded, exp_g, None),
        g.contains_key(key_of(start)),
        g[key_of(start)] == 0,
        !expanded.contains(goal),
        0 <= best < open.len(),
        forall|i: int| 0 <= i < open.len() ==> open[best].cost <= (#[trigger] open[i]).cost,
        g.contains_key(key_of(open[best].pos)),
    ensures
        promising(world, start, goal, open[best].pos),
{
    let current = open[best].pos;
    if current == start {
        let we = Seq::<GridPos>::empty();
        assert(is_walk(world, start, start, we));
        assert forall|w: Seq<GridPos>| #[trigger] is_walk(world, start, goal, w) implies walk_cost(world, start, we) + heur(
            start,
            goal,
        ) <= walk_cost(world, start, w) by {
            lemma_consistent_tail(world, start, goal, w, 0);
            assert(w.take(0) =~= Seq::<GridPos>::empty());
        }
    } else {
        assert(within(world, start, current, g[key_of(current)] as int));
        let we = choose|we: Seq<GridPos>| #[trigger] is_walk(world, start, current, we) && walk_cost(world, start, we)
            <= g[key_of(current)];
        assert(open[best].cost >= g[key_of(current)] + heur(current, goal));
        assert forall|w: Seq<GridPos>| #[trigger] is_walk(world, start, goal, w) implies walk_cost(world, start, we) + heur(
            current,
            goal,
        ) <= walk_cost(world, start, w) by {
            lemma_pop_bound(world, start, goal, open, best, came, g, expanded, exp_g, w);
        }
        assert(is_walk(world, start, current, we));
    }
}

/// Recording the cost `t` of a step from the tile being expanded onto `n`,
/// with that tile as predecessor, keeps what is known of where tiles come
/// from.
proof fn lemma_promise_visit(
    world: &WorldMap,
    start: GridPos,
    goal: GridPos,
    came: Map<u64, GridPos>,
    g: Map<u64, u32>,
    expanded: Set<GridPos>,
    current: GridPos,
    n: GridPos,
    t: u32,
)
    requires
        promise_inv(world, start, goal, came, g, expanded, Some(current)),
        g.contains_key(key_of(current)),
        adjacent(current, n),
        world.spec_tile_cost(n) is Some,
        t == g[key_of(current)] + step_cost(world, current, n),
    ensures
        promise_inv(world, start, goal, came.insert(key_of(n), current), g.insert(key_of(n), t), expanded, Some(current)),
{
    let g2 = g.insert(key_of(n), t);
    let came2 = came.insert(key_of(n), current);
    assert(within(world, start, n, t as int)) by {
        assert(within(world, start, current, g[key_of(current)] as int));
        let wc = choose|wc: Seq<GridPos>| #[trigger] is_walk(world, start, current, wc) && walk_cost(world, start, wc)
            <= g[key_of(current)];
        let wn = wc.push(n);
        lemma_walk_cost_push(world, start, current, wc, n);
        assert(wn[wn.len() - 1] == n);
        if wc.len() == 0 {
            assert(wn[0] == n);
        } else {
            assert(wc[wc.len() - 1] == current);
            assert(wn[0] == wc[0]);
        }
        assert forall|i: int| 0 <= i < wn.len() - 1 implies adjacent(#[trigger] wn[i], wn[i + 1]) by {
            if i < wc.len() - 1 {
                assert(wn[i] == wc[i]);
                assert(wn[i + 1] == wc[i + 1]);
                assert(adjacent(wc[i], wc[i + 1]));
            } else {
                assert(wn[i] == wc[wc.len() - 1]);
            }
        }
        assert forall|i: int| 0 <= i < wn.len() implies (#[trigger] world.spec_tile_cost(wn[i])) is Some by {
            if i < wc.len() {
                assert(wn[i] == wc[i]);
                assert(world.spec_tile_cost(wc[i]) is Some);
            }
        }
        assert(is_walk(world, start, n, wn));
    }
    assert forall|p: GridPos| #[trigger] g2.contains_key(key_of(p)) implies within(world, start, p, g2[key_of(p)] as int) by {
        lemma_key_injective(p, n);
        if p != n {
            assert(g.contains_key(key_of(p)));
        }
    }
    assert forall|p: GridPos| #[trigger] came2.contains_key(key_of(p)) implies expanded.contains(came2[key_of(p)])
        || Some(current) == Some(came2[key_of(p)]) by {
        lemma_key_injective(p, n);
        if p != n {
            assert(came.contains_key(key_of(p)));
        }
    }
}

/// Once the tile being expanded is promising, it counts as expanded.
proof fn lemma_promise_expand(
    world: &WorldMap,
    start: GridPos,
    goal: GridPos,
    came: Map<u64, GridPos>,
    g: Map<u64, u32>,
    expanded: Set<GridPos>,
    current: GridPos,
)
    requires
        promise_inv(world, start, goal, came, g, expanded, Some(current)),
        promising(world, start, goal, current),
    ensures
        promise_inv(world, start, goal, came, g, expanded.insert(current), None),
{
    assert forall|p: GridPos| #[trigger] came.contains_key(key_of(p)) implies expanded.insert(current).contains(
        came[key_of(p)],
    ) by {
        if came[key_of(p)] != current {
            assert(expanded.contains(came[key_of(p)]));
        }
    }
}

/// A search that recorded more than `MAX_SEARCH_TILES` tiles has found that
/// many reachable tiles, each the start or next to a promising tile.
proof fn lemma_promise_many(
    world: &WorldMap,
    start: GridPos,
    goal: GridPos,
    open: Seq<Node>,
    came: Map<u64, GridPos>,
    g: Map<u64, u32>,
    keys: Seq<GridPos>,
    expanded: Set<GridPos>,
    current: GridPos,
)
    requires
        search_inv(world, start, open, came, g, keys),
        promise_inv(world, start, goal, came, g, expanded, Some(current)),
        promising(world, start, goal, current),
        came.len() >= MAX_SEARCH_TILES,
    ensures
        many_promising(world, start, goal),
{
    assert forall|i: int| 0 <= i < keys.len() implies reachable(world, start, #[trigger] keys[i]) && (keys[i] == start
        || exists|e: GridPos| promising(world, start, goal, e) && #[trigger] adjacent(e, keys[i])) by {
        let p = keys[i];
        assert(keys.contains(p));
        assert(g.contains_key(key_of(p)));
        assert(within(world, start, p, g[key_of(p)] as int));
        let w = choose|w: Seq<GridPos>| #[trigger] is_walk(world, start, p, w) && walk_cost(world, start, w) <= g[key_of(p)];
        assert(is_walk(world, start, p, w));
        if p != start {
            assert(came.contains_key(key_of(p)));
            let e = came[key_of(p)];
            assert(edge_ok(world, e, p, g));
            assert(promising(world, start, goal, e));
            assert(adjacent(e, p));
        }
    }
    assert(keys.no_duplicates());
}

/// Rebuilds the walk to `goal` by following predecessors back to `start`.
fn reconstruct_path(
    Ghost(world): Ghost<&WorldMap>,
    start: GridPos,
    goal: GridPos,
    came_from: &HashMapWithView<u64, GridPos>,
    Ghost(open): Ghost<Seq<Node>>,
    g_score: &HashMapWithView<u64, u32>,
    Ghost(keys): Ghost<Seq<GridPos>>,
) -> (path: VecDeque<GridPos>)
    requires
        search_inv(world, start, open, came_from@, g_score@, keys),
        keys.contains(goal),
        forall|p: GridPos| #[trigger] came_from@.contains_key(key_of(p)) ==> g_score@[key_of(came_from@[key_of(p)])]
            + step_cost(world, came_from@[key_of(p)], p) <= g_score@[key_of(p)],
    ensures
        is_walk(world, start, goal, path@),
        goal == start ==> path@.len() == 0,
        walk_cost(world, start, path@) <= g_score@[key_of(goal)],
{
    let mut path: VecDeque<GridPos> = VecDeque::new();
    let mut cursor = goal;
    assert(g_score@.contains_key(key_of(cursor)));
    while cursor != start
        invariant
            search_inv(world, start, open, came_from@, g_score@, keys),
            keys.contains(cursor),
            is_walk(world, cursor, goal, path@),
            goal == start ==> path@.len() == 0,
            forall|p: GridPos| #[trigger] came_from@.contains_key(key_of(p)) ==> g_score@[key_of(came_from@[key_of(p)])]
                + step_cost(world, came_from@[key_of(p)], p) <= g_score@[key_of(p)],
            walk_cost(world, cursor, path@) + g_score@[key_of(cursor)] <= g_score@[key_of(goal)],
        decreases g_score@[key_of(cursor)],
    {
        assert(came_from@.contains_key(key_of(cursor)));
        assert(edge_ok(world, came_from@[key_of(cursor)], cursor, g_score@));
        let k = grid_key(cursor);
        let prev = match came_from.get(&k) {
            Some(q) => *q,
            None => {
                assert(false);
                start
            },
        };
        let ghost old_path = path@;
        path.push_front(cursor);
        proof {
            let new_path = path@;
            assert(new_path =~= seq![cursor] + old_path);
            assert forall|i: int| 0 <= i < new_path.len() - 1 implies adjacent(#[trigger] new_path[i], new_path[i + 1]) by {
                if i > 0 {
                    assert(new_path[i] == old_path[i - 1]);
                    assert(new_path[i + 1] == old_path[i]);
                }
            }
            assert forall|i: int| 0 <= i < new_path.len() implies (#[trigger] world.spec_tile_cost(new_path[i])) is Some by {
                if i > 0 {
                    assert(new_path[i] == old_path[i - 1]);
                }
            }
            assert(g_score@.contains_key(key_of(prev)));
            lemma_walk_cost_cons(world, prev, cursor, old_path);
        }
        cursor = prev;
    }
    proof {
        assert(g_score@[key_of(start)] == 0);
    }
    path
}

/// Bounds under which a search from `start` towards another tile `goal`
/// stays within machine arithmetic. The search records at most
/// `MAX_SEARCH_TILES` tiles, each fewer than `MAX_SEARCH_TILES` steps from
/// `start`, and looks one step beyond each tile it expands, so a tile it
/// touches lies at most `MAX_SEARCH_TILES` steps from `start`:
/// - `MAX_SEARCH_TILES` tiles of room above `start` keep the neighbour
///   coordinate `current + 1` within `i32`;
/// - that room plus 15 below `start` keeps `tile + 1 - CHUNK_SIZE`, taken to
///   find a tile's chunk, within `i32`;
/// - the estimate of any such tile (`MOVE_COST_LAND` per step of Chebyshev
///   distance to `goal`), added to the largest cost the search can record
///   (56 per step), stays within `u32`.
pub open spec fn search_bounds(start: GridPos, goal: GridPos) -> bool {
    &&& i32::MIN + 15 + 512 <= start.x <= i32::MAX - 512
    &&& i32::MIN + 15 + 512 <= start.y <= i32::MAX - 512
    &&& MOVE_COST_LAND * (chebyshev(start, goal) + 512) + 56 * 512 <= u32::MAX
}

/// Finds a cheapest walk from `start` to `goal` over enterable tiles with
/// A*, moving to any of the eight neighbouring tiles; diagonal steps cost 1.4
/// times the cost of the tile entered. Gives `None` when the frontier runs
/// out, so that no walk exists, or when `MAX_SEARCH_TILES` tiles have a
/// predecessor before the goal is reached, which needs more than that many
/// reachable tiles, each `start` or next to a tile whose cost from `start`
/// plus its estimate is within the cost of every walk to `goal`. The
/// returned walk leaves out `start` and ends at `goal`. No bounds are needed
/// when `start` is `goal`.
#[verifier::spinoff_prover]
#[verifier::rlimit(40)]
pub fn astar(start: GridPos, goal: GridPos, world_map: &WorldMap) -> (path: Option<VecDeque<GridPos>>)
    requires
        start != goal ==> search_bounds(start, goal),
    ensures
        path matches Some(p) ==> is_walk(world_map, start, goal, p@),
        start == goal ==> (path matches Some(p) && p@.len() == 0),
        path is None ==> !reachable(world_map, start, goal) || many_promising(world_map, start, goal),
        path matches Some(p) ==> forall|w: Seq<GridPos>| #[trigger]
            is_walk(world_map, start, goal, w) ==> walk_cost(world_map, start, p@) <= walk_cost(world_map, start, w),
{
    if start == goal {
        let path: VecDeque<GridPos> = VecDeque::new();
        proof {
            assert forall|w: Seq<GridPos>| #[trigger] is_walk(world_map, start, goal, w) implies walk_cost(
                world_map,
                start,
                path@,
            ) <= walk_cost(world_map, start, w) by {
                lemma_walk_cost_nonneg(world_map, start, w);
            }
        }
        return Some(path);
    }
    let mut open: Vec<Node> = Vec::new();
    let mut came_from: HashMapWithView<u64, GridPos> = HashMapWithView::new();
    let mut g_score: HashMapWithView<u64, u32> = HashMapWithView::new();
    g_score.insert(grid_key(start), 0);
    open.push(Node { cost: 0, pos: start });
    let ghost mut keys: Seq<GridPos> = seq![start];
    proof {
        assert forall|p: GridPos| #[trigger] g_score@.contains_key(key_of(p)) <==> keys.contains(p) by {
            lemma_key_injective(p, start);
            if p == start {
                assert(keys[0] == p);
            }
        }
        assert(came_from@.dom() =~= Set::<u64>::empty());
        assert(open@[0].pos == keys[0]);
        assert(chebyshev(start, start) == 0);
    }
    let ghost mut expanded: Set<GridPos> = Set::empty();
    let ghost mut exp_g: Map<GridPos, int> = Map::empty();
    proof {
        assert forall|p: GridPos| #[trigger] g_score@.contains_key(key_of(p)) implies p == start by {
            assert(keys.contains(p));
            assert(keys[0] == start);
        }
        lemma_explored_start(world_map, start, goal, open@, g_score@);
        lemma_costs_start(world_map, start, goal, open@, came_from@, g_score@);
        lemma_promise_start(world_map, start, goal, came_from@, g_score@);
    }
    loop
        invariant
            search_inv(world_map, start, open@, came_from@, g_score@, keys),
            explored(world_map, start, goal, open@, g_score@, expanded, None),
            costs_inv(world_map, start, goal, open@, came_from@, g_score@, expanded, exp_g, None),
            promise_inv(world_map, start, goal, came_from@, g_score@, expanded, None),
            start != goal,
            search_bounds(start, goal),
        decreases potential(open@.len() as int, keys, g_score@),
    {
        proof {
            lemma_sum_g_nonneg(keys, g_score@);
        }
        if open.len() == 0 {
            proof {
                assert(open@ =~= Seq::<Node>::empty());
                assert(keys.contains(start)) by {
                    assert(keys[0] == start);
                }
                lemma_explored_exhausted(world_map, start, goal, g_score@, expanded);
            }
            return None;
        }
        // Take the entry of lowest cost off the frontier.
        let mut best: usize = 0;
        let mut j: usize = 1;
        while j < open.len()
            invariant
                0 < open@.len(),
                best < open@.len(),
                1 <= j <= open@.len(),
                forall|i: int| 0 <= i < j ==> open@[best as int].cost <= (#[trigger] open@[i]).cost,
            decreases open@.len() - j,
        {
            if open[j].cost < open[best].cost {
                best = j;
            }
            j = j + 1;
        }
        let ghost before = open@;
        let ghost phi_start = potential(open@.len() as int, keys, g_score@);
        let node = open.swap_remove(best);
        let current = node.pos;
        proof {
            lemma_explored_pop(world_map, start, goal, before, best as int, g_score@, expanded);
            lemma_costs_pop(world_map, start, goal, before, best as int, came_from@, g_score@, expanded, exp_g);
            assert(keys.contains(before[best as int].pos));
            assert forall|i: int| 0 <= i < open@.len() implies keys.contains(#[trigger] open@[i].pos) by {
                if i == best {
                    assert(open@[i] == before[before.len() - 1]);
                } else {
                    assert(open@[i] == before[i]);
                }
            }
        }
        if current == goal {
            let path = reconstruct_path(Ghost(world_map), start, goal, &came_from, Ghost(open@), &g_score, Ghost(keys));
            proof {
                assert(keys.contains(start)) by {
                    assert(keys[0] == start);
                }
                assert(chebyshev(goal, goal) == 0);
                assert forall|w: Seq<GridPos>| #[trigger] is_walk(world_map, start, goal, w) implies walk_cost(
                    world_map,
                    start,
                    path@,
                ) <= walk_cost(world_map, start, w) by {
                    lemma_walk_cost_nonneg(world_map, start, w);
                    if goal != start {
                        lemma_pop_bound(world_map, start, goal, before, best as int, came_from@, g_score@, expanded, exp_g, w);
                        assert(before[best as int].cost >= g_score@[key_of(goal)] + heur(goal, goal));
                    }
                }
            }
            return Some(path);
        }
        proof {
            assert(keys.contains(start)) by {
                assert(keys[0] == start);
            }
            assert(g_score@.contains_key(key_of(current)));
            lemma_promise_pop(world_map, start, goal, before, best as int, came_from@, g_score@, expanded, exp_g);
        }
        if came_from.len() >= MAX_SEARCH_TILES {
            proof {
                lemma_promise_many(world_map, start, goal, open@, came_from@, g_score@, keys, expanded, current);
            }
            return None;
        }
        proof {
            lemma_member_bounds(keys, g_score@, start, current);
        }
        let cur_g: u32 = match g_score.get(&grid_key(current)) {
            Some(v) => *v,
            None => {
                assert(false);
                0
            },
        };
        let ghost keys_start_len = keys.len();
        let mut k: usize = 0;
        while k < 8
            invariant
                search_inv(world_map, start, open@, came_from@, g_score@, keys),
                start != goal,
                search_bounds(start, goal),
                k <= 8,
                keys.len() <= keys_start_len + k,
                keys_start_len <= 512,
                keys.contains(current),
                current != goal,
                g_score@[key_of(current)] == cur_g,
                cur_g <= 56 * (keys_start_len - 1),
                chebyshev(current, start) <= keys_start_len - 1,
                potential(open@.len() as int, keys, g_score@) < phi_start,
                explored(world_map, start, goal, open@, g_score@, expanded, Some(current)),
                forall|j: int|
                    0 <= j < k ==> (world_map.spec_tile_cost(#[trigger] step_to(current, j)) is Some
                        ==> g_score@.contains_key(key_of(step_to(current, j))) && g_score@[key_of(step_to(current, j))]
                        <= cur_g + step_cost(world_map, current, step_to(current, j))),
                costs_inv(world_map, start, goal, open@, came_from@, g_score@, expanded, exp_g, Some(current)),
                promise_inv(world_map, start, goal, came_from@, g_score@, expanded, Some(current)),
                promising(world_map, start, goal, current),
            decreases 8 - k,
        {
            let (ox, oy) = neighbor_offset(k);
            let neighbor = GridPos { x: current.x + ox, y: current.y + oy };
            assert(neighbor == step_to(current, k as int));
            if let Some(enter_cost) = tile_cost(neighbor, world_map) {
                let move_cost = if ox != 0 && oy != 0 { enter_cost * 14 / 10 } else { enter_cost };
                let tentative_g = cur_g + move_cost;
                let nk = grid_key(neighbor);
                let known = g_score.get(&nk);
                let better = match known {
                    Some(old_g) => tentative_g < *old_g,
                    None => tentative_g < u32::MAX,
                };
                if better {
                    let ghost was_known = keys.contains(neighbor);
                    let ghost old_g = g_score@;
                    let ghost old_came = came_from@;
                    let ghost old_keys = keys;
                    let ghost old_open = open@;
                    came_from.insert(nk, current);
                    g_score.insert(nk, tentative_g);
                    let h = heuristic(neighbor, goal);
                    let f = tentative_g + h;
                    open.push(Node { cost: f, pos: neighbor });
                    proof {
                        assert(g_score@.contains_key(key_of(current)));
                        assert(adjacent(current, neighbor));
                        assert(move_cost == step_cost(world_map, current, neighbor));
                        assert forall|i: int| 0 <= i < old_open.len() implies old_g.contains_key(
                            key_of((#[trigger] old_open[i]).pos),
                        ) by {
                            assert(old_keys.contains(old_open[i].pos));
                        }
                        assert forall|p: GridPos| #[trigger] old_came.contains_key(key_of(p)) implies old_g.contains_key(
                            key_of(old_came[key_of(p)]),
                        ) by {
                            assert(edge_ok(world_map, old_came[key_of(p)], p, old_g));
                        }
                        lemma_promise_visit(
                            world_map,
                            start,
                            goal,
                            old_came,
                            old_g,
                            expanded,
                            current,
                            neighbor,
                            tentative_g,
                        );
                        lemma_costs_visit(
                            world_map,
                            start,
                            goal,
                            old_open,
                            old_came,
                            old_g,
                            expanded,
                            exp_g,
                            current,
                            neighbor,
                            tentative_g,
                            Node { cost: f, pos: neighbor },
                        );
                        assert forall|j: int|
                            0 <= j < k + 1 && world_map.spec_tile_cost(#[trigger] step_to(current, j)) is Some implies
                            g_score@.contains_key(key_of(step_to(current, j))) && g_score@[key_of(step_to(current, j))]
                            <= cur_g + step_cost(world_map, current, step_to(current, j)) by {
                            lemma_key_injective(step_to(current, j), neighbor);
                        }
                        lemma_explored_visit(
                            world_map,
                            start,
                            goal,
                            old_open,
                            old_g,
                            expanded,
                            current,
                            neighbor,
                            tentative_g,
                            Node { cost: f, pos: neighbor },
                        );
                        lemma_key_injective(neighbor, current);
                        lemma_key_injective(neighbor, start);
                        if !was_known {
                            keys = keys.push(neighbor);
                            lemma_sum_g_other(old_keys, old_g, neighbor, tentative_g);
                            assert(keys.drop_last() =~= old_keys);
                            lemma_sum_g_nonneg(old_keys, old_g);
                        } else {
                            lemma_sum_g_update(old_keys, old_g, neighbor, tentative_g);
                            assert(neighbor != start);
                        }
                        assert forall|p: GridPos| #[trigger] g_score@.contains_key(key_of(p)) <==> keys.contains(p) by {
                            lemma_key_injective(p, neighbor);
                            if p == neighbor {
                                assert(keys.contains(p)) by {
                                    if !was_known {
                                        assert(keys[keys.len() - 1] == p);
                                    }
                                }
                            } else if old_keys.contains(p) {
                                let i = choose|i: int| 0 <= i < old_keys.len() && old_keys[i] == p;
                                assert(keys[i] == p);
                            } else if keys.contains(p) {
                                let i = choose|i: int| 0 <= i < keys.len() && keys[i] == p;
                                assert(old_keys[i] == p);
                            }
                        }
                        assert forall|p: GridPos| #[trigger] came_from@.contains_key(key_of(p)) <==> (keys.contains(p) && p != start) by {
                            lemma_key_injective(p, neighbor);
                            if p == neighbor {
                                assert(keys.contains(p)) by {
                                    if !was_known {
                                        assert(keys[keys.len() - 1] == p);
                                    }
                                }
                            } else if old_keys.contains(p) {
                                let i = choose|i: int| 0 <= i < old_keys.len() && old_keys[i] == p;
                                assert(keys[i] == p);
                            } else if keys.contains(p) {
                                let i = choose|i: int| 0 <= i < keys.len() && keys[i] == p;
                                assert(old_keys[i] == p);
                            }
                        }
                        assert forall|p: GridPos| #[trigger] came_from@.contains_key(key_of(p))
                            implies edge_ok(world_map, came_from@[key_of(p)], p, g_score@) by {
                            lemma_key_injective(p, neighbor);
                            if p != neighbor {
                                let q = old_came[key_of(p)];
                                assert(edge_ok(world_map, q, p, old_g));
                                lemma_key_injective(q, neighbor);
                            }
                        }
                        assert forall|i: int| 0 <= i < keys.len() implies g_score@[key_of(#[trigger] keys[i])] <= 56 * (keys.len() - 1)
                            && chebyshev(keys[i], start) <= keys.len() - 1 by {
                            lemma_key_injective(keys[i], neighbor);
                            if keys[i] != neighbor {
                                assert(old_keys[i] == keys[i]);
                                assert(old_g[key_of(old_keys[i])] <= 56 * (old_keys.len() - 1));
                            } else if was_known {
                                lemma_member_bounds(old_keys, old_g, start, neighbor);
                            }
                        }
                        assert forall|i: int| 0 <= i < open@.len() implies keys.contains(#[trigger] open@[i].pos) by {
                            if i < old_open.len() {
                                assert(open@[i] == old_open[i]);
                                let a = choose|a: int| 0 <= a < old_keys.len() && old_keys[a] == open@[i].pos;
                                assert(keys[a] == open@[i].pos);
                            } else {
                                if !was_known {
                                    assert(keys[keys.len() - 1] == neighbor);
                                }
                            }
                        }
                        assert(keys.no_duplicates()) by {
                            if !was_known {
                                assert forall|a: int, b: int| 0 <= a < keys.len() && 0 <= b < keys.len() && a != b
                                    implies keys[a] != keys[b] by {
                                    if a < old_keys.len() && b < old_keys.len() {
                                        assert(old_keys[a] != old_keys[b]);
                                    } else if a < old_keys.len() {
                                        assert(old_keys.contains(keys[a]));
                                    } else {
                                        assert(old_keys.contains(keys[b]));
                                    }
                                }
                            }
                        }
                        assert(came_from@.dom() =~= old_came.dom().insert(nk));
                        assert(keys.contains(current)) by {
                            let a = choose|a: int| 0 <= a < old_keys.len() && old_keys[a] == current;
                            assert(keys[a] == current);
                        }
                        assert(keys[0] == start);
                    }
                }
            }
            k = k + 1;
        }
        proof {
            lemma_sum_g_nonneg(keys, g_score@);
            lemma_explored_expand(world_map, start, goal, open@, g_score@, expanded, current);
            lemma_costs_expand(world_map, start, goal, open@, came_from@, g_score@, expanded, exp_g, current, cur_g);
            lemma_promise_expand(world_map, start, goal, came_from@, g_score@, expanded, current);
            expanded = expanded.insert(current);
            exp_g = exp_g.insert(current, cur_g as int);
        }
    }
}

} // verus!
