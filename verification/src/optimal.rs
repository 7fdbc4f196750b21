use vstd::prelude::*;
use crate::frontier::{node_le, Node};
use crate::grid::{adjacent, code_at, manhattan, passable, well_formed, GameWorld, Vector};
use crate::tile::step_cost;
use crate::route::{cost_upto, is_route, lemma_cost_grows, route_cost};
use crate::scores::key_of;
use crate::search::{accounted, entry_of, frontier_ok, parents_sound, settled};
use crate::tile::code_cost;

verus! {

/// Entering any cell but the two ends of the search costs at least one, so
/// that the Manhattan distance never promises more than a route can keep.
pub open spec fn fair(world: &GameWorld, start: Vector, end: Vector) -> bool {
    forall|v: Vector| #[trigger]
        passable(world, v) && v != start && v != end ==> code_cost(code_at(world, v)) >= 1
}

/// Whether the grid is fair to a search between `start` and `end`.
pub fn is_fair(world: &GameWorld, start: Vector, end: Vector) -> (r: bool)
    requires
        well_formed(world),
    ensures
        r == fair(world, start, end),
{
    let mut i: usize = 0;
    while i < world.len()
        invariant
            well_formed(world),
            i <= world.len(),
            forall|v: Vector| #[trigger]
                passable(world, v) && v != start && v != end && v.0 < i ==> code_cost(
                    code_at(world, v),
                ) >= 1,
        decreases world.len() - i,
    {
        let mut j: usize = 0;
        while j < world[i].len()
            invariant
                well_formed(world),
                i < world.len(),
                j <= world@[i as int]@.len(),
                forall|v: Vector| #[trigger]
                    passable(world, v) && v != start && v != end && v.0 < i ==> code_cost(
                        code_at(world, v),
                    ) >= 1,
                forall|v: Vector| #[trigger]
                    passable(world, v) && v != start && v != end && v.0 == i && v.1 < j
                        ==> code_cost(code_at(world, v)) >= 1,
            decreases world@[i as int]@.len() - j,
        {
            assert(world@[i as int]@.len() == crate::grid::width(world));
            let here: Vector = Vector(i as u8, j as u8);
            let code: u8 = world[i][j];
            if code != 1 && step_cost(code) == 0 && here != start && here != end {
                assert(passable(world, here));
                return false;
            }
            j += 1;
        }
        i += 1;
    }
    true
}

/// Every step of `w` is one cardinal move into a cell that is no wall.
pub open spec fn steps_ok(world: &GameWorld, w: Seq<Vector>) -> bool {
    forall|i: int|
        1 <= i < w.len() ==> adjacent(w[i - 1], #[trigger] w[i]) && passable(world, w[i])
}

/// The first place at which `w` is on `end`.
pub proof fn lemma_first_end(w: Seq<Vector>, end: Vector, hi: int) -> (e: int)
    requires
        0 <= hi < w.len(),
        w[hi] == end,
    ensures
        0 <= e <= hi,
        w[e] == end,
        forall|j: int| 0 <= j < e ==> w[j] != end,
    decreases hi,
{
    if exists|j: int| 0 <= j < hi && w[j] == end {
        let j = choose|j: int| 0 <= j < hi && w[j] == end;
        lemma_first_end(w, end, j)
    } else {
        hi
    }
}

/// The last place up to `e` at which `w` is on `start`.
pub proof fn lemma_last_start(w: Seq<Vector>, start: Vector, lo: int, e: int) -> (s: int)
    requires
        0 <= lo <= e < w.len(),
        w[lo] == start,
    ensures
        lo <= s <= e,
        w[s] == start,
        forall|j: int| s < j <= e ==> w[j] != start,
    decreases e - lo,
{
    if exists|j: int| lo < j <= e && w[j] == start {
        let j = choose|j: int| lo < j <= e && w[j] == start;
        lemma_last_start(w, start, j, e)
    } else {
        lo
    }
}

/// From a cell whose score is covered by the walk so far, the walk comes to
/// a cell that is not settled, and that cell's score is covered too.
pub proof fn lemma_first_open(
    world: &GameWorld,
    g: Map<u64, u32>,
    end: Vector,
    w: Seq<Vector>,
    s: int,
    j: int,
    e: int,
) -> (i: int)
    requires
        0 <= s <= j <= e < w.len(),
        w[e] == end,
        steps_ok(world, w),
        g.contains_key(key_of(w[j])),
        g[key_of(w[j])] + cost_upto(world, w, s) <= cost_upto(world, w, j),
    ensures
        j <= i <= e,
        g.contains_key(key_of(w[i])),
        !settled(world, g, end, w[i]),
        g[key_of(w[i])] + cost_upto(world, w, s) <= cost_upto(world, w, i),
    decreases e - j,
{
    if !settled(world, g, end, w[j]) {
        j
    } else {
        let n = w[j + 1];
        assert(adjacent(w[j], n) && passable(world, n));
        lemma_first_open(world, g, end, w, s, j + 1, e)
    }
}

/// A walk cannot close in on `end` faster than one cell a step.
pub proof fn lemma_reach(world: &GameWorld, w: Seq<Vector>, end: Vector, i: int, k: int)
    requires
        0 <= i <= k < w.len(),
        steps_ok(world, w),
    ensures
        manhattan(end, w[i]) <= manhattan(end, w[k]) + (k - i),
    decreases k - i,
{
    if i < k {
        lemma_reach(world, w, end, i, k - 1);
        assert(adjacent(w[k - 1], w[k]));
    }
}

/// Steps that enter neither end cost at least one each.
pub proof fn lemma_rest(
    world: &GameWorld,
    start: Vector,
    end: Vector,
    w: Seq<Vector>,
    i: int,
    k: int,
)
    requires
        0 <= i <= k < w.len(),
        steps_ok(world, w),
        fair(world, start, end),
        forall|j: int| i < j <= k ==> w[j] != start && w[j] != end,
    ensures
        cost_upto(world, w, i) + (k - i) <= cost_upto(world, w, k),
    decreases k - i,
{
    if i < k {
        lemma_rest(world, start, end, w, i, k - 1);
        assert(passable(world, w[k]));
    }
}

/// While `end` has no score, every route to it passes a cell that has a
/// score and is not settled, and costs at least that score plus the cell's
/// estimate, but for the last step: its estimate is one, its price is that
/// of `end`.
pub proof fn lemma_open_cell_on_route(
    world: &GameWorld,
    start: Vector,
    end: Vector,
    g: Map<u64, u32>,
    w: Seq<Vector>,
) -> (v: Vector)
    requires
        g.contains_key(key_of(start)),
        g[key_of(start)] == 0,
        !g.contains_key(key_of(end)),
        fair(world, start, end),
        is_route(world, w, start, end),
    ensures
        g.contains_key(key_of(v)),
        !settled(world, g, end, v),
        g[key_of(v)] + manhattan(end, v) - 1 + code_cost(code_at(world, end)) <= route_cost(
            world,
            w,
        ),
{
    let last = w.len() - 1;
    let e = lemma_first_end(w, end, last);
    let s = lemma_last_start(w, start, 0, e);
    assert(steps_ok(world, w));
    let i = lemma_first_open(world, g, end, w, s, s, e);
    assert(i < e);
    lemma_reach(world, w, end, i, e);
    lemma_rest(world, start, end, w, i, e - 1);
    lemma_cost_grows(world, w, e, last);
    assert(cost_upto(world, w, e) == cost_upto(world, w, e - 1) + code_cost(code_at(world, end)));
    w[i]
}

/// A candidate that waits in the frontier has no lower priority than the
/// one that leaves first.
pub proof fn lemma_waiting(g: Map<u64, u32>, end: Vector, f: Seq<Node>, m: int, v: Vector)
    requires
        frontier_ok(g, end, f),
        0 <= m < f.len(),
        forall|j: int| 0 <= j < f.len() ==> node_le(f[m], #[trigger] f[j]),
        f.contains(entry_of(g, end, v)),
    ensures
        f[m].0 <= g[key_of(v)] + manhattan(end, v),
{
    let en = entry_of(g, end, v);
    let j = choose|j: int| 0 <= j < f.len() && f[j] == en;
    assert(node_le(f[m], f[j]));
    assert(f[j].0 >= g[key_of(f[j].1)] + manhattan(end, f[j].1));
}

/// While `end` has no score, no route to it costs less than the least
/// priority in the frontier promises, but for the last step.
pub proof fn lemma_floor(
    world: &GameWorld,
    start: Vector,
    end: Vector,
    g: Map<u64, u32>,
    pred: Map<u64, Option<Vector>>,
    f: Seq<Node>,
    m: int,
    w: Seq<Vector>,
)
    requires
        parents_sound(world, start, g, pred),
        frontier_ok(g, end, f),
        accounted(world, g, end, f, None),
        fair(world, start, end),
        0 <= m < f.len(),
        forall|j: int| 0 <= j < f.len() ==> node_le(f[m], #[trigger] f[j]),
        !g.contains_key(key_of(end)),
        is_route(world, w, start, end),
    ensures
        f[m].0 - 1 + code_cost(code_at(world, end)) <= route_cost(world, w),
{
    assert(g.contains_key(key_of(start)));
    let v = lemma_open_cell_on_route(world, start, end, g, w);
    assert(f.contains(entry_of(g, end, v)));
    lemma_waiting(g, end, f, m, v);
}

} // verus!
