use std::collections::HashMap;
use vstd::prelude::*;
use vstd::set_lib::lemma_len_subset;
use crate::frontier::{lemma_min_index, min_index, Frontier, Node};
use crate::grid::{
    absent, adjacent, code_at, first_with, get_edges, goal_heuristic, in_bounds, is_grid,
    lemma_neighbors, manhattan, neighbors, passable, validate, GameWorld, GridError, Vector,
};
use crate::model::{
    book, cells_of, expanded, lemma_course_ends_empty, lemma_course_ends_found,
    lemma_course_opens, lemma_on_course, on_course, opening, popped, relaxed, search_model, stale,
};
use crate::optimal::{fair, lemma_floor};
use crate::route::{
    is_route, least_cost, lemma_cost_prefix, reachable, reconstruct, route_cost, route_total,
    trace, Route,
};
use crate::scores::{
    key, key_of, lemma_insert_again, lemma_insert_fresh, lemma_key_injective, lemma_reached_bound,
    reached, total_score, KEY_SPACE,
};
use crate::tile::code_cost;

verus! {

broadcast use vstd::std_specs::hash::group_hash_axioms;

/// The candidate under which `v` waits with its present score.
pub open spec fn entry_of(g: Map<u64, u32>, end: Vector, v: Vector) -> Node {
    Node((g[key_of(v)] + manhattan(end, v)) as u32, v)
}

/// The records of a search fit the grid: the same cells have a score and a
/// predecessor record, the start has score 0 and no predecessor, and every
/// other recorded cell was entered by one step from a recorded cell.
pub open spec fn parents_sound(
    world: &GameWorld,
    start: Vector,
    g: Map<u64, u32>,
    pred: Map<u64, Option<Vector>>,
) -> bool {
    &&& forall|k: u64| #[trigger] pred.contains_key(k) <==> g.contains_key(k)
    &&& forall|k: u64| #[trigger] g.contains_key(k) ==> k < KEY_SPACE
    &&& pred.contains_key(key_of(start))
    &&& g[key_of(start)] == 0
    &&& forall|v: Vector| #[trigger]
        pred.contains_key(key_of(v)) ==> in_bounds(world, v) && match pred[key_of(v)] {
            Some(p) => v != start && g.contains_key(key_of(p)) && adjacent(p, v) && passable(
                world,
                v,
            ),
            None => v == start,
        }
}

/// Every recorded cell has at least the score of its predecessor plus its
/// own price.
pub open spec fn priced(world: &GameWorld, g: Map<u64, u32>, pred: Map<u64, Option<Vector>>) -> bool {
    forall|v: Vector| #[trigger]
        pred.contains_key(key_of(v)) ==> match pred[key_of(v)] {
            Some(p) => g[key_of(p)] + code_cost(code_at(world, v)) <= g[key_of(v)],
            None => true,
        }
}

/// Where the grid is fair and `end` has a score, no route costs less.
pub open spec fn end_best(world: &GameWorld, start: Vector, end: Vector, g: Map<u64, u32>) -> bool {
    fair(world, start, end) && g.contains_key(key_of(end)) ==> least_cost(
        world,
        start,
        end,
        g[key_of(end)] as int,
    )
}

/// `a` ranks above `b`: a higher score, or the same score recorded later.
pub open spec fn outranks(g: Map<u64, u32>, t: Map<u64, nat>, a: u64, b: u64) -> bool {
    g[a] > g[b] || (g[a] == g[b] && t[a] > t[b])
}

/// Every recorded cell ranks above its predecessor, and no record is dated
/// `now` or later.
pub open spec fn ranked(
    g: Map<u64, u32>,
    pred: Map<u64, Option<Vector>>,
    t: Map<u64, nat>,
    now: nat,
) -> bool {
    &&& forall|k: u64| #[trigger] g.contains_key(k) ==> t[k] < now
    &&& forall|v: Vector| #[trigger]
        pred.contains_key(key_of(v)) ==> match pred[key_of(v)] {
            Some(p) => outranks(g, t, key_of(v), key_of(p)),
            None => true,
        }
}

/// No score exceeds ten times the number of cells that have one.
pub open spec fn bounded(g: Map<u64, u32>) -> bool {
    forall|k: u64| #[trigger] g.contains_key(k) ==> g[k] <= 10 * reached(g, KEY_SPACE as nat)
}

/// Every waiting candidate is for a cell with a score, and its priority is
/// not below that of the cell's present score.
pub open spec fn frontier_ok(g: Map<u64, u32>, end: Vector, f: Seq<Node>) -> bool {
    forall|i: int|
        0 <= i < f.len() ==> g.contains_key(key_of((#[trigger] f[i]).1)) && f[i].0 >= g[key_of(
            f[i].1,
        )] + manhattan(end, f[i].1)
}

/// `v` was expanded with its present score: each cell that one step from `v`
/// can enter has a score, and not a higher one than the way over `v` gives.
pub open spec fn settled(world: &GameWorld, g: Map<u64, u32>, end: Vector, v: Vector) -> bool {
    &&& v != end
    &&& forall|n: Vector|
        adjacent(v, n) && #[trigger] passable(world, n) ==> g.contains_key(key_of(n)) && g[key_of(
            n,
        )] <= g[key_of(v)] + code_cost(code_at(world, n))
}

/// Every cell with a score, but for `skip`, is settled or waits in the
/// frontier with its present score.
pub open spec fn accounted(
    world: &GameWorld,
    g: Map<u64, u32>,
    end: Vector,
    f: Seq<Node>,
    skip: Option<Vector>,
) -> bool {
    forall|v: Vector| #[trigger]
        g.contains_key(key_of(v)) && Some(v) != skip ==> settled(world, g, end, v) || f.contains(
            entry_of(g, end, v),
        )
}

/// The second set of scores is further along than the first: more cells
/// have a score, or the same number and a lower sum.
pub open spec fn advanced(g0: Map<u64, u32>, g1: Map<u64, u32>) -> bool {
    reached(g1, KEY_SPACE as nat) > reached(g0, KEY_SPACE as nat) || (reached(g1, KEY_SPACE as nat)
        == reached(g0, KEY_SPACE as nat) && total_score(g1, KEY_SPACE as nat) < total_score(
        g0,
        KEY_SPACE as nat,
    ))
}

/// A walk back that the records support is a route from the start.
pub proof fn lemma_trace_is_route(
    world: &GameWorld,
    start: Vector,
    g: Map<u64, u32>,
    pred: Map<u64, Option<Vector>>,
    cur: Vector,
    fuel: nat,
)
    requires
        parents_sound(world, start, g, pred),
        trace(pred, start, cur, fuel).is_some(),
    ensures
        is_route(world, trace(pred, start, cur, fuel).unwrap(), start, cur),
        trace(pred, start, cur, fuel).unwrap().len() <= fuel + 1,
    decreases fuel,
{
    assert(pred.contains_key(key_of(cur)));
    if cur != start {
        match pred[key_of(cur)] {
            None => {},
            Some(p) => {
                lemma_trace_is_route(world, start, g, pred, p, (fuel - 1) as nat);
                let s = trace(pred, start, p, (fuel - 1) as nat).unwrap();
                let r = s.push(cur);
                assert(r[r.len() - 2] == p);
                assert forall|i: int| 1 <= i < r.len() implies adjacent(r[i - 1], #[trigger] r[i])
                    && passable(world, r[i]) by {
                    if i < s.len() {
                        assert(r[i] == s[i]);
                        assert(r[i - 1] == s[i - 1]);
                    }
                }
                assert forall|i: int| 0 <= i < r.len() implies in_bounds(world, #[trigger] r[i]) by {
                    if i < s.len() {
                        assert(r[i] == s[i]);
                    }
                }
            },
        }
    }
}

/// A walk back that the records support costs no more than the score of the
/// cell it starts from.
pub proof fn lemma_trace_priced(
    world: &GameWorld,
    start: Vector,
    g: Map<u64, u32>,
    pred: Map<u64, Option<Vector>>,
    cur: Vector,
    fuel: nat,
)
    requires
        parents_sound(world, start, g, pred),
        priced(world, g, pred),
        trace(pred, start, cur, fuel).is_some(),
    ensures
        route_cost(world, trace(pred, start, cur, fuel).unwrap()) <= g[key_of(cur)],
    decreases fuel,
{
    assert(pred.contains_key(key_of(cur)));
    if cur != start {
        match pred[key_of(cur)] {
            None => {},
            Some(p) => {
                lemma_trace_priced(world, start, g, pred, p, (fuel - 1) as nat);
                lemma_trace_is_route(world, start, g, pred, p, (fuel - 1) as nat);
                let s = trace(pred, start, p, (fuel - 1) as nat).unwrap();
                let r = s.push(cur);
                lemma_cost_prefix(world, r, s, s.len() - 1);
                assert(r[s.len() as int] == cur);
            },
        }
    }
}

/// A better score for `n` by way of `cur` keeps every score at or above that
/// of the predecessor plus the cell's price.
pub proof fn lemma_relax_priced(
    world: &GameWorld,
    start: Vector,
    g: Map<u64, u32>,
    pred: Map<u64, Option<Vector>>,
    cur: Vector,
    n: Vector,
    score: u32,
)
    requires
        parents_sound(world, start, g, pred),
        priced(world, g, pred),
        g.contains_key(key_of(cur)),
        n != cur,
        score == g[key_of(cur)] + code_cost(code_at(world, n)),
        !g.contains_key(key_of(n)) || score < g[key_of(n)],
    ensures
        priced(world, g.insert(key_of(n), score), pred.insert(key_of(n), Some(cur))),
{
    let kn = key_of(n);
    let g2 = g.insert(kn, score);
    let pred2 = pred.insert(kn, Some(cur));
    if key_of(n) == key_of(cur) {
        lemma_key_injective(n, cur);
    }
    assert forall|v: Vector| #[trigger] pred2.contains_key(key_of(v)) implies match pred2[key_of(
        v,
    )] {
        Some(p) => g2[key_of(p)] + code_cost(code_at(world, v)) <= g2[key_of(v)],
        None => true,
    } by {
        if key_of(v) == kn {
            lemma_key_injective(v, n);
        } else {
            assert(pred.contains_key(key_of(v)));
            match pred[key_of(v)] {
                Some(q) => {
                    assert(pred.contains_key(key_of(q)));
                    assert(g.contains_key(key_of(q)));
                },
                None => {},
            }
        }
    }
}

/// The walk back from a recorded cell reaches the start before it has made
/// as many steps as there are records.
pub proof fn lemma_trace_resolves(
    world: &GameWorld,
    start: Vector,
    g: Map<u64, u32>,
    pred: Map<u64, Option<Vector>>,
    t: Map<u64, nat>,
    now: nat,
    cur: Vector,
    seen: Set<u64>,
    fuel: nat,
)
    requires
        parents_sound(world, start, g, pred),
        ranked(g, pred, t, now),
        pred.dom().finite(),
        pred.contains_key(key_of(cur)),
        seen.finite(),
        forall|s: u64| #[trigger]
            seen.contains(s) ==> pred.contains_key(s) && outranks(g, t, s, key_of(cur)),
        fuel + seen.len() + 1 >= pred.len(),
    ensures
        trace(pred, start, cur, fuel).is_some(),
    decreases g[key_of(cur)], t[key_of(cur)],
{
    if cur != start {
        match pred[key_of(cur)] {
            None => {},
            Some(p) => {
                let kc = key_of(cur);
                let kp = key_of(p);
                let seen2 = seen.insert(kc);
                let seen3 = seen2.insert(kp);
                assert(pred.contains_key(kp));
                assert(outranks(g, t, kc, kp));
                assert(!seen.contains(kc));
                assert(!seen2.contains(kp));
                assert(seen3.subset_of(pred.dom()));
                lemma_len_subset(seen3, pred.dom());
                assert(seen3.len() == seen.len() + 2);
                lemma_trace_resolves(world, start, g, pred, t, now, p, seen2, (fuel - 1) as nat);
            },
        }
    }
}

/// If every cell with a score is settled, the scores cover every route from
/// the start.
pub proof fn lemma_closed(
    world: &GameWorld,
    start: Vector,
    end: Vector,
    g: Map<u64, u32>,
    route: Seq<Vector>,
    i: int,
)
    requires
        g.contains_key(key_of(start)),
        accounted(world, g, end, Seq::<Node>::empty(), None),
        route.len() >= 1,
        route[0] == start,
        forall|j: int|
            1 <= j < route.len() ==> adjacent(route[j - 1], #[trigger] route[j]) && passable(
                world,
                route[j],
            ),
        0 <= i < route.len(),
    ensures
        g.contains_key(key_of(route[i])),
        settled(world, g, end, route[i]),
    decreases i,
{
    if i > 0 {
        lemma_closed(world, start, end, g, route, i - 1);
        assert(adjacent(route[i - 1], route[i]) && passable(world, route[i]));
    }
    assert(g.contains_key(key_of(route[i])));
    assert(!Seq::<Node>::empty().contains(entry_of(g, end, route[i])));
}


/// Taking a candidate out keeps the frontier in order. Every other cell is
/// still accounted for, and the candidate's own cell too if the candidate
/// was out of date.
pub proof fn lemma_pop(world: &GameWorld, g: Map<u64, u32>, end: Vector, f: Seq<Node>, m: int)
    requires
        frontier_ok(g, end, f),
        accounted(world, g, end, f, None),
        0 <= m < f.len(),
    ensures
        frontier_ok(g, end, f.remove(m)),
        accounted(world, g, end, f.remove(m), Some(f[m].1)),
        f[m].0 > g[key_of(f[m].1)] + manhattan(end, f[m].1) ==> accounted(
            world,
            g,
            end,
            f.remove(m),
            None,
        ),
{
    let f2 = f.remove(m);
    assert forall|i: int| 0 <= i < f2.len() implies g.contains_key(key_of((#[trigger] f2[i]).1))
        && f2[i].0 >= g[key_of(f2[i].1)] + manhattan(end, f2[i].1) by {
        if i < m {
            assert(f2[i] == f[i]);
        } else {
            assert(f2[i] == f[i + 1]);
        }
    }
    assert forall|v: Vector|
        #[trigger] g.contains_key(key_of(v)) && f.contains(entry_of(g, end, v)) && entry_of(
            g,
            end,
            v,
        ) != f[m] implies f2.contains(entry_of(g, end, v)) by {
        let e = entry_of(g, end, v);
        let j = choose|j: int| 0 <= j < f.len() && f[j] == e;
        if j < m {
            assert(f2[j] == e);
        } else {
            assert(f2[j - 1] == e);
        }
    }
}

/// A better score for `n` by way of `cur` keeps the records sound and ranked.
pub proof fn lemma_relax_records(
    world: &GameWorld,
    start: Vector,
    g: Map<u64, u32>,
    pred: Map<u64, Option<Vector>>,
    t: Map<u64, nat>,
    now: nat,
    cur: Vector,
    n: Vector,
    score: u32,
)
    requires
        parents_sound(world, start, g, pred),
        ranked(g, pred, t, now),
        g.contains_key(key_of(cur)),
        adjacent(cur, n),
        passable(world, n),
        score >= g[key_of(cur)],
        !g.contains_key(key_of(n)) || score < g[key_of(n)],
    ensures
        parents_sound(world, start, g.insert(key_of(n), score), pred.insert(key_of(n), Some(cur))),
        ranked(
            g.insert(key_of(n), score),
            pred.insert(key_of(n), Some(cur)),
            t.insert(key_of(n), now),
            now + 1,
        ),
{
    let kn = key_of(n);
    let g2 = g.insert(kn, score);
    let pred2 = pred.insert(kn, Some(cur));
    let t2 = t.insert(kn, now);
    assert(pred.contains_key(key_of(cur)));
    assert(n != cur);
    assert(key_of(n) != key_of(cur)) by {
        if key_of(n) == key_of(cur) {
            lemma_key_injective(n, cur);
        }
    }
    assert(n != start);
    assert(key_of(n) != key_of(start)) by {
        if key_of(n) == key_of(start) {
            lemma_key_injective(n, start);
        }
    }
    assert forall|v: Vector| #[trigger] pred2.contains_key(key_of(v)) implies in_bounds(world, v)
        && match pred2[key_of(v)] {
        Some(p) => v != start && g2.contains_key(key_of(p)) && adjacent(p, v) && passable(
            world,
            v,
        ),
        None => v == start,
    } by {
        if key_of(v) == kn {
            lemma_key_injective(v, n);
        } else {
            assert(pred.contains_key(key_of(v)));
        }
    }
    assert forall|v: Vector| #[trigger] pred2.contains_key(key_of(v)) implies match pred2[key_of(
        v,
    )] {
        Some(p) => outranks(g2, t2, key_of(v), key_of(p)),
        None => true,
    } by {
        if key_of(v) == kn {
            lemma_key_injective(v, n);
            assert(t[key_of(cur)] < now);
        } else {
            assert(pred.contains_key(key_of(v)));
            match pred[key_of(v)] {
                Some(p) => {
                    assert(pred.contains_key(key_of(p)));
                    assert(g.contains_key(key_of(p)));
                },
                None => {},
            }
        }
    }
    assert forall|k: u64| #[trigger] g2.contains_key(k) implies t2[k] < now + 1 by {
        if k != kn {
            assert(g.contains_key(k));
        }
    }
    assert forall|k: u64| #[trigger] pred2.contains_key(k) <==> g2.contains_key(k) by {
        assert(pred.contains_key(k) <==> g.contains_key(k));
    }
    assert forall|k: u64| #[trigger] g2.contains_key(k) implies k < KEY_SPACE by {
        if k != kn {
            assert(g.contains_key(k));
        }
    }
}

/// A better score for `n` keeps the scores bounded and moves them along.
pub proof fn lemma_relax_scores(g: Map<u64, u32>, cur: Vector, n: Vector, score: u32)
    requires
        bounded(g),
        g.contains_key(key_of(cur)),
        score <= g[key_of(cur)] + 10,
        !g.contains_key(key_of(n)) || score < g[key_of(n)],
    ensures
        bounded(g.insert(key_of(n), score)),
        advanced(g, g.insert(key_of(n), score)),
        reached(g.insert(key_of(n), score), KEY_SPACE as nat) >= reached(g, KEY_SPACE as nat),
{
    let kn = key_of(n);
    let g2 = g.insert(kn, score);
    if g.contains_key(kn) {
        lemma_insert_again(g, kn, score, KEY_SPACE as nat);
    } else {
        lemma_insert_fresh(g, kn, score, KEY_SPACE as nat);
    }
    assert forall|k: u64| #[trigger] g2.contains_key(k) implies g2[k] <= 10 * reached(
        g2,
        KEY_SPACE as nat,
    ) by {
        if k != kn {
            assert(g.contains_key(k));
        }
    }
}

/// A better score for `n`, with its candidate put in the frontier, keeps
/// the frontier in order and every cell but `cur` accounted for.
pub proof fn lemma_relax_frontier(
    world: &GameWorld,
    end: Vector,
    g: Map<u64, u32>,
    f: Seq<Node>,
    cur: Vector,
    n: Vector,
    score: u32,
)
    requires
        frontier_ok(g, end, f),
        accounted(world, g, end, f, Some(cur)),
        n != cur,
        score + manhattan(end, n) <= u32::MAX,
        !g.contains_key(key_of(n)) || score < g[key_of(n)],
    ensures
        frontier_ok(
            g.insert(key_of(n), score),
            end,
            f.push(Node((score + manhattan(end, n)) as u32, n)),
        ),
        accounted(
            world,
            g.insert(key_of(n), score),
            end,
            f.push(Node((score + manhattan(end, n)) as u32, n)),
            Some(cur),
        ),
{
    let kn = key_of(n);
    let g2 = g.insert(kn, score);
    let node = Node((score + manhattan(end, n)) as u32, n);
    let f2 = f.push(node);
    assert forall|i: int| 0 <= i < f2.len() implies g2.contains_key(key_of((#[trigger] f2[i]).1))
        && f2[i].0 >= g2[key_of(f2[i].1)] + manhattan(end, f2[i].1) by {
        if i < f.len() {
            assert(f2[i] == f[i]);
            if key_of(f[i].1) == kn {
                lemma_key_injective(f[i].1, n);
            }
        }
    }
    assert forall|v: Vector| #[trigger] g2.contains_key(key_of(v)) && Some(v) != Some(
        cur,
    ) implies settled(world, g2, end, v) || f2.contains(entry_of(g2, end, v)) by {
        if key_of(v) == kn {
            lemma_key_injective(v, n);
            assert(f2[f.len() as int] == entry_of(g2, end, v));
        } else {
            assert(g.contains_key(key_of(v)));
            if settled(world, g, end, v) {
                assert forall|x: Vector| adjacent(v, x) && #[trigger] passable(world, x) implies
                    g2.contains_key(key_of(x)) && g2[key_of(x)] <= g2[key_of(v)] + code_cost(
                    code_at(world, x),
                ) by {
                    if key_of(x) == kn {
                        lemma_key_injective(x, n);
                    }
                }
            } else {
                let e = entry_of(g, end, v);
                let j = choose|j: int| 0 <= j < f.len() && f[j] == e;
                assert(f2[j] == entry_of(g2, end, v));
            }
        }
    }
}


/// The score recorded for `v`, if there is one.
pub fn score_at(scores: &HashMap<u64, u32>, v: Vector) -> (r: Option<u32>)
    ensures
        r == if scores@.contains_key(key_of(v)) {
            Some(scores@[key_of(v)])
        } else {
            None::<u32>
        },
{
    let k: u64 = key(v);
    match scores.get(&k) {
        Some(x) => Some(*x),
        None => None,
    }
}

/// Some dating of the records ranks every recorded cell above its
/// predecessor.
pub open spec fn well_ranked(g: Map<u64, u32>, pred: Map<u64, Option<Vector>>) -> bool {
    exists|t: Map<u64, nat>, now: nat| ranked(g, pred, t, now)
}

/// All that a search keeps true of its books between two rounds; inside a
/// round, of every cell but the one that is being expanded.
pub open spec fn coherent(
    world: &GameWorld,
    start: Vector,
    end: Vector,
    g: Map<u64, u32>,
    pred: Map<u64, Option<Vector>>,
    f: Seq<Node>,
    skip: Option<Vector>,
) -> bool {
    &&& parents_sound(world, start, g, pred)
    &&& well_ranked(g, pred)
    &&& bounded(g)
    &&& frontier_ok(g, end, f)
    &&& accounted(world, g, end, f, skip)
    &&& priced(world, g, pred)
    &&& end_best(world, start, end, g)
}

/// Weighs the step from `cur` to `next`: if the way over `cur` is the first
/// or a cheaper one, `next` gets its score, `cur` as its predecessor, and a
/// candidate in the frontier.
fn relax(
    world: &GameWorld,
    start: Vector,
    end: Vector,
    cur: Vector,
    next: Vector,
    scores: &mut HashMap<u64, u32>,
    parents: &mut HashMap<u64, Option<Vector>>,
    frontier: &mut Frontier,
)
    requires
        is_grid(world),
        in_bounds(world, cur),
        neighbors(world, cur).contains(next),
        coherent(world, start, end, old(scores)@, old(parents)@, old(frontier)@, Some(cur)),
        old(scores)@.contains_key(key_of(cur)),
        fair(world, start, end) && !old(scores)@.contains_key(key_of(end)) ==> least_cost(
            world,
            start,
            end,
            old(scores)@[key_of(cur)] + manhattan(end, cur) - 1 + code_cost(code_at(world, end)),
        ),
    ensures
        coherent(world, start, end, final(scores)@, final(parents)@, final(frontier)@, Some(cur)),
        book(final(scores)@, final(parents)@, final(frontier)@) == relaxed(
            world,
            end,
            book(old(scores)@, old(parents)@, old(frontier)@),
            cur,
            next,
        ),
        final(scores)@[key_of(cur)] == old(scores)@[key_of(cur)],
        forall|k: u64| #[trigger]
            old(scores)@.contains_key(k) ==> final(scores)@.contains_key(k) && final(scores)@[k]
                <= old(scores)@[k],
        final(scores)@.contains_key(key_of(next)),
        final(scores)@[key_of(next)] <= old(scores)@[key_of(cur)] + code_cost(
            code_at(world, next),
        ),
        (final(scores)@ == old(scores)@ && final(frontier)@ == old(frontier)@) || advanced(
            old(scores)@,
            final(scores)@,
        ),
{
    proof {
        lemma_neighbors(world, cur, next);
        if key_of(next) == key_of(cur) {
            lemma_key_injective(next, cur);
        }
        lemma_reached_bound(scores@, KEY_SPACE as nat);
    }
    let g_cur: u32 = score_at(scores, cur).unwrap();
    let step: u8 = next.cost(world);
    let tentative: u32 = g_cur + step as u32;
    let better: bool = match score_at(scores, next) {
        None => true,
        Some(known) => tentative < known,
    };
    if better {
        let kn: u64 = key(next);
        let h_next: u16 = goal_heuristic(&end, &next);
        proof {
            let (stamps, now) = choose|t: Map<u64, nat>, now: nat| ranked(scores@, parents@, t, now);
            lemma_relax_records(
                world,
                start,
                scores@,
                parents@,
                stamps,
                now,
                cur,
                next,
                tentative,
            );
            lemma_relax_scores(scores@, cur, next, tentative);
            lemma_relax_priced(world, start, scores@, parents@, cur, next, tentative);
            lemma_relax_frontier(world, end, scores@, frontier@, cur, next, tentative);
            if key_of(next) == key_of(end) {
                lemma_key_injective(next, end);
            }
        }
        scores.insert(kn, tentative);
        parents.insert(kn, Some(cur));
        frontier.insert(Node(tentative + h_next as u32, next));
    }
}

/// Weighs the steps from `cur` to each cell that it can enter, in the order
/// north, east, south, west.
fn expand(
    world: &GameWorld,
    start: Vector,
    end: Vector,
    cur: Vector,
    scores: &mut HashMap<u64, u32>,
    parents: &mut HashMap<u64, Option<Vector>>,
    frontier: &mut Frontier,
)
    requires
        is_grid(world),
        in_bounds(world, cur),
        cur != end,
        coherent(world, start, end, old(scores)@, old(parents)@, old(frontier)@, Some(cur)),
        old(scores)@.contains_key(key_of(cur)),
        fair(world, start, end) && !old(scores)@.contains_key(key_of(end)) ==> least_cost(
            world,
            start,
            end,
            old(scores)@[key_of(cur)] + manhattan(end, cur) - 1 + code_cost(code_at(world, end)),
        ),
    ensures
        coherent(world, start, end, final(scores)@, final(parents)@, final(frontier)@, None),
        book(final(scores)@, final(parents)@, final(frontier)@) == expanded(
            world,
            end,
            book(old(scores)@, old(parents)@, old(frontier)@),
            cur,
            neighbors(world, cur),
            neighbors(world, cur).len() as int,
        ),
        (final(scores)@ == old(scores)@ && final(frontier)@ == old(frontier)@) || advanced(
            old(scores)@,
            final(scores)@,
        ),
{
    let ghost g0 = scores@;
    let ghost b0 = book(scores@, parents@, frontier@);
    let edges: Vec<Vector> = get_edges(world, &cur);
    let mut idx: usize = 0;
    while idx < edges.len()
        invariant
            is_grid(world),
            in_bounds(world, cur),
            idx <= edges@.len(),
            edges@ == neighbors(world, cur),
            coherent(world, start, end, scores@, parents@, frontier@, Some(cur)),
            scores@.contains_key(key_of(cur)),
            scores@[key_of(cur)] == g0[key_of(cur)],
            forall|k: u64| #[trigger] g0.contains_key(k) ==> scores@.contains_key(k),
            fair(world, start, end) && !g0.contains_key(key_of(end)) ==> least_cost(
                world,
                start,
                end,
                g0[key_of(cur)] + manhattan(end, cur) - 1 + code_cost(code_at(world, end)),
            ),
            book(scores@, parents@, frontier@) == expanded(world, end, b0, cur, edges@, idx as int),
            forall|j: int|
                0 <= j < idx ==> scores@.contains_key(key_of(#[trigger] edges@[j]))
                    && scores@[key_of(edges@[j])] <= g0[key_of(cur)] + code_cost(
                    code_at(world, edges@[j]),
                ),
            (scores@ == g0 && frontier@ == old(frontier)@) || advanced(g0, scores@),
        decreases edges@.len() - idx,
    {
        let next: Vector = edges[idx];
        let ghost g1 = scores@;
        assert(neighbors(world, cur).contains(next));
        relax(world, start, end, cur, next, scores, parents, frontier);
        proof {
            assert forall|j: int| 0 <= j < idx + 1 implies scores@.contains_key(
                key_of(#[trigger] edges@[j]),
            ) && scores@[key_of(edges@[j])] <= g0[key_of(cur)] + code_cost(
                code_at(world, edges@[j]),
            ) by {
                if j < idx {
                    assert(g1.contains_key(key_of(edges@[j])));
                }
            }
        }
        idx += 1;
    }
    proof {
        assert forall|n: Vector| adjacent(cur, n) && #[trigger] passable(world, n) implies
            scores@.contains_key(key_of(n)) && scores@[key_of(n)] <= scores@[key_of(cur)]
            + code_cost(code_at(world, n)) by {
            lemma_neighbors(world, cur, n);
            let j = choose|j: int| 0 <= j < edges@.len() && edges@[j] == n;
            assert(edges@[j] == n);
        }
        assert(settled(world, scores@, end, cur));
    }
}

/// Rebuilds the route to `end` once a candidate for it has left the
/// frontier, and adds up what it costs.
fn finish(
    world: &GameWorld,
    start: Vector,
    end: Vector,
    scores: &HashMap<u64, u32>,
    parents: &HashMap<u64, Option<Vector>>,
) -> (route: Route)
    requires
        parents_sound(world, start, scores@, parents@),
        well_ranked(scores@, parents@),
        priced(world, scores@, parents@),
        end_best(world, start, end, scores@),
        parents@.contains_key(key_of(end)),
    ensures
        Some(route.cells@) == trace(parents@, start, end, parents@.len()),
        is_route(world, route.cells@, start, end),
        route.total == route_cost(world, route.cells@),
        fair(world, start, end) ==> least_cost(world, start, end, route.total as int),
{
    proof {
        let (stamps, now) = choose|t: Map<u64, nat>, now: nat| ranked(scores@, parents@, t, now);
        assert(parents@.dom().finite());
        lemma_trace_resolves(
            world,
            start,
            scores@,
            parents@,
            stamps,
            now,
            end,
            Set::<u64>::empty(),
            parents@.len(),
        );
        lemma_trace_is_route(world, start, scores@, parents@, end, parents@.len());
        lemma_trace_priced(world, start, scores@, parents@, end, parents@.len());
    }
    let found: Option<Vec<Vector>> = reconstruct(parents, start, end);
    let cells: Vec<Vector> = found.unwrap();
    let total: u32 = route_total(world, &cells);
    Route { cells, total }
}

/// Finds a route from `start` to `end` by A*, guided by the Manhattan
/// distance to `end`.
///
/// Candidates leave the frontier by priority and, among equal priorities,
/// in row-major order of their cells. A candidate whose cell has since got a
/// better score is dropped. The search stops at the first candidate for
/// `end`, or when no candidate is left.
pub fn search(world: &GameWorld, start: Vector, end: Vector) -> (r: Option<Route>)
    requires
        is_grid(world),
        in_bounds(world, start),
        in_bounds(world, end),
    ensures
        cells_of(r) == search_model(world, start, end),
        r.is_some() <==> reachable(world, start, end),
        r matches Some(route) ==> is_route(world, route.cells@, start, end) && route.total
            == route_cost(world, route.cells@),
        start == end ==> (r matches Some(route) && route.cells@ == seq![start] && route.total == 0),
        fair(world, start, end) ==> (r matches Some(route) ==> least_cost(
            world,
            start,
            end,
            route.total as int,
        )),
{
    let mut scores: HashMap<u64, u32> = HashMap::new();
    let mut parents: HashMap<u64, Option<Vector>> = HashMap::new();
    let mut frontier: Frontier = Frontier::new();
    let ks: u64 = key(start);
    scores.insert(ks, 0);
    parents.insert(ks, None);
    let h0: u16 = goal_heuristic(&end, &start);
    frontier.insert(Node(h0 as u32, start));
    let ghost mut steps: nat = 0;
    proof {
        assert(book(scores@, parents@, frontier@) == opening(start, end));
        lemma_course_opens(world, start, end);
        assert forall|v: Vector| #[trigger] parents@.contains_key(key_of(v)) implies v == start by {
            lemma_key_injective(v, start);
        }
        assert(frontier@[0] == entry_of(scores@, end, start));
        if key_of(end) == key_of(start) {
            lemma_key_injective(end, start);
        }
        assert(ranked(scores@, parents@, Map::<u64, nat>::empty().insert(ks, 0nat), 1nat));
    }
    loop
        invariant
            is_grid(world),
            in_bounds(world, start),
            in_bounds(world, end),
            coherent(world, start, end, scores@, parents@, frontier@, None),
            on_course(world, start, end, book(scores@, parents@, frontier@), steps),
        decreases
                KEY_SPACE - reached(scores@, KEY_SPACE as nat),
                total_score(scores@, KEY_SPACE as nat),
                frontier@.len(),
    {
        let ghost f0 = frontier@;
        let ghost b0 = book(scores@, parents@, frontier@);
        proof {
            lemma_reached_bound(scores@, KEY_SPACE as nat);
        }
        let taken: Option<Node> = frontier.extract_min();
        match taken {
            None => {
                proof {
                    assert(frontier@ =~= Seq::<Node>::empty());
                    assert forall|route: Seq<Vector>| !is_route(world, route, start, end) by {
                        if is_route(world, route, start, end) {
                            lemma_closed(world, start, end, scores@, route, route.len() - 1);
                        }
                    }
                    assert(is_route(world, seq![start], start, start));
                    lemma_course_ends_empty(world, start, end, b0, steps);
                }
                return None;
            },
            Some(node) => {
                let cur: Vector = node.1;
                proof {
                    lemma_min_index(f0);
                    lemma_pop(world, scores@, end, f0, min_index(f0));
                    assert(f0[min_index(f0)] == node);
                    assert(parents@.contains_key(key_of(cur)));
                }
                if cur == end {
                    proof {
                        lemma_course_ends_found(world, start, end, b0, steps);
                    }
                    let route: Route = finish(world, start, end, &scores, &parents);
                    return Some(route);
                }
                let g_cur: u32 = score_at(&scores, cur).unwrap();
                let h_cur: u16 = goal_heuristic(&end, &cur);
                proof {
                    lemma_on_course(world, start, end, b0, steps);
                    steps = steps + 1;
                    assert(stale(end, b0) == (node.0 > g_cur + h_cur));
                    assert(book(scores@, parents@, frontier@) == popped(b0));
                }
                if node.0 <= g_cur + h_cur as u32 {
                    proof {
                        if fair(world, start, end) && !scores@.contains_key(key_of(end)) {
                            assert forall|w: Seq<Vector>| #[trigger]
                                is_route(world, w, start, end) implies g_cur + h_cur - 1
                                + code_cost(code_at(world, end)) <= route_cost(world, w) by {
                                lemma_floor(
                                    world,
                                    start,
                                    end,
                                    scores@,
                                    parents@,
                                    f0,
                                    min_index(f0),
                                    w,
                                );
                            }
                        }
                    }
                    expand(world, start, end, cur, &mut scores, &mut parents, &mut frontier);
                    proof {
                        lemma_reached_bound(scores@, KEY_SPACE as nat);
                    }
                }
            },
        }
    }
}

/// The markers of a grid and what the search between them found.
#[derive(Debug)]
pub struct Solution {
    /// The first cell that holds the start marker.
    pub start: Vector,
    /// The first cell that holds the end marker.
    pub end: Vector,
    /// The route from `start` to `end`, or `None` if walls part them.
    pub route: Option<Route>,
}

/// Checks the grid, finds its markers and searches from the one to the
/// other. A grid that is refused is never searched.
pub fn solve(world: &GameWorld) -> (r: Result<Solution, GridError>)
    ensures
        match r {
            Ok(s) => {
                &&& is_grid(world)
                &&& first_with(world, s.start, 3)
                &&& first_with(world, s.end, 4)
                &&& cells_of(s.route) == search_model(world, s.start, s.end)
                &&& s.route.is_some() <==> reachable(world, s.start, s.end)
                &&& s.route matches Some(route) ==> is_route(world, route.cells@, s.start, s.end)
                    && route.total == route_cost(world, route.cells@)
                &&& fair(world, s.start, s.end) ==> (s.route matches Some(route) ==> least_cost(
                    world,
                    s.start,
                    s.end,
                    route.total as int,
                ))
            },
            Err(GridError::InvalidGrid) => !is_grid(world),
            Err(GridError::MissingMarker) => is_grid(world) && (absent(world, 3) || absent(
                world,
                4,
            )),
            Err(GridError::OutOfBounds) => false,
        },
{
    match validate(world) {
        Err(e) => Err(e),
        Ok((start, end)) => {
            let route: Option<Route> = search(world, start, end);
            Ok(Solution { start, end, route })
        },
    }
}

} // verus!
