use std::collections::HashMap;
use vstd::prelude::*;
use crate::grid::{adjacent, code_at, in_bounds, passable, GameWorld, Vector};
use crate::scores::{key, key_of};
use crate::tile::code_cost;

verus! {

broadcast use vstd::std_specs::hash::group_hash_axioms;

/// A way from one cell to another, and what it costs.
#[derive(Clone, Debug)]
pub struct Route {
    /// The cells in the order they are walked, both ends included.
    pub cells: Vec<Vector>,
    /// The sum of the prices of all cells entered.
    pub total: u32,
}

/// `route` starts at `start`, ends at `end`, stays on the grid, and each of
/// its steps is one cardinal move into a cell that is no wall.
pub open spec fn is_route(world: &GameWorld, route: Seq<Vector>, start: Vector, end: Vector) -> bool {
    &&& route.len() >= 1
    &&& route[0] == start
    &&& route.last() == end
    &&& forall|i: int| 0 <= i < route.len() ==> in_bounds(world, #[trigger] route[i])
    &&& forall|i: int|
        1 <= i < route.len() ==> adjacent(route[i - 1], #[trigger] route[i]) && passable(
            world,
            route[i],
        )
}

/// Some route leads from `start` to `end`.
pub open spec fn reachable(world: &GameWorld, start: Vector, end: Vector) -> bool {
    exists|route: Seq<Vector>| is_route(world, route, start, end)
}

/// The price of the cells that the walk `w` enters on its first `upto`
/// steps. The cell it starts on is not entered.
pub open spec fn cost_upto(world: &GameWorld, w: Seq<Vector>, upto: int) -> nat
    decreases upto,
{
    if upto <= 0 {
        0
    } else {
        cost_upto(world, w, upto - 1) + code_cost(code_at(world, w[upto])) as nat
    }
}

/// What a route costs: the price of every cell it enters.
pub open spec fn route_cost(world: &GameWorld, route: Seq<Vector>) -> nat {
    cost_upto(world, route, route.len() - 1)
}

/// No route between the two cells costs less than `total`.
pub open spec fn least_cost(world: &GameWorld, start: Vector, end: Vector, total: int) -> bool {
    forall|w: Seq<Vector>| #[trigger] is_route(world, w, start, end) ==> total <= route_cost(world, w)
}

/// Walks that agree on their first cells cost the same over them.
pub proof fn lemma_cost_prefix(world: &GameWorld, a: Seq<Vector>, b: Seq<Vector>, upto: int)
    requires
        upto < a.len(),
        upto < b.len(),
        forall|j: int| 0 <= j <= upto ==> a[j] == b[j],
    ensures
        cost_upto(world, a, upto) == cost_upto(world, b, upto),
    decreases upto,
{
    if upto > 0 {
        lemma_cost_prefix(world, a, b, upto - 1);
    }
}

/// The cost of a walk does not fall as it goes on.
pub proof fn lemma_cost_grows(world: &GameWorld, w: Seq<Vector>, a: int, b: int)
    requires
        a <= b,
    ensures
        cost_upto(world, w, a) <= cost_upto(world, w, b),
    decreases b - a,
{
    if a < b {
        lemma_cost_grows(world, w, a, b - 1);
    }
}

/// `s` read from its end.
pub open spec fn flip(s: Seq<Vector>) -> Seq<Vector> {
    Seq::new(s.len(), |i: int| s[s.len() - 1 - i])
}

/// The walk back along the predecessors from `cur`, told forwards: it stops
/// at `start` or at a cell recorded as having no predecessor, and fails at a
/// cell without a record or when more than `fuel` steps would be needed.
pub open spec fn trace(
    pred: Map<u64, Option<Vector>>,
    start: Vector,
    cur: Vector,
    fuel: nat,
) -> Option<Seq<Vector>>
    decreases fuel,
{
    if !pred.contains_key(key_of(cur)) {
        None
    } else if cur == start {
        Some(seq![cur])
    } else {
        match pred[key_of(cur)] {
            None => Some(seq![cur]),
            Some(p) => if fuel == 0 {
                None
            } else {
                match trace(pred, start, p, (fuel - 1) as nat) {
                    Some(s) => Some(s.push(cur)),
                    None => None,
                }
            },
        }
    }
}

/// The cells of `head`, if there are any, followed by `tail` read from its
/// end.
pub open spec fn joined(head: Option<Seq<Vector>>, tail: Seq<Vector>) -> Option<Seq<Vector>> {
    match head {
        Some(s) => Some(s + flip(tail)),
        None => None,
    }
}

/// The cells of `v` in reverse order.
pub fn reversed(v: &Vec<Vector>) -> (out: Vec<Vector>)
    ensures
        out@ == flip(v@),
{
    let mut out: Vec<Vector> = Vec::new();
    let mut k: usize = v.len();
    while k > 0
        invariant
            k <= v.len(),
            out@.len() == v.len() - k,
            forall|i: int| 0 <= i < out@.len() ==> out@[i] == v@[v.len() - 1 - i],
        decreases k,
    {
        k -= 1;
        out.push(v[k]);
    }
    assert(out@ =~= flip(v@));
    out
}

/// Rebuilds the route to `end` from the predecessor records. The walk back
/// makes at most as many steps as there are records, so that records that
/// run in a circle give no route.
pub fn reconstruct(parents: &HashMap<u64, Option<Vector>>, start: Vector, end: Vector) -> (r:
    Option<Vec<Vector>>)
    ensures
        match r {
            Some(cells) => trace(parents@, start, end, parents@.len()) == Some(cells@),
            None => trace(parents@, start, end, parents@.len()).is_none(),
        },
{
    let limit: usize = parents.len();
    let mut back: Vec<Vector> = Vec::new();
    let mut cur: Vector = end;
    let mut fuel: usize = limit;
    loop
        invariant
            trace(parents@, start, end, parents@.len()) == joined(
                trace(parents@, start, cur, fuel as nat),
                back@,
            ),
        decreases fuel,
    {
        let k: u64 = key(cur);
        let ghost before = back@;
        match parents.get(&k) {
            None => {
                return None;
            },
            Some(entry) => {
                let stop: bool = cur == start || entry.is_none();
                if stop {
                    back.push(cur);
                    let out = reversed(&back);
                    assert(out@ =~= seq![cur] + flip(before));
                    return Some(out);
                }
                if fuel == 0 {
                    return None;
                }
                let p: Vector = entry.unwrap();
                back.push(cur);
                proof {
                    let rest = trace(parents@, start, p, (fuel - 1) as nat);
                    if rest.is_some() {
                        assert(rest.unwrap().push(cur) + flip(before) =~= rest.unwrap() + flip(
                            back@,
                        ));
                    }
                }
                cur = p;
                fuel -= 1;
            },
        }
    }
}

/// Adds up the prices of the cells that `cells` enters.
pub fn route_total(world: &GameWorld, cells: &Vec<Vector>) -> (total: u32)
    requires
        route_cost(world, cells@) <= u32::MAX,
        forall|i: int| 0 <= i < cells@.len() ==> in_bounds(world, #[trigger] cells@[i]),
    ensures
        total == route_cost(world, cells@),
{
    let mut total: u32 = 0;
    let mut k: usize = 1;
    if cells.len() <= 1 {
        return 0;
    }
    while k < cells.len()
        invariant
            1 <= k <= cells.len(),
            route_cost(world, cells@) <= u32::MAX,
            forall|i: int| 0 <= i < cells@.len() ==> in_bounds(world, #[trigger] cells@[i]),
            total == cost_upto(world, cells@, k - 1),
        decreases cells.len() - k,
    {
        proof {
            lemma_cost_grows(world, cells@, k as int, cells@.len() - 1);
        }
        let c: u8 = cells[k].cost(world);
        total = total + c as u32;
        k += 1;
    }
    total
}

} // verus!
