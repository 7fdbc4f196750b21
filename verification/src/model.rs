use vstd::prelude::*;
use crate::frontier::{min_index, Node};
use crate::grid::{code_at, manhattan, neighbors, GameWorld, Vector};
use crate::route::{route_cost, trace, Route};
use crate::scores::key_of;
use crate::tile::code_cost;

verus! {

/// What a search knows at one moment: the scores, the predecessor records
/// and the candidates that wait.
pub struct Book {
    pub scores: Map<u64, u32>,
    pub parents: Map<u64, Option<Vector>>,
    pub waiting: Seq<Node>,
}

pub open spec fn book(
    scores: Map<u64, u32>,
    parents: Map<u64, Option<Vector>>,
    waiting: Seq<Node>,
) -> Book {
    Book { scores, parents, waiting }
}

/// The book a search opens with: the start has score 0 and no predecessor,
/// and waits alone.
pub open spec fn opening(start: Vector, end: Vector) -> Book {
    Book {
        scores: Map::<u64, u32>::empty().insert(key_of(start), 0u32),
        parents: Map::<u64, Option<Vector>>::empty().insert(key_of(start), None::<Vector>),
        waiting: Seq::<Node>::empty().push(Node(manhattan(end, start) as u32, start)),
    }
}

/// The book after the step from `cur` to `n` was weighed: if the way over
/// `cur` is the first or a cheaper one, `n` gets its score, `cur` as its
/// predecessor and a candidate in the frontier.
pub open spec fn relaxed(world: &GameWorld, end: Vector, b: Book, cur: Vector, n: Vector) -> Book {
    let t = b.scores[key_of(cur)] + code_cost(code_at(world, n));
    if !b.scores.contains_key(key_of(n)) || t < b.scores[key_of(n)] {
        Book {
            scores: b.scores.insert(key_of(n), t as u32),
            parents: b.parents.insert(key_of(n), Some(cur)),
            waiting: b.waiting.push(Node((t + manhattan(end, n)) as u32, n)),
        }
    } else {
        b
    }
}

/// The book after the first `upto` of `edges` were weighed in turn.
pub open spec fn expanded(
    world: &GameWorld,
    end: Vector,
    b: Book,
    cur: Vector,
    edges: Seq<Vector>,
    upto: int,
) -> Book
    decreases upto,
{
    if upto <= 0 {
        b
    } else {
        relaxed(world, end, expanded(world, end, b, cur, edges, upto - 1), cur, edges[upto - 1])
    }
}

/// The book without its least candidate.
pub open spec fn popped(b: Book) -> Book {
    Book { scores: b.scores, parents: b.parents, waiting: b.waiting.remove(min_index(b.waiting)) }
}

/// The least candidate's priority is above what its cell's present score
/// gives.
pub open spec fn stale(end: Vector, b: Book) -> bool {
    let node = b.waiting[min_index(b.waiting)];
    node.0 > b.scores[key_of(node.1)] + manhattan(end, node.1)
}

/// One round of the search on a book with a candidate: the least candidate
/// leaves, and unless it is out of date its cell is expanded.
pub open spec fn stepped(world: &GameWorld, end: Vector, b: Book) -> Book {
    let cur = b.waiting[min_index(b.waiting)].1;
    if stale(end, b) {
        popped(b)
    } else {
        expanded(
            world,
            end,
            popped(b),
            cur,
            neighbors(world, cur),
            neighbors(world, cur).len() as int,
        )
    }
}

/// Where the search ends if it is given `fuel` rounds: with no route when
/// nothing waits, with the walk back from `end` when the least candidate is
/// for `end`. `None` says that the rounds did not suffice.
pub open spec fn outcome(
    world: &GameWorld,
    start: Vector,
    end: Vector,
    b: Book,
    fuel: nat,
) -> Option<Option<Seq<Vector>>>
    decreases fuel,
{
    if b.waiting.len() == 0 {
        Some(None)
    } else if b.waiting[min_index(b.waiting)].1 == end {
        Some(trace(b.parents, start, end, b.parents.len()))
    } else if fuel == 0 {
        None
    } else {
        outcome(world, start, end, stepped(world, end, b), (fuel - 1) as nat)
    }
}

/// The search ends within `n` rounds.
pub open spec fn ends_within(world: &GameWorld, start: Vector, end: Vector, n: nat) -> bool {
    outcome(world, start, end, opening(start, end), n).is_some()
}

/// The route that the search finds on this grid between these cells, as a
/// function of them alone.
pub open spec fn search_model(world: &GameWorld, start: Vector, end: Vector) -> Option<Seq<Vector>> {
    let n = choose|n: nat| ends_within(world, start, end, n);
    match outcome(world, start, end, opening(start, end), n) {
        Some(found) => found,
        None => None,
    }
}

/// The cells of a route that was found.
pub open spec fn cells_of(r: Option<Route>) -> Option<Seq<Vector>> {
    match r {
        Some(route) => Some(route.cells@),
        None => None,
    }
}

/// More rounds than a search needs change nothing.
pub proof fn lemma_outcome_stable(
    world: &GameWorld,
    start: Vector,
    end: Vector,
    b: Book,
    a: nat,
    c: nat,
)
    requires
        outcome(world, start, end, b, a).is_some(),
        a <= c,
    ensures
        outcome(world, start, end, b, c) == outcome(world, start, end, b, a),
    decreases a,
{
    if b.waiting.len() != 0 && b.waiting[min_index(b.waiting)].1 != end {
        lemma_outcome_stable(
            world,
            start,
            end,
            stepped(world, end, b),
            (a - 1) as nat,
            (c - 1) as nat,
        );
    }
}

/// A search that ends within some number of rounds ends as the model says.
pub proof fn lemma_model(world: &GameWorld, start: Vector, end: Vector, n: nat)
    requires
        ends_within(world, start, end, n),
    ensures
        outcome(world, start, end, opening(start, end), n) == Some(
            search_model(world, start, end),
        ),
{
    let m = choose|m: nat| ends_within(world, start, end, m);
    if m <= n {
        lemma_outcome_stable(world, start, end, opening(start, end), m, n);
    } else {
        lemma_outcome_stable(world, start, end, opening(start, end), n, m);
    }
}

/// The rounds made so far have led from the opening book to `b`: whatever
/// the search on `b` ends with, the whole search ends with.
#[verifier::opaque]
pub open spec fn on_course(
    world: &GameWorld,
    start: Vector,
    end: Vector,
    b: Book,
    steps: nat,
) -> bool {
    forall|n: nat|
        (#[trigger] outcome(world, start, end, b, n)).is_some() ==> outcome(
            world,
            start,
            end,
            opening(start, end),
            steps + n,
        ) == outcome(world, start, end, b, n)
}

/// Before its first round the search is on course.
pub proof fn lemma_course_opens(world: &GameWorld, start: Vector, end: Vector)
    ensures
        on_course(world, start, end, opening(start, end), 0),
{
    reveal(on_course);
}

/// One more round keeps the search on course.
pub proof fn lemma_on_course(world: &GameWorld, start: Vector, end: Vector, b: Book, steps: nat)
    requires
        on_course(world, start, end, b, steps),
        b.waiting.len() != 0,
        b.waiting[min_index(b.waiting)].1 != end,
    ensures
        on_course(world, start, end, stepped(world, end, b), steps + 1),
{
    reveal(on_course);
    let b2 = stepped(world, end, b);
    assert forall|n: nat| (#[trigger] outcome(world, start, end, b2, n)).is_some() implies outcome(
        world,
        start,
        end,
        opening(start, end),
        steps + 1 + n,
    ) == outcome(world, start, end, b2, n) by {
        assert(outcome(world, start, end, b, n + 1) == outcome(world, start, end, b2, n));
    }
}

/// A search on course with nothing waiting ends without a route.
pub proof fn lemma_course_ends_empty(
    world: &GameWorld,
    start: Vector,
    end: Vector,
    b: Book,
    steps: nat,
)
    requires
        on_course(world, start, end, b, steps),
        b.waiting.len() == 0,
    ensures
        search_model(world, start, end).is_none(),
{
    reveal(on_course);
    assert(outcome(world, start, end, b, 0) == Some(None::<Seq<Vector>>));
    lemma_model(world, start, end, steps);
}

/// A search on course whose least candidate is for `end` ends with the walk
/// back from `end`.
pub proof fn lemma_course_ends_found(
    world: &GameWorld,
    start: Vector,
    end: Vector,
    b: Book,
    steps: nat,
)
    requires
        on_course(world, start, end, b, steps),
        b.waiting.len() != 0,
        b.waiting[min_index(b.waiting)].1 == end,
    ensures
        search_model(world, start, end) == trace(b.parents, start, end, b.parents.len()),
{
    reveal(on_course);
    assert(outcome(world, start, end, b, 0) == Some(
        trace(b.parents, start, end, b.parents.len()),
    ));
    lemma_model(world, start, end, steps);
}

/// Two searches on the same grid between the same cells give the same
/// result: both find nothing, or both find the same cells at the same cost.
pub proof fn lemma_search_repeats(
    world: &GameWorld,
    start: Vector,
    end: Vector,
    a: Option<Route>,
    b: Option<Route>,
)
    requires
        cells_of(a) == search_model(world, start, end),
        cells_of(b) == search_model(world, start, end),
        a matches Some(route) ==> route.total == route_cost(world, route.cells@),
        b matches Some(route) ==> route.total == route_cost(world, route.cells@),
    ensures
        a.is_some() == b.is_some(),
        a.is_some() ==> a.unwrap().cells@ == b.unwrap().cells@ && a.unwrap().total
            == b.unwrap().total,
{
}

} // verus!
