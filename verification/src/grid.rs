use vstd::prelude::*;
use crate::tile::{code_cost, step_cost, Tile, WALL_CODE};

verus! {

/// A cell of the grid: its row, then its column.
#[derive(PartialEq, Eq, Structural, Clone, Copy, Debug, Hash)]
pub struct Vector(pub u8, pub u8);

/// The terrain, row by row, each cell as its stored byte.
pub type GameWorld = Vec<Vec<u8>>;

/// Why a grid or a coordinate is refused.
#[derive(PartialEq, Eq, Structural, Clone, Copy, Debug)]
pub enum GridError {
    /// No rows, no columns, rows of different lengths, or more rows or
    /// columns than a coordinate can count.
    InvalidGrid,
    /// No cell holds the start marker, or none holds the end marker.
    MissingMarker,
    /// The coordinate names no cell of the grid.
    OutOfBounds,
}

pub open spec fn height(world: &GameWorld) -> int {
    world@.len() as int
}

pub open spec fn width(world: &GameWorld) -> int {
    if world@.len() > 0 {
        world@[0]@.len() as int
    } else {
        0
    }
}

/// All rows are as long as the first, and a coordinate can name every cell.
pub open spec fn well_formed(world: &GameWorld) -> bool {
    &&& world@.len() <= 256
    &&& width(world) <= 256
    &&& forall|i: int| 0 <= i < world@.len() ==> (#[trigger] world@[i])@.len() == width(world)
}

/// A well-formed grid with at least one cell.
pub open spec fn is_grid(world: &GameWorld) -> bool {
    well_formed(world) && height(world) >= 1 && width(world) >= 1
}

pub open spec fn in_bounds(world: &GameWorld, v: Vector) -> bool {
    (v.0 as int) < world@.len() && (v.1 as int) < world@[v.0 as int]@.len()
}

pub open spec fn code_at(world: &GameWorld, v: Vector) -> u8 {
    world@[v.0 as int]@[v.1 as int]
}

/// The cell exists and holds `code`.
pub open spec fn holds(world: &GameWorld, v: Vector, code: u8) -> bool {
    in_bounds(world, v) && code_at(world, v) == code
}

/// The cell exists and is no wall.
pub open spec fn passable(world: &GameWorld, v: Vector) -> bool {
    in_bounds(world, v) && code_at(world, v) != WALL_CODE
}

/// Row-major order, strict.
pub open spec fn before(a: Vector, b: Vector) -> bool {
    a.0 < b.0 || (a.0 == b.0 && a.1 < b.1)
}

/// `v` is the first cell in row-major order that holds `code`.
pub open spec fn first_with(world: &GameWorld, v: Vector, code: u8) -> bool {
    holds(world, v, code) && forall|u: Vector| #[trigger] holds(world, u, code) ==> !before(u, v)
}

/// No cell holds `code`.
pub open spec fn absent(world: &GameWorld, code: u8) -> bool {
    forall|u: Vector| !#[trigger] holds(world, u, code)
}

pub open spec fn manhattan(a: Vector, b: Vector) -> int {
    (if a.0 >= b.0 { a.0 - b.0 } else { b.0 - a.0 }) + (if a.1 >= b.1 { a.1 - b.1 } else { b.1 - a.1 })
}

/// One cardinal step apart.
pub open spec fn adjacent(a: Vector, b: Vector) -> bool {
    manhattan(a, b) == 1
}

/// `v` alone if it can be entered, nothing otherwise.
pub open spec fn open_cell(world: &GameWorld, v: Vector) -> Seq<Vector> {
    if passable(world, v) {
        seq![v]
    } else {
        Seq::empty()
    }
}

pub open spec fn north(world: &GameWorld, v: Vector) -> Seq<Vector> {
    if v.0 > 0 {
        open_cell(world, Vector((v.0 - 1) as u8, v.1))
    } else {
        Seq::empty()
    }
}

pub open spec fn east(world: &GameWorld, v: Vector) -> Seq<Vector> {
    if v.1 + 1 < width(world) {
        open_cell(world, Vector(v.0, (v.1 + 1) as u8))
    } else {
        Seq::empty()
    }
}

pub open spec fn south(world: &GameWorld, v: Vector) -> Seq<Vector> {
    if v.0 + 1 < height(world) {
        open_cell(world, Vector((v.0 + 1) as u8, v.1))
    } else {
        Seq::empty()
    }
}

pub open spec fn west(world: &GameWorld, v: Vector) -> Seq<Vector> {
    if v.1 > 0 {
        open_cell(world, Vector(v.0, (v.1 - 1) as u8))
    } else {
        Seq::empty()
    }
}

/// The cells one step from `v` that can be entered: north, east, south, west.
pub open spec fn neighbors(world: &GameWorld, v: Vector) -> Seq<Vector> {
    if height(world) < 1 || width(world) < 1 {
        Seq::empty()
    } else {
        north(world, v) + east(world, v) + south(world, v) + west(world, v)
    }
}

/// The neighbours of a cell are exactly the passable cells one step from it.
pub proof fn lemma_neighbors(world: &GameWorld, v: Vector, n: Vector)
    requires
        is_grid(world),
        in_bounds(world, v),
    ensures
        neighbors(world, v).contains(n) <==> (adjacent(v, n) && passable(world, n)),
{
    let no = north(world, v);
    let ea = east(world, v);
    let so = south(world, v);
    let we = west(world, v);
    let all = neighbors(world, v);
    assert(world@[v.0 as int]@.len() == width(world));
    if adjacent(v, n) && passable(world, n) {
        assert(world@[n.0 as int]@.len() == width(world));
        if n.0 < v.0 {
            assert(no =~= seq![n]);
            assert(all[0] == n);
        } else if n.1 > v.1 {
            assert(ea =~= seq![n]);
            assert(all[no.len() as int] == n);
        } else if n.0 > v.0 {
            assert(so =~= seq![n]);
            assert(all[(no.len() + ea.len()) as int] == n);
        } else {
            assert(we =~= seq![n]);
            assert(all[(no.len() + ea.len() + so.len()) as int] == n);
        }
    }
    if all.contains(n) {
        let i = choose|i: int| 0 <= i < all.len() && all[i] == n;
        assert(all[i] == n);
    }
}

impl Vector {
    /// The price of entering this cell.
    pub fn cost(&self, world: &GameWorld) -> (c: u8)
        requires
            in_bounds(world, *self),
        ensures
            c == code_cost(code_at(world, *self)),
            c <= 10,
    {
        step_cost(world[self.0 as usize][self.1 as usize])
    }
}

/// Whether `v` names a cell of the grid.
pub fn has_cell(world: &GameWorld, v: Vector) -> (r: bool)
    ensures
        r == in_bounds(world, v),
{
    (v.0 as usize) < world.len() && (v.1 as usize) < world[v.0 as usize].len()
}

/// The byte stored at `v`.
pub fn lookup(world: &GameWorld, v: Vector) -> (r: Result<u8, GridError>)
    ensures
        in_bounds(world, v) ==> r == Ok::<u8, GridError>(code_at(world, v)),
        !in_bounds(world, v) ==> r == Err::<u8, GridError>(GridError::OutOfBounds),
{
    if (v.0 as usize) < world.len() && (v.1 as usize) < world[v.0 as usize].len() {
        Ok(world[v.0 as usize][v.1 as usize])
    } else {
        Err(GridError::OutOfBounds)
    }
}

pub fn manhattan_distance(end: &Vector, node: &Vector) -> (d: u16)
    ensures
        d == manhattan(*end, *node),
        d <= 510,
{
    let dr: u8 = if end.0 >= node.0 { end.0 - node.0 } else { node.0 - end.0 };
    let dc: u8 = if end.1 >= node.1 { end.1 - node.1 } else { node.1 - end.1 };
    dr as u16 + dc as u16
}

/// The estimate of what is left from `node` to `end`.
pub fn goal_heuristic(end: &Vector, node: &Vector) -> (d: u16)
    ensures
        d == manhattan(*end, *node),
        d <= 510,
{
    manhattan_distance(end, node)
}

/// The first cell in row-major order that holds the marker `search`.
pub fn find_node(world: &GameWorld, search: Tile) -> (r: Option<Vector>)
    requires
        well_formed(world),
    ensures
        match r {
            Some(v) => first_with(world, v, search.spec_code()),
            None => absent(world, search.spec_code()),
        },
{
    let code: u8 = search.code();
    let mut i: usize = 0;
    while i < world.len()
        invariant
            well_formed(world),
            i <= world.len(),
            code == search.spec_code(),
            forall|u: Vector| #[trigger] holds(world, u, code) ==> u.0 >= i,
        decreases world.len() - i,
    {
        let mut j: usize = 0;
        while j < world[i].len()
            invariant
                well_formed(world),
                i < world.len(),
                j <= world@[i as int]@.len(),
                code == search.spec_code(),
                forall|u: Vector| #[trigger] holds(world, u, code) ==> u.0 >= i,
                forall|u: Vector| #[trigger] holds(world, u, code) && u.0 == i ==> u.1 >= j,
            decreases world@[i as int]@.len() - j,
        {
            if world[i][j] == code {
                assert(world@[i as int]@.len() == width(world));
                return Some(Vector(i as u8, j as u8));
            }
            j += 1;
        }
        i += 1;
    }
    None
}

/// Checks the shape of a grid and finds its two markers.
pub fn validate(world: &GameWorld) -> (r: Result<(Vector, Vector), GridError>)
    ensures
        match r {
            Ok((s, e)) => is_grid(world) && first_with(world, s, Tile::Start.spec_code())
                && first_with(world, e, Tile::End.spec_code()),
            Err(GridError::InvalidGrid) => !is_grid(world),
            Err(GridError::MissingMarker) => is_grid(world) && (absent(
                world,
                Tile::Start.spec_code(),
            ) || absent(world, Tile::End.spec_code())),
            Err(GridError::OutOfBounds) => false,
        },
{
    if world.len() < 1 || world.len() > 256 {
        return Err(GridError::InvalidGrid);
    }
    let w: usize = world[0].len();
    if w < 1 || w > 256 {
        return Err(GridError::InvalidGrid);
    }
    let mut i: usize = 1;
    while i < world.len()
        invariant
            1 <= i <= world.len(),
            w == world@[0]@.len(),
            forall|k: int| 0 <= k < i ==> (#[trigger] world@[k])@.len() == w,
        decreases world.len() - i,
    {
        if world[i].len() != w {
            return Err(GridError::InvalidGrid);
        }
        i += 1;
    }
    match find_node(world, Tile::Start) {
        None => Err(GridError::MissingMarker),
        Some(s) => match find_node(world, Tile::End) {
            None => Err(GridError::MissingMarker),
            Some(e) => Ok((s, e)),
        },
    }
}

/// Appends `node` to `edges` unless it is a wall.
pub fn add_neighbor(world: &GameWorld, edges: &mut Vec<Vector>, node: Vector)
    requires
        in_bounds(world, node),
    ensures
        final(edges)@ == old(edges)@ + open_cell(world, node),
{
    if world[node.0 as usize][node.1 as usize] != Tile::Wall.code() {
        edges.push(node);
        assert(edges@ =~= old(edges)@ + open_cell(world, node));
    } else {
        assert(edges@ =~= old(edges)@ + open_cell(world, node));
    }
}

/// The cells that one step from `node` can enter, in the order north, east,
/// south, west.
pub fn get_edges(world: &GameWorld, node: &Vector) -> (edges: Vec<Vector>)
    requires
        well_formed(world),
        height(world) < 1 || width(world) < 1 || in_bounds(world, *node),
    ensures
        edges@ == neighbors(world, *node),
{
    let mut edges: Vec<Vector> = Vec::new();
    if world.len() < 1 || world[0].len() < 1 {
        return edges;
    }
    assert(world@[node.0 as int]@.len() == width(world));
    if node.0 > 0 {
        assert(world@[node.0 - 1]@.len() == width(world));
        add_neighbor(world, &mut edges, Vector(node.0 - 1, node.1));
    }
    assert(edges@ =~= north(world, *node));
    if (node.1 as usize) < world[node.0 as usize].len() - 1 {
        add_neighbor(world, &mut edges, Vector(node.0, node.1 + 1));
    }
    assert(edges@ =~= north(world, *node) + east(world, *node));
    if (node.0 as usize) < world.len() - 1 {
        assert(world@[node.0 + 1]@.len() == width(world));
        add_neighbor(world, &mut edges, Vector(node.0 + 1, node.1));
    }
    assert(edges@ =~= north(world, *node) + east(world, *node) + south(world, *node));
    if node.1 > 0 {
        add_neighbor(world, &mut edges, Vector(node.0, node.1 - 1));
    }
    assert(edges@ =~= neighbors(world, *node));
    edges
}

/// Whether `v` occurs in `path`.
pub fn on_path(path: &Vec<Vector>, v: Vector) -> (r: bool)
    ensures
        r == path@.contains(v),
{
    let mut k: usize = 0;
    while k < path.len()
        invariant
            k <= path.len(),
            forall|m: int| 0 <= m < k ==> path@[m] != v,
        decreases path.len() - k,
    {
        if path[k] == v {
            return true;
        }
        k += 1;
    }
    false
}

/// The byte that the overlay of `path` shows at `v`: floor and water under
/// the path become path, everything else stays.
pub open spec fn overlay_code(world: &GameWorld, path: Seq<Vector>, v: Vector) -> u8 {
    let c = code_at(world, v);
    if (c == 0 || c == 2) && path.contains(v) {
        5
    } else {
        c
    }
}

/// A copy of the grid with the path drawn on it.
pub fn combine_path(world: &GameWorld, path: &Vec<Vector>) -> (out: GameWorld)
    requires
        well_formed(world),
        forall|k: int| 0 <= k < path@.len() ==> in_bounds(world, #[trigger] path@[k]),
    ensures
        out@.len() == world@.len(),
        forall|i: int| 0 <= i < world@.len() ==> (#[trigger] out@[i])@.len() == world@[i]@.len(),
        forall|v: Vector| #[trigger]
            in_bounds(world, v) ==> code_at(&out, v) == overlay_code(world, path@, v),
{
    let mut out: Vec<Vec<u8>> = Vec::new();
    let mut i: usize = 0;
    while i < world.len()
        invariant
            well_formed(world),
            i <= world.len(),
            out@.len() == i,
            forall|r: int| 0 <= r < i ==> (#[trigger] out@[r])@.len() == world@[r]@.len(),
            forall|v: Vector| #[trigger]
                in_bounds(world, v) && v.0 < i ==> code_at(&out, v) == overlay_code(
                    world,
                    path@,
                    v,
                ),
        decreases world.len() - i,
    {
        let mut row: Vec<u8> = Vec::new();
        let mut j: usize = 0;
        while j < world[i].len()
            invariant
                well_formed(world),
                i < world.len(),
                j <= world@[i as int]@.len(),
                row@.len() == j,
                forall|c: int|
                    0 <= c < j ==> #[trigger] row@[c] == overlay_code(
                        world,
                        path@,
                        Vector(i as u8, c as u8),
                    ),
            decreases world@[i as int]@.len() - j,
        {
            assert(world@[i as int]@.len() == width(world));
            let c: u8 = world[i][j];
            let painted: bool = (c == Tile::Floor.code() || c == Tile::Water.code()) && on_path(
                path,
                Vector(i as u8, j as u8),
            );
            if painted {
                row.push(Tile::Path.code());
            } else {
                row.push(c);
            }
            j += 1;
        }
        out.push(row);
        proof {
            assert forall|v: Vector| #[trigger]
                in_bounds(world, v) && v.0 < i + 1 implies code_at(&out, v) == overlay_code(
                world,
                path@,
                v,
            ) by {
                if v.0 == i {
                    assert(Vector(i as u8, v.1 as int as u8) == v);
                }
            }
        }
        i += 1;
    }
    out
}

/// The rows of the sample terrain.
pub open spec fn sample_rows() -> Seq<Seq<u8>> {
    seq![
        seq![1u8, 1u8, 1u8, 1u8, 1u8, 1u8, 1u8, 1u8, 1u8, 1u8],
        seq![1u8, 0u8, 0u8, 0u8, 0u8, 0u8, 0u8, 0u8, 0u8, 1u8],
        seq![1u8, 0u8, 1u8, 1u8, 1u8, 1u8, 0u8, 1u8, 0u8, 1u8],
        seq![1u8, 0u8, 1u8, 1u8, 0u8, 0u8, 0u8, 1u8, 0u8, 1u8],
        seq![1u8, 0u8, 1u8, 1u8, 0u8, 0u8, 0u8, 1u8, 0u8, 1u8],
        seq![1u8, 0u8, 2u8, 2u8, 0u8, 0u8, 4u8, 1u8, 0u8, 1u8],
        seq![1u8, 0u8, 2u8, 2u8, 0u8, 0u8, 0u8, 0u8, 0u8, 1u8],
        seq![1u8, 0u8, 2u8, 2u8, 0u8, 1u8, 1u8, 2u8, 2u8, 1u8],
        seq![1u8, 0u8, 1u8, 1u8, 0u8, 0u8, 1u8, 0u8, 0u8, 1u8],
        seq![1u8, 0u8, 0u8, 0u8, 1u8, 0u8, 0u8, 0u8, 0u8, 1u8],
        seq![1u8, 0u8, 1u8, 0u8, 1u8, 1u8, 0u8, 0u8, 0u8, 1u8],
        seq![1u8, 3u8, 1u8, 0u8, 0u8, 0u8, 0u8, 0u8, 0u8, 1u8],
        seq![1u8, 1u8, 1u8, 1u8, 1u8, 1u8, 1u8, 1u8, 1u8, 1u8],
    ]
}

/// The sample terrain: thirteen rows of ten cells inside a wall.
pub fn create_game() -> (world: GameWorld)
    ensures
        is_grid(&world),
        height(&world) == 13,
        width(&world) == 10,
        forall|i: int| 0 <= i < 13 ==> (#[trigger] world@[i])@ == sample_rows()[i],
{
    let world: Vec<Vec<u8>> = vec![
        vec![1, 1, 1, 1, 1, 1, 1, 1, 1, 1],
        vec![1, 0, 0, 0, 0, 0, 0, 0, 0, 1],
        vec![1, 0, 1, 1, 1, 1, 0, 1, 0, 1],
        vec![1, 0, 1, 1, 0, 0, 0, 1, 0, 1],
        vec![1, 0, 1, 1, 0, 0, 0, 1, 0, 1],
        vec![1, 0, 2, 2, 0, 0, 4, 1, 0, 1],
        vec![1, 0, 2, 2, 0, 0, 0, 0, 0, 1],
        vec![1, 0, 2, 2, 0, 1, 1, 2, 2, 1],
        vec![1, 0, 1, 1, 0, 0, 1, 0, 0, 1],
        vec![1, 0, 0, 0, 1, 0, 0, 0, 0, 1],
        vec![1, 0, 1, 0, 1, 1, 0, 0, 0, 1],
        vec![1, 3, 1, 0, 0, 0, 0, 0, 0, 1],
        vec![1, 1, 1, 1, 1, 1, 1, 1, 1, 1],
    ];
    proof {
        assert(world@[0]@ =~= sample_rows()[0]);
        assert(world@[1]@ =~= sample_rows()[1]);
        assert(world@[2]@ =~= sample_rows()[2]);
        assert(world@[3]@ =~= sample_rows()[3]);
        assert(world@[4]@ =~= sample_rows()[4]);
        assert(world@[5]@ =~= sample_rows()[5]);
        assert(world@[6]@ =~= sample_rows()[6]);
        assert(world@[7]@ =~= sample_rows()[7]);
        assert(world@[8]@ =~= sample_rows()[8]);
        assert(world@[9]@ =~= sample_rows()[9]);
        assert(world@[10]@ =~= sample_rows()[10]);
        assert(world@[11]@ =~= sample_rows()[11]);
        assert(world@[12]@ =~= sample_rows()[12]);
    }
    world
}

} // verus!
