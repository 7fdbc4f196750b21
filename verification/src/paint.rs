use colored::{ColoredString, Colorize};
use vstd::prelude::*;
use crate::grid::GameWorld;
use crate::tile::{DecodeError, Shade, Tile};

verus! {

/// `colored::ColoredString`: a text with the colour and style it is printed
/// in.
#[verifier::external_type_specification]
#[verifier::external_body]
pub struct ExColoredString(ColoredString);

/// The text that a `ColoredString` holds in its field `input`.
pub uninterp spec fn painted_text(c: ColoredString) -> Seq<char>;

/// The foreground colour that a `ColoredString` holds in its field
/// `fgcolor`, by the code that `Color::to_fg_str` gives a named colour;
/// `None` where no colour is set.
pub uninterp spec fn painted_ink(c: ColoredString) -> Option<Seq<char>>;

/// Whether the field `style` of a `ColoredString` holds `Styles::Bold`.
pub uninterp spec fn painted_bold(c: ColoredString) -> bool;

/// The code of each colour a map is drawn in.
pub open spec fn ink_code(shade: Shade) -> Option<Seq<char>> {
    match shade {
        Shade::Plain => None,
        Shade::White => Some(seq!['3', '7']),
        Shade::Blue => Some(seq!['3', '4']),
        Shade::Red => Some(seq!['3', '1']),
        Shade::Green => Some(seq!['3', '2']),
    }
}

/// `c` shows the terrain kind `t`: its character, in its colour, bold where
/// the kind is drawn bold.
pub open spec fn drawn(c: ColoredString, t: Tile) -> bool {
    &&& painted_text(c) == seq![t.spec_traits().symbol]
    &&& painted_ink(c) == ink_code(t.spec_traits().shade)
    &&& painted_bold(c) == t.spec_traits().bold
}

/// The byte at row `i`, column `j` stands for a terrain kind.
pub open spec fn readable(world: &GameWorld, i: int, j: int) -> bool {
    Tile::spec_decode(world@[i]@[j]).is_some()
}

/// `Colorize::bold` on a `&str`: a `ColoredString` of that text with
/// `Styles::Bold` set and no colour.
#[verifier::external_body]
fn bold_text(text: &str) -> (r: ColoredString)
    ensures
        painted_text(r) == text@,
        painted_ink(r).is_none(),
        painted_bold(r),
{
    text.bold()
}

/// `Colorize::white` on a `&str`: a `ColoredString` of that text in
/// `Color::White`, with no style set.
#[verifier::external_body]
fn white_text(text: &str) -> (r: ColoredString)
    ensures
        painted_text(r) == text@,
        painted_ink(r) == Some(seq!['3', '7']),
        !painted_bold(r),
{
    text.white()
}

/// `Colorize::blue` on a `&str`: a `ColoredString` of that text in
/// `Color::Blue`, with no style set.
#[verifier::external_body]
fn blue_text(text: &str) -> (r: ColoredString)
    ensures
        painted_text(r) == text@,
        painted_ink(r) == Some(seq!['3', '4']),
        !painted_bold(r),
{
    text.blue()
}

/// `Colorize::red` on a `&str`: a `ColoredString` of that text in
/// `Color::Red`, with no style set.
#[verifier::external_body]
fn red_text(text: &str) -> (r: ColoredString)
    ensures
        painted_text(r) == text@,
        painted_ink(r) == Some(seq!['3', '1']),
        !painted_bold(r),
{
    text.red()
}

/// `Colorize::green` on a `&str`: a `ColoredString` of that text in
/// `Color::Green`, with no style set.
#[verifier::external_body]
fn green_text(text: &str) -> (r: ColoredString)
    ensures
        painted_text(r) == text@,
        painted_ink(r) == Some(seq!['3', '2']),
        !painted_bold(r),
{
    text.green()
}

/// `Colorize::bold` on a `ColoredString`: the same text and colour, with
/// `Styles::Bold` set.
#[verifier::external_body]
fn embolden(c: ColoredString) -> (r: ColoredString)
    ensures
        painted_text(r) == painted_text(c),
        painted_ink(r) == painted_ink(c),
        painted_bold(r),
{
    c.bold()
}

impl Tile {
    /// The coloured character that this kind is drawn as.
    pub fn as_color(self) -> (r: ColoredString)
        ensures
            drawn(r, self),
    {
        proof {
            reveal_strlit(" ");
            reveal_strlit("#");
            reveal_strlit("~");
            reveal_strlit("S");
            reveal_strlit("E");
            reveal_strlit("x");
        }
        let r = match self {
            Tile::Floor => bold_text(" "),
            Tile::Wall => white_text("#"),
            Tile::Water => blue_text("~"),
            Tile::Start => red_text("S"),
            Tile::End => embolden(red_text("E")),
            Tile::Path => green_text("x"),
        };
        assert(painted_text(r) =~= seq![self.spec_traits().symbol]);
        r
    }
}

/// Draws the grid cell by cell, ready to be printed. A byte that stands
/// for no terrain kind stops the drawing: the first such byte in row-major
/// order is handed back inside the error.
pub fn draw_game(world: &GameWorld) -> (r: Result<Vec<Vec<ColoredString>>, DecodeError>)
    ensures
        match r {
            Ok(rows) => {
                &&& rows@.len() == world@.len()
                &&& forall|i: int|
                    0 <= i < world@.len() ==> (#[trigger] rows@[i])@.len() == world@[i]@.len()
                &&& forall|i: int, j: int|
                    0 <= i < world@.len() && 0 <= j < world@[i]@.len() ==> #[trigger] readable(
                        world,
                        i,
                        j,
                    ) && drawn(rows@[i]@[j], Tile::spec_decode(world@[i]@[j]).unwrap())
            },
            Err(e) => exists|i: int, j: int|
                {
                    &&& 0 <= i < world@.len() && 0 <= j < world@[i]@.len()
                    &&& world@[i]@[j] == e.code
                    &&& !#[trigger] readable(world, i, j)
                    &&& forall|a: int, b: int|
                        0 <= a < world@.len() && 0 <= b < world@[a]@.len() && (a < i || (a == i
                            && b < j)) ==> #[trigger] readable(world, a, b)
                },
        },
{
    let mut rows: Vec<Vec<ColoredString>> = Vec::new();
    let mut i: usize = 0;
    while i < world.len()
        invariant
            i <= world.len(),
            rows@.len() == i,
            forall|a: int| 0 <= a < i ==> (#[trigger] rows@[a])@.len() == world@[a]@.len(),
            forall|a: int, b: int|
                0 <= a < i && 0 <= b < world@[a]@.len() ==> #[trigger] readable(world, a, b)
                    && drawn(rows@[a]@[b], Tile::spec_decode(world@[a]@[b]).unwrap()),
        decreases world.len() - i,
    {
        let mut row: Vec<ColoredString> = Vec::new();
        let mut j: usize = 0;
        while j < world[i].len()
            invariant
                i < world.len(),
                j <= world@[i as int]@.len(),
                row@.len() == j,
                rows@.len() == i,
                forall|a: int| 0 <= a < i ==> (#[trigger] rows@[a])@.len() == world@[a]@.len(),
                forall|a: int, b: int|
                    0 <= a < i && 0 <= b < world@[a]@.len() ==> #[trigger] readable(world, a, b)
                        && drawn(rows@[a]@[b], Tile::spec_decode(world@[a]@[b]).unwrap()),
                forall|b: int|
                    0 <= b < j ==> #[trigger] readable(world, i as int, b) && drawn(
                        row@[b],
                        Tile::spec_decode(world@[i as int]@[b]).unwrap(),
                    ),
            decreases world@[i as int]@.len() - j,
        {
            match Tile::decode(world[i][j]) {
                Ok(tile) => {
                    row.push(tile.as_color());
                },
                Err(e) => {
                    assert(!readable(world, i as int, j as int));
                    assert forall|a: int, b: int|
                        0 <= a < world@.len() && 0 <= b < world@[a]@.len() && (a < i || (a == i
                            && b < j)) implies #[trigger] readable(world, a, b) by {}
                    return Err(e);
                },
            }
            j += 1;
        }
        let ghost done = rows@;
        let ghost last = row@;
        rows.push(row);
        proof {
            assert(rows@[i as int]@ == last);
            assert forall|a: int, b: int|
                0 <= a < i + 1 && 0 <= b < world@[a]@.len() implies #[trigger] readable(
                world,
                a,
                b,
            ) && drawn(rows@[a]@[b], Tile::spec_decode(world@[a]@[b]).unwrap()) by {
                if a < i {
                    assert(rows@[a] == done[a]);
                }
            }
        }
        i += 1;
    }
    Ok(rows)
}

} // verus!
