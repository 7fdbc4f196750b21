use vstd::prelude::*;

verus! {

/// The kinds of terrain a cell can hold.
#[derive(PartialEq, Eq, Structural, Clone, Copy, Debug)]
pub enum Tile {
    Floor,
    Wall,
    Water,
    Start,
    End,
    Path,
}

/// The colours a map is drawn in.
#[derive(PartialEq, Eq, Structural, Clone, Copy, Debug)]
pub enum Shade {
    Plain,
    White,
    Blue,
    Red,
    Green,
}

/// What a terrain kind offers: the price of entering it, whether it can be
/// entered at all, and how it is drawn on a map: the character that stands
/// for it, its colour, and whether it is drawn bold.
#[derive(PartialEq, Eq, Structural, Clone, Copy, Debug)]
pub struct TileTraits {
    pub cost: u8,
    pub passable: bool,
    pub symbol: char,
    pub shade: Shade,
    pub bold: bool,
}

/// A byte that stands for no terrain kind.
#[derive(PartialEq, Eq, Structural, Clone, Copy, Debug)]
pub struct DecodeError {
    pub code: u8,
}

/// The price of entering a cell whose stored byte is `code`.
pub open spec fn code_cost(code: u8) -> u8 {
    if code == 0 {
        1
    } else if code == 2 {
        5
    } else if code == 3 || code == 4 {
        0
    } else {
        10
    }
}

/// The byte under which the wall is stored.
pub const WALL_CODE: u8 = 1;

impl Tile {
    /// The byte under which this kind is stored in a grid.
    pub open spec fn spec_code(self) -> u8 {
        match self {
            Tile::Floor => 0,
            Tile::Wall => 1,
            Tile::Water => 2,
            Tile::Start => 3,
            Tile::End => 4,
            Tile::Path => 5,
        }
    }

    /// The kind stored under `code`, if there is one.
    pub open spec fn spec_decode(code: u8) -> Option<Tile> {
        if code == 0 {
            Some(Tile::Floor)
        } else if code == 1 {
            Some(Tile::Wall)
        } else if code == 2 {
            Some(Tile::Water)
        } else if code == 3 {
            Some(Tile::Start)
        } else if code == 4 {
            Some(Tile::End)
        } else if code == 5 {
            Some(Tile::Path)
        } else {
            None
        }
    }

    /// The capabilities of each kind, as one table.
    pub open spec fn spec_traits(self) -> TileTraits {
        match self {
            Tile::Floor => TileTraits {
                cost: 1,
                passable: true,
                symbol: ' ',
                shade: Shade::Plain,
                bold: true,
            },
            Tile::Wall => TileTraits {
                cost: 10,
                passable: false,
                symbol: '#',
                shade: Shade::White,
                bold: false,
            },
            Tile::Water => TileTraits {
                cost: 5,
                passable: true,
                symbol: '~',
                shade: Shade::Blue,
                bold: false,
            },
            Tile::Start => TileTraits {
                cost: 0,
                passable: true,
                symbol: 'S',
                shade: Shade::Red,
                bold: false,
            },
            Tile::End => TileTraits {
                cost: 0,
                passable: true,
                symbol: 'E',
                shade: Shade::Red,
                bold: true,
            },
            Tile::Path => TileTraits {
                cost: 10,
                passable: true,
                symbol: 'x',
                shade: Shade::Green,
                bold: false,
            },
        }
    }

    pub fn code(self) -> (c: u8)
        ensures
            c == self.spec_code(),
            Tile::spec_decode(c) == Some(self),
    {
        match self {
            Tile::Floor => 0,
            Tile::Wall => 1,
            Tile::Water => 2,
            Tile::Start => 3,
            Tile::End => 4,
            Tile::Path => 5,
        }
    }

    /// Reads a stored byte back into its kind; a byte that stands for none is
    /// handed back inside the error.
    pub fn decode(code: u8) -> (r: Result<Tile, DecodeError>)
        ensures
            match r {
                Ok(t) => Tile::spec_decode(code) == Some(t) && t.spec_code() == code,
                Err(e) => Tile::spec_decode(code) is None && e.code == code && code > 5,
            },
    {
        match code {
            0 => Ok(Tile::Floor),
            1 => Ok(Tile::Wall),
            2 => Ok(Tile::Water),
            3 => Ok(Tile::Start),
            4 => Ok(Tile::End),
            5 => Ok(Tile::Path),
            _ => Err(DecodeError { code }),
        }
    }

    pub fn traits(self) -> (t: TileTraits)
        ensures
            t == self.spec_traits(),
            t.cost == code_cost(self.spec_code()),
            t.passable == (self.spec_code() != WALL_CODE),
    {
        match self {
            Tile::Floor => TileTraits {
                cost: 1,
                passable: true,
                symbol: ' ',
                shade: Shade::Plain,
                bold: true,
            },
            Tile::Wall => TileTraits {
                cost: 10,
                passable: false,
                symbol: '#',
                shade: Shade::White,
                bold: false,
            },
            Tile::Water => TileTraits {
                cost: 5,
                passable: true,
                symbol: '~',
                shade: Shade::Blue,
                bold: false,
            },
            Tile::Start => TileTraits {
                cost: 0,
                passable: true,
                symbol: 'S',
                shade: Shade::Red,
                bold: false,
            },
            Tile::End => TileTraits {
                cost: 0,
                passable: true,
                symbol: 'E',
                shade: Shade::Red,
                bold: true,
            },
            Tile::Path => TileTraits {
                cost: 10,
                passable: true,
                symbol: 'x',
                shade: Shade::Green,
                bold: false,
            },
        }
    }
}

/// The price of entering a cell that holds `code`. A byte that stands for no
/// terrain kind is priced like the dearest one.
pub fn step_cost(code: u8) -> (c: u8)
    ensures
        c == code_cost(code),
{
    match Tile::decode(code) {
        Ok(t) => t.traits().cost,
        Err(_) => 10,
    }
}

} // verus!
