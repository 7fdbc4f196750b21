use colored::{Color, Styles};
use terrain_route::paint::draw_game;
use terrain_route::tile::{DecodeError, Tile};

#[test]
fn floor_is_a_bold_blank() {
    let c = Tile::Floor.as_color();
    assert_eq!(c.input, " ");
    assert_eq!(c.fgcolor, None);
    assert!(c.style.contains(Styles::Bold));
}

#[test]
fn wall_is_a_white_hash() {
    let c = Tile::Wall.as_color();
    assert_eq!(c.input, "#");
    assert_eq!(c.fgcolor, Some(Color::White));
    assert_eq!(c.fgcolor.unwrap().to_fg_str(), "37");
    assert!(!c.style.contains(Styles::Bold));
}

#[test]
fn water_is_a_blue_tilde() {
    let c = Tile::Water.as_color();
    assert_eq!(c.input, "~");
    assert_eq!(c.fgcolor, Some(Color::Blue));
    assert_eq!(c.fgcolor.unwrap().to_fg_str(), "34");
    assert!(!c.style.contains(Styles::Bold));
}

#[test]
fn start_is_a_red_s() {
    let c = Tile::Start.as_color();
    assert_eq!(c.input, "S");
    assert_eq!(c.fgcolor, Some(Color::Red));
    assert_eq!(c.fgcolor.unwrap().to_fg_str(), "31");
    assert!(!c.style.contains(Styles::Bold));
}

#[test]
fn end_is_a_bold_red_e() {
    let c = Tile::End.as_color();
    assert_eq!(c.input, "E");
    assert_eq!(c.fgcolor, Some(Color::Red));
    assert!(c.style.contains(Styles::Bold));
}

#[test]
fn path_is_a_green_x() {
    let c = Tile::Path.as_color();
    assert_eq!(c.input, "x");
    assert_eq!(c.fgcolor, Some(Color::Green));
    assert_eq!(c.fgcolor.unwrap().to_fg_str(), "32");
    assert!(!c.style.contains(Styles::Bold));
}

#[test]
fn colours_agree_with_the_traits_table() {
    let all = [Tile::Floor, Tile::Wall, Tile::Water, Tile::Start, Tile::End, Tile::Path];
    for t in all.iter() {
        let c = t.as_color();
        let traits = t.traits();
        assert_eq!(c.input, traits.symbol.to_string());
        assert_eq!(c.style.contains(Styles::Bold), traits.bold);
    }
}

#[test]
fn drawing_keeps_the_shape_of_the_grid() {
    let world = vec![vec![1, 3, 0], vec![2, 4, 5]];
    let rows = draw_game(&world).unwrap();
    assert_eq!(rows.len(), 2);
    assert_eq!(rows[0].len(), 3);
    assert_eq!(rows[1].len(), 3);
    let texts: Vec<Vec<String>> =
        rows.iter().map(|r| r.iter().map(|c| c.input.clone()).collect()).collect();
    assert_eq!(texts, vec![vec!["#", "S", " "], vec!["~", "E", "x"]]);
    assert_eq!(rows[1][0].fgcolor, Some(Color::Blue));
    assert_eq!(rows[1][2].fgcolor, Some(Color::Green));
}

#[test]
fn drawing_stops_at_the_first_unknown_byte() {
    let world = vec![vec![1, 0], vec![0, 9], vec![7, 0]];
    assert_eq!(draw_game(&world).unwrap_err(), DecodeError { code: 9 });
    let empty: Vec<Vec<u8>> = Vec::new();
    assert_eq!(draw_game(&empty).unwrap().len(), 0);
}
