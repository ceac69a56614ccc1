use minesweeper::tile::{TileAppearance, TileState, TileType};
use minesweeper::visual::{is_dark_shade, number_color, tile_label, NumberColor, TileLabel};

fn tile(t: TileType, a: TileAppearance) -> TileState {
    TileState { tile_type: t, appearance: a }
}

#[test]
fn labels_follow_appearance() {
    assert_eq!(tile_label(&tile(TileType::Mine, TileAppearance::Hidden)), TileLabel::Nothing);
    assert_eq!(tile_label(&tile(TileType::Empty(3), TileAppearance::Flagged)), TileLabel::Flag);
    assert_eq!(tile_label(&tile(TileType::Mine, TileAppearance::Revealed)), TileLabel::Mine);
    assert_eq!(tile_label(&tile(TileType::Empty(3), TileAppearance::Revealed)), TileLabel::Number(3));
    assert_eq!(tile_label(&tile(TileType::Empty(0), TileAppearance::Revealed)), TileLabel::Nothing);
}

#[test]
fn shades() {
    assert!(is_dark_shade(&tile(TileType::Empty(0), TileAppearance::Revealed)));
    assert!(!is_dark_shade(&tile(TileType::Empty(0), TileAppearance::Hidden)));
    assert!(!is_dark_shade(&tile(TileType::Mine, TileAppearance::Flagged)));
}

#[test]
fn number_colours() {
    let expected = [
        NumberColor::Blue,
        NumberColor::Green,
        NumberColor::Red,
        NumberColor::Indigo,
        NumberColor::Pink,
        NumberColor::Teal,
        NumberColor::Purple,
        NumberColor::Zinc,
    ];
    for n in 1..=8u8 {
        assert_eq!(number_color(n), expected[(n - 1) as usize]);
    }
}
