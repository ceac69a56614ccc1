//! What a tile shows: its shade, its mark, and the colour of its number.

use vstd::prelude::*;
use crate::tile::{TileAppearance, TileState, TileType};

verus! {

/// The mark drawn on a tile.
#[derive(Clone, Copy, PartialEq, Eq, Structural, Debug)]
pub enum TileLabel {
    /// Nothing is written.
    Nothing,
    /// A flag, "F".
    Flag,
    /// An opened mine, "B".
    Mine,
    /// The number of mines around an opened tile.
    Number(u8),
}

/// The colour in which a number is written.
#[derive(Clone, Copy, PartialEq, Eq, Structural, Debug)]
pub enum NumberColor {
    Blue,
    Green,
    Red,
    Indigo,
    Pink,
    Teal,
    Purple,
    Zinc,
}

pub open spec fn label_of(t: TileState) -> TileLabel {
    match t.appearance {
        TileAppearance::Hidden => TileLabel::Nothing,
        TileAppearance::Flagged => TileLabel::Flag,
        TileAppearance::Revealed => match t.tile_type {
            TileType::Mine => TileLabel::Mine,
            TileType::Empty(n) => if n > 0 {
                TileLabel::Number(n)
            } else {
                TileLabel::Nothing
            },
        },
    }
}

pub open spec fn color_of(n: u8) -> NumberColor {
    if n == 1 {
        NumberColor::Blue
    } else if n == 2 {
        NumberColor::Green
    } else if n == 3 {
        NumberColor::Red
    } else if n == 4 {
        NumberColor::Indigo
    } else if n == 5 {
        NumberColor::Pink
    } else if n == 6 {
        NumberColor::Teal
    } else if n == 7 {
        NumberColor::Purple
    } else {
        NumberColor::Zinc
    }
}

/// The mark of a tile: nothing on a hidden tile or an opened blank, "F" on a
/// flag, "B" on an opened mine, the number on an opened number.
pub fn tile_label(tile: &TileState) -> (r: TileLabel)
    ensures
        r == label_of(*tile),
{
    match tile.appearance {
        TileAppearance::Hidden => TileLabel::Nothing,
        TileAppearance::Flagged => TileLabel::Flag,
        TileAppearance::Revealed => match tile.tile_type {
            TileType::Mine => TileLabel::Mine,
            TileType::Empty(num) => {
                if num > 0 {
                    TileLabel::Number(num)
                } else {
                    TileLabel::Nothing
                }
            },
        },
    }
}

/// An opened tile is drawn in the dark shade, a hidden or flagged one in
/// the light shade.
pub fn is_dark_shade(tile: &TileState) -> (r: bool)
    ensures
        r == (tile.appearance == TileAppearance::Revealed),
{
    match tile.appearance {
        TileAppearance::Hidden | TileAppearance::Flagged => false,
        TileAppearance::Revealed => true,
    }
}

/// The colour of the numbers one to eight.
pub fn number_color(num: u8) -> (r: NumberColor)
    requires
        1 <= num <= 8,
    ensures
        r == color_of(num),
{
    match num {
        1 => NumberColor::Blue,
        2 => NumberColor::Green,
        3 => NumberColor::Red,
        4 => NumberColor::Indigo,
        5 => NumberColor::Pink,
        6 => NumberColor::Teal,
        7 => NumberColor::Purple,
        _ => NumberColor::Zinc,
    }
}

/// A tile that is not opened shows nothing of what it holds: a hidden tile
/// shows nothing, a flagged one a flag, whatever lies under it.
pub proof fn law_unopened_tiles_hide_contents(t: TileState, u: TileState)
    ensures
        t.appearance == TileAppearance::Hidden ==> label_of(t) == TileLabel::Nothing,
        t.appearance == TileAppearance::Flagged ==> label_of(t) == TileLabel::Flag,
        t.appearance != TileAppearance::Revealed && t.appearance == u.appearance ==> label_of(t)
            == label_of(u),
{
}

/// A mark tells what a tile holds only on an opened tile, and tells it
/// truly; a flag is shown exactly on flagged tiles.
pub proof fn law_labels_tell_contents(t: TileState, n: u8)
    ensures
        label_of(t) == TileLabel::Mine <==> (t.appearance == TileAppearance::Revealed && t.tile_type
            == TileType::Mine),
        label_of(t) == TileLabel::Number(n) <==> (t.appearance == TileAppearance::Revealed
            && t.tile_type == TileType::Empty(n) && n > 0),
        label_of(t) == TileLabel::Flag <==> t.appearance == TileAppearance::Flagged,
{
}

/// Distinct numbers are written in distinct colours.
pub proof fn law_number_colours_distinct(a: u8, b: u8)
    requires
        1 <= a <= 8,
        1 <= b <= 8,
        a != b,
    ensures
        color_of(a) != color_of(b),
{
}

} // verus!
