//! Clicks on the board as the library receives them.

use vstd::prelude::*;
use crate::constants::{TILE_COLUMNS, TILE_ROWS};

verus! {

/// The mouse button of a click.
#[derive(Clone, Copy, PartialEq, Eq, Structural, Debug)]
pub enum ClickButton {
    Left,
    Right,
    Middle,
}

/// A click on the tile `(x, y)`, counted from the lower left corner.
#[derive(Clone, Copy, PartialEq, Eq, Structural, Debug)]
pub struct TileClickEvent {
    pub x: u32,
    pub y: u32,
    pub button: ClickButton,
}

impl TileClickEvent {
    /// The click lands on a tile of the board.
    pub open spec fn on_board(&self) -> bool {
        self.x < TILE_COLUMNS && self.y < TILE_ROWS
    }
}

/// Turns a press of the mouse over the tile `(x, y)` into a click event: a
/// left press gives a left click, else a right press a right click; nothing
/// when no button was pressed or the tile lies off the board.
pub fn click_event(x: u32, y: u32, left_pressed: bool, right_pressed: bool) -> (r: Option<TileClickEvent>)
    ensures
        r is Some <==> ((left_pressed || right_pressed) && x < TILE_COLUMNS && y < TILE_ROWS),
        r matches Some(e) ==> e.x == x && e.y == y && e.button == (if left_pressed {
            ClickButton::Left
        } else {
            ClickButton::Right
        }),
{
    if !left_pressed && !right_pressed {
        return None;
    }
    if (x as usize) < TILE_COLUMNS && (y as usize) < TILE_ROWS {
        Some(
            TileClickEvent {
                x,
                y,
                button: if left_pressed {
                    ClickButton::Left
                } else {
                    ClickButton::Right
                },
            },
        )
    } else {
        None
    }
}

} // verus!
