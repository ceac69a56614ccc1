//! What a click does to the board and to the game clock.

use vstd::prelude::*;
use crate::board::Board;
use crate::input::{ClickButton, TileClickEvent};
use crate::tile::TileType;
use crate::model::{flag_toggled, generated, is_mine_order, left_clicked, middle_clicked, Cell};

verus! {

/// The state of the game around the board: whether the clock runs.
pub struct GameState {
    pub is_active: bool,
}

impl Default for GameState {
    fn default() -> (r: Self)
        ensures
            !r.is_active,
    {
        GameState { is_active: false }
    }
}

/// The cell that a click lands on.
pub open spec fn clicked_cell(event: TileClickEvent) -> Cell {
    (event.x as usize, event.y as usize)
}

/// Whatever the button, a click lands on the column and the row that the
/// event carries.
pub proof fn law_click_lands_on_its_cell(event: TileClickEvent)
    ensures
        clicked_cell(event).0 == event.x,
        clicked_cell(event).1 == event.y,
{
}

/// Handles a click: starts the clock, then
/// - left: lays the mines first if they are not laid yet (never on or next
///   to the clicked tile), then opens the clicked tile unless it is a mine;
/// - right: toggles the flag, once the mines are laid;
/// - middle: opens around an opened number, once the mines are laid.
pub fn process_input(event: &TileClickEvent, board: &mut Board, state: &mut GameState)
    requires
        old(board).wf(),
        event.on_board(),
    ensures
        final(state).is_active,
        final(board).wf(),
        ({
            let c: Cell = (event.x as usize, event.y as usize);
            let before = old(board)@;
            let after = final(board)@;
            match event.button {
                ClickButton::Left => {
                    &&& final(board).generated_flag()
                    &&& old(board).generated_flag() ==> after == left_clicked(before, c)
                    &&& !old(board).generated_flag() ==> exists|order: Seq<Cell>|
                        is_mine_order(order, c) && after == left_clicked(
                            #[trigger] generated(before, order),
                            c,
                        )
                },
                ClickButton::Right => {
                    &&& final(board).generated_flag() == old(board).generated_flag()
                    &&& after == if old(board).generated_flag() {
                        flag_toggled(before, c)
                    } else {
                        before
                    }
                },
                ClickButton::Middle => {
                    &&& final(board).generated_flag() == old(board).generated_flag()
                    &&& after == if old(board).generated_flag() {
                        middle_clicked(before, c)
                    } else {
                        before
                    }
                },
            }
        }),
{
    if !state.is_active {
        state.is_active = true;
    }
    let x = event.x as usize;
    let y = event.y as usize;
    match event.button {
        ClickButton::Left => {
            if !board.is_generated() {
                board.place_mines(x, y);
            }
            if board.get_tile(x, y).tile_type == TileType::Mine {
                // a mine ends the game; nothing is opened here
            } else {
                board.open_chain(x, y);
            }
        },
        ClickButton::Right => {
            if !board.is_generated() {
                return;
            }
            board.toggle_flag(x, y);
        },
        ClickButton::Middle => {
            if !board.is_generated() {
                return;
            }
            board.handle_middle_click(x, y);
        },
    }
}

} // verus!
