use vstd::prelude::*;

verus! {

/// Number of tile columns on the board.
pub const TILE_COLUMNS: usize = 20;

/// Number of tile rows on the board.
pub const TILE_ROWS: usize = 20;

/// Number of tiles on the board.
pub const TILE_COUNT: usize = 400;

/// Number of mines laid when the board is generated.
pub const MINE_COUNT: usize = 60;

} // verus!
