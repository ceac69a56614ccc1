use vstd::prelude::*;

verus! {

/// What a tile holds: a mine, or nothing with the number of mines around it.
#[derive(Clone, Copy, PartialEq, Eq, Structural, Debug)]
pub enum TileType {
    Empty(u8),
    Mine,
}

/// How a tile is shown: hidden, opened, or marked with a flag.
#[derive(Clone, Copy, PartialEq, Eq, Structural, Debug)]
pub enum TileAppearance {
    Hidden,
    Revealed,
    Flagged,
}

/// The whole state of one tile.
#[derive(Clone, Copy, PartialEq, Eq, Structural, Debug)]
pub struct TileState {
    pub tile_type: TileType,
    pub appearance: TileAppearance,
}

/// The state every tile has on a fresh board.
pub open spec fn fresh_tile() -> TileState {
    TileState { tile_type: TileType::Empty(0), appearance: TileAppearance::Hidden }
}

impl Default for TileType {
    fn default() -> (r: Self)
        ensures
            r == TileType::Empty(0),
    {
        TileType::Empty(0)
    }
}

impl Default for TileAppearance {
    fn default() -> (r: Self)
        ensures
            r == TileAppearance::Hidden,
    {
        TileAppearance::Hidden
    }
}

impl Default for TileState {
    fn default() -> (r: Self)
        ensures
            r == fresh_tile(),
    {
        TileState { tile_type: TileType::Empty(0), appearance: TileAppearance::Hidden }
    }
}

} // verus!
