//! The mathematical model of a board: a sequence of tiles laid out row by
//! row, cells addressed by `(x, y)` pairs, and what each operation makes of
//! such a sequence.

use vstd::prelude::*;
use crate::constants::{MINE_COUNT, TILE_COLUMNS, TILE_COUNT, TILE_ROWS};
use crate::tile::{TileAppearance, TileState, TileType};

verus! {

/// A cell address `(x, y)`, counted from the lower left corner.
pub type Cell = (usize, usize);

/// The cell lies on the board.
pub open spec fn cell_ok(c: Cell) -> bool {
    c.0 < TILE_COLUMNS && c.1 < TILE_ROWS
}

/// Position of a cell in the row-major tile sequence.
pub open spec fn index(c: Cell) -> int {
    c.1 * TILE_COLUMNS + c.0
}

/// The cell stored at a position of the tile sequence.
pub open spec fn cell_of(i: int) -> Cell {
    ((i % (TILE_COLUMNS as int)) as usize, (i / (TILE_COLUMNS as int)) as usize)
}

/// The tile of a board at a cell.
pub open spec fn tile_at(s: Seq<TileState>, c: Cell) -> TileState {
    s[index(c)]
}

/// A tile sequence that covers the whole board.
pub open spec fn full(s: Seq<TileState>) -> bool {
    s.len() == TILE_COUNT
}

pub broadcast proof fn lemma_cell_of_index(c: Cell)
    requires
        cell_ok(c),
    ensures
        #[trigger] cell_of(index(c)) == c,
        0 <= index(c) < TILE_COUNT,
{
}

pub broadcast proof fn lemma_index_of_cell(i: int)
    requires
        0 <= i < TILE_COUNT,
    ensures
        cell_ok(cell_of(i)),
        #[trigger] index(cell_of(i)) == i,
{
}

pub broadcast group group_cells {
    lemma_cell_of_index,
    lemma_index_of_cell,
}

/// Horizontal step to the `k`-th of the eight neighbours, in the order
/// row below, same row, row above, each from left to right.
pub open spec fn offset_x(k: int) -> int {
    if k == 0 || k == 3 || k == 5 {
        -1
    } else if k == 1 || k == 6 {
        0
    } else {
        1
    }
}

/// Vertical step to the `k`-th of the eight neighbours.
pub open spec fn offset_y(k: int) -> int {
    if k <= 2 {
        -1
    } else if k <= 4 {
        0
    } else {
        1
    }
}

/// The `k`-th neighbour of a cell, when it lies on the board.
pub open spec fn neighbor(c: Cell, k: int) -> Option<Cell> {
    let nx = c.0 + offset_x(k);
    let ny = c.1 + offset_y(k);
    if 0 <= nx < TILE_COLUMNS && 0 <= ny < TILE_ROWS {
        Some((nx as usize, ny as usize))
    } else {
        None
    }
}

/// `b` is one of the eight cells around `a`.
pub open spec fn are_neighbors(a: Cell, b: Cell) -> bool {
    exists|k: int| 0 <= k < 8 && #[trigger] neighbor(a, k) == Some(b)
}

pub open spec fn is_mine(t: TileState) -> bool {
    t.tile_type == TileType::Mine
}

/// An empty tile with no mine around it.
pub open spec fn is_blank(t: TileState) -> bool {
    t.tile_type == TileType::Empty(0)
}

pub open spec fn is_hidden(t: TileState) -> bool {
    t.appearance == TileAppearance::Hidden
}

/// Number of mines among the first `k` neighbours of `c`.
pub open spec fn mines_around_upto(s: Seq<TileState>, c: Cell, k: int) -> nat
    decreases k,
{
    if k <= 0 {
        0
    } else {
        mines_around_upto(s, c, k - 1) + match neighbor(c, k - 1) {
            Some(n) => if is_mine(tile_at(s, n)) {
                1nat
            } else {
                0nat
            },
            None => 0nat,
        }
    }
}

/// Number of mines around `c`.
pub open spec fn mines_around(s: Seq<TileState>, c: Cell) -> nat {
    mines_around_upto(s, c, 8)
}

/// The number of mines around a cell depends on where the mines are only.
pub proof fn lemma_mines_around_same(s1: Seq<TileState>, s2: Seq<TileState>, c: Cell, k: int)
    requires
        full(s1),
        full(s2),
        forall|d: Cell| cell_ok(d) ==> is_mine(#[trigger] tile_at(s1, d)) == is_mine(tile_at(s2, d)),
    ensures
        mines_around_upto(s1, c, k) == mines_around_upto(s2, c, k),
    decreases k,
{
    if k > 0 {
        lemma_mines_around_same(s1, s2, c, k - 1);
        if let Some(n) = neighbor(c, k - 1) {
            assert(cell_ok(n));
            assert(is_mine(tile_at(s1, n)) == is_mine(tile_at(s2, n)));
        }
    }
}

/// At most `k` mines lie among the first `k` neighbours.
pub proof fn lemma_mines_around_bound(s: Seq<TileState>, c: Cell, k: int)
    requires
        0 <= k,
    ensures
        mines_around_upto(s, c, k) <= k,
    decreases k,
{
    if k > 0 {
        lemma_mines_around_bound(s, c, k - 1);
    }
}

/// With no mine counted among the first `k` neighbours, none of them is a mine.
pub proof fn lemma_no_mines_around(s: Seq<TileState>, c: Cell, k: int, m: int)
    requires
        mines_around_upto(s, c, k) == 0,
        0 <= m < k,
    ensures
        neighbor(c, m) matches Some(n) ==> !is_mine(tile_at(s, n)),
    decreases k,
{
    if m < k - 1 {
        lemma_no_mines_around(s, c, k - 1, m);
    }
}

/// With none of the first `k` neighbours a mine, none is counted.
pub proof fn lemma_mines_around_zero(s: Seq<TileState>, c: Cell, k: int)
    requires
        forall|m: int| 0 <= m < k ==> (#[trigger] neighbor(c, m) matches Some(n) ==> !is_mine(tile_at(s, n))),
    ensures
        mines_around_upto(s, c, k) == 0,
    decreases k,
{
    if k > 0 {
        lemma_mines_around_zero(s, c, k - 1);
    }
}

/// Number of flags among the first `k` neighbours of `c`.
pub open spec fn flags_around_upto(s: Seq<TileState>, c: Cell, k: int) -> nat
    decreases k,
{
    if k <= 0 {
        0
    } else {
        flags_around_upto(s, c, k - 1) + match neighbor(c, k - 1) {
            Some(n) => if tile_at(s, n).appearance == TileAppearance::Flagged {
                1nat
            } else {
                0nat
            },
            None => 0nat,
        }
    }
}

/// Number of flags around `c`.
pub open spec fn flags_around(s: Seq<TileState>, c: Cell) -> nat {
    flags_around_upto(s, c, 8)
}

/// The hidden cells among the first `k` neighbours of `c`, in neighbour order.
pub open spec fn hidden_neighbors_upto(s: Seq<TileState>, c: Cell, k: int) -> Seq<Cell>
    decreases k,
{
    if k <= 0 {
        Seq::empty()
    } else {
        let prev = hidden_neighbors_upto(s, c, k - 1);
        match neighbor(c, k - 1) {
            Some(n) => if is_hidden(tile_at(s, n)) {
                prev.push(n)
            } else {
                prev
            },
            None => prev,
        }
    }
}

/// The hidden cells around `c`, in neighbour order.
pub open spec fn hidden_neighbors(s: Seq<TileState>, c: Cell) -> Seq<Cell> {
    hidden_neighbors_upto(s, c, 8)
}

/// A path along which a flood opening spreads: every cell on it is hidden,
/// and every cell but the last is blank and touches the next one.
pub open spec fn chain_path(s: Seq<TileState>, p: Seq<Cell>) -> bool {
    &&& p.len() > 0
    &&& forall|i: int| 0 <= i < p.len() ==> cell_ok(#[trigger] p[i]) && is_hidden(tile_at(s, p[i]))
    &&& forall|i: int|
        0 <= i < p.len() - 1 ==> is_blank(tile_at(s, #[trigger] p[i])) && are_neighbors(
            p[i],
            p[i + 1],
        )
}

/// Opening `start` on board `s` also opens `c`.
pub open spec fn opens_from(s: Seq<TileState>, start: Cell, c: Cell) -> bool {
    exists|p: Seq<Cell>| #[trigger] chain_path(s, p) && p[0] == start && p.last() == c
}

/// The board after a flood opening from `start`: every cell that the
/// opening reaches is revealed, every other tile stays as it was.
pub open spec fn chain_opened(s: Seq<TileState>, start: Cell) -> Seq<TileState> {
    Seq::new(
        s.len(),
        |i: int|
            if opens_from(s, start, cell_of(i)) {
                TileState { tile_type: s[i].tile_type, appearance: TileAppearance::Revealed }
            } else {
                s[i]
            },
    )
}

/// Opening with the left button: nothing happens on a mine (the game-over
/// handling is left open), otherwise a flood opening from the cell.
pub open spec fn left_clicked(s: Seq<TileState>, c: Cell) -> Seq<TileState> {
    if is_mine(tile_at(s, c)) {
        s
    } else {
        chain_opened(s, c)
    }
}

/// Opening each of `starts` in turn with the left-button rule.
pub open spec fn open_each(s: Seq<TileState>, starts: Seq<Cell>) -> Seq<TileState>
    decreases starts.len(),
{
    if starts.len() == 0 {
        s
    } else {
        left_clicked(open_each(s, starts.drop_last()), starts.last())
    }
}

/// The board after a middle click on `c`: on an opened number whose flags
/// around it match the number, every hidden neighbour is opened; otherwise
/// nothing changes.
pub open spec fn middle_clicked(s: Seq<TileState>, c: Cell) -> Seq<TileState> {
    let t = tile_at(s, c);
    if t.appearance == TileAppearance::Revealed && (t.tile_type matches TileType::Empty(n) && n
        != 0 && flags_around(s, c) == n) {
        open_each(s, hidden_neighbors(s, c))
    } else {
        s
    }
}

/// Opening from some cell of `starts` also opens `c`.
pub open spec fn opens_from_some(s: Seq<TileState>, starts: Set<Cell>, c: Cell) -> bool {
    exists|a: Cell| starts.contains(a) && #[trigger] opens_from(s, a, c)
}

/// The board after one flood opening from all of `starts` at once: every
/// cell that a flood from one of them reaches is revealed, every other tile
/// stays as it was.
pub open spec fn set_opened(s: Seq<TileState>, starts: Set<Cell>) -> Seq<TileState> {
    Seq::new(
        s.len(),
        |i: int|
            if opens_from_some(s, starts, cell_of(i)) {
                TileState { tile_type: s[i].tile_type, appearance: TileAppearance::Revealed }
            } else {
                s[i]
            },
    )
}

/// The cells of `starts` that are not mines on `s`.
pub open spec fn safe_starts(s: Seq<TileState>, starts: Seq<Cell>) -> Set<Cell> {
    Set::new(|c: Cell| starts.contains(c) && !is_mine(tile_at(s, c)))
}

/// The appearance after a flag toggle.
pub open spec fn toggled_appearance(a: TileAppearance) -> TileAppearance {
    match a {
        TileAppearance::Hidden => TileAppearance::Flagged,
        TileAppearance::Flagged => TileAppearance::Hidden,
        TileAppearance::Revealed => TileAppearance::Revealed,
    }
}

/// The board after a flag toggle on `c`.
pub open spec fn flag_toggled(s: Seq<TileState>, c: Cell) -> Seq<TileState> {
    let t = tile_at(s, c);
    s.update(index(c), TileState { tile_type: t.tile_type, appearance: toggled_appearance(t.appearance) })
}

/// The cells of a mine order that receive a mine: its first `MINE_COUNT`.
pub open spec fn mine_prefix(order: Seq<Cell>) -> Seq<Cell> {
    if order.len() <= MINE_COUNT {
        order
    } else {
        order.take(MINE_COUNT as int)
    }
}

/// The board with a mine put on each cell of the mine prefix of `order`.
pub open spec fn laid(s: Seq<TileState>, order: Seq<Cell>) -> Seq<TileState> {
    Seq::new(
        s.len(),
        |i: int|
            if mine_prefix(order).contains(cell_of(i)) {
                TileState { tile_type: TileType::Mine, appearance: s[i].appearance }
            } else {
                s[i]
            },
    )
}

/// The board with the number of surrounding mines written on every tile
/// that is not a mine.
pub open spec fn numbered(s: Seq<TileState>) -> Seq<TileState> {
    Seq::new(
        s.len(),
        |i: int|
            if is_mine(s[i]) {
                s[i]
            } else {
                TileState {
                    tile_type: TileType::Empty(mines_around(s, cell_of(i)) as u8),
                    appearance: s[i].appearance,
                }
            },
    )
}

/// `c` lies in the 3x3 square centred on `click`.
pub open spec fn near(c: Cell, click: Cell) -> bool {
    -1 <= c.0 - click.0 <= 1 && -1 <= c.1 - click.1 <= 1
}

/// An order in which mines may be laid after a first click: every cell of
/// the board outside the 3x3 square around the click, each exactly once.
pub open spec fn is_mine_order(order: Seq<Cell>, click: Cell) -> bool {
    &&& order.no_duplicates()
    &&& forall|c: Cell| #[trigger] order.contains(c) <==> (cell_ok(c) && !near(c, click))
}

/// The board once mines are laid in `order` and the numbers are written.
pub open spec fn generated(s: Seq<TileState>, order: Seq<Cell>) -> Seq<TileState> {
    numbered(laid(s, order))
}

/// Number of hidden tiles in a sequence.
pub open spec fn count_hidden(s: Seq<TileState>) -> nat
    decreases s.len(),
{
    if s.len() == 0 {
        0
    } else {
        count_hidden(s.drop_last()) + if is_hidden(s.last()) {
            1nat
        } else {
            0nat
        }
    }
}

pub proof fn lemma_count_hidden_update(s: Seq<TileState>, i: int, v: TileState)
    requires
        0 <= i < s.len(),
        is_hidden(s[i]),
        !is_hidden(v),
    ensures
        count_hidden(s.update(i, v)) + 1 == count_hidden(s),
    decreases s.len(),
{
    if i == s.len() - 1 {
        assert(s.update(i, v).drop_last() =~= s.drop_last());
    } else {
        assert(s.update(i, v).drop_last() =~= s.drop_last().update(i, v));
        lemma_count_hidden_update(s.drop_last(), i, v);
    }
}

} // verus!
