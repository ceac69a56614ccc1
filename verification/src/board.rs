//! The board: its tiles, and the operations that the clicks perform on it.

use vstd::prelude::*;
use crate::constants::{MINE_COUNT, TILE_COLUMNS, TILE_COUNT, TILE_ROWS};
use crate::model::{
    are_neighbors, cell_of, cell_ok, chain_opened, chain_path, count_hidden, flag_toggled,
    flags_around_upto, full, generated, group_cells,
    hidden_neighbors_upto, index, is_blank, is_hidden, is_mine, is_mine_order, laid,
    lemma_count_hidden_update, lemma_mines_around_same, middle_clicked, mine_prefix, mines_around, mines_around_upto,
    near, neighbor, numbered, open_each, opens_from, tile_at, Cell,
};
use crate::random::{shuffle_cells, thread_rng};
use crate::tile::{fresh_tile, TileAppearance, TileState, TileType};

verus! {

broadcast use group_cells;

/// The tiles of the board, row by row from the bottom, and whether the
/// mines have been laid yet.
pub struct Board {
    pub tiles: Vec<TileState>,
    is_generated: bool,
}

/// The `k`-th neighbour of `(x, y)`, when it lies on the board.
pub fn neighbor_cell(x: usize, y: usize, k: usize) -> (r: Option<(usize, usize)>)
    requires
        x < TILE_COLUMNS,
        y < TILE_ROWS,
        k < 8,
    ensures
        r == neighbor((x, y), k as int),
{
    let dx: i32 = if k == 0 || k == 3 || k == 5 {
        -1
    } else if k == 1 || k == 6 {
        0
    } else {
        1
    };
    let dy: i32 = if k <= 2 {
        -1
    } else if k <= 4 {
        0
    } else {
        1
    };
    let nx: i32 = x as i32 + dx;
    let ny: i32 = y as i32 + dy;
    if 0 <= nx && nx < TILE_COLUMNS as i32 && 0 <= ny && ny < TILE_ROWS as i32 {
        Some((nx as usize, ny as usize))
    } else {
        None
    }
}

impl View for Board {
    type V = Seq<TileState>;

    /// The tiles, row by row from the bottom.
    closed spec fn view(&self) -> Seq<TileState> {
        self.tiles@
    }
}

impl Board {
    /// The board covers every cell.
    pub open spec fn wf(&self) -> bool {
        full(self@)
    }

    /// The mines have been laid.
    pub closed spec fn generated_flag(&self) -> bool {
        self.is_generated
    }

    /// A fresh board: every tile hidden and empty, no mine laid yet.
    pub fn empty() -> (b: Board)
        ensures
            b.wf(),
            b@ == Seq::new(TILE_COUNT as nat, |i: int| fresh_tile()),
            !b.generated_flag(),
    {
        let mut tiles: Vec<TileState> = Vec::new();
        let mut i: usize = 0;
        while i < TILE_COUNT
            invariant
                i <= TILE_COUNT,
                tiles@ == Seq::new(i as nat, |j: int| fresh_tile()),
            decreases TILE_COUNT - i,
        {
            tiles.push(TileState::default());
            i = i + 1;
        }
        Board { tiles, is_generated: false }
    }

    /// Whether the mines have been laid.
    pub fn is_generated(&self) -> (r: bool)
        ensures
            r == self.generated_flag(),
    {
        self.is_generated
    }

    /// Position of `(x, y)` in the tile sequence.
    pub fn get_index(x: usize, y: usize) -> (r: usize)
        requires
            index((x, y)) <= usize::MAX,
        ensures
            r == index((x, y)),
    {
        y * TILE_COLUMNS + x
    }

    /// The tile at `(x, y)`.
    pub fn get_tile(&self, x: usize, y: usize) -> (r: &TileState)
        requires
            self.wf(),
            index((x, y)) < TILE_COUNT,
        ensures
            *r == tile_at(self@, (x, y)),
    {
        &self.tiles[Self::get_index(x, y)]
    }

    /// The tile at `(x, y)`, to be changed in place.
    pub fn get_tile_mut(&mut self, x: usize, y: usize) -> (r: &mut TileState)
        requires
            old(self).wf(),
            index((x, y)) < TILE_COUNT,
        ensures
            *r == tile_at(old(self)@, (x, y)),
            final(self)@ == old(self)@.update(index((x, y)), *final(r)),
            final(self).wf(),
            final(self).generated_flag() == old(self).generated_flag(),
    {
        let i = Self::get_index(x, y);
        &mut self.tiles[i]
    }

    /// Puts a flag on a hidden tile or takes it off a flagged one; an opened
    /// tile stays as it is.
    pub fn toggle_flag(&mut self, x: usize, y: usize)
        requires
            old(self).wf(),
            index((x, y)) < TILE_COUNT,
        ensures
            final(self)@ == flag_toggled(old(self)@, (x, y)),
            final(self).wf(),
            final(self).generated_flag() == old(self).generated_flag(),
    {
        let tile = self.get_tile_mut(x, y);
        tile.appearance = match tile.appearance {
            TileAppearance::Hidden => TileAppearance::Flagged,
            TileAppearance::Flagged => TileAppearance::Hidden,
            TileAppearance::Revealed => TileAppearance::Revealed,
        };
    }

    /// Opens `(start_x, start_y)` and, from every blank tile it opens, the
    /// tiles around it, as far as hidden tiles go: flags stop the flood.
    pub fn open_chain(&mut self, start_x: usize, start_y: usize)
        requires
            old(self).wf(),
            start_x < TILE_COLUMNS,
            start_y < TILE_ROWS,
        ensures
            final(self)@ == chain_opened(old(self)@, (start_x, start_y)),
            final(self).wf(),
            final(self).generated_flag() == old(self).generated_flag(),
    {
        let ghost s0 = self@;
        let ghost start: Cell = (start_x, start_y);
        let mut stack: Vec<(usize, usize)> = Vec::new();
        stack.push((start_x, start_y));
        proof {
            assert(stack@[0] == start);
            assert(stack@.contains(start));
        }
        while stack.len() > 0
            invariant
                full(s0),
                cell_ok(start),
                self.wf(),
                self.is_generated == old(self).is_generated,
                reveals_only(s0, self@),
                sound(s0, self@, start),
                stack_ok(s0, self@, start, stack@),
                pending(s0, self@, start, stack@),
            decreases 9 * count_hidden(self@) + stack@.len(),
        {
            let ghost cur0 = self@;
            let ghost st0 = stack@;
            let (x, y) = stack.pop().unwrap();
            let ghost e: Cell = (x, y);
            proof {
                assert(e == st0.last());
                assert(stack@ == st0.drop_last());
            }
            let i = Self::get_index(x, y);
            let t = self.tiles[i];
            if t.appearance != TileAppearance::Hidden {
                proof {
                    lemma_flood_skip(s0, cur0, start, st0);
                }
                continue;
            }
            let revealed = TileState { tile_type: t.tile_type, appearance: TileAppearance::Revealed };
            self.tiles.set(i, revealed);
            proof {
                lemma_count_hidden_update(cur0, i as int, revealed);
                lemma_flood_reveal(s0, cur0, start, st0);
            }
            let ghost cur1 = self@;
            let ghost base = stack@;
            if t.tile_type == TileType::Empty(0) {
                let mut k: usize = 0;
                while k < 8
                    invariant
                        0 <= k <= 8,
                        cell_ok(e),
                        e == (x, y),
                        base.len() <= stack@.len() <= base.len() + k,
                        stack@.subrange(0, base.len() as int) == base,
                        pushed_from(stack@, base.len() as int, e),
                        forall|m: int|
                            0 <= m < k && (#[trigger] neighbor(e, m)) is Some ==> stack@.contains(
                                neighbor(e, m)->0,
                            ),
                    decreases 8 - k,
                {
                    let ghost st_k = stack@;
                    if let Some(n) = neighbor_cell(x, y, k) {
                        stack.push(n);
                        proof {
                            assert(stack@[st_k.len() as int] == n);
                            assert(stack@.subrange(0, base.len() as int) =~= st_k.subrange(
                                0,
                                base.len() as int,
                            ));
                            assert forall|m: int|
                                0 <= m < k + 1 && (#[trigger] neighbor(e, m)) is Some implies stack@.contains(
                                neighbor(e, m)->0,
                            ) by {
                                if m < k {
                                    let w = choose|w: int| 0 <= w < st_k.len() && st_k[w] == neighbor(e, m)->0;
                                    assert(stack@[w] == st_k[w]);
                                }
                            }
                            assert forall|j: int| #![trigger stack@[j]] base.len() <= j < stack@.len() implies exists|m: int|
                                0 <= m < 8 && #[trigger] neighbor(e, m) == Some(stack@[j]) by {
                                if j < st_k.len() {
                                    assert(st_k[j] == stack@[j]);
                                    assert(exists|m: int| 0 <= m < 8 && #[trigger] neighbor(e, m) == Some(st_k[j]));
                                }
                                if j < st_k.len() {
                                    assert(stack@[j] == st_k[j]);
                                } else {
                                    assert(neighbor(e, k as int) == Some(stack@[j]));
                                }
                            }
                        }
                    }
                    k = k + 1;
                }
                proof {
                    lemma_flood_push(s0, cur1, start, base, stack@, e);
                }
            }
        }
        proof {
            lemma_flood_done(s0, self@, start);
        }
    }

    /// Writes on every tile that is not a mine the number of mines around it.
    pub fn calc_mine_numbers(&mut self)
        requires
            old(self).wf(),
        ensures
            final(self)@ == numbered(old(self)@),
            final(self).wf(),
            final(self).generated_flag() == old(self).generated_flag(),
    {
        let ghost s0 = self@;
        let mut i: usize = 0;
        while i < TILE_COUNT
            invariant
                full(s0),
                self.wf(),
                self.is_generated == old(self).is_generated,
                i <= TILE_COUNT,
                forall|j: int|
                    0 <= j < TILE_COUNT ==> #[trigger] self@[j] == if j < i {
                        numbered(s0)[j]
                    } else {
                        s0[j]
                    },
            decreases TILE_COUNT - i,
        {
            let x = i % TILE_COLUMNS;
            let y = i / TILE_COLUMNS;
            proof {
                assert(cell_of(i as int) == (x, y));
                lemma_same_mines_numbered_prefix(s0, self@, i as int);
            }
            if self.get_tile(x, y).tile_type == TileType::Mine {
                i = i + 1;
                continue;
            }
            let mut count: u8 = 0;
            let mut k: usize = 0;
            while k < 8
                invariant
                    0 <= k <= 8,
                    full(s0),
                    self.wf(),
                    x < TILE_COLUMNS,
                    y < TILE_ROWS,
                    count == mines_around_upto(self@, (x, y), k as int),
                    count <= k,
                decreases 8 - k,
            {
                if let Some(n) = neighbor_cell(x, y, k) {
                    if self.get_tile(n.0, n.1).tile_type == TileType::Mine {
                        count = count + 1;
                    }
                }
                k = k + 1;
            }
            proof {
                lemma_mines_around_same(self@, s0, (x, y), 8);
                assert(mines_around(s0, cell_of(i as int)) == count);
            }
            let tile = self.get_tile_mut(x, y);
            tile.tile_type = TileType::Empty(count);
            i = i + 1;
        }
        proof {
            assert(self@ =~= numbered(s0));
        }
    }

    /// The cells that may receive a mine after a first click on
    /// `(click_x, click_y)`: every cell outside the 3x3 square around the
    /// click, row by row from the bottom.
    pub fn mine_candidates(click_x: usize, click_y: usize) -> (r: Vec<(usize, usize)>)
        requires
            click_x < TILE_COLUMNS,
            click_y < TILE_ROWS,
        ensures
            forall|c: Cell| #[trigger] r@.contains(c) <==> (cell_ok(c) && !near(c, (click_x, click_y))),
            forall|a: int, b: int| 0 <= a < b < r@.len() ==> index(#[trigger] r@[a]) < index(#[trigger] r@[b]),
    {
        let mut candidates: Vec<(usize, usize)> = Vec::new();
        let ghost click: Cell = (click_x, click_y);
        let mut i: usize = 0;
        while i < TILE_COUNT
            invariant
                i <= TILE_COUNT,
                click == (click_x, click_y),
                cell_ok(click),
                forall|j: int| 0 <= j < candidates@.len() ==> cell_ok(#[trigger] candidates@[j]) && index(candidates@[j]) < i,
                forall|c: Cell| cell_ok(c) && index(c) < i ==> (#[trigger] candidates@.contains(c) <==> !near(c, click)),
                forall|c: Cell| #[trigger] candidates@.contains(c) ==> cell_ok(c) && !near(c, click),
                forall|a: int, b: int|
                    0 <= a < b < candidates@.len() ==> index(#[trigger] candidates@[a]) < index(#[trigger] candidates@[b]),
            decreases TILE_COUNT - i,
        {
            let x = i % TILE_COLUMNS;
            let y = i / TILE_COLUMNS;
            let ghost before = candidates@;
            proof {
                assert(cell_of(i as int) == (x, y));
                assert(index((x, y)) == i);
            }
            let dx: usize = if x >= click_x { x - click_x } else { click_x - x };
            let dy: usize = if y >= click_y { y - click_y } else { click_y - y };
            if !(dx <= 1 && dy <= 1) {
                candidates.push((x, y));
                proof {
                    assert(candidates@[before.len() as int] == (x, y));
                    assert forall|c: Cell| cell_ok(c) && index(c) < i + 1 implies (#[trigger] candidates@.contains(c) <==> !near(c, click)) by {
                        if index(c) < i {
                            if before.contains(c) {
                                let w = choose|w: int| 0 <= w < before.len() && before[w] == c;
                                assert(candidates@[w] == c);
                            }
                            if candidates@.contains(c) {
                                let w = choose|w: int| 0 <= w < candidates@.len() && candidates@[w] == c;
                                if w < before.len() {
                                    assert(before[w] == c);
                                }
                            }
                        } else {
                            assert(c == (x, y));
                        }
                    }
                    assert forall|c: Cell| #[trigger] candidates@.contains(c) implies cell_ok(c) && !near(c, click) by {
                        let w = choose|w: int| 0 <= w < candidates@.len() && candidates@[w] == c;
                        if w < before.len() {
                            assert(before[w] == c);
                            assert(before.contains(c));
                        }
                    }
                }
            } else {
                proof {
                    assert forall|c: Cell| cell_ok(c) && index(c) < i + 1 implies (#[trigger] candidates@.contains(c) <==> !near(c, click)) by {
                        if index(c) == i {
                            assert(c == (x, y));
                        }
                    }
                }
            }
            i = i + 1;
        }
        proof {
            assert forall|c: Cell| #[trigger] candidates@.contains(c) <==> (cell_ok(c) && !near(c, click)) by {
                if cell_ok(c) {
                    assert(index(c) < TILE_COUNT);
                }
            }
        }
        candidates
    }

    /// Lays a mine on each of the first `MINE_COUNT` cells of `order` (all of
    /// them when there are fewer), writes the numbers, and marks the board as
    /// generated.
    pub fn lay_mines(&mut self, order: &Vec<(usize, usize)>)
        requires
            old(self).wf(),
            forall|j: int| 0 <= j < order@.len() ==> cell_ok(#[trigger] order@[j]),
        ensures
            final(self)@ == generated(old(self)@, order@),
            final(self).wf(),
            final(self).generated_flag(),
    {
        let ghost s0 = self@;
        let n: usize = if order.len() < MINE_COUNT { order.len() } else { MINE_COUNT };
        let mut j: usize = 0;
        while j < n
            invariant
                full(s0),
                self.wf(),
                j <= n,
                n <= order@.len(),
                n == order@.len() || n == MINE_COUNT,
                n < order@.len() ==> n == MINE_COUNT,
                forall|m: int| 0 <= m < order@.len() ==> cell_ok(#[trigger] order@[m]),
                forall|i: int|
                    0 <= i < TILE_COUNT ==> #[trigger] self@[i] == if order@.take(j as int).contains(
                        cell_of(i),
                    ) {
                        TileState { tile_type: TileType::Mine, appearance: s0[i].appearance }
                    } else {
                        s0[i]
                    },
            decreases n - j,
        {
            let (x, y) = order[j];
            let ghost before = self@;
            let tile = self.get_tile_mut(x, y);
            tile.tile_type = TileType::Mine;
            proof {
                let c: Cell = (x, y);
                assert(order@.take(j + 1) =~= order@.take(j as int).push(c));
                assert forall|i: int| 0 <= i < TILE_COUNT implies #[trigger] self@[i] == if order@.take(
                    j + 1,
                ).contains(cell_of(i)) {
                    TileState { tile_type: TileType::Mine, appearance: s0[i].appearance }
                } else {
                    s0[i]
                } by {
                    assert(before[i] == if order@.take(j as int).contains(cell_of(i)) {
                        TileState { tile_type: TileType::Mine, appearance: s0[i].appearance }
                    } else {
                        s0[i]
                    });
                    if i == index(c) {
                        assert(cell_of(i) == c);
                        assert(order@.take(j + 1)[j as int] == c);
                    } else {
                        assert(cell_of(i) != c);
                        if order@.take(j + 1).contains(cell_of(i)) {
                            let w = choose|w: int| 0 <= w < j + 1 && #[trigger] order@.take(j + 1)[w] == cell_of(i);
                            assert(w < j);
                            assert(order@.take(j as int)[w] == cell_of(i));
                        }
                        if order@.take(j as int).contains(cell_of(i)) {
                            let w = choose|w: int| 0 <= w < j && #[trigger] order@.take(j as int)[w] == cell_of(i);
                            assert(order@.take(j + 1)[w] == cell_of(i));
                        }
                    }
                }
            }
            j = j + 1;
        }
        proof {
            if order@.len() <= MINE_COUNT {
                assert(order@.take(n as int) =~= order@);
            }
            assert(order@.take(n as int) == mine_prefix(order@));
            assert(self@ =~= laid(s0, order@));
        }
        self.calc_mine_numbers();
        self.is_generated = true;
    }

    /// Lays the mines at random after a first click on `(click_x, click_y)`:
    /// never on the clicked cell nor on the eight around it. Then writes the
    /// numbers and marks the board as generated.
    pub fn place_mines(&mut self, click_x: usize, click_y: usize)
        requires
            old(self).wf(),
            click_x < TILE_COLUMNS,
            click_y < TILE_ROWS,
        ensures
            exists|order: Seq<Cell>|
                is_mine_order(order, (click_x, click_y)) && final(self)@ == #[trigger] generated(
                    old(self)@,
                    order,
                ),
            final(self).wf(),
            final(self).generated_flag(),
    {
        let mut rng = thread_rng();
        let mut candidates = Self::mine_candidates(click_x, click_y);
        let ghost before = candidates@;
        proof {
            assert(before.no_duplicates()) by {
                assert forall|a: int, b: int| 0 <= a < before.len() && 0 <= b < before.len() && a != b implies before[a] != before[b] by {
                    if a < b {
                        assert(index(before[a]) < index(before[b]));
                    } else {
                        assert(index(before[b]) < index(before[a]));
                    }
                }
            }
            before.lemma_multiset_has_no_duplicates();
        }
        shuffle_cells(&mut candidates, &mut rng);
        proof {
            broadcast use vstd::seq_lib::group_to_multiset_ensures;
            candidates@.lemma_multiset_has_no_duplicates_conv();
            assert forall|c: Cell| #[trigger] candidates@.contains(c) <==> before.contains(c) by {
                assert(candidates@.to_multiset().count(c) == before.to_multiset().count(c));
            }
            assert forall|j: int| 0 <= j < candidates@.len() implies cell_ok(#[trigger] candidates@[j]) by {
                assert(candidates@.contains(candidates@[j]));
            }
            assert(is_mine_order(candidates@, (click_x, click_y)));
        }
        self.lay_mines(&candidates);
    }

    /// The middle click on `(x, y)`: on an opened number whose count of flags
    /// around it equals the number, opens every hidden tile around it in
    /// turn (a mine among them is left as it is); otherwise does nothing.
    pub fn handle_middle_click(&mut self, x: usize, y: usize)
        requires
            old(self).wf(),
            x < TILE_COLUMNS,
            y < TILE_ROWS,
        ensures
            final(self)@ == middle_clicked(old(self)@, (x, y)),
            final(self).wf(),
            final(self).generated_flag() == old(self).generated_flag(),
    {
        let ghost s0 = self@;
        let ghost c: Cell = (x, y);
        let tile = *self.get_tile(x, y);
        if tile.appearance != TileAppearance::Revealed {
            return;
        }
        if let TileType::Empty(target_num) = tile.tile_type {
            if target_num == 0 {
                return;
            }
            let mut flag_count: u8 = 0;
            let mut hidden_cells: Vec<(usize, usize)> = Vec::new();
            let mut k: usize = 0;
            while k < 8
                invariant
                    0 <= k <= 8,
                    self@ == s0,
                    full(s0),
                    c == (x, y),
                    x < TILE_COLUMNS,
                    y < TILE_ROWS,
                    flag_count == flags_around_upto(s0, c, k as int),
                    flag_count <= k,
                    hidden_cells@ == hidden_neighbors_upto(s0, c, k as int),
                    forall|m: int| 0 <= m < hidden_cells@.len() ==> cell_ok(#[trigger] hidden_cells@[m]),
                decreases 8 - k,
            {
                if let Some(n) = neighbor_cell(x, y, k) {
                    let n_tile = self.get_tile(n.0, n.1);
                    if n_tile.appearance == TileAppearance::Flagged {
                        flag_count = flag_count + 1;
                    } else if n_tile.appearance == TileAppearance::Hidden {
                        hidden_cells.push(n);
                    }
                }
                k = k + 1;
            }
            if flag_count == target_num {
                let mut j: usize = 0;
                while j < hidden_cells.len()
                    invariant
                        self.wf(),
                        self.is_generated == old(self).is_generated,
                        j <= hidden_cells@.len(),
                        forall|m: int| 0 <= m < hidden_cells@.len() ==> cell_ok(#[trigger] hidden_cells@[m]),
                        self@ == open_each(s0, hidden_cells@.take(j as int)),
                    decreases hidden_cells@.len() - j,
                {
                    let n = hidden_cells[j];
                    proof {
                        assert(hidden_cells@.take(j + 1).drop_last() =~= hidden_cells@.take(j as int));
                        assert(hidden_cells@.take(j + 1).last() == n);
                    }
                    if self.get_tile(n.0, n.1).tile_type == TileType::Mine {
                        // a mine ends the game; nothing is opened here
                    } else {
                        self.open_chain(n.0, n.1);
                    }
                    j = j + 1;
                }
                proof {
                    assert(hidden_cells@.take(hidden_cells@.len() as int) =~= hidden_cells@);
                }
            }
        }
    }
}

/// A board whose first `i` tiles are numbered and the rest untouched has its
/// mines where the original has them.
proof fn lemma_same_mines_numbered_prefix(s0: Seq<TileState>, cur: Seq<TileState>, i: int)
    requires
        full(s0),
        full(cur),
        forall|j: int|
            0 <= j < TILE_COUNT ==> #[trigger] cur[j] == if j < i {
                numbered(s0)[j]
            } else {
                s0[j]
            },
    ensures
        forall|d: Cell| cell_ok(d) ==> is_mine(#[trigger] tile_at(cur, d)) == is_mine(tile_at(s0, d)),
        forall|j: int| 0 <= j < TILE_COUNT ==> is_mine(#[trigger] cur[j]) == is_mine(s0[j]),
{
    assert forall|j: int| 0 <= j < TILE_COUNT implies is_mine(#[trigger] cur[j]) == is_mine(s0[j]) by {
        if j < i {
            assert(cur[j] == numbered(s0)[j]);
        }
    }
    assert forall|d: Cell| cell_ok(d) implies is_mine(#[trigger] tile_at(cur, d)) == is_mine(tile_at(s0, d)) by {
        assert(cur[index(d)] == tile_at(cur, d));
    }
}

/// Every cell of `st` from position `from` on is a neighbour of `e`.
spec fn pushed_from(st: Seq<Cell>, from: int, e: Cell) -> bool {
    forall|j: int|
        #![trigger st[j]]
        from <= j < st.len() ==> exists|m: int| 0 <= m < 8 && #[trigger] neighbor(e, m) == Some(st[j])
}

/// The tile at `c` differs in appearance between the two boards.
spec fn changed(s0: Seq<TileState>, cur: Seq<TileState>, c: Cell) -> bool {
    tile_at(cur, c).appearance != tile_at(s0, c).appearance
}

/// `cur` is `s0` with some hidden tiles revealed and nothing else changed.
spec fn reveals_only(s0: Seq<TileState>, cur: Seq<TileState>) -> bool {
    &&& cur.len() == s0.len()
    &&& forall|c: Cell|
        cell_ok(c) ==> (#[trigger] tile_at(cur, c)).tile_type == tile_at(s0, c).tile_type && (
        !changed(s0, cur, c) || (is_hidden(tile_at(s0, c)) && tile_at(cur, c).appearance
            == TileAppearance::Revealed))
}

/// Every tile revealed so far is one that the flood from `start` reaches.
spec fn sound(s0: Seq<TileState>, cur: Seq<TileState>, start: Cell) -> bool {
    forall|c: Cell| cell_ok(c) && #[trigger] changed(s0, cur, c) ==> opens_from(s0, start, c)
}

/// A cell waiting on the stack is the start or lies next to a revealed blank tile.
spec fn parent_ok(s0: Seq<TileState>, cur: Seq<TileState>, start: Cell, n: Cell) -> bool {
    n == start || exists|q: Cell|
        cell_ok(q) && changed(s0, cur, q) && is_blank(tile_at(s0, q)) && #[trigger] are_neighbors(
            q,
            n,
        )
}

spec fn stack_ok(s0: Seq<TileState>, cur: Seq<TileState>, start: Cell, st: Seq<Cell>) -> bool {
    forall|j: int| 0 <= j < st.len() ==> cell_ok(#[trigger] st[j]) && parent_ok(s0, cur, start, st[j])
}

/// No hidden cell that the flood must reach is forgotten: the start and the
/// neighbours of every revealed blank tile are opened or still on the stack.
spec fn pending(s0: Seq<TileState>, cur: Seq<TileState>, start: Cell, st: Seq<Cell>) -> bool {
    &&& (!is_hidden(tile_at(cur, start)) || st.contains(start))
    &&& forall|c: Cell, k: int|
        cell_ok(c) && 0 <= k < 8 && changed(s0, cur, c) && is_blank(tile_at(s0, c)) && (
        #[trigger] neighbor(c, k)) is Some ==> !is_hidden(tile_at(cur, neighbor(c, k)->0))
            || st.contains(neighbor(c, k)->0)
}

/// As `pending`, leaving out the neighbours of `e`.
spec fn pending_but(
    s0: Seq<TileState>,
    cur: Seq<TileState>,
    start: Cell,
    st: Seq<Cell>,
    e: Cell,
) -> bool {
    &&& (!is_hidden(tile_at(cur, start)) || st.contains(start))
    &&& forall|c: Cell, k: int|
        cell_ok(c) && c != e && 0 <= k < 8 && changed(s0, cur, c) && is_blank(tile_at(s0, c)) && (
        #[trigger] neighbor(c, k)) is Some ==> !is_hidden(tile_at(cur, neighbor(c, k)->0))
            || st.contains(neighbor(c, k)->0)
}

proof fn lemma_drop_last_contains(st: Seq<Cell>, n: Cell)
    requires
        st.len() > 0,
        st.contains(n),
        n != st.last(),
    ensures
        st.drop_last().contains(n),
{
    let w = choose|w: int| 0 <= w < st.len() && st[w] == n;
    assert(st.drop_last()[w] == n);
}

proof fn lemma_flood_skip(s0: Seq<TileState>, cur: Seq<TileState>, start: Cell, st: Seq<Cell>)
    requires
        full(s0),
        reveals_only(s0, cur),
        stack_ok(s0, cur, start, st),
        pending(s0, cur, start, st),
        st.len() > 0,
        !is_hidden(tile_at(cur, st.last())),
    ensures
        stack_ok(s0, cur, start, st.drop_last()),
        pending(s0, cur, start, st.drop_last()),
{
    let e = st.last();
    assert forall|j: int| 0 <= j < st.drop_last().len() implies cell_ok(
        #[trigger] st.drop_last()[j],
    ) && parent_ok(s0, cur, start, st.drop_last()[j]) by {
        assert(st.drop_last()[j] == st[j]);
    }
    if is_hidden(tile_at(cur, start)) {
        lemma_drop_last_contains(st, start);
    }
    assert forall|c: Cell, k: int|
        cell_ok(c) && 0 <= k < 8 && changed(s0, cur, c) && is_blank(tile_at(s0, c)) && (
        #[trigger] neighbor(c, k)) is Some implies !is_hidden(tile_at(cur, neighbor(c, k)->0))
        || st.drop_last().contains(neighbor(c, k)->0) by {
        let n = neighbor(c, k)->0;
        if is_hidden(tile_at(cur, n)) {
            lemma_drop_last_contains(st, n);
        }
    }
}

proof fn lemma_flood_reveal(s0: Seq<TileState>, cur: Seq<TileState>, start: Cell, st: Seq<Cell>)
    requires
        full(s0),
        cell_ok(start),
        reveals_only(s0, cur),
        sound(s0, cur, start),
        stack_ok(s0, cur, start, st),
        pending(s0, cur, start, st),
        st.len() > 0,
        is_hidden(tile_at(cur, st.last())),
    ensures
        ({
            let e = st.last();
            let cur1 = cur.update(
                index(e),
                TileState { tile_type: tile_at(cur, e).tile_type, appearance: TileAppearance::Revealed },
            );
            &&& cell_ok(e)
            &&& changed(s0, cur1, e)
            &&& tile_at(cur1, e).tile_type == tile_at(s0, e).tile_type
            &&& reveals_only(s0, cur1)
            &&& sound(s0, cur1, start)
            &&& stack_ok(s0, cur1, start, st.drop_last())
            &&& pending_but(s0, cur1, start, st.drop_last(), e)
            &&& (!is_blank(tile_at(s0, e)) ==> pending(s0, cur1, start, st.drop_last()))
        }),
{
    let e = st.last();
    let tl = TileState { tile_type: tile_at(cur, e).tile_type, appearance: TileAppearance::Revealed };
    let cur1 = cur.update(index(e), tl);
    assert(st[st.len() - 1] == e);
    assert(cell_ok(e));
    // tiles other than e keep their state
    assert forall|c: Cell| cell_ok(c) && c != e implies tile_at(cur1, c) == tile_at(cur, c) by {
        assert(index(c) != index(e));
    }
    assert(tile_at(cur1, e) == tl);
    assert(!changed(s0, cur, e));
    assert(is_hidden(tile_at(s0, e)));
    // the flood reaches e
    assert(opens_from(s0, start, e)) by {
        if e == start {
            let p = seq![start];
            assert(chain_path(s0, p));
        } else {
            assert(parent_ok(s0, cur, start, st[st.len() - 1]));
            let q = choose|q: Cell|
                cell_ok(q) && changed(s0, cur, q) && is_blank(tile_at(s0, q)) && #[trigger] are_neighbors(q, e);
            assert(opens_from(s0, start, q));
            let p = choose|p: Seq<Cell>| #[trigger] chain_path(s0, p) && p[0] == start && p.last() == q;
            let p2 = p.push(e);
            assert forall|i: int| 0 <= i < p2.len() implies cell_ok(#[trigger] p2[i]) && is_hidden(
                tile_at(s0, p2[i]),
            ) by {
                if i < p.len() {
                    assert(p2[i] == p[i]);
                }
            }
            assert forall|i: int| 0 <= i < p2.len() - 1 implies is_blank(tile_at(s0, #[trigger] p2[i]))
                && are_neighbors(p2[i], p2[i + 1]) by {
                assert(p2[i] == p[i]);
                if i < p.len() - 1 {
                    assert(p2[i + 1] == p[i + 1]);
                } else {
                    assert(p[i] == q);
                    assert(p2[i + 1] == e);
                }
            }
            assert(chain_path(s0, p2));
            assert(p2[0] == start);
            assert(p2.last() == e);
        }
    }
    assert forall|c: Cell| cell_ok(c) implies (#[trigger] tile_at(cur1, c)).tile_type == tile_at(
        s0,
        c,
    ).tile_type && (!changed(s0, cur1, c) || (is_hidden(tile_at(s0, c)) && tile_at(cur1, c).appearance
        == TileAppearance::Revealed)) by {
        if c != e {
            assert(tile_at(cur1, c) == tile_at(cur, c));
        }
    }
    assert forall|c: Cell| cell_ok(c) && #[trigger] changed(s0, cur1, c) implies opens_from(s0, start, c) by {
        if c != e {
            assert(tile_at(cur1, c) == tile_at(cur, c));
            assert(changed(s0, cur, c));
        }
    }
    assert forall|j: int| 0 <= j < st.drop_last().len() implies cell_ok(
        #[trigger] st.drop_last()[j],
    ) && parent_ok(s0, cur1, start, st.drop_last()[j]) by {
        let n = st.drop_last()[j];
        assert(n == st[j]);
        assert(parent_ok(s0, cur, start, st[j]));
        if n != start {
            let q = choose|q: Cell|
                cell_ok(q) && changed(s0, cur, q) && is_blank(tile_at(s0, q)) && #[trigger] are_neighbors(q, n);
            assert(q != e);
            assert(tile_at(cur1, q) == tile_at(cur, q));
            assert(changed(s0, cur1, q));
        }
    }
    if is_hidden(tile_at(cur1, start)) {
        assert(start != e);
        assert(tile_at(cur1, start) == tile_at(cur, start));
        lemma_drop_last_contains(st, start);
    }
    assert forall|c: Cell, k: int|
        cell_ok(c) && c != e && 0 <= k < 8 && changed(s0, cur1, c) && is_blank(tile_at(s0, c)) && (
        #[trigger] neighbor(c, k)) is Some implies !is_hidden(tile_at(cur1, neighbor(c, k)->0))
        || st.drop_last().contains(neighbor(c, k)->0) by {
        let n = neighbor(c, k)->0;
        assert(tile_at(cur1, c) == tile_at(cur, c));
        assert(changed(s0, cur, c));
        assert(cell_ok(n));
        if n != e {
            assert(tile_at(cur1, n) == tile_at(cur, n));
            if is_hidden(tile_at(cur, n)) {
                lemma_drop_last_contains(st, n);
            }
        }
    }
}

proof fn lemma_flood_push(
    s0: Seq<TileState>,
    cur: Seq<TileState>,
    start: Cell,
    base: Seq<Cell>,
    st: Seq<Cell>,
    e: Cell,
)
    requires
        full(s0),
        cell_ok(e),
        reveals_only(s0, cur),
        changed(s0, cur, e),
        is_blank(tile_at(s0, e)),
        stack_ok(s0, cur, start, base),
        pending_but(s0, cur, start, base, e),
        base.len() <= st.len(),
        st.subrange(0, base.len() as int) == base,
        pushed_from(st, base.len() as int, e),
        forall|m: int| 0 <= m < 8 && (#[trigger] neighbor(e, m)) is Some ==> st.contains(neighbor(e, m)->0),
    ensures
        stack_ok(s0, cur, start, st),
        pending(s0, cur, start, st),
{
    assert forall|j: int| 0 <= j < st.len() implies cell_ok(#[trigger] st[j]) && parent_ok(
        s0,
        cur,
        start,
        st[j],
    ) by {
        if j < base.len() {
            assert(st[j] == st.subrange(0, base.len() as int)[j]);
            assert(st[j] == base[j]);
        } else {
            let m = choose|m: int| 0 <= m < 8 && #[trigger] neighbor(e, m) == Some(st[j]);
            assert(are_neighbors(e, st[j]));
        }
    }
    assert forall|n: Cell| base.contains(n) implies st.contains(n) by {
        let w = choose|w: int| 0 <= w < base.len() && base[w] == n;
        assert(st.subrange(0, base.len() as int)[w] == n);
        assert(st[w] == n);
    }
}

/// Once the stack is empty, every cell along a flood path is open.
proof fn lemma_flood_path_open(s0: Seq<TileState>, cur: Seq<TileState>, start: Cell, p: Seq<Cell>)
    requires
        full(s0),
        reveals_only(s0, cur),
        pending(s0, cur, start, Seq::empty()),
        chain_path(s0, p),
        p[0] == start,
    ensures
        forall|j: int| 0 <= j < p.len() ==> !is_hidden(tile_at(cur, #[trigger] p[j])),
    decreases p.len(),
{
    if p.len() > 1 {
        let q = p.drop_last();
        assert forall|i: int| 0 <= i < q.len() implies cell_ok(#[trigger] q[i]) && is_hidden(
            tile_at(s0, q[i]),
        ) by {
            assert(q[i] == p[i]);
        }
        assert forall|i: int| 0 <= i < q.len() - 1 implies is_blank(tile_at(s0, #[trigger] q[i]))
            && are_neighbors(q[i], q[i + 1]) by {
            assert(q[i] == p[i]);
            assert(q[i + 1] == p[i + 1]);
        }
        assert(chain_path(s0, q));
        lemma_flood_path_open(s0, cur, start, q);
        let a = p[p.len() - 2];
        let b = p[p.len() - 1];
        assert(q[q.len() - 1] == a);
        assert(!is_hidden(tile_at(cur, a)));
        assert(is_hidden(tile_at(s0, a)));
        assert(changed(s0, cur, a));
        assert(is_blank(tile_at(s0, a)) && are_neighbors(a, b));
        let k = choose|k: int| 0 <= k < 8 && #[trigger] neighbor(a, k) == Some(b);
        assert(neighbor(a, k) is Some);
        assert(!Seq::<Cell>::empty().contains(b));
        assert forall|j: int| 0 <= j < p.len() implies !is_hidden(tile_at(cur, #[trigger] p[j])) by {
            if j < p.len() - 1 {
                assert(p[j] == q[j]);
            }
        }
    } else {
        assert(!Seq::<Cell>::empty().contains(start));
    }
}

/// Once the stack is empty, the board is exactly the flood opening of `s0`.
proof fn lemma_flood_done(s0: Seq<TileState>, cur: Seq<TileState>, start: Cell)
    requires
        full(s0),
        reveals_only(s0, cur),
        sound(s0, cur, start),
        pending(s0, cur, start, Seq::empty()),
    ensures
        cur == chain_opened(s0, start),
{
    let r = chain_opened(s0, start);
    assert forall|i: int| 0 <= i < cur.len() implies cur[i] == r[i] by {
        let c = cell_of(i);
        assert(tile_at(cur, c) == cur[i]);
        assert(tile_at(s0, c) == s0[i]);
        if opens_from(s0, start, c) {
            let p = choose|p: Seq<Cell>| #[trigger] chain_path(s0, p) && p[0] == start && p.last() == c;
            lemma_flood_path_open(s0, cur, start, p);
            assert(p[p.len() - 1] == c);
            assert(is_hidden(tile_at(s0, c)));
            assert(!is_hidden(tile_at(cur, c)));
        } else {
            assert(!changed(s0, cur, c));
        }
    }
    assert(cur =~= r);
}

} // verus!
