//! Properties of the board that hold across operations.

use vstd::prelude::*;
use crate::constants::{MINE_COUNT, TILE_COLUMNS};
use crate::model::{
    are_neighbors, cell_of, cell_ok, chain_opened, chain_path, flag_toggled, flags_around, full, generated,
    group_cells, hidden_neighbors, hidden_neighbors_upto, index, is_blank, is_hidden, is_mine, is_mine_order, laid, left_clicked,
    lemma_mines_around_bound, lemma_mines_around_same, lemma_mines_around_zero,
    lemma_no_mines_around, middle_clicked, mine_prefix, mines_around, near, neighbor, numbered,
    open_each, opens_from, flags_around_upto, mines_around_upto, offset_x, offset_y, opens_from_some, safe_starts, set_opened, tile_at, Cell,
};
use crate::tile::{fresh_tile, TileAppearance, TileState, TileType};

verus! {

broadcast use group_cells;

/// Every tile that is not a mine shows the number of mines around it.
pub open spec fn numbers_consistent(s: Seq<TileState>) -> bool {
    forall|c: Cell|
        cell_ok(c) && !is_mine(#[trigger] tile_at(s, c)) ==> tile_at(s, c).tile_type
            == TileType::Empty(mines_around(s, c) as u8)
}

/// `t` is `s` with some hidden tiles revealed and nothing else changed.
pub open spec fn only_reveals(s: Seq<TileState>, t: Seq<TileState>) -> bool {
    &&& t.len() == s.len()
    &&& forall|i: int|
        0 <= i < s.len() ==> (#[trigger] t[i]).tile_type == s[i].tile_type && (t[i].appearance
            == s[i].appearance || (is_hidden(s[i]) && t[i].appearance == TileAppearance::Revealed))
}

/// Toggling a flag twice on the same tile gives the board back.
pub proof fn law_toggle_twice(s: Seq<TileState>, c: Cell)
    requires
        full(s),
        cell_ok(c),
    ensures
        flag_toggled(flag_toggled(s, c), c) == s,
{
    assert(flag_toggled(flag_toggled(s, c), c) =~= s);
}

/// A flag toggle changes the appearance of the toggled tile only, and
/// leaves an opened tile as it is.
pub proof fn law_toggle_touches_one_flag(s: Seq<TileState>, c: Cell)
    requires
        full(s),
        cell_ok(c),
    ensures
        tile_at(s, c).appearance == TileAppearance::Revealed ==> flag_toggled(s, c) == s,
        tile_at(flag_toggled(s, c), c).tile_type == tile_at(s, c).tile_type,
        forall|d: Cell| cell_ok(d) && d != c ==> #[trigger] tile_at(flag_toggled(s, c), d) == tile_at(s, d),
{
    if tile_at(s, c).appearance == TileAppearance::Revealed {
        assert(flag_toggled(s, c) =~= s);
    }
    assert forall|d: Cell| cell_ok(d) && d != c implies #[trigger] tile_at(flag_toggled(s, c), d)
        == tile_at(s, d) by {
        assert(index(d) != index(c));
    }
}

/// A flood opening only reveals hidden tiles: it changes no mine or number
/// and removes no flag.
pub proof fn law_flood_only_reveals(s: Seq<TileState>, start: Cell)
    requires
        full(s),
    ensures
        only_reveals(s, chain_opened(s, start)),
{
    let t = chain_opened(s, start);
    assert forall|i: int| 0 <= i < s.len() implies (#[trigger] t[i]).tile_type == s[i].tile_type && (
    t[i].appearance == s[i].appearance || (is_hidden(s[i]) && t[i].appearance
        == TileAppearance::Revealed)) by {
        let c = cell_of(i);
        if opens_from(s, start, c) {
            let p = choose|p: Seq<Cell>| #[trigger] chain_path(s, p) && p[0] == start && p.last() == c;
            assert(p[p.len() - 1] == c);
            assert(tile_at(s, c) == s[i]);
        }
    }
}

/// A flood opening reveals its start when the start is hidden.
pub proof fn law_flood_opens_start(s: Seq<TileState>, start: Cell)
    requires
        full(s),
        cell_ok(start),
    ensures
        is_hidden(tile_at(s, start)) ==> tile_at(chain_opened(s, start), start).appearance
            == TileAppearance::Revealed,
        !is_hidden(tile_at(s, start)) ==> chain_opened(s, start) == s,
{
    if is_hidden(tile_at(s, start)) {
        let p = seq![start];
        assert(chain_path(s, p));
        assert(opens_from(s, start, cell_of(index(start))));
    } else {
        lemma_no_flood_from_open(s, start);
    }
}

/// From a tile that is not hidden, a flood opening opens nothing.
proof fn lemma_no_flood_from_open(s: Seq<TileState>, start: Cell)
    requires
        full(s),
        !is_hidden(tile_at(s, start)),
    ensures
        chain_opened(s, start) == s,
{
    assert forall|i: int| 0 <= i < s.len() implies chain_opened(s, start)[i] == s[i] by {
        if opens_from(s, start, cell_of(i)) {
            let p = choose|p: Seq<Cell>| #[trigger] chain_path(s, p) && p[0] == start && p.last() == cell_of(i);
            assert(is_hidden(tile_at(s, p[0])));
        }
    }
    assert(chain_opened(s, start) =~= s);
}

/// Opening the same tile a second time changes nothing more.
pub proof fn law_flood_idempotent(s: Seq<TileState>, start: Cell)
    requires
        full(s),
        cell_ok(start),
    ensures
        chain_opened(chain_opened(s, start), start) == chain_opened(s, start),
{
    law_flood_opens_start(s, start);
    let t = chain_opened(s, start);
    if !is_hidden(tile_at(s, start)) {
        assert(t == s);
    }
    assert(!is_hidden(tile_at(t, start)));
    lemma_no_flood_from_open(t, start);
}

/// Writing the numbers makes every number agree with the mines around it,
/// and no number exceeds eight.
pub proof fn law_numbers_consistent(s: Seq<TileState>)
    requires
        full(s),
    ensures
        numbers_consistent(numbered(s)),
        forall|c: Cell|
            cell_ok(c) && !is_mine(#[trigger] tile_at(numbered(s), c)) ==> mines_around(
                numbered(s),
                c,
            ) <= 8,
        forall|c: Cell| cell_ok(c) ==> is_mine(#[trigger] tile_at(numbered(s), c)) == is_mine(tile_at(s, c)),
{
    let t = numbered(s);
    assert forall|d: Cell| cell_ok(d) implies is_mine(#[trigger] tile_at(t, d)) == is_mine(tile_at(s, d)) by {
        assert(cell_of(index(d)) == d);
    }
    assert forall|c: Cell| cell_ok(c) implies mines_around(t, c) == mines_around(s, c) && mines_around(s, c) <= 8 by {
        lemma_mines_around_same(t, s, c, 8);
        lemma_mines_around_bound(s, c, 8);
    }
    assert forall|c: Cell| cell_ok(c) && !is_mine(#[trigger] tile_at(t, c)) implies tile_at(t, c).tile_type
        == TileType::Empty(mines_around(t, c) as u8) by {
        assert(cell_of(index(c)) == c);
    }
}

/// The cells of a mine order that receive a mine are cells of the order.
proof fn lemma_prefix_in_order(order: Seq<Cell>, d: Cell)
    requires
        mine_prefix(order).contains(d),
    ensures
        order.contains(d),
{
    let w = choose|w: int| 0 <= w < mine_prefix(order).len() && mine_prefix(order)[w] == d;
    assert(order[w] == d);
}

/// After the mines are laid for a first click on a board without mines,
/// neither the clicked tile nor any tile around it holds a mine, so the
/// clicked tile is blank.
pub proof fn law_first_click_safe(s: Seq<TileState>, order: Seq<Cell>, click: Cell)
    requires
        full(s),
        cell_ok(click),
        is_mine_order(order, click),
        forall|c: Cell| cell_ok(c) ==> !is_mine(#[trigger] tile_at(s, c)),
    ensures
        forall|d: Cell|
            cell_ok(d) && near(d, click) ==> !is_mine(#[trigger] tile_at(generated(s, order), d)),
        is_blank(tile_at(generated(s, order), click)),
{
    let l = laid(s, order);
    assert forall|d: Cell| cell_ok(d) && near(d, click) implies !is_mine(#[trigger] tile_at(l, d)) by {
        assert(cell_of(index(d)) == d);
        assert(!is_mine(tile_at(s, d)));
        if mine_prefix(order).contains(d) {
            lemma_prefix_in_order(order, d);
            assert(order.contains(d));
        }
        assert(!mine_prefix(order).contains(d));
    }
    law_numbers_consistent(l);
    assert forall|m: int| 0 <= m < 8 implies (#[trigger] neighbor(click, m) matches Some(n) ==> !is_mine(tile_at(l, n))) by {
        if let Some(n) = neighbor(click, m) {
            assert(near(n, click));
            assert(cell_ok(n));
        }
    }
    lemma_mines_around_zero(l, click, 8);
    assert(cell_of(index(click)) == click);
    assert(near(click, click));
}

/// On a board whose numbers agree with its mines, a flood opening from a
/// tile that is not a mine never opens a mine.
pub proof fn law_flood_never_opens_mine(s: Seq<TileState>, start: Cell)
    requires
        full(s),
        numbers_consistent(s),
        !is_mine(tile_at(s, start)),
    ensures
        forall|c: Cell| cell_ok(c) && is_mine(tile_at(s, c)) ==> #[trigger] tile_at(chain_opened(s, start), c) == tile_at(s, c),
{
    assert forall|c: Cell| cell_ok(c) && is_mine(tile_at(s, c)) implies #[trigger] tile_at(
        chain_opened(s, start),
        c,
    ) == tile_at(s, c) by {
        assert(cell_of(index(c)) == c);
        if opens_from(s, start, c) {
            let p = choose|p: Seq<Cell>| #[trigger] chain_path(s, p) && p[0] == start && p.last() == c;
            assert(p[p.len() - 1] == c);
            assert(p.len() > 1);
            let a = p[p.len() - 2];
            assert(is_blank(tile_at(s, a)) && are_neighbors(a, c));
            assert(cell_ok(a));
            assert(tile_at(s, a).tile_type == TileType::Empty(mines_around(s, a) as u8));
            lemma_mines_around_bound(s, a, 8);
            assert(mines_around(s, a) == 0);
            let k = choose|k: int| 0 <= k < 8 && #[trigger] neighbor(a, k) == Some(c);
            lemma_no_mines_around(s, a, 8, k);
        }
    }
}

/// The cells holding a mine.
pub open spec fn mine_cells(s: Seq<TileState>) -> Set<Cell> {
    Set::new(|c: Cell| cell_ok(c) && is_mine(tile_at(s, c)))
}

/// Sixty cells of three whole rows that lie away from the row of the click.
spec fn far_rows(click: Cell) -> Seq<Cell> {
    Seq::new(
        MINE_COUNT as nat,
        |i: int|
            (
                (i % (TILE_COLUMNS as int)) as usize,
                (if click.1 >= 10 {
                    i / (TILE_COLUMNS as int)
                } else {
                    17 + i / (TILE_COLUMNS as int)
                }) as usize,
            ),
    )
}

/// A mine order for a first click holds at least `MINE_COUNT` cells.
proof fn lemma_mine_order_long(order: Seq<Cell>, click: Cell)
    requires
        cell_ok(click),
        is_mine_order(order, click),
    ensures
        order.len() >= MINE_COUNT,
{
    broadcast use vstd::seq_lib::seq_to_set_is_finite;

    let q = far_rows(click);
    assert forall|a: int, b: int| 0 <= a < q.len() && 0 <= b < q.len() && a != b implies q[a] != q[b] by {
    }
    assert(q.no_duplicates());
    q.unique_seq_to_set();
    assert forall|c: Cell| q.to_set().contains(c) implies order.to_set().contains(c) by {
        let w = choose|w: int| 0 <= w < q.len() && q[w] == c;
        assert(cell_ok(c) && !near(c, click));
        assert(order.contains(c));
    }
    vstd::set_lib::lemma_len_subset(q.to_set(), order.to_set());
    order.lemma_cardinality_of_set();
}

/// Laying the mines for a first click on a board without mines puts exactly
/// `MINE_COUNT` mines, on the first `MINE_COUNT` cells of the order.
pub proof fn law_mine_count(s: Seq<TileState>, order: Seq<Cell>, click: Cell)
    requires
        full(s),
        cell_ok(click),
        is_mine_order(order, click),
        forall|c: Cell| cell_ok(c) ==> !is_mine(#[trigger] tile_at(s, c)),
    ensures
        mine_cells(generated(s, order)) == mine_prefix(order).to_set(),
        mine_cells(generated(s, order)).len() == MINE_COUNT,
{
    let l = laid(s, order);
    let g = generated(s, order);
    law_numbers_consistent(l);
    assert forall|c: Cell| mine_cells(g).contains(c) <==> mine_prefix(order).to_set().contains(c) by {
        if mine_prefix(order).contains(c) {
            lemma_prefix_in_order(order, c);
            assert(order.contains(c));
            assert(cell_ok(c));
            assert(cell_of(index(c)) == c);
            assert(is_mine(tile_at(l, c)));
        }
        if cell_ok(c) {
            assert(cell_of(index(c)) == c);
            assert(!is_mine(tile_at(s, c)));
        }
    }
    assert(mine_cells(g) =~= mine_prefix(order).to_set());
    lemma_mine_order_long(order, click);
    let pre = mine_prefix(order);
    assert(pre.len() == MINE_COUNT);
    assert forall|a: int, b: int| 0 <= a < pre.len() && 0 <= b < pre.len() && a != b implies pre[a] != pre[b] by {
        assert(pre[a] == order[a] && pre[b] == order[b]);
    }
    pre.unique_seq_to_set();
}

proof fn lemma_only_reveals_trans(a: Seq<TileState>, b: Seq<TileState>, c: Seq<TileState>)
    requires
        only_reveals(a, b),
        only_reveals(b, c),
    ensures
        only_reveals(a, c),
{
    assert forall|i: int| 0 <= i < a.len() implies (#[trigger] c[i]).tile_type == a[i].tile_type && (
    c[i].appearance == a[i].appearance || (is_hidden(a[i]) && c[i].appearance
        == TileAppearance::Revealed)) by {
        assert(b[i].tile_type == a[i].tile_type);
    }
}

proof fn lemma_only_reveals_refl(a: Seq<TileState>)
    ensures
        only_reveals(a, a),
{
}

/// A left click only reveals hidden tiles.
pub proof fn law_left_click_only_reveals(s: Seq<TileState>, c: Cell)
    requires
        full(s),
        cell_ok(c),
    ensures
        only_reveals(s, left_clicked(s, c)),
{
    if !is_mine(tile_at(s, c)) {
        law_flood_only_reveals(s, c);
    }
}

/// Opening several tiles in turn only reveals hidden tiles.
pub proof fn law_open_each_only_reveals(s: Seq<TileState>, starts: Seq<Cell>)
    requires
        full(s),
        forall|j: int| 0 <= j < starts.len() ==> cell_ok(#[trigger] starts[j]),
    ensures
        only_reveals(s, open_each(s, starts)),
    decreases starts.len(),
{
    if starts.len() == 0 {
        lemma_only_reveals_refl(s);
    } else {
        let prev = open_each(s, starts.drop_last());
        assert forall|j: int| 0 <= j < starts.drop_last().len() implies cell_ok(#[trigger] starts.drop_last()[j]) by {
            assert(starts.drop_last()[j] == starts[j]);
        }
        law_open_each_only_reveals(s, starts.drop_last());
        assert(cell_ok(starts[starts.len() - 1]));
        law_left_click_only_reveals(prev, starts.last());
        lemma_only_reveals_trans(s, prev, left_clicked(prev, starts.last()));
    }
}

proof fn lemma_hidden_neighbors_on_board(s: Seq<TileState>, c: Cell, k: int)
    ensures
        forall|j: int|
            0 <= j < hidden_neighbors_upto(s, c, k).len() ==> cell_ok(
                #[trigger] hidden_neighbors_upto(s, c, k)[j],
            ),
    decreases k,
{
    if k > 0 {
        lemma_hidden_neighbors_on_board(s, c, k - 1);
        let prev = hidden_neighbors_upto(s, c, k - 1);
        let cur = hidden_neighbors_upto(s, c, k);
        assert forall|j: int| 0 <= j < cur.len() implies cell_ok(#[trigger] cur[j]) by {
            if j < prev.len() {
                assert(cur[j] == prev[j]);
            }
        }
    }
}

/// A middle click only reveals hidden tiles.
pub proof fn law_middle_click_only_reveals(s: Seq<TileState>, c: Cell)
    requires
        full(s),
        cell_ok(c),
    ensures
        only_reveals(s, middle_clicked(s, c)),
{
    lemma_hidden_neighbors_on_board(s, c, 8);
    law_open_each_only_reveals(s, hidden_neighbors(s, c));
}

/// Revealing tiles keeps the numbers in agreement with the mines.
pub proof fn law_reveal_keeps_numbers(s: Seq<TileState>, t: Seq<TileState>)
    requires
        full(s),
        numbers_consistent(s),
        only_reveals(s, t),
    ensures
        numbers_consistent(t),
{
    assert forall|d: Cell| cell_ok(d) implies is_mine(#[trigger] tile_at(t, d)) == is_mine(tile_at(s, d)) by {
        assert(t[index(d)].tile_type == s[index(d)].tile_type);
    }
    assert forall|c: Cell| cell_ok(c) && !is_mine(#[trigger] tile_at(t, c)) implies tile_at(t, c).tile_type
        == TileType::Empty(mines_around(t, c) as u8) by {
        lemma_mines_around_same(t, s, c, 8);
        assert(t[index(c)].tile_type == s[index(c)].tile_type);
    }
}

/// On a board whose numbers agree with its mines, a left click never
/// uncovers a mine (a click on a mine itself is left without effect).
pub proof fn law_left_click_never_opens_mine(s: Seq<TileState>, c: Cell)
    requires
        full(s),
        cell_ok(c),
        numbers_consistent(s),
    ensures
        forall|d: Cell| cell_ok(d) && is_mine(tile_at(s, d)) ==> #[trigger] tile_at(left_clicked(s, c), d) == tile_at(s, d),
{
    if !is_mine(tile_at(s, c)) {
        law_flood_never_opens_mine(s, c);
    }
}

/// On a board whose numbers agree with its mines, opening several tiles in
/// turn never uncovers a mine.
pub proof fn law_open_each_never_opens_mine(s: Seq<TileState>, starts: Seq<Cell>)
    requires
        full(s),
        numbers_consistent(s),
        forall|j: int| 0 <= j < starts.len() ==> cell_ok(#[trigger] starts[j]),
    ensures
        forall|d: Cell| cell_ok(d) && is_mine(tile_at(s, d)) ==> #[trigger] tile_at(open_each(s, starts), d) == tile_at(s, d),
    decreases starts.len(),
{
    if starts.len() > 0 {
        let rest = starts.drop_last();
        let prev = open_each(s, rest);
        assert forall|j: int| 0 <= j < rest.len() implies cell_ok(#[trigger] rest[j]) by {
            assert(rest[j] == starts[j]);
        }
        law_open_each_never_opens_mine(s, rest);
        law_open_each_only_reveals(s, rest);
        law_reveal_keeps_numbers(s, prev);
        assert(cell_ok(starts[starts.len() - 1]));
        law_left_click_never_opens_mine(prev, starts.last());
        assert forall|d: Cell| cell_ok(d) && is_mine(tile_at(s, d)) implies #[trigger] tile_at(
            open_each(s, starts),
            d,
        ) == tile_at(s, d) by {
            assert(prev[index(d)].tile_type == s[index(d)].tile_type);
            assert(is_mine(tile_at(prev, d)));
        }
    }
}

/// On a board whose numbers agree with its mines, a middle click never
/// uncovers a mine.
pub proof fn law_middle_click_never_opens_mine(s: Seq<TileState>, c: Cell)
    requires
        full(s),
        cell_ok(c),
        numbers_consistent(s),
    ensures
        forall|d: Cell| cell_ok(d) && is_mine(tile_at(s, d)) ==> #[trigger] tile_at(middle_clicked(s, c), d) == tile_at(s, d),
{
    lemma_hidden_neighbors_on_board(s, c, 8);
    law_open_each_never_opens_mine(s, hidden_neighbors(s, c));
}

/// Laying the mines and writing the numbers changes no appearance.
pub proof fn law_generation_keeps_appearance(s: Seq<TileState>, order: Seq<Cell>)
    requires
        full(s),
    ensures
        generated(s, order).len() == s.len(),
        forall|i: int| 0 <= i < s.len() ==> (#[trigger] generated(s, order)[i]).appearance == s[i].appearance,
{
}

/// Every other cell of the 3x3 square around `c` is a neighbour of `c`.
proof fn lemma_near_is_neighbor(c: Cell, d: Cell)
    requires
        cell_ok(d),
        near(d, c),
        d != c,
    ensures
        are_neighbors(c, d),
{
    let dx = d.0 - c.0;
    let dy = d.1 - c.1;
    let k: int = if dy == -1 {
        dx + 1
    } else if dy == 0 {
        if dx == -1 {
            3
        } else {
            4
        }
    } else {
        dx + 6
    };
    assert(neighbor(c, k) == Some(d));
}

/// The first left click on a fresh board opens the clicked tile and every
/// tile around it, and leaves every mine hidden.
pub proof fn law_first_click_opens_area(s: Seq<TileState>, order: Seq<Cell>, click: Cell)
    requires
        full(s),
        cell_ok(click),
        is_mine_order(order, click),
        forall|c: Cell| cell_ok(c) ==> #[trigger] tile_at(s, c) == fresh_tile(),
    ensures
        forall|d: Cell|
            cell_ok(d) && near(d, click) ==> (#[trigger] tile_at(
                left_clicked(generated(s, order), click),
                d,
            )).appearance == TileAppearance::Revealed,
        forall|d: Cell|
            cell_ok(d) && is_mine(tile_at(generated(s, order), d)) ==> (#[trigger] tile_at(
                left_clicked(generated(s, order), click),
                d,
            )).appearance == TileAppearance::Hidden,
{
    let g = generated(s, order);
    assert forall|c: Cell| cell_ok(c) implies !is_mine(#[trigger] tile_at(s, c)) by {
        assert(tile_at(s, c) == fresh_tile());
    }
    law_first_click_safe(s, order, click);
    law_generation_keeps_appearance(s, order);
    law_numbers_consistent(laid(s, order));
    assert forall|c: Cell| cell_ok(c) implies is_hidden(#[trigger] tile_at(g, c)) by {
        assert(g[index(c)].appearance == s[index(c)].appearance);
        assert(tile_at(s, c) == fresh_tile());
    }
    assert(near(click, click));
    assert(!is_mine(tile_at(g, click)));
    assert forall|d: Cell| cell_ok(d) && near(d, click) implies (#[trigger] tile_at(
        left_clicked(g, click),
        d,
    )).appearance == TileAppearance::Revealed by {
        assert(cell_of(index(d)) == d);
        if d == click {
            let p = seq![click];
            assert(chain_path(g, p));
            assert(opens_from(g, click, d));
        } else {
            lemma_near_is_neighbor(click, d);
            let p = seq![click, d];
            assert(is_hidden(tile_at(g, d)));
            assert(chain_path(g, p));
            assert(opens_from(g, click, d));
        }
    }
    law_flood_never_opens_mine(g, click);
    assert forall|d: Cell|
        cell_ok(d) && is_mine(tile_at(g, d)) implies (#[trigger] tile_at(left_clicked(g, click), d)).appearance
        == TileAppearance::Hidden by {
        assert(is_hidden(tile_at(g, d)));
    }
}

/// A flood path on a board whose hidden tiles are among those of `s`, with
/// the same tile kinds, is a flood path on `s`.
proof fn lemma_path_back(s: Seq<TileState>, t: Seq<TileState>, p: Seq<Cell>)
    requires
        full(s),
        only_reveals(s, t),
        chain_path(t, p),
    ensures
        chain_path(s, p),
{
    assert forall|i: int| 0 <= i < p.len() implies cell_ok(#[trigger] p[i]) && is_hidden(tile_at(s, p[i])) by {
        assert(t[index(p[i])].appearance == TileAppearance::Hidden);
    }
    assert forall|i: int| 0 <= i < p.len() - 1 implies is_blank(tile_at(s, #[trigger] p[i])) && are_neighbors(
        p[i],
        p[i + 1],
    ) by {
        assert(t[index(p[i])].tile_type == s[index(p[i])].tile_type);
    }
}

/// Opening all of `starts` at once only reveals hidden tiles.
proof fn lemma_set_opened_only_reveals(s: Seq<TileState>, starts: Set<Cell>)
    requires
        full(s),
    ensures
        only_reveals(s, set_opened(s, starts)),
{
    let t = set_opened(s, starts);
    assert forall|i: int| 0 <= i < s.len() implies (#[trigger] t[i]).tile_type == s[i].tile_type && (
    t[i].appearance == s[i].appearance || (is_hidden(s[i]) && t[i].appearance
        == TileAppearance::Revealed)) by {
        let c = cell_of(i);
        if opens_from_some(s, starts, c) {
            let a = choose|a: Cell| starts.contains(a) && #[trigger] opens_from(s, a, c);
            let p = choose|p: Seq<Cell>| #[trigger] chain_path(s, p) && p[0] == a && p.last() == c;
            assert(p[p.len() - 1] == c);
            assert(tile_at(s, c) == s[i]);
        }
    }
}

/// A flood after opening the cells of `starts` at once is one flood from
/// `starts` with the new cell added.
proof fn lemma_flood_after_set(s: Seq<TileState>, starts: Set<Cell>, c: Cell)
    requires
        full(s),
    ensures
        chain_opened(set_opened(s, starts), c) == set_opened(s, starts.insert(c)),
{
    let t = set_opened(s, starts);
    let all = starts.insert(c);
    lemma_set_opened_only_reveals(s, starts);
    let lhs = chain_opened(t, c);
    let rhs = set_opened(s, all);
    assert forall|i: int| 0 <= i < s.len() implies lhs[i] == rhs[i] by {
        let d = cell_of(i);
        if opens_from(t, c, d) {
            let p = choose|p: Seq<Cell>| #[trigger] chain_path(t, p) && p[0] == c && p.last() == d;
            lemma_path_back(s, t, p);
            assert(opens_from(s, c, d));
            assert(all.contains(c));
            assert(opens_from_some(s, all, d));
        }
        if opens_from_some(s, starts, d) {
            let a = choose|a: Cell| starts.contains(a) && #[trigger] opens_from(s, a, d);
            assert(all.contains(a));
            assert(opens_from_some(s, all, d));
        }
        if opens_from_some(s, all, d) && !opens_from_some(s, starts, d) {
            let a = choose|a: Cell| all.contains(a) && #[trigger] opens_from(s, a, d);
            if a != c {
                assert(starts.contains(a));
                assert(false);
            }
            lemma_flood_reaches_through(s, starts, c, d);
        }
    }
    assert(lhs =~= rhs);
}

/// A flood path that ends on a blank cell of another flood path continues
/// along the rest of that path.
proof fn lemma_join_paths(s: Seq<TileState>, q: Seq<Cell>, p: Seq<Cell>, j: int)
    requires
        chain_path(s, q),
        chain_path(s, p),
        0 <= j < p.len() - 1,
        q.last() == p[j],
    ensures
        chain_path(s, q + p.subrange(j + 1, p.len() as int)),
        (q + p.subrange(j + 1, p.len() as int))[0] == q[0],
        (q + p.subrange(j + 1, p.len() as int)).last() == p.last(),
{
    let r = q + p.subrange(j + 1, p.len() as int);
    assert forall|i: int| 0 <= i < r.len() implies cell_ok(#[trigger] r[i]) && is_hidden(tile_at(s, r[i])) by {
        if i < q.len() {
            assert(r[i] == q[i]);
        } else {
            assert(r[i] == p[j + 1 + i - q.len()]);
        }
    }
    assert forall|i: int| 0 <= i < r.len() - 1 implies is_blank(tile_at(s, #[trigger] r[i])) && are_neighbors(
        r[i],
        r[i + 1],
    ) by {
        if i < q.len() - 1 {
            assert(r[i] == q[i]);
            assert(r[i + 1] == q[i + 1]);
        } else if i == q.len() - 1 {
            assert(r[i] == q[q.len() - 1]);
            assert(r[i] == p[j]);
            assert(r[i + 1] == p[j + 1]);
        } else {
            let k = j + 1 + i - q.len();
            assert(r[i] == p[k]);
            assert(r[i + 1] == p[k + 1]);
        }
    }
    assert(r[r.len() - 1] == p[p.len() - 1]);
}

/// A flood path from `c` on `s` to a cell that no flood from `starts`
/// reaches crosses no tile that those floods revealed, so it is still a
/// flood path once they are done.
proof fn lemma_flood_reaches_through(s: Seq<TileState>, starts: Set<Cell>, c: Cell, d: Cell)
    requires
        full(s),
        opens_from(s, c, d),
        !opens_from_some(s, starts, d),
    ensures
        opens_from(set_opened(s, starts), c, d),
{
    let t = set_opened(s, starts);
    let p = choose|p: Seq<Cell>| #[trigger] chain_path(s, p) && p[0] == c && p.last() == d;
    assert forall|j: int| 0 <= j < p.len() implies is_hidden(tile_at(t, #[trigger] p[j])) by {
        let e = p[j];
        assert(cell_ok(e));
        assert(cell_of(index(e)) == e);
        if opens_from_some(s, starts, e) {
            let a = choose|a: Cell| starts.contains(a) && #[trigger] opens_from(s, a, e);
            let q = choose|q: Seq<Cell>| #[trigger] chain_path(s, q) && q[0] == a && q.last() == e;
            if j == p.len() - 1 {
                assert(e == d);
                assert(opens_from_some(s, starts, d));
            } else {
                lemma_join_paths(s, q, p, j);
                let r = q + p.subrange(j + 1, p.len() as int);
                assert(chain_path(s, r));
                assert(r[0] == a);
                assert(r.last() == d);
                assert(opens_from(s, a, d));
                assert(opens_from_some(s, starts, d));
            }
        }
        assert(t[index(e)] == s[index(e)]);
    }
    lemma_set_opened_only_reveals(s, starts);
    assert forall|i: int| 0 <= i < p.len() - 1 implies is_blank(tile_at(t, #[trigger] p[i])) && are_neighbors(
        p[i],
        p[i + 1],
    ) by {
        assert(t[index(p[i])].tile_type == s[index(p[i])].tile_type);
    }
    assert(chain_path(t, p));
}

/// Opening several tiles in turn, each unless it is a mine, is one flood
/// opening from all of them that are not mines: the order does not matter.
pub proof fn law_open_each_is_one_flood(s: Seq<TileState>, starts: Seq<Cell>)
    requires
        full(s),
        forall|j: int| 0 <= j < starts.len() ==> cell_ok(#[trigger] starts[j]),
    ensures
        open_each(s, starts) == set_opened(s, safe_starts(s, starts)),
    decreases starts.len(),
{
    if starts.len() == 0 {
        assert forall|i: int| 0 <= i < s.len() implies set_opened(s, safe_starts(s, starts))[i] == s[i] by {
            if opens_from_some(s, safe_starts(s, starts), cell_of(i)) {
                let a = choose|a: Cell| safe_starts(s, starts).contains(a) && #[trigger] opens_from(s, a, cell_of(i));
                assert(starts.contains(a));
            }
        }
        assert(set_opened(s, safe_starts(s, starts)) =~= s);
    } else {
        let init = starts.drop_last();
        let c = starts.last();
        assert forall|j: int| 0 <= j < init.len() implies cell_ok(#[trigger] init[j]) by {
            assert(init[j] == starts[j]);
        }
        law_open_each_is_one_flood(s, init);
        let t = set_opened(s, safe_starts(s, init));
        assert(cell_ok(starts[starts.len() - 1]));
        lemma_set_opened_only_reveals(s, safe_starts(s, init));
        assert(t[index(c)].tile_type == s[index(c)].tile_type);
        assert forall|d: Cell| #[trigger] starts.contains(d) <==> (init.contains(d) || d == c) by {
            if starts.contains(d) {
                let w = choose|w: int| 0 <= w < starts.len() && starts[w] == d;
                if w < starts.len() - 1 {
                    assert(init[w] == d);
                }
            }
            if init.contains(d) {
                let w = choose|w: int| 0 <= w < init.len() && init[w] == d;
                assert(starts[w] == d);
            }
            if d == c {
                assert(starts[starts.len() - 1] == d);
            }
        }
        if is_mine(tile_at(s, c)) {
            assert(safe_starts(s, starts) =~= safe_starts(s, init));
        } else {
            assert(safe_starts(s, starts) =~= safe_starts(s, init).insert(c));
            lemma_flood_after_set(s, safe_starts(s, init), c);
        }
    }
}

/// Opening the same cells in two orders gives the same board.
pub proof fn law_open_each_any_order(s: Seq<TileState>, a: Seq<Cell>, b: Seq<Cell>)
    requires
        full(s),
        forall|j: int| 0 <= j < a.len() ==> cell_ok(#[trigger] a[j]),
        forall|j: int| 0 <= j < b.len() ==> cell_ok(#[trigger] b[j]),
        forall|c: Cell| a.contains(c) <==> b.contains(c),
    ensures
        open_each(s, a) == open_each(s, b),
{
    law_open_each_is_one_flood(s, a);
    law_open_each_is_one_flood(s, b);
    assert(safe_starts(s, a) =~= safe_starts(s, b));
}

proof fn lemma_hidden_neighbors_contain(s: Seq<TileState>, c: Cell, k: int, p: Cell)
    requires
        0 <= k <= 8,
    ensures
        hidden_neighbors_upto(s, c, k).contains(p) <==> (exists|m: int|
            0 <= m < k && #[trigger] neighbor(c, m) == Some(p)) && is_hidden(tile_at(s, p)),
    decreases k,
{
    if k > 0 {
        lemma_hidden_neighbors_contain(s, c, k - 1, p);
        let prev = hidden_neighbors_upto(s, c, k - 1);
        let cur = hidden_neighbors_upto(s, c, k);
        if prev.contains(p) {
            let w = choose|w: int| 0 <= w < prev.len() && prev[w] == p;
            assert(cur[w] == p);
        }
        if cur.contains(p) {
            let w = choose|w: int| 0 <= w < cur.len() && cur[w] == p;
            if w < prev.len() {
                assert(prev[w] == p);
            } else {
                assert(neighbor(c, k - 1) == Some(p));
            }
        }
        if neighbor(c, k - 1) == Some(p) && is_hidden(tile_at(s, p)) {
            assert(cur[cur.len() - 1] == p);
        }
        if (exists|m: int| 0 <= m < k && #[trigger] neighbor(c, m) == Some(p)) && !prev.contains(p) && is_hidden(tile_at(s, p)) {
            let m = choose|m: int| 0 <= m < k && #[trigger] neighbor(c, m) == Some(p);
            if m < k - 1 {
                assert(false);
            }
        }
    }
}

/// A middle click on an opened number whose flags around it match the
/// number is one flood opening from all the hidden tiles around it that are
/// not mines, whatever order they are taken in; every other middle click
/// changes nothing.
pub proof fn law_middle_click_is_one_flood(s: Seq<TileState>, c: Cell)
    requires
        full(s),
        cell_ok(c),
    ensures
        middle_clicked(s, c) == (if ({
            let t = tile_at(s, c);
            t.appearance == TileAppearance::Revealed && (t.tile_type matches TileType::Empty(n) && n
                != 0 && flags_around(s, c) == n)
        }) {
            set_opened(
                s,
                Set::new(
                    |p: Cell| are_neighbors(c, p) && is_hidden(tile_at(s, p)) && !is_mine(tile_at(s, p)),
                ),
            )
        } else {
            s
        }),
{
    lemma_hidden_neighbors_on_board(s, c, 8);
    law_open_each_is_one_flood(s, hidden_neighbors(s, c));
    let want = Set::new(
        |p: Cell| are_neighbors(c, p) && is_hidden(tile_at(s, p)) && !is_mine(tile_at(s, p)),
    );
    assert forall|p: Cell| safe_starts(s, hidden_neighbors(s, c)).contains(p) <==> want.contains(p) by {
        lemma_hidden_neighbors_contain(s, c, 8, p);
    }
    assert(safe_starts(s, hidden_neighbors(s, c)) =~= want);
}

/// The cells around `c` that satisfy `pred`, among its first `k` neighbours.
spec fn around_upto(c: Cell, k: int, pred: spec_fn(Cell) -> bool) -> Set<Cell> {
    Set::new(|d: Cell| (exists|m: int| 0 <= m < k && #[trigger] neighbor(c, m) == Some(d)) && pred(d))
}

/// The eight neighbour steps are distinct.
proof fn lemma_offsets_distinct(m: int, k: int)
    requires
        0 <= m < 8,
        0 <= k < 8,
        offset_x(m) == offset_x(k),
        offset_y(m) == offset_y(k),
    ensures
        m == k,
{
}

/// Adding the `k`-th neighbour to the set of the first `k` ones.
proof fn lemma_around_step(c: Cell, k: int, pred: spec_fn(Cell) -> bool)
    requires
        0 < k <= 8,
    ensures
        neighbor(c, k - 1) is Some && pred(neighbor(c, k - 1)->0) ==> !around_upto(c, k - 1, pred).contains(
            neighbor(c, k - 1)->0,
        ) && around_upto(c, k, pred) == around_upto(c, k - 1, pred).insert(neighbor(c, k - 1)->0),
        !(neighbor(c, k - 1) is Some && pred(neighbor(c, k - 1)->0)) ==> around_upto(c, k, pred) == around_upto(
            c,
            k - 1,
            pred,
        ),
{
    let a = around_upto(c, k - 1, pred);
    let b = around_upto(c, k, pred);
    if let Some(n) = neighbor(c, k - 1) {
        if pred(n) {
            if a.contains(n) {
                let m = choose|m: int| 0 <= m < k - 1 && #[trigger] neighbor(c, m) == Some(n);
                lemma_offsets_distinct(m, k - 1);
            }
            assert forall|d: Cell| b.contains(d) <==> a.insert(n).contains(d) by {
                if b.contains(d) && d != n {
                    let m = choose|m: int| 0 <= m < k && #[trigger] neighbor(c, m) == Some(d);
                    assert(m < k - 1);
                }
            }
            assert(b =~= a.insert(n));
            return;
        }
    }
    assert forall|d: Cell| b.contains(d) <==> a.contains(d) by {
        if b.contains(d) {
            let m = choose|m: int| 0 <= m < k && #[trigger] neighbor(c, m) == Some(d);
            if m == k - 1 {
                assert(false);
            }
        }
    }
    assert(b =~= a);
}

/// The neighbours of a cell are the other board cells of its 3x3 square.
proof fn lemma_around_all(c: Cell, pred: spec_fn(Cell) -> bool)
    ensures
        around_upto(c, 8, pred) == Set::new(|d: Cell| cell_ok(d) && near(d, c) && d != c && pred(d)),
{
    let want = Set::new(|d: Cell| cell_ok(d) && near(d, c) && d != c && pred(d));
    assert forall|d: Cell| around_upto(c, 8, pred).contains(d) <==> want.contains(d) by {
        if want.contains(d) {
            lemma_near_is_neighbor(c, d);
        }
        if around_upto(c, 8, pred).contains(d) {
            let m = choose|m: int| 0 <= m < 8 && #[trigger] neighbor(c, m) == Some(d);
        }
    }
    assert(around_upto(c, 8, pred) =~= want);
}

proof fn lemma_flags_count(s: Seq<TileState>, c: Cell, k: int)
    requires
        0 <= k <= 8,
    ensures
        ({
            let flagged = |d: Cell| tile_at(s, d).appearance == TileAppearance::Flagged;
            &&& around_upto(c, k, flagged).finite()
            &&& flags_around_upto(s, c, k) == around_upto(c, k, flagged).len()
        }),
    decreases k,
{
    broadcast use vstd::set::group_set_axioms;

    let flagged = |d: Cell| tile_at(s, d).appearance == TileAppearance::Flagged;
    if k == 0 {
        assert(around_upto(c, 0, flagged) =~= Set::empty());
    } else {
        lemma_flags_count(s, c, k - 1);
        lemma_around_step(c, k, flagged);
    }
}

proof fn lemma_mines_count(s: Seq<TileState>, c: Cell, k: int)
    requires
        0 <= k <= 8,
    ensures
        ({
            let mined = |d: Cell| tile_at(s, d).tile_type == TileType::Mine;
            &&& around_upto(c, k, mined).finite()
            &&& mines_around_upto(s, c, k) == around_upto(c, k, mined).len()
        }),
    decreases k,
{
    broadcast use vstd::set::group_set_axioms;

    let mined = |d: Cell| tile_at(s, d).tile_type == TileType::Mine;
    if k == 0 {
        assert(around_upto(c, 0, mined) =~= Set::empty());
    } else {
        lemma_mines_count(s, c, k - 1);
        lemma_around_step(c, k, mined);
    }
}

/// The flags counted around a cell are exactly the flagged tiles among the
/// other cells of the 3x3 square around it.
pub proof fn law_flags_around_counts_square(s: Seq<TileState>, c: Cell)
    ensures
        flags_around(s, c) == Set::new(
            |d: Cell|
                cell_ok(d) && near(d, c) && d != c && tile_at(s, d).appearance == TileAppearance::Flagged,
        ).len(),
{
    let flagged = |d: Cell| tile_at(s, d).appearance == TileAppearance::Flagged;
    lemma_flags_count(s, c, 8);
    lemma_around_all(c, flagged);
    assert(Set::new(|d: Cell| cell_ok(d) && near(d, c) && d != c && flagged(d)) =~= Set::new(
        |d: Cell| cell_ok(d) && near(d, c) && d != c && tile_at(s, d).appearance == TileAppearance::Flagged,
    ));
}

/// The mines counted around a cell are exactly the mines among the other
/// cells of the 3x3 square around it.
pub proof fn law_mines_around_counts_square(s: Seq<TileState>, c: Cell)
    ensures
        mines_around(s, c) == Set::new(
            |d: Cell| cell_ok(d) && near(d, c) && d != c && tile_at(s, d).tile_type == TileType::Mine,
        ).len(),
{
    let mined = |d: Cell| tile_at(s, d).tile_type == TileType::Mine;
    lemma_mines_count(s, c, 8);
    lemma_around_all(c, mined);
    assert(Set::new(|d: Cell| cell_ok(d) && near(d, c) && d != c && mined(d)) =~= Set::new(
        |d: Cell| cell_ok(d) && near(d, c) && d != c && tile_at(s, d).tile_type == TileType::Mine,
    ));
}

/// `d` is one of the eight neighbours of `c` exactly when it is another
/// board cell of the 3x3 square around `c`.
proof fn lemma_neighbors_are_square(c: Cell, d: Cell)
    ensures
        are_neighbors(c, d) <==> (cell_ok(d) && near(d, c) && d != c),
{
    if cell_ok(d) && near(d, c) && d != c {
        lemma_near_is_neighbor(c, d);
    }
    if are_neighbors(c, d) {
        let m = choose|m: int| 0 <= m < 8 && #[trigger] neighbor(c, m) == Some(d);
    }
}

/// The chord: a middle click on an opened number `n > 0` with exactly `n`
/// flags among the other cells of its 3x3 square is one flood opening from
/// every hidden cell of that square that is not a mine; every other middle
/// click leaves the board as it is.
pub proof fn law_middle_click_chord(s: Seq<TileState>, c: Cell)
    requires
        full(s),
        cell_ok(c),
    ensures
        middle_clicked(s, c) == (if ({
            let t = tile_at(s, c);
            t.appearance == TileAppearance::Revealed && (t.tile_type matches TileType::Empty(n) && n
                != 0 && Set::new(
                |d: Cell|
                    cell_ok(d) && near(d, c) && d != c && tile_at(s, d).appearance
                        == TileAppearance::Flagged,
            ).len() == n)
        }) {
            set_opened(
                s,
                Set::new(
                    |p: Cell|
                        cell_ok(p) && near(p, c) && p != c && is_hidden(tile_at(s, p)) && !is_mine(
                            tile_at(s, p),
                        ),
                ),
            )
        } else {
            s
        }),
{
    law_middle_click_is_one_flood(s, c);
    law_flags_around_counts_square(s, c);
    let a = Set::new(|p: Cell| are_neighbors(c, p) && is_hidden(tile_at(s, p)) && !is_mine(tile_at(s, p)));
    let b = Set::new(
        |p: Cell| cell_ok(p) && near(p, c) && p != c && is_hidden(tile_at(s, p)) && !is_mine(tile_at(s, p)),
    );
    assert forall|p: Cell| a.contains(p) <==> b.contains(p) by {
        lemma_neighbors_are_square(c, p);
    }
    assert(a =~= b);
}

} // verus!
