use minesweeper::board::{neighbor_cell, Board};
use minesweeper::constants::{MINE_COUNT, TILE_COLUMNS, TILE_COUNT, TILE_ROWS};
use minesweeper::tile::{TileAppearance, TileState, TileType};

fn idx(x: usize, y: usize) -> usize {
    y * TILE_COLUMNS + x
}

fn set_type(b: &mut Board, x: usize, y: usize, t: TileType) {
    b.tiles[idx(x, y)].tile_type = t;
}

fn set_look(b: &mut Board, x: usize, y: usize, a: TileAppearance) {
    b.tiles[idx(x, y)].appearance = a;
}

fn count_revealed(b: &Board) -> usize {
    b.tiles.iter().filter(|t| t.appearance == TileAppearance::Revealed).count()
}

fn count_mines(b: &Board) -> usize {
    b.tiles.iter().filter(|t| t.tile_type == TileType::Mine).count()
}

/// A board with mines at the given cells and the numbers written.
fn board_with_mines(mines: &[(usize, usize)]) -> Board {
    let mut b = Board::empty();
    b.lay_mines(&mines.to_vec());
    b
}

#[test]
fn empty_board_is_fresh() {
    let b = Board::empty();
    assert_eq!(b.tiles.len(), TILE_COUNT);
    assert_eq!(TILE_COUNT, TILE_COLUMNS * TILE_ROWS);
    assert!(!b.is_generated());
    for t in b.tiles.iter() {
        assert_eq!(*t, TileState { tile_type: TileType::Empty(0), appearance: TileAppearance::Hidden });
        assert_eq!(*t, TileState::default());
    }
}

#[test]
fn index_is_row_major() {
    assert_eq!(Board::get_index(0, 0), 0);
    assert_eq!(Board::get_index(3, 2), 43);
    assert_eq!(Board::get_index(19, 19), 399);
}

#[test]
fn get_tile_reads_the_cell() {
    let mut b = Board::empty();
    set_type(&mut b, 4, 7, TileType::Mine);
    assert_eq!(b.get_tile(4, 7).tile_type, TileType::Mine);
    assert_eq!(b.get_tile(7, 4).tile_type, TileType::Empty(0));
    b.get_tile_mut(1, 2).appearance = TileAppearance::Flagged;
    assert_eq!(b.tiles[idx(1, 2)].appearance, TileAppearance::Flagged);
}

#[test]
fn neighbors_in_order_and_clipped() {
    assert_eq!(neighbor_cell(5, 5, 0), Some((4, 4)));
    assert_eq!(neighbor_cell(5, 5, 1), Some((5, 4)));
    assert_eq!(neighbor_cell(5, 5, 2), Some((6, 4)));
    assert_eq!(neighbor_cell(5, 5, 3), Some((4, 5)));
    assert_eq!(neighbor_cell(5, 5, 4), Some((6, 5)));
    assert_eq!(neighbor_cell(5, 5, 5), Some((4, 6)));
    assert_eq!(neighbor_cell(5, 5, 6), Some((5, 6)));
    assert_eq!(neighbor_cell(5, 5, 7), Some((6, 6)));
    assert_eq!(neighbor_cell(0, 0, 0), None);
    assert_eq!(neighbor_cell(0, 0, 4), Some((1, 0)));
    assert_eq!(neighbor_cell(19, 19, 7), None);
    assert_eq!(neighbor_cell(19, 19, 3), Some((18, 19)));
}

#[test]
fn toggle_flag_cycles_and_spares_open_tiles() {
    let mut b = Board::empty();
    b.toggle_flag(2, 3);
    assert_eq!(b.get_tile(2, 3).appearance, TileAppearance::Flagged);
    b.toggle_flag(2, 3);
    assert_eq!(b.get_tile(2, 3).appearance, TileAppearance::Hidden);
    set_look(&mut b, 5, 5, TileAppearance::Revealed);
    b.toggle_flag(5, 5);
    assert_eq!(b.get_tile(5, 5).appearance, TileAppearance::Revealed);
    assert_eq!(count_revealed(&b), 1);
}

#[test]
fn toggle_twice_gives_board_back() {
    let mut b = board_with_mines(&[(0, 0), (3, 3)]);
    let before = b.tiles.clone();
    b.toggle_flag(3, 3);
    b.toggle_flag(3, 3);
    assert_eq!(b.tiles, before);
}

#[test]
fn mine_numbers_count_neighbours() {
    let b = board_with_mines(&[(0, 0), (1, 0), (5, 5)]);
    assert_eq!(count_mines(&b), 3);
    assert_eq!(b.get_tile(0, 1).tile_type, TileType::Empty(2));
    assert_eq!(b.get_tile(1, 1).tile_type, TileType::Empty(2));
    assert_eq!(b.get_tile(2, 0).tile_type, TileType::Empty(1));
    assert_eq!(b.get_tile(2, 1).tile_type, TileType::Empty(1));
    assert_eq!(b.get_tile(3, 0).tile_type, TileType::Empty(0));
    assert_eq!(b.get_tile(4, 4).tile_type, TileType::Empty(1));
    assert_eq!(b.get_tile(6, 6).tile_type, TileType::Empty(1));
    assert_eq!(b.get_tile(7, 7).tile_type, TileType::Empty(0));
    assert_eq!(b.get_tile(0, 0).tile_type, TileType::Mine);
    assert!(b.is_generated());
}

#[test]
fn surrounded_tile_counts_eight() {
    let ring = [(4, 4), (5, 4), (6, 4), (4, 5), (6, 5), (4, 6), (5, 6), (6, 6)];
    let b = board_with_mines(&ring);
    assert_eq!(b.get_tile(5, 5).tile_type, TileType::Empty(8));
}

#[test]
fn calc_mine_numbers_overwrites_numbers() {
    let mut b = Board::empty();
    set_type(&mut b, 10, 10, TileType::Mine);
    set_type(&mut b, 0, 0, TileType::Empty(7));
    b.calc_mine_numbers();
    assert_eq!(b.get_tile(0, 0).tile_type, TileType::Empty(0));
    assert_eq!(b.get_tile(11, 11).tile_type, TileType::Empty(1));
    assert_eq!(b.get_tile(10, 10).tile_type, TileType::Mine);
    assert!(!b.is_generated());
}

#[test]
fn lay_mines_takes_the_first_mine_count_cells() {
    let mut order = Vec::new();
    for y in 0..TILE_ROWS {
        for x in 0..TILE_COLUMNS {
            order.push((x, y));
        }
    }
    let mut b = Board::empty();
    b.lay_mines(&order);
    assert_eq!(count_mines(&b), MINE_COUNT);
    for i in 0..TILE_COUNT {
        let expect_mine = i < MINE_COUNT;
        assert_eq!(b.tiles[i].tile_type == TileType::Mine, expect_mine);
    }
    // the row just above the mines sees three mines below each inner tile
    assert_eq!(b.get_tile(5, 3).tile_type, TileType::Empty(3));
    assert_eq!(b.get_tile(0, 3).tile_type, TileType::Empty(2));
}

#[test]
fn flood_opens_a_mine_free_board() {
    let mut b = Board::empty();
    b.calc_mine_numbers();
    b.open_chain(7, 3);
    assert_eq!(count_revealed(&b), TILE_COUNT);
}

#[test]
fn flood_stops_at_numbers_and_flags() {
    // a wall of mines on column 10 splits the board
    let wall: Vec<(usize, usize)> = (0..TILE_ROWS).map(|y| (10, y)).collect();
    let mut b = board_with_mines(&wall);
    set_look(&mut b, 0, 0, TileAppearance::Flagged);
    b.open_chain(2, 5);
    for y in 0..TILE_ROWS {
        for x in 0..TILE_COLUMNS {
            let t = b.get_tile(x, y);
            if (x, y) == (0, 0) {
                assert_eq!(t.appearance, TileAppearance::Flagged);
            } else if x <= 9 {
                assert_eq!(t.appearance, TileAppearance::Revealed, "({}, {})", x, y);
            } else {
                assert_eq!(t.appearance, TileAppearance::Hidden, "({}, {})", x, y);
            }
        }
    }
    // numbers on column 9 are opened but not expanded through
    assert_eq!(b.get_tile(9, 5).tile_type, TileType::Empty(3));
}

#[test]
fn flood_from_number_opens_only_it() {
    let mut b = board_with_mines(&[(5, 5)]);
    b.open_chain(5, 6);
    assert_eq!(count_revealed(&b), 1);
    assert_eq!(b.get_tile(5, 6).appearance, TileAppearance::Revealed);
}

#[test]
fn flood_from_flag_or_open_tile_does_nothing() {
    let mut b = board_with_mines(&[(5, 5)]);
    set_look(&mut b, 0, 0, TileAppearance::Flagged);
    let before = b.tiles.clone();
    b.open_chain(0, 0);
    assert_eq!(b.tiles, before);
    b.open_chain(15, 15);
    let after_first = b.tiles.clone();
    b.open_chain(15, 15);
    assert_eq!(b.tiles, after_first);
}

#[test]
fn flood_never_opens_a_mine() {
    let mines = [(3, 3), (12, 7), (0, 19), (19, 0), (8, 15)];
    let mut b = board_with_mines(&mines);
    b.open_chain(10, 10);
    for &(x, y) in mines.iter() {
        assert_eq!(b.get_tile(x, y).appearance, TileAppearance::Hidden);
    }
    assert!(count_revealed(&b) > 300);
}

#[test]
fn mine_candidates_leave_out_the_click_square() {
    let c = Board::mine_candidates(5, 5);
    assert_eq!(c.len(), TILE_COUNT - 9);
    for x in 4..=6 {
        for y in 4..=6 {
            assert!(!c.contains(&(x, y)));
        }
    }
    assert!(c.contains(&(3, 5)));
    assert!(c.contains(&(7, 7)));
    assert_eq!(c[0], (0, 0));
    assert_eq!(c[c.len() - 1], (19, 19));
    let corner = Board::mine_candidates(0, 0);
    assert_eq!(corner.len(), TILE_COUNT - 4);
    assert_eq!(corner[0], (2, 0));
    assert_eq!(corner[18], (2, 1));
    assert_eq!(corner[36], (0, 2));
}

#[test]
fn place_mines_keeps_the_first_click_safe() {
    for &(cx, cy) in [(0usize, 0usize), (10, 10), (19, 0), (7, 18)].iter() {
        let mut b = Board::empty();
        b.place_mines(cx, cy);
        assert!(b.is_generated());
        assert_eq!(count_mines(&b), MINE_COUNT);
        for x in cx.saturating_sub(1)..=(cx + 1).min(TILE_COLUMNS - 1) {
            for y in cy.saturating_sub(1)..=(cy + 1).min(TILE_ROWS - 1) {
                assert_ne!(b.get_tile(x, y).tile_type, TileType::Mine);
            }
        }
        assert_eq!(b.get_tile(cx, cy).tile_type, TileType::Empty(0));
        assert_eq!(count_revealed(&b), 0);
    }
}

#[test]
fn place_mines_is_shuffled() {
    // without a shuffle the mines would fill the first candidates, row by row
    let mut unshuffled = Board::empty();
    unshuffled.lay_mines(&Board::mine_candidates(10, 10));
    let mut differs = false;
    for _ in 0..5 {
        let mut b = Board::empty();
        b.place_mines(10, 10);
        if b.tiles != unshuffled.tiles {
            differs = true;
        }
    }
    assert!(differs);
}

#[test]
fn middle_click_opens_around_a_satisfied_number() {
    let mut b = board_with_mines(&[(5, 5)]);
    b.open_chain(5, 6);
    set_look(&mut b, 5, 5, TileAppearance::Flagged);
    b.handle_middle_click(5, 6);
    // the neighbours of (5, 6) other than the mine are opened, and the blank
    // ones among them flood further
    assert_eq!(b.get_tile(5, 5).appearance, TileAppearance::Flagged);
    assert_eq!(b.get_tile(4, 7).appearance, TileAppearance::Revealed);
    assert_eq!(b.get_tile(0, 19).appearance, TileAppearance::Revealed);
    assert_eq!(count_revealed(&b), TILE_COUNT - 1);
}

#[test]
fn middle_click_with_wrong_flag_count_does_nothing() {
    let mut b = board_with_mines(&[(5, 5)]);
    b.open_chain(5, 6);
    let before = b.tiles.clone();
    b.handle_middle_click(5, 6);
    assert_eq!(b.tiles, before);
    set_look(&mut b, 4, 5, TileAppearance::Flagged);
    set_look(&mut b, 6, 5, TileAppearance::Flagged);
    let before = b.tiles.clone();
    b.handle_middle_click(5, 6);
    assert_eq!(b.tiles, before);
}

#[test]
fn middle_click_on_hidden_or_blank_does_nothing() {
    let mut b = board_with_mines(&[(5, 5)]);
    let before = b.tiles.clone();
    b.handle_middle_click(5, 6);
    assert_eq!(b.tiles, before);
    set_look(&mut b, 15, 15, TileAppearance::Revealed);
    let before = b.tiles.clone();
    b.handle_middle_click(15, 15);
    assert_eq!(b.tiles, before);
}

#[test]
fn middle_click_skips_an_unflagged_mine() {
    // a wrong flag makes the count match while the true mine stays hidden
    let mut b = board_with_mines(&[(5, 5)]);
    b.open_chain(5, 6);
    set_look(&mut b, 4, 5, TileAppearance::Flagged);
    b.handle_middle_click(5, 6);
    assert_eq!(b.get_tile(5, 5).appearance, TileAppearance::Hidden);
    assert_eq!(b.get_tile(4, 5).appearance, TileAppearance::Flagged);
    assert_eq!(b.get_tile(6, 5).appearance, TileAppearance::Revealed);
}

#[test]
fn opening_in_any_order_gives_the_same_board() {
    let mines = [(5, 5), (2, 8), (12, 3), (9, 9)];
    let starts = [(0, 0), (4, 6), (6, 6), (15, 15), (10, 9)];
    let mut forward = board_with_mines(&mines);
    for &(x, y) in starts.iter() {
        forward.open_chain(x, y);
    }
    let mut backward = board_with_mines(&mines);
    for &(x, y) in starts.iter().rev() {
        backward.open_chain(x, y);
    }
    assert_eq!(forward.tiles, backward.tiles);
}

#[test]
fn middle_click_equals_opening_its_neighbours() {
    let mut b = board_with_mines(&[(5, 5), (3, 8)]);
    b.open_chain(5, 6);
    set_look(&mut b, 5, 5, TileAppearance::Flagged);
    let mut by_hand = Board::empty();
    by_hand.tiles = b.tiles.clone();
    for &(x, y) in [(6, 7), (4, 7), (6, 6), (4, 6), (5, 7)].iter() {
        by_hand.open_chain(x, y);
    }
    b.handle_middle_click(5, 6);
    assert_eq!(b.tiles, by_hand.tiles);
}
