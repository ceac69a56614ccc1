use minesweeper::board::Board;
use minesweeper::constants::{MINE_COUNT, TILE_COUNT};
use minesweeper::game::{process_input, GameState};
use minesweeper::input::{click_event, ClickButton, TileClickEvent};
use minesweeper::tile::{TileAppearance, TileType};

fn count_revealed(b: &Board) -> usize {
    b.tiles.iter().filter(|t| t.appearance == TileAppearance::Revealed).count()
}

fn click(x: u32, y: u32, button: ClickButton) -> TileClickEvent {
    TileClickEvent { x, y, button }
}

#[test]
fn game_state_starts_stopped() {
    assert!(!GameState::default().is_active);
}

#[test]
fn first_left_click_generates_and_opens() {
    let mut b = Board::empty();
    let mut st = GameState::default();
    process_input(&click(8, 9, ClickButton::Left), &mut b, &mut st);
    assert!(st.is_active);
    assert!(b.is_generated());
    assert_eq!(b.tiles.iter().filter(|t| t.tile_type == TileType::Mine).count(), MINE_COUNT);
    for x in 7..=9 {
        for y in 8..=10 {
            assert_eq!(b.get_tile(x, y).appearance, TileAppearance::Revealed);
        }
    }
    for t in b.tiles.iter() {
        if t.tile_type == TileType::Mine {
            assert_eq!(t.appearance, TileAppearance::Hidden);
        }
    }
}

#[test]
fn right_and_middle_wait_for_generation() {
    let mut b = Board::empty();
    let mut st = GameState::default();
    process_input(&click(3, 3, ClickButton::Right), &mut b, &mut st);
    assert!(st.is_active);
    assert!(!b.is_generated());
    assert_eq!(b.get_tile(3, 3).appearance, TileAppearance::Hidden);
    process_input(&click(3, 3, ClickButton::Middle), &mut b, &mut st);
    assert!(!b.is_generated());
    assert_eq!(count_revealed(&b), 0);
}

#[test]
fn right_click_flags_after_generation() {
    let mut b = Board::empty();
    b.lay_mines(&vec![(0, 0)]);
    let mut st = GameState::default();
    process_input(&click(19, 19, ClickButton::Right), &mut b, &mut st);
    assert_eq!(b.get_tile(19, 19).appearance, TileAppearance::Flagged);
    process_input(&click(19, 19, ClickButton::Right), &mut b, &mut st);
    assert_eq!(b.get_tile(19, 19).appearance, TileAppearance::Hidden);
}

#[test]
fn left_click_on_a_mine_changes_nothing() {
    let mut b = Board::empty();
    b.lay_mines(&vec![(4, 4)]);
    let before = b.tiles.clone();
    let mut st = GameState::default();
    process_input(&click(4, 4, ClickButton::Left), &mut b, &mut st);
    assert_eq!(b.tiles, before);
    assert!(st.is_active);
}

#[test]
fn middle_click_through_process_input() {
    let mut b = Board::empty();
    b.lay_mines(&vec![(5, 5)]);
    let mut st = GameState::default();
    process_input(&click(5, 6, ClickButton::Left), &mut b, &mut st);
    assert_eq!(count_revealed(&b), 1);
    process_input(&click(5, 5, ClickButton::Right), &mut b, &mut st);
    process_input(&click(5, 6, ClickButton::Middle), &mut b, &mut st);
    assert_eq!(count_revealed(&b), TILE_COUNT - 1);
}

#[test]
fn click_events_from_presses() {
    assert_eq!(click_event(3, 4, true, false), Some(click(3, 4, ClickButton::Left)));
    assert_eq!(click_event(3, 4, false, true), Some(click(3, 4, ClickButton::Right)));
    assert_eq!(click_event(3, 4, true, true), Some(click(3, 4, ClickButton::Left)));
    assert_eq!(click_event(3, 4, false, false), None);
    assert_eq!(click_event(20, 4, true, false), None);
    assert_eq!(click_event(19, 19, true, false), Some(click(19, 19, ClickButton::Left)));
    assert_eq!(click_event(0, 20, false, true), None);
}
