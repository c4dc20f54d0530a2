use minesweeper::events::Events;
use minesweeper::game::{GameEvent, GameState, Minesweeper};
use minesweeper::game_board::BoardError;
use minesweeper::tile::{Tile, TileModifier, TileState};
use minesweeper::timer::Timer;

fn drain(game: &mut Minesweeper) -> Vec<GameEvent> {
    let mut all = Vec::new();
    while let Some(e) = game.events.next() {
        all.push(e);
    }
    all.reverse();
    all
}

#[test]
fn events_come_out_most_recent_first() {
    let mut events: Events<u32> = Events::new();
    assert!(events.next().is_none());
    events.add(1);
    events.add(2);
    events.add(3);
    assert_eq!(events.len(), 3);
    assert_eq!(events.next(), Some(3));
    assert_eq!(events.next(), Some(2));
    events.clear();
    assert_eq!(events.len(), 0);
    assert_eq!(events.next(), None);
}

#[test]
fn timer_runs_freezes_and_clears() {
    let mut t = Timer::new();
    assert_eq!(t.elapsed(100), None);
    t.start(1000);
    assert_eq!(t.elapsed(1500), Some(500));
    assert_eq!(t.elapsed(900), Some(0));
    t.stop(2250);
    assert_eq!(t.elapsed(9999), Some(1250));
    t.clear();
    assert_eq!(t.elapsed(9999), None);
    let mut never = Timer::new();
    never.stop(50);
    assert_eq!(never.elapsed(60), Some(0));
}

#[test]
fn tile_operations() {
    let mut t = Tile::new();
    t.increment_adjacent();
    t.increment_adjacent();
    assert_eq!(t.adjacent, 2);
    let mut m = Tile { state: TileState::Mine, ..Tile::new() };
    m.increment_adjacent();
    assert_eq!(m.adjacent, 0);
    t.highlight();
    assert!(t.highlighted);
    t.remove_highlight();
    assert!(!t.highlighted);
    t.swept = true;
    t.highlight();
    assert!(!t.highlighted);
}

#[test]
fn new_game_checks_the_size() {
    assert!(matches!(Minesweeper::new(0, 3, 0), Err(BoardError::ZeroDimension)));
    assert!(matches!(Minesweeper::new(3, 3, 1), Err(BoardError::TooManyMines)));
    let game = Minesweeper::new(30, 16, 99).unwrap();
    assert_eq!(game.state, GameState::Empty);
    assert_eq!(game.board.mines(), 99);
    assert_eq!(game.get_time(5), None);
}

#[test]
fn first_reveal_starts_the_round() {
    let mut game = Minesweeper::new(9, 9, 10).unwrap();
    game.reveal_tile(4, 4, 1000);
    assert!(game.state == GameState::Playing || game.state == GameState::Victory);
    assert_eq!(game.get_time(3000), Some(2000));
    let all = drain(&mut game);
    assert!(matches!(all[0], GameEvent::InitDone));
    assert!(matches!(all[1], GameEvent::RevealTile(4, 4, _)));
    assert!(matches!(all[all.len() - 1], GameEvent::SweepDone));
    let t = game.board.get_tile(4, 4).unwrap();
    assert!(t.swept);
    assert_eq!(t.state, TileState::Empty);
}

#[test]
fn win_freezes_the_clock() {
    let mut game = Minesweeper::new(3, 3, 0).unwrap();
    game.reveal_tile(0, 0, 100);
    assert_eq!(game.state, GameState::Victory);
    assert_eq!(game.board.revealed_tiles(), 9);
    assert_eq!(game.get_time(5000), Some(0));
    let all = drain(&mut game);
    let n = all.len();
    assert!(matches!(all[n - 1], GameEvent::SweepDone));
    assert!(matches!(all[n - 2], GameEvent::GameEnd(_)));
    assert!(matches!(all[n - 3], GameEvent::Win));
    // A finished round ignores further input.
    game.reveal_tile(1, 1, 200);
    game.modify(1, 1);
    assert_eq!(game.events.len(), 0);
    game.highlight(1, 1);
    assert!(!game.board.get_tile(1, 1).unwrap().highlighted);
}

#[test]
fn loss_then_reset() {
    let mut game = Minesweeper::new(5, 5, 5).unwrap();
    game.board.generate_with(0, 0, &vec![6, 6, 6, 6, 6]);
    game.reveal_tile(0, 0, 1000);
    assert_eq!(game.state, GameState::Playing);
    game.modify(4, 4);
    assert_eq!(game.board.flags(), 1);
    game.reveal_tile(2, 2, 4000);
    assert_eq!(game.state, GameState::GameOver);
    assert_eq!(game.get_time(9000), Some(3000));
    let all = drain(&mut game);
    let n = all.len();
    assert!(matches!(all[n - 1], GameEvent::SweepDone));
    assert!(matches!(all[n - 2], GameEvent::GameEnd(_)));
    assert!(matches!(all[n - 3], GameEvent::Lose(2, 2, _)));
    assert!(matches!(all[n - 4], GameEvent::RevealTile(2, 2, _)));
    game.reset();
    assert_eq!(game.state, GameState::Empty);
    assert_eq!(game.board.revealed_tiles(), 0);
    assert_eq!(game.board.flags(), 0);
    assert_eq!(game.get_time(9000), None);
    assert!(!game.board.is_generated());
    let all = drain(&mut game);
    assert_eq!(all.len(), 1);
    assert!(matches!(all[0], GameEvent::Reset));
}

#[test]
fn modify_only_while_playing() {
    let mut game = Minesweeper::new(5, 5, 5).unwrap();
    game.modify(4, 4);
    assert_eq!(game.board.flags(), 0);
    assert!(game.board.get_tile(4, 4).unwrap().modifier.is_none());
    // Mines fill column 2; a sweep from (0, 0) stops at column 1.
    game.board.generate_with(0, 0, &vec![6, 6, 6, 6, 6]);
    game.reveal_tile(0, 0, 0);
    assert_eq!(game.state, GameState::Playing);
    game.modify(4, 4);
    assert_eq!(game.board.get_tile(4, 4).unwrap().modifier, Some(TileModifier::Flagged));
    assert_eq!(game.board.remaining_flags(), 4);
}

#[test]
fn highlight_follows_the_round() {
    let mut game = Minesweeper::new(4, 4, 2).unwrap();
    game.highlight(2, 2);
    assert!(game.board.get_tile(2, 2).unwrap().highlighted);
    game.remove_highlight(2, 2);
    assert!(!game.board.get_tile(2, 2).unwrap().highlighted);
    game.highlight(9, 9);
    game.remove_highlight(9, 9);
    assert_eq!(game.events.len(), 0);
}

#[test]
fn resize_and_reset() {
    let mut game = Minesweeper::new(4, 4, 2).unwrap();
    game.reveal_tile(0, 0, 10);
    assert!(matches!(game.update_and_reset(3, 3, 1), Err(BoardError::TooManyMines)));
    assert_eq!(game.board.width(), 4);
    assert!(game.update_and_reset(8, 6, 12).is_ok());
    assert_eq!(game.state, GameState::Empty);
    assert_eq!(game.board.width(), 8);
    assert_eq!(game.board.height(), 6);
    assert_eq!(game.board.mines(), 12);
    assert_eq!(game.board.revealed_tiles(), 0);
    assert_eq!(game.get_time(100), None);
    let all = drain(&mut game);
    assert_eq!(all.len(), 1);
    assert!(matches!(all[0], GameEvent::Reset));
}

#[test]
fn finished_round_keeps_its_highlights() {
    let mut game = Minesweeper::new(5, 5, 5).unwrap();
    game.board.generate_with(0, 0, &vec![6, 6, 6, 6, 6]);
    game.highlight(4, 4);
    game.reveal_tile(2, 2, 0);
    assert_eq!(game.state, GameState::GameOver);
    game.remove_highlight(4, 4);
    assert!(game.board.get_tile(4, 4).unwrap().highlighted);
}
