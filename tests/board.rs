use minesweeper::events::Events;
use minesweeper::game::{GameEvent, GameState};
use minesweeper::game_board::{BoardError, GameBoard, ModifyMode};
use minesweeper::tile::{TileModifier, TileState};

fn is_mine(b: &GameBoard, x: usize, y: usize) -> bool {
    b.get_tile(x, y).unwrap().state == TileState::Mine
}

fn count_mines(b: &GameBoard) -> usize {
    let mut n = 0;
    for x in 0..b.width() {
        for y in 0..b.height() {
            if is_mine(b, x, y) {
                n += 1;
            }
        }
    }
    n
}

fn brute_force_adjacent(b: &GameBoard, x: usize, y: usize) -> u8 {
    let mut n = 0;
    for dx in -1i64..=1 {
        for dy in -1i64..=1 {
            if dx == 0 && dy == 0 {
                continue;
            }
            let nx = x as i64 + dx;
            let ny = y as i64 + dy;
            if nx < 0 || ny < 0 || nx >= b.width() as i64 || ny >= b.height() as i64 {
                continue;
            }
            if is_mine(b, nx as usize, ny as usize) {
                n += 1;
            }
        }
    }
    n
}

fn reveal_events(events: &mut Events<GameEvent>) -> usize {
    let mut n = 0;
    while let Some(e) = events.next() {
        if let GameEvent::RevealTile(_, _, _) = e {
            n += 1;
        }
    }
    n
}

#[test]
fn new_accepts_exactly_the_valid_sizes() {
    assert!(matches!(GameBoard::new(0, 5, 0), Err(BoardError::ZeroDimension)));
    assert!(matches!(GameBoard::new(5, 0, 0), Err(BoardError::ZeroDimension)));
    assert!(GameBoard::new(3, 3, 0).is_ok());
    assert!(matches!(GameBoard::new(3, 3, 1), Err(BoardError::TooManyMines)));
    assert!(matches!(GameBoard::new(2, 1, 0), Err(BoardError::TooManyMines)));
    assert!(GameBoard::new(4, 4, 7).is_ok());
    assert!(matches!(GameBoard::new(4, 4, 8), Err(BoardError::TooManyMines)));
    assert!(GameBoard::new(30, 16, 99).is_ok());
    for w in 1..7usize {
        for h in 1..7usize {
            for m in 0..40usize {
                let ok = m + 9 <= w * h;
                assert_eq!(GameBoard::new(w, h, m).is_ok(), ok, "{} {} {}", w, h, m);
            }
        }
    }
}

#[test]
fn new_board_is_fresh() {
    let b = GameBoard::new(4, 5, 3).unwrap();
    assert_eq!(b.width(), 4);
    assert_eq!(b.height(), 5);
    assert_eq!(b.mines(), 3);
    assert_eq!(b.non_mine_tiles(), 17);
    assert_eq!(b.revealed_tiles(), 0);
    assert_eq!(b.flags(), 0);
    assert_eq!(b.remaining_flags(), 3);
    assert!(!b.is_generated());
    assert!(matches!(b.modify_mode(), ModifyMode::Flag));
    let t = b.get_tile(3, 4).unwrap();
    assert_eq!(t.state, TileState::Empty);
    assert!(!t.swept && t.modifier.is_none() && t.adjacent == 0);
    assert!(b.get_tile(4, 0).is_none());
    assert!(b.get_tile(0, 5).is_none());
    assert!(b.is_valid_coord(3, 4));
    assert!(!b.is_valid_coord(4, 4));
}

#[test]
fn first_sweep_never_hits_a_mine_nearby() {
    for round in 0..30usize {
        let mut b = GameBoard::new(5, 5, 16).unwrap();
        let mut events = Events::new();
        let (x0, y0) = (round % 5, (round / 5) % 5);
        let r = b.sweep(x0, y0, &mut events);
        assert!(!matches!(r, Some(GameState::GameOver)));
        for x in 0..5usize {
            for y in 0..5usize {
                if (x as i64 - x0 as i64).abs() <= 1 && (y as i64 - y0 as i64).abs() <= 1 {
                    assert!(!is_mine(&b, x, y));
                }
            }
        }
        assert_eq!(count_mines(&b), 16);
    }
}

#[test]
fn adjacency_matches_brute_force() {
    for _ in 0..10 {
        let mut b = GameBoard::new(8, 8, 20).unwrap();
        b.generate(3, 4);
        assert!(b.is_generated());
        assert_eq!(count_mines(&b), 20);
        for x in 0..8usize {
            for y in 0..8usize {
                let t = b.get_tile(x, y).unwrap();
                if t.state == TileState::Empty {
                    assert_eq!(t.adjacent, brute_force_adjacent(&b, x, y));
                } else {
                    assert_eq!(t.adjacent, 0);
                }
            }
        }
    }
}

#[test]
fn random_layouts_differ() {
    let mut layouts: Vec<Vec<bool>> = Vec::new();
    for _ in 0..10 {
        let mut b = GameBoard::new(10, 10, 10).unwrap();
        b.generate(0, 0);
        let mut layout = Vec::new();
        for x in 0..10usize {
            for y in 0..10usize {
                layout.push(is_mine(&b, x, y));
            }
        }
        layouts.push(layout);
    }
    assert!(layouts.iter().any(|l| *l != layouts[0]));
}

#[test]
fn fixed_draws_place_mines_by_rank() {
    // Free tiles in column order after the safe block around (0, 0):
    // (0,2) (0,3) (0,4) (1,2) (1,3) (1,4) (2,0) ...; rank 6 is (2,0), and once it
    // is taken (2,1) has rank 6, and so on down the column.
    let mut b = GameBoard::new(5, 5, 5).unwrap();
    b.generate_with(0, 0, &vec![6, 6, 6, 6, 6]);
    for y in 0..5 {
        assert!(is_mine(&b, 2, y));
    }
    assert_eq!(count_mines(&b), 5);
    assert_eq!(b.get_tile(1, 0).unwrap().adjacent, 2);
    assert_eq!(b.get_tile(1, 2).unwrap().adjacent, 3);
    assert_eq!(b.get_tile(0, 2).unwrap().adjacent, 0);
    assert!(b.get_tile(0, 0).unwrap().safe);
    assert!(!b.get_tile(2, 2).unwrap().safe);
}

#[test]
fn draws_wrap_around_the_free_tiles() {
    let mut a = GameBoard::new(5, 5, 1).unwrap();
    a.generate_with(0, 0, &vec![20]);
    let mut b = GameBoard::new(5, 5, 1).unwrap();
    b.generate_with(0, 0, &vec![41]);
    assert!(is_mine(&a, 4, 4));
    assert!(is_mine(&b, 4, 4));
}

#[test]
fn safe_block_wins_over_the_draws() {
    // 3 x 3 with one mine leaves no room outside the safe block.
    assert!(matches!(GameBoard::new(3, 3, 1), Err(BoardError::TooManyMines)));
    for d in 0..20usize {
        let mut b = GameBoard::new(4, 4, 7).unwrap();
        b.generate_with(1, 1, &vec![d, d + 1, d + 2, 0, 3, d * 7, 1]);
        assert_eq!(count_mines(&b), 7);
        for x in 0..3usize {
            for y in 0..3usize {
                assert!(!is_mine(&b, x, y));
            }
        }
    }
}

#[test]
fn cascade_stops_at_numbered_tiles() {
    let mut b = GameBoard::new(5, 5, 5).unwrap();
    b.generate_with(0, 0, &vec![6, 6, 6, 6, 6]);
    let mut events = Events::new();
    let before = b.revealed_tiles();
    let r = b.sweep(0, 2, &mut events);
    assert!(r.is_none());
    // Column 0 is an open region of five tiles; column 1 is its numbered boundary.
    assert_eq!(b.revealed_tiles() - before, 10);
    assert_eq!(reveal_events(&mut events), 10);
    for y in 0..5 {
        assert!(b.get_tile(0, y).unwrap().swept);
        assert!(b.get_tile(1, y).unwrap().swept);
        assert!(!b.get_tile(2, y).unwrap().swept);
        assert!(!b.get_tile(3, y).unwrap().swept);
    }
}

#[test]
fn cascade_event_order() {
    let mut b = GameBoard::new(5, 5, 5).unwrap();
    b.generate_with(0, 0, &vec![6, 6, 6, 6, 6]);
    let mut events = Events::new();
    b.sweep(0, 0, &mut events);
    assert_eq!(events.len(), 11);
    let mut all = Vec::new();
    while let Some(e) = events.next() {
        all.push(e);
    }
    all.reverse();
    assert!(matches!(all[0], GameEvent::RevealTile(0, 0, _)));
    assert!(matches!(all[1], GameEvent::SweepBegin));
    // Breadth first from (0, 0): its neighbours in direction order.
    assert!(matches!(all[2], GameEvent::RevealTile(1, 0, _)));
    assert!(matches!(all[3], GameEvent::RevealTile(0, 1, _)));
    assert!(matches!(all[4], GameEvent::RevealTile(1, 1, _)));
    for e in &all[2..] {
        if let GameEvent::RevealTile(_, _, t) = e {
            assert!(t.swept);
        } else {
            panic!("unexpected event");
        }
    }
}

#[test]
fn cascade_skips_marked_tiles() {
    let mut b = GameBoard::new(5, 5, 5).unwrap();
    b.generate_with(0, 0, &vec![6, 6, 6, 6, 6]);
    let mut events = Events::new();
    b.modify(0, 4, &mut events);
    b.sweep(0, 0, &mut events);
    let t = b.get_tile(0, 4).unwrap();
    assert!(!t.swept);
    assert_eq!(t.modifier, Some(TileModifier::Flagged));
    assert_eq!(b.revealed_tiles(), 9);
}

#[test]
fn sweeping_every_safe_tile_wins() {
    let mut b = GameBoard::new(5, 5, 1).unwrap();
    b.generate_with(0, 0, &vec![20]);
    let mut events = Events::new();
    let r = b.sweep(0, 0, &mut events);
    assert!(matches!(r, Some(GameState::Victory)));
    assert_eq!(b.revealed_tiles(), 24);
    assert_eq!(b.non_mine_tiles(), 24);
    assert!(matches!(events.next(), Some(GameEvent::GameEnd(_))));
    assert!(matches!(events.next(), Some(GameEvent::Win)));
    assert_eq!(reveal_events(&mut events), 24);
}

#[test]
fn win_on_small_board() {
    // A 2 x 1 board cannot be made: it has no room for the safe block.
    assert!(GameBoard::new(2, 1, 0).is_err());
    let mut b = GameBoard::new(3, 3, 0).unwrap();
    let mut events = Events::new();
    let r = b.sweep(2, 0, &mut events);
    assert!(matches!(r, Some(GameState::Victory)));
    assert_eq!(b.revealed_tiles(), 9);
    assert_eq!(b.non_mine_tiles(), 9);
    match events.next() {
        Some(GameEvent::GameEnd(snapshot)) => {
            assert_eq!(snapshot.revealed_tiles(), 9);
            assert!(snapshot.get_tile(1, 1).unwrap().swept);
        }
        _ => panic!("expected the game end last"),
    }
    assert!(matches!(events.next(), Some(GameEvent::Win)));
}

#[test]
fn sweeping_a_mine_loses() {
    let mut b = GameBoard::new(5, 5, 5).unwrap();
    b.generate_with(0, 0, &vec![6, 6, 6, 6, 6]);
    let mut events = Events::new();
    let r = b.sweep(2, 3, &mut events);
    assert!(matches!(r, Some(GameState::GameOver)));
    assert_eq!(b.revealed_tiles(), 1);
    assert_eq!(events.len(), 3);
    assert!(matches!(events.next(), Some(GameEvent::GameEnd(_))));
    match events.next() {
        Some(GameEvent::Lose(2, 3, t)) => {
            assert_eq!(t.state, TileState::Mine);
            assert!(!t.swept);
        }
        _ => panic!("expected a loss"),
    }
    assert!(matches!(events.next(), Some(GameEvent::RevealTile(2, 3, _))));
}

#[test]
fn sweep_ignores_bad_and_repeated_input() {
    let mut b = GameBoard::new(4, 4, 2).unwrap();
    let mut events = Events::new();
    assert!(b.sweep(4, 0, &mut events).is_none());
    assert!(b.sweep(0, 9, &mut events).is_none());
    assert_eq!(events.len(), 0);
    assert!(!b.is_generated());
    b.sweep(0, 0, &mut events);
    let revealed = b.revealed_tiles();
    let pending = events.len();
    assert!(b.sweep(0, 0, &mut events).is_none());
    assert_eq!(b.revealed_tiles(), revealed);
    assert_eq!(events.len(), pending);
}

#[test]
fn remaining_flags_counts_down_and_below_zero() {
    let mut b = GameBoard::new(4, 4, 2).unwrap();
    let mut events = Events::new();
    assert_eq!(b.remaining_flags(), 2);
    b.modify(0, 0, &mut events);
    assert_eq!(b.remaining_flags(), 1);
    b.modify(1, 0, &mut events);
    b.modify(2, 0, &mut events);
    assert_eq!(b.remaining_flags(), -1);
    b.modify(3, 0, &mut events);
    assert_eq!(b.remaining_flags(), -2);
    for x in 0..4 {
        b.modify(x, 0, &mut events);
    }
    assert_eq!(b.flags(), 0);
    assert_eq!(b.remaining_flags(), 2);
}

#[test]
fn flag_toggles_off_then_on() {
    let mut b = GameBoard::new(4, 4, 2).unwrap();
    let mut events = Events::new();
    b.modify(1, 1, &mut events);
    assert_eq!(b.get_tile(1, 1).unwrap().modifier, Some(TileModifier::Flagged));
    assert_eq!(b.flags(), 1);
    b.modify(1, 1, &mut events);
    assert_eq!(b.get_tile(1, 1).unwrap().modifier, None);
    assert_eq!(b.flags(), 0);
    b.modify(1, 1, &mut events);
    assert_eq!(b.get_tile(1, 1).unwrap().modifier, Some(TileModifier::Flagged));
    assert_eq!(b.flags(), 1);
    assert_eq!(events.len(), 3);
    while let Some(e) = events.next() {
        assert!(matches!(e, GameEvent::FlagTile(1, 1, _)));
    }
}

#[test]
fn question_mode_cycles_through_unsure() {
    let mut b = GameBoard::new(4, 4, 2).unwrap();
    b.set_modify_mode(ModifyMode::Question);
    let mut events = Events::new();
    b.modify(2, 3, &mut events);
    b.modify(2, 3, &mut events);
    assert_eq!(b.get_tile(2, 3).unwrap().modifier, Some(TileModifier::Unsure));
    assert_eq!(b.flags(), 0);
    match events.next() {
        Some(GameEvent::QuestionTile(2, 3, t)) => {
            assert_eq!(t.modifier, Some(TileModifier::Flagged))
        }
        _ => panic!("expected a question event"),
    }
    b.modify(2, 3, &mut events);
    assert_eq!(b.get_tile(2, 3).unwrap().modifier, None);
    assert_eq!(b.flags(), 0);
    assert!(matches!(events.next(), Some(GameEvent::FlagTile(2, 3, _))));
    assert!(events.next().is_none());
}

#[test]
fn modify_ignores_swept_and_outside_tiles() {
    let mut b = GameBoard::new(3, 3, 0).unwrap();
    let mut events = Events::new();
    b.modify(3, 0, &mut events);
    assert_eq!(events.len(), 0);
    b.sweep(0, 0, &mut events);
    events.clear();
    b.modify(1, 1, &mut events);
    assert_eq!(events.len(), 0);
    assert_eq!(b.flags(), 0);
    assert_eq!(b.get_tile(1, 1).unwrap().modifier, None);
}

#[test]
fn reset_and_update_start_over() {
    let mut b = GameBoard::new(4, 4, 2).unwrap();
    let mut events = Events::new();
    b.set_modify_mode(ModifyMode::Question);
    b.sweep(0, 0, &mut events);
    b.reset();
    assert!(!b.is_generated());
    assert_eq!(b.revealed_tiles(), 0);
    assert_eq!(b.flags(), 0);
    assert_eq!(count_mines(&b), 0);
    assert!(matches!(b.modify_mode(), ModifyMode::Question));
    assert!(matches!(b.update(0, 3, 0), Err(BoardError::ZeroDimension)));
    assert!(matches!(b.update(3, 3, 1), Err(BoardError::TooManyMines)));
    assert_eq!(b.width(), 4);
    assert!(b.update(6, 5, 10).is_ok());
    assert_eq!(b.width(), 6);
    assert_eq!(b.height(), 5);
    assert_eq!(b.mines(), 10);
    assert_eq!(b.non_mine_tiles(), 20);
    assert!(b.get_tile(5, 4).is_some());
}

#[test]
fn tile_handle_changes_in_place() {
    let mut b = GameBoard::new(3, 3, 0).unwrap();
    b.get_tile_mut(1, 2).unwrap().highlight();
    assert!(b.get_tile(1, 2).unwrap().highlighted);
    assert!(b.get_tile_mut(3, 3).is_none());
    let snapshot = b.snapshot();
    assert!(snapshot.get_tile(1, 2).unwrap().highlighted);
}

#[test]
fn chord_reveals_unflagged_neighbours() {
    let mut b = GameBoard::new(5, 5, 5).unwrap();
    b.generate_with(0, 0, &vec![6, 6, 6, 6, 6]);
    let mut events = Events::new();
    b.sweep(0, 0, &mut events);
    // (1, 0) shows 2: its mines are (2, 0) and (2, 1).
    assert!(b.chord_targets(1, 0).is_empty());
    b.modify(2, 0, &mut events);
    assert!(b.chord_targets(1, 0).is_empty());
    b.modify(2, 1, &mut events);
    assert_eq!(b.chord_targets(1, 0), vec![(0, 0), (0, 1), (1, 1)]);
    // Hidden, blank or off-board tiles give nothing.
    assert!(b.chord_targets(3, 3).is_empty());
    assert!(b.chord_targets(0, 0).is_empty());
    assert!(b.chord_targets(7, 0).is_empty());
}

#[test]
fn safe_sweeps_keep_the_count_in_range() {
    for _ in 0..10 {
        let mut b = GameBoard::new(9, 9, 10).unwrap();
        let mut events = Events::new();
        b.sweep(4, 4, &mut events);
        for x in 0..9 {
            for y in 0..9 {
                if !is_mine(&b, x, y) {
                    let r = b.sweep(x, y, &mut events);
                    assert!(!matches!(r, Some(GameState::GameOver)));
                }
                assert!(b.revealed_tiles() <= b.non_mine_tiles());
            }
        }
        assert_eq!(b.revealed_tiles(), b.non_mine_tiles());
        for x in 0..9 {
            for y in 0..9 {
                let t = b.get_tile(x, y).unwrap();
                assert_eq!(t.swept, t.state == TileState::Empty);
            }
        }
    }
}
