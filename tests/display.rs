use minesweeper::display::{block_cells, padded_digits, step_counter, CounterStep, GUIFlagCounter, TileIndex};
use minesweeper::tile::{Tile, TileModifier, TileState};

#[test]
fn tile_sprites() {
    let hidden = Tile::new();
    assert_eq!(hidden.render(false), TileIndex::Unknown);
    assert_eq!(Tile { highlighted: true, ..hidden }.render(false), TileIndex::Revealed);
    let flagged = Tile { modifier: Some(TileModifier::Flagged), ..hidden };
    assert_eq!(flagged.render(false), TileIndex::Flag);
    assert_eq!(flagged.render(true), TileIndex::FalseFlagMine);
    let unsure = Tile { modifier: Some(TileModifier::Unsure), ..hidden };
    assert_eq!(unsure.render(false), TileIndex::Question);
    let mine = Tile { state: TileState::Mine, ..hidden };
    assert_eq!(mine.render(false), TileIndex::Unknown);
    assert_eq!(mine.render(true), TileIndex::RevealedMine);
    assert_eq!(Tile { swept: true, ..mine }.render(false), TileIndex::Explosion);
    assert_eq!(Tile { modifier: Some(TileModifier::Flagged), ..mine }.render(true), TileIndex::Flag);
    let open = Tile { swept: true, ..hidden };
    assert_eq!(open.render(false), TileIndex::Revealed);
    assert_eq!(Tile { adjacent: 3, ..open }.render(false), TileIndex::Three);
    assert_eq!(Tile { adjacent: 8, ..open }.render(true), TileIndex::Eight);
    assert_eq!(Tile { adjacent: 9, ..open }.render(false), TileIndex::RevealedQuestion);
    assert_eq!(TileIndex::One as usize, 8);
}

#[test]
fn padded_digit_strings() {
    assert_eq!(padded_digits(0, 3), vec![0, 0, 0]);
    assert_eq!(padded_digits(7, 3), vec![0, 0, 7]);
    assert_eq!(padded_digits(42, 2), vec![4, 2]);
    assert_eq!(padded_digits(1234, 2), vec![1, 2, 3, 4]);
    assert_eq!(padded_digits(u64::MAX, 0).len(), 20);
}

#[test]
fn flag_counter_digits() {
    let mut c = GUIFlagCounter::new();
    assert_eq!(*c.digits(), vec![0, 0, 0, 0]);
    c.update(0);
    assert_eq!(*c.digits(), vec![0, 0, 0, 0]);
    c.update(99);
    assert_eq!(*c.digits(), vec![0, 9, 9]);
    c.update(-5);
    assert_eq!(*c.digits(), vec![10, 0, 5]);
    c.update(123);
    assert_eq!(*c.digits(), vec![0, 1, 2, 3]);
    c.update(isize::MIN);
    assert_eq!(c.digits()[0], 10);
    assert_eq!(c.digits().len(), 20);
}

#[test]
fn settings_counter_steps() {
    assert_eq!(step_counter(30, CounterStep::Up, 5, 100), 31);
    assert_eq!(step_counter(100, CounterStep::Up, 5, 100), 100);
    assert_eq!(step_counter(5, CounterStep::Down, 5, 100), 5);
    assert_eq!(step_counter(6, CounterStep::Down, 5, 100), 5);
    assert_eq!(step_counter(95, CounterStep::UpTen, 5, 100), 100);
    assert_eq!(step_counter(30, CounterStep::UpTen, 5, 100), 40);
    assert_eq!(step_counter(30, CounterStep::DownTen, 5, 100), 20);
    assert_eq!(step_counter(14, CounterStep::DownTen, 5, 100), 5);
    assert_eq!(step_counter(3, CounterStep::DownTen, 1, 100), 1);
    assert_eq!(step_counter(200, CounterStep::Down, 1, 50), 50);
    assert_eq!(step_counter(200, CounterStep::Hold, 1, 50), 50);
    assert_eq!(step_counter(0, CounterStep::Hold, 1, 50), 1);
    assert_eq!(step_counter(20, CounterStep::Hold, 1, 50), 20);
    assert_eq!(step_counter(usize::MAX, CounterStep::UpTen, 0, usize::MAX), usize::MAX);
}

#[test]
fn block_cells_clip_and_exclude() {
    assert_eq!(block_cells((0, 0), 4, 4, None), vec![(0, 0), (1, 0), (0, 1), (1, 1)]);
    assert_eq!(block_cells((2, 2), 5, 5, None).len(), 9);
    assert_eq!(block_cells((2, 2), 5, 5, None)[0], (1, 1));
    assert_eq!(block_cells((2, 2), 5, 5, Some((3, 2))), vec![(1, 1), (1, 2), (1, 3)]);
    assert_eq!(block_cells((2, 2), 5, 5, Some((2, 2))), vec![]);
    assert_eq!(block_cells((4, 4), 5, 5, Some((0, 0))), vec![(3, 3), (4, 3), (3, 4), (4, 4)]);
}
