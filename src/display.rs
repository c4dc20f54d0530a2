use vstd::prelude::*;
use crate::tile::{Tile, TileModifier, TileState};

verus! {

/// Which sprite shows a tile.
#[derive(Clone, Copy, PartialEq, Eq, Debug, Structural)]
pub enum TileIndex {
    Unknown,
    Revealed,
    Flag,
    Question,
    RevealedQuestion,
    RevealedMine,
    Explosion,
    FalseFlagMine,
    One,
    Two,
    Three,
    Four,
    Five,
    Six,
    Seven,
    Eight,
}

/// The sprite for a revealed empty tile with `n` mines around it.
pub open spec fn count_sprite(n: u8) -> TileIndex {
    if n == 0 {
        TileIndex::Revealed
    } else if n == 1 {
        TileIndex::One
    } else if n == 2 {
        TileIndex::Two
    } else if n == 3 {
        TileIndex::Three
    } else if n == 4 {
        TileIndex::Four
    } else if n == 5 {
        TileIndex::Five
    } else if n == 6 {
        TileIndex::Six
    } else if n == 7 {
        TileIndex::Seven
    } else if n == 8 {
        TileIndex::Eight
    } else {
        TileIndex::RevealedQuestion
    }
}

/// The sprite for tile `t`; `game_over` uncovers the mines and wrong flags.
pub open spec fn tile_sprite(t: Tile, game_over: bool) -> TileIndex {
    let mine = t.state == TileState::Mine;
    let flagged = t.modifier == Some(TileModifier::Flagged);
    if mine && t.swept {
        TileIndex::Explosion
    } else if mine && flagged && game_over {
        TileIndex::Flag
    } else if !mine && flagged && game_over {
        TileIndex::FalseFlagMine
    } else if mine && game_over {
        TileIndex::RevealedMine
    } else if !mine && t.swept {
        count_sprite(t.adjacent)
    } else if flagged {
        TileIndex::Flag
    } else if t.modifier == Some(TileModifier::Unsure) {
        TileIndex::Question
    } else if t.highlighted {
        TileIndex::Revealed
    } else {
        TileIndex::Unknown
    }
}

impl Tile {
    /// The sprite that shows this tile.
    pub fn render(self, game_over: bool) -> (r: TileIndex)
        ensures
            r == tile_sprite(self, game_over),
    {
        let mine = self.state == TileState::Mine;
        let flagged = match self.modifier {
            Some(TileModifier::Flagged) => true,
            _ => false,
        };
        let unsure = match self.modifier {
            Some(TileModifier::Unsure) => true,
            _ => false,
        };
        if mine && self.swept {
            TileIndex::Explosion
        } else if mine && flagged && game_over {
            TileIndex::Flag
        } else if !mine && flagged && game_over {
            TileIndex::FalseFlagMine
        } else if mine && game_over {
            TileIndex::RevealedMine
        } else if !mine && self.swept {
            match self.adjacent {
                0 => TileIndex::Revealed,
                1 => TileIndex::One,
                2 => TileIndex::Two,
                3 => TileIndex::Three,
                4 => TileIndex::Four,
                5 => TileIndex::Five,
                6 => TileIndex::Six,
                7 => TileIndex::Seven,
                8 => TileIndex::Eight,
                _ => TileIndex::RevealedQuestion,
            }
        } else if flagged {
            TileIndex::Flag
        } else if unsure {
            TileIndex::Question
        } else if self.highlighted {
            TileIndex::Revealed
        } else {
            TileIndex::Unknown
        }
    }
}

/// Decimal digits of `n`, most significant first, without leading zeros.
pub open spec fn decimal_digits(n: nat) -> Seq<usize>
    decreases n,
{
    if n < 10 {
        seq![n as usize]
    } else {
        decimal_digits(n / 10).push((n % 10) as usize)
    }
}

/// `s` with zeros in front up to length `width`.
pub open spec fn zero_padded(s: Seq<usize>, width: nat) -> Seq<usize> {
    if s.len() >= width {
        s
    } else {
        Seq::new((width - s.len()) as nat, |i: int| 0usize) + s
    }
}

/// The decimal digits of `n`, zero-padded to at least `width` digits.
pub fn padded_digits(n: u64, width: usize) -> (r: Vec<usize>)
    ensures
        r@ == zero_padded(decimal_digits(n as nat), width as nat),
{
    let mut v: Vec<usize> = Vec::new();
    let mut m: u64 = n;
    while m >= 10
        invariant
            decimal_digits(n as nat) == decimal_digits(m as nat) + v@,
        decreases m,
    {
        let ghost before = v@;
        v.insert(0, (m % 10) as usize);
        assert(decimal_digits(m as nat) == decimal_digits((m / 10) as nat).push((m % 10) as usize));
        assert(decimal_digits(m as nat) + before =~= decimal_digits((m / 10) as nat) + v@);
        m = m / 10;
    }
    let ghost before = v@;
    v.insert(0, m as usize);
    assert(decimal_digits(n as nat) =~= v@);
    let ghost ds = v@;
    let mut k: usize = 0;
    while v.len() < width
        invariant
            v@ == Seq::new(k as nat, |i: int| 0usize) + ds,
            ds.len() < width ==> k + ds.len() <= width,
            ds.len() >= width ==> k == 0,
        decreases width - v@.len(),
    {
        let ghost before = v@;
        v.insert(0, 0);
        k = k + 1;
        assert(v@ =~= Seq::new(k as nat, |i: int| 0usize) + ds);
    }
    assert(v@ =~= zero_padded(ds, width as nat));
    v
}

/// The digits of a counter display: a sign sprite (10 for minus, 0 otherwise)
/// followed by the magnitude in at least two digits.
pub open spec fn counter_digits(count: isize) -> Seq<usize> {
    let sign: usize = if count < 0 { 10 } else { 0 };
    let magnitude: int = if count < 0 { -count } else { count as int };
    seq![sign] + zero_padded(decimal_digits(magnitude as nat), 2)
}

/// The flags-left display: the digits it shows and the count they stand for.
pub struct GUIFlagCounter {
    old_count: isize,
    digits: Vec<usize>,
}

impl GUIFlagCounter {
    /// Shows zero, as four zero digits.
    pub fn new() -> (r: GUIFlagCounter)
        ensures
            r.count() == 0,
            r.shown() == seq![0usize, 0, 0, 0],
    {
        GUIFlagCounter { old_count: 0, digits: vec![0, 0, 0, 0] }
    }

    pub closed spec fn count(&self) -> isize {
        self.old_count
    }

    pub closed spec fn shown(&self) -> Seq<usize> {
        self.digits@
    }

    /// Shows `remaining`; the digits are worked out again only when it changed.
    pub fn update(&mut self, remaining: isize)
        ensures
            final(self).count() == remaining,
            remaining != old(self).count() ==> final(self).shown() == counter_digits(remaining),
            remaining == old(self).count() ==> final(self).shown() == old(self).shown(),
    {
        if self.old_count != remaining {
            let magnitude: u64 = if remaining < 0 {
                ((-(remaining + 1)) as u64) + 1
            } else {
                remaining as u64
            };
            let sign: usize = if remaining < 0 { 10 } else { 0 };
            let mut digits: Vec<usize> = Vec::new();
            digits.push(sign);
            let mut rest = padded_digits(magnitude, 2);
            digits.append(&mut rest);
            self.digits = digits;
            self.old_count = remaining;
        }
    }

    pub fn digits(&self) -> (r: &Vec<usize>)
        ensures
            r@ == self.shown(),
    {
        &self.digits
    }
}

/// A press on one of a settings counter's buttons, or none (`Hold`).
#[derive(Clone, Copy, PartialEq, Eq, Debug, Structural)]
pub enum CounterStep {
    Hold,
    Up,
    Down,
    UpTen,
    DownTen,
}

/// The counter value after `step`, before it is held to its range.
pub open spec fn stepped(count: int, step: CounterStep, min: int) -> int {
    match step {
        CounterStep::Hold => count,
        CounterStep::Up => count + 1,
        CounterStep::Down => if count > min {
            count - 1
        } else {
            count
        },
        CounterStep::UpTen => count + 10,
        CounterStep::DownTen => if count - 10 > min {
            count - 10
        } else {
            min
        },
    }
}

/// `v` held to at most `max`, then to at least `min`.
pub open spec fn held(v: int, min: int, max: int) -> int {
    let a = if v > max { max } else { v };
    if a < min { min } else { a }
}

/// A settings counter after a button press (or none), kept within `min..=max`.
pub fn step_counter(count: usize, step: CounterStep, min: usize, max: usize) -> (r: usize)
    ensures
        r == held(stepped(count as int, step, min as int), min as int, max as int),
{
    let c = count as u128;
    let v: u128 = match step {
        CounterStep::Hold => c,
        CounterStep::Up => c + 1,
        CounterStep::Down => if c > min as u128 {
            c - 1
        } else {
            c
        },
        CounterStep::UpTen => c + 10,
        CounterStep::DownTen => if c >= 10 && c - 10 > min as u128 {
            c - 10
        } else {
            min as u128
        },
    };
    let a: u128 = if v > max as u128 { max as u128 } else { v };
    if a < min as u128 { min } else { a as usize }
}

/// Column offset of the `d`-th cell (0..9) of a 3 x 3 block, row by row.
pub open spec fn block_dx(d: int) -> int {
    d % 3 - 1
}

/// Row offset of the `d`-th cell (0..9) of a 3 x 3 block, row by row.
pub open spec fn block_dy(d: int) -> int {
    d / 3 - 1
}

/// (x, y) lies in the 3 x 3 block around `c`.
pub open spec fn in_block(c: (usize, usize), x: int, y: int) -> bool {
    -1 <= x - c.0 <= 1 && -1 <= y - c.1 <= 1
}

/// The cells among the first `n` of the block around `c` that lie on a
/// `width` x `height` board and outside the block around `away`, if any.
pub open spec fn block_cells_upto(
    c: (usize, usize),
    width: usize,
    height: usize,
    away: Option<(usize, usize)>,
    n: int,
) -> Seq<(usize, usize)>
    decreases n,
{
    if n <= 0 {
        seq![]
    } else {
        let prev = block_cells_upto(c, width, height, away, n - 1);
        let x = c.0 + block_dx(n - 1);
        let y = c.1 + block_dy(n - 1);
        let kept = 0 <= x < width && 0 <= y < height && match away {
            Some(o) => !in_block(o, x, y),
            None => true,
        };
        if kept {
            prev.push((x as usize, y as usize))
        } else {
            prev
        }
    }
}

/// The on-board cells of the 3 x 3 block around `c`, row by row, leaving out those
/// in the block around `away`.
pub fn block_cells(c: (usize, usize), width: usize, height: usize, away: Option<(usize, usize)>) -> (r:
    Vec<(usize, usize)>)
    ensures
        r@ == block_cells_upto(c, width, height, away, 9),
{
    let mut cells: Vec<(usize, usize)> = Vec::new();
    let mut d: usize = 0;
    while d < 9
        invariant
            d <= 9,
            cells@ == block_cells_upto(c, width, height, away, d as int),
        decreases 9 - d,
    {
        let ox = d % 3;
        let oy = d / 3;
        if c.0 as u128 + ox as u128 >= 1 && c.1 as u128 + oy as u128 >= 1 {
            let x = (c.0 as u128 + ox as u128 - 1) as u128;
            let y = (c.1 as u128 + oy as u128 - 1) as u128;
            if x < width as u128 && y < height as u128 {
                let outside = match away {
                    Some(o) => !(x + 1 >= o.0 as u128 && x <= o.0 as u128 + 1 && y + 1 >= o.1 as u128
                        && y <= o.1 as u128 + 1),
                    None => true,
                };
                if outside {
                    cells.push((x as usize, y as usize));
                }
            }
        }
        d = d + 1;
    }
    cells
}

} // verus!
