use vstd::prelude::*;
use crate::board_model::{
    dx, dy, lemma_dims_fit, lemma_direction, lemma_fresh_wf, lemma_index, lemma_index_injective,
    lemma_neighbor_mines_bound, lemma_neighbor_mines_same, lemma_position, lemma_push_contains,
    lemma_rank_unique, lemma_same_layout, lemma_support, mines_laid, near, safe_marked, same_mines,
    size_error, step, touching, valid_size, BoardModel,
};
use crate::counting::{
    count, flagged, free, lemma_count_agree, lemma_count_bound, lemma_count_complement,
    lemma_count_none, lemma_count_take, lemma_count_update, marked_safe, mined, swept,
};
use crate::events::Events;
use crate::game::{GameEvent, GameState};
use crate::tile::{Tile, TileModifier, TileState};

verus! {

/// Whether the mine field has been laid out yet.
#[derive(Clone, Copy, PartialEq, Eq, Debug, Structural)]
pub enum BoardState {
    Ungenerated,
    Generated,
}

/// What the modify action does to a flagged tile.
#[derive(Clone, Copy, PartialEq, Eq, Debug, Structural)]
pub enum ModifyMode {
    Flag,
    Question,
}

impl Default for ModifyMode {
    fn default() -> (r: ModifyMode)
        ensures
            r == ModifyMode::Flag,
    {
        ModifyMode::Flag
    }
}

/// Why a board of the asked size cannot be made.
#[derive(Clone, Copy, PartialEq, Eq, Debug, Structural)]
pub enum BoardError {
    /// Width or height is zero.
    ZeroDimension,
    /// Fewer than nine tiles would stay free of mines.
    TooManyMines,
}

/// The grid of tiles, the mine target and the running counters.
pub struct GameBoard {
    tiles: Vec<Tile>,
    width: usize,
    height: usize,
    state: BoardState,
    non_mine_tiles: usize,
    revealed_tiles: usize,
    flags: usize,
    mines: usize,
    modify_mode: ModifyMode,
}

impl View for GameBoard {
    type V = BoardModel;

    closed spec fn view(&self) -> BoardModel {
        BoardModel {
            tiles: self.tiles@,
            width: self.width as nat,
            height: self.height as nat,
            generated: self.state == BoardState::Generated,
            non_mine_tiles: self.non_mine_tiles as nat,
            revealed_tiles: self.revealed_tiles as nat,
            flags: self.flags as nat,
            mines: self.mines as nat,
            modify_mode: self.modify_mode,
        }
    }
}

/// Relies on macroquad::rand::gen_range (quad-rand) for `usize`: it scales a 32-bit
/// draw `r` to `floor(n * r / 2^32)`, which is below `n` whenever `n <= 2^21`.
#[verifier::external_body]
fn random_below(n: usize) -> (r: usize)
    requires
        n > 0,
    ensures
        n <= 0x20_0000 ==> r < n,
{
    macroquad::rand::gen_range(0, n)
}

fn fresh_tiles(n: usize) -> (v: Vec<Tile>)
    ensures
        v@ == Seq::new(n as nat, |k: int| Tile::fresh()),
{
    let mut v: Vec<Tile> = Vec::new();
    let mut i: usize = 0;
    while i < n
        invariant
            i <= n,
            v@ == Seq::new(i as nat, |k: int| Tile::fresh()),
        decreases n - i,
    {
        v.push(Tile::new());
        i = i + 1;
        assert(v@ =~= Seq::new(i as nat, |k: int| Tile::fresh()));
    }
    v
}

impl GameBoard {
    /// A board of `width` x `height` tiles that will hold `mines` mines.
    pub fn new(width: usize, height: usize, mines: usize) -> (r: Result<GameBoard, BoardError>)
        requires
            width * height <= isize::MAX,
        ensures
            r.is_ok() == valid_size(width as nat, height as nat, mines as nat),
            r.is_ok() ==> r.unwrap()@ == BoardModel::fresh(
                width as nat,
                height as nat,
                mines as nat,
                ModifyMode::Flag,
            ),
            r.is_ok() ==> r.unwrap()@.wf(),
            r.is_err() ==> r == Err::<GameBoard, BoardError>(size_error(width as nat, height as nat)),
    {
        if width == 0 || height == 0 {
            return Err(BoardError::ZeroDimension);
        }
        let area = width * height;
        if area < 9 || area - 9 < mines {
            return Err(BoardError::TooManyMines);
        }
        let board = GameBoard {
            tiles: fresh_tiles(area),
            width,
            height,
            state: BoardState::Ungenerated,
            non_mine_tiles: area - mines,
            revealed_tiles: 0,
            flags: 0,
            mines,
            modify_mode: ModifyMode::Flag,
        };
        proof {
            lemma_fresh_wf(width as nat, height as nat, mines as nat, ModifyMode::Flag);
        }
        Ok(board)
    }

    pub fn width(&self) -> (r: usize)
        ensures
            r == self@.width,
    {
        self.width
    }

    pub fn height(&self) -> (r: usize)
        ensures
            r == self@.height,
    {
        self.height
    }

    pub fn mines(&self) -> (r: usize)
        ensures
            r == self@.mines,
    {
        self.mines
    }

    pub fn flags(&self) -> (r: usize)
        ensures
            r == self@.flags,
    {
        self.flags
    }

    /// Running count of revealed tiles.
    pub fn revealed_tiles(&self) -> (r: usize)
        ensures
            r == self@.revealed_tiles,
    {
        self.revealed_tiles
    }

    pub fn non_mine_tiles(&self) -> (r: usize)
        ensures
            r == self@.non_mine_tiles,
    {
        self.non_mine_tiles
    }

    pub fn is_generated(&self) -> (r: bool)
        ensures
            r == self@.generated,
    {
        self.state == BoardState::Generated
    }

    pub fn modify_mode(&self) -> (r: ModifyMode)
        ensures
            r == self@.modify_mode,
    {
        self.modify_mode
    }

    pub fn set_modify_mode(&mut self, mode: ModifyMode)
        ensures
            final(self)@ == (BoardModel { modify_mode: mode, ..old(self)@ }),
    {
        self.modify_mode = mode;
    }

    pub fn is_valid_coord(&self, x: usize, y: usize) -> (r: bool)
        ensures
            r == self@.in_bounds(x as int, y as int),
    {
        x < self.width && y < self.height
    }

    /// The tile at (x, y), if that lies on the board.
    pub fn get_tile(&self, x: usize, y: usize) -> (r: Option<&Tile>)
        requires
            self@.wf(),
        ensures
            r.is_some() == self@.in_bounds(x as int, y as int),
            r.is_some() ==> *r.unwrap() == self@.tile(x as int, y as int),
    {
        if self.is_valid_coord(x, y) {
            proof {
                lemma_index(self.width as int, self.height as int, x as int, y as int);
            }
            Some(&self.tiles[x * self.height + y])
        } else {
            None
        }
    }

    /// The tile at (x, y) to change in place, if that lies on the board.
    pub fn get_tile_mut(&mut self, x: usize, y: usize) -> (r: Option<&mut Tile>)
        requires
            old(self)@.wf(),
        ensures
            r.is_some() == old(self)@.in_bounds(x as int, y as int),
            r.is_some() ==> *r.unwrap() == old(self)@.tile(x as int, y as int) && final(self)@
                == old(self)@.with_tile(x as int, y as int, *final(r.unwrap())),
            r.is_none() ==> final(self)@ == old(self)@,
    {
        if self.is_valid_coord(x, y) {
            proof {
                lemma_index(self.width as int, self.height as int, x as int, y as int);
            }
            let k = x * self.height + y;
            Some(&mut self.tiles[k])
        } else {
            None
        }
    }

    /// Clears every tile and counter; the size, mine target and mode stay.
    pub fn reset(&mut self)
        requires
            old(self)@.wf(),
        ensures
            final(self)@ == BoardModel::fresh(
                old(self)@.width,
                old(self)@.height,
                old(self)@.mines,
                old(self)@.modify_mode,
            ),
            final(self)@.wf(),
    {
        self.state = BoardState::Ungenerated;
        self.revealed_tiles = 0;
        self.flags = 0;
        self.tiles = fresh_tiles(self.width * self.height);
        proof {
            lemma_fresh_wf(self.width as nat, self.height as nat, self.mines as nat, self.modify_mode);
        }
    }

    /// Changes the size and mine target; the board starts over at the new size.
    pub fn update(&mut self, width: usize, height: usize, mines: usize) -> (r: Result<(), BoardError>)
        requires
            old(self)@.wf(),
            width * height <= isize::MAX,
        ensures
            r.is_ok() == valid_size(width as nat, height as nat, mines as nat),
            r.is_ok() ==> final(self)@ == BoardModel::fresh(
                width as nat,
                height as nat,
                mines as nat,
                old(self)@.modify_mode,
            ),
            r.is_err() ==> r == Err::<(), BoardError>(size_error(width as nat, height as nat))
                && final(self)@ == old(self)@,
            final(self)@.wf(),
    {
        if width == 0 || height == 0 {
            return Err(BoardError::ZeroDimension);
        }
        let area = width * height;
        if area < 9 || area - 9 < mines {
            return Err(BoardError::TooManyMines);
        }
        self.mines = mines;
        self.height = height;
        self.width = width;
        self.non_mine_tiles = area - mines;
        self.state = BoardState::Ungenerated;
        self.revealed_tiles = 0;
        self.flags = 0;
        self.tiles = fresh_tiles(area);
        proof {
            lemma_fresh_wf(width as nat, height as nat, mines as nat, self.modify_mode);
        }
        Ok(())
    }

    /// Mines left to flag: negative when the player has over-flagged.
    pub fn remaining_flags(&self) -> (r: isize)
        requires
            self@.wf(),
        ensures
            r == self@.remaining_flags(),
    {
        proof {
            lemma_count_bound(self.tiles@, flagged());
        }
        self.mines as isize - self.flags as isize
    }

    /// The in-bounds neighbour of (x, y) in direction `d`, if any.
    fn neighbor(&self, x: usize, y: usize, d: usize) -> (r: Option<(usize, usize)>)
        requires
            self@.width * self@.height <= isize::MAX,
            self@.in_bounds(x as int, y as int),
            d < 8,
        ensures
            r.is_some() == self@.in_bounds(x + dx(d as int), y + dy(d as int)),
            r.is_some() ==> r.unwrap().0 == x + dx(d as int) && r.unwrap().1 == y + dy(d as int),
    {
        let ox: usize = if d == 0 || d == 3 || d == 5 {
            0
        } else if d == 1 || d == 6 {
            1
        } else {
            2
        };
        let oy: usize = if d <= 2 {
            0
        } else if d <= 4 {
            1
        } else {
            2
        };
        proof {
            assert(self.width <= isize::MAX) by (nonlinear_arith)
                requires
                    self.width * self.height <= isize::MAX,
                    self.height > 0,
            ;
            assert(self.height <= isize::MAX) by (nonlinear_arith)
                requires
                    self.width * self.height <= isize::MAX,
                    self.width > 0,
            ;
        }
        if x + ox >= 1 && x + ox - 1 < self.width && y + oy >= 1 && y + oy - 1 < self.height {
            Some((x + ox - 1, y + oy - 1))
        } else {
            None
        }
    }

    /// Marks the block around (ax, ay) safe; returns how many tiles it covers.
    fn mark_safe_zone(&mut self, ax: usize, ay: usize) -> (n: usize)
        requires
            old(self)@.wf(),
            !old(self)@.generated,
            old(self)@.in_bounds(ax as int, ay as int),
        ensures
            final(self)@.placing(old(self)@, ax as int, ay as int),
            count(final(self)@.tiles, marked_safe()) == n,
            n <= 9,
            forall|k: int|
                0 <= k < final(self)@.tiles.len() ==> (#[trigger] final(self)@.tiles[k]).state
                    == TileState::Empty,
    {
        let ghost b0 = self@;
        let h = self.height;
        proof {
            lemma_count_none(self.tiles@, marked_safe());
            lemma_dims_fit(b0);
        }
        let mut n: usize = 0;
        let mut i: usize = 0;
        while i < 3
            invariant
                0 <= i <= 3,
                n <= 3 * i,
                b0.wf(),
                b0.width <= isize::MAX,
                b0.height <= isize::MAX,
                !b0.generated,
                h == b0.height,
                b0.in_bounds(ax as int, ay as int),
                self@.width == b0.width,
                self@.height == b0.height,
                self@.tiles.len() == b0.tiles.len(),
                self@ == (BoardModel { tiles: self@.tiles, ..b0 }),
                count(self@.tiles, marked_safe()) == n,
                forall|k: int|
                    #![trigger self@.tiles[k]]
                    0 <= k < self@.tiles.len() ==> {
                        &&& self@.tiles[k].safe == (self@.near_index(ax as int, ay as int, k)
                            && k / (h as int) - ax + 1 < i)
                        &&& self@.tiles[k] == (Tile { safe: self@.tiles[k].safe, ..b0.tiles[k] })
                    },
            decreases 3 - i,
        {
            let mut j: usize = 0;
            while j < 3
                invariant
                    0 <= i < 3,
                    0 <= j <= 3,
                    n <= 3 * i + j,
                    b0.wf(),
                    b0.width <= isize::MAX,
                    b0.height <= isize::MAX,
                    !b0.generated,
                    h == b0.height,
                    b0.in_bounds(ax as int, ay as int),
                    self@.width == b0.width,
                    self@.height == b0.height,
                    self@.tiles.len() == b0.tiles.len(),
                    self@ == (BoardModel { tiles: self@.tiles, ..b0 }),
                    count(self@.tiles, marked_safe()) == n,
                    forall|k: int|
                        #![trigger self@.tiles[k]]
                        0 <= k < self@.tiles.len() ==> {
                            &&& self@.tiles[k].safe == (self@.near_index(ax as int, ay as int, k)
                                && (k / (h as int) - ax + 1 < i || (k / (h as int) - ax + 1 == i
                                && k % (h as int) - ay + 1 < j)))
                            &&& self@.tiles[k] == (Tile {
                                safe: self@.tiles[k].safe,
                                ..b0.tiles[k]
                            })
                        },
                decreases 3 - j,
            {
                if ax + i >= 1 && ax + i - 1 < self.width && ay + j >= 1 && ay + j - 1 < self.height {
                    let x = ax + i - 1;
                    let y = ay + j - 1;
                    proof {
                        lemma_index(b0.width as int, h as int, x as int, y as int);
                    }
                    let k = x * h + y;
                    let ghost before = self@.tiles;
                    let t = self.tiles[k];
                    let marked = Tile { safe: true, ..t };
                    proof {
                        lemma_count_update(before, marked_safe(), k as int, marked);
                    }
                    self.tiles.set(k, marked);
                    n = n + 1;
                    proof {
                        assert forall|m: int| 0 <= m < self@.tiles.len() && m != k implies
                            #[trigger] (m / (h as int)) != x || m % (h as int) != y by {
                            lemma_position(b0.width as int, h as int, m);
                        }
                    }
                } else {
                    proof {
                        assert forall|m: int| 0 <= m < self@.tiles.len() implies #[trigger] (m / (
                        h as int)) - ax + 1 != i || m % (h as int) - ay + 1 != j by {
                            lemma_position(b0.width as int, h as int, m);
                        }
                    }
                }
                j = j + 1;
            }
            i = i + 1;
        }
        proof {
            assert forall|k: int| 0 <= k < self@.tiles.len() implies (#[trigger] self@.tiles[k]).state
                == TileState::Empty && (self@.tiles[k].safe == self@.near_index(ax as int, ay as int, k)) by {
                lemma_position(b0.width as int, h as int, k);
            }
        }
        n
    }

    /// Lays a mine on the free tile (not safe, no mine) whose rank among free tiles,
    /// in sequence order, is `draw % free_count`; returns its position.
    fn place_mine(&mut self, draw: usize, free_count: usize) -> (k: usize)
        requires
            free_count == count(old(self)@.tiles, free()),
            free_count > 0,
        ensures
            k < old(self)@.tiles.len(),
            free()(old(self)@.tiles[k as int]),
            count(old(self)@.tiles.take(k as int), free()) == draw % free_count,
            final(self)@ == (BoardModel {
                tiles: old(self)@.tiles.update(
                    k as int,
                    Tile { state: TileState::Mine, ..old(self)@.tiles[k as int] },
                ),
                ..old(self)@
            }),
    {
        let target = draw % free_count;
        let ghost s = self@.tiles;
        let mut seen: usize = 0;
        let mut k: usize = 0;
        while k < self.tiles.len()
            invariant
                s == self@.tiles,
                self@ == old(self)@,
                k <= s.len(),
                seen == count(s.take(k as int), free()),
                seen <= target,
                target == draw % free_count,
                target < free_count,
                free_count == count(s, free()),
            decreases s.len() - k,
        {
            let t = self.tiles[k];
            proof {
                lemma_count_take(s, free(), k as int);
            }
            if !t.safe && t.state == TileState::Empty {
                if seen == target {
                    self.tiles.set(k, Tile { state: TileState::Mine, ..t });
                    return k;
                }
                seen = seen + 1;
            }
            k = k + 1;
        }
        proof {
            assert(s.take(s.len() as int) =~= s);
        }
        0
    }

    /// Counts, on every empty tile, the mines around it, and marks the board generated.
    fn count_adjacent(&mut self)
        requires
            old(self)@.width * old(self)@.height <= isize::MAX,
            old(self)@.tiles.len() == old(self)@.width * old(self)@.height,
            old(self)@.height > 0,
            forall|k: int|
                0 <= k < old(self)@.tiles.len() ==> (#[trigger] old(self)@.tiles[k]).adjacent == 0,
        ensures
            final(self)@.generated,
            final(self)@.adjacency_ok(),
            final(self)@.tiles.len() == old(self)@.tiles.len(),
            forall|k: int|
                0 <= k < old(self)@.tiles.len() ==> (#[trigger] final(self)@.tiles[k]) == (Tile {
                    adjacent: final(self)@.tiles[k].adjacent,
                    ..old(self)@.tiles[k]
                }),
            final(self)@ == (BoardModel {
                tiles: final(self)@.tiles,
                generated: true,
                ..old(self)@
            }),
    {
        let ghost b1 = self@;
        let h = self.height;
        let len = self.tiles.len();
        let mut k: usize = 0;
        while k < len
            invariant
                b1.width * b1.height <= isize::MAX,
                b1.tiles.len() == b1.width * b1.height,
                h == b1.height,
                h > 0,
                len == b1.tiles.len(),
                k <= len,
                self@ == (BoardModel { tiles: self@.tiles, ..b1 }),
                self@.tiles.len() == len,
                forall|j: int|
                    #![trigger self@.tiles[j]]
                    0 <= j < len ==> self@.tiles[j] == (Tile {
                        adjacent: self@.tiles[j].adjacent,
                        ..b1.tiles[j]
                    }),
                forall|j: int|
                    #![trigger self@.tiles[j]]
                    0 <= j < k ==> self@.tiles[j].adjacent == (if b1.tiles[j].state
                        == TileState::Empty {
                        b1.neighbor_mines(j / (h as int), j % (h as int), 8)
                    } else {
                        0
                    }),
                forall|j: int| #![trigger self@.tiles[j]] k <= j < len ==> self@.tiles[j].adjacent == 0,
            decreases len - k,
        {
            let x = k / h;
            let y = k % h;
            proof {
                lemma_position(b1.width as int, h as int, k as int);
            }
            if self.tiles[k].state == TileState::Empty {
                let mut d: usize = 0;
                while d < 8
                    invariant
                        b1.width * b1.height <= isize::MAX,
                        b1.tiles.len() == b1.width * b1.height,
                        h == b1.height,
                        h > 0,
                        len == b1.tiles.len(),
                        k < len,
                        x == k / h,
                        y == k % h,
                        b1.in_bounds(x as int, y as int),
                        d <= 8,
                        self@ == (BoardModel { tiles: self@.tiles, ..b1 }),
                        self@.tiles.len() == len,
                        b1.tiles[k as int].state == TileState::Empty,
                        forall|j: int|
                            #![trigger self@.tiles[j]]
                            0 <= j < len ==> self@.tiles[j] == (Tile {
                                adjacent: self@.tiles[j].adjacent,
                                ..b1.tiles[j]
                            }),
                        forall|j: int|
                            #![trigger self@.tiles[j]]
                            0 <= j < k ==> self@.tiles[j].adjacent == (if b1.tiles[j].state
                                == TileState::Empty {
                                b1.neighbor_mines(j / (h as int), j % (h as int), 8)
                            } else {
                                0
                            }),
                        forall|j: int|
                            #![trigger self@.tiles[j]]
                            k < j < len ==> self@.tiles[j].adjacent == 0,
                        self@.tiles[k as int].adjacent == b1.neighbor_mines(x as int, y as int, d as int),
                    decreases 8 - d,
                {
                    proof {
                        assert(b1.neighbor_mines(x as int, y as int, d as int) <= d) by {
                            lemma_neighbor_mines_bound(b1, x as int, y as int, d as int);
                        }
                    }
                    if let Some((nx, ny)) = self.neighbor(x, y, d) {
                        proof {
                            lemma_index(b1.width as int, h as int, nx as int, ny as int);
                        }
                        if self.tiles[nx * h + ny].state == TileState::Mine {
                            let mut t = self.tiles[k];
                            t.increment_adjacent();
                            self.tiles.set(k, t);
                        }
                    }
                    d = d + 1;
                }
            }
            k = k + 1;
        }
        self.state = BoardState::Generated;
        proof {
            let b = self@;
            assert forall|x: int, y: int| #[trigger] b.in_bounds(x, y) implies (if b.tile(x, y).state
                == TileState::Empty {
                b.tile(x, y).adjacent == b.neighbor_mines(x, y, 8)
            } else {
                b.tile(x, y).adjacent == 0
            }) by {
                lemma_index(b1.width as int, h as int, x, y);
                lemma_neighbor_mines_same(b, b1, x, y, 8);
                let _ = self@.tiles[b.index(x, y)];
            }
        }
    }

    /// Lays out the mine field around the first click (ax, ay), drawing each
    /// mine's position at random.
    pub fn generate(&mut self, avoid_x: usize, avoid_y: usize)
        requires
            old(self)@.wf(),
            !old(self)@.generated,
            old(self)@.in_bounds(avoid_x as int, avoid_y as int),
        ensures
            final(self)@.laid_out(old(self)@, avoid_x as int, avoid_y as int),
    {
        self.lay_mines(avoid_x, avoid_y, None);
    }

    /// Lays out the mine field around the first click (ax, ay); the i-th mine goes
    /// to the free tile of rank `draws[i]` modulo the number of free tiles left.
    pub fn generate_with(&mut self, avoid_x: usize, avoid_y: usize, draws: &Vec<usize>)
        requires
            old(self)@.wf(),
            !old(self)@.generated,
            old(self)@.in_bounds(avoid_x as int, avoid_y as int),
            draws@.len() == old(self)@.mines,
        ensures
            final(self)@.laid_out(old(self)@, avoid_x as int, avoid_y as int),
            same_mines(
                final(self)@.tiles,
                mines_laid(
                    safe_marked(old(self)@, avoid_x as int, avoid_y as int),
                    draws@,
                    old(self)@.mines,
                ),
            ),
    {
        self.lay_mines(avoid_x, avoid_y, Some(draws));
    }

    fn lay_mines(&mut self, ax: usize, ay: usize, draws: Option<&Vec<usize>>)
        requires
            old(self)@.wf(),
            !old(self)@.generated,
            old(self)@.in_bounds(ax as int, ay as int),
            draws.is_some() ==> draws.unwrap()@.len() == old(self)@.mines,
        ensures
            final(self)@.laid_out(old(self)@, ax as int, ay as int),
            draws.is_some() ==> same_mines(
                final(self)@.tiles,
                mines_laid(safe_marked(old(self)@, ax as int, ay as int), draws.unwrap()@, old(self)@.mines),
            ),
    {
        let ghost b0 = self@;
        let area = self.tiles.len();
        let safe_count = self.mark_safe_zone(ax, ay);
        let ghost s0 = self@.tiles;
        proof {
            assert(s0 =~= safe_marked(b0, ax as int, ay as int));
            lemma_count_none(self@.tiles, mined());
            lemma_count_complement(self@.tiles, free(), marked_safe());
        }
        let mut i: usize = 0;
        while i < self.mines
            invariant
                b0.wf(),
                !b0.generated,
                area == b0.tiles.len(),
                safe_count <= 9,
                i <= b0.mines,
                self@.mines == b0.mines,
                self@.placing(b0, ax as int, ay as int),
                count(self@.tiles, mined()) == i,
                count(self@.tiles, free()) == area - safe_count - i,
                draws.is_some() ==> draws.unwrap()@.len() == b0.mines,
                s0 == safe_marked(b0, ax as int, ay as int),
                draws.is_some() ==> self@.tiles == mines_laid(s0, draws.unwrap()@, i as nat),
            decreases b0.mines - i,
        {
            let free_count = area - safe_count - i;
            let draw = match draws {
                Some(v) => v[i],
                None => random_below(free_count),
            };
            let ghost before = self@.tiles;
            let k = self.place_mine(draw, free_count);
            proof {
                let t = Tile { state: TileState::Mine, ..before[k as int] };
                lemma_count_update(before, mined(), k as int, t);
                lemma_count_update(before, free(), k as int, t);
                lemma_rank_unique(before, k as int, (draw % free_count) as nat);
                if draws.is_some() {
                    let ds = draws.unwrap()@;
                    assert(ds[i as int] == draw);
                    assert(mines_laid(s0, ds, (i + 1) as nat) == before.update(k as int, t));
                }
            }
            i = i + 1;
        }
        let ghost b1 = self@;
        self.count_adjacent();
        proof {
            let b = self@;
            lemma_count_agree(b1.tiles, b.tiles, mined());
            assert forall|k: int| 0 <= k < b.tiles.len() implies (#[trigger] b.tiles[k]).state
                == b1.tiles[k].state by {}
            lemma_count_agree(b0.tiles, b.tiles, swept());
            lemma_count_agree(b0.tiles, b.tiles, flagged());
            assert forall|x: int, y: int| #[trigger] b.in_bounds(x, y) implies {
                &&& near(ax as int, ay as int, x, y) ==> b.tile(x, y).state == TileState::Empty
                &&& b.tile(x, y).safe == near(ax as int, ay as int, x, y)
                &&& b.tile(x, y).modifier == b0.tile(x, y).modifier
                &&& b.tile(x, y).swept == b0.tile(x, y).swept
                &&& b.tile(x, y).highlighted == b0.tile(x, y).highlighted
            } by {
                lemma_index(b.width as int, b.height as int, x, y);
                let _ = b1.tiles[b.index(x, y)];
            }
        }
    }

    /// A copy of the board, as reported when a round ends.
    pub fn snapshot(&self) -> (r: GameBoard)
        ensures
            r@ == self@,
    {
        let mut tiles: Vec<Tile> = Vec::new();
        let mut i: usize = 0;
        while i < self.tiles.len()
            invariant
                i <= self.tiles@.len(),
                tiles@ == self.tiles@.take(i as int),
            decreases self.tiles@.len() - i,
        {
            tiles.push(self.tiles[i]);
            i = i + 1;
            assert(tiles@ =~= self.tiles@.take(i as int));
        }
        assert(tiles@ =~= self.tiles@);
        GameBoard {
            tiles,
            width: self.width,
            height: self.height,
            state: self.state,
            non_mine_tiles: self.non_mine_tiles,
            revealed_tiles: self.revealed_tiles,
            flags: self.flags,
            mines: self.mines,
            modify_mode: self.modify_mode,
        }
    }

    /// Reveals (x, y): generates the mine field first if that has not happened,
    /// then sweeps as `sweep_generated` does.
    pub fn sweep(&mut self, x: usize, y: usize, events: &mut Events<GameEvent>) -> (r: Option<
        GameState,
    >)
        requires
            old(self)@.wf(),
        ensures
            final(self)@.wf(),
            final(events)@.len() >= old(events)@.len(),
            final(events)@.take(old(events)@.len() as int) == old(events)@,
            old(self)@.sweeps_to(
                x,
                y,
                final(self)@,
                final(events)@.skip(old(events)@.len() as int),
                r,
            ),
    {
        if !self.is_valid_coord(x, y) {
            assert(events@.take(events@.len() as int) =~= events@);
            assert(events@.skip(events@.len() as int) =~= seq![]);
            return None;
        }
        if self.state == BoardState::Ungenerated {
            self.generate(x, y);
        }
        let ghost g = self@;
        let r = self.sweep_generated(x, y, events);
        assert(g.sweep_outcome(x, y, self@, events@.skip(old(events)@.len() as int), r));
        r
    }

    /// Reveals (x, y) on a generated board. A hidden, unmarked tile is revealed; a
    /// mine ends the round; an empty tile with no mine around spreads the reveal,
    /// breadth first, to every hidden unmarked tile it reaches through such tiles.
    pub fn sweep_generated(&mut self, x: usize, y: usize, events: &mut Events<GameEvent>) -> (r:
        Option<GameState>)
        requires
            old(self)@.wf(),
            old(self)@.generated,
        ensures
            final(self)@.wf(),
            final(events)@.len() >= old(events)@.len(),
            final(events)@.take(old(events)@.len() as int) == old(events)@,
            old(self)@.sweep_outcome(
                x,
                y,
                final(self)@,
                final(events)@.skip(old(events)@.len() as int),
                r,
            ),
    {
        let ghost e0 = events@;
        let ghost g = self@;
        if !self.is_valid_coord(x, y) {
            assert(events@.take(events@.len() as int) =~= events@);
            assert(events@.skip(events@.len() as int) =~= seq![]);
            return None;
        }
        let h = self.height;
        proof {
            lemma_index(g.width as int, h as int, x as int, y as int);
            lemma_dims_fit(g);
        }
        let k = x * h + y;
        let tile = self.tiles[k];
        if tile.modifier.is_some() || tile.swept {
            assert(events@.take(events@.len() as int) =~= events@);
            assert(events@.skip(events@.len() as int) =~= seq![]);
            return None;
        }
        let first = Tile { swept: true, ..tile };
        proof {
            lemma_count_update(g.tiles, swept(), k as int, first);
            lemma_count_update(g.tiles, flagged(), k as int, first);
            lemma_count_bound(g.tiles.update(k as int, first), swept());
        }
        self.tiles.set(k, first);
        self.revealed_tiles = self.revealed_tiles + 1;
        events.add(GameEvent::RevealTile(x, y, first));
        if tile.state == TileState::Mine {
            events.add(GameEvent::Lose(x, y, tile));
            proof {
                lemma_same_layout(g, self@);
            }
            let snap = self.snapshot();
            events.add(GameEvent::GameEnd(snap));
            assert(events@.take(e0.len() as int) =~= e0);
            assert(self@ =~= (BoardModel {
                revealed_tiles: g.revealed_tiles + 1,
                ..g.with_tile(x as int, y as int, first)
            }));
            return Some(GameState::GameOver);
        }
        events.add(GameEvent::SweepBegin);
        let mut scan: Vec<(usize, usize)> = Vec::new();
        scan.push((x, y));
        let ghost mut parent: Seq<int> = seq![0];
        proof {
            assert(e0 + g.cascade_events(scan@) =~= events@);
            lemma_push_contains(seq![], (x, y));
            assert(seq![(x, y)] =~= Seq::<(usize, usize)>::empty().push((x, y)));
            assert forall|a: usize, b: usize| g.in_bounds(a as int, b as int) implies #[trigger] self@.tile(a as int, b as int)
                == if scan@.contains((a, b)) {
                Tile { swept: true, ..g.tile(a as int, b as int) }
            } else {
                g.tile(a as int, b as int)
            } by {
                lemma_index(g.width as int, h as int, a as int, b as int);
                lemma_index(g.width as int, h as int, x as int, y as int);
                if (a, b) != (x, y) {
                    if a == x {
                        assert(b != y);
                    }
                    lemma_index_injective(g.width as int, h as int, a as int, b as int, x as int, y as int);
                }
            }
        }
        let len = self.tiles.len();
        let mut head: usize = 0;
        while head < scan.len()
            invariant
                g.wf(),
                g.generated,
                g.width <= isize::MAX,
                g.height <= isize::MAX,
                h == g.height,
                len == g.tiles.len(),
                g.open_tile((x, y)),
                g.at((x, y)).state == TileState::Empty,
                self@ == (BoardModel {
                    tiles: self@.tiles,
                    revealed_tiles: g.revealed_tiles + scan@.len(),
                    ..g
                }),
                self@.tiles.len() == len,
                self@.revealed_tiles == count(self@.tiles, swept()),
                self@.flags == count(self@.tiles, flagged()),
                self@.revealed_tiles <= len,
                forall|j: int|
                    #![trigger self@.tiles[j]]
                    0 <= j < len ==> self@.tiles[j] == (Tile {
                        swept: self@.tiles[j].swept,
                        ..g.tiles[j]
                    }) && (self@.tiles[j].swept ==> self@.tiles[j].modifier.is_none()),
                forall|a: usize, b: usize|
                    #![trigger self@.tile(a as int, b as int)]
                    g.in_bounds(a as int, b as int) ==> self@.tile(a as int, b as int)
                        == if scan@.contains((a, b)) {
                        Tile { swept: true, ..g.tile(a as int, b as int) }
                    } else {
                        g.tile(a as int, b as int)
                    },
                head <= scan@.len(),
                scan@.len() > 0,
                scan@[0] == (x, y),
                scan@.no_duplicates(),
                forall|i: int| 0 <= i < scan@.len() ==> g.open_tile(#[trigger] scan@[i]),
                parent.len() == scan@.len(),
                forall|i: int|
                    0 < i < scan@.len() ==> 0 <= #[trigger] parent[i] < i && g.expands(
                        scan@[parent[i]],
                    ) && touching(scan@[parent[i]], scan@[i]),
                forall|i: int, q: (usize, usize)|
                    0 <= i < head && g.expands(scan@[i]) && #[trigger] touching(scan@[i], q)
                        && g.open_tile(q) ==> scan@.contains(q),
                events@ == e0 + g.cascade_events(scan@),
            decreases 2 * (len - self@.revealed_tiles) + scan@.len() - head,
        {
            let (px, py) = scan[head];
            let ghost p = (px, py);
            proof {
                lemma_index(g.width as int, h as int, px as int, py as int);
            }
            let pt = self.tiles[px * h + py];
            let ghost m0 = 2 * (len - self@.revealed_tiles) + scan@.len();
            if pt.state == TileState::Empty && pt.adjacent == 0 {
                let mut d: usize = 0;
                while d < 8
                    invariant
                        g.wf(),
                        g.generated,
                        g.width <= isize::MAX,
                        g.height <= isize::MAX,
                        h == g.height,
                        len == g.tiles.len(),
                        g.open_tile((x, y)),
                        g.at((x, y)).state == TileState::Empty,
                        d <= 8,
                        head < scan@.len(),
                        scan@[head as int] == p,
                        p == (px, py),
                        g.in_bounds(px as int, py as int),
                        g.expands(p),
                        self@ == (BoardModel {
                            tiles: self@.tiles,
                            revealed_tiles: g.revealed_tiles + scan@.len(),
                            ..g
                        }),
                        self@.tiles.len() == len,
                        self@.revealed_tiles == count(self@.tiles, swept()),
                        self@.flags == count(self@.tiles, flagged()),
                        self@.revealed_tiles <= len,
                        2 * (len - self@.revealed_tiles) + scan@.len() <= m0,
                        forall|j: int|
                            #![trigger self@.tiles[j]]
                            0 <= j < len ==> self@.tiles[j] == (Tile {
                                swept: self@.tiles[j].swept,
                                ..g.tiles[j]
                            }) && (self@.tiles[j].swept ==> self@.tiles[j].modifier.is_none()),
                        forall|a: usize, b: usize|
                            #![trigger self@.tile(a as int, b as int)]
                            g.in_bounds(a as int, b as int) ==> self@.tile(a as int, b as int)
                                == if scan@.contains((a, b)) {
                                Tile { swept: true, ..g.tile(a as int, b as int) }
                            } else {
                                g.tile(a as int, b as int)
                            },
                        scan@.len() > 0,
                        scan@[0] == (x, y),
                        scan@.no_duplicates(),
                        forall|i: int| 0 <= i < scan@.len() ==> g.open_tile(#[trigger] scan@[i]),
                        parent.len() == scan@.len(),
                        forall|i: int|
                            0 < i < scan@.len() ==> 0 <= #[trigger] parent[i] < i && g.expands(
                                scan@[parent[i]],
                            ) && touching(scan@[parent[i]], scan@[i]),
                        forall|i: int, q: (usize, usize)|
                            0 <= i < head && g.expands(scan@[i]) && #[trigger] touching(scan@[i], q)
                                && g.open_tile(q) ==> scan@.contains(q),
                        forall|e: int|
                            0 <= e < d && g.in_bounds(px + dx(e), py + dy(e)) && g.open_tile(
                                #[trigger] step(p, e),
                            ) ==> scan@.contains(step(p, e)),
                        events@ == e0 + g.cascade_events(scan@),
                    decreases 8 - d,
                {
                    if let Some((qx, qy)) = self.neighbor(px, py, d) {
                        proof {
                            lemma_index(g.width as int, h as int, qx as int, qy as int);
                        }
                        let qk = qx * h + qy;
                        let qt = self.tiles[qk];
                        if !qt.swept && qt.modifier.is_none() {
                            let ghost q = (qx, qy);
                            let ghost bm = self@;
                            let ghost before = self@.tiles;
                            let ghost old_scan = scan@;
                            let nt = Tile { swept: true, ..qt };
                            proof {
                                let _ = self@.tile(qx as int, qy as int);
                                assert(!old_scan.contains(q));
                                lemma_count_update(before, swept(), qk as int, nt);
                                lemma_count_update(before, flagged(), qk as int, nt);
                                lemma_count_bound(before.update(qk as int, nt), swept());
                            }
                            self.tiles.set(qk, nt);
                            self.revealed_tiles = self.revealed_tiles + 1;
                            scan.push((qx, qy));
                            events.add(GameEvent::RevealTile(qx, qy, nt));
                            proof {
                                parent = parent.push(head as int);
                                lemma_push_contains(old_scan, q);
                                assert(touching(p, q)) by {
                                    assert(q == step(p, d as int));
                                }
                                assert(e0 + g.cascade_events(scan@) =~= (e0 + g.cascade_events(old_scan)).push(
                                    GameEvent::RevealTile(qx, qy, nt),
                                ));
                                assert forall|a: usize, b: usize|
                                    g.in_bounds(a as int, b as int) implies #[trigger] self@.tile(a as int, b as int)
                                        == if scan@.contains((a, b)) {
                                        Tile { swept: true, ..g.tile(a as int, b as int) }
                                    } else {
                                        g.tile(a as int, b as int)
                                    } by {
                                    lemma_index(g.width as int, h as int, a as int, b as int);
                                    let _ = bm.tile(a as int, b as int);
                                    if (a, b) != q {
                                        lemma_index_injective(
                                            g.width as int,
                                            h as int,
                                            a as int,
                                            b as int,
                                            qx as int,
                                            qy as int,
                                        );
                                    }
                                }
                            }
                        }
                    }
                    proof {
                        assert(g.in_bounds(px + dx(d as int), py + dy(d as int)) ==> scan@.contains(
                            step(p, d as int),
                        ) || !g.open_tile(step(p, d as int))) by {
                            if g.in_bounds(px + dx(d as int), py + dy(d as int)) {
                                let q = step(p, d as int);
                                let _ = self@.tile(q.0 as int, q.1 as int);
                            }
                        }
                    }
                    d = d + 1;
                }
                proof {
                    assert forall|q: (usize, usize)| #[trigger] touching(p, q) && g.open_tile(q) implies scan@.contains(q) by {
                        let e = lemma_direction(p, q);
                        assert(q == step(p, e));
                    }
                }
            }
            head = head + 1;
        }
        let ghost order = scan@;
        proof {
            lemma_support(g, order, parent);
            assert(g.cascade((x, y), order));
            assert(g.revealed_along(order, self@));
            lemma_same_layout(g, self@);
        }
        if self.revealed_tiles == self.non_mine_tiles {
            events.add(GameEvent::Win);
            let snap = self.snapshot();
            events.add(GameEvent::GameEnd(snap));
            proof {
                let em = events@.skip(e0.len() as int);
                assert(events@.take(e0.len() as int) =~= e0);
                assert(em.take(order.len() + 1int) =~= g.cascade_events(order));
                assert(g.sweep_outcome(x, y, self@, em, Some(GameState::Victory)));
            }
            return Some(GameState::Victory);
        }
        proof {
            let em = events@.skip(e0.len() as int);
            assert(events@.take(e0.len() as int) =~= e0);
            assert(em =~= g.cascade_events(order));
            assert(em.take(order.len() + 1int) =~= g.cascade_events(order));
            assert(g.sweep_outcome(x, y, self@, em, None));
        }
        None
    }

    /// The tiles to reveal when the player chords on (x, y).
    pub fn chord_targets(&self, x: usize, y: usize) -> (r: Vec<(usize, usize)>)
        requires
            self@.wf(),
        ensures
            r@ == self@.chord(x, y),
    {
        let mut targets: Vec<(usize, usize)> = Vec::new();
        if !self.is_valid_coord(x, y) {
            return targets;
        }
        let ghost b = self@;
        let h = self.height;
        proof {
            lemma_index(b.width as int, h as int, x as int, y as int);
        }
        let tile = self.tiles[x * h + y];
        if !tile.swept || tile.adjacent == 0 {
            return targets;
        }
        let mut flags: u8 = 0;
        let mut d: usize = 0;
        while d < 8
            invariant
                b == self@,
                b.wf(),
                h == b.height,
                b.in_bounds(x as int, y as int),
                d <= 8,
                targets@ == b.unflagged_neighbors(x, y, d as int),
                flags == b.flagged_neighbors(x, y, d as int),
                flags <= d,
            decreases 8 - d,
        {
            if let Some((qx, qy)) = self.neighbor(x, y, d) {
                proof {
                    lemma_index(b.width as int, h as int, qx as int, qy as int);
                }
                let q = self.tiles[qx * h + qy];
                let flagged = match q.modifier {
                    Some(TileModifier::Flagged) => true,
                    _ => false,
                };
                if flagged {
                    flags = flags + 1;
                } else {
                    targets.push((qx, qy));
                }
            }
            d = d + 1;
        }
        if flags == tile.adjacent {
            targets
        } else {
            Vec::new()
        }
    }

    /// Cycles the marker of an unrevealed tile: none, flag, then question mark or none.
    pub fn modify(&mut self, x: usize, y: usize, events: &mut Events<GameEvent>)
        requires
            old(self)@.wf(),
        ensures
            final(self)@ == old(self)@.modified(x as int, y as int),
            final(events)@ == old(events)@ + old(self)@.modify_events(x as int, y as int),
            final(self)@.wf(),
    {
        if !self.is_valid_coord(x, y) {
            assert(old(events)@ + seq![] =~= old(events)@);
            return;
        }
        proof {
            lemma_index(self.width as int, self.height as int, x as int, y as int);
        }
        let ghost b = self@;
        let k = x * self.height + y;
        let tile = self.tiles[k];
        if tile.swept {
            assert(old(events)@ + seq![] =~= old(events)@);
            return;
        }
        let modifier = match tile.modifier {
            Some(TileModifier::Flagged) => {
                proof {
                    lemma_count_update(b.tiles, flagged(), k as int, Tile { modifier: None, ..tile });
                }
                self.flags = self.flags - 1;
                match self.modify_mode {
                    ModifyMode::Flag => {
                        events.add(GameEvent::FlagTile(x, y, tile));
                        None
                    },
                    ModifyMode::Question => {
                        events.add(GameEvent::QuestionTile(x, y, tile));
                        Some(TileModifier::Unsure)
                    },
                }
            },
            Some(TileModifier::Unsure) => None,
            None => {
                proof {
                    lemma_count_update(b.tiles, flagged(), k as int, Tile { modifier: Some(TileModifier::Flagged), ..tile });
                    lemma_count_bound(b.tiles.update(k as int, Tile { modifier: Some(TileModifier::Flagged), ..tile }), flagged());
                }
                self.flags = self.flags + 1;
                events.add(GameEvent::FlagTile(x, y, tile));
                Some(TileModifier::Flagged)
            },
        };
        let new_tile = Tile { modifier, ..tile };
        self.tiles.set(k, new_tile);
        proof {
            lemma_count_update(b.tiles, flagged(), k as int, new_tile);
            lemma_count_update(b.tiles, swept(), k as int, new_tile);
            lemma_same_layout(b, self@);
            assert(self@ == b.modified(x as int, y as int));
        }
    }
}

} // verus!
