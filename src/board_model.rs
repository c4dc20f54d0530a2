use vstd::prelude::*;
use crate::counting::{
    count, flagged, free, lemma_count_agree, lemma_count_none, lemma_count_take, lemma_count_update,
    mined, swept,
};
use crate::game::{GameEvent, GameState};
use crate::game_board::{BoardError, ModifyMode};
use crate::tile::{Tile, TileModifier, TileState};

verus! {

/// Column offset of the neighbour in direction `d` (0..8).
pub open spec fn dx(d: int) -> int {
    if d == 0 || d == 3 || d == 5 {
        -1
    } else if d == 1 || d == 6 {
        0
    } else {
        1
    }
}

/// Row offset of the neighbour in direction `d` (0..8).
pub open spec fn dy(d: int) -> int {
    if d <= 2 {
        -1
    } else if d <= 4 {
        0
    } else {
        1
    }
}

/// `q` is one of the eight cells around `p`.
pub open spec fn touching(p: (usize, usize), q: (usize, usize)) -> bool {
    p != q && -1 <= q.0 - p.0 <= 1 && -1 <= q.1 - p.1 <= 1
}

/// The neighbour of `p` in direction `d`, where that is no negative coordinate.
pub open spec fn step(p: (usize, usize), d: int) -> (usize, usize) {
    ((p.0 + dx(d)) as usize, (p.1 + dy(d)) as usize)
}

/// The mathematical model of a board.
pub ghost struct BoardModel {
    /// Tiles in column order: the tile at (x, y) is `tiles[x * height + y]`.
    pub tiles: Seq<Tile>,
    pub width: nat,
    pub height: nat,
    pub generated: bool,
    pub non_mine_tiles: nat,
    pub revealed_tiles: nat,
    pub flags: nat,
    pub mines: nat,
    pub modify_mode: ModifyMode,
}

impl BoardModel {
    pub open spec fn in_bounds(self, x: int, y: int) -> bool {
        0 <= x < self.width && 0 <= y < self.height
    }

    pub open spec fn index(self, x: int, y: int) -> int {
        x * self.height + y
    }

    pub open spec fn tile(self, x: int, y: int) -> Tile {
        self.tiles[self.index(x, y)]
    }

    pub open spec fn mine_at(self, x: int, y: int) -> bool {
        self.in_bounds(x, y) && self.tile(x, y).state == TileState::Mine
    }

    /// Mines among the first `n` neighbours of (x, y), in direction order.
    pub open spec fn neighbor_mines(self, x: int, y: int, n: int) -> nat
        decreases n,
    {
        if n <= 0 {
            0
        } else {
            self.neighbor_mines(x, y, n - 1) + if self.mine_at(x + dx(n - 1), y + dy(n - 1)) {
                1nat
            } else {
                0nat
            }
        }
    }

    /// Every empty tile counts its neighbouring mines; mines count nothing.
    pub open spec fn adjacency_ok(self) -> bool {
        forall|x: int, y: int|
            #![trigger self.tile(x, y)]
            self.in_bounds(x, y) ==> if self.tile(x, y).state == TileState::Empty {
                self.tile(x, y).adjacent == self.neighbor_mines(x, y, 8)
            } else {
                self.tile(x, y).adjacent == 0
            }
    }

    /// The shape and the counters agree with the tiles.
    pub open spec fn wf(self) -> bool {
        &&& self.width > 0
        &&& self.height > 0
        &&& self.tiles.len() == self.width * self.height
        &&& self.width * self.height <= isize::MAX
        &&& self.mines + 9 <= self.width * self.height
        &&& self.non_mine_tiles == self.width * self.height - self.mines
        &&& self.revealed_tiles == count(self.tiles, swept())
        &&& self.flags == count(self.tiles, flagged())
        &&& forall|k: int| 0 <= k < self.tiles.len() && #[trigger] self.tiles[k].swept
            ==> self.tiles[k].modifier.is_none()
        &&& !self.generated ==> forall|k: int|
            #![trigger self.tiles[k]]
            0 <= k < self.tiles.len() ==> {
                &&& self.tiles[k].state == TileState::Empty
                &&& !self.tiles[k].swept
                &&& self.tiles[k].adjacent == 0
                &&& !self.tiles[k].safe
            }
        &&& self.generated ==> count(self.tiles, mined()) == self.mines && self.adjacency_ok()
    }

    /// A board of the given size with nothing placed or revealed.
    pub open spec fn fresh(width: nat, height: nat, mines: nat, mode: ModifyMode) -> BoardModel {
        BoardModel {
            tiles: Seq::new(width * height, |k: int| Tile::fresh()),
            width,
            height,
            generated: false,
            non_mine_tiles: (width * height - mines) as nat,
            revealed_tiles: 0,
            flags: 0,
            mines,
            modify_mode: mode,
        }
    }

    /// The board with the tile at (x, y) replaced.
    pub open spec fn with_tile(self, x: int, y: int, t: Tile) -> BoardModel {
        BoardModel { tiles: self.tiles.update(self.index(x, y), t), ..self }
    }

    pub open spec fn remaining_flags(self) -> int {
        self.mines - self.flags
    }
}

/// The sizes that `GameBoard::new` accepts.
pub open spec fn valid_size(width: nat, height: nat, mines: nat) -> bool {
    width > 0 && height > 0 && mines + 9 <= width * height
}

/// The error `GameBoard::new` gives for a size that `valid_size` refuses.
pub open spec fn size_error(width: nat, height: nat) -> BoardError {
    if width == 0 || height == 0 {
        BoardError::ZeroDimension
    } else {
        BoardError::TooManyMines
    }
}

impl BoardModel {
    /// The board after the modify action at (x, y).
    pub open spec fn modified(self, x: int, y: int) -> BoardModel {
        let t = self.tile(x, y);
        if !self.in_bounds(x, y) || t.swept {
            self
        } else {
            match t.modifier {
                None => BoardModel {
                    flags: self.flags + 1,
                    ..self.with_tile(x, y, Tile { modifier: Some(TileModifier::Flagged), ..t })
                },
                Some(TileModifier::Flagged) => match self.modify_mode {
                    ModifyMode::Flag => BoardModel {
                        flags: (self.flags - 1) as nat,
                        ..self.with_tile(x, y, Tile { modifier: None, ..t })
                    },
                    ModifyMode::Question => BoardModel {
                        flags: (self.flags - 1) as nat,
                        ..self.with_tile(x, y, Tile { modifier: Some(TileModifier::Unsure), ..t })
                    },
                },
                Some(TileModifier::Unsure) => self.with_tile(x, y, Tile { modifier: None, ..t }),
            }
        }
    }

    /// The events that the modify action at (x, y) reports: the tile as it was.
    pub open spec fn modify_events(self, x: int, y: int) -> Seq<GameEvent> {
        let t = self.tile(x, y);
        if !self.in_bounds(x, y) || t.swept {
            seq![]
        } else {
            match t.modifier {
                None => seq![GameEvent::FlagTile(x as usize, y as usize, t)],
                Some(TileModifier::Flagged) => match self.modify_mode {
                    ModifyMode::Flag => seq![GameEvent::FlagTile(x as usize, y as usize, t)],
                    ModifyMode::Question => seq![
                        GameEvent::QuestionTile(x as usize, y as usize, t),
                    ],
                },
                Some(TileModifier::Unsure) => seq![],
            }
        }
    }
}

/// Two boards with the same layout of mines and counts.
pub proof fn lemma_same_layout(a: BoardModel, b: BoardModel)
    requires
        a.width == b.width,
        a.height == b.height,
        a.tiles.len() == b.tiles.len(),
        forall|k: int|
            0 <= k < a.tiles.len() ==> (#[trigger] a.tiles[k]).state == b.tiles[k].state
                && a.tiles[k].adjacent == b.tiles[k].adjacent,
    ensures
        count(a.tiles, mined()) == count(b.tiles, mined()),
        a.tiles.len() == a.width * a.height ==> (a.adjacency_ok() <==> b.adjacency_ok()),
{
    assert forall|k: int| 0 <= k < a.tiles.len() implies (mined()(a.tiles[k]) <==> mined()(
        b.tiles[k],
    )) by {}
    lemma_count_agree(a.tiles, b.tiles, mined());
    if a.tiles.len() == a.width * a.height {
        assert forall|x: int, y: int| a.in_bounds(x, y) implies a.neighbor_mines(x, y, 8)
            == b.neighbor_mines(x, y, 8) && a.tile(x, y).state == b.tile(x, y).state && a.tile(
            x,
            y,
        ).adjacent == b.tile(x, y).adjacent by {
            lemma_neighbor_mines_same(a, b, x, y, 8);
            lemma_index(a.width as int, a.height as int, x, y);
        }
        if a.adjacency_ok() {
            assert forall|x: int, y: int| #[trigger] b.in_bounds(x, y) implies (if b.tile(
                x,
                y,
            ).state == TileState::Empty {
                b.tile(x, y).adjacent == b.neighbor_mines(x, y, 8)
            } else {
                b.tile(x, y).adjacent == 0
            }) by {
                assert(a.in_bounds(x, y));
                let _ = a.tile(x, y);
            }
        }
        if b.adjacency_ok() {
            assert forall|x: int, y: int| #[trigger] a.in_bounds(x, y) implies (if a.tile(
                x,
                y,
            ).state == TileState::Empty {
                a.tile(x, y).adjacent == a.neighbor_mines(x, y, 8)
            } else {
                a.tile(x, y).adjacent == 0
            }) by {
                let _ = b.tile(x, y);
            }
        }
    }
}

pub proof fn lemma_dims_fit(b: BoardModel)
    requires
        b.width > 0,
        b.height > 0,
        b.width * b.height <= isize::MAX,
    ensures
        b.width <= isize::MAX,
        b.height <= isize::MAX,
{
    assert(b.width <= isize::MAX) by (nonlinear_arith)
        requires
            b.width * b.height <= isize::MAX,
            b.height > 0,
    ;
    assert(b.height <= isize::MAX) by (nonlinear_arith)
        requires
            b.width * b.height <= isize::MAX,
            b.width > 0,
    ;
}

pub proof fn lemma_neighbor_mines_bound(b: BoardModel, x: int, y: int, n: int)
    requires
        n >= 0,
    ensures
        b.neighbor_mines(x, y, n) <= n,
    decreases n,
{
    if n > 0 {
        lemma_neighbor_mines_bound(b, x, y, n - 1);
    }
}

pub proof fn lemma_neighbor_mines_same(a: BoardModel, b: BoardModel, x: int, y: int, n: int)
    requires
        a.width == b.width,
        a.height == b.height,
        a.tiles.len() == b.tiles.len(),
        a.tiles.len() == a.width * a.height,
        forall|k: int| 0 <= k < a.tiles.len() ==> (#[trigger] a.tiles[k]).state == b.tiles[k].state,
    ensures
        a.neighbor_mines(x, y, n) == b.neighbor_mines(x, y, n),
    decreases n,
{
    if n > 0 {
        lemma_neighbor_mines_same(a, b, x, y, n - 1);
        let (p, q) = (x + dx(n - 1), y + dy(n - 1));
        if a.in_bounds(p, q) {
            lemma_index(a.width as int, a.height as int, p, q);
        }
    }
}

/// Changing only the cosmetic highlight of a tile keeps a board well formed.
pub proof fn lemma_highlight_keeps_wf(b: BoardModel, x: int, y: int, t: Tile)
    requires
        b.wf(),
        b.in_bounds(x, y),
        t == (Tile { highlighted: t.highlighted, ..b.tile(x, y) }),
    ensures
        b.with_tile(x, y, t).wf(),
{
    lemma_index(b.width as int, b.height as int, x, y);
    let c = b.with_tile(x, y, t);
    let k = b.index(x, y);
    lemma_count_update(b.tiles, swept(), k, t);
    lemma_count_update(b.tiles, flagged(), k, t);
    lemma_same_layout(b, c);
}

/// (x, y) lies in the 3 x 3 block centred on (ax, ay).
pub open spec fn near(ax: int, ay: int, x: int, y: int) -> bool {
    -1 <= x - ax <= 1 && -1 <= y - ay <= 1
}

impl BoardModel {
    /// The tile at position `k` of the sequence lies in the block around (ax, ay).
    pub open spec fn near_index(self, ax: int, ay: int, k: int) -> bool {
        near(ax, ay, k / self.height as int, k % self.height as int)
    }

    /// `self` is `b0` part way through generation around (ax, ay): the safe block is
    /// marked, mines lie outside it, and nothing else has changed.
    pub open spec fn placing(self, b0: BoardModel, ax: int, ay: int) -> bool {
        &&& self.width == b0.width
        &&& self.height == b0.height
        &&& self.tiles.len() == b0.tiles.len()
        &&& !self.generated
        &&& self.non_mine_tiles == b0.non_mine_tiles
        &&& self.revealed_tiles == b0.revealed_tiles
        &&& self.flags == b0.flags
        &&& self.mines == b0.mines
        &&& self.modify_mode == b0.modify_mode
        &&& forall|k: int|
            #![trigger self.tiles[k]]
            0 <= k < self.tiles.len() ==> {
                &&& self.tiles[k].safe == self.near_index(ax, ay, k)
                &&& self.tiles[k].state == TileState::Mine ==> !self.tiles[k].safe
                &&& self.tiles[k] == (Tile {
                    state: self.tiles[k].state,
                    safe: self.tiles[k].safe,
                    ..b0.tiles[k]
                })
            }
    }

    /// `self` is `b0` with its mine field laid out around the first click (ax, ay).
    pub open spec fn laid_out(self, b0: BoardModel, ax: int, ay: int) -> bool {
        &&& self.wf()
        &&& self.generated
        &&& self.width == b0.width
        &&& self.height == b0.height
        &&& self.non_mine_tiles == b0.non_mine_tiles
        &&& self.revealed_tiles == b0.revealed_tiles
        &&& self.flags == b0.flags
        &&& self.mines == b0.mines
        &&& self.modify_mode == b0.modify_mode
        &&& forall|x: int, y: int|
            #![trigger self.tile(x, y)]
            self.in_bounds(x, y) ==> {
                &&& near(ax, ay, x, y) ==> self.tile(x, y).state == TileState::Empty
                &&& self.tile(x, y).safe == near(ax, ay, x, y)
                &&& self.tile(x, y).modifier == b0.tile(x, y).modifier
                &&& self.tile(x, y).swept == b0.tile(x, y).swept
                &&& self.tile(x, y).highlighted == b0.tile(x, y).highlighted
            }
    }
}

impl BoardModel {
    pub open spec fn at(self, p: (usize, usize)) -> Tile {
        self.tile(p.0 as int, p.1 as int)
    }

    /// A tile that a sweep may reveal: on the board, hidden, unmarked.
    pub open spec fn open_tile(self, p: (usize, usize)) -> bool {
        &&& self.in_bounds(p.0 as int, p.1 as int)
        &&& !self.at(p).swept
        &&& self.at(p).modifier.is_none()
    }

    /// A tile through which the flood fill spreads: empty, with no mine around.
    pub open spec fn expands(self, p: (usize, usize)) -> bool {
        self.at(p).state == TileState::Empty && self.at(p).adjacent == 0
    }

    /// `order` lists, in reveal order, the tiles that a sweep at `start` reveals:
    /// each one open, each after the first next to an earlier one that spreads,
    /// and every open neighbour of a spreading tile among them.
    pub open spec fn cascade(self, start: (usize, usize), order: Seq<(usize, usize)>) -> bool {
        &&& order.len() > 0
        &&& order[0] == start
        &&& order.no_duplicates()
        &&& forall|i: int| 0 <= i < order.len() ==> self.open_tile(#[trigger] order[i])
        &&& forall|i: int| 0 < i < order.len() ==> #[trigger] self.follows(order, i)
        &&& forall|i: int, q: (usize, usize)|
            0 <= i < order.len() && self.expands(order[i]) && #[trigger] touching(order[i], q)
                && self.open_tile(q) ==> order.contains(q)
    }

    /// Some earlier tile of `order` spreads the fill and touches `order[i]`.
    pub open spec fn follows(self, order: Seq<(usize, usize)>, i: int) -> bool {
        exists|j: int| 0 <= j < i && self.expands(order[j]) && touching(order[j], order[i])
    }

    /// `new` is `self` with the tiles of `order` revealed.
    pub open spec fn revealed_along(self, order: Seq<(usize, usize)>, new: BoardModel) -> bool {
        &&& new == BoardModel {
            tiles: new.tiles,
            revealed_tiles: self.revealed_tiles + order.len(),
            ..self
        }
        &&& new.tiles.len() == self.tiles.len()
        &&& forall|a: usize, b: usize|
            #![trigger new.tile(a as int, b as int)]
            self.in_bounds(a as int, b as int) ==> new.tile(a as int, b as int) == if order.contains(
                (a, b),
            ) {
                Tile { swept: true, ..self.tile(a as int, b as int) }
            } else {
                self.tile(a as int, b as int)
            }
    }

    /// The events of a flood fill along `order`: the first reveal, the start of the
    /// fill, then one reveal per further tile.
    pub open spec fn cascade_events(self, order: Seq<(usize, usize)>) -> Seq<GameEvent> {
        seq![reveal_event(self, order[0]), GameEvent::SweepBegin] + Seq::new(
            (order.len() - 1) as nat,
            |i: int| reveal_event(self, order[i + 1]),
        )
    }

    /// What a sweep at (x, y) on a generated board does: `new` is the board after it,
    /// `emitted` the events it reports and `r` its result.
    pub open spec fn sweep_outcome(
        self,
        x: usize,
        y: usize,
        new: BoardModel,
        emitted: Seq<GameEvent>,
        r: Option<GameState>,
    ) -> bool {
        if !self.open_tile((x, y)) {
            new == self && emitted.len() == 0 && r.is_none()
        } else if self.at((x, y)).state == TileState::Mine {
            &&& new == BoardModel {
                revealed_tiles: self.revealed_tiles + 1,
                ..self.with_tile(x as int, y as int, Tile { swept: true, ..self.at((x, y)) })
            }
            &&& emitted.len() == 3
            &&& emitted[0] == reveal_event(self, (x, y))
            &&& emitted[1] == GameEvent::Lose(x, y, self.at((x, y)))
            &&& ends_game(emitted[2], new)
            &&& r == Some(GameState::GameOver)
        } else {
            exists|order: Seq<(usize, usize)>|
                {
                    &&& #[trigger] self.cascade((x, y), order)
                    &&& self.revealed_along(order, new)
                    &&& emitted.take(order.len() + 1int) == self.cascade_events(order)
                    &&& if new.revealed_tiles == new.non_mine_tiles {
                        &&& emitted.len() == order.len() + 3
                        &&& emitted[order.len() + 1int] == GameEvent::Win
                        &&& ends_game(emitted[order.len() + 2int], new)
                        &&& r == Some(GameState::Victory)
                    } else {
                        emitted.len() == order.len() + 1 && r.is_none()
                    }
                }
        }
    }
}

impl BoardModel {
    /// What `GameBoard::sweep` at (x, y) does: off the board nothing; on it, the
    /// mine field is laid out first if need be (around (x, y)), then the sweep
    /// proceeds on the generated board `g`.
    pub open spec fn sweeps_to(
        self,
        x: usize,
        y: usize,
        new: BoardModel,
        emitted: Seq<GameEvent>,
        r: Option<GameState>,
    ) -> bool {
        if !self.in_bounds(x as int, y as int) {
            new == self && emitted.len() == 0 && r.is_none()
        } else {
            exists|g: BoardModel|
                {
                    &&& (if self.generated {
                        g == self
                    } else {
                        g.laid_out(self, x as int, y as int)
                    })
                    &&& #[trigger] g.sweep_outcome(x, y, new, emitted, r)
                }
        }
    }
}

/// The reveal event for the tile at `p` of `b`, reported once revealed.
pub open spec fn reveal_event(b: BoardModel, p: (usize, usize)) -> GameEvent {
    GameEvent::RevealTile(p.0, p.1, Tile { swept: true, ..b.at(p) })
}

/// `e` ends the round with a snapshot of `b`.
pub open spec fn ends_game(e: GameEvent, b: BoardModel) -> bool {
    match e {
        GameEvent::GameEnd(g) => g@ == b,
        _ => false,
    }
}

/// The direction that leads from `p` to a touching `q`.
pub proof fn lemma_direction(p: (usize, usize), q: (usize, usize)) -> (d: int)
    requires
        touching(p, q),
    ensures
        0 <= d < 8,
        q.0 == p.0 + dx(d),
        q.1 == p.1 + dy(d),
{
    let a = q.0 - p.0;
    let b = q.1 - p.1;
    if b == -1 {
        if a == -1 { 0 } else if a == 0 { 1 } else { 2 }
    } else if b == 0 {
        if a == -1 { 3 } else { 4 }
    } else {
        if a == -1 { 5 } else if a == 0 { 6 } else { 7 }
    }
}

pub proof fn lemma_support(g: BoardModel, order: Seq<(usize, usize)>, parent: Seq<int>)
    requires
        parent.len() == order.len(),
        forall|i: int|
            0 < i < order.len() ==> 0 <= #[trigger] parent[i] < i && g.expands(order[parent[i]])
                && touching(order[parent[i]], order[i]),
    ensures
        forall|i: int| 0 < i < order.len() ==> #[trigger] g.follows(order, i),
{
    assert forall|i: int| 0 < i < order.len() implies #[trigger] g.follows(order, i) by {
        let j = parent[i];
        assert(0 <= j < i && g.expands(order[j]) && touching(order[j], order[i]));
    }
}

pub proof fn lemma_push_contains(s: Seq<(usize, usize)>, v: (usize, usize))
    ensures
        forall|q: (usize, usize)| #[trigger] s.push(v).contains(q) <==> (s.contains(q) || q == v),
{
    assert forall|q: (usize, usize)| #[trigger] s.push(v).contains(q) <==> (s.contains(q) || q
        == v) by {
        if s.contains(q) {
            let i = choose|i: int| 0 <= i < s.len() && s[i] == q;
            assert(s.push(v)[i] == q);
        }
        if q == v {
            assert(s.push(v)[s.len() as int] == q);
        }
    }
}

impl BoardModel {
    /// The neighbours of (x, y), among the first `n` directions, that lie on the
    /// board and carry no flag, in direction order.
    pub open spec fn unflagged_neighbors(self, x: usize, y: usize, n: int) -> Seq<(usize, usize)>
        decreases n,
    {
        if n <= 0 {
            seq![]
        } else {
            let prev = self.unflagged_neighbors(x, y, n - 1);
            let q = step((x, y), n - 1);
            if self.in_bounds(x + dx(n - 1), y + dy(n - 1)) && !self.at(q).is_flagged() {
                prev.push(q)
            } else {
                prev
            }
        }
    }

    /// How many of the first `n` neighbours of (x, y) carry a flag.
    pub open spec fn flagged_neighbors(self, x: usize, y: usize, n: int) -> nat
        decreases n,
    {
        if n <= 0 {
            0
        } else {
            self.flagged_neighbors(x, y, n - 1) + if self.in_bounds(x + dx(n - 1), y + dy(n - 1))
                && self.at(step((x, y), n - 1)).is_flagged() {
                1nat
            } else {
                0nat
            }
        }
    }

    /// The tiles that a chord on (x, y) reveals: when (x, y) is a revealed number
    /// with exactly that many flags around it, its unflagged neighbours; else none.
    pub open spec fn chord(self, x: usize, y: usize) -> Seq<(usize, usize)> {
        let t = self.tile(x as int, y as int);
        if self.in_bounds(x as int, y as int) && t.swept && t.adjacent != 0
            && self.flagged_neighbors(x, y, 8) == t.adjacent {
            self.unflagged_neighbors(x, y, 8)
        } else {
            seq![]
        }
    }
}

/// Position of the free tile of rank `r` in `s`: the free tile with exactly `r`
/// free tiles before it.
pub open spec fn rank_position(s: Seq<Tile>, r: nat) -> int {
    choose|k: int| 0 <= k < s.len() && free()(s[k]) && count(s.take(k), free()) == r
}

/// `s` after the mines of `draws[..n]` are laid in turn, each on the free tile
/// whose rank is its draw modulo the number of free tiles left.
pub open spec fn mines_laid(s: Seq<Tile>, draws: Seq<usize>, n: nat) -> Seq<Tile>
    decreases n,
{
    if n == 0 {
        s
    } else {
        let p = mines_laid(s, draws, (n - 1) as nat);
        let k = rank_position(p, (draws[n - 1] as nat % count(p, free())) as nat);
        p.update(k, Tile { state: TileState::Mine, ..p[k] })
    }
}

/// The tiles of `b` with the block around (ax, ay) marked safe.
pub open spec fn safe_marked(b: BoardModel, ax: int, ay: int) -> Seq<Tile> {
    Seq::new(b.tiles.len(), |k: int| Tile { safe: b.near_index(ax, ay, k), ..b.tiles[k] })
}

/// `s` and `t` hold mines at the same positions.
pub open spec fn same_mines(s: Seq<Tile>, t: Seq<Tile>) -> bool {
    s.len() == t.len() && forall|k: int| 0 <= k < s.len() ==> (#[trigger] s[k]).state == t[k].state
}

pub proof fn lemma_count_take_mono(s: Seq<Tile>, p: spec_fn(Tile) -> bool, a: int, b: int)
    requires
        0 <= a <= b <= s.len(),
    ensures
        count(s.take(a), p) <= count(s.take(b), p),
    decreases b - a,
{
    if a < b {
        lemma_count_take_mono(s, p, a, b - 1);
        lemma_count_take(s, p, b - 1);
    }
}

/// Only one free tile has a given rank.
pub proof fn lemma_rank_unique(s: Seq<Tile>, k: int, r: nat)
    requires
        0 <= k < s.len(),
        free()(s[k]),
        count(s.take(k), free()) == r,
    ensures
        rank_position(s, r) == k,
{
    let j = rank_position(s, r);
    assert(0 <= j < s.len() && free()(s[j]) && count(s.take(j), free()) == r);
    if j < k {
        lemma_count_take(s, free(), j);
        lemma_count_take_mono(s, free(), j + 1, k);
    } else if k < j {
        lemma_count_take(s, free(), k);
        lemma_count_take_mono(s, free(), k + 1, j);
    }
}

/// Position of (x, y) in the tile sequence, and back.
pub proof fn lemma_index(w: int, h: int, x: int, y: int)
    requires
        0 <= x < w,
        0 <= y < h,
    ensures
        0 <= x * h + y < w * h,
        (x * h + y) / h == x,
        (x * h + y) % h == y,
{
    assert(0 <= x * h + y < w * h) by (nonlinear_arith)
        requires
            0 <= x < w,
            0 <= y < h,
    ;
    vstd::arithmetic::div_mod::lemma_fundamental_div_mod_converse(x * h + y, h, x, y);
}

/// Distinct cells sit at distinct positions of the tile sequence.
pub proof fn lemma_index_injective(w: int, h: int, x1: int, y1: int, x2: int, y2: int)
    requires
        0 <= x1 < w,
        0 <= y1 < h,
        0 <= x2 < w,
        0 <= y2 < h,
        x1 != x2 || y1 != y2,
    ensures
        x1 * h + y1 != x2 * h + y2,
{
    lemma_index(w, h, x1, y1);
    lemma_index(w, h, x2, y2);
}

/// Each position of the tile sequence is some (x, y) on the board.
pub proof fn lemma_position(w: int, h: int, k: int)
    requires
        0 <= k < w * h,
        h > 0,
    ensures
        0 <= k / h < w,
        0 <= k % h < h,
        (k / h) * h + k % h == k,
{
    vstd::arithmetic::div_mod::lemma_fundamental_div_mod(k, h);
    assert(0 <= k / h < w) by (nonlinear_arith)
        requires
            0 <= k < w * h,
            h > 0,
            k == h * (k / h) + k % h,
            0 <= k % h < h,
    ;
    vstd::arithmetic::mul::lemma_mul_is_commutative(h, k / h);
}

/// A fresh board of a valid size is well formed.
pub proof fn lemma_fresh_wf(width: nat, height: nat, mines: nat, mode: ModifyMode)
    requires
        valid_size(width, height, mines),
        width * height <= isize::MAX,
    ensures
        BoardModel::fresh(width, height, mines, mode).wf(),
{
    let b = BoardModel::fresh(width, height, mines, mode);
    lemma_count_none(b.tiles, swept());
    lemma_count_none(b.tiles, flagged());
}

} // verus!
