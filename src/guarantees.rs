use vstd::prelude::*;
use crate::board_model::{
    ends_game, lemma_index, lemma_index_injective, near, reveal_event, BoardModel,
};
use crate::board_model::{dx, dy, lemma_direction, lemma_position, touching};
use crate::counting::{
    count, flagged, lemma_count_complement, lemma_count_mono, lemma_count_none, lemma_count_update,
    mined, swept,
};
use crate::game::{GameEvent, GameState};
use crate::game_board::ModifyMode;
use crate::tile::{Tile, TileState};

verus! {

/// Number of `RevealTile` events in `s`.
pub open spec fn reveal_count(s: Seq<GameEvent>) -> nat
    decreases s.len(),
{
    if s.len() == 0 {
        0
    } else {
        reveal_count(s.drop_last()) + match s.last() {
            GameEvent::RevealTile(_, _, _) => 1nat,
            _ => 0nat,
        }
    }
}

pub proof fn lemma_reveal_count_concat(a: Seq<GameEvent>, b: Seq<GameEvent>)
    ensures
        reveal_count(a + b) == reveal_count(a) + reveal_count(b),
    decreases b.len(),
{
    if b.len() > 0 {
        assert((a + b).drop_last() =~= a + b.drop_last());
        lemma_reveal_count_concat(a, b.drop_last());
    } else {
        assert(a + b =~= a);
    }
}

pub proof fn lemma_reveal_count_one(e: GameEvent)
    ensures
        reveal_count(seq![e]) == match e {
            GameEvent::RevealTile(_, _, _) => 1nat,
            _ => 0nat,
        },
{
    assert(seq![e].drop_last() =~= Seq::<GameEvent>::empty());
    assert(seq![e].last() == e);
    assert(reveal_count(Seq::<GameEvent>::empty()) == 0);
}

pub proof fn lemma_reveal_count_cascade(g: BoardModel, order: Seq<(usize, usize)>, m: nat)
    requires
        m + 1 <= order.len(),
    ensures
        reveal_count(Seq::new(m, |i: int| reveal_event(g, order[i + 1]))) == m,
    decreases m,
{
    if m > 0 {
        assert(Seq::new(m, |i: int| reveal_event(g, order[i + 1])).drop_last() =~= Seq::new(
            (m - 1) as nat,
            |i: int| reveal_event(g, order[i + 1]),
        ));
        lemma_reveal_count_cascade(g, order, (m - 1) as nat);
    }
}

/// Every sweep raises `revealed_tiles` by exactly the number of `RevealTile`
/// events it reports.
pub proof fn lemma_sweep_reveal_count(
    b: BoardModel,
    x: usize,
    y: usize,
    new: BoardModel,
    emitted: Seq<GameEvent>,
    r: Option<GameState>,
)
    requires
        b.wf(),
        b.sweeps_to(x, y, new, emitted, r),
    ensures
        new.revealed_tiles == b.revealed_tiles + reveal_count(emitted),
{
    if b.in_bounds(x as int, y as int) {
        let g = choose|g: BoardModel|
            {
                &&& (if b.generated {
                    g == b
                } else {
                    g.laid_out(b, x as int, y as int)
                })
                &&& #[trigger] g.sweep_outcome(x, y, new, emitted, r)
            };
        if !g.open_tile((x, y)) {
        } else if g.at((x, y)).state == TileState::Mine {
            let (e0, e1, e2) = (seq![emitted[0]], seq![emitted[1]], seq![emitted[2]]);
            assert(emitted =~= e0 + e1 + e2);
            lemma_reveal_count_one(emitted[0]);
            lemma_reveal_count_one(emitted[1]);
            lemma_reveal_count_one(emitted[2]);
            lemma_reveal_count_concat(e0, e1);
            lemma_reveal_count_concat(e0 + e1, e2);
            match emitted[2] {
                GameEvent::GameEnd(_) => {},
                _ => {},
            }
        } else {
            let order = choose|order: Seq<(usize, usize)>|
                {
                    &&& #[trigger] g.cascade((x, y), order)
                    &&& g.revealed_along(order, new)
                    &&& emitted.take(order.len() + 1int) == g.cascade_events(order)
                    &&& if new.revealed_tiles == new.non_mine_tiles {
                        &&& emitted.len() == order.len() + 3
                        &&& emitted[order.len() + 1int] == GameEvent::Win
                        &&& ends_game(emitted[order.len() + 2int], new)
                        &&& r == Some(GameState::Victory)
                    } else {
                        emitted.len() == order.len() + 1 && r.is_none()
                    }
                };
            let n = order.len();
            let head = seq![reveal_event(g, order[0]), GameEvent::SweepBegin];
            let tail = Seq::new((n - 1) as nat, |i: int| reveal_event(g, order[i + 1]));
            assert(head =~= seq![reveal_event(g, order[0])] + seq![GameEvent::SweepBegin]);
            lemma_reveal_count_one(reveal_event(g, order[0]));
            lemma_reveal_count_one(GameEvent::SweepBegin);
            lemma_reveal_count_concat(seq![reveal_event(g, order[0])], seq![GameEvent::SweepBegin]);
            lemma_reveal_count_concat(head, tail);
            lemma_reveal_count_cascade(g, order, (n - 1) as nat);
            if new.revealed_tiles == new.non_mine_tiles {
                let rest = emitted.skip(n + 1int);
                assert(emitted =~= emitted.take(n + 1int) + rest);
                assert(rest =~= seq![rest[0]] + seq![rest[1]]);
                lemma_reveal_count_one(rest[0]);
                lemma_reveal_count_one(rest[1]);
                lemma_reveal_count_concat(seq![rest[0]], seq![rest[1]]);
                match rest[1] {
                    GameEvent::GameEnd(_) => {},
                    _ => {},
                }
                lemma_reveal_count_concat(emitted.take(n + 1int), rest);
            } else {
                assert(emitted =~= emitted.take(n + 1int));
            }
        }
    }
}

/// The first sweep of a fresh board finds no mine on the clicked tile or around it.
pub proof fn lemma_first_sweep_safe(
    b: BoardModel,
    x: usize,
    y: usize,
    new: BoardModel,
    emitted: Seq<GameEvent>,
    r: Option<GameState>,
)
    requires
        b.wf(),
        !b.generated,
        b.sweeps_to(x, y, new, emitted, r),
    ensures
        forall|a: usize, c: usize|
            #![trigger new.tile(a as int, c as int)]
            new.in_bounds(a as int, c as int) && near(x as int, y as int, a as int, c as int)
                ==> new.tile(a as int, c as int).state == TileState::Empty,
{
    if b.in_bounds(x as int, y as int) {
        let g = choose|g: BoardModel|
            {
                &&& (if b.generated {
                    g == b
                } else {
                    g.laid_out(b, x as int, y as int)
                })
                &&& #[trigger] g.sweep_outcome(x, y, new, emitted, r)
            };
        assert forall|a: usize, c: usize|
            #![trigger new.tile(a as int, c as int)]
            new.in_bounds(a as int, c as int) && near(x as int, y as int, a as int, c as int)
                implies new.tile(a as int, c as int).state == TileState::Empty by {
            let _ = g.tile(a as int, c as int);
            if g.open_tile((x, y)) && g.at((x, y)).state == TileState::Mine {
                lemma_index(g.width as int, g.height as int, a as int, c as int);
                lemma_index(g.width as int, g.height as int, x as int, y as int);
                if (a, c) != (x, y) {
                    lemma_index_injective(
                        g.width as int,
                        g.height as int,
                        a as int,
                        c as int,
                        x as int,
                        y as int,
                    );
                }
            }
        }
    } else {
        assert forall|a: usize, c: usize|
            #![trigger new.tile(a as int, c as int)]
            new.in_bounds(a as int, c as int) && near(x as int, y as int, a as int, c as int)
                implies new.tile(a as int, c as int).state == TileState::Empty by {
            lemma_index(b.width as int, b.height as int, a as int, c as int);
        }
    }
}

/// On a generated board every empty tile holds the number of mines among its
/// neighbours, and every mine holds zero.
pub proof fn lemma_adjacency_exact(b: BoardModel)
    requires
        b.wf(),
        b.generated,
    ensures
        forall|x: int, y: int|
            #![trigger b.tile(x, y)]
            b.in_bounds(x, y) && b.tile(x, y).state == TileState::Empty ==> b.tile(x, y).adjacent
                == b.neighbor_mines(x, y, 8),
{
}

/// Flagging a hidden unmarked tile lowers the flags left by one, and clearing a
/// flag raises it by one; nothing stops the count from going below zero.
pub proof fn lemma_flag_count(b: BoardModel, x: int, y: int)
    requires
        b.wf(),
        b.in_bounds(x, y),
        !b.tile(x, y).swept,
    ensures
        b.tile(x, y).modifier.is_none() ==> b.modified(x, y).tile(x, y).is_flagged()
            && b.modified(x, y).remaining_flags() == b.remaining_flags() - 1,
        b.tile(x, y).is_flagged() ==> !b.modified(x, y).tile(x, y).is_flagged()
            && b.modified(x, y).remaining_flags() == b.remaining_flags() + 1,
{
    lemma_index(b.width as int, b.height as int, x, y);
    let k = b.index(x, y);
    lemma_count_update(b.tiles, flagged(), k, Tile { modifier: None, ..b.tiles[k] });
}

/// With no flag on the board, as many flags remain as there are mines.
pub proof fn lemma_no_flags(b: BoardModel)
    requires
        b.wf(),
        forall|k: int| 0 <= k < b.tiles.len() ==> !(#[trigger] b.tiles[k]).is_flagged(),
    ensures
        b.remaining_flags() == b.mines,
{
    lemma_count_none(b.tiles, flagged());
}

/// Under `ModifyMode::Flag`, modifying a flagged tile clears the flag and lowers
/// the flag count once; modifying it again flags it anew, which brings the
/// board back to where it was.
pub proof fn lemma_flag_toggle(b: BoardModel, x: int, y: int)
    requires
        b.wf(),
        b.in_bounds(x, y),
        b.tile(x, y).is_flagged(),
        b.modify_mode == ModifyMode::Flag,
    ensures
        b.modified(x, y).tile(x, y).modifier.is_none(),
        b.modified(x, y).flags == b.flags - 1,
        b.modified(x, y).modified(x, y) == b,
{
    lemma_index(b.width as int, b.height as int, x, y);
    let k = b.index(x, y);
    lemma_count_update(b.tiles, flagged(), k, Tile { modifier: None, ..b.tiles[k] });
    assert(b.modified(x, y).modified(x, y).tiles =~= b.tiles);
}

/// No tile is revealed but an empty one.
pub open spec fn no_mine_revealed(b: BoardModel) -> bool {
    forall|k: int|
        0 <= k < b.tiles.len() && (#[trigger] b.tiles[k]).swept ==> b.tiles[k].state
            == TileState::Empty
}

/// While no mine is revealed, the revealed tiles number at most the tiles
/// without a mine.
pub proof fn lemma_revealed_bounded(b: BoardModel)
    requires
        b.wf(),
        b.generated,
        no_mine_revealed(b),
    ensures
        b.revealed_tiles <= b.non_mine_tiles,
{
    let empty = |t: Tile| t.state == TileState::Empty;
    lemma_count_mono(b.tiles, swept(), empty);
    lemma_count_complement(b.tiles, empty, mined());
}

proof fn lemma_no_neighbor_mines(b: BoardModel, x: int, y: int, n: int)
    requires
        b.neighbor_mines(x, y, n) == 0,
    ensures
        forall|d: int| 0 <= d < n ==> !#[trigger] b.mine_at(x + dx(d), y + dy(d)),
    decreases n,
{
    if n > 0 {
        lemma_no_neighbor_mines(b, x, y, n - 1);
    }
}

/// A flood fill from an empty tile of a generated board reveals only empty tiles.
pub proof fn lemma_cascade_finds_no_mine(g: BoardModel, start: (usize, usize), order: Seq<(usize, usize)>)
    requires
        g.wf(),
        g.generated,
        g.cascade(start, order),
        g.at(start).state == TileState::Empty,
    ensures
        forall|i: int| 0 <= i < order.len() ==> g.at(#[trigger] order[i]).state == TileState::Empty,
{
    assert forall|i: int| 0 <= i < order.len() implies g.at(#[trigger] order[i]).state
        == TileState::Empty by {
        if i > 0 {
            assert(g.follows(order, i));
            let j = choose|j: int|
                0 <= j < i && g.expands(order[j]) && touching(order[j], order[i]);
            let p = order[j];
            let q = order[i];
            assert(g.open_tile(p));
            assert(g.open_tile(q));
            let _ = g.tile(p.0 as int, p.1 as int);
            lemma_no_neighbor_mines(g, p.0 as int, p.1 as int, 8);
            let d = lemma_direction(p, q);
            assert(!g.mine_at(p.0 + dx(d), p.1 + dy(d)));
        }
    }
}

/// A sweep that does not end the round in a loss reveals no mine: the tiles
/// revealed stay within the tiles without a mine.
pub proof fn lemma_sweep_keeps_mines_hidden(
    b: BoardModel,
    x: usize,
    y: usize,
    new: BoardModel,
    emitted: Seq<GameEvent>,
    r: Option<GameState>,
)
    requires
        b.wf(),
        new.wf(),
        no_mine_revealed(b),
        b.sweeps_to(x, y, new, emitted, r),
        r != Some(GameState::GameOver),
    ensures
        no_mine_revealed(new),
        new.generated ==> new.revealed_tiles <= new.non_mine_tiles,
{
    if b.in_bounds(x as int, y as int) {
        let g = choose|g: BoardModel|
            {
                &&& (if b.generated {
                    g == b
                } else {
                    g.laid_out(b, x as int, y as int)
                })
                &&& #[trigger] g.sweep_outcome(x, y, new, emitted, r)
            };
        assert(no_mine_revealed(g)) by {
            if !b.generated {
                assert forall|k: int| 0 <= k < g.tiles.len() && (#[trigger] g.tiles[k]).swept
                    implies g.tiles[k].state == TileState::Empty by {
                    lemma_position(g.width as int, g.height as int, k);
                    let (a, c) = (k / (g.height as int), k % (g.height as int));
                    let _ = g.tile(a, c);
                    let _ = b.tile(a, c);
                }
            }
        }
        if g.open_tile((x, y)) && g.at((x, y)).state == TileState::Empty {
            let order = choose|order: Seq<(usize, usize)>|
                {
                    &&& #[trigger] g.cascade((x, y), order)
                    &&& g.revealed_along(order, new)
                    &&& emitted.take(order.len() + 1int) == g.cascade_events(order)
                    &&& if new.revealed_tiles == new.non_mine_tiles {
                        &&& emitted.len() == order.len() + 3
                        &&& emitted[order.len() + 1int] == GameEvent::Win
                        &&& ends_game(emitted[order.len() + 2int], new)
                        &&& r == Some(GameState::Victory)
                    } else {
                        emitted.len() == order.len() + 1 && r.is_none()
                    }
                };
            lemma_cascade_finds_no_mine(g, (x, y), order);
            assert forall|k: int| 0 <= k < new.tiles.len() && (#[trigger] new.tiles[k]).swept
                implies new.tiles[k].state == TileState::Empty by {
                lemma_position(g.width as int, g.height as int, k);
                let (a, c) = ((k / (g.height as int)) as usize, (k % (g.height as int)) as usize);
                let _ = new.tile(a as int, c as int);
                let _ = g.tile(a as int, c as int);
                if order.contains((a, c)) {
                    let i = choose|i: int| 0 <= i < order.len() && order[i] == (a, c);
                    let _ = g.at(order[i]);
                }
            }
        }
    }
    if new.generated {
        lemma_revealed_bounded(new);
    }
}

} // verus!
