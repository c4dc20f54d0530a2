use vstd::prelude::*;
use crate::events::Events;
use crate::board_model::{lemma_highlight_keeps_wf, BoardModel};
use crate::game_board::{BoardError, GameBoard};
use crate::tile::Tile;
use crate::timer::{Timer, TimerModel, TimerState};

verus! {

/// Where a round stands.
#[derive(Clone, Copy, PartialEq, Eq, Debug, Structural)]
pub enum GameState {
    Empty,
    Playing,
    GameOver,
    Victory,
}

impl Default for GameState {
    fn default() -> (r: GameState)
        ensures
            r == GameState::Empty,
    {
        GameState::Empty
    }
}

/// What the engine reports to its observers.
pub enum GameEvent {
    Lose(usize, usize, Tile),
    RevealTile(usize, usize, Tile),
    FlagTile(usize, usize, Tile),
    QuestionTile(usize, usize, Tile),
    SweepDone,
    SweepBegin,
    InitDone,
    Win,
    Reset,
    GameEnd(GameBoard),
}

/// A round of Minesweeper: the board, the clock and the event outbox behind a
/// small state machine (empty, playing, game over or victory).
pub struct Minesweeper {
    pub board: GameBoard,
    pub events: Events<GameEvent>,
    pub state: GameState,
    pub timer: Timer,
}

/// The round is over.
pub open spec fn terminal(s: GameState) -> bool {
    s == GameState::GameOver || s == GameState::Victory
}

impl Minesweeper {
    pub open spec fn wf(&self) -> bool {
        self.board@.wf()
    }

    /// What a reveal at (x, y) at time `now` does to a round that is not over:
    /// `next` is the round after it and `r` what the board's sweep returned.
    pub open spec fn reveal_outcome(
        self,
        x: usize,
        y: usize,
        now: u64,
        next: Minesweeper,
        r: Option<GameState>,
    ) -> bool {
        let started = if self.state == GameState::Empty {
            TimerModel {
                start_time: Some(now),
                state: TimerState::Running,
                ..self.timer@
            }
        } else {
            self.timer@
        };
        let pre = if self.state == GameState::Empty {
            self.events@.push(GameEvent::InitDone)
        } else {
            self.events@
        };
        &&& self.board@.sweeps_to(
            x,
            y,
            next.board@,
            next.events@.subrange(
                pre.len() as int,
                next.events@.len() - 1,
            ),
            r,
        )
        &&& next.events@.len() >= pre.len() + 1
        &&& next.events@.take(pre.len() as int) == pre
        &&& next.events@.last() == GameEvent::SweepDone
        &&& next.state == match r {
            Some(s) => s,
            None => GameState::Playing,
        }
        &&& next.timer@ == if r.is_some() && terminal(r.unwrap()) {
            TimerModel {
                state: TimerState::Frozen,
                frozen: match started.elapsed_at(now) {
                    Some(e) => e,
                    None => 0,
                },
                ..started
            }
        } else {
            started
        }
    }

    /// A new round on a board of the given size.
    pub fn new(width: usize, height: usize, mines: usize) -> (r: Result<Minesweeper, BoardError>)
        requires
            width * height <= isize::MAX,
        ensures
            r.is_ok() == crate::board_model::valid_size(width as nat, height as nat, mines as nat),
            r.is_ok() ==> {
                let g = r.unwrap();
                &&& g.wf()
                &&& g.board@ == BoardModel::fresh(
                    width as nat,
                    height as nat,
                    mines as nat,
                    crate::game_board::ModifyMode::Flag,
                )
                &&& g.state == GameState::Empty
                &&& g.events@.len() == 0
                &&& g.timer@.state == TimerState::Stopped
                &&& g.timer@.start_time.is_none()
            },
            r.is_err() ==> r == Err::<Minesweeper, BoardError>(
                crate::board_model::size_error(width as nat, height as nat),
            ),
    {
        match GameBoard::new(width, height, mines) {
            Ok(board) => Ok(Minesweeper {
                board,
                events: Events::new(),
                state: GameState::Empty,
                timer: Timer::new(),
            }),
            Err(e) => Err(e),
        }
    }

    /// Starts the round over: fresh board, stopped clock, an outbox holding only `Reset`.
    pub fn reset(&mut self)
        requires
            old(self).wf(),
        ensures
            final(self).wf(),
            final(self).board@ == BoardModel::fresh(
                old(self).board@.width,
                old(self).board@.height,
                old(self).board@.mines,
                old(self).board@.modify_mode,
            ),
            final(self).state == GameState::Empty,
            final(self).events@ == seq![GameEvent::Reset],
            final(self).timer@.state == TimerState::Stopped,
            final(self).timer@.start_time.is_none(),
            forall|now: u64| (#[trigger] final(self).timer@.elapsed_at(now)).is_none(),
    {
        self.board.reset();
        self.state = GameState::Empty;
        self.events.clear();
        self.events.add(GameEvent::Reset);
        self.timer.clear();
        assert(self.events@ =~= seq![GameEvent::Reset]);
    }

    /// Resizes the board, then starts the round over; a refused size changes nothing.
    pub fn update_and_reset(&mut self, width: usize, height: usize, mines: usize) -> (r: Result<
        (),
        BoardError,
    >)
        requires
            old(self).wf(),
            width * height <= isize::MAX,
        ensures
            final(self).wf(),
            r.is_ok() == crate::board_model::valid_size(width as nat, height as nat, mines as nat),
            r.is_ok() ==> {
                &&& final(self).board@ == BoardModel::fresh(
                    width as nat,
                    height as nat,
                    mines as nat,
                    old(self).board@.modify_mode,
                )
                &&& final(self).state == GameState::Empty
                &&& final(self).events@ == seq![GameEvent::Reset]
                &&& final(self).timer@.state == TimerState::Stopped
                &&& final(self).timer@.start_time.is_none()
            },
            r.is_err() ==> r == Err::<(), BoardError>(
                crate::board_model::size_error(width as nat, height as nat),
            ) && final(self).board@ == old(self).board@ && final(self).state == old(self).state
                && final(self).events@ == old(self).events@ && final(self).timer@
                == old(self).timer@,
    {
        match self.board.update(width, height, mines) {
            Ok(()) => {
                self.reset();
                Ok(())
            },
            Err(e) => Err(e),
        }
    }

    /// The player reveals (x, y) at time `now`. The first reveal of a round starts
    /// the clock and the round; a finished round ignores it.
    pub fn reveal_tile(&mut self, x: usize, y: usize, now: u64)
        requires
            old(self).wf(),
        ensures
            final(self).wf(),
            terminal(old(self).state) ==> final(self).board@ == old(self).board@
                && final(self).state == old(self).state && final(self).events@ == old(self).events@
                && final(self).timer@ == old(self).timer@,
            !terminal(old(self).state) ==> exists|r: Option<GameState>|
                #[trigger] old(self).reveal_outcome(x, y, now, *final(self), r),
    {
        let ghost b0 = self.board@;
        if self.state == GameState::Empty {
            self.timer.start(now);
            self.state = GameState::Playing;
            self.events.add(GameEvent::InitDone);
        }
        if self.state != GameState::Playing {
            return;
        }
        let ghost pre = self.events@;
        let ghost started = self.timer@;
        let r = self.board.sweep(x, y, &mut self.events);
        if let Some(state) = r {
            if state == GameState::GameOver || state == GameState::Victory {
                self.timer.stop(now);
            }
            self.state = state;
        }
        let ghost mid = self.events@;
        self.events.add(GameEvent::SweepDone);
        proof {
            assert(self.events@.subrange(pre.len() as int, self.events@.len() - 1) =~= mid.skip(
                pre.len() as int,
            ));
            assert(self.events@.take(pre.len() as int) =~= mid.take(pre.len() as int));
            assert(old(self).reveal_outcome(x, y, now, *self, r));
        }
    }

    /// The player cycles the marker at (x, y); only while playing.
    pub fn modify(&mut self, x: usize, y: usize)
        requires
            old(self).wf(),
        ensures
            final(self).wf(),
            final(self).state == old(self).state,
            final(self).timer@ == old(self).timer@,
            old(self).state == GameState::Playing ==> final(self).board@ == old(self).board@.modified(
                x as int,
                y as int,
            ) && final(self).events@ == old(self).events@ + old(self).board@.modify_events(
                x as int,
                y as int,
            ),
            old(self).state != GameState::Playing ==> final(self).board@ == old(self).board@
                && final(self).events@ == old(self).events@,
    {
        if self.state != GameState::Playing {
            return;
        }
        self.board.modify(x, y, &mut self.events)
    }

    /// Time elapsed in the round when the clock reads `now`.
    pub fn get_time(&self, now: u64) -> (r: Option<u64>)
        ensures
            r == self.timer@.elapsed_at(now),
    {
        self.timer.elapsed(now)
    }

    /// Highlights the hidden tile at (x, y), unless the round is over.
    pub fn highlight(&mut self, x: usize, y: usize)
        requires
            old(self).wf(),
        ensures
            final(self).wf(),
            final(self).state == old(self).state,
            final(self).events@ == old(self).events@,
            final(self).timer@ == old(self).timer@,
            final(self).board@ == if !terminal(old(self).state) && old(self).board@.in_bounds(
                x as int,
                y as int,
            ) && !old(self).board@.tile(x as int, y as int).swept {
                old(self).board@.with_tile(
                    x as int,
                    y as int,
                    Tile { highlighted: true, ..old(self).board@.tile(x as int, y as int) },
                )
            } else {
                old(self).board@
            },
    {
        if self.state == GameState::Playing || self.state == GameState::Empty {
            let ghost b = self.board@;
            if let Some(tile) = self.board.get_tile_mut(x, y) {
                tile.highlight();
            }
            proof {
                if b.in_bounds(x as int, y as int) {
                    let t = b.tile(x as int, y as int);
                    if !t.swept {
                        lemma_highlight_keeps_wf(b, x as int, y as int, Tile { highlighted: true, ..t });
                    } else {
                        crate::board_model::lemma_index(b.width as int, b.height as int, x as int, y as int);
                        assert(b.tiles.update(b.index(x as int, y as int), t) =~= b.tiles);
                    }
                }
            }
        }
    }

    /// Clears the highlight of the tile at (x, y), unless the round is over.
    pub fn remove_highlight(&mut self, x: usize, y: usize)
        requires
            old(self).wf(),
        ensures
            final(self).wf(),
            final(self).state == old(self).state,
            final(self).events@ == old(self).events@,
            final(self).timer@ == old(self).timer@,
            final(self).board@ == if !terminal(old(self).state) && old(self).board@.in_bounds(
                x as int,
                y as int,
            ) {
                old(self).board@.with_tile(
                    x as int,
                    y as int,
                    Tile { highlighted: false, ..old(self).board@.tile(x as int, y as int) },
                )
            } else {
                old(self).board@
            },
    {
        if self.state == GameState::Playing || self.state == GameState::Empty {
            let ghost b = self.board@;
            if let Some(tile) = self.board.get_tile_mut(x, y) {
                tile.remove_highlight();
            }
            proof {
                if b.in_bounds(x as int, y as int) {
                    let t = b.tile(x as int, y as int);
                    lemma_highlight_keeps_wf(b, x as int, y as int, Tile { highlighted: false, ..t });
                }
            }
        }
    }
}

} // verus!
