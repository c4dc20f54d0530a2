use vstd::prelude::*;

verus! {

/// What a tile holds: fixed once the mine field is generated.
#[derive(Clone, Copy, PartialEq, Eq, Debug, Structural)]
pub enum TileState {
    Empty,
    Mine,
}

/// A player-applied marker; a tile carries at most one.
#[derive(Clone, Copy, PartialEq, Eq, Debug, Structural)]
pub enum TileModifier {
    Flagged,
    Unsure,
}

/// One cell of the board.
#[derive(Clone, Copy, Debug)]
pub struct Tile {
    pub state: TileState,
    pub modifier: Option<TileModifier>,
    pub swept: bool,
    /// Number of neighbouring mines; meaningful for `Empty` tiles only.
    pub adjacent: u8,
    /// Marks the protected first-click neighbourhood during generation.
    pub safe: bool,
    pub highlighted: bool,
}

impl Tile {
    /// A fresh tile: empty, unswept, unmarked.
    pub fn new() -> (r: Tile)
        ensures
            r == Tile::fresh(),
    {
        Tile {
            state: TileState::Empty,
            modifier: None,
            swept: false,
            adjacent: 0,
            safe: false,
            highlighted: false,
        }
    }

    pub open spec fn fresh() -> Tile {
        Tile {
            state: TileState::Empty,
            modifier: None,
            swept: false,
            adjacent: 0,
            safe: false,
            highlighted: false,
        }
    }

    pub open spec fn is_mine(self) -> bool {
        self.state == TileState::Mine
    }

    pub open spec fn is_flagged(self) -> bool {
        self.modifier == Some(TileModifier::Flagged)
    }

    /// Counts one more neighbouring mine; mines themselves keep no count.
    pub fn increment_adjacent(&mut self)
        requires
            old(self).state == TileState::Empty ==> old(self).adjacent < 255,
        ensures
            *final(self) == (if old(self).state == TileState::Empty {
                Tile { adjacent: (old(self).adjacent + 1) as u8, ..*old(self) }
            } else {
                *old(self)
            }),
    {
        if self.state == TileState::Empty {
            self.adjacent = self.adjacent + 1;
        }
    }

    /// Highlights the tile unless it is already revealed.
    pub fn highlight(&mut self)
        ensures
            *final(self) == (if !old(self).swept {
                Tile { highlighted: true, ..*old(self) }
            } else {
                *old(self)
            }),
    {
        if !self.swept {
            self.highlighted = true;
        }
    }

    pub fn remove_highlight(&mut self)
        ensures
            *final(self) == (Tile { highlighted: false, ..*old(self) }),
    {
        self.highlighted = false;
    }
}

impl Default for Tile {
    fn default() -> (r: Tile)
        ensures
            r == Tile::fresh(),
    {
        Tile::new()
    }
}

} // verus!
