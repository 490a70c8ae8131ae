//! Players: pawn colours, movement directions and per-player counters.
use vstd::prelude::*;

verus! {

/// Walls each player receives in a two-player game.
pub const WALL_COUNT_2_PLAYERS: isize = 10;

/// Walls each player receives in a four-player game.
pub const WALL_COUNT_4_PLAYERS: isize = 5;

/// Player pawn colour; each colour races to its own board edge.
#[derive(PartialEq, Eq, Structural, Clone, Copy, Debug, Hash)]
pub enum Color {
    Red,
    Blue,
    Green,
    Yellow,
}

/// Direction of a pawn move. The diagonal directions are only used when a
/// pawn steps around another pawn it cannot jump straight over.
#[derive(PartialEq, Eq, Structural, Clone, Copy, Debug, Hash)]
pub enum Direction {
    N,
    E,
    S,
    W,
    NE,
    NW,
    SE,
    SW,
}

/// A player: its colour, the walls it has left and how often it has won.
pub struct Player {
    id: Color,
    wins: usize,
    wall_cntr: isize,
}

impl Player {
    /// The player's colour.
    pub closed spec fn color(&self) -> Color {
        self.id
    }

    /// How many games the player has won.
    pub closed spec fn win_total(&self) -> nat {
        self.wins as nat
    }

    /// How many walls the player may still place.
    pub closed spec fn walls_left(&self) -> int {
        self.wall_cntr as int
    }

    /// A player of the given colour with no wins and the two-player wall allowance.
    pub fn new(id: Color) -> (r: Self)
        ensures
            r.color() == id,
            r.win_total() == 0,
            r.walls_left() == WALL_COUNT_2_PLAYERS,
    {
        Player { id, wins: 0, wall_cntr: WALL_COUNT_2_PLAYERS }
    }

    /// A player of the given colour with no wins and `walls` walls to place.
    pub fn with_walls(id: Color, walls: isize) -> (r: Self)
        requires
            walls >= 0,
        ensures
            r.color() == id,
            r.win_total() == 0,
            r.walls_left() == walls,
    {
        Player { id, wins: 0, wall_cntr: walls }
    }

    /// Retrieve the player's identifying colour.
    pub fn get_id(&self) -> (r: Color)
        ensures
            r == self.color(),
    {
        self.id
    }

    /// Retrieve the number of times the player has won.
    pub fn get_win_count(&self) -> (r: usize)
        ensures
            r as nat == self.win_total(),
    {
        self.wins
    }

    /// Records one more win.
    pub fn player_won(&mut self)
        requires
            old(self).win_total() < usize::MAX,
        ensures
            final(self).win_total() == old(self).win_total() + 1,
            final(self).color() == old(self).color(),
            final(self).walls_left() == old(self).walls_left(),
    {
        self.wins = self.wins + 1;
    }

    /// Retrieve the number of walls the player may still place.
    pub fn get_wall_count(&self) -> (r: isize)
        ensures
            r as int == self.walls_left(),
    {
        self.wall_cntr
    }

    /// Records the use of one wall; the count never drops below zero.
    pub fn use_wall(&mut self)
        ensures
            final(self).walls_left() == if old(self).walls_left() > 0 {
                old(self).walls_left() - 1
            } else {
                old(self).walls_left()
            },
            final(self).color() == old(self).color(),
            final(self).win_total() == old(self).win_total(),
    {
        if self.wall_cntr <= 0 {
            return;
        }
        self.wall_cntr = self.wall_cntr - 1;
    }
}

} // verus!
