use vstd::prelude::*;

verus! {

/// Number of columns of the grid.
pub const WIDTH: usize = 30;

/// Number of rows of the grid.
pub const HEIGHT: usize = 16;

/// Number of mines on a generated grid.
pub const BOMBS: usize = 99;

/// The eight steps from a tile to its neighbours, as `(dx, dy)`, in the
/// order in which the neighbours are visited.
pub const DELTAS: [(i32, i32); 8] = [
    (0, 1),
    (1, 1),
    (1, 0),
    (1, -1),
    (0, -1),
    (-1, -1),
    (-1, 0),
    (-1, 1),
];

/// What a tile hides: a mine, or the number of mines around it.
#[derive(Clone, Copy, Debug, PartialEq, Eq, PartialOrd, Structural)]
pub enum Bomb {
    IsBomb,
    Bombs(u8),
}

impl Default for Bomb {
    fn default() -> (b: Bomb)
        ensures
            b == Bomb::Bombs(0),
    {
        Bomb::Bombs(0)
    }
}

/// One cell of the grid.
#[derive(Clone, Copy, Debug, PartialEq, Eq, Structural)]
pub struct Tile {
    pub bomb: Bomb,
    pub revealed: bool,
    pub flagged: bool,
}

impl Default for Tile {
    fn default() -> (t: Tile)
        ensures
            t == (Tile { bomb: Bomb::Bombs(0), revealed: false, flagged: false }),
    {
        Tile { bomb: Bomb::Bombs(0), revealed: false, flagged: false }
    }
}

/// Where a game stands.
#[derive(Clone, Copy, Debug, PartialEq, Eq, Structural)]
pub enum CurrentGame {
    Starting,
    Ongoing,
    Win,
    Lose,
}

impl Default for CurrentGame {
    fn default() -> (s: CurrentGame)
        ensures
            s == CurrentGame::Starting,
    {
        CurrentGame::Starting
    }
}

/// A coordinate pair `(x, y)`: column, then row.
#[derive(Clone, Copy, Debug, PartialEq, Eq, Structural)]
pub struct Point(pub i32, pub i32);

/// The step `DELTAS[k]` as a pair of mathematical integers.
pub open spec fn delta(k: int) -> (int, int) {
    (DELTAS[k].0 as int, DELTAS[k].1 as int)
}

} // verus!
