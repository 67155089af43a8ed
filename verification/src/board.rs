use vstd::prelude::*;
use crate::grid::{grid_view, in_bounds, in_play, well_shaped, with_tile, Grid};
use crate::tile::{delta, Bomb, CurrentGame, Tile, DELTAS, HEIGHT, WIDTH};

verus! {

/// The whole state of a game: the grid, where the game stands, and how many
/// mines are left to flag.
#[derive(Clone, Copy, Debug)]
pub struct Board {
    pub board: [[Tile; WIDTH]; HEIGHT],
    pub state: CurrentGame,
    pub score: i32,
    pub bombs: i32,
}

impl Default for Board {
    /// The board before any game: no mine, nothing revealed, nothing flagged.
    fn default() -> (b: Board)
        ensures
            b.state == CurrentGame::Starting,
            b.score == 0,
            b.bombs == 0,
            forall|x: int, y: int|
                in_bounds(x, y) ==> #[trigger] b.grid()[y][x] == (Tile {
                    bomb: Bomb::Bombs(0),
                    revealed: false,
                    flagged: false,
                }),
    {
        let blank = Tile { bomb: Bomb::Bombs(0), revealed: false, flagged: false };
        Board { board: blank_grid(blank), state: CurrentGame::Starting, score: 0, bombs: 0 }
    }
}

impl Board {
    /// The grid of this board, as rows of tiles.
    pub open spec fn grid(&self) -> Grid {
        grid_view(self.board)
    }

    /// The grid of this board is one of a game in play.
    pub open spec fn in_play(&self) -> bool {
        in_play(self.grid())
    }

    /// The board itself.
    pub fn get_board(self) -> (b: Board)
        ensures
            b == self,
    {
        self
    }
}

/// A grid that holds `t` everywhere.
pub fn blank_grid(t: Tile) -> (board: [[Tile; WIDTH]; HEIGHT])
    ensures
        forall|x: int, y: int| in_bounds(x, y) ==> #[trigger] grid_view(board)[y][x] == t,
{
    let row = [t; WIDTH];
    let board = [row; HEIGHT];
    proof {
        assert(row == vstd::array::spec_array_fill_for_copy_type::<Tile, WIDTH>(t));
        assert(board == vstd::array::spec_array_fill_for_copy_type::<[Tile; WIDTH], HEIGHT>(row));
    }
    board
}

/// The tile at `(x, y)`.
pub fn get_tile(board: &[[Tile; WIDTH]; HEIGHT], x: usize, y: usize) -> (t: Tile)
    requires
        in_bounds(x as int, y as int),
    ensures
        t == grid_view(*board)[y as int][x as int],
{
    board[y][x]
}

/// Puts the tile `t` at `(x, y)`.
pub fn set_tile(board: &mut [[Tile; WIDTH]; HEIGHT], x: usize, y: usize, t: Tile)
    requires
        in_bounds(x as int, y as int),
    ensures
        grid_view(*final(board)) == with_tile(grid_view(*old(board)), x as int, y as int, t),
        well_shaped(grid_view(*final(board))),
        forall|cx: int, cy: int|
            in_bounds(cx, cy) ==> #[trigger] grid_view(*final(board))[cy][cx] == (if cx == x && cy
                == y {
                t
            } else {
                grid_view(*old(board))[cy][cx]
            }),
{
    let ghost before = grid_view(*board);
    board[y][x] = t;
    assert(grid_view(*board) =~~= with_tile(before, x as int, y as int, t));
}

/// The neighbour of `(x, y)` that the step `DELTAS[k]` leads to, where it
/// lies on the grid.
pub fn neighbour(x: usize, y: usize, k: usize) -> (r: Option<(usize, usize)>)
    requires
        in_bounds(x as int, y as int),
        k < 8,
    ensures
        r == (if in_bounds(x + delta(k as int).0, y + delta(k as int).1) {
            Some(((x + delta(k as int).0) as usize, (y + delta(k as int).1) as usize))
        } else {
            None
        }),
{
    let (dx, dy) = DELTAS[k];
    let nx: i32 = x as i32 + dx;
    let ny: i32 = y as i32 + dy;
    if ny > HEIGHT as i32 - 1 || ny < 0 || nx > WIDTH as i32 - 1 || nx < 0 {
        None
    } else {
        Some((nx as usize, ny as usize))
    }
}

} // verus!
