use vstd::prelude::*;
use crate::board::{get_tile, Board};
use crate::grid::{
    flag_count, flag_pred, grid_count, in_bounds, is_mine, row_count, well_shaped, Grid,
};
use crate::tile::{Bomb, CurrentGame, Tile, BOMBS, HEIGHT, WIDTH};

verus! {

/// Some mine is revealed.
pub open spec fn mine_revealed(g: Grid) -> bool {
    exists|x: int, y: int| in_bounds(x, y) && is_mine(g, x, y) && (#[trigger] g[y][x]).revealed
}

/// Some tile that is no mine carries a flag.
pub open spec fn safe_tile_flagged(g: Grid) -> bool {
    exists|x: int, y: int| in_bounds(x, y) && !is_mine(g, x, y) && (#[trigger] g[y][x]).flagged
}

/// Every tile that is no mine is revealed.
pub open spec fn all_safe_revealed(g: Grid) -> bool {
    forall|x: int, y: int| in_bounds(x, y) && !is_mine(g, x, y) ==> (#[trigger] g[y][x]).revealed
}

/// The game is won: no tile that is no mine carries a flag, and either
/// there are as many flags as mines in a game, or every tile that is no mine
/// is revealed.
pub open spec fn won(g: Grid) -> bool {
    !safe_tile_flagged(g) && (flag_count(g) == BOMBS || all_safe_revealed(g))
}

/// Where a game stands on the grid `g`, having stood at `state`: lost once
/// a mine is revealed, else won once `won` holds, else where it stood.
pub open spec fn evaluate(g: Grid, state: CurrentGame) -> CurrentGame {
    if mine_revealed(g) {
        CurrentGame::Lose
    } else if won(g) {
        CurrentGame::Win
    } else {
        state
    }
}

/// The number of mines in a game less the number of flags on the grid.
pub open spec fn mines_left(g: Grid) -> int {
    BOMBS - flag_count(g)
}

/// `(x, y)` comes before `(col, row)` when the grid is read row by row.
pub open spec fn scanned(x: int, y: int, col: int, row: int) -> bool {
    y < row || (y == row && x < col)
}

/// Some tile before `(col, row)` satisfies `p`.
pub open spec fn found(g: Grid, p: spec_fn(Tile) -> bool, col: int, row: int) -> bool {
    exists|x: int, y: int| in_bounds(x, y) && scanned(x, y, col, row) && p(#[trigger] g[y][x])
}

/// What makes a tile a revealed mine.
pub open spec fn exposed_pred() -> spec_fn(Tile) -> bool {
    |t: Tile| t.bomb == Bomb::IsBomb && t.revealed
}

/// What makes a tile a flagged tile that is no mine.
pub open spec fn misflag_pred() -> spec_fn(Tile) -> bool {
    |t: Tile| t.bomb != Bomb::IsBomb && t.flagged
}

/// What makes a tile a hidden tile that is no mine.
pub open spec fn covered_pred() -> spec_fn(Tile) -> bool {
    |t: Tile| t.bomb != Bomb::IsBomb && !t.revealed
}

/// Reading one tile more finds what was found before, or that tile.
pub proof fn lemma_found_next(g: Grid, p: spec_fn(Tile) -> bool, col: int, row: int)
    requires
        in_bounds(col, row),
    ensures
        found(g, p, col + 1, row) == (found(g, p, col, row) || p(g[row][col])),
{
    if found(g, p, col + 1, row) {
        let (x, y) = choose|x: int, y: int|
            in_bounds(x, y) && scanned(x, y, col + 1, row) && p(#[trigger] g[y][x]);
        if !(x == col && y == row) {
            assert(scanned(x, y, col, row));
        }
    }
    if found(g, p, col, row) {
        let (x, y) = choose|x: int, y: int|
            in_bounds(x, y) && scanned(x, y, col, row) && p(#[trigger] g[y][x]);
        assert(scanned(x, y, col + 1, row));
    }
    if p(g[row][col]) {
        assert(scanned(col, row, col + 1, row));
    }
}

/// The end of a row is the start of the next.
pub proof fn lemma_found_row(g: Grid, p: spec_fn(Tile) -> bool, row: int)
    ensures
        found(g, p, WIDTH as int, row) == found(g, p, 0, row + 1),
{
    if found(g, p, WIDTH as int, row) {
        let (x, y) = choose|x: int, y: int|
            in_bounds(x, y) && scanned(x, y, WIDTH as int, row) && p(#[trigger] g[y][x]);
        assert(scanned(x, y, 0, row + 1));
    }
    if found(g, p, 0, row + 1) {
        let (x, y) = choose|x: int, y: int|
            in_bounds(x, y) && scanned(x, y, 0, row + 1) && p(#[trigger] g[y][x]);
        assert(scanned(x, y, WIDTH as int, row));
    }
}

/// Reading the whole grid finds a revealed mine, a flag on a tile that is
/// no mine, or a hidden tile that is no mine, where there is one.
pub proof fn lemma_found_all(g: Grid)
    ensures
        found(g, exposed_pred(), 0, HEIGHT as int) == mine_revealed(g),
        found(g, misflag_pred(), 0, HEIGHT as int) == safe_tile_flagged(g),
        found(g, covered_pred(), 0, HEIGHT as int) == !all_safe_revealed(g),
{
    if found(g, exposed_pred(), 0, HEIGHT as int) {
        let (x, y) = choose|x: int, y: int|
            in_bounds(x, y) && scanned(x, y, 0, HEIGHT as int) && exposed_pred()(
                #[trigger] g[y][x],
            );
        assert(is_mine(g, x, y) && g[y][x].revealed);
    }
    if mine_revealed(g) {
        let (x, y) = choose|x: int, y: int|
            in_bounds(x, y) && is_mine(g, x, y) && (#[trigger] g[y][x]).revealed;
        assert(scanned(x, y, 0, HEIGHT as int) && exposed_pred()(g[y][x]));
    }
    if found(g, misflag_pred(), 0, HEIGHT as int) {
        let (x, y) = choose|x: int, y: int|
            in_bounds(x, y) && scanned(x, y, 0, HEIGHT as int) && misflag_pred()(
                #[trigger] g[y][x],
            );
        assert(!is_mine(g, x, y) && g[y][x].flagged);
    }
    if safe_tile_flagged(g) {
        let (x, y) = choose|x: int, y: int|
            in_bounds(x, y) && !is_mine(g, x, y) && (#[trigger] g[y][x]).flagged;
        assert(scanned(x, y, 0, HEIGHT as int) && misflag_pred()(g[y][x]));
    }
    if found(g, covered_pred(), 0, HEIGHT as int) {
        let (x, y) = choose|x: int, y: int|
            in_bounds(x, y) && scanned(x, y, 0, HEIGHT as int) && covered_pred()(
                #[trigger] g[y][x],
            );
        assert(!is_mine(g, x, y) && !g[y][x].revealed);
    }
    if !all_safe_revealed(g) {
        let (x, y) = choose|x: int, y: int|
            in_bounds(x, y) && !is_mine(g, x, y) && !(#[trigger] g[y][x]).revealed;
        assert(scanned(x, y, 0, HEIGHT as int) && covered_pred()(g[y][x]));
    }
}

impl Board {
    /// Works out where the game stands and how many mines are left to flag.
    ///
    /// The game is lost once a mine is revealed. Otherwise it is won once
    /// no tile that is no mine carries a flag and either `BOMBS` tiles are
    /// flagged or every tile that is no mine is revealed. Otherwise it
    /// stands where it stood.
    pub fn check_game_state(&mut self)
        ensures
            final(self).state == evaluate(old(self).grid(), old(self).state),
            final(self).bombs == mines_left(old(self).grid()),
            final(self).board == old(self).board,
            final(self).score == old(self).score,
    {
        let ghost g = self.grid();
        let mut bomb_revealed = false;
        let mut not_bomb_tile_flagged = false;
        let mut not_bomb_tile_hidden = false;
        let mut tiles_flagged: i32 = 0;
        assert(well_shaped(g));

        let mut y: usize = 0;
        while y < HEIGHT
            invariant
                y <= HEIGHT,
                well_shaped(g),
                g == self.grid(),
                *self == *old(self),
                bomb_revealed == found(g, exposed_pred(), 0, y as int),
                not_bomb_tile_flagged == found(g, misflag_pred(), 0, y as int),
                not_bomb_tile_hidden == found(g, covered_pred(), 0, y as int),
                tiles_flagged == grid_count(g, flag_pred(), y as int),
                tiles_flagged <= y * WIDTH,
            decreases HEIGHT - y,
        {
            let mut x: usize = 0;
            while x < WIDTH
                invariant
                    y < HEIGHT,
                    x <= WIDTH,
                    well_shaped(g),
                    g == self.grid(),
                    *self == *old(self),
                    bomb_revealed == found(g, exposed_pred(), x as int, y as int),
                    not_bomb_tile_flagged == found(g, misflag_pred(), x as int, y as int),
                    not_bomb_tile_hidden == found(g, covered_pred(), x as int, y as int),
                    tiles_flagged == grid_count(g, flag_pred(), y as int) + row_count(
                        g[y as int],
                        flag_pred(),
                        x as int,
                    ),
                    tiles_flagged <= y * WIDTH + x,
                decreases WIDTH - x,
            {
                let tile = get_tile(&self.board, x, y);
                proof {
                    lemma_found_next(g, exposed_pred(), x as int, y as int);
                    lemma_found_next(g, misflag_pred(), x as int, y as int);
                    lemma_found_next(g, covered_pred(), x as int, y as int);
                }
                if tile.flagged {
                    if tile.bomb != Bomb::IsBomb {
                        not_bomb_tile_flagged = true;
                    }
                    tiles_flagged = tiles_flagged + 1;
                }
                if tile.revealed {
                    if tile.bomb == Bomb::IsBomb {
                        bomb_revealed = true;
                    }
                } else if tile.bomb != Bomb::IsBomb {
                    not_bomb_tile_hidden = true;
                }
                x = x + 1;
            }
            proof {
                lemma_found_row(g, exposed_pred(), y as int);
                lemma_found_row(g, misflag_pred(), y as int);
                lemma_found_row(g, covered_pred(), y as int);
            }
            y = y + 1;
        }
        proof {
            lemma_found_all(g);
        }
        let mut current_game_state = self.state;
        let mut game_won = false;
        if bomb_revealed {
            current_game_state = CurrentGame::Lose;
        } else {
            if tiles_flagged == BOMBS as i32 && !not_bomb_tile_flagged {
                game_won = true;
            }
            if !not_bomb_tile_hidden && !not_bomb_tile_flagged {
                game_won = true;
            }
        }
        if game_won {
            current_game_state = CurrentGame::Win;
        }
        self.bombs = BOMBS as i32 - tiles_flagged;
        self.state = current_game_state;
    }
}

} // verus!
