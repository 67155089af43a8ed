use vstd::prelude::*;
use crate::board::{get_tile, set_tile, Board};
use crate::cascade::after_reveal;
use crate::chord::after_chord;
use crate::generate::untouched;
use crate::grid::{counts_match, in_bounds, mine_count, with_tile, Grid};
use crate::laws::law_flag_keeps_play;
use crate::status::{evaluate, mines_left};
use crate::tile::{CurrentGame, Tile, BOMBS, HEIGHT, WIDTH};

verus! {

/// The tile `t` with its flag set if it had none, and taken off if it had
/// one.
pub open spec fn toggled(t: Tile) -> Tile {
    Tile { bomb: t.bomb, revealed: t.revealed, flagged: !t.flagged }
}

/// The grid after the flag at `(x, y)` was toggled: a revealed tile stays
/// as it is.
pub open spec fn after_flag(g: Grid, x: int, y: int) -> Grid {
    if g[y][x].revealed {
        g
    } else {
        with_tile(g, x, y, toggled(g[y][x]))
    }
}

/// The grid after the interaction named `kind` at `(x, y)`: `left`
/// reveals, `middle` reveals the tiles around, `right` toggles the flag, and
/// any other name does nothing.
pub open spec fn after_interaction(g: Grid, kind: Seq<char>, x: int, y: int) -> Grid {
    if kind == "left"@ {
        after_reveal(g, x, y)
    } else if kind == "middle"@ {
        after_chord(g, x, y)
    } else if kind == "right"@ {
        after_flag(g, x, y)
    } else {
        g
    }
}

/// The game is over.
pub open spec fn finished(state: CurrentGame) -> bool {
    state == CurrentGame::Win || state == CurrentGame::Lose
}

/// Whether `interaction` is the word `word`.
fn is_word(interaction: &String, word: &str) -> (same: bool)
    ensures
        same == (interaction@ == word@),
{
    let owned = word.to_owned();
    *interaction == owned
}

impl Board {
    /// Toggles the flag of the tile at `tile`, given as `[x, y]`, unless
    /// the tile is revealed.
    pub fn flag_tile(&mut self, tile: [i32; 2]) -> (grid: [[Tile; WIDTH]; HEIGHT])
        requires
            in_bounds(tile[0] as int, tile[1] as int),
        ensures
            final(self).grid() == after_flag(old(self).grid(), tile[0] as int, tile[1] as int),
            grid == final(self).board,
            final(self).state == old(self).state,
            final(self).score == old(self).score,
            final(self).bombs == old(self).bombs,
            old(self).in_play() ==> final(self).in_play(),
    {
        proof {
            if self.in_play() {
                law_flag_keeps_play(self.grid(), tile[0] as int, tile[1] as int);
            }
        }
        let mut current_board = self.board;
        let mut current_tile = get_tile(&current_board, tile[0] as usize, tile[1] as usize);

        if !current_tile.revealed {
            if current_tile.flagged {
                current_tile.flagged = false;
            } else {
                current_tile.flagged = true;
            }
            set_tile(&mut current_board, tile[0] as usize, tile[1] as usize, current_tile);
        }
        self.board = current_board;
        self.board
    }

    /// Carries out the interaction named `interaction` on the tile at
    /// `tile`, given as `[x, y]`.
    pub fn handle_interaction(&mut self, interaction: String, tile: [i32; 2])
        requires
            in_bounds(tile[0] as int, tile[1] as int),
        ensures
            final(self).grid() == after_interaction(
                old(self).grid(),
                interaction@,
                tile[0] as int,
                tile[1] as int,
            ),
            final(self).state == old(self).state,
            final(self).score == old(self).score,
            final(self).bombs == old(self).bombs,
            old(self).in_play() ==> final(self).in_play(),
    {
        if is_word(&interaction, "left") {
            self.reveal_tile(tile);
        } else if is_word(&interaction, "middle") {
            self.reveal_surrounding_tiles(tile);
        } else if is_word(&interaction, "right") {
            self.flag_tile(tile);
        }
    }
}

/// Starts a new game on `board` and hands out the board as it then is.
pub fn generate_board(board: &mut Board) -> (snapshot: Board)
    ensures
        snapshot == *final(board),
        mine_count(final(board).grid()) == BOMBS,
        counts_match(final(board).grid()),
        untouched(final(board).grid()),
        final(board).in_play(),
        final(board).state == CurrentGame::Ongoing,
        final(board).bombs == BOMBS,
        final(board).score == old(board).score,
{
    board.generate_board();
    board.get_board()
}

/// Carries out one interaction of the player and works out where the game
/// then stands. Once the game is over, nothing changes any more.
pub fn tile_interaction(board: &mut Board, interaction: String, tile: [i32; 2]) -> (snapshot:
    Result<Board, String>)
    requires
        in_bounds(tile[0] as int, tile[1] as int),
    ensures
        snapshot == Ok::<Board, String>(*final(board)),
        old(board).in_play() ==> final(board).in_play(),
        finished(old(board).state) ==> *final(board) == *old(board),
        !finished(old(board).state) ==> {
            &&& final(board).grid() == after_interaction(
                old(board).grid(),
                interaction@,
                tile[0] as int,
                tile[1] as int,
            )
            &&& final(board).state == evaluate(final(board).grid(), old(board).state)
            &&& final(board).bombs == mines_left(final(board).grid())
            &&& final(board).score == old(board).score
        },
{
    match board.state {
        CurrentGame::Win | CurrentGame::Lose => {},
        _ => {
            board.handle_interaction(interaction, tile);
            board.check_game_state();
        },
    }
    Ok(board.get_board())
}

} // verus!
