use vstd::prelude::*;
use crate::board::{blank_grid, neighbour, set_tile, Board};
use crate::grid::{
    adjacent_mines, count_among, counts_match, grid_count, grid_view, in_bounds, is_mine,
    lemma_count_among_all, lemma_grid_count_agree, lemma_grid_count_update,
    lemma_grid_count_zero, mine_count, mine_pred, well_shaped, Grid,
};
use crate::laws::law_laid_out_grid;
use crate::marks::{first_free, get_mark, marks_view, no_marks, set_mark, set_pred};
use crate::random::random_below;
use crate::tile::{Bomb, CurrentGame, Point, Tile, BOMBS, HEIGHT, WIDTH};

verus! {

/// How often in a row a draw that hits a mine is discarded and drawn again.
/// After that many the first free tile is taken, so that placing the mines
/// always comes to an end.
pub const MAX_REDRAWS: usize = 64;

/// The point names a tile of the grid.
pub open spec fn point_in_bounds(p: Point) -> bool {
    in_bounds(p.0 as int, p.1 as int)
}

/// `(x, y)` is one of the first `n` points.
pub open spec fn mined(points: Seq<Point>, n: int, x: int, y: int) -> bool {
    exists|i: int| 0 <= i < n && (#[trigger] points[i]).0 == x && points[i].1 == y
}

/// No point occurs twice.
pub open spec fn distinct(points: Seq<Point>) -> bool {
    forall|i: int, j: int| 0 <= i < j < points.len() ==> points[i] != points[j]
}

/// The tile that a fresh grid holds: hidden, without a flag.
pub open spec fn fresh_tile(mine: bool) -> Tile {
    Tile {
        bomb: if mine {
            Bomb::IsBomb
        } else {
            Bomb::Bombs(0)
        },
        revealed: false,
        flagged: false,
    }
}

/// The fresh grid with a mine at each of the first `n` points and nowhere
/// else. The other tiles do not yet show a number.
pub open spec fn minefield(points: Seq<Point>, n: int) -> Grid {
    Seq::new(
        HEIGHT as nat,
        |y: int| Seq::new(WIDTH as nat, |x: int| fresh_tile(mined(points, n, x, y))),
    )
}

/// The grid `g` with each tile that is no mine showing the number of mines
/// around it.
pub open spec fn numbered(g: Grid) -> Grid {
    Seq::new(
        HEIGHT as nat,
        |y: int|
            Seq::new(
                WIDTH as nat,
                |x: int|
                    if is_mine(g, x, y) {
                        g[y][x]
                    } else {
                        Tile {
                            bomb: Bomb::Bombs(adjacent_mines(g, x, y) as u8),
                            revealed: g[y][x].revealed,
                            flagged: g[y][x].flagged,
                        }
                    },
            ),
    )
}

/// No tile of the grid is revealed or flagged.
pub open spec fn untouched(g: Grid) -> bool {
    forall|x: int, y: int|
        in_bounds(x, y) ==> !(#[trigger] g[y][x]).revealed && !g[y][x].flagged
}

/// One point more mines the tile it names, and no other tile.
pub proof fn lemma_mined_next(points: Seq<Point>, n: int, x: int, y: int)
    requires
        0 <= n < points.len(),
    ensures
        mined(points, n + 1, x, y) == (mined(points, n, x, y) || (points[n].0 == x && points[n].1
            == y)),
{
    if mined(points, n + 1, x, y) {
        let i = choose|i: int| 0 <= i < n + 1 && (#[trigger] points[i]).0 == x && points[i].1 == y;
        if i < n {
            assert(mined(points, n, x, y));
        }
    }
    if mined(points, n, x, y) {
        let i = choose|i: int| 0 <= i < n && (#[trigger] points[i]).0 == x && points[i].1 == y;
        assert(mined(points, n + 1, x, y));
    }
    if points[n].0 == x && points[n].1 == y {
        assert(mined(points, n + 1, x, y));
    }
}

/// A minefield laid out from distinct points has as many mines as points.
pub proof fn lemma_minefield_count(points: Seq<Point>, n: int)
    requires
        0 <= n <= points.len(),
        distinct(points),
        forall|i: int| 0 <= i < n ==> point_in_bounds(#[trigger] points[i]),
    ensures
        mine_count(minefield(points, n)) == n,
    decreases n,
{
    if n == 0 {
        let g = minefield(points, 0);
        assert forall|x: int, y: int| 0 <= y < HEIGHT && 0 <= x < g[y].len() implies !mine_pred()(
            #[trigger] g[y][x],
        ) by {}
        lemma_grid_count_zero(g, mine_pred(), HEIGHT as int);
    } else {
        lemma_minefield_count(points, n - 1);
        let before = minefield(points, n - 1);
        let after = minefield(points, n);
        let p = points[n - 1];
        let x = p.0 as int;
        let y = p.1 as int;
        assert(point_in_bounds(p));
        assert(!mined(points, n - 1, x, y)) by {
            if mined(points, n - 1, x, y) {
                let i = choose|i: int|
                    0 <= i < n - 1 && (#[trigger] points[i]).0 == x && points[i].1 == y;
                assert(points[i] == points[n - 1]);
            }
        }
        let moved = before.update(y, before[y].update(x, fresh_tile(true)));
        assert forall|cx: int, cy: int| in_bounds(cx, cy) implies mined(points, n, cx, cy) == (
        mined(points, n - 1, cx, cy) || (cx == x && cy == y)) by {
            lemma_mined_next(points, n - 1, cx, cy);
        }
        assert(after =~~= moved);
        lemma_grid_count_update(before, mine_pred(), HEIGHT as int, x, y, fresh_tile(true));
    }
}

/// Numbering a grid keeps its mines where they are.
pub proof fn lemma_numbered_mines(g: Grid, x: int, y: int)
    requires
        in_bounds(x, y),
    ensures
        is_mine(numbered(g), x, y) == is_mine(g, x, y),
        numbered(g)[y][x].revealed == g[y][x].revealed,
        numbered(g)[y][x].flagged == g[y][x].flagged,
{
}

/// Two grids with the same mines have the same number of mines around
/// each tile.
pub proof fn lemma_adjacent_mines_agree(g: Grid, h: Grid, x: int, y: int)
    requires
        forall|cx: int, cy: int| in_bounds(cx, cy) ==> is_mine(g, cx, cy) == is_mine(h, cx, cy),
    ensures
        adjacent_mines(g, x, y) == adjacent_mines(h, x, y),
{
    assert(is_mine(g, x, y + 1) == is_mine(h, x, y + 1) || !in_bounds(x, y + 1));
    assert(is_mine(g, x + 1, y + 1) == is_mine(h, x + 1, y + 1) || !in_bounds(x + 1, y + 1));
    assert(is_mine(g, x + 1, y) == is_mine(h, x + 1, y) || !in_bounds(x + 1, y));
    assert(is_mine(g, x + 1, y - 1) == is_mine(h, x + 1, y - 1) || !in_bounds(x + 1, y - 1));
    assert(is_mine(g, x, y - 1) == is_mine(h, x, y - 1) || !in_bounds(x, y - 1));
    assert(is_mine(g, x - 1, y - 1) == is_mine(h, x - 1, y - 1) || !in_bounds(x - 1, y - 1));
    assert(is_mine(g, x - 1, y) == is_mine(h, x - 1, y) || !in_bounds(x - 1, y));
    assert(is_mine(g, x - 1, y + 1) == is_mine(h, x - 1, y + 1) || !in_bounds(x - 1, y + 1));
}

/// On a numbered grid every tile that is no mine shows the number of mines
/// around it, and there are as many mines as before.
pub proof fn lemma_numbered(g: Grid)
    requires
        well_shaped(g),
    ensures
        mine_count(numbered(g)) == mine_count(g),
        counts_match(numbered(g)),
        untouched(g) ==> untouched(numbered(g)),
{
    let h = numbered(g);
    assert forall|x: int, y: int| in_bounds(x, y) implies is_mine(h, x, y) == is_mine(g, x, y) by {
        lemma_numbered_mines(g, x, y);
    }
    assert forall|x: int, y: int| in_bounds(x, y) && !is_mine(h, x, y) implies #[trigger] h[y][x].bomb
        == Bomb::Bombs(adjacent_mines(h, x, y) as u8) by {
        lemma_adjacent_mines_agree(h, g, x, y);
    }
    assert forall|x: int, y: int| 0 <= y < HEIGHT && 0 <= x < h[y].len() implies mine_pred()(
        #[trigger] h[y][x],
    ) == mine_pred()(g[y][x]) by {
        lemma_numbered_mines(g, x, y);
    }
    lemma_grid_count_agree(h, g, mine_pred(), mine_pred(), HEIGHT as int);
    if untouched(g) {
        assert forall|x: int, y: int| in_bounds(x, y) implies !(#[trigger] h[y][x]).revealed
            && !h[y][x].flagged by {
            lemma_numbered_mines(g, x, y);
            assert(!g[y][x].revealed && !g[y][x].flagged);
        }
    }
}

/// Draws `BOMBS` different positions on the grid.
///
/// Each position comes from two draws, a column and a row. A position that
/// was drawn before is discarded and drawn again; after `MAX_REDRAWS`
/// discarded draws in a row the first position not yet taken stands in.
pub fn generate_bombs() -> (current_bombs: [Point; BOMBS])
    ensures
        distinct(current_bombs@),
        forall|i: int| 0 <= i < BOMBS ==> point_in_bounds(#[trigger] current_bombs[i]),
{
    let mut current_bombs: [Point; BOMBS] = [Point(0, 0); BOMBS];
    let mut taken = no_marks();
    let mut bomb_count: usize = 0;
    let mut redraws: usize = 0;
    while bomb_count < BOMBS
        invariant
            bomb_count <= BOMBS,
            redraws <= MAX_REDRAWS,
            grid_count(marks_view(taken), set_pred(), HEIGHT as int) == bomb_count,
            forall|i: int|
                0 <= i < bomb_count ==> point_in_bounds(#[trigger] current_bombs[i])
                    && marks_view(taken)[current_bombs[i].1 as int][current_bombs[i].0 as int],
            forall|i: int, j: int|
                0 <= i < j < bomb_count ==> current_bombs@[i] != current_bombs@[j],
        decreases BOMBS - bomb_count, MAX_REDRAWS - redraws,
    {
        let mut x = random_below(WIDTH);
        let mut y = random_below(HEIGHT);
        let drawn_before = get_mark(&taken, x, y);
        if drawn_before && redraws < MAX_REDRAWS {
            redraws = redraws + 1;
        } else {
            if drawn_before {
                let free = first_free(&taken);
                x = free.0;
                y = free.1;
            }
            current_bombs[bomb_count] = Point(x as i32, y as i32);
            set_mark(&mut taken, x, y);
            bomb_count = bomb_count + 1;
            redraws = 0;
        }
    }
    current_bombs
}

/// The fresh grid with a mine at each of the points `x`.
pub fn populate_bombs(x: [Point; BOMBS]) -> (new_board: [[Tile; WIDTH]; HEIGHT])
    requires
        forall|i: int| 0 <= i < BOMBS ==> point_in_bounds(#[trigger] x[i]),
    ensures
        grid_view(new_board) == minefield(x@, BOMBS as int),
{
    let mut new_board = blank_grid(Tile { bomb: Bomb::Bombs(0), revealed: false, flagged: false });
    let mut i: usize = 0;
    assert(grid_view(new_board) =~~= minefield(x@, 0));
    while i < BOMBS
        invariant
            i <= BOMBS,
            forall|i: int| 0 <= i < BOMBS ==> point_in_bounds(#[trigger] x[i]),
            grid_view(new_board) == minefield(x@, i as int),
        decreases BOMBS - i,
    {
        let bomb = x[i];
        let mut current_tile = new_board[bomb.1 as usize][bomb.0 as usize];
        current_tile.bomb = Bomb::IsBomb;
        set_tile(&mut new_board, bomb.0 as usize, bomb.1 as usize, current_tile);
        proof {
            let n = i as int;
            assert(point_in_bounds(x[n]));
            assert forall|cx: int, cy: int| in_bounds(cx, cy) implies mined(x@, n + 1, cx, cy) == (
            mined(x@, n, cx, cy) || (cx == bomb.0 && cy == bomb.1)) by {
                lemma_mined_next(x@, n, cx, cy);
            }
            assert(grid_view(new_board) =~~= minefield(x@, n + 1));
        }
        i = i + 1;
    }
    new_board
}

/// The number of mines around the tile at `(x, y)`.
pub fn mines_around(board: &[[Tile; WIDTH]; HEIGHT], x: usize, y: usize) -> (surrounding_bombs: u8)
    requires
        in_bounds(x as int, y as int),
    ensures
        surrounding_bombs == adjacent_mines(grid_view(*board), x as int, y as int),
{
    let mut surrounding_bombs: u8 = 0;
    let mut k: usize = 0;
    while k < 8
        invariant
            k <= 8,
            in_bounds(x as int, y as int),
            surrounding_bombs == count_among(
                grid_view(*board),
                mine_pred(),
                x as int,
                y as int,
                k as int,
            ),
            surrounding_bombs <= k,
        decreases 8 - k,
    {
        match neighbour(x, y, k) {
            Some((nx, ny)) => {
                if board[ny][nx].bomb == Bomb::IsBomb {
                    surrounding_bombs = surrounding_bombs + 1;
                }
            },
            None => {},
        }
        k = k + 1;
    }
    proof {
        lemma_count_among_all(grid_view(*board), mine_pred(), x as int, y as int);
    }
    surrounding_bombs
}

/// The grid `board` with the number of mines around it written on every
/// tile that is no mine.
pub fn count_bombs(board: [[Tile; WIDTH]; HEIGHT]) -> (final_board: [[Tile; WIDTH]; HEIGHT])
    ensures
        grid_view(final_board) == numbered(grid_view(board)),
{
    let mut final_board = board;
    let mut row_index: usize = 0;
    while row_index < HEIGHT
        invariant
            row_index <= HEIGHT,
            forall|x: int, y: int|
                in_bounds(x, y) ==> #[trigger] grid_view(final_board)[y][x] == (if y < row_index {
                    numbered(grid_view(board))[y][x]
                } else {
                    grid_view(board)[y][x]
                }),
        decreases HEIGHT - row_index,
    {
        let mut col_index: usize = 0;
        while col_index < WIDTH
            invariant
                row_index < HEIGHT,
                col_index <= WIDTH,
                forall|x: int, y: int|
                    in_bounds(x, y) ==> #[trigger] grid_view(final_board)[y][x] == (if y < row_index
                        || (y == row_index && x < col_index) {
                        numbered(grid_view(board))[y][x]
                    } else {
                        grid_view(board)[y][x]
                    }),
            decreases WIDTH - col_index,
        {
            let mut tile = final_board[row_index][col_index];
            if tile.bomb != Bomb::IsBomb {
                let surrounding_bombs = mines_around(&board, col_index, row_index);
                tile.bomb = Bomb::Bombs(surrounding_bombs);
                set_tile(&mut final_board, col_index, row_index, tile);
            }
            col_index = col_index + 1;
        }
        row_index = row_index + 1;
    }
    assert(grid_view(final_board) =~~= numbered(grid_view(board)));
    final_board
}

impl Board {
    /// A new game with its mines at the points `x`.
    pub fn with_bombs(x: [Point; BOMBS]) -> (b: Board)
        requires
            forall|i: int| 0 <= i < BOMBS ==> point_in_bounds(#[trigger] x[i]),
        ensures
            b.grid() == numbered(minefield(x@, BOMBS as int)),
            b.state == CurrentGame::Ongoing,
            b.score == 0,
            b.bombs == BOMBS,
            distinct(x@) ==> b.in_play(),
    {
        let populated_board = populate_bombs(x);
        let complete_board = count_bombs(populated_board);
        proof {
            if distinct(x@) {
                law_laid_out_grid(x@);
            }
        }
        Board { board: complete_board, state: CurrentGame::Ongoing, score: 0, bombs: BOMBS as i32 }
    }

    /// Starts a new game on this board: `BOMBS` mines at random positions,
    /// every other tile showing the number of mines around it, nothing
    /// revealed and nothing flagged.
    pub fn generate_board(&mut self)
        ensures
            mine_count(final(self).grid()) == BOMBS,
            counts_match(final(self).grid()),
            untouched(final(self).grid()),
            final(self).in_play(),
            final(self).state == CurrentGame::Ongoing,
            final(self).bombs == BOMBS,
            final(self).score == old(self).score,
    {
        self.bombs = BOMBS as i32;
        let generated_bombs: [Point; BOMBS] = generate_bombs();
        let populated_board = populate_bombs(generated_bombs);
        let complete_board = count_bombs(populated_board);
        proof {
            law_laid_out_grid(generated_bombs@);
        }
        self.state = CurrentGame::Ongoing;
        self.board = complete_board;
    }
}

} // verus!
