use vstd::prelude::*;
use crate::board::{get_tile, neighbour, set_tile, Board};
use crate::cascade::{
    after_reveal, cut_off, further, hidden, in_cascade, lemma_cascade_joins,
    lemma_cascade_shrinks, lemma_cascade_survives, lemma_reveal_single, opened, opened_by,
    reveal_applies,
};
use crate::grid::{
    adjacent, adjacent_flags, count_among, flag_pred, grid_view, in_bounds,
    lemma_count_among_all, lemma_deltas_are_neighbours, well_shaped, Grid,
};
use crate::laws::law_chord_keeps_play;
use crate::tile::{delta, Bomb, Tile, HEIGHT, WIDTH};

verus! {

/// A chord at `(x, y)` does anything at all: the tile there is revealed,
/// shows a number above zero, and as many of its neighbours are flagged.
pub open spec fn chord_applies(g: Grid, x: int, y: int) -> bool {
    &&& g[y][x].revealed
    &&& !g[y][x].flagged
    &&& g[y][x].bomb != Bomb::Bombs(0)
    &&& g[y][x].bomb == Bomb::Bombs(adjacent_flags(g, x, y) as u8)
}

/// `(nx, ny)` is a neighbour of `(x, y)` that a chord at `(x, y)` reveals:
/// hidden and without a flag.
pub open spec fn chord_target(g: Grid, x: int, y: int, nx: int, ny: int) -> bool {
    adjacent(x, y, nx, ny) && hidden(g, nx, ny) && !g[ny][nx].flagged
}

/// A chord at `(x, y)` opens the tile at `(cx, cy)`: a reveal at one of the
/// neighbours that the chord reveals opens it.
pub open spec fn opened_by_chord(g: Grid, x: int, y: int, cx: int, cy: int) -> bool {
    chord_applies(g, x, y) && exists|nx: int, ny: int| #[trigger]
        chord_target(g, x, y, nx, ny) && opened_by(g, nx, ny, cx, cy)
}

/// The grid after a chord at `(x, y)`.
pub open spec fn after_chord(g: Grid, x: int, y: int) -> Grid {
    Seq::new(
        HEIGHT as nat,
        |cy: int|
            Seq::new(
                WIDTH as nat,
                |cx: int|
                    if opened_by_chord(g, x, y, cx, cy) {
                        opened(g[cy][cx])
                    } else {
                        g[cy][cx]
                    },
            ),
    )
}

/// A reveal at one of the neighbours of `(x, y)` that the first `k` steps
/// of `DELTAS` lead to, and that a chord reveals, opens `(cx, cy)`.
pub open spec fn opened_among(g: Grid, x: int, y: int, k: int, cx: int, cy: int) -> bool {
    exists|j: int|
        0 <= j < k && chord_target(g, x, y, x + (#[trigger] delta(j)).0, y + delta(j).1)
            && opened_by(g, x + delta(j).0, y + delta(j).1, cx, cy)
}

/// The grid after a chord at `(x, y)` has dealt with the neighbours that
/// the first `k` steps of `DELTAS` lead to.
pub open spec fn chord_upto(g: Grid, x: int, y: int, k: int) -> Grid {
    Seq::new(
        HEIGHT as nat,
        |cy: int|
            Seq::new(
                WIDTH as nat,
                |cx: int|
                    if opened_among(g, x, y, k, cx, cy) {
                        opened(g[cy][cx])
                    } else {
                        g[cy][cx]
                    },
            ),
    )
}

/// Before a chord has dealt with any neighbour the grid is as it was.
pub proof fn lemma_chord_none(g: Grid, x: int, y: int)
    requires
        well_shaped(g),
    ensures
        chord_upto(g, x, y, 0) == g,
{
    assert(chord_upto(g, x, y, 0) =~~= g);
}

/// Once a chord has dealt with all eight neighbours the grid is the one
/// after the chord.
pub proof fn lemma_chord_all(g: Grid, x: int, y: int)
    requires
        chord_applies(g, x, y),
    ensures
        chord_upto(g, x, y, 8) == after_chord(g, x, y),
{
    lemma_deltas_are_neighbours(x, y);
    assert forall|cx: int, cy: int| opened_among(g, x, y, 8, cx, cy) == opened_by_chord(
        g,
        x,
        y,
        cx,
        cy,
    ) by {
        if opened_among(g, x, y, 8, cx, cy) {
            let j = choose|j: int|
                0 <= j < 8 && chord_target(g, x, y, x + (#[trigger] delta(j)).0, y + delta(j).1)
                    && opened_by(g, x + delta(j).0, y + delta(j).1, cx, cy);
            assert(chord_target(g, x, y, x + delta(j).0, y + delta(j).1));
        }
        if opened_by_chord(g, x, y, cx, cy) {
            let (nx, ny) = choose|nx: int, ny: int| #[trigger]
                chord_target(g, x, y, nx, ny) && opened_by(g, nx, ny, cx, cy);
            let j = choose|j: int|
                0 <= j < 8 && nx == x + (#[trigger] delta(j)).0 && ny == y + delta(j).1;
            assert(chord_target(g, x, y, x + delta(j).0, y + delta(j).1));
        }
    }
    assert(chord_upto(g, x, y, 8) =~~= after_chord(g, x, y));
}

/// A chord that does not apply changes nothing.
pub proof fn lemma_chord_refused(g: Grid, x: int, y: int)
    requires
        well_shaped(g),
        !chord_applies(g, x, y),
    ensures
        after_chord(g, x, y) == g,
{
    assert(after_chord(g, x, y) =~~= g);
}

/// What a chord does with the neighbour that step `k` of `DELTAS` leads to:
/// where that neighbour is on the grid, hidden and without a flag by then,
/// a reveal there; else nothing.
pub proof fn lemma_chord_step(g: Grid, x: int, y: int, k: int)
    requires
        well_shaped(g),
        in_bounds(x, y),
        0 <= k < 8,
    ensures
        ({
            let cur = chord_upto(g, x, y, k);
            let nx = x + delta(k).0;
            let ny = y + delta(k).1;
            chord_upto(g, x, y, k + 1) == if in_bounds(nx, ny) && !cur[ny][nx].flagged
                && !cur[ny][nx].revealed {
                after_reveal(cur, nx, ny)
            } else {
                cur
            }
        }),
{
    let cur = chord_upto(g, x, y, k);
    let next = chord_upto(g, x, y, k + 1);
    let nx = x + delta(k).0;
    let ny = y + delta(k).1;
    lemma_deltas_are_neighbours(x, y);
    assert(adjacent(x, y, nx, ny));
    assert(further(g, cur));
    assert forall|cx: int, cy: int| opened_among(g, x, y, k + 1, cx, cy) == (opened_among(
        g,
        x,
        y,
        k,
        cx,
        cy,
    ) || (chord_target(g, x, y, nx, ny) && opened_by(g, nx, ny, cx, cy))) by {
        if opened_among(g, x, y, k + 1, cx, cy) {
            let j = choose|j: int|
                0 <= j < k + 1 && chord_target(
                    g,
                    x,
                    y,
                    x + (#[trigger] delta(j)).0,
                    y + delta(j).1,
                ) && opened_by(g, x + delta(j).0, y + delta(j).1, cx, cy);
            if j < k {
                assert(opened_among(g, x, y, k, cx, cy));
            }
        }
        if opened_among(g, x, y, k, cx, cy) {
            let j = choose|j: int|
                0 <= j < k && chord_target(g, x, y, x + (#[trigger] delta(j)).0, y + delta(j).1)
                    && opened_by(g, x + delta(j).0, y + delta(j).1, cx, cy);
            assert(opened_among(g, x, y, k + 1, cx, cy));
        }
        if chord_target(g, x, y, nx, ny) && opened_by(g, nx, ny, cx, cy) {
            assert(chord_target(g, x, y, x + delta(k).0, y + delta(k).1));
            assert(opened_among(g, x, y, k + 1, cx, cy));
        }
    }
    if in_bounds(nx, ny) && !cur[ny][nx].flagged && !cur[ny][nx].revealed {
        assert(cur[ny][nx] == g[ny][nx]);
        assert(chord_target(g, x, y, nx, ny));
        assert(reveal_applies(cur, nx, ny));
        let after = after_reveal(cur, nx, ny);
        assert forall|cx: int, cy: int| in_bounds(cx, cy) implies #[trigger] after[cy][cx]
            == next[cy][cx] by {
            if opened_among(g, x, y, k, cx, cy) {
                assert(cur[cy][cx] == opened(g[cy][cx]));
            } else {
                assert(cur[cy][cx] == g[cy][cx]);
                if opened_by(cur, nx, ny, cx, cy) {
                    lemma_cascade_shrinks(g, cur, nx, ny, cx, cy);
                }
                if opened_by(g, nx, ny, cx, cy) {
                    lemma_cascade_survives(g, cur, nx, ny, cx, cy);
                    if cut_off(g, cur, nx, ny, cx, cy) {
                        let (qx, qy) = choose|qx: int, qy: int|
                            #![trigger in_cascade(g, nx, ny, qx, qy)]
                            hidden(g, qx, qy) && !hidden(cur, qx, qy) && in_cascade(
                                g,
                                nx,
                                ny,
                                qx,
                                qy,
                            ) && in_cascade(g, qx, qy, cx, cy);
                        assert(opened_among(g, x, y, k, qx, qy));
                        let j = choose|j: int|
                            0 <= j < k && chord_target(
                                g,
                                x,
                                y,
                                x + (#[trigger] delta(j)).0,
                                y + delta(j).1,
                            ) && opened_by(g, x + delta(j).0, y + delta(j).1, qx, qy);
                        lemma_cascade_joins(
                            g,
                            x + delta(j).0,
                            y + delta(j).1,
                            qx,
                            qy,
                            cx,
                            cy,
                        );
                        assert(opened_by(g, x + delta(j).0, y + delta(j).1, cx, cy));
                        assert(false);
                    }
                }
                assert(opened_by(cur, nx, ny, cx, cy) == opened_by(g, nx, ny, cx, cy));
            }
        }
        assert(after =~~= next);
    } else {
        if chord_target(g, x, y, nx, ny) {
            // The neighbour was hidden and without a flag; it is revealed by now.
            assert(cur[ny][nx] != g[ny][nx]);
            assert(opened_among(g, x, y, k, nx, ny));
            let j = choose|j: int|
                0 <= j < k && chord_target(g, x, y, x + (#[trigger] delta(j)).0, y + delta(j).1)
                    && opened_by(g, x + delta(j).0, y + delta(j).1, nx, ny);
            assert forall|cx: int, cy: int| opened_by(g, nx, ny, cx, cy) implies opened_among(
                g,
                x,
                y,
                k,
                cx,
                cy,
            ) by {
                lemma_cascade_joins(g, x + delta(j).0, y + delta(j).1, nx, ny, cx, cy);
                assert(opened_by(g, x + delta(j).0, y + delta(j).1, cx, cy));
            }
        }
        assert(cur =~~= next);
    }
}

/// The number of flags around the tile at `(x, y)`.
pub fn flags_around(board: &[[Tile; WIDTH]; HEIGHT], x: usize, y: usize) -> (flags: u8)
    requires
        in_bounds(x as int, y as int),
    ensures
        flags == adjacent_flags(grid_view(*board), x as int, y as int),
{
    let mut surrounding_flagged_tiles: u8 = 0;
    let mut k: usize = 0;
    while k < 8
        invariant
            k <= 8,
            in_bounds(x as int, y as int),
            surrounding_flagged_tiles == count_among(
                grid_view(*board),
                flag_pred(),
                x as int,
                y as int,
                k as int,
            ),
            surrounding_flagged_tiles <= k,
        decreases 8 - k,
    {
        match neighbour(x, y, k) {
            Some((nx, ny)) => {
                if get_tile(board, nx, ny).flagged {
                    surrounding_flagged_tiles = surrounding_flagged_tiles + 1;
                }
            },
            None => {},
        }
        k = k + 1;
    }
    proof {
        lemma_count_among_all(grid_view(*board), flag_pred(), x as int, y as int);
    }
    surrounding_flagged_tiles
}

impl Board {
    /// Reveals the tiles around the tile at `tile`, given as `[x, y]`.
    ///
    /// Nothing happens unless the tile is revealed and shows a number above
    /// zero that equals the number of flags around it. Then each neighbour
    /// that is hidden and without a flag is revealed, as by `reveal_tile`.
    pub fn reveal_surrounding_tiles(&mut self, tile: [i32; 2]) -> (grid: [[Tile; WIDTH]; HEIGHT])
        requires
            in_bounds(tile[0] as int, tile[1] as int),
        ensures
            final(self).grid() == after_chord(old(self).grid(), tile[0] as int, tile[1] as int),
            grid == final(self).board,
            final(self).state == old(self).state,
            final(self).score == old(self).score,
            final(self).bombs == old(self).bombs,
            old(self).in_play() ==> final(self).in_play(),
    {
        let x = tile[0] as usize;
        let y = tile[1] as usize;
        let ghost g0 = self.grid();
        assert(well_shaped(g0));
        proof {
            if self.in_play() {
                law_chord_keeps_play(g0, x as int, y as int);
            }
        }
        let current_tile = get_tile(&self.board, x, y);

        if current_tile.flagged || !current_tile.revealed || current_tile.bomb == Bomb::Bombs(0) {
            proof {
                lemma_chord_refused(g0, x as int, y as int);
            }
            return self.board;
        }
        let flags_needed = current_tile.bomb;
        let surrounding_flagged_tiles = flags_around(&self.board, x, y);
        let flagged_tiles_satisfied = Bomb::Bombs(surrounding_flagged_tiles) == flags_needed;
        if !flagged_tiles_satisfied {
            proof {
                lemma_chord_refused(g0, x as int, y as int);
            }
            return self.board;
        }
        proof {
            lemma_chord_none(g0, x as int, y as int);
        }
        let mut k: usize = 0;
        while k < 8
            invariant
                k <= 8,
                in_bounds(x as int, y as int),
                well_shaped(g0),
                self.grid() == chord_upto(g0, x as int, y as int, k as int),
                self.state == old(self).state,
                self.score == old(self).score,
                self.bombs == old(self).bombs,
            decreases 8 - k,
        {
            proof {
                lemma_chord_step(g0, x as int, y as int, k as int);
            }
            match neighbour(x, y, k) {
                Some((nx, ny)) => {
                    let mut neighbour_tile = get_tile(&self.board, nx, ny);
                    if !neighbour_tile.flagged && !neighbour_tile.revealed {
                        if neighbour_tile.bomb == Bomb::Bombs(0) {
                            self.reveal_tile([nx as i32, ny as i32]);
                        } else {
                            proof {
                                lemma_reveal_single(self.grid(), nx as int, ny as int);
                            }
                            neighbour_tile.revealed = true;
                            set_tile(&mut self.board, nx, ny, neighbour_tile);
                        }
                    }
                },
                None => {},
            }
            k = k + 1;
        }
        proof {
            lemma_chord_all(g0, x as int, y as int);
        }
        self.board
    }
}

} // verus!
