use vstd::prelude::*;
use crate::board::{get_tile, neighbour, set_tile, Board};
use crate::cascade::{
    after_reveal, hidden, in_cascade, lemma_cascade_start, lemma_cascade_step,
    lemma_cascade_within, lemma_reveal_single, opened, opened_by, yields,
};
use crate::laws::law_reveal_keeps_play;
use crate::marks::{get_mark, marks_view, no_marks, set_mark, set_pred};
use crate::grid::{
    adjacent, grid_count, grid_view, in_bounds, is_zero, lemma_deltas_are_neighbours,
    lemma_grid_count_bound, well_shaped, Grid,
};
use crate::tile::{delta, Bomb, Point, Tile, HEIGHT, WIDTH};

verus! {

/// The tile at `(x, y)` has been put in the queue.
spec fn marked(m: Seq<Seq<bool>>, x: int, y: int) -> bool {
    in_bounds(x, y) && m[y][x]
}

/// The tile at `(x, y)` has left the queue.
spec fn served(m: Seq<Seq<bool>>, place: Map<(int, int), int>, head: int, x: int, y: int) -> bool {
    marked(m, x, y) && place[(x, y)] < head
}

/// The queue holds each marked tile once, at the place noted for it, and
/// only tiles that a cascade from `(sx, sy)` reaches.
spec fn queue_fits(
    g0: Grid,
    sx: int,
    sy: int,
    m: Seq<Seq<bool>>,
    q: Seq<Point>,
    place: Map<(int, int), int>,
) -> bool {
    &&& grid_count(m, set_pred(), HEIGHT as int) == q.len()
    &&& forall|i: int|
        0 <= i < q.len() ==> marked(m, (#[trigger] q[i]).0 as int, q[i].1 as int) && place[(
            q[i].0 as int,
            q[i].1 as int,
        )] == i
    &&& forall|x: int, y: int| #[trigger]
        marked(m, x, y) ==> in_cascade(g0, sx, sy, x, y) && 0 <= place[(x, y)] < q.len()
            && q[place[(x, y)]].0 == x && q[place[(x, y)]].1 == y
}

/// Every tile that has left the queue is opened, where it yields, and no
/// other tile has changed.
spec fn grid_fits(
    g0: Grid,
    g: Grid,
    m: Seq<Seq<bool>>,
    place: Map<(int, int), int>,
    head: int,
) -> bool {
    forall|x: int, y: int|
        in_bounds(x, y) ==> #[trigger] g[y][x] == (if served(m, place, head, x, y) && yields(
            g0[y][x],
        ) {
            opened(g0[y][x])
        } else {
            g0[y][x]
        })
}

/// The hidden tiles next to a served tile without a mine around it are
/// marked.
spec fn spread_fits(g0: Grid, m: Seq<Seq<bool>>, place: Map<(int, int), int>, head: int) -> bool {
    forall|px: int, py: int, nx: int, ny: int|
        served(m, place, head, px, py) && is_zero(g0, px, py) && #[trigger] adjacent(
            px,
            py,
            nx,
            ny,
        ) && hidden(g0, nx, ny) ==> marked(m, nx, ny)
}

/// Puts the tile at `(nx, ny)`, which the cascade reaches and which is not
/// marked yet, at the end of the queue and marks it.
fn enqueue(
    queued: &mut [[bool; WIDTH]; HEIGHT],
    check_tile_queue: &mut Vec<Point>,
    nx: usize,
    ny: usize,
    Ghost(g0): Ghost<Grid>,
    Ghost(sx): Ghost<int>,
    Ghost(sy): Ghost<int>,
    Ghost(place): Ghost<Map<(int, int), int>>,
    Ghost(head): Ghost<int>,
) -> (noted: Ghost<Map<(int, int), int>>)
    requires
        in_bounds(nx as int, ny as int),
        !marks_view(*old(queued))[ny as int][nx as int],
        in_cascade(g0, sx, sy, nx as int, ny as int),
        queue_fits(g0, sx, sy, marks_view(*old(queued)), old(check_tile_queue)@, place),
        head <= old(check_tile_queue)@.len(),
    ensures
        queue_fits(g0, sx, sy, marks_view(*final(queued)), final(check_tile_queue)@, noted@),
        final(check_tile_queue)@ == old(check_tile_queue)@.push(Point(nx as i32, ny as i32)),
        forall|x: int, y: int|
            #![trigger marked(marks_view(*final(queued)), x, y)]
            marked(marks_view(*final(queued)), x, y) == (marked(marks_view(*old(queued)), x, y)
                || (x == nx && y == ny)),
        forall|x: int, y: int|
            #![trigger served(marks_view(*final(queued)), noted@, head, x, y)]
            served(marks_view(*final(queued)), noted@, head, x, y) == served(
                marks_view(*old(queued)),
                place,
                head,
                x,
                y,
            ),
{
    let ghost old_m = marks_view(*queued);
    let ghost old_q = check_tile_queue@;
    let ghost noted = place.insert((nx as int, ny as int), old_q.len() as int);
    proof {
        lemma_grid_count_bound(old_m, set_pred(), HEIGHT as int, WIDTH as int);
    }
    set_mark(queued, nx, ny);
    check_tile_queue.push(Point(nx as i32, ny as i32));
    proof {
        let m = marks_view(*queued);
        let q = check_tile_queue@;
        assert forall|i: int| 0 <= i < q.len() implies marked(
            m,
            (#[trigger] q[i]).0 as int,
            q[i].1 as int,
        ) && noted[(q[i].0 as int, q[i].1 as int)] == i by {
            if i < old_q.len() {
                assert(q[i] == old_q[i]);
                assert(marked(old_m, old_q[i].0 as int, old_q[i].1 as int));
            }
        }
        assert forall|x: int, y: int| #[trigger] marked(m, x, y) implies in_cascade(
            g0,
            sx,
            sy,
            x,
            y,
        ) && 0 <= noted[(x, y)] < q.len() && q[noted[(x, y)]].0 == x && q[noted[(x, y)]].1
            == y by {
            if x == nx && y == ny {
            } else {
                assert(marked(old_m, x, y));
                assert(q[place[(x, y)]] == old_q[place[(x, y)]]);
            }
        }
        assert forall|x: int, y: int| #![trigger served(m, noted, head, x, y)]
            served(m, noted, head, x, y) == served(old_m, place, head, x, y) by {
            if x == nx && y == ny {
            } else {
                assert(marked(m, x, y) == marked(old_m, x, y));
            }
        }
    }
    Ghost(noted)
}

/// Once the tile at the head of the queue has been dealt with, the hidden
/// tiles next to each served tile without a mine around it are marked.
proof fn lemma_spread_served(
    g0: Grid,
    sx: int,
    sy: int,
    m: Seq<Seq<bool>>,
    q: Seq<Point>,
    place: Map<(int, int), int>,
    head: int,
)
    requires
        0 <= head < q.len(),
        queue_fits(g0, sx, sy, m, q, place),
        spread_fits(g0, m, place, head),
        is_zero(g0, q[head].0 as int, q[head].1 as int) ==> forall|j: int|
            0 <= j < 8 && hidden(
                g0,
                q[head].0 + (#[trigger] delta(j)).0,
                q[head].1 + delta(j).1,
            ) ==> marked(m, q[head].0 + delta(j).0, q[head].1 + delta(j).1),
    ensures
        spread_fits(g0, m, place, head + 1),
{
    let hx = q[head].0 as int;
    let hy = q[head].1 as int;
    assert forall|px: int, py: int, nx: int, ny: int|
        served(m, place, head + 1, px, py) && is_zero(g0, px, py) && #[trigger] adjacent(
            px,
            py,
            nx,
            ny,
        ) && hidden(g0, nx, ny) implies marked(m, nx, ny) by {
        assert(marked(m, px, py));
        if place[(px, py)] == head {
            assert(px == hx && py == hy);
            lemma_deltas_are_neighbours(px, py);
            let j = choose|j: int|
                0 <= j < 8 && nx == px + (#[trigger] delta(j)).0 && ny == py + delta(j).1;
            assert(hidden(g0, hx + delta(j).0, hy + delta(j).1));
        } else {
            assert(served(m, place, head, px, py));
        }
    }
}

impl Board {
    /// Reveals the tile at `tile`, given as `[x, y]`.
    ///
    /// Nothing happens where the tile is revealed or flagged already.
    /// Otherwise the tile is opened, and where it has no mine in it or
    /// around it the hidden tiles next to it are opened in turn, and so on
    /// from each of them. A flagged tile that is reached is left as it is,
    /// unless it has no mine in it or around it: then it loses its flag and
    /// is opened like the others.
    pub fn reveal_tile(&mut self, tile: [i32; 2]) -> (grid: [[Tile; WIDTH]; HEIGHT])
        requires
            in_bounds(tile[0] as int, tile[1] as int),
        ensures
            final(self).grid() == after_reveal(old(self).grid(), tile[0] as int, tile[1] as int),
            grid == final(self).board,
            final(self).state == old(self).state,
            final(self).score == old(self).score,
            final(self).bombs == old(self).bombs,
            old(self).in_play() ==> final(self).in_play(),
    {
        let sx = tile[0] as usize;
        let sy = tile[1] as usize;
        let ghost g0 = self.grid();
        proof {
            if self.in_play() {
                law_reveal_keeps_play(g0, sx as int, sy as int);
            }
        }
        let mut current_board = self.board;
        let mut current_tile = get_tile(&current_board, sx, sy);
        assert(well_shaped(g0));

        if current_tile.flagged || current_tile.revealed {
            assert(self.grid() =~~= after_reveal(g0, sx as int, sy as int));
            return self.board;
        }
        if current_tile.bomb == Bomb::IsBomb {
            current_tile.revealed = true;
            set_tile(&mut current_board, sx, sy, current_tile);
            self.board = current_board;
            proof {
                lemma_reveal_single(g0, sx as int, sy as int);
            }
            return self.board;
        }
        let mut check_tile_queue: Vec<Point> = Vec::new();
        check_tile_queue.push(Point(tile[0], tile[1]));
        let mut queued = no_marks();
        set_mark(&mut queued, sx, sy);
        let mut head: usize = 0;
        let ghost mut place: Map<(int, int), int> = Map::empty().insert((sx as int, sy as int), 0);
        proof {
            lemma_cascade_start(g0, sx as int, sy as int);
        }

        while head < check_tile_queue.len()
            invariant
                in_bounds(sx as int, sy as int),
                well_shaped(g0),
                head <= check_tile_queue.len(),
                marked(marks_view(queued), sx as int, sy as int),
                queue_fits(
                    g0,
                    sx as int,
                    sy as int,
                    marks_view(queued),
                    check_tile_queue@,
                    place,
                ),
                grid_fits(g0, grid_view(current_board), marks_view(queued), place, head as int),
                spread_fits(g0, marks_view(queued), place, head as int),
            decreases WIDTH * HEIGHT - head,
        {
            proof {
                lemma_grid_count_bound(
                    marks_view(queued),
                    set_pred(),
                    HEIGHT as int,
                    WIDTH as int,
                );
            }
            let current_point = check_tile_queue[head];
            let px = current_point.0 as usize;
            let py = current_point.1 as usize;
            assert(marked(marks_view(queued), px as int, py as int));
            assert(place[(px as int, py as int)] == head);
            assert(!served(marks_view(queued), place, head as int, px as int, py as int));
            current_tile = get_tile(&current_board, px, py);
            assert(current_tile == g0[py as int][px as int]);

            if current_tile.bomb == Bomb::Bombs(0) {
                let mut k: usize = 0;
                while k < 8
                    invariant
                        k <= 8,
                        in_bounds(sx as int, sy as int),
                        well_shaped(g0),
                        in_bounds(px as int, py as int),
                        head < check_tile_queue.len(),
                        check_tile_queue[head as int] == current_point,
                        px == current_point.0,
                        py == current_point.1,
                        is_zero(g0, px as int, py as int),
                        marked(marks_view(queued), sx as int, sy as int),
                        queue_fits(
                            g0,
                            sx as int,
                            sy as int,
                            marks_view(queued),
                            check_tile_queue@,
                            place,
                        ),
                        grid_fits(
                            g0,
                            grid_view(current_board),
                            marks_view(queued),
                            place,
                            head as int,
                        ),
                        spread_fits(g0, marks_view(queued), place, head as int),
                        forall|j: int|
                            0 <= j < k && hidden(g0, px + (#[trigger] delta(j)).0, py + delta(j).1)
                                ==> marked(
                                marks_view(queued),
                                px + delta(j).0,
                                py + delta(j).1,
                            ),
                    decreases 8 - k,
                {
                    match neighbour(px, py, k) {
                        Some((nx, ny)) => {
                            if !get_tile(&current_board, nx, ny).revealed && !get_mark(
                                &queued,
                                nx,
                                ny,
                            ) {
                                proof {
                                    lemma_deltas_are_neighbours(px as int, py as int);
                                    assert(adjacent(px as int, py as int, nx as int, ny as int));
                                    lemma_cascade_step(
                                        g0,
                                        sx as int,
                                        sy as int,
                                        px as int,
                                        py as int,
                                        nx as int,
                                        ny as int,
                                    );
                                }
                                let noted = enqueue(
                                    &mut queued,
                                    &mut check_tile_queue,
                                    nx,
                                    ny,
                                    Ghost(g0),
                                    Ghost(sx as int),
                                    Ghost(sy as int),
                                    Ghost(place),
                                    Ghost(head as int),
                                );
                                proof {
                                    place = noted@;
                                }
                            }
                        },
                        None => {},
                    }
                    k = k + 1;
                }
                if current_tile.flagged {
                    current_tile.flagged = false;
                }
                current_tile.revealed = true;
                set_tile(&mut current_board, px, py, current_tile);
            } else if !current_tile.flagged {
                current_tile.revealed = true;
                set_tile(&mut current_board, px, py, current_tile);
            }
            proof {
                lemma_spread_served(
                    g0,
                    sx as int,
                    sy as int,
                    marks_view(queued),
                    check_tile_queue@,
                    place,
                    head as int,
                );
                let m = marks_view(queued);
                assert forall|x: int, y: int| in_bounds(x, y) implies served(
                    m,
                    place,
                    head + 1,
                    x,
                    y,
                ) == (served(m, place, head as int, x, y) || (x == px && y == py)) by {
                    if marked(m, x, y) && place[(x, y)] == head {
                        assert(x == px && y == py);
                    }
                }
            }
            head = head + 1;
        }
        self.board = current_board;
        proof {
            let m = marks_view(queued);
            let reach = |x: int, y: int| marked(m, x, y);
            assert forall|x: int, y: int| in_bounds(x, y) implies opened_by(
                g0,
                sx as int,
                sy as int,
                x,
                y,
            ) == (served(m, place, head as int, x, y) && yields(g0[y][x])) by {
                if in_cascade(g0, sx as int, sy as int, x, y) {
                    lemma_cascade_within(g0, sx as int, sy as int, reach, x, y);
                }
            }
            assert(self.grid() =~~= after_reveal(g0, sx as int, sy as int));
        }
        self.board
    }
}

} // verus!
