use vstd::prelude::*;
use crate::cascade::{
    after_reveal, hidden, in_cascade, lemma_cascade_start, lemma_cascade_step,
    lemma_cascade_stops, lemma_cascade_within, opened, opened_by, reveal_applies,
};
use crate::chord::{after_chord, chord_applies, chord_target, opened_by_chord};
use crate::generate::{
    distinct, lemma_adjacent_mines_agree, lemma_minefield_count, lemma_numbered, minefield,
    numbered, point_in_bounds, untouched,
};
use crate::grid::{
    adjacent, adjacent_flags, adjacent_mines, cascades_done, counts_match, flag_count,
    flag_pred, flags_hidden, in_bounds, in_play, is_mine, is_zero, lemma_grid_count_agree,
    mine_count, mine_pred, well_shaped, Grid,
};
use crate::interact::{after_flag, after_interaction};
use crate::status::{
    all_safe_revealed, evaluate, mine_revealed, mines_left, safe_tile_flagged, won,
};
use crate::tile::{Bomb, CurrentGame, Point, BOMBS, HEIGHT};

verus! {

/// Each tile of `h` is the tile of `g` at its place, as it was or opened.
pub open spec fn opens(g: Grid, h: Grid) -> bool {
    &&& well_shaped(h)
    &&& forall|x: int, y: int|
        in_bounds(x, y) ==> #[trigger] h[y][x] == g[y][x] || h[y][x] == opened(g[y][x])
}

/// No tile of the grid carries a flag.
pub open spec fn no_flags(g: Grid) -> bool {
    forall|x: int, y: int| in_bounds(x, y) ==> !(#[trigger] g[y][x]).flagged
}

/// Tiles without a mine in them or around them, each next to the one
/// before it.
pub open spec fn zero_path(g: Grid, path: Seq<(int, int)>) -> bool {
    &&& path.len() > 0
    &&& forall|i: int|
        0 <= i < path.len() ==> in_bounds((#[trigger] path[i]).0, path[i].1) && is_zero(
            g,
            path[i].0,
            path[i].1,
        )
    &&& forall|i: int|
        0 <= i < path.len() - 1 ==> adjacent(
            (#[trigger] path[i]).0,
            path[i].1,
            path[i + 1].0,
            path[i + 1].1,
        )
}

/// `(x, y)` lies in the region of tiles without a mine around them that
/// `(sx, sy)` lies in.
pub open spec fn in_zero_region(g: Grid, sx: int, sy: int, x: int, y: int) -> bool {
    exists|path: Seq<(int, int)>| #[trigger]
        zero_path(g, path) && path[0] == (sx, sy) && path[path.len() - 1] == (x, y)
}

/// `(x, y)` lies in the region of `(sx, sy)` or next to a tile of it.
pub open spec fn in_closure(g: Grid, sx: int, sy: int, x: int, y: int) -> bool {
    in_bounds(x, y) && (in_zero_region(g, sx, sy, x, y) || exists|px: int, py: int|
        #![trigger in_zero_region(g, sx, sy, px, py)]
        in_zero_region(g, sx, sy, px, py) && adjacent(px, py, x, y))
}

/// A tile without a mine around it lies in its own region.
proof fn lemma_region_start(g: Grid, sx: int, sy: int)
    requires
        in_bounds(sx, sy),
        is_zero(g, sx, sy),
    ensures
        in_zero_region(g, sx, sy, sx, sy),
{
    let path = seq![(sx, sy)];
    assert(zero_path(g, path));
    assert(path[0] == (sx, sy) && path[path.len() - 1] == (sx, sy));
}

/// A region holds, with each tile, the tiles without a mine around them
/// next to it.
proof fn lemma_region_step(g: Grid, sx: int, sy: int, x: int, y: int, nx: int, ny: int)
    requires
        in_zero_region(g, sx, sy, x, y),
        adjacent(x, y, nx, ny),
        in_bounds(nx, ny),
        is_zero(g, nx, ny),
    ensures
        in_zero_region(g, sx, sy, nx, ny),
{
    let path = choose|path: Seq<(int, int)>| #[trigger]
        zero_path(g, path) && path[0] == (sx, sy) && path[path.len() - 1] == (x, y);
    let longer = path.push((nx, ny));
    assert forall|i: int| 0 <= i < longer.len() implies in_bounds(
        (#[trigger] longer[i]).0,
        longer[i].1,
    ) && is_zero(g, longer[i].0, longer[i].1) by {
        if i < path.len() {
            assert(longer[i] == path[i]);
        }
    }
    assert forall|i: int| 0 <= i < longer.len() - 1 implies adjacent(
        (#[trigger] longer[i]).0,
        longer[i].1,
        longer[i + 1].0,
        longer[i + 1].1,
    ) by {
        assert(longer[i] == path[i]);
        if i < path.len() - 1 {
            assert(longer[i + 1] == path[i + 1]);
        }
    }
    assert(zero_path(g, longer));
    assert(longer[0] == path[0]);
    assert(longer[longer.len() - 1] == (nx, ny));
}

/// On a grid where no cascade has stopped half way, the tiles up to the
/// `i`-th of a path through a region that starts at a hidden tile are hidden,
/// and a cascade from the start reaches them.
proof fn lemma_region_hidden(g: Grid, path: Seq<(int, int)>, i: int)
    requires
        cascades_done(g),
        zero_path(g, path),
        hidden(g, path[0].0, path[0].1),
        0 <= i < path.len(),
    ensures
        hidden(g, path[i].0, path[i].1),
        in_cascade(g, path[0].0, path[0].1, path[i].0, path[i].1),
    decreases i,
{
    if i == 0 {
        lemma_cascade_start(g, path[0].0, path[0].1);
    } else {
        lemma_region_hidden(g, path, i - 1);
        let p = path[i - 1];
        let n = path[i];
        assert(in_bounds(p.0, p.1) && is_zero(g, p.0, p.1));
        assert(in_bounds(n.0, n.1) && is_zero(g, n.0, n.1));
        assert(adjacent(p.0, p.1, n.0, n.1));
        assert(adjacent(n.0, n.1, p.0, p.1));
        if g[n.1][n.0].revealed {
            assert(g[p.1][p.0].revealed);
        }
        lemma_cascade_step(g, path[0].0, path[0].1, p.0, p.1, n.0, n.1);
    }
}

/// Mines are laid out and counted as a game needs them: from `BOMBS`
/// different positions on the grid comes a grid with exactly `BOMBS` mines,
/// on which every other tile shows the number of mines around it and nothing
/// is revealed or flagged.
pub proof fn law_laid_out_grid(points: Seq<Point>)
    requires
        points.len() == BOMBS,
        distinct(points),
        forall|i: int| 0 <= i < points.len() ==> point_in_bounds(#[trigger] points[i]),
    ensures
        mine_count(numbered(minefield(points, BOMBS as int))) == BOMBS,
        counts_match(numbered(minefield(points, BOMBS as int))),
        untouched(numbered(minefield(points, BOMBS as int))),
        in_play(numbered(minefield(points, BOMBS as int))),
{
    let field = minefield(points, BOMBS as int);
    lemma_minefield_count(points, BOMBS as int);
    assert(well_shaped(field));
    assert(untouched(field));
    lemma_numbered(field);
    law_fresh_grid_in_play(numbered(field));
}

/// A grid with `BOMBS` mines and matching numbers on which nothing is
/// revealed or flagged is a grid in play.
pub proof fn law_fresh_grid_in_play(g: Grid)
    requires
        well_shaped(g),
        mine_count(g) == BOMBS,
        counts_match(g),
        untouched(g),
    ensures
        in_play(g),
{
    assert forall|x: int, y: int| in_bounds(x, y) && (#[trigger] g[y][x]).revealed implies !g[y][x].flagged by {}
    assert forall|x: int, y: int, nx: int, ny: int|
        in_bounds(x, y) && g[y][x].revealed && is_zero(g, x, y) && #[trigger] adjacent(
            x,
            y,
            nx,
            ny,
        ) && in_bounds(nx, ny) && is_zero(g, nx, ny) implies g[ny][nx].revealed by {}
}

/// Opening tiles leaves the mines and the numbers as they are, and puts
/// no flag on a revealed tile.
pub proof fn lemma_opens_keeps(g: Grid, h: Grid)
    requires
        well_shaped(g),
        opens(g, h),
    ensures
        mine_count(h) == mine_count(g),
        counts_match(g) ==> counts_match(h),
        flags_hidden(g) ==> flags_hidden(h),
{
    assert forall|x: int, y: int| in_bounds(x, y) implies is_mine(h, x, y) == is_mine(g, x, y) by {
        assert(h[y][x] == g[y][x] || h[y][x] == opened(g[y][x]));
    }
    assert forall|x: int, y: int| 0 <= y < HEIGHT && 0 <= x < h[y].len() implies mine_pred()(
        #[trigger] h[y][x],
    ) == mine_pred()(g[y][x]) by {
        assert(is_mine(h, x, y) == is_mine(g, x, y));
    }
    lemma_grid_count_agree(h, g, mine_pred(), mine_pred(), HEIGHT as int);
    if counts_match(g) {
        assert forall|x: int, y: int| in_bounds(x, y) && !is_mine(h, x, y) implies #[trigger] h[y][x].bomb
            == Bomb::Bombs(adjacent_mines(h, x, y) as u8) by {
            lemma_adjacent_mines_agree(h, g, x, y);
            assert(is_mine(h, x, y) == is_mine(g, x, y));
            assert(g[y][x].bomb == Bomb::Bombs(adjacent_mines(g, x, y) as u8));
        }
    }
    if flags_hidden(g) {
        assert forall|x: int, y: int| in_bounds(x, y) && (#[trigger] h[y][x]).revealed implies !h[y][x].flagged by {
            assert(h[y][x] == g[y][x] || h[y][x] == opened(g[y][x]));
            if h[y][x] == g[y][x] {
                assert(g[y][x].revealed);
            }
        }
    }
}

/// A reveal keeps the grid in play.
pub proof fn law_reveal_keeps_play(g: Grid, x: int, y: int)
    requires
        in_play(g),
        in_bounds(x, y),
    ensures
        in_play(after_reveal(g, x, y)),
{
    let h = after_reveal(g, x, y);
    assert(opens(g, h));
    lemma_opens_keeps(g, h);
    assert forall|cx: int, cy: int, nx: int, ny: int|
        in_bounds(cx, cy) && h[cy][cx].revealed && is_zero(h, cx, cy) && #[trigger] adjacent(
            cx,
            cy,
            nx,
            ny,
        ) && in_bounds(nx, ny) && is_zero(h, nx, ny) implies h[ny][nx].revealed by {
        if !g[ny][nx].revealed {
            if g[cy][cx].revealed {
                assert(adjacent(cx, cy, nx, ny));
                assert(g[ny][nx].revealed);
            } else {
                assert(opened_by(g, x, y, cx, cy));
                lemma_cascade_step(g, x, y, cx, cy, nx, ny);
                assert(opened_by(g, x, y, nx, ny));
            }
        }
    }
}

/// A chord keeps the grid in play.
pub proof fn law_chord_keeps_play(g: Grid, x: int, y: int)
    requires
        in_play(g),
        in_bounds(x, y),
    ensures
        in_play(after_chord(g, x, y)),
{
    let h = after_chord(g, x, y);
    assert(opens(g, h));
    lemma_opens_keeps(g, h);
    assert forall|cx: int, cy: int, nx: int, ny: int|
        in_bounds(cx, cy) && h[cy][cx].revealed && is_zero(h, cx, cy) && #[trigger] adjacent(
            cx,
            cy,
            nx,
            ny,
        ) && in_bounds(nx, ny) && is_zero(h, nx, ny) implies h[ny][nx].revealed by {
        if !g[ny][nx].revealed {
            if g[cy][cx].revealed {
                assert(adjacent(cx, cy, nx, ny));
                assert(g[ny][nx].revealed);
            } else {
                assert(opened_by_chord(g, x, y, cx, cy));
                let (tx, ty) = choose|tx: int, ty: int| #[trigger]
                    chord_target(g, x, y, tx, ty) && opened_by(g, tx, ty, cx, cy);
                lemma_cascade_step(g, tx, ty, cx, cy, nx, ny);
                assert(opened_by(g, tx, ty, nx, ny));
                assert(opened_by_chord(g, x, y, nx, ny));
            }
        }
    }
}

/// Toggling a flag keeps the grid in play.
pub proof fn law_flag_keeps_play(g: Grid, x: int, y: int)
    requires
        in_play(g),
        in_bounds(x, y),
    ensures
        in_play(after_flag(g, x, y)),
{
    let h = after_flag(g, x, y);
    if !g[y][x].revealed {
        assert(well_shaped(h));
        assert forall|cx: int, cy: int| in_bounds(cx, cy) implies (#[trigger] h[cy][cx]).bomb
            == g[cy][cx].bomb && h[cy][cx].revealed == g[cy][cx].revealed by {}
        assert forall|cx: int, cy: int| in_bounds(cx, cy) implies is_mine(h, cx, cy) == is_mine(
            g,
            cx,
            cy,
        ) by {
            assert(h[cy][cx].bomb == g[cy][cx].bomb);
        }
        assert forall|cx: int, cy: int|
            0 <= cy < HEIGHT && 0 <= cx < h[cy].len() implies mine_pred()(#[trigger] h[cy][cx])
            == mine_pred()(g[cy][cx]) by {
            assert(h[cy][cx].bomb == g[cy][cx].bomb);
        }
        lemma_grid_count_agree(h, g, mine_pred(), mine_pred(), HEIGHT as int);
        assert forall|cx: int, cy: int|
            in_bounds(cx, cy) && !is_mine(h, cx, cy) implies #[trigger] h[cy][cx].bomb
            == Bomb::Bombs(adjacent_mines(h, cx, cy) as u8) by {
            lemma_adjacent_mines_agree(h, g, cx, cy);
            assert(h[cy][cx].bomb == g[cy][cx].bomb);
            assert(!is_mine(g, cx, cy));
            assert(g[cy][cx].bomb == Bomb::Bombs(adjacent_mines(g, cx, cy) as u8));
        }
        assert forall|cx: int, cy: int| in_bounds(cx, cy) && (#[trigger] h[cy][cx]).revealed implies !h[cy][cx].flagged by {
            assert(h[cy][cx].revealed == g[cy][cx].revealed);
            assert(g[cy][cx].revealed);
        }
        assert forall|cx: int, cy: int, nx: int, ny: int|
            in_bounds(cx, cy) && h[cy][cx].revealed && is_zero(h, cx, cy) && #[trigger] adjacent(
                cx,
                cy,
                nx,
                ny,
            ) && in_bounds(nx, ny) && is_zero(h, nx, ny) implies h[ny][nx].revealed by {
            assert(h[cy][cx].bomb == g[cy][cx].bomb);
            assert(h[ny][nx].bomb == g[ny][nx].bomb);
            assert(h[cy][cx].revealed == g[cy][cx].revealed);
            assert(h[ny][nx].revealed == g[ny][nx].revealed);
            assert(g[ny][nx].revealed);
        }
    }
}

/// Every interaction keeps the grid in play.
pub proof fn law_interaction_keeps_play(g: Grid, kind: Seq<char>, x: int, y: int)
    requires
        in_play(g),
        in_bounds(x, y),
    ensures
        in_play(after_interaction(g, kind, x, y)),
{
    law_reveal_keeps_play(g, x, y);
    law_chord_keeps_play(g, x, y);
    law_flag_keeps_play(g, x, y);
}

/// No interaction hides a tile again or changes what a tile holds.
pub proof fn law_reveal_is_for_good(g: Grid, kind: Seq<char>, x: int, y: int, cx: int, cy: int)
    requires
        well_shaped(g),
        in_bounds(x, y),
        in_bounds(cx, cy),
    ensures
        after_interaction(g, kind, x, y)[cy][cx].bomb == g[cy][cx].bomb,
        g[cy][cx].revealed ==> after_interaction(g, kind, x, y)[cy][cx].revealed,
{
}

/// On a grid without flags, a reveal at a hidden tile without a mine
/// around it opens the whole region of such tiles that the tile lies in,
/// with the tiles next to the region, and no other tile.
pub proof fn law_reveal_opens_region(g: Grid, sx: int, sy: int)
    requires
        well_shaped(g),
        cascades_done(g),
        no_flags(g),
        in_bounds(sx, sy),
        is_zero(g, sx, sy),
        hidden(g, sx, sy),
    ensures
        forall|x: int, y: int|
            in_bounds(x, y) ==> #[trigger] after_reveal(g, sx, sy)[y][x] == (if in_closure(
                g,
                sx,
                sy,
                x,
                y,
            ) {
                opened(g[y][x])
            } else {
                g[y][x]
            }),
{
    let h = after_reveal(g, sx, sy);
    assert(reveal_applies(g, sx, sy));
    lemma_region_start(g, sx, sy);
    let reach = |x: int, y: int| in_closure(g, sx, sy, x, y);
    assert(reach(sx, sy));
    assert forall|px: int, py: int, nx: int, ny: int|
        reach(px, py) && hidden(g, px, py) && is_zero(g, px, py) && #[trigger] adjacent(
            px,
            py,
            nx,
            ny,
        ) && hidden(g, nx, ny) implies reach(nx, ny) by {
        if !in_zero_region(g, sx, sy, px, py) {
            let (qx, qy) = choose|qx: int, qy: int|
                #![trigger in_zero_region(g, sx, sy, qx, qy)]
                in_zero_region(g, sx, sy, qx, qy) && adjacent(qx, qy, px, py);
            lemma_region_step(g, sx, sy, qx, qy, px, py);
        }
        assert(in_zero_region(g, sx, sy, px, py));
    }
    assert forall|x: int, y: int| in_bounds(x, y) implies #[trigger] h[y][x] == (if in_closure(
        g,
        sx,
        sy,
        x,
        y,
    ) {
        opened(g[y][x])
    } else {
        g[y][x]
    }) by {
        assert(!g[y][x].flagged);
        if in_closure(g, sx, sy, x, y) {
            if in_zero_region(g, sx, sy, x, y) {
                let path = choose|path: Seq<(int, int)>| #[trigger]
                    zero_path(g, path) && path[0] == (sx, sy) && path[path.len() - 1] == (x, y);
                lemma_region_hidden(g, path, path.len() - 1);
                assert(opened_by(g, sx, sy, x, y));
            } else {
                let (px, py) = choose|px: int, py: int|
                    #![trigger in_zero_region(g, sx, sy, px, py)]
                    in_zero_region(g, sx, sy, px, py) && adjacent(px, py, x, y);
                let path = choose|path: Seq<(int, int)>| #[trigger]
                    zero_path(g, path) && path[0] == (sx, sy) && path[path.len() - 1] == (
                        px,
                        py,
                    );
                lemma_region_hidden(g, path, path.len() - 1);
                assert(is_zero(g, path[path.len() - 1].0, path[path.len() - 1].1));
                if hidden(g, x, y) {
                    lemma_cascade_step(g, sx, sy, px, py, x, y);
                    assert(opened_by(g, sx, sy, x, y));
                } else {
                    assert(opened(g[y][x]) == g[y][x]);
                }
            }
        } else {
            if in_cascade(g, sx, sy, x, y) {
                lemma_cascade_within(g, sx, sy, reach, x, y);
            }
        }
    }
}

/// A cascade leaves a flagged tile with a mine in it or around it as it
/// is, whether it comes from a reveal or from a chord, and goes no further
/// from such a tile.
pub proof fn law_flag_stops_cascade(g: Grid, sx: int, sy: int, fx: int, fy: int)
    requires
        well_shaped(g),
        in_bounds(sx, sy),
        in_bounds(fx, fy),
        g[fy][fx].flagged,
        !is_zero(g, fx, fy),
    ensures
        after_reveal(g, sx, sy)[fy][fx] == g[fy][fx],
        after_chord(g, sx, sy)[fy][fx] == g[fy][fx],
        forall|x: int, y: int| #[trigger]
            in_cascade(g, fx, fy, x, y) ==> x == fx && y == fy,
{
    assert forall|x: int, y: int| #[trigger] in_cascade(g, fx, fy, x, y) implies x == fx && y
        == fy by {
        lemma_cascade_stops(g, fx, fy, x, y);
    }
}

/// Toggling the flag of a revealed tile changes nothing.
pub proof fn law_flag_on_revealed(g: Grid, x: int, y: int)
    requires
        g[y][x].revealed,
    ensures
        after_flag(g, x, y) == g,
{
}

/// Toggling the flag of a hidden tile twice gives the grid back.
pub proof fn law_flag_twice(g: Grid, x: int, y: int)
    requires
        well_shaped(g),
        in_bounds(x, y),
    ensures
        after_flag(after_flag(g, x, y), x, y) == g,
{
    assert(after_flag(after_flag(g, x, y), x, y) =~~= g);
}

/// A chord at a tile whose number differs from the number of flags around
/// it reveals nothing.
pub proof fn law_chord_mismatch(g: Grid, x: int, y: int)
    requires
        well_shaped(g),
        g[y][x].bomb != Bomb::Bombs(adjacent_flags(g, x, y) as u8),
    ensures
        after_chord(g, x, y) == g,
{
    assert(after_chord(g, x, y) =~~= g);
}

/// A chord at a revealed tile whose number, above zero, equals the number
/// of flags around it opens each neighbour that is hidden and without a flag,
/// and with it every tile that a reveal at that neighbour opens; it opens no
/// other tile.
pub proof fn law_chord_match(g: Grid, x: int, y: int, nx: int, ny: int)
    requires
        well_shaped(g),
        in_bounds(x, y),
        chord_applies(g, x, y),
        adjacent(x, y, nx, ny),
        in_bounds(nx, ny),
        !g[ny][nx].revealed,
        !g[ny][nx].flagged,
    ensures
        after_chord(g, x, y)[ny][nx] == opened(g[ny][nx]),
        forall|cx: int, cy: int|
            in_bounds(cx, cy) && opened_by(g, nx, ny, cx, cy) ==> #[trigger] after_chord(
                g,
                x,
                y,
            )[cy][cx] == after_reveal(g, nx, ny)[cy][cx],
        forall|cx: int, cy: int|
            in_bounds(cx, cy) && #[trigger] after_chord(g, x, y)[cy][cx] != g[cy][cx]
                ==> exists|tx: int, ty: int| #[trigger]
                chord_target(g, x, y, tx, ty) && after_reveal(g, tx, ty)[cy][cx] != g[cy][cx],
{
    let h = after_chord(g, x, y);
    assert(chord_target(g, x, y, nx, ny));
    lemma_cascade_start(g, nx, ny);
    assert(opened_by(g, nx, ny, nx, ny));
    assert(opened_by_chord(g, x, y, nx, ny));
    assert forall|cx: int, cy: int|
        in_bounds(cx, cy) && opened_by(g, nx, ny, cx, cy) implies #[trigger] h[cy][cx]
        == after_reveal(g, nx, ny)[cy][cx] by {
        assert(opened_by_chord(g, x, y, cx, cy));
    }
    assert forall|cx: int, cy: int|
        in_bounds(cx, cy) && #[trigger] h[cy][cx] != g[cy][cx] implies exists|tx: int, ty: int| #[trigger]
        chord_target(g, x, y, tx, ty) && after_reveal(g, tx, ty)[cy][cx] != g[cy][cx] by {
        assert(opened_by_chord(g, x, y, cx, cy));
        let (tx, ty) = choose|tx: int, ty: int| #[trigger]
            chord_target(g, x, y, tx, ty) && opened_by(g, tx, ty, cx, cy);
        assert(after_reveal(g, tx, ty)[cy][cx] == opened(g[cy][cx]));
    }
}

/// After a reveal at a mine without a flag the game is lost, whatever
/// else holds of the grid.
pub proof fn law_mine_reveal_loses(g: Grid, x: int, y: int, state: CurrentGame)
    requires
        well_shaped(g),
        in_bounds(x, y),
        is_mine(g, x, y),
        !g[y][x].flagged,
    ensures
        evaluate(after_reveal(g, x, y), state) == CurrentGame::Lose,
{
    let h = after_reveal(g, x, y);
    if !g[y][x].revealed {
        lemma_cascade_start(g, x, y);
        assert(opened_by(g, x, y, x, y));
    }
    assert(in_bounds(x, y) && is_mine(h, x, y) && h[y][x].revealed);
}

/// A game with a revealed mine stays lost.
pub proof fn law_lost_stays_lost(g: Grid, kind: Seq<char>, x: int, y: int, state: CurrentGame)
    requires
        well_shaped(g),
        in_bounds(x, y),
        mine_revealed(g),
    ensures
        evaluate(after_interaction(g, kind, x, y), state) == CurrentGame::Lose,
{
    let h = after_interaction(g, kind, x, y);
    let (mx, my) = choose|mx: int, my: int|
        in_bounds(mx, my) && is_mine(g, mx, my) && (#[trigger] g[my][mx]).revealed;
    law_reveal_is_for_good(g, kind, x, y, mx, my);
    assert(in_bounds(mx, my) && is_mine(h, mx, my) && h[my][mx].revealed);
}

/// With a flag on each of the `BOMBS` mines and on no other tile the game
/// is won and no mine is left to flag.
pub proof fn law_all_mines_flagged_wins(g: Grid, state: CurrentGame)
    requires
        well_shaped(g),
        mine_count(g) == BOMBS,
        flags_hidden(g),
        forall|x: int, y: int| in_bounds(x, y) ==> (#[trigger] g[y][x]).flagged == is_mine(g, x, y),
    ensures
        evaluate(g, state) == CurrentGame::Win,
        mines_left(g) == 0,
{
    assert forall|x: int, y: int| 0 <= y < HEIGHT && 0 <= x < g[y].len() implies flag_pred()(
        #[trigger] g[y][x],
    ) == mine_pred()(g[y][x]) by {
        assert(g[y][x].flagged == is_mine(g, x, y));
    }
    lemma_grid_count_agree(g, g, flag_pred(), mine_pred(), HEIGHT as int);
    assert(flag_count(g) == BOMBS);
    assert(!mine_revealed(g)) by {
        if mine_revealed(g) {
            let (x, y) = choose|x: int, y: int|
                in_bounds(x, y) && is_mine(g, x, y) && (#[trigger] g[y][x]).revealed;
            assert(g[y][x].flagged);
        }
    }
    assert(!safe_tile_flagged(g)) by {
        if safe_tile_flagged(g) {
            let (x, y) = choose|x: int, y: int|
                in_bounds(x, y) && !is_mine(g, x, y) && (#[trigger] g[y][x]).flagged;
            assert(g[y][x].flagged == is_mine(g, x, y));
        }
    }
}

/// With every tile that is no mine revealed, no flag on such a tile and
/// no mine revealed, the game is won.
pub proof fn law_all_safe_revealed_wins(g: Grid, state: CurrentGame)
    requires
        all_safe_revealed(g),
        !safe_tile_flagged(g),
        !mine_revealed(g),
    ensures
        evaluate(g, state) == CurrentGame::Win,
{
}

} // verus!
