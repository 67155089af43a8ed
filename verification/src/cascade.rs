use vstd::prelude::*;
use crate::grid::{adjacent, in_bounds, is_zero, well_shaped, with_tile, Grid};
use crate::tile::{Bomb, Tile, HEIGHT, WIDTH};

verus! {

/// `(x, y)` is on the grid and its tile is not revealed.
pub open spec fn hidden(g: Grid, x: int, y: int) -> bool {
    in_bounds(x, y) && !g[y][x].revealed
}

/// A way along which a cascade runs: hidden tiles, each next to the one
/// before it, and all but the last without a mine around them.
pub open spec fn cascade_path(g: Grid, path: Seq<(int, int)>) -> bool {
    &&& path.len() > 0
    &&& forall|i: int| 0 <= i < path.len() ==> hidden(g, (#[trigger] path[i]).0, path[i].1)
    &&& forall|i: int|
        0 <= i < path.len() - 1 ==> is_zero(g, (#[trigger] path[i]).0, path[i].1) && adjacent(
            path[i].0,
            path[i].1,
            path[i + 1].0,
            path[i + 1].1,
        )
}

/// A cascade that starts at `(sx, sy)` reaches `(x, y)`.
pub open spec fn in_cascade(g: Grid, sx: int, sy: int, x: int, y: int) -> bool {
    exists|path: Seq<(int, int)>| #[trigger]
        cascade_path(g, path) && path[0] == (sx, sy) && path[path.len() - 1] == (x, y)
}

/// A tile that a cascade reaches is opened, unless it carries a flag and
/// has a mine in it or around it.
pub open spec fn yields(t: Tile) -> bool {
    t.bomb == Bomb::Bombs(0) || !t.flagged
}

/// The tile `t` once opened: revealed, without a flag.
pub open spec fn opened(t: Tile) -> Tile {
    Tile { bomb: t.bomb, revealed: true, flagged: false }
}

/// A reveal at `(sx, sy)` does anything at all: the tile there is neither
/// revealed nor flagged.
pub open spec fn reveal_applies(g: Grid, sx: int, sy: int) -> bool {
    !g[sy][sx].revealed && !g[sy][sx].flagged
}

/// A reveal at `(sx, sy)` opens the tile at `(x, y)`.
pub open spec fn opened_by(g: Grid, sx: int, sy: int, x: int, y: int) -> bool {
    reveal_applies(g, sx, sy) && in_cascade(g, sx, sy, x, y) && yields(g[y][x])
}

/// The grid after a reveal at `(sx, sy)`.
pub open spec fn after_reveal(g: Grid, sx: int, sy: int) -> Grid {
    Seq::new(
        HEIGHT as nat,
        |y: int|
            Seq::new(
                WIDTH as nat,
                |x: int|
                    if opened_by(g, sx, sy, x, y) {
                        opened(g[y][x])
                    } else {
                        g[y][x]
                    },
            ),
    )
}

/// A cascade reaches the tile it starts at.
pub proof fn lemma_cascade_start(g: Grid, sx: int, sy: int)
    requires
        hidden(g, sx, sy),
    ensures
        in_cascade(g, sx, sy, sx, sy),
{
    let path = seq![(sx, sy)];
    assert(cascade_path(g, path));
    assert(path[0] == (sx, sy) && path[path.len() - 1] == (sx, sy));
}

/// A cascade that reaches a tile without a mine around it reaches the
/// hidden tiles next to that tile too.
pub proof fn lemma_cascade_step(g: Grid, sx: int, sy: int, x: int, y: int, nx: int, ny: int)
    requires
        in_cascade(g, sx, sy, x, y),
        is_zero(g, x, y),
        adjacent(x, y, nx, ny),
        hidden(g, nx, ny),
    ensures
        in_cascade(g, sx, sy, nx, ny),
{
    let path = choose|path: Seq<(int, int)>| #[trigger]
        cascade_path(g, path) && path[0] == (sx, sy) && path[path.len() - 1] == (x, y);
    let longer = path.push((nx, ny));
    assert forall|i: int| 0 <= i < longer.len() implies hidden(
        g,
        (#[trigger] longer[i]).0,
        longer[i].1,
    ) by {
        if i < path.len() {
            assert(longer[i] == path[i]);
        }
    }
    assert forall|i: int| 0 <= i < longer.len() - 1 implies is_zero(
        g,
        (#[trigger] longer[i]).0,
        longer[i].1,
    ) && adjacent(longer[i].0, longer[i].1, longer[i + 1].0, longer[i + 1].1) by {
        assert(longer[i] == path[i]);
        if i < path.len() - 1 {
            assert(longer[i + 1] == path[i + 1]);
        }
    }
    assert(cascade_path(g, longer));
    assert(longer[0] == path[0]);
    assert(longer[longer.len() - 1] == (nx, ny));
}

/// What a cascade reaches, beyond its start, it reaches from a tile next
/// to it that has no mine around it.
pub proof fn lemma_cascade_last_step(g: Grid, sx: int, sy: int, x: int, y: int)
    requires
        in_cascade(g, sx, sy, x, y),
    ensures
        hidden(g, sx, sy),
        hidden(g, x, y),
        (x == sx && y == sy) || exists|px: int, py: int|
            #![trigger in_cascade(g, sx, sy, px, py)]
            in_cascade(g, sx, sy, px, py) && is_zero(g, px, py) && adjacent(px, py, x, y),
{
    let path = choose|path: Seq<(int, int)>| #[trigger]
        cascade_path(g, path) && path[0] == (sx, sy) && path[path.len() - 1] == (x, y);
    assert(hidden(g, path[0].0, path[0].1));
    assert(hidden(g, path[path.len() - 1].0, path[path.len() - 1].1));
    if path.len() > 1 {
        let shorter = path.drop_last();
        let p = path[path.len() - 2];
        assert forall|i: int| 0 <= i < shorter.len() implies hidden(
            g,
            (#[trigger] shorter[i]).0,
            shorter[i].1,
        ) by {
            assert(shorter[i] == path[i]);
        }
        assert forall|i: int| 0 <= i < shorter.len() - 1 implies is_zero(
            g,
            (#[trigger] shorter[i]).0,
            shorter[i].1,
        ) && adjacent(shorter[i].0, shorter[i].1, shorter[i + 1].0, shorter[i + 1].1) by {
            assert(shorter[i] == path[i]);
            assert(shorter[i + 1] == path[i + 1]);
        }
        assert(cascade_path(g, shorter));
        assert(shorter[0] == (sx, sy));
        assert(shorter[shorter.len() - 1] == p);
        assert(in_cascade(g, sx, sy, p.0, p.1));
        assert(is_zero(g, p.0, p.1) && adjacent(p.0, p.1, x, y));
    }
}

/// A set of tiles that holds the start of a cascade and, with each hidden
/// tile that has no mine around it, the hidden tiles next to that one, holds
/// every tile of the cascade up to the `i`-th of a path.
proof fn lemma_path_within(
    g: Grid,
    path: Seq<(int, int)>,
    reach: spec_fn(int, int) -> bool,
    i: int,
)
    requires
        cascade_path(g, path),
        0 <= i < path.len(),
        reach(path[0].0, path[0].1),
        forall|px: int, py: int, nx: int, ny: int|
            reach(px, py) && hidden(g, px, py) && is_zero(g, px, py) && #[trigger] adjacent(
                px,
                py,
                nx,
                ny,
            ) && hidden(g, nx, ny) ==> reach(nx, ny),
    ensures
        reach(path[i].0, path[i].1),
    decreases i,
{
    if i > 0 {
        lemma_path_within(g, path, reach, i - 1);
        let p = path[i - 1];
        let n = path[i];
        assert(hidden(g, p.0, p.1));
        assert(hidden(g, n.0, n.1));
        assert(is_zero(g, p.0, p.1) && adjacent(p.0, p.1, n.0, n.1));
    }
}

/// A set of tiles that holds the start of a cascade and, with each hidden
/// tile that has no mine around it, the hidden tiles next to that one, holds
/// the whole cascade.
pub proof fn lemma_cascade_within(
    g: Grid,
    sx: int,
    sy: int,
    reach: spec_fn(int, int) -> bool,
    x: int,
    y: int,
)
    requires
        reach(sx, sy),
        forall|px: int, py: int, nx: int, ny: int|
            reach(px, py) && hidden(g, px, py) && is_zero(g, px, py) && #[trigger] adjacent(
                px,
                py,
                nx,
                ny,
            ) && hidden(g, nx, ny) ==> reach(nx, ny),
        in_cascade(g, sx, sy, x, y),
    ensures
        reach(x, y),
{
    let path = choose|path: Seq<(int, int)>| #[trigger]
        cascade_path(g, path) && path[0] == (sx, sy) && path[path.len() - 1] == (x, y);
    lemma_path_within(g, path, reach, path.len() - 1);
}

/// A cascade that starts at a tile with a mine in it or around it goes no
/// further than that tile.
pub proof fn lemma_cascade_stops(g: Grid, sx: int, sy: int, x: int, y: int)
    requires
        !is_zero(g, sx, sy),
        in_cascade(g, sx, sy, x, y),
    ensures
        x == sx && y == sy,
{
    let path = choose|path: Seq<(int, int)>| #[trigger]
        cascade_path(g, path) && path[0] == (sx, sy) && path[path.len() - 1] == (x, y);
    if path.len() > 1 {
        assert(is_zero(g, path[0].0, path[0].1));
    }
}

/// What a cascade reaches from a tile that another cascade reaches, that
/// other cascade reaches too.
pub proof fn lemma_cascade_joins(g: Grid, ax: int, ay: int, bx: int, by: int, x: int, y: int)
    requires
        in_cascade(g, ax, ay, bx, by),
        in_cascade(g, bx, by, x, y),
    ensures
        in_cascade(g, ax, ay, x, y),
{
    let reach = |cx: int, cy: int| in_cascade(g, ax, ay, cx, cy);
    assert forall|px: int, py: int, nx: int, ny: int|
        reach(px, py) && hidden(g, px, py) && is_zero(g, px, py) && #[trigger] adjacent(
            px,
            py,
            nx,
            ny,
        ) && hidden(g, nx, ny) implies reach(nx, ny) by {
        lemma_cascade_step(g, ax, ay, px, py, nx, ny);
    }
    lemma_cascade_within(g, bx, by, reach, x, y);
}

/// The grid `h` is the grid `g` with more tiles revealed: it has the same
/// mines and numbers, and what is revealed in `g` is revealed in `h`.
pub open spec fn further(g: Grid, h: Grid) -> bool {
    forall|x: int, y: int|
        in_bounds(x, y) ==> (#[trigger] h[y][x]).bomb == g[y][x].bomb && (g[y][x].revealed
            ==> h[y][x].revealed)
}

/// With more tiles revealed a cascade reaches no new tile.
pub proof fn lemma_cascade_shrinks(g: Grid, h: Grid, sx: int, sy: int, x: int, y: int)
    requires
        further(g, h),
        in_cascade(h, sx, sy, x, y),
    ensures
        in_cascade(g, sx, sy, x, y),
{
    let path = choose|path: Seq<(int, int)>| #[trigger]
        cascade_path(h, path) && path[0] == (sx, sy) && path[path.len() - 1] == (x, y);
    assert forall|i: int| 0 <= i < path.len() implies hidden(
        g,
        (#[trigger] path[i]).0,
        path[i].1,
    ) by {
        assert(hidden(h, path[i].0, path[i].1));
        assert(h[path[i].1][path[i].0].bomb == g[path[i].1][path[i].0].bomb);
    }
    assert forall|i: int| 0 <= i < path.len() - 1 implies is_zero(
        g,
        (#[trigger] path[i]).0,
        path[i].1,
    ) && adjacent(path[i].0, path[i].1, path[i + 1].0, path[i + 1].1) by {
        assert(hidden(h, path[i].0, path[i].1));
        assert(h[path[i].1][path[i].0].bomb == g[path[i].1][path[i].0].bomb);
    }
    assert(cascade_path(g, path));
}

/// A cascade on `g` from `(sx, sy)` reaches `(x, y)` through a tile that is
/// hidden in `g` and revealed in `h`.
pub open spec fn cut_off(g: Grid, h: Grid, sx: int, sy: int, x: int, y: int) -> bool {
    exists|px: int, py: int|
        #![trigger in_cascade(g, sx, sy, px, py)]
        hidden(g, px, py) && !hidden(h, px, py) && in_cascade(g, sx, sy, px, py) && in_cascade(
            g,
            px,
            py,
            x,
            y,
        )
}

/// With more tiles revealed a cascade still reaches what it reached
/// before, unless it has to pass a tile that is now revealed.
pub proof fn lemma_cascade_survives(g: Grid, h: Grid, sx: int, sy: int, x: int, y: int)
    requires
        further(g, h),
        in_cascade(g, sx, sy, x, y),
    ensures
        in_cascade(h, sx, sy, x, y) || cut_off(g, h, sx, sy, x, y),
{
    let reach = |cx: int, cy: int|
        in_cascade(g, sx, sy, cx, cy) && (in_cascade(h, sx, sy, cx, cy) || cut_off(
            g,
            h,
            sx,
            sy,
            cx,
            cy,
        ));
    lemma_cascade_last_step(g, sx, sy, x, y);
    lemma_cascade_start(g, sx, sy);
    if hidden(h, sx, sy) {
        lemma_cascade_start(h, sx, sy);
    } else {
        assert(cut_off(g, h, sx, sy, sx, sy));
    }
    assert(reach(sx, sy));
    assert forall|px: int, py: int, nx: int, ny: int|
        reach(px, py) && hidden(g, px, py) && is_zero(g, px, py) && #[trigger] adjacent(
            px,
            py,
            nx,
            ny,
        ) && hidden(g, nx, ny) implies reach(nx, ny) by {
        lemma_cascade_step(g, sx, sy, px, py, nx, ny);
        if cut_off(g, h, sx, sy, px, py) {
            let (qx, qy) = choose|qx: int, qy: int|
                #![trigger in_cascade(g, sx, sy, qx, qy)]
                hidden(g, qx, qy) && !hidden(h, qx, qy) && in_cascade(g, sx, sy, qx, qy)
                    && in_cascade(g, qx, qy, px, py);
            lemma_cascade_step(g, qx, qy, px, py, nx, ny);
            assert(cut_off(g, h, sx, sy, nx, ny));
        } else {
            assert(in_cascade(h, sx, sy, px, py));
            lemma_cascade_last_step(h, sx, sy, px, py);
            assert(h[py][px].bomb == g[py][px].bomb);
            if hidden(h, nx, ny) {
                lemma_cascade_step(h, sx, sy, px, py, nx, ny);
            } else {
                lemma_cascade_start(g, nx, ny);
                assert(cut_off(g, h, sx, sy, nx, ny));
            }
        }
    }
    lemma_cascade_within(g, sx, sy, reach, x, y);
}

/// A reveal at a tile with a mine in it or around it opens that tile and
/// no other.
pub proof fn lemma_reveal_single(g: Grid, sx: int, sy: int)
    requires
        well_shaped(g),
        in_bounds(sx, sy),
        reveal_applies(g, sx, sy),
        !is_zero(g, sx, sy),
    ensures
        after_reveal(g, sx, sy) == with_tile(g, sx, sy, opened(g[sy][sx])),
{
    lemma_cascade_start(g, sx, sy);
    assert forall|x: int, y: int| in_bounds(x, y) implies opened_by(g, sx, sy, x, y) == (x == sx
        && y == sy) by {
        if in_cascade(g, sx, sy, x, y) {
            lemma_cascade_stops(g, sx, sy, x, y);
        }
    }
    assert(after_reveal(g, sx, sy) =~~= with_tile(g, sx, sy, opened(g[sy][sx])));
}

} // verus!
