use vstd::prelude::*;
use crate::tile::{delta, Bomb, Tile, BOMBS, HEIGHT, WIDTH};

verus! {

/// The mathematical model of a grid: `HEIGHT` rows of `WIDTH` tiles, so that
/// the tile at column `x` of row `y` is `g[y][x]`.
pub type Grid = Seq<Seq<Tile>>;

/// The model of an array of rows.
pub open spec fn grid_view(board: [[Tile; WIDTH]; HEIGHT]) -> Grid {
    Seq::new(HEIGHT as nat, |y: int| board[y]@)
}

/// `(x, y)` names a tile of the grid.
pub open spec fn in_bounds(x: int, y: int) -> bool {
    0 <= x < WIDTH && 0 <= y < HEIGHT
}

/// The grid has `HEIGHT` rows of `WIDTH` tiles.
pub open spec fn well_shaped(g: Grid) -> bool {
    &&& g.len() == HEIGHT
    &&& forall|y: int| 0 <= y < HEIGHT ==> (#[trigger] g[y]).len() == WIDTH
}

/// Two different positions that touch, by an edge or by a corner.
pub open spec fn adjacent(x1: int, y1: int, x2: int, y2: int) -> bool {
    &&& -1 <= x2 - x1 <= 1
    &&& -1 <= y2 - y1 <= 1
    &&& !(x1 == x2 && y1 == y2)
}

/// The tile at `(x, y)` is a mine.
pub open spec fn is_mine(g: Grid, x: int, y: int) -> bool {
    g[y][x].bomb == Bomb::IsBomb
}

/// The tile at `(x, y)` is no mine and has no mine around it.
pub open spec fn is_zero(g: Grid, x: int, y: int) -> bool {
    g[y][x].bomb == Bomb::Bombs(0)
}

/// What makes a tile count as a mine.
pub open spec fn mine_pred() -> spec_fn(Tile) -> bool {
    |t: Tile| t.bomb == Bomb::IsBomb
}

/// What makes a tile count as flagged.
pub open spec fn flag_pred() -> spec_fn(Tile) -> bool {
    |t: Tile| t.flagged
}

/// 1 where `(x, y)` is on the grid and its tile satisfies `f`, else 0.
pub open spec fn count_at(g: Grid, f: spec_fn(Tile) -> bool, x: int, y: int) -> nat {
    if in_bounds(x, y) && f(g[y][x]) {
        1
    } else {
        0
    }
}

/// How many of the up to eight neighbours of `(x, y)` satisfy `f`.
pub open spec fn adjacent_count(g: Grid, f: spec_fn(Tile) -> bool, x: int, y: int) -> nat {
    count_at(g, f, x, y + 1) + count_at(g, f, x + 1, y + 1) + count_at(g, f, x + 1, y)
        + count_at(g, f, x + 1, y - 1) + count_at(g, f, x, y - 1) + count_at(g, f, x - 1, y - 1)
        + count_at(g, f, x - 1, y) + count_at(g, f, x - 1, y + 1)
}

/// The number of mines among the up to eight neighbours of `(x, y)`.
pub open spec fn adjacent_mines(g: Grid, x: int, y: int) -> nat {
    adjacent_count(g, mine_pred(), x, y)
}

/// The number of flags among the up to eight neighbours of `(x, y)`.
pub open spec fn adjacent_flags(g: Grid, x: int, y: int) -> nat {
    adjacent_count(g, flag_pred(), x, y)
}

/// How many of the neighbours of `(x, y)` reached by the first `k` steps of
/// `DELTAS` satisfy `f`.
pub open spec fn count_among(g: Grid, f: spec_fn(Tile) -> bool, x: int, y: int, k: int) -> nat
    decreases k,
{
    if k <= 0 {
        0
    } else {
        count_among(g, f, x, y, k - 1) + count_at(g, f, x + delta(k - 1).0, y + delta(k - 1).1)
    }
}

/// The eight steps of `DELTAS` reach exactly the eight neighbours.
pub proof fn lemma_count_among_all(g: Grid, f: spec_fn(Tile) -> bool, x: int, y: int)
    ensures
        count_among(g, f, x, y, 8) == adjacent_count(g, f, x, y),
        adjacent_count(g, f, x, y) <= 8,
{
    reveal_with_fuel(count_among, 9);
}

/// Every step of `DELTAS` leads to an adjacent position, and every adjacent
/// position is reached by one of them.
pub proof fn lemma_deltas_are_neighbours(x: int, y: int)
    ensures
        forall|k: int| 0 <= k < 8 ==> adjacent(x, y, x + (#[trigger] delta(k)).0, y + delta(k).1),
        forall|nx: int, ny: int| #[trigger]
            adjacent(x, y, nx, ny) ==> exists|k: int|
                0 <= k < 8 && nx == x + (#[trigger] delta(k)).0 && ny == y + delta(k).1,
{
    assert forall|nx: int, ny: int| #[trigger] adjacent(x, y, nx, ny) implies exists|k: int|
        0 <= k < 8 && nx == x + (#[trigger] delta(k)).0 && ny == y + delta(k).1 by {
        let dx = nx - x;
        let dy = ny - y;
        let k: int = if dx == 0 && dy == 1 {
            0
        } else if dx == 1 && dy == 1 {
            1
        } else if dx == 1 && dy == 0 {
            2
        } else if dx == 1 && dy == -1 {
            3
        } else if dx == 0 && dy == -1 {
            4
        } else if dx == -1 && dy == -1 {
            5
        } else if dx == -1 && dy == 0 {
            6
        } else {
            7
        };
        assert(nx == x + delta(k).0 && ny == y + delta(k).1);
    }
}

/// Every tile that is no mine shows the number of mines around it.
pub open spec fn counts_match(g: Grid) -> bool {
    forall|x: int, y: int|
        in_bounds(x, y) && !is_mine(g, x, y) ==> #[trigger] g[y][x].bomb == Bomb::Bombs(
            adjacent_mines(g, x, y) as u8,
        )
}

/// No tile is both revealed and flagged.
pub open spec fn flags_hidden(g: Grid) -> bool {
    forall|x: int, y: int| in_bounds(x, y) && (#[trigger] g[y][x]).revealed ==> !g[y][x].flagged
}

/// Next to a revealed tile without a mine around it, every tile without a
/// mine around it is revealed too: no cascade has stopped half way.
pub open spec fn cascades_done(g: Grid) -> bool {
    forall|x: int, y: int, nx: int, ny: int|
        in_bounds(x, y) && g[y][x].revealed && is_zero(g, x, y) && #[trigger] adjacent(
            x,
            y,
            nx,
            ny,
        ) && in_bounds(nx, ny) && is_zero(g, nx, ny) ==> g[ny][nx].revealed
}

/// What holds of the grid throughout a game: it has `BOMBS` mines, every
/// other tile shows the number of mines around it, no revealed tile carries
/// a flag, and no cascade has stopped half way.
pub open spec fn in_play(g: Grid) -> bool {
    &&& well_shaped(g)
    &&& mine_count(g) == BOMBS
    &&& counts_match(g)
    &&& flags_hidden(g)
    &&& cascades_done(g)
}

/// The grid `g` with the tile at `(x, y)` replaced by `t`.
pub open spec fn with_tile(g: Grid, x: int, y: int, t: Tile) -> Grid {
    g.update(y, g[y].update(x, t))
}

/// How many of the first `n` items of `row` satisfy `f`.
pub open spec fn row_count<T>(row: Seq<T>, f: spec_fn(T) -> bool, n: int) -> nat
    decreases n,
{
    if n <= 0 {
        0
    } else {
        row_count(row, f, n - 1) + if f(row[n - 1]) {
            1nat
        } else {
            0nat
        }
    }
}

/// How many items in the first `rows` rows of `g` satisfy `f`.
pub open spec fn grid_count<T>(g: Seq<Seq<T>>, f: spec_fn(T) -> bool, rows: int) -> nat
    decreases rows,
{
    if rows <= 0 {
        0
    } else {
        grid_count(g, f, rows - 1) + row_count(g[rows - 1], f, g[rows - 1].len() as int)
    }
}

/// The number of mines on the grid.
pub open spec fn mine_count(g: Grid) -> nat {
    grid_count(g, mine_pred(), HEIGHT as int)
}

/// The number of flags on the grid.
pub open spec fn flag_count(g: Grid) -> nat {
    grid_count(g, flag_pred(), HEIGHT as int)
}

/// A count over a row is at most the number of items counted.
pub proof fn lemma_row_count_bound<T>(row: Seq<T>, f: spec_fn(T) -> bool, n: int)
    requires
        0 <= n,
    ensures
        row_count(row, f, n) <= n,
    decreases n,
{
    if n > 0 {
        lemma_row_count_bound(row, f, n - 1);
    }
}

/// A count over rows of one length is at most rows times that length.
pub proof fn lemma_grid_count_bound<T>(g: Seq<Seq<T>>, f: spec_fn(T) -> bool, rows: int, w: int)
    requires
        0 <= rows <= g.len(),
        forall|y: int| 0 <= y < rows ==> (#[trigger] g[y]).len() == w,
    ensures
        grid_count(g, f, rows) <= rows * w,
    decreases rows,
{
    if rows > 0 {
        lemma_grid_count_bound(g, f, rows - 1, w);
        lemma_row_count_bound(g[rows - 1], f, w);
        assert(rows * w == (rows - 1) * w + w) by (nonlinear_arith);
    } else {
        assert(rows * w == 0) by (nonlinear_arith)
            requires
                rows == 0,
        ;
    }
}

/// Two rows that agree on `f` item by item have the same count.
pub proof fn lemma_row_count_agree<T>(
    a: Seq<T>,
    b: Seq<T>,
    f: spec_fn(T) -> bool,
    h: spec_fn(T) -> bool,
    n: int,
)
    requires
        forall|i: int| 0 <= i < n ==> f(#[trigger] a[i]) == h(b[i]),
    ensures
        row_count(a, f, n) == row_count(b, h, n),
    decreases n,
{
    if n > 0 {
        lemma_row_count_agree(a, b, f, h, n - 1);
        assert(f(a[n - 1]) == h(b[n - 1]));
    }
}

/// Two grids of one shape that agree on `f` item by item have the same count.
pub proof fn lemma_grid_count_agree<T>(
    a: Seq<Seq<T>>,
    b: Seq<Seq<T>>,
    f: spec_fn(T) -> bool,
    h: spec_fn(T) -> bool,
    rows: int,
)
    requires
        forall|y: int| 0 <= y < rows ==> (#[trigger] a[y]).len() == b[y].len(),
        forall|x: int, y: int|
            0 <= y < rows && 0 <= x < a[y].len() ==> f(#[trigger] a[y][x]) == h(b[y][x]),
    ensures
        grid_count(a, f, rows) == grid_count(b, h, rows),
    decreases rows,
{
    if rows > 0 {
        lemma_grid_count_agree(a, b, f, h, rows - 1);
        let ra = a[rows - 1];
        let rb = b[rows - 1];
        assert(ra.len() == rb.len());
        assert forall|i: int| 0 <= i < ra.len() implies f(#[trigger] ra[i]) == h(rb[i]) by {
            assert(f(a[rows - 1][i]) == h(b[rows - 1][i]));
        }
        lemma_row_count_agree(ra, rb, f, h, ra.len() as int);
    }
}

/// Replacing one item of a row moves the count by what that item adds.
pub proof fn lemma_row_count_update<T>(row: Seq<T>, f: spec_fn(T) -> bool, n: int, i: int, t: T)
    requires
        0 <= i < row.len(),
        0 <= n <= row.len(),
    ensures
        row_count(row.update(i, t), f, n) + (if i < n && f(row[i]) {
            1nat
        } else {
            0nat
        }) == row_count(row, f, n) + (if i < n && f(t) {
            1nat
        } else {
            0nat
        }),
    decreases n,
{
    if n > 0 {
        lemma_row_count_update(row, f, n - 1, i, t);
    }
}

/// Replacing one item of a grid moves the count by what that item adds.
pub proof fn lemma_grid_count_update<T>(
    g: Seq<Seq<T>>,
    f: spec_fn(T) -> bool,
    rows: int,
    x: int,
    y: int,
    t: T,
)
    requires
        0 <= rows <= g.len(),
        0 <= y < g.len(),
        0 <= x < g[y].len(),
    ensures
        grid_count(g.update(y, g[y].update(x, t)), f, rows) + (if y < rows && f(g[y][x]) {
            1nat
        } else {
            0nat
        }) == grid_count(g, f, rows) + (if y < rows && f(t) {
            1nat
        } else {
            0nat
        }),
    decreases rows,
{
    if rows > 0 {
        lemma_grid_count_update(g, f, rows - 1, x, y, t);
        if y == rows - 1 {
            lemma_row_count_update(g[y], f, g[y].len() as int, x, t);
        }
    }
}

/// A count over a row is 0 exactly when no item counted satisfies `f`.
pub proof fn lemma_row_count_zero<T>(row: Seq<T>, f: spec_fn(T) -> bool, n: int)
    ensures
        row_count(row, f, n) == 0 <==> forall|i: int| 0 <= i < n ==> !f(#[trigger] row[i]),
    decreases n,
{
    if n > 0 {
        lemma_row_count_zero(row, f, n - 1);
        if row_count(row, f, n) == 0 {
            assert forall|i: int| 0 <= i < n implies !f(#[trigger] row[i]) by {
                if i < n - 1 {
                }
            }
        } else {
            if f(row[n - 1]) {
            } else {
                let i = choose|i: int| 0 <= i < n - 1 && f(#[trigger] row[i]);
                assert(f(row[i]));
            }
        }
    }
}

/// A count over a grid is 0 exactly when no item counted satisfies `f`.
pub proof fn lemma_grid_count_zero<T>(g: Seq<Seq<T>>, f: spec_fn(T) -> bool, rows: int)
    ensures
        grid_count(g, f, rows) == 0 <==> forall|x: int, y: int|
            0 <= y < rows && 0 <= x < g[y].len() ==> !f(#[trigger] g[y][x]),
    decreases rows,
{
    if rows > 0 {
        lemma_grid_count_zero(g, f, rows - 1);
        let last = g[rows - 1];
        lemma_row_count_zero(last, f, last.len() as int);
        if grid_count(g, f, rows) == 0 {
            assert forall|x: int, y: int| 0 <= y < rows && 0 <= x < g[y].len() implies !f(
                #[trigger] g[y][x],
            ) by {
                if y == rows - 1 {
                    assert(!f(last[x]));
                }
            }
        } else {
            if grid_count(g, f, rows - 1) != 0 {
                let (x, y) = choose|x: int, y: int|
                    0 <= y < rows - 1 && 0 <= x < g[y].len() && f(#[trigger] g[y][x]);
                assert(f(g[y][x]));
            } else {
                let i = choose|i: int| 0 <= i < last.len() && f(#[trigger] last[i]);
                assert(f(g[rows - 1][i]));
            }
        }
    }
}

/// A count over a row is the number of items counted exactly when all of
/// them satisfy `f`.
pub proof fn lemma_row_count_full<T>(row: Seq<T>, f: spec_fn(T) -> bool, n: int)
    requires
        0 <= n,
    ensures
        row_count(row, f, n) == n <==> forall|i: int| 0 <= i < n ==> f(#[trigger] row[i]),
    decreases n,
{
    if n > 0 {
        lemma_row_count_full(row, f, n - 1);
        lemma_row_count_bound(row, f, n - 1);
        if row_count(row, f, n) == n {
            assert forall|i: int| 0 <= i < n implies f(#[trigger] row[i]) by {
                if i < n - 1 {
                }
            }
        } else {
            if !f(row[n - 1]) {
            } else {
                let i = choose|i: int| 0 <= i < n - 1 && !f(#[trigger] row[i]);
                assert(!f(row[i]));
            }
        }
    }
}

/// A count over rows of one length is rows times that length exactly when
/// all items satisfy `f`.
pub proof fn lemma_grid_count_full<T>(g: Seq<Seq<T>>, f: spec_fn(T) -> bool, rows: int, w: int)
    requires
        0 <= rows <= g.len(),
        forall|y: int| 0 <= y < rows ==> (#[trigger] g[y]).len() == w,
    ensures
        grid_count(g, f, rows) == rows * w <==> forall|x: int, y: int|
            0 <= y < rows && 0 <= x < w ==> f(#[trigger] g[y][x]),
    decreases rows,
{
    if rows > 0 {
        lemma_grid_count_full(g, f, rows - 1, w);
        lemma_grid_count_bound(g, f, rows - 1, w);
        let last = g[rows - 1];
        lemma_row_count_full(last, f, w);
        lemma_row_count_bound(last, f, w);
        assert(rows * w == (rows - 1) * w + w) by (nonlinear_arith);
        if grid_count(g, f, rows) == rows * w {
            assert forall|x: int, y: int| 0 <= y < rows && 0 <= x < w implies f(
                #[trigger] g[y][x],
            ) by {
                if y == rows - 1 {
                    assert(f(last[x]));
                }
            }
        } else {
            if grid_count(g, f, rows - 1) != (rows - 1) * w {
                let (x, y) = choose|x: int, y: int|
                    0 <= y < rows - 1 && 0 <= x < w && !f(#[trigger] g[y][x]);
                assert(!f(g[y][x]));
            } else {
                let i = choose|i: int| 0 <= i < w && !f(#[trigger] last[i]);
                assert(!f(g[rows - 1][i]));
            }
        }
    } else {
        assert(rows * w == 0) by (nonlinear_arith)
            requires
                rows == 0,
        ;
    }
}

} // verus!
