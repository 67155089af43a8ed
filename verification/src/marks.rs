use vstd::prelude::*;
use crate::grid::{
    grid_count, in_bounds, lemma_grid_count_full, lemma_grid_count_update, lemma_grid_count_zero,
};
use crate::tile::{HEIGHT, WIDTH};

verus! {

/// What makes an entry of a table of marks count as set.
pub open spec fn set_pred() -> spec_fn(bool) -> bool {
    |b: bool| b
}

/// The model of a table of marks, one for each tile.
pub open spec fn marks_view(marks: [[bool; WIDTH]; HEIGHT]) -> Seq<Seq<bool>> {
    Seq::new(HEIGHT as nat, |y: int| marks[y]@)
}

/// A table in which no tile is marked.
pub fn no_marks() -> (marks: [[bool; WIDTH]; HEIGHT])
    ensures
        forall|x: int, y: int| in_bounds(x, y) ==> !(#[trigger] marks_view(marks)[y][x]),
        grid_count(marks_view(marks), set_pred(), HEIGHT as int) == 0,
{
    let row = [false; WIDTH];
    let marks = [row; HEIGHT];
    proof {
        assert(row == vstd::array::spec_array_fill_for_copy_type::<bool, WIDTH>(false));
        assert(marks == vstd::array::spec_array_fill_for_copy_type::<[bool; WIDTH], HEIGHT>(row));
        lemma_grid_count_zero(marks_view(marks), set_pred(), HEIGHT as int);
    }
    marks
}

/// Whether the tile at `(x, y)` is marked.
pub fn get_mark(marks: &[[bool; WIDTH]; HEIGHT], x: usize, y: usize) -> (b: bool)
    requires
        in_bounds(x as int, y as int),
    ensures
        b == marks_view(*marks)[y as int][x as int],
{
    marks[y][x]
}

/// Marks the tile at `(x, y)`.
pub fn set_mark(marks: &mut [[bool; WIDTH]; HEIGHT], x: usize, y: usize)
    requires
        in_bounds(x as int, y as int),
    ensures
        forall|cx: int, cy: int|
            in_bounds(cx, cy) ==> #[trigger] marks_view(*final(marks))[cy][cx] == ((cx == x && cy
                == y) || marks_view(*old(marks))[cy][cx]),
        grid_count(marks_view(*final(marks)), set_pred(), HEIGHT as int) == grid_count(
            marks_view(*old(marks)),
            set_pred(),
            HEIGHT as int,
        ) + (if marks_view(*old(marks))[y as int][x as int] {
            0nat
        } else {
            1nat
        }),
{
    let ghost before = marks_view(*marks);
    proof {
        lemma_grid_count_update(before, set_pred(), HEIGHT as int, x as int, y as int, true);
    }
    marks[y][x] = true;
    assert(marks_view(*marks) =~~= before.update(y as int, before[y as int].update(x as int, true)));
}

/// The first tile, row by row, that is not marked.
pub fn first_free(marks: &[[bool; WIDTH]; HEIGHT]) -> (p: (usize, usize))
    requires
        grid_count(marks_view(*marks), set_pred(), HEIGHT as int) < WIDTH * HEIGHT,
    ensures
        in_bounds(p.0 as int, p.1 as int),
        !marks_view(*marks)[p.1 as int][p.0 as int],
        forall|x: int, y: int|
            in_bounds(x, y) && (y < p.1 || (y == p.1 && x < p.0)) ==> #[trigger] marks_view(
                *marks,
            )[y][x],
{
    let mut y: usize = 0;
    while y < HEIGHT
        invariant
            y <= HEIGHT,
            forall|cx: int, cy: int|
                0 <= cy < y && 0 <= cx < WIDTH ==> #[trigger] marks_view(*marks)[cy][cx],
        decreases HEIGHT - y,
    {
        let mut x: usize = 0;
        while x < WIDTH
            invariant
                y < HEIGHT,
                x <= WIDTH,
                forall|cx: int, cy: int|
                    0 <= cy < y && 0 <= cx < WIDTH ==> #[trigger] marks_view(*marks)[cy][cx],
                forall|cx: int| 0 <= cx < x ==> #[trigger] marks_view(*marks)[y as int][cx],
            decreases WIDTH - x,
        {
            if !marks[y][x] {
                return (x, y);
            }
            x = x + 1;
        }
        y = y + 1;
    }
    proof {
        let m = marks_view(*marks);
        assert forall|cx: int, cy: int| 0 <= cy < HEIGHT && 0 <= cx < WIDTH implies set_pred()(
            #[trigger] m[cy][cx],
        ) by {
            assert(m[cy][cx]);
        }
        lemma_grid_count_full(m, set_pred(), HEIGHT as int, WIDTH as int);
    }
    (0, 0)
}

} // verus!
