//! Geometry of the wall array: which two cells a wall index separates.
//!
//! Walls are stored row by row. Each row holds `columns - 1` vertical walls
//! (between horizontally adjacent cells) followed by `columns` horizontal
//! walls (between the row and the one below). The last row stops after its
//! vertical walls, since the bottom boundary is not stored.
use vstd::arithmetic::div_mod::lemma_fundamental_div_mod_converse;
use vstd::prelude::*;

verus! {

/// Wall slots taken by one row of a grid with `columns` columns.
pub open spec fn row_stride(columns: int) -> int {
    2 * columns - 1
}

/// Number of internal walls of a `columns` x `rows` grid.
pub open spec fn wall_total(columns: int, rows: int) -> int {
    (columns - 1) * rows + (rows - 1) * columns
}

/// Grid sizes whose cell and wall indices all fit in `usize`.
pub open spec fn dims_fit(columns: int, rows: int) -> bool {
    &&& columns >= 1
    &&& rows >= 1
    &&& rows * row_stride(columns) <= usize::MAX
}

/// `(row, column)` of the two cells separated by wall `w`.
pub open spec fn wall_sides(columns: int, w: int) -> ((int, int), (int, int)) {
    let row = w / row_stride(columns);
    let offset = w % row_stride(columns);
    if offset < columns - 1 {
        ((row, offset), (row, offset + 1))
    } else {
        ((row, offset - (columns - 1)), (row + 1, offset - (columns - 1)))
    }
}

/// Linear index of the cell at `pos = (row, column)`.
pub open spec fn cell_index(columns: int, pos: (int, int)) -> int {
    pos.0 * columns + pos.1
}

/// Index of the upper or left cell next to wall `w`.
pub open spec fn side_a(columns: int, w: int) -> int {
    cell_index(columns, wall_sides(columns, w).0)
}

/// Index of the lower or right cell next to wall `w`.
pub open spec fn side_b(columns: int, w: int) -> int {
    cell_index(columns, wall_sides(columns, w).1)
}

/// The two cells of a wall lie in the grid, and are horizontal or vertical
/// neighbours.
pub proof fn lemma_wall_sides_in_grid(columns: int, rows: int, w: int)
    requires
        columns >= 1,
        rows >= 1,
        0 <= w < wall_total(columns, rows),
    ensures
        0 <= wall_sides(columns, w).0.0 < rows,
        0 <= wall_sides(columns, w).0.1 < columns,
        0 <= wall_sides(columns, w).1.0 < rows,
        0 <= wall_sides(columns, w).1.1 < columns,
        0 <= side_a(columns, w) < side_b(columns, w) < columns * rows,
{
    let s = row_stride(columns);
    let row = w / s;
    let offset = w % s;
    assert(w == row * s + offset && 0 <= offset < s) by {
        vstd::arithmetic::div_mod::lemma_fundamental_div_mod(w, s);
    }
    assert(wall_total(columns, rows) == rows * s - columns) by (nonlinear_arith)
        requires
            s == 2 * columns - 1,
    ;
    assert(row >= 0) by (nonlinear_arith)
        requires
            w >= 0,
            s > 0,
            w == row * s + offset,
            offset < s,
    ;
    assert(row < rows) by (nonlinear_arith)
        requires
            w == row * s + offset,
            offset >= 0,
            w < rows * s - columns,
            columns >= 1,
            s == 2 * columns - 1,
    ;
    if offset >= columns - 1 {
        assert(row + 1 < rows) by (nonlinear_arith)
            requires
                w == row * s + offset,
                offset >= columns - 1,
                w < rows * s - columns,
                s == 2 * columns - 1,
                row < rows,
        ;
    }
    let (p, q) = wall_sides(columns, w);
    assert(p.0 * columns + p.1 < q.0 * columns + q.1) by (nonlinear_arith)
        requires
            (q.0 == p.0 && q.1 == p.1 + 1) || (q.0 == p.0 + 1 && q.1 == p.1),
            columns >= 1,
    ;
    assert(q.0 * columns + q.1 < columns * rows) by (nonlinear_arith)
        requires
            0 <= q.0 < rows,
            0 <= q.1 < columns,
    ;
    assert(0 <= p.0 * columns + p.1) by (nonlinear_arith)
        requires
            0 <= p.0,
            0 <= p.1,
            columns >= 1,
    ;
}

/// The vertical wall left of cell `(row, column)`, for `column >= 1`.
pub proof fn lemma_left_wall(columns: int, rows: int, row: int, column: int)
    requires
        columns >= 1,
        0 <= row < rows,
        1 <= column < columns,
    ensures
        0 <= row * row_stride(columns) + column - 1 < wall_total(columns, rows),
        wall_sides(columns, row * row_stride(columns) + column - 1) == ((row, column - 1), (row, column)),
{
    let s = row_stride(columns);
    let w = row * s + column - 1;
    lemma_fundamental_div_mod_converse(w, s, row, column - 1);
    assert(0 <= w < wall_total(columns, rows)) by (nonlinear_arith)
        requires
            w == row * s + column - 1,
            s == 2 * columns - 1,
            0 <= row < rows,
            1 <= column < columns,
    ;
}

/// The horizontal wall above cell `(row, column)`, for `row >= 1`.
pub proof fn lemma_upper_wall(columns: int, rows: int, row: int, column: int)
    requires
        columns >= 1,
        1 <= row < rows,
        0 <= column < columns,
    ensures
        0 <= (row - 1) * row_stride(columns) + columns - 1 + column < wall_total(columns, rows),
        wall_sides(columns, (row - 1) * row_stride(columns) + columns - 1 + column) == ((row - 1, column), (row, column)),
{
    let s = row_stride(columns);
    let w = (row - 1) * s + columns - 1 + column;
    lemma_fundamental_div_mod_converse(w, s, row - 1, columns - 1 + column);
    assert(0 <= w < wall_total(columns, rows)) by (nonlinear_arith)
        requires
            w == (row - 1) * s + columns - 1 + column,
            s == 2 * columns - 1,
            1 <= row < rows,
            0 <= column < columns,
    ;
}

/// Distinct walls separate distinct pairs of cells.
pub proof fn lemma_wall_sides_injective(columns: int, w1: int, w2: int)
    requires
        columns >= 1,
        0 <= w1,
        0 <= w2,
        wall_sides(columns, w1) == wall_sides(columns, w2),
    ensures
        w1 == w2,
{
    let s = row_stride(columns);
    vstd::arithmetic::div_mod::lemma_fundamental_div_mod(w1, s);
    vstd::arithmetic::div_mod::lemma_fundamental_div_mod(w2, s);
    assert(w1 / s == w2 / s);
    assert(w1 % s == w2 % s);
}

/// Every pair of neighbouring cells is separated by a wall: horizontal
/// neighbours by a vertical wall, vertical neighbours by a horizontal one.
pub proof fn lemma_neighbours_have_wall(columns: int, rows: int, p: (int, int), q: (int, int))
    requires
        columns >= 1,
        0 <= p.0 < rows,
        0 <= p.1 < columns,
        0 <= q.0 < rows,
        0 <= q.1 < columns,
        (q.0 == p.0 && q.1 == p.1 + 1) || (q.0 == p.0 + 1 && q.1 == p.1),
    ensures
        exists|w: int| 0 <= w < wall_total(columns, rows) && #[trigger] wall_sides(columns, w) == (p, q),
{
    if q.0 == p.0 {
        lemma_left_wall(columns, rows, q.0, q.1);
        let w = q.0 * row_stride(columns) + q.1 - 1;
        assert(wall_sides(columns, w) == (p, q));
    } else {
        lemma_upper_wall(columns, rows, q.0, q.1);
        let w = (q.0 - 1) * row_stride(columns) + columns - 1 + q.1;
        assert(wall_sides(columns, w) == (p, q));
    }
}

} // verus!
