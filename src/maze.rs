//! Perfect mazes: construction, wall queries and text rendering.
use crate::carving::{carve_inv, carved, labels_after, lemma_carve_done, lemma_carve_start,
    lemma_carve_step, lemma_carving_keeps_invariant, lemma_labels_decide, relabel};
use crate::graph::{acyclic, spans};
use crate::grid::{dims_fit, lemma_wall_sides_in_grid, row_stride, side_a, side_b, wall_sides,
    wall_total};
use crate::order::{fresh_seed, lists_all, make_wall_order, wall_order};
use crate::partition::Partition;
use crate::text::string_of;
use vstd::prelude::*;

verus! {

/// Walls left standing after carving along `order`: `true` where a wall
/// stands.
pub open spec fn carved_walls(columns: int, rows: int, order: Seq<usize>) -> Seq<bool> {
    let open = carved(columns, order);
    Seq::new(wall_total(columns, rows) as nat, |w: int| !open.contains(w))
}

/// Walls of the maze of the given size and seed.
pub open spec fn maze_walls(columns: int, rows: int, seed: u64) -> Seq<bool> {
    carved_walls(columns, rows, wall_order(wall_total(columns, rows), seed))
}

/// Indices of the cleared walls.
pub open spec fn cleared(walls: Seq<bool>) -> Set<int> {
    Set::new(|w: int| 0 <= w < walls.len() && !walls[w])
}

/// The cleared walls form a spanning tree of the grid: `cells - 1` of them,
/// joining every pair of cells, none on a cycle.
pub open spec fn is_perfect(columns: int, rows: int, walls: Seq<bool>) -> bool {
    &&& cleared(walls).finite()
    &&& cleared(walls).len() == columns * rows - 1
    &&& spans(columns, columns * rows, cleared(walls))
    &&& acyclic(columns, cleared(walls))
}

/// Right wall of cell `(row, column)`; the last column's is always present.
pub open spec fn right_wall(columns: int, rows: int, walls: Seq<bool>, row: int, column: int) -> Option<bool> {
    if row < 0 || row >= rows || column < 0 || column >= columns {
        None
    } else if column == columns - 1 {
        Some(true)
    } else {
        Some(walls[row * row_stride(columns) + column])
    }
}

/// Bottom wall of cell `(row, column)`; the last row's is always present.
pub open spec fn bottom_wall(columns: int, rows: int, walls: Seq<bool>, row: int, column: int) -> Option<bool> {
    if row < 0 || row >= rows || column < 0 || column >= columns {
        None
    } else if row == rows - 1 {
        Some(true)
    } else {
        Some(walls[row * row_stride(columns) + columns - 1 + column])
    }
}

/// `glyph` where a wall stands, a space where it is cleared.
pub open spec fn wall_glyph(wall: Option<bool>, glyph: char) -> char {
    if wall == Some(true) {
        glyph
    } else {
        ' '
    }
}

/// The first `k` cells of a row: bottom wall then right wall of each.
pub open spec fn cells_text(columns: int, rows: int, walls: Seq<bool>, row: int, k: int) -> Seq<char>
    decreases k,
{
    if k <= 0 {
        Seq::empty()
    } else {
        cells_text(columns, rows, walls, row, k - 1) + seq![
            wall_glyph(bottom_wall(columns, rows, walls, row, k - 1), '_'),
            wall_glyph(right_wall(columns, rows, walls, row, k - 1), '|'),
        ]
    }
}

/// The line of one row: left border, its cells, newline.
pub open spec fn row_text(columns: int, rows: int, walls: Seq<bool>, row: int) -> Seq<char> {
    seq!['|'] + cells_text(columns, rows, walls, row, columns) + seq!['\n']
}

/// The lines of the first `k` rows.
pub open spec fn rows_text(columns: int, rows: int, walls: Seq<bool>, k: int) -> Seq<char>
    decreases k,
{
    if k <= 0 {
        Seq::empty()
    } else {
        rows_text(columns, rows, walls, k - 1) + row_text(columns, rows, walls, k - 1)
    }
}

/// The top border: `2 * columns + 1` wall characters and a newline.
pub open spec fn top_text(columns: int) -> Seq<char> {
    Seq::new((2 * columns + 1) as nat, |i: int| '_') + seq!['\n']
}

/// The whole diagram of a maze.
pub open spec fn maze_text(columns: int, rows: int, walls: Seq<bool>) -> Seq<char> {
    top_text(columns) + rows_text(columns, rows, walls, rows)
}

/// Carving along any order that lists every wall yields a perfect maze:
/// `columns * rows - 1` cleared walls that connect every pair of cells and
/// close no cycle.
pub proof fn lemma_carving_is_perfect(columns: int, rows: int, order: Seq<usize>)
    requires
        dims_fit(columns, rows),
        lists_all(wall_total(columns, rows), order),
    ensures
        is_perfect(columns, rows, carved_walls(columns, rows, order)),
{
    let n = (columns * rows) as nat;
    lemma_dims(columns, rows);
    lemma_carving_keeps_invariant(columns, rows, order);
    let labels = labels_after(columns, n, order);
    let open = carved(columns, order);
    assert forall|w: int| 0 <= w < wall_total(columns, rows) implies #[trigger] labels[side_a(
        columns,
        w,
    )] == labels[side_b(columns, w)] by {
        assert(order.contains(w as usize));
        let k = choose|k: int| 0 <= k < order.len() && order[k] == w as usize;
        assert(labels[side_a(columns, order[k] as int)] == labels[side_b(columns, order[k] as int)]);
    }
    lemma_carve_done(columns, rows, open, labels);
    assert(cleared(carved_walls(columns, rows, order)) =~= open);
}

/// Position of a cell within a maze with `total_columns` columns.
#[derive(Debug, PartialEq, Eq, Structural)]
pub struct MazeCell {
    pub row: usize,
    pub column: usize,
    pub total_columns: usize,
}

impl MazeCell {
    /// Linear index of the cell.
    pub fn id(&self) -> (id: usize)
        requires
            self.row * self.total_columns + self.column <= usize::MAX,
        ensures
            id == self.row * self.total_columns + self.column,
    {
        self.row * self.total_columns + self.column
    }
}

/// Why a maze cannot be built.
#[derive(Debug, PartialEq, Eq, Structural)]
pub enum MazeError {
    /// `columns` or `rows` is zero.
    EmptyGrid,
    /// The grid has more walls than `usize` can index.
    TooLarge,
}

proof fn lemma_dims(columns: int, rows: int)
    requires
        dims_fit(columns, rows),
    ensures
        columns * rows <= rows * row_stride(columns),
        wall_total(columns, rows) == rows * row_stride(columns) - columns,
        columns <= row_stride(columns) <= rows * row_stride(columns),
        columns * rows >= 1,
{
    assert(columns * rows <= rows * row_stride(columns)) by (nonlinear_arith)
        requires
            columns >= 1,
            rows >= 1,
    ;
    assert(wall_total(columns, rows) == rows * row_stride(columns) - columns) by (nonlinear_arith);
    assert(row_stride(columns) <= rows * row_stride(columns)) by (nonlinear_arith)
        requires
            columns >= 1,
            rows >= 1,
    ;
    assert(columns * rows >= 1) by (nonlinear_arith)
        requires
            columns >= 1,
            rows >= 1,
    ;
}

/// Slots in one row of the wall array.
fn stride_of(columns: usize, rows: usize) -> (s: usize)
    requires
        dims_fit(columns as int, rows as int),
    ensures
        s == row_stride(columns as int),
{
    proof {
        lemma_dims(columns as int, rows as int);
    }
    columns + (columns - 1)
}

/// Number of internal walls.
fn total_of(columns: usize, rows: usize) -> (t: usize)
    requires
        dims_fit(columns as int, rows as int),
    ensures
        t == wall_total(columns as int, rows as int),
{
    proof {
        lemma_dims(columns as int, rows as int);
    }
    rows * stride_of(columns, rows) - columns
}

/// The two cells separated by wall `wall_id`: left and right for a vertical
/// wall, upper and lower for a horizontal one.
pub fn cell_pair(columns: usize, rows: usize, wall_id: usize) -> (pair: (MazeCell, MazeCell))
    requires
        dims_fit(columns as int, rows as int),
        wall_id < wall_total(columns as int, rows as int),
    ensures
        (pair.0.row as int, pair.0.column as int) == wall_sides(columns as int, wall_id as int).0,
        (pair.1.row as int, pair.1.column as int) == wall_sides(columns as int, wall_id as int).1,
        pair.0.total_columns == columns,
        pair.1.total_columns == columns,
{
    proof {
        lemma_wall_sides_in_grid(columns as int, rows as int, wall_id as int);
    }
    let stride = stride_of(columns, rows);
    let current_row = wall_id / stride;
    let wall_in_row = wall_id % stride;
    if wall_in_row < columns - 1 {
        let a = MazeCell { row: current_row, column: wall_in_row, total_columns: columns };
        let b = MazeCell { row: current_row, column: wall_in_row + 1, total_columns: columns };
        (a, b)
    } else {
        let column = wall_in_row - (columns - 1);
        let a = MazeCell { row: current_row, column, total_columns: columns };
        let b = MazeCell { row: current_row + 1, column, total_columns: columns };
        (a, b)
    }
}

/// Carves a maze on a `columns` x `rows` grid, visiting the walls in the
/// order of `wall_indices`: a wall is cleared when the cells it separates are
/// not yet connected. Returns the wall array, `true` where a wall stands.
pub fn tumble_walls(columns: usize, rows: usize, wall_indices: &Vec<usize>) -> (walls: Vec<bool>)
    requires
        dims_fit(columns as int, rows as int),
        lists_all(wall_total(columns as int, rows as int), wall_indices@),
    ensures
        walls@ == carved_walls(columns as int, rows as int, wall_indices@),
        is_perfect(columns as int, rows as int, walls@),
{
    let ghost c = columns as int;
    let ghost r = rows as int;
    proof {
        lemma_dims(c, r);
    }
    let total = total_of(columns, rows);
    let cells = columns * rows;
    let mut walls: Vec<bool> = vec![true; total];
    let mut sets = Partition::new(cells);
    let ghost mut open: Set<int> = Set::empty();
    proof {
        lemma_carve_start(c, r, sets@);
        assert(wall_indices@.take(0) =~= Seq::<usize>::empty());
    }
    let mut i: usize = 0;
    while i < wall_indices.len()
        invariant
            dims_fit(c, r),
            c == columns,
            r == rows,
            total == wall_total(c, r),
            cells == c * r,
            cells <= usize::MAX,
            lists_all(total as int, wall_indices@),
            i <= wall_indices@.len(),
            carve_inv(c, r, open, sets@),
            sets.wf(),
            open == carved(c, wall_indices@.take(i as int)),
            walls@.len() == total,
            forall|w: int| 0 <= w < total ==> #[trigger] walls@[w] == !open.contains(w),
            forall|k: int|
                0 <= k < i ==> #[trigger] sets@[side_a(c, wall_indices@[k] as int)] == sets@[side_b(
                    c,
                    wall_indices@[k] as int,
                )],
        decreases wall_indices@.len() - i,
    {
        let w = wall_indices[i];
        assert(w < total);
        proof {
            lemma_wall_sides_in_grid(c, r, w as int);
        }
        let (cell_a, cell_b) = cell_pair(columns, rows, w);
        let a = cell_a.id();
        let b = cell_b.id();
        proof {
            lemma_labels_decide(c, r, open, sets@, w as int);
        }
        let ghost before = sets@;
        if sets.find(a) != sets.find(b) {
            walls.set(w, false);
            sets.union(a, b);
            proof {
                if sets@ == relabel(before, before[b as int], before[a as int]) {
                    lemma_carve_step(c, r, open, before, w as int, before[b as int], before[a as int]);
                } else {
                    lemma_carve_step(c, r, open, before, w as int, before[a as int], before[b as int]);
                }
                open = open.insert(w as int);
            }
        }
        proof {
            let t = wall_indices@.take(i + 1);
            assert(t.drop_last() =~= wall_indices@.take(i as int));
            assert(t.last() == w);
            assert forall|k: int| 0 <= k < i + 1 implies #[trigger] sets@[side_a(
                c,
                wall_indices@[k] as int,
            )] == sets@[side_b(c, wall_indices@[k] as int)] by {
                lemma_wall_sides_in_grid(c, r, wall_indices@[k] as int);
            }
        }
        i += 1;
    }
    proof {
        assert(wall_indices@.take(i as int) =~= wall_indices@);
        assert(walls@ =~= carved_walls(c, r, wall_indices@));
        lemma_carving_is_perfect(c, r, wall_indices@);
    }
    walls
}

/// A perfect maze: between any two cells there is exactly one path.
#[derive(Debug)]
pub struct PerfectMaze {
    columns: usize,
    rows: usize,
    seed: u64,
    walls: Vec<bool>,
}

impl PerfectMaze {
    /// Number of columns.
    pub closed spec fn spec_columns(&self) -> int {
        self.columns as int
    }

    /// Number of rows.
    pub closed spec fn spec_rows(&self) -> int {
        self.rows as int
    }

    /// Seed that fixed the wall order.
    pub closed spec fn spec_seed(&self) -> u64 {
        self.seed
    }

    /// Wall array, `true` where a wall stands.
    pub closed spec fn spec_walls(&self) -> Seq<bool> {
        self.walls@
    }

    /// The maze is the one its size and seed determine.
    pub open spec fn wf(&self) -> bool {
        &&& dims_fit(self.spec_columns(), self.spec_rows())
        &&& self.spec_walls() == maze_walls(self.spec_columns(), self.spec_rows(), self.spec_seed())
    }

    /// Builds a maze of `columns` x `rows` cells. With `seed == Some(0)` the
    /// walls are visited in index order; with another seed in a shuffled
    /// order that the seed determines; with `None` a random seed is drawn and
    /// kept.
    pub fn new(columns: usize, rows: usize, seed: Option<u64>) -> (maze: Self)
        requires
            dims_fit(columns as int, rows as int),
        ensures
            maze.wf(),
            maze.spec_columns() == columns,
            maze.spec_rows() == rows,
            seed matches Some(s) ==> maze.spec_seed() == s,
            is_perfect(columns as int, rows as int, maze.spec_walls()),
    {
        let seed = match seed {
            Some(s) => s,
            None => fresh_seed(),
        };
        let total = total_of(columns, rows);
        let order = make_wall_order(total, seed);
        let walls = tumble_walls(columns, rows, &order);
        PerfectMaze { columns, rows, seed, walls }
    }

    /// Like [`PerfectMaze::new`], but reports a size that cannot be built.
    pub fn try_new(columns: usize, rows: usize, seed: Option<u64>) -> (res: Result<Self, MazeError>)
        ensures
            (columns == 0 || rows == 0) <==> res == Err::<Self, MazeError>(MazeError::EmptyGrid),
            (columns >= 1 && rows >= 1 && !dims_fit(columns as int, rows as int)) <==> res
                == Err::<Self, MazeError>(MazeError::TooLarge),
            res matches Ok(maze) ==> {
                &&& dims_fit(columns as int, rows as int)
                &&& maze.wf()
                &&& maze.spec_columns() == columns
                &&& maze.spec_rows() == rows
                &&& (seed matches Some(s) ==> maze.spec_seed() == s)
                &&& is_perfect(columns as int, rows as int, maze.spec_walls())
            },
    {
        if columns == 0 || rows == 0 {
            return Err(MazeError::EmptyGrid);
        }
        let stride = columns.checked_add(columns - 1);
        let fits = match stride {
            Some(s) => rows.checked_mul(s).is_some(),
            None => false,
        };
        if !fits {
            proof {
                if dims_fit(columns as int, rows as int) {
                    lemma_dims(columns as int, rows as int);
                }
            }
            return Err(MazeError::TooLarge);
        }
        Ok(PerfectMaze::new(columns, rows, seed))
    }

    /// Wall slots per row: `columns - 1` vertical and `columns` horizontal.
    pub fn walls_per_row(&self) -> (n: usize)
        requires
            self.wf(),
        ensures
            n == row_stride(self.spec_columns()),
    {
        stride_of(self.columns, self.rows)
    }

    fn is_valid_cell(&self, row: usize, column: usize) -> (valid: bool)
        ensures
            valid == (row < self.spec_rows() && column < self.spec_columns()),
    {
        row < self.rows && column < self.columns
    }

    /// Whether the right wall of cell `(row, column)` stands; `None` outside
    /// the grid.
    pub fn get_right_wall(&self, row: usize, column: usize) -> (wall: Option<bool>)
        requires
            self.wf(),
        ensures
            wall == right_wall(
                self.spec_columns(),
                self.spec_rows(),
                self.spec_walls(),
                row as int,
                column as int,
            ),
    {
        if !self.is_valid_cell(row, column) {
            return None;
        }
        if column == self.columns - 1 {
            return Some(true);
        }
        let stride = self.walls_per_row();
        proof {
            let c = self.columns as int;
            let r = self.rows as int;
            lemma_dims(c, r);
            assert(row * stride + column < wall_total(c, r)) by (nonlinear_arith)
                requires
                    stride == 2 * c - 1,
                    row < r,
                    column < c - 1,
                    wall_total(c, r) == r * stride - c,
            ;
        }
        let wall_id = row * stride + column;
        Some(self.walls[wall_id])
    }

    /// Whether the bottom wall of cell `(row, column)` stands; `None` outside
    /// the grid.
    pub fn get_bottom_wall(&self, row: usize, column: usize) -> (wall: Option<bool>)
        requires
            self.wf(),
        ensures
            wall == bottom_wall(
                self.spec_columns(),
                self.spec_rows(),
                self.spec_walls(),
                row as int,
                column as int,
            ),
    {
        if !self.is_valid_cell(row, column) {
            return None;
        }
        if row == self.rows - 1 {
            return Some(true);
        }
        let stride = self.walls_per_row();
        proof {
            let c = self.columns as int;
            let r = self.rows as int;
            lemma_dims(c, r);
            assert(row * stride + (c - 1) + column < wall_total(c, r)) by (nonlinear_arith)
                requires
                    stride == 2 * c - 1,
                    row < r - 1,
                    column < c,
                    wall_total(c, r) == r * stride - c,
            ;
        }
        let wall_id = row * stride + (self.columns - 1) + column;
        Some(self.walls[wall_id])
    }

    /// Number of columns (width).
    pub fn columns(&self) -> (n: usize)
        ensures
            n == self.spec_columns(),
    {
        self.columns
    }

    /// Number of rows (height).
    pub fn rows(&self) -> (n: usize)
        ensures
            n == self.spec_rows(),
    {
        self.rows
    }

    /// The seed the maze was built from.
    pub fn seed(&self) -> (s: u64)
        ensures
            s == self.spec_seed(),
    {
        self.seed
    }

    /// The diagram of the maze: a top border, then one line per row with a
    /// left border and, for each cell, its bottom wall (`_`) and right wall
    /// (`|`), a space where the wall is cleared.
    pub fn to_text(&self) -> (text: String)
        requires
            self.wf(),
        ensures
            text@ == maze_text(self.spec_columns(), self.spec_rows(), self.spec_walls()),
    {
        let ghost c = self.spec_columns();
        let ghost r = self.spec_rows();
        let ghost walls = self.spec_walls();
        let mut out: Vec<char> = Vec::new();
        // The top border spans both kinds of wall slots plus the two corners.
        let stride = self.walls_per_row();
        let mut i: usize = 0;
        while i < stride
            invariant
                i <= stride,
                stride == 2 * c - 1,
                out@ == Seq::new(i as nat, |k: int| '_'),
            decreases stride - i,
        {
            out.push('_');
            i += 1;
            proof {
                assert(out@ =~= Seq::new(i as nat, |k: int| '_'));
            }
        }
        out.push('_');
        out.push('_');
        out.push('\n');
        proof {
            assert(out@ =~= top_text(c));
            assert(rows_text(c, r, walls, 0) =~= Seq::<char>::empty());
            assert(out@ =~= top_text(c) + rows_text(c, r, walls, 0));
        }
        let mut row: usize = 0;
        while row < self.rows
            invariant
                self.wf(),
                c == self.spec_columns(),
                r == self.spec_rows(),
                walls == self.spec_walls(),
                row <= r,
                out@ == top_text(c) + rows_text(c, r, walls, row as int),
            decreases self.rows - row,
        {
            let ghost line_start = out@;
            out.push('|');
            let mut column: usize = 0;
            proof {
                assert(cells_text(c, r, walls, row as int, 0) =~= Seq::<char>::empty());
                assert(out@ =~= line_start + seq!['|'] + cells_text(c, r, walls, row as int, 0));
            }
            while column < self.columns
                invariant
                    self.wf(),
                    c == self.spec_columns(),
                    r == self.spec_rows(),
                    walls == self.spec_walls(),
                    row < r,
                    column <= c,
                    out@ == line_start + seq!['|'] + cells_text(c, r, walls, row as int, column as int),
                decreases self.columns - column,
            {
                let bottom = self.get_bottom_wall(row, column);
                let right = self.get_right_wall(row, column);
                let ghost before = out@;
                if bottom == Some(true) {
                    out.push('_');
                } else {
                    out.push(' ');
                }
                if right == Some(true) {
                    out.push('|');
                } else {
                    out.push(' ');
                }
                column += 1;
                proof {
                    assert(out@ =~= line_start + seq!['|'] + cells_text(c, r, walls, row as int, column as int));
                }
            }
            out.push('\n');
            row += 1;
            proof {
                assert(out@ =~= top_text(c) + rows_text(c, r, walls, row as int));
            }
        }
        string_of(&out)
    }

    /// The two cells separated by wall `wall_id`.
    pub fn cell_pair_from_wall(&self, wall_id: usize) -> (pair: (MazeCell, MazeCell))
        requires
            self.wf(),
            wall_id < wall_total(self.spec_columns(), self.spec_rows()),
        ensures
            (pair.0.row as int, pair.0.column as int) == wall_sides(self.spec_columns(), wall_id as int).0,
            (pair.1.row as int, pair.1.column as int) == wall_sides(self.spec_columns(), wall_id as int).1,
            pair.0.total_columns == self.spec_columns(),
            pair.1.total_columns == self.spec_columns(),
    {
        cell_pair(self.columns, self.rows, wall_id)
    }
}

/// A maze is determined by its size and seed: two mazes built with the same
/// columns, rows and seed have the same walls and the same diagram.
pub proof fn lemma_seed_determines_maze(first: &PerfectMaze, second: &PerfectMaze)
    requires
        first.wf(),
        second.wf(),
        first.spec_columns() == second.spec_columns(),
        first.spec_rows() == second.spec_rows(),
        first.spec_seed() == second.spec_seed(),
    ensures
        first.spec_walls() == second.spec_walls(),
        maze_text(first.spec_columns(), first.spec_rows(), first.spec_walls()) == maze_text(
            second.spec_columns(),
            second.spec_rows(),
            second.spec_walls(),
        ),
{
}

/// Whatever the seed, the maze of a single cell is drawn as `___\n|_|\n`.
pub proof fn lemma_single_cell_text(seed: u64)
    ensures
        maze_text(1, 1, maze_walls(1, 1, seed)) == "___\n|_|\n"@,
{
    let walls = maze_walls(1, 1, seed);
    reveal_strlit("___\n|_|\n");
    assert(cells_text(1, 1, walls, 0, 0) =~= Seq::<char>::empty());
    assert(cells_text(1, 1, walls, 0, 1) =~= seq!['_', '|']);
    assert(rows_text(1, 1, walls, 0) =~= Seq::<char>::empty());
    assert(rows_text(1, 1, walls, 1) =~= seq!['|', '_', '|', '\n']);
    assert(top_text(1) =~= seq!['_', '_', '_', '\n']);
    assert(maze_text(1, 1, walls) =~= "___\n|_|\n"@);
}

/// Boundary walls are never stored and always stand: the right wall of the
/// last column and the bottom wall of the last row.
pub proof fn lemma_boundary_walls_stand(maze: &PerfectMaze, row: int, column: int)
    requires
        maze.wf(),
    ensures
        0 <= row < maze.spec_rows() ==> right_wall(
            maze.spec_columns(),
            maze.spec_rows(),
            maze.spec_walls(),
            row,
            maze.spec_columns() - 1,
        ) == Some(true),
        0 <= column < maze.spec_columns() ==> bottom_wall(
            maze.spec_columns(),
            maze.spec_rows(),
            maze.spec_walls(),
            maze.spec_rows() - 1,
            column,
        ) == Some(true),
{
}

/// Queries on the cell just past the last row and column report no wall.
pub proof fn lemma_outside_queries_empty(maze: &PerfectMaze)
    requires
        maze.wf(),
    ensures
        right_wall(
            maze.spec_columns(),
            maze.spec_rows(),
            maze.spec_walls(),
            maze.spec_rows(),
            maze.spec_columns(),
        ) == None::<bool>,
        bottom_wall(
            maze.spec_columns(),
            maze.spec_rows(),
            maze.spec_walls(),
            maze.spec_rows(),
            maze.spec_columns(),
        ) == None::<bool>,
{
}

} // verus!
