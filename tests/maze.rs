use perfect_maze_generator::{tumble_walls, MazeCell, MazeError, PerfectMaze};

/// Number of cleared internal walls, read through the query interface.
fn cleared_walls(maze: &PerfectMaze) -> usize {
    let mut cleared = 0;
    for row in 0..maze.rows() {
        for column in 0..maze.columns() {
            if maze.get_right_wall(row, column) == Some(false) {
                cleared += 1;
            }
            if maze.get_bottom_wall(row, column) == Some(false) {
                cleared += 1;
            }
        }
    }
    cleared
}

/// Cells reachable from cell (0, 0) through cleared walls, each counted once;
/// panics if a cell is reached twice (a cycle).
fn reachable_cells(maze: &PerfectMaze) -> usize {
    let columns = maze.columns();
    let rows = maze.rows();
    let mut seen = vec![false; columns * rows];
    let mut stack = vec![(0usize, 0usize, usize::MAX)];
    let mut count = 0;
    while let Some((row, column, from)) = stack.pop() {
        let id = row * columns + column;
        assert!(!seen[id], "cell reached twice: the maze has a cycle");
        seen[id] = true;
        count += 1;
        let mut next = Vec::new();
        if maze.get_right_wall(row, column) == Some(false) {
            next.push((row, column + 1));
        }
        if maze.get_bottom_wall(row, column) == Some(false) {
            next.push((row + 1, column));
        }
        if column > 0 && maze.get_right_wall(row, column - 1) == Some(false) {
            next.push((row, column - 1));
        }
        if row > 0 && maze.get_bottom_wall(row - 1, column) == Some(false) {
            next.push((row - 1, column));
        }
        for (r, c) in next {
            let n = r * columns + c;
            if n != from {
                stack.push((r, c, id));
            }
        }
    }
    count
}

#[test]
fn default_maze() {
    let (columns, rows) = (10, 15);
    let seed = 42;
    let maze = PerfectMaze::new(columns, rows, Some(seed));

    // Check initial conditions
    assert_eq!(maze.columns(), columns);
    assert_eq!(maze.rows(), rows);
    assert_eq!(maze.seed(), seed);

    // Check wall status
    for row in 0..rows {
        for column in 0..columns {
            let right = maze.get_right_wall(row, column);
            assert!(right.is_some());

            let bottom = maze.get_bottom_wall(row, column);
            assert!(bottom.is_some());
        }
    }

    // Check walls that don't exist
    let not_right = maze.get_right_wall(rows, columns);
    assert!(not_right.is_none());

    let not_bottom = maze.get_bottom_wall(rows, columns);
    assert!(not_bottom.is_none());
}

#[test]
fn display_maze() {
    // Maze 2x3
    let expected = "_____
|   |
| | |
|_|_|
";

    let maze = PerfectMaze::new(2, 3, Some(0));
    assert_eq!(expected, maze.to_text());

    // Maze 1x1
    let expected = "___\n|_|\n";
    let maze = PerfectMaze::new(1, 1, None);
    assert_eq!(expected, maze.to_text());
}

#[test]
fn internal_values() {
    const COLUMNS: usize = 8;
    const ROWS: usize = 10;
    let maze = PerfectMaze::new(COLUMNS, ROWS, None);

    const WALLS_PER_ROW: usize = 2 * COLUMNS - 1;
    assert_eq!(maze.walls_per_row(), WALLS_PER_ROW);

    // Compare cell positions
    const C00: MazeCell = MazeCell { row: 0, column: 0, total_columns: COLUMNS };
    const C01: MazeCell = MazeCell { row: 0, column: 1, total_columns: COLUMNS };
    const C10: MazeCell = MazeCell { row: 1, column: 0, total_columns: COLUMNS };
    const C11: MazeCell = MazeCell { row: 1, column: 1, total_columns: COLUMNS };
    assert_eq!(maze.cell_pair_from_wall(0), (C00, C01));
    assert_eq!(maze.cell_pair_from_wall(COLUMNS - 1), (C00, C10));
    assert_eq!(maze.cell_pair_from_wall(WALLS_PER_ROW), (C10, C11));
    assert_eq!(maze.cell_pair_from_wall(COLUMNS), (C01, C11));
}

#[test]
fn cleared_walls_form_a_spanning_tree() {
    for &(columns, rows) in &[(1, 1), (1, 7), (7, 1), (2, 3), (10, 15), (31, 17)] {
        for &seed in &[0u64, 1, 42, 0xdead_beef] {
            let maze = PerfectMaze::new(columns, rows, Some(seed));
            assert_eq!(cleared_walls(&maze), columns * rows - 1);
            assert_eq!(reachable_cells(&maze), columns * rows);
        }
    }
}

#[test]
fn random_seed_is_kept_and_reproduces_the_maze() {
    let maze = PerfectMaze::new(12, 9, None);
    let again = PerfectMaze::new(12, 9, Some(maze.seed()));
    assert_eq!(maze.to_text(), again.to_text());
    assert_eq!(cleared_walls(&maze), 12 * 9 - 1);
    assert_eq!(reachable_cells(&maze), 12 * 9);
}

#[test]
fn same_seed_gives_same_maze() {
    let first = PerfectMaze::new(20, 13, Some(7));
    let second = PerfectMaze::new(20, 13, Some(7));
    assert_eq!(first.to_text(), second.to_text());
    for row in 0..13 {
        for column in 0..20 {
            assert_eq!(first.get_right_wall(row, column), second.get_right_wall(row, column));
            assert_eq!(first.get_bottom_wall(row, column), second.get_bottom_wall(row, column));
        }
    }
}

#[test]
fn nonzero_seed_shuffles_the_walls() {
    let plain = PerfectMaze::new(10, 15, Some(0));
    let shuffled = PerfectMaze::new(10, 15, Some(42));
    assert_ne!(plain.to_text(), shuffled.to_text());
}

#[test]
fn boundary_walls_always_stand() {
    let maze = PerfectMaze::new(6, 4, Some(3));
    for row in 0..4 {
        assert_eq!(maze.get_right_wall(row, 5), Some(true));
    }
    for column in 0..6 {
        assert_eq!(maze.get_bottom_wall(3, column), Some(true));
    }
}

#[test]
fn queries_outside_the_grid_are_empty() {
    let maze = PerfectMaze::new(6, 4, Some(3));
    assert_eq!(maze.get_right_wall(4, 6), None);
    assert_eq!(maze.get_bottom_wall(4, 6), None);
    assert_eq!(maze.get_right_wall(0, 6), None);
    assert_eq!(maze.get_bottom_wall(4, 0), None);
}

#[test]
fn zero_dimension_is_rejected() {
    assert_eq!(PerfectMaze::try_new(0, 5, Some(1)).err(), Some(MazeError::EmptyGrid));
    assert_eq!(PerfectMaze::try_new(5, 0, Some(1)).err(), Some(MazeError::EmptyGrid));
    assert_eq!(PerfectMaze::try_new(0, 0, None).err(), Some(MazeError::EmptyGrid));
    assert_eq!(PerfectMaze::try_new(usize::MAX, 3, Some(1)).err(), Some(MazeError::TooLarge));
    let maze = PerfectMaze::try_new(3, 2, Some(0)).unwrap();
    assert_eq!(maze.to_text(), PerfectMaze::new(3, 2, Some(0)).to_text());
}

#[test]
fn single_cell_maze_renders_one_box() {
    for seed in [Some(0), Some(5), None] {
        assert_eq!(PerfectMaze::new(1, 1, seed).to_text(), "___\n|_|\n");
    }
}

#[test]
fn tumbling_in_index_order() {
    // 2 x 3 grid: walls 0..7; visiting them in order clears 0, 1, 2, 4, 5.
    let order: Vec<usize> = (0..7).collect();
    let walls = tumble_walls(2, 3, &order);
    assert_eq!(walls, vec![false, false, false, true, false, false, true]);

    // Reversed order clears 6, 5, 4, 2 and 1 instead.
    let order: Vec<usize> = (0..7).rev().collect();
    let walls = tumble_walls(2, 3, &order);
    assert_eq!(walls, vec![true, false, false, true, false, false, false]);
}

#[test]
fn cell_ids_are_row_major() {
    let cell = MazeCell { row: 3, column: 2, total_columns: 5 };
    assert_eq!(cell.id(), 17);
}
