use perfect_maze_generator::{Environment, SimCell, Viewport};

#[test]
fn test_cell() {
    let (x, y) = (10, -22);

    // Basic validations
    let cell1 = SimCell { x, y };
    assert_eq!(x, cell1.x);
    assert_eq!(y, cell1.y);

    assert_eq!(cell1.to_text(), format!("({x},{y})"));

    // Comparison to other cells
    let cell2 = SimCell::new(x, y);
    assert_eq!(cell1, cell2);

    let cell3 = SimCell::new(0, 0);
    assert_ne!(cell1, cell3);
}

#[test]
fn empty_environment() {
    let mut env = Environment::new();

    // At start the environment is empty
    assert!(env.get_living_count() == 0);

    // After a simulation step the environment should still be empty
    env.simulate();
    assert!(env.get_living_count() == 0);
    assert!(!env.get_cell(&SimCell::new(0, 0)));
}

#[test]
fn change_environment() {
    let mut env = Environment::new();

    // Toggle single cell
    let cell = SimCell::new(0, 0);
    assert!(!env.get_cell(&cell), "Initial state is false");
    assert!(env.toggle_cell(&cell), "Toggling should make set to living");
    assert!(env.get_cell(&cell), "After toggling cell is alive");
    assert!(!env.toggle_cell(&cell), "Toggling again should set to dead");
    assert!(!env.get_cell(&cell), "Cell should be dead after toggling again");

    // Extend environment
    let living = vec![SimCell::new(-1, 0), SimCell::new(0, 0), SimCell::new(1, 0)];
    env.set_living(&living);
    living.iter().map(|c| assert!(env.get_cell(c))).count();
}

/// Checks if the environment contains only the given cells
fn check_environment(start_cells: &[SimCell], expected_cells: &[SimCell]) {
    // Initialize environment
    let mut env = Environment::new();
    env.set_living(start_cells);
    env.simulate();

    // Check all the cells
    expected_cells.iter().map(|c| assert!(env.get_cell(c))).count();

    // Check the size
    assert_eq!(env.get_living_count(), expected_cells.len());
}

#[test]
fn simulate_still_lives() {
    // Block
    let block = [
        SimCell::new(1, 0), SimCell::new(1, 1),
        SimCell::new(2, 0), SimCell::new(2, 1)];
    check_environment(&block, &block);

    // Bee hive
    let beehive = [
        SimCell::new(2, 1), SimCell::new(3, 1),
        SimCell::new(1, 0), SimCell::new(4, 0),
        SimCell::new(2, -1), SimCell::new(3, -1)];
    check_environment(&beehive, &beehive);

    // Tub
    let tub = [
        SimCell::new(2, 1),
        SimCell::new(1, 0), SimCell::new(3, 0),
        SimCell::new(2, -1),
    ];
    check_environment(&tub, &tub);
}

#[test]
fn simulate_blinker() {
    let start = [
        SimCell::new(2, 1),
        SimCell::new(2, 0),
        SimCell::new(2, -1)
    ];

    let end = [
        SimCell::new(1, 0), SimCell::new(2, 0), SimCell::new(3, 0)
    ];

    check_environment(&start, &end);
    check_environment(&end, &start);
}

#[test]
fn simulate_toad() {
    let start = [
        SimCell::new(2, 1), SimCell::new(3, 1), SimCell::new(4, 1),
        SimCell::new(1, 0), SimCell::new(2, 0), SimCell::new(3, 0)
    ];

    let end = [
        SimCell::new(3, 2),
        SimCell::new(1, 1), SimCell::new(4, 1),
        SimCell::new(1, 0), SimCell::new(4, 0),
        SimCell::new(2, -1)
    ];

    check_environment(&start, &end);
    check_environment(&end, &start);
}

#[test]
fn viewport_basic() {
    let (x, y, width, height) = (-23, 44, 1024, 10500);
    let mut viewport = Viewport::new(x, y, width, height);

    assert_eq!(viewport.x(), x);
    assert_eq!(viewport.y(), y);
    assert_eq!(viewport.width(), width);
    assert_eq!(viewport.height(), height);
    assert_eq!(viewport.right(), x.wrapping_add_unsigned(width as u32));
    assert_eq!(viewport.bottom(), y.wrapping_sub_unsigned(height as u32));

    // Check belonging
    assert!(viewport.in_viewport(0, 0), "Origin should be in viewport");
    assert!(viewport.in_viewport(x, y), "Viewport origin should be in viewport");
    assert!(!viewport.in_viewport(x.wrapping_add_unsigned(width as u32), y), "Right should not be in viewport");
    assert!(!viewport.in_viewport(x, y.wrapping_add_unsigned(height as u32)), "Bottom should not be in viewport");

    // Check clearing
    assert!(viewport.get_points::<i32>().is_empty());
    viewport.set_living(0, 0);
    assert_eq!(viewport.get_points::<i32>().len(), 1);
    viewport.clear();
    assert!(viewport.get_points::<i32>().is_empty());
}

#[test]
fn viewport_display() {
    let mut viewport = Viewport::new(-1, 1, 3, 3);
    viewport.set_living(0, 0);

    let expected_repr = "   \n x \n   ";
    assert_eq!(expected_repr, viewport.to_text());
}

#[test]
fn environment_viewport() {
    let mut env = Environment::new();
    env.set_living(&[SimCell::new(0, 1), SimCell::new(-1, 0), SimCell::new(0, 0), SimCell::new(1, 0), SimCell::new(0, -1)]);

    let mut viewport = Viewport::new(-1, 1, 3, 3);
    env.fill_viewport(&mut viewport);

    let expected_repr = " x \nxxx\n x ";
    assert_eq!(expected_repr, viewport.to_text());
}

#[test]
fn cell_text_of_extreme_coordinates() {
    assert_eq!(SimCell::new(i32::MIN, i32::MAX).to_text(), "(-2147483648,2147483647)");
    assert_eq!(SimCell::new(0, -7).to_text(), "(0,-7)");
}

#[test]
fn toggling_twice_restores_the_environment() {
    let mut env = Environment::new();
    env.set_living(&[SimCell::new(1, 1), SimCell::new(1, 1), SimCell::new(2, 2)]);
    assert_eq!(env.get_living_count(), 2);
    assert!(!env.toggle_cell(&SimCell::new(1, 1)));
    assert_eq!(env.get_living_count(), 1);
    assert!(env.toggle_cell(&SimCell::new(1, 1)));
    assert_eq!(env.get_living_count(), 2);
}

#[test]
fn lonely_and_crowded_cells_die() {
    // A single cell dies; the centre of a plus shape dies of overcrowding.
    let mut env = Environment::new();
    env.set_living(&[SimCell::new(10, 10)]);
    env.simulate();
    assert_eq!(env.get_living_count(), 0);

    let mut env = Environment::new();
    env.set_living(&[SimCell::new(0, 1), SimCell::new(-1, 0), SimCell::new(0, 0), SimCell::new(1, 0), SimCell::new(0, -1)]);
    env.simulate();
    assert!(!env.get_cell(&SimCell::new(0, 0)));
    assert!(env.get_cell(&SimCell::new(1, 1)));
    assert_eq!(env.get_living_count(), 8);
}

#[test]
fn viewport_points_follow_the_slot_formula() {
    let mut viewport = Viewport::new(-1, 1, 3, 3);
    viewport.set_living(0, 0);
    // Slot 4: (4 % 3 + (-1), 4 / 3 - 1).
    assert_eq!(viewport.get_points::<i64>(), vec![(0i64, 0i64)]);
    // A cell outside the window is not drawn.
    let mut env = Environment::new();
    env.set_living(&[SimCell::new(5, 5)]);
    env.fill_viewport(&mut viewport);
    assert!(viewport.get_points::<i32>().is_empty());
}
