use game_of_life::{insert_line_vertical_pattern, insert_square_pattern, Cell, GameOfLife, GolError};

#[test]
fn range_of_neighbourhood_for_5x5_board() -> Result<(), GolError> {
    let mut gol = GameOfLife::new(5, 5);
    assert_eq!(
        insert_line_vertical_pattern(&mut gol, Cell { x: 0, y: 1 }, 3),
        Ok(())
    );
    let mut current_cell = Cell { x: 0, y: 0 }; // the window is clamped at zero
    let (x_star, x_end) = gol.get_range_for_neighbourhood(current_cell.x, gol.width());
    let (y_star, y_end) = gol.get_range_for_neighbourhood(current_cell.y, gol.height());
    assert_eq!(x_star, 0);
    assert_eq!(x_end, 2);
    assert_eq!(y_star, 0);
    assert_eq!(y_end, 2);

    current_cell = Cell { x: 2, y: 2 };
    let (x_start, x_end) = gol.get_range_for_neighbourhood(current_cell.x, gol.width());
    let (y_start, y_end) = gol.get_range_for_neighbourhood(current_cell.y, gol.height());
    assert_eq!(x_start, 1);
    assert_eq!(x_end, 4);
    assert_eq!(y_start, 1);
    assert_eq!(y_end, 4);

    current_cell = Cell { x: 4, y: 4 };
    let (x_start, x_end) = gol.get_range_for_neighbourhood(current_cell.x, gol.width());
    let (y_start, y_end) = gol.get_range_for_neighbourhood(current_cell.y, gol.height());
    assert_eq!(x_start, 3);
    assert_eq!(x_end, 5);
    assert_eq!(y_start, 3);
    assert_eq!(y_end, 5);
    Ok(())
}

#[test]
fn range_of_neighbourhood_overflow_case() {
    let mut gol = GameOfLife::new(usize::MAX, usize::MAX);
    assert_eq!(
        insert_line_vertical_pattern(&mut gol, Cell { x: 0, y: 1 }, 3),
        Ok(())
    );
    assert_eq!(
        insert_square_pattern(
            &mut gol,
            Cell {
                x: usize::MAX - 2,
                y: usize::MAX - 2,
            },
            (2, 2),
        ),
        Ok(())
    );

    let current_cell = Cell {
        x: usize::MAX - 1,
        y: usize::MAX - 1,
    }; // c + 2 does not fit in usize here
    let (x_start, x_end) = gol.get_range_for_neighbourhood(current_cell.x, gol.width());
    let (y_start, y_end) = gol.get_range_for_neighbourhood(current_cell.y, gol.height());
    assert_eq!(x_start, usize::MAX - 2);
    assert_eq!(x_end, usize::MAX);
    assert_eq!(y_start, usize::MAX - 2);
    assert_eq!(y_end, usize::MAX);
}

/// The board holds the live cells (0,1), (1,1), (2,1):
/// D A D D D
/// D A D D D
/// D A D D D
/// D D D D D
/// D D D D D
#[test]
fn process_cell_for_5x5_board() {
    let mut gol = GameOfLife::new(5, 5);
    assert_eq!(
        insert_line_vertical_pattern(&mut gol, Cell { x: 0, y: 1 }, 3),
        Ok(())
    );

    let current_cell = Cell { x: 0, y: 0 }; // dead, 2 live neighbours: stays dead
    assert_eq!(gol.count_cell_living_neighbours(&current_cell), 2);
    assert!(!gol.cell_next_state_is_alive(&current_cell));

    let current_cell = Cell { x: 0, y: 1 }; // alive, 1 live neighbour: dies
    assert_eq!(gol.count_cell_living_neighbours(&current_cell), 1);
    assert!(!gol.cell_next_state_is_alive(&current_cell));

    let current_cell = Cell { x: 1, y: 1 }; // alive, 2 live neighbours: survives
    assert_eq!(gol.count_cell_living_neighbours(&current_cell), 2);
    assert!(gol.cell_next_state_is_alive(&current_cell));

    let current_cell = Cell { x: 1, y: 0 }; // dead, 3 live neighbours: is born
    assert_eq!(gol.count_cell_living_neighbours(&current_cell), 3);
    assert!(gol.cell_next_state_is_alive(&current_cell));
}

/// A 2x2 block in the far corner of the largest board, which never changes.
#[test]
fn process_cell_for_overflow_case() {
    let mut gol = GameOfLife::new(usize::MAX, usize::MAX);
    assert_eq!(
        insert_square_pattern(
            &mut gol,
            Cell {
                x: usize::MAX - 2,
                y: usize::MAX - 2,
            },
            (2, 2),
        ),
        Ok(())
    );

    let current_cell = Cell {
        x: usize::MAX - 1,
        y: usize::MAX - 1,
    };
    assert_eq!(gol.count_cell_living_neighbours(&current_cell), 3);
    assert!(gol.cell_next_state_is_alive(&current_cell));

    let current_cell = Cell {
        x: usize::MAX - 2,
        y: usize::MAX - 1,
    };
    assert_eq!(gol.count_cell_living_neighbours(&current_cell), 3);
    assert!(gol.cell_next_state_is_alive(&current_cell));

    let current_cell = Cell {
        x: usize::MAX - 1,
        y: usize::MAX - 2,
    };
    assert_eq!(gol.count_cell_living_neighbours(&current_cell), 3);
    assert!(gol.cell_next_state_is_alive(&current_cell));

    let current_cell = Cell {
        x: usize::MAX - 2,
        y: usize::MAX - 2,
    };
    assert_eq!(gol.count_cell_living_neighbours(&current_cell), 3);
    assert!(gol.cell_next_state_is_alive(&current_cell));
}

/// The line (0,1), (1,1), (2,1) turns into (1,0), (1,1), (1,2).
#[test]
fn transition() {
    let mut gol = GameOfLife::new(5, 5);
    assert_eq!(
        insert_line_vertical_pattern(&mut gol, Cell { x: 0, y: 1 }, 3),
        Ok(())
    );
    gol.transition();
    assert_eq!(gol.alive_count(), 3);
    assert!(gol.is_alive_cell(&Cell { x: 1, y: 0 }));
    assert!(gol.is_alive_cell(&Cell { x: 1, y: 1 }));
    assert!(gol.is_alive_cell(&Cell { x: 1, y: 2 }));
}

#[test]
fn add_living_cell_in_and_out_of_bounds() {
    let mut gol = GameOfLife::new(10, 15);
    assert_eq!(gol.add_living_cell(Cell { x: 5, y: 14 }), Ok(()));
    assert!(gol.is_alive_cell(&Cell { x: 5, y: 14 }));
    assert_eq!(
        gol.add_living_cell(Cell { x: 5, y: 15 }),
        Err(GolError::IndexOutOfBounds)
    );
    assert!(!gol.is_alive_cell(&Cell { x: 5, y: 15 }));
}

#[test]
fn toggle_living_cell() {
    let mut gol = GameOfLife::new(10, 15);
    let cell = Cell { x: 5, y: 14 };
    assert_eq!(gol.add_living_cell(cell), Ok(()));
    assert!(gol.is_alive_cell(&cell));
    assert_eq!(gol.toggle_cell(cell), Ok(()));
    assert!(!gol.is_alive_cell(&cell));
    assert_eq!(gol.toggle_cell(cell), Ok(()));
    assert!(gol.is_alive_cell(&cell));
}

#[test]
fn toggle_dead_cell() {
    let mut gol = GameOfLife::new(10, 15);
    let cell = Cell { x: 5, y: 14 };
    assert!(!gol.is_alive_cell(&cell));
    assert_eq!(gol.toggle_cell(cell), Ok(()));
    assert!(gol.is_alive_cell(&cell));
    assert_eq!(gol.toggle_cell(cell), Ok(()));
    assert!(!gol.is_alive_cell(&cell));
}

#[test]
fn toggle_out_of_bounds_cell() {
    let mut gol = GameOfLife::new(10, 15);
    let cell = Cell { x: 5, y: 15 };
    assert_eq!(gol.toggle_cell(cell), Err(GolError::IndexOutOfBounds));
    assert!(!gol.is_alive_cell(&cell));
}
