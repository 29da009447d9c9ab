use mazecast::generate::MazeError;
use mazecast::maze::{Cell, Direction, Maze};

fn opposite(direction: &Direction) -> Direction {
    match direction {
        Direction::N => Direction::S,
        Direction::S => Direction::N,
        Direction::E => Direction::W,
        Direction::W => Direction::E,
    }
}

/// The number of passages, each counted once: from its western or northern cell.
fn passages(maze: &Maze) -> usize {
    let mut count = 0;
    for cell in &maze.cells {
        if maze.is_linked(cell, &Direction::E) {
            count += 1;
        }
        if maze.is_linked(cell, &Direction::S) {
            count += 1;
        }
    }
    count
}

/// The number of cells that passages lead to from the first cell.
fn reachable(maze: &Maze) -> usize {
    let mut seen = vec![false; maze.cells.len()];
    let mut pending = vec![Cell::new(0, 0)];
    seen[0] = true;
    let mut count = 0;
    while let Some(cell) = pending.pop() {
        count += 1;
        for direction in Direction::all() {
            if maze.is_linked(&cell, &direction) {
                let next = *maze.get_cell_in_direction(&cell, &direction).unwrap();
                let at = next.y * maze.width + next.x;
                if !seen[at] {
                    seen[at] = true;
                    pending.push(next);
                }
            }
        }
    }
    count
}

fn assert_spanning_tree(maze: &Maze, height: usize, width: usize) {
    assert_eq!(maze.height, height);
    assert_eq!(maze.width, width);
    assert_eq!(maze.cells.len(), height * width);
    // every recorded link joins two neighbouring cells of the grid and runs both ways
    let mut recorded = 0;
    for (from, to) in &maze.links {
        assert!(from.0 < width && from.1 < height);
        for target in to {
            assert!(target.0 < width && target.1 < height);
            let apart = from.0.abs_diff(target.0) + from.1.abs_diff(target.1);
            assert_eq!(apart, 1);
            assert!(maze.is_linked_coords(target.0, target.1, from.0, from.1));
            recorded += 1;
        }
    }
    assert_eq!(recorded, 2 * (height * width - 1));
    for cell in &maze.cells {
        for direction in Direction::all() {
            if let Some(next) = maze.get_cell_in_direction(cell, &direction) {
                assert_eq!(
                    maze.is_linked(cell, &direction),
                    maze.is_linked(next, &opposite(&direction))
                );
            }
        }
    }
    // one passage fewer than cells, and all cells joined: a tree
    assert_eq!(passages(maze), height * width - 1);
    assert_eq!(reachable(maze), height * width);
}

#[test]
fn generate_refuses_a_grid_without_rows() {
    assert!(matches!(Maze::generate_maze(0, 5), Err(MazeError::EmptyGrid)));
}

#[test]
fn generate_refuses_a_grid_without_columns() {
    assert!(matches!(Maze::generate_maze(5, 0), Err(MazeError::EmptyGrid)));
    assert!(matches!(Maze::generate_maze(0, 0), Err(MazeError::EmptyGrid)));
}

#[test]
fn generate_from_a_script_refuses_an_empty_grid() {
    assert!(matches!(
        Maze::generate_maze_from(0, 3, 0, &vec![1, 2]),
        Err(MazeError::EmptyGrid)
    ));
    assert!(matches!(
        Maze::generate_maze_from(3, 0, 0, &vec![]),
        Err(MazeError::EmptyGrid)
    ));
}

#[test]
fn generate_single_cell_has_no_links() {
    let maze = Maze::generate_maze(1, 1).unwrap();
    assert_eq!(maze.cells, vec![Cell::new(0, 0)]);
    assert!(maze.links.is_empty());
    assert_spanning_tree(&maze, 1, 1);
}

#[test]
fn generate_two_cells_links_them() {
    let maze = Maze::generate_maze(1, 2).unwrap();
    assert!(maze.is_linked(&Cell::new(0, 0), &Direction::E));
    assert!(maze.is_linked(&Cell::new(1, 0), &Direction::W));
    assert_spanning_tree(&maze, 1, 2);
}

#[test]
fn generate_single_row_links_every_cell_to_the_next() {
    let maze = Maze::generate_maze(1, 6).unwrap();
    for x in 0..5 {
        assert!(maze.is_linked(&Cell::new(x, 0), &Direction::E));
    }
    assert_spanning_tree(&maze, 1, 6);
}

#[test]
fn generate_single_column_links_every_cell_to_the_next() {
    let maze = Maze::generate_maze(6, 1).unwrap();
    for y in 0..5 {
        assert!(maze.is_linked(&Cell::new(0, y), &Direction::S));
    }
    assert_spanning_tree(&maze, 6, 1);
}

#[test]
fn generated_mazes_are_spanning_trees() {
    for (height, width) in [(2, 2), (3, 7), (7, 3), (10, 10), (16, 9)] {
        for _ in 0..5 {
            let maze = Maze::generate_maze(height, width).unwrap();
            assert_spanning_tree(&maze, height, width);
        }
    }
}

#[test]
fn generated_mazes_differ_from_run_to_run() {
    let first = Maze::generate_maze(10, 10).unwrap().render();
    let mut differs = false;
    for _ in 0..20 {
        if Maze::generate_maze(10, 10).unwrap().render() != first {
            differs = true;
        }
    }
    assert!(differs);
}

#[test]
fn an_empty_script_leaves_the_sweep_from_the_first_cell() {
    let maze = Maze::generate_maze_from(2, 2, 0, &vec![]).unwrap();
    assert_eq!(
        maze.render(),
        "+---+---+\n|       |\n+---+   +\n|       |\n+---+---+\n"
    );
    assert_spanning_tree(&maze, 2, 2);
}

#[test]
fn an_empty_script_leaves_the_sweep_from_the_last_cell() {
    let maze = Maze::generate_maze_from(2, 2, 3, &vec![]).unwrap();
    assert_eq!(
        maze.render(),
        "+---+---+\n|       |\n+   +---+\n|       |\n+---+---+\n"
    );
    assert_spanning_tree(&maze, 2, 2);
}

#[test]
fn the_start_of_a_script_counts_modulo_the_number_of_cells() {
    let first = Maze::generate_maze_from(2, 2, 3, &vec![]).unwrap();
    let second = Maze::generate_maze_from(2, 2, 7, &vec![]).unwrap();
    assert_eq!(first.links, second.links);
    let third = Maze::generate_maze_from(2, 2, usize::MAX, &vec![]).unwrap();
    assert_eq!(first.links, third.links);
}

#[test]
fn a_script_is_followed_step_by_step_and_then_the_grid_is_swept() {
    // From the middle north, back south to the middle, on south, then west; the sweep
    // reaches the five cells that are left.
    let maze = Maze::generate_maze_from(3, 3, 4, &vec![0, 1, 2, 7]).unwrap();
    assert_eq!(
        maze.render(),
        "+---+---+---+\n\
         |   |       |\n\
         +   +   +   +\n\
         |   |   |   |\n\
         +   +   +   +\n\
         |       |   |\n\
         +---+---+---+\n"
    );
    assert_spanning_tree(&maze, 3, 3);
}

#[test]
fn a_script_that_reaches_every_cell_leaves_nothing_to_the_sweep() {
    // east, south, west around a grid of four cells
    let maze = Maze::generate_maze_from(2, 2, 0, &vec![1, 1, 1]).unwrap();
    assert!(maze.is_linked(&Cell::new(0, 0), &Direction::E));
    assert!(maze.is_linked(&Cell::new(1, 0), &Direction::S));
    assert!(maze.is_linked(&Cell::new(1, 1), &Direction::W));
    assert!(!maze.is_linked(&Cell::new(0, 1), &Direction::N));
    assert_spanning_tree(&maze, 2, 2);
    // south, east, north the other way round
    let other = Maze::generate_maze_from(2, 2, 0, &vec![0, 1, 0]).unwrap();
    assert!(other.is_linked(&Cell::new(0, 0), &Direction::S));
    assert!(other.is_linked(&Cell::new(0, 1), &Direction::E));
    assert!(other.is_linked(&Cell::new(1, 1), &Direction::N));
    assert!(!other.is_linked(&Cell::new(1, 0), &Direction::W));
    assert_spanning_tree(&other, 2, 2);
}

#[test]
fn the_same_script_leaves_the_same_maze() {
    let picks: Vec<usize> = (0..200).map(|k| k * k + 3 * k + 1).collect();
    let first = Maze::generate_maze_from(7, 9, 20, &picks).unwrap();
    let second = Maze::generate_maze_from(7, 9, 20, &picks).unwrap();
    assert_eq!(first.render(), second.render());
    assert_eq!(first.links, second.links);
    assert_spanning_tree(&first, 7, 9);
}

#[test]
fn a_script_on_a_single_cell_has_nowhere_to_go() {
    let maze = Maze::generate_maze_from(1, 1, 5, &vec![1, 2, 3]).unwrap();
    assert!(maze.links.is_empty());
    assert_spanning_tree(&maze, 1, 1);
}

#[test]
fn scripts_of_any_length_leave_spanning_trees() {
    for (height, width) in [(1, 4), (4, 1), (2, 2), (5, 8), (8, 5)] {
        for length in [0, 1, 2, 5, 17, 60, 500] {
            for start in [0, 3, 11] {
                let picks: Vec<usize> = (0..length).map(|k| 7 * k + start + k / 3).collect();
                let maze = Maze::generate_maze_from(height, width, start, &picks).unwrap();
                assert_spanning_tree(&maze, height, width);
            }
        }
    }
}

#[test]
fn visit_links_a_cell_reached_for_the_first_time() {
    let mut maze = Maze::blank(2, 2);
    let from = Cell::new(0, 0);
    let to = Cell::new(1, 0);
    assert!(maze.visit(&from, &to));
    assert!(maze.is_linked(&from, &Direction::E));
    assert!(maze.is_linked(&to, &Direction::W));
}

#[test]
fn visit_leaves_a_cell_with_links_as_it_is() {
    let mut maze = Maze::blank(2, 2);
    assert!(maze.visit(&Cell::new(0, 0), &Cell::new(1, 0)));
    assert!(maze.visit(&Cell::new(1, 0), &Cell::new(1, 1)));
    assert!(!maze.visit(&Cell::new(1, 1), &Cell::new(1, 0)));
    assert!(!maze.visit(&Cell::new(1, 0), &Cell::new(0, 0)));
    assert!(maze.visit(&Cell::new(0, 0), &Cell::new(0, 1)));
    assert!(!maze.visit(&Cell::new(0, 1), &Cell::new(1, 1)));
    assert!(!maze.is_linked(&Cell::new(0, 1), &Direction::E));
    assert!(!maze.is_linked(&Cell::new(1, 1), &Direction::W));
    assert_spanning_tree(&maze, 2, 2);
}
