use mazecast::maze::Maze;

#[test]
fn render_single_cell_is_a_closed_box() {
    assert_eq!(Maze::blank(1, 1).render(), "+---+\n|   |\n+---+\n");
}

#[test]
fn render_empty_maze_is_a_single_corner() {
    assert_eq!(Maze::blank(0, 0).render(), "+\n");
}

#[test]
fn render_maze_without_rows_is_its_upper_border() {
    assert_eq!(Maze::blank(0, 3).render(), "+---+---+---+\n");
}

#[test]
fn render_maze_without_columns_has_two_lines_for_each_row() {
    assert_eq!(Maze::blank(2, 0).render(), "+\n|\n+\n|\n+\n");
}

#[test]
fn render_blank_grid_closes_every_side() {
    assert_eq!(
        Maze::blank(2, 3).render(),
        "+---+---+---+\n|   |   |   |\n+---+---+---+\n|   |   |   |\n+---+---+---+\n"
    );
}

#[test]
fn render_opens_the_east_and_south_sides_of_linked_cells() {
    let mut maze = Maze::blank(2, 2);
    maze.link_pair(0, 0, 1, 0);
    maze.link_pair(0, 0, 0, 1);
    assert_eq!(
        maze.render(),
        "+---+---+\n|       |\n+   +---+\n|   |   |\n+---+---+\n"
    );
}

#[test]
fn render_goes_by_the_link_of_the_western_and_northern_cell() {
    let mut maze = Maze::blank(2, 2);
    // recorded from east to west and from south to north only: both sides stay closed
    maze.link_coords(1, 0, 0, 0);
    maze.link_coords(1, 1, 1, 0);
    assert_eq!(
        maze.render(),
        "+---+---+\n|   |   |\n+---+---+\n|   |   |\n+---+---+\n"
    );
    maze.link_coords(0, 0, 1, 0);
    maze.link_coords(1, 0, 1, 1);
    assert_eq!(
        maze.render(),
        "+---+---+\n|       |\n+---+   +\n|   |   |\n+---+---+\n"
    );
}

#[test]
fn render_keeps_the_outer_walls_closed() {
    let mut maze = Maze::blank(1, 1);
    maze.link_pair(0, 0, 1, 0);
    maze.link_pair(0, 0, 0, 1);
    assert_eq!(maze.render(), "+---+\n|   |\n+---+\n");
}

#[test]
fn render_of_a_generated_maze_has_two_lines_for_each_row_and_one_more() {
    let text = Maze::generate_maze(4, 6).unwrap().render();
    let lines: Vec<&str> = text.lines().collect();
    assert_eq!(lines.len(), 9);
    for line in &lines {
        assert_eq!(line.len(), 4 * 6 + 1);
    }
    assert_eq!(lines[0], "+---+---+---+---+---+---+");
    assert_eq!(lines[8], "+---+---+---+---+---+---+");
    // a spanning tree of 24 cells has 23 passages: so many sides are open
    let open_east = lines
        .iter()
        .skip(1)
        .step_by(2)
        .map(|line| (4..line.len() - 1).step_by(4).filter(|at| &line[*at..*at + 1] == " ").count())
        .sum::<usize>();
    let open_south = lines
        .iter()
        .skip(2)
        .step_by(2)
        .map(|line| line.matches("+   ").count())
        .sum::<usize>();
    assert_eq!(open_east + open_south, 23);
}
