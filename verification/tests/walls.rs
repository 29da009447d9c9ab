use mazecast::maze::{Direction, Maze};
use mazecast::world::{Color, Point, Wall};

fn wall(x0: usize, y0: usize, x1: usize, y1: usize) -> Wall {
    Wall {
        p0: Point { x: x0, y: y0 },
        p1: Point { x: x1, y: y1 },
        color: Color { r: 100, g: 200, b: 150 },
    }
}

#[test]
fn new_usize_keeps_the_corners_and_has_the_wall_colour() {
    let made = Wall::new_usize(1, 2, 3, 4);
    assert_eq!(made.p0, Point { x: 1, y: 2 });
    assert_eq!(made.p1, Point { x: 3, y: 4 });
    assert_eq!(made.color, Color { r: 100, g: 200, b: 150 });
}

#[test]
fn single_cell_maze_has_four_walls_around_a_unit_square() {
    let maze = Maze::generate_maze(1, 1).unwrap();
    assert_eq!(
        maze.to_walls(1),
        vec![wall(0, 0, 1, 0), wall(0, 1, 1, 1), wall(1, 0, 1, 1), wall(0, 0, 0, 1)]
    );
}

#[test]
fn walls_grow_with_the_scale() {
    let maze = Maze::blank(1, 1);
    assert_eq!(
        maze.to_walls(3),
        vec![wall(0, 0, 3, 0), wall(0, 3, 3, 3), wall(3, 0, 3, 3), wall(0, 0, 0, 3)]
    );
}

#[test]
fn walls_of_a_scale_of_zero_all_lie_in_the_origin() {
    let maze = Maze::blank(2, 2);
    let walls = maze.to_walls(0);
    assert_eq!(walls.len(), 16);
    for found in walls {
        assert_eq!(found, wall(0, 0, 0, 0));
    }
}

#[test]
fn empty_maze_has_no_walls() {
    assert!(Maze::blank(0, 0).to_walls(1).is_empty());
    assert!(Maze::blank(0, 3).to_walls(2).is_empty());
    assert!(Maze::blank(3, 0).to_walls(2).is_empty());
}

#[test]
fn blank_maze_has_four_walls_for_every_cell() {
    let maze = Maze::blank(2, 3);
    let walls = maze.to_walls(2);
    assert_eq!(walls.len(), 24);
    // the cell (2, 1) comes last
    assert_eq!(
        walls[20..].to_vec(),
        vec![wall(4, 2, 6, 2), wall(4, 4, 6, 4), wall(6, 2, 6, 4), wall(4, 2, 4, 4)]
    );
}

#[test]
fn linked_sides_have_no_wall() {
    let mut maze = Maze::blank(1, 2);
    maze.link_pair(0, 0, 1, 0);
    assert_eq!(
        maze.to_walls(1),
        vec![
            wall(0, 0, 1, 0),
            wall(0, 1, 1, 1),
            wall(0, 0, 0, 1),
            wall(1, 0, 2, 0),
            wall(1, 1, 2, 1),
            wall(2, 0, 2, 1),
        ]
    );
}

#[test]
fn cell_linked_on_all_sides_has_no_walls() {
    let mut maze = Maze::blank(3, 3);
    maze.link_pair(1, 1, 1, 0);
    maze.link_pair(1, 1, 0, 1);
    maze.link_pair(1, 1, 1, 2);
    maze.link_pair(1, 1, 2, 1);
    let walls = maze.to_walls(1);
    // four walls for each corner cell, three for each of the other four, none for the middle
    assert_eq!(walls.len(), 4 * 4 + 4 * 3);
    let middle = wall(1, 1, 2, 1);
    assert!(!walls.contains(&middle));
    assert!(!walls.contains(&wall(1, 2, 2, 2)));
    assert!(!walls.contains(&wall(2, 1, 2, 2)));
    assert!(!walls.contains(&wall(1, 1, 1, 2)));
}

#[test]
fn link_recorded_one_way_opens_one_side_only() {
    let mut maze = Maze::blank(1, 2);
    maze.link_coords(0, 0, 1, 0);
    let walls = maze.to_walls(1);
    assert_eq!(walls.len(), 7);
    assert_eq!(walls[..3].to_vec(), vec![wall(0, 0, 1, 0), wall(0, 1, 1, 1), wall(0, 0, 0, 1)]);
    // the second cell keeps its west wall
    assert_eq!(walls[6], wall(1, 0, 1, 1));
}

#[test]
fn every_cell_of_a_generated_maze_has_a_wall_for_each_side_without_a_link() {
    let scale = 2;
    let maze = Maze::generate_maze(6, 5).unwrap();
    let walls = maze.to_walls(scale);
    let mut at = 0;
    for cell in &maze.cells {
        let x = cell.x * scale;
        let y = cell.y * scale;
        let sides = [
            (Direction::N, wall(x, y, x + scale, y)),
            (Direction::S, wall(x, y + scale, x + scale, y + scale)),
            (Direction::E, wall(x + scale, y, x + scale, y + scale)),
            (Direction::W, wall(x, y, x, y + scale)),
        ];
        let mut linked = 0;
        let mut found = 0;
        for (direction, side) in sides {
            if maze.is_linked(cell, &direction) {
                linked += 1;
            } else {
                assert_eq!(walls[at], side);
                at += 1;
                found += 1;
            }
        }
        assert_eq!(found, 4 - linked);
    }
    assert_eq!(at, walls.len());
    // a tree of thirty cells has twenty-nine passages, each of which opens two sides
    assert_eq!(walls.len(), 4 * 30 - 2 * 29);
}
