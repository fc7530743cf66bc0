use maze::grid::{Element, Maze};

fn on_ring(maze: &Maze, x: usize, y: usize) -> bool {
    x == 0 || y == 0 || x == maze.width() - 1 || y == maze.height() - 1
}

#[test]
fn init_keeps_the_size() {
    let maze = Maze::init(5, 4);
    assert_eq!(maze.width(), 5);
    assert_eq!(maze.height(), 4);
}

#[test]
fn init_opens_the_ring_and_walls_the_inside() {
    for (width, height) in [(3, 3), (4, 4), (5, 7), (9, 9), (12, 5)] {
        let maze = Maze::init(width, height);
        for y in 0..height {
            for x in 0..width {
                let wall = maze.is_wall(x as isize, y as isize);
                assert_eq!(wall, !on_ring(&maze, x, y), "cell ({}, {})", x, y);
            }
        }
    }
}

#[test]
fn smallest_grid_is_all_ring_but_the_middle() {
    let maze = Maze::init(3, 3);
    for y in 0..3 {
        for x in 0..3 {
            assert_eq!(maze.is_wall(x, y), x == 1 && y == 1);
        }
    }
}

#[test]
fn set_passage_opens_one_cell() {
    let mut maze = Maze::init(6, 5);
    assert!(maze.is_wall(3, 2));
    maze.set_passage(3, 2);
    for y in 0..5 {
        for x in 0..6 {
            let expected = !on_ring(&maze, x, y) && !(x == 3 && y == 2);
            assert_eq!(maze.is_wall(x as isize, y as isize), expected);
        }
    }
}

#[test]
fn set_passage_on_a_passage_changes_nothing() {
    let mut maze = Maze::init(5, 5);
    let before = maze.render();
    maze.set_passage(0, 0);
    maze.set_passage(4, 2);
    assert_eq!(maze.render(), before);
    maze.set_passage(2, 2);
    maze.set_passage(2, 2);
    assert!(!maze.is_wall(2, 2));
    assert!(maze.is_wall(1, 2));
}

#[test]
fn cells_are_stored_row_by_row() {
    let mut maze = Maze::init(7, 4);
    maze.set_passage(5, 1);
    assert!(!maze.is_wall(5, 1));
    assert!(maze.is_wall(1, 2));
    assert!(maze.is_wall(4, 1));
    assert!(maze.is_wall(5, 2));
    assert_eq!(maze.render_row(1), "  [][][][]    ");
    assert_eq!(maze.render_row(2), "  [][][][][]  ");
}

#[test]
fn render_of_a_fresh_grid() {
    let maze = Maze::init(5, 4);
    let expected = vec![
        "          ".to_string(),
        "  [][][]  ".to_string(),
        "  [][][]  ".to_string(),
        "          ".to_string(),
    ];
    assert_eq!(maze.render(), expected);
}

#[test]
fn render_uses_two_characters_for_each_cell() {
    let maze = Maze::init(9, 6);
    let lines = maze.render();
    assert_eq!(lines.len(), 6);
    for line in &lines {
        assert_eq!(line.chars().count(), 18);
    }
}

#[test]
fn render_row_is_the_line_of_render() {
    let mut maze = Maze::init(6, 6);
    maze.set_passage(2, 3);
    let lines = maze.render();
    for y in 0..6 {
        assert_eq!(maze.render_row(y), lines[y]);
    }
    assert_eq!(lines[3], "  []  [][]  ");
}

#[test]
fn render_twice_gives_the_same_text() {
    let mut maze = Maze::init(7, 5);
    maze.set_passage(2, 2);
    maze.set_passage(3, 2);
    let first = maze.render();
    let second = maze.render();
    assert_eq!(first, second);
}

#[test]
fn elements_compare_by_variant() {
    assert_eq!(Element::Wall, Element::Wall);
    assert_ne!(Element::Wall, Element::Passage);
}
