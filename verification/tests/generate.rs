use maze::grid::Maze;
use maze::source::{DrawSource, ReplaySource, ThreadSource};

fn lines(rows: &[&str]) -> Vec<String> {
    rows.iter().map(|row| row.to_string()).collect()
}

fn ring_is_open(maze: &Maze) -> bool {
    let (w, h) = (maze.width() as isize, maze.height() as isize);
    (0..w).all(|x| !maze.is_wall(x, 0) && !maze.is_wall(x, h - 1))
        && (0..h).all(|y| !maze.is_wall(0, y) && !maze.is_wall(w - 1, y))
}

fn in_corridor(maze: &Maze, x: isize, y: isize) -> bool {
    if x % 2 == 0 && y % 2 == 0 {
        true
    } else if x % 2 == 1 && y % 2 == 0 {
        !maze.is_wall(x - 1, y) && !maze.is_wall(x + 1, y)
    } else if x % 2 == 0 && y % 2 == 1 {
        !maze.is_wall(x, y - 1) && !maze.is_wall(x, y + 1)
    } else {
        false
    }
}

#[test]
fn nine_by_nine_has_open_ring_entrance_and_exit() {
    let maze = Maze::generate(9, 9);
    assert_eq!(maze.width(), 9);
    assert_eq!(maze.height(), 9);
    for i in 0..9 {
        assert!(!maze.is_wall(i, 0));
        assert!(!maze.is_wall(i, 8));
        assert!(!maze.is_wall(0, i));
        assert!(!maze.is_wall(8, i));
    }
    assert!(!maze.is_wall(2, 1));
    assert!(!maze.is_wall(6, 7));
}

#[test]
fn nine_by_nine_from_fixed_draws() {
    let mut source = ReplaySource::new(vec![0, 1, 2, 3]);
    let maze = Maze::generate_with(9, 9, &mut source);
    let expected = lines(&[
        "                  ",
        "  []  [][][][][]  ",
        "  []      []  []  ",
        "  [][][]  []  []  ",
        "  []  []  []  []  ",
        "  []  []  []  []  ",
        "  []          []  ",
        "  [][][][][]  []  ",
        "                  ",
    ]);
    assert_eq!(maze.render(), expected);
}

#[test]
fn nine_by_nine_from_zero_draws() {
    let mut source = ReplaySource::new(Vec::new());
    let maze = Maze::generate_with(9, 9, &mut source);
    let expected = lines(&[
        "                  ",
        "  []  [][][][][]  ",
        "  []          []  ",
        "  [][][][][]  []  ",
        "  []          []  ",
        "  []  [][][][][]  ",
        "  []          []  ",
        "  [][][][][]  []  ",
        "                  ",
    ]);
    assert_eq!(maze.render(), expected);
}

#[test]
fn seven_by_seven_from_fixed_draws() {
    let mut source = ReplaySource::new(vec![3, 1, 4, 1, 5, 9, 2, 6]);
    let maze = Maze::generate_with(7, 7, &mut source);
    let expected = lines(&[
        "              ",
        "  []  [][][]  ",
        "  []      []  ",
        "  [][][]  []  ",
        "  []      []  ",
        "  [][][]  []  ",
        "              ",
    ]);
    assert_eq!(maze.render(), expected);
}

#[test]
fn eleven_by_seven_from_fixed_draws() {
    let mut source = ReplaySource::new(vec![2, 0, 3, 1, 1]);
    let maze = Maze::generate_with(11, 7, &mut source);
    let expected = lines(&[
        "                      ",
        "  []  [][][][][][][]  ",
        "  []  []      []  []  ",
        "  []  []  []  []  []  ",
        "  []      []      []  ",
        "  [][][][][][][]  []  ",
        "                      ",
    ]);
    assert_eq!(maze.render(), expected);
}

#[test]
fn five_by_five_has_one_room() {
    let mut source = ReplaySource::new(vec![2]);
    let maze = Maze::generate_with(5, 5, &mut source);
    let expected = lines(&[
        "          ",
        "  []  []  ",
        "  []  []  ",
        "  []  []  ",
        "          ",
    ]);
    assert_eq!(maze.render(), expected);
}

#[test]
fn four_by_four_is_the_smallest_maze() {
    let mut source = ReplaySource::new(vec![7]);
    let maze = Maze::generate_with(4, 4, &mut source);
    let expected = lines(&["        ", "  []    ", "        ", "        "]);
    assert_eq!(maze.render(), expected);
}

#[test]
fn even_sizes_are_carved_too() {
    let mut source = ReplaySource::new(vec![1, 2]);
    let maze = Maze::generate_with(6, 8, &mut source);
    let expected = lines(&[
        "            ",
        "  []  [][]  ",
        "  []  []    ",
        "  []  []    ",
        "  []  []    ",
        "  []  []    ",
        "  []        ",
        "            ",
    ]);
    assert_eq!(maze.render(), expected);
}

#[test]
fn carve_alone_leaves_entrance_and_exit_shut() {
    let mut maze = Maze::init(7, 7);
    let mut source = ReplaySource::new(vec![0]);
    maze.carve(&mut source, 2, 2);
    let expected = lines(&[
        "              ",
        "  [][][][][]  ",
        "  []      []  ",
        "  [][][]  []  ",
        "  []      []  ",
        "  [][][][][]  ",
        "              ",
    ]);
    assert_eq!(maze.render(), expected);
}

#[test]
fn carve_uses_one_draw_for_each_room() {
    let mut maze = Maze::init(7, 7);
    let mut source = ReplaySource::new(vec![0, 1, 2, 3, 10, 20, 30]);
    maze.carve(&mut source, 2, 2);
    // A 7 by 7 grid has four rooms, so four draws are gone.
    assert_eq!(source.next_draw(), 10);
}

#[test]
fn same_draws_give_the_same_maze() {
    let draws = vec![5, 0, 7, 2, 9, 9, 1, 3, 3, 8, 6];
    let mut first = ReplaySource::new(draws.clone());
    let mut second = ReplaySource::new(draws);
    let a = Maze::generate_with(21, 15, &mut first);
    let b = Maze::generate_with(21, 15, &mut second);
    assert_eq!(a.render(), b.render());
}

#[test]
fn draws_before_the_start_do_not_matter() {
    let mut fresh = ReplaySource::new(vec![0, 1, 2, 3]);
    let mut used = ReplaySource::new(vec![0, 1, 2, 3]);
    for _ in 0..8 {
        used.next_draw();
    }
    let a = Maze::generate_with(13, 9, &mut fresh);
    let b = Maze::generate_with(13, 9, &mut used);
    assert_eq!(a.render(), b.render());
}

#[test]
fn different_draws_can_give_different_mazes() {
    let mut first = ReplaySource::new(vec![0, 1, 2, 3]);
    let mut second = ReplaySource::new(Vec::new());
    let a = Maze::generate_with(9, 9, &mut first);
    let b = Maze::generate_with(9, 9, &mut second);
    assert_ne!(a.render(), b.render());
}

#[test]
fn ring_stays_open_whatever_is_drawn() {
    for (width, height) in [(4, 4), (5, 5), (7, 9), (8, 6), (15, 11), (31, 21)] {
        let maze = Maze::generate(width, height);
        assert!(ring_is_open(&maze), "{} by {}", width, height);
    }
}

#[test]
fn entrance_and_exit_are_open_whatever_is_drawn() {
    for (width, height) in [(4, 4), (5, 5), (7, 7), (9, 13), (10, 10), (101, 101)] {
        let maze = Maze::generate(width, height);
        assert!(!maze.is_wall(2, 1));
        assert!(!maze.is_wall(width as isize - 3, height as isize - 2));
    }
}

#[test]
fn odd_sizes_from_seven_up_stay_inside_the_grid() {
    let mut size: usize = 7;
    while size <= 41 {
        let maze = Maze::generate(size, size);
        assert_eq!(maze.render().len(), size);
        let other = Maze::generate(size, 7);
        assert_eq!(other.render().len(), 7);
        size += 2;
    }
}

#[test]
fn passages_keep_to_the_lattice() {
    for (width, height) in [(7, 7), (9, 9), (15, 11), (33, 21)] {
        let maze = Maze::generate(width, height);
        let (w, h) = (width as isize, height as isize);
        for y in 1..h - 1 {
            for x in 1..w - 1 {
                if !maze.is_wall(x, y) && !(x == w - 3 && y == h - 2) {
                    assert!(in_corridor(&maze, x, y), "cell ({}, {})", x, y);
                }
            }
        }
    }
}

#[test]
fn cells_with_two_odd_coordinates_stay_walls() {
    let mut source = ThreadSource::new();
    let maze = Maze::generate_with(19, 19, &mut source);
    let mut y: isize = 1;
    while y < 18 {
        let mut x: isize = 1;
        while x < 18 {
            assert!(maze.is_wall(x, y), "cell ({}, {})", x, y);
            x += 2;
        }
        y += 2;
    }
}

#[test]
fn carving_visits_every_room_of_an_odd_grid() {
    let maze = Maze::generate(17, 13);
    let mut y: isize = 2;
    while y < 12 {
        let mut x: isize = 2;
        while x < 16 {
            assert!(!maze.is_wall(x, y), "room ({}, {})", x, y);
            x += 2;
        }
        y += 2;
    }
}

#[test]
fn largest_maze_of_the_prompt_is_generated() {
    let maze = Maze::generate(101, 101);
    assert!(ring_is_open(&maze));
    assert_eq!(maze.render().len(), 101);
}

#[test]
fn deep_maze_does_not_exhaust_the_stack() {
    let mut source = ReplaySource::new(vec![0, 0, 0, 2, 1, 1, 1, 3]);
    let maze = Maze::generate_with(1501, 1501, &mut source);
    assert!(ring_is_open(&maze));
    assert!(!maze.is_wall(1498, 1498));
    assert!(maze.is_wall(1497, 1497));
}
