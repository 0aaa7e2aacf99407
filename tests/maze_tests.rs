use maze_solver::args::{check_dimension, parse, ArgError};
use maze_solver::{Direction, Maze, MazeError, Position, Rng, Tree, TreeNode};

fn pos(x: usize, y: usize) -> Position {
    Position { x, y }
}

fn cells(maze: &Maze) -> Vec<(Position, maze_solver::Cell)> {
    let mut out = Vec::new();
    for y in 0..maze.height() {
        for x in 0..maze.width() {
            out.push((pos(x, y), maze.get_node_from_position(pos(x, y)).unwrap()));
        }
    }
    out
}

fn open(maze: &Maze, p: Position, d: Direction) -> bool {
    maze.get_node_from_position(p).unwrap().access.contains(&d)
}

fn count_open_edges(maze: &Maze) -> usize {
    let mut n = 0;
    for (p, c) in cells(maze) {
        if c.access.east {
            assert!(p.x + 1 < maze.width());
            n += 1;
        }
        if c.access.south {
            assert!(p.y + 1 < maze.height());
            n += 1;
        }
    }
    n
}

fn reachable_count(maze: &Maze, from: Position) -> usize {
    let w = maze.width();
    let mut seen = vec![false; w * maze.height()];
    let mut stack = vec![from];
    seen[from.y * w + from.x] = true;
    let mut count = 0;
    while let Some(p) = stack.pop() {
        count += 1;
        for q in maze.open_neighbors(p) {
            if !seen[q.y * w + q.x] {
                seen[q.y * w + q.x] = true;
                stack.push(q);
            }
        }
    }
    count
}

#[test]
fn new_rejects_zero_dimensions() {
    assert_eq!(Maze::new(0, 3).unwrap_err(), MazeError::InvalidDimensions);
    assert_eq!(Maze::new(3, 0).unwrap_err(), MazeError::InvalidDimensions);
    assert_eq!(Maze::generate(0, 0, 7).unwrap_err(), MazeError::InvalidDimensions);
}

#[test]
fn new_maze_is_closed_and_unmarked() {
    let maze = Maze::new(4, 3).unwrap();
    assert_eq!(maze.width(), 4);
    assert_eq!(maze.height(), 3);
    for (_, c) in cells(&maze) {
        assert!(!c.visited && !c.start && !c.end);
        assert!(!c.access.north && !c.access.south && !c.access.east && !c.access.west);
    }
    assert_eq!(maze.find_start(), None);
    assert_eq!(maze.find_end(), None);
    assert_eq!(maze.get_distance(pos(0, 0)), None);
}

#[test]
fn generated_maze_is_spanning_tree() {
    for seed in 1..20u64 {
        let maze = Maze::generate(6, 4, seed).unwrap();
        assert_eq!(count_open_edges(&maze), 6 * 4 - 1);
        let start = maze.find_start().unwrap();
        assert_eq!(reachable_count(&maze, start), 6 * 4);
    }
}

#[test]
fn generated_maze_has_one_start_and_one_end() {
    for seed in 1..20u64 {
        let maze = Maze::generate(5, 3, seed).unwrap();
        let starts: Vec<Position> = cells(&maze).into_iter().filter(|(_, c)| c.start).map(|(p, _)| p).collect();
        let ends: Vec<Position> = cells(&maze).into_iter().filter(|(_, c)| c.end).map(|(p, _)| p).collect();
        assert_eq!(starts.len(), 1);
        assert_eq!(ends.len(), 1);
        assert_ne!(starts[0], ends[0]);
        assert!(cells(&maze).iter().all(|(_, c)| !c.visited));
    }
}

#[test]
fn single_cell_maze_start_is_end() {
    let maze = Maze::generate(1, 1, 3).unwrap();
    assert_eq!(maze.find_start(), Some(pos(0, 0)));
    assert_eq!(maze.find_end(), Some(pos(0, 0)));
}

#[test]
fn walls_are_symmetric() {
    let maze = Maze::generate(7, 5, 11).unwrap();
    for (p, _) in cells(&maze) {
        if p.x + 1 < maze.width() {
            assert_eq!(open(&maze, p, Direction::East), open(&maze, pos(p.x + 1, p.y), Direction::West));
        }
        if p.y + 1 < maze.height() {
            assert_eq!(open(&maze, p, Direction::South), open(&maze, pos(p.x, p.y + 1), Direction::North));
        }
    }
}

#[test]
fn same_seed_gives_same_maze() {
    let a = Maze::generate(3, 3, 42).unwrap();
    let b = Maze::generate(3, 3, 42).unwrap();
    assert_eq!(cells(&a), cells(&b));
    assert_eq!(count_open_edges(&a), 8);
}

#[test]
fn solve_five_by_five_reaches_end() {
    let mut maze = Maze::generate(5, 5, 2024).unwrap();
    let start = maze.find_start().unwrap();
    let end = maze.find_end().unwrap();
    let path = maze.solve().unwrap();
    assert_eq!(path[0], start);
    assert_eq!(*path.last().unwrap(), end);
    for w in path.windows(2) {
        let d = w[0].get_direction(&w[1]).unwrap();
        assert_eq!(w[0].distance(&w[1]), 1);
        assert!(open(&maze, w[0], d));
    }
    for p in &path {
        assert!(maze.get_node_from_position(*p).unwrap().visited);
    }
}

#[test]
fn solve_many_seeds() {
    for seed in 1..30u64 {
        let mut maze = Maze::generate(8, 6, seed).unwrap();
        let path = maze.solve().unwrap();
        assert_eq!(path[0], maze.find_start().unwrap());
        assert_eq!(*path.last().unwrap(), maze.find_end().unwrap());
    }
}

#[test]
fn mark_visited_inside_and_outside() {
    let mut maze = Maze::new(3, 2).unwrap();
    maze.mark_position_visited(pos(2, 1));
    maze.mark_position_visited(pos(3, 0));
    maze.mark_position_visited(pos(0, 2));
    for (p, c) in cells(&maze) {
        assert_eq!(c.visited, p == pos(2, 1));
    }
}

#[test]
fn node_lookup_out_of_bounds_is_none() {
    let maze = Maze::new(3, 2).unwrap();
    assert!(maze.get_node_from_position(pos(3, 0)).is_none());
    assert!(maze.get_node_from_position(pos(0, 2)).is_none());
    assert!(maze.get_node_from_position(pos(2, 1)).is_some());
    assert!(maze.open_neighbors(pos(5, 5)).is_empty());
}

#[test]
fn distance_to_end() {
    let maze = Maze::generate(6, 6, 5).unwrap();
    let end = maze.find_end().unwrap();
    assert_eq!(maze.get_distance(end), Some(0));
    assert_eq!(maze.get_distance(pos(0, 0)), Some(end.x + end.y));
    assert_eq!(maze.get_distance(pos(6, 0)), None);
}

#[test]
fn direction_between_positions() {
    let p = pos(2, 2);
    assert_eq!(p.get_direction(&pos(2, 1)), Some(Direction::North));
    assert_eq!(p.get_direction(&pos(2, 3)), Some(Direction::South));
    assert_eq!(p.get_direction(&pos(3, 2)), Some(Direction::East));
    assert_eq!(p.get_direction(&pos(1, 2)), Some(Direction::West));
    assert_eq!(p.get_direction(&p), None);
    assert_eq!(Direction::North.opposite(), Direction::South);
    assert_eq!(Direction::East.opposite(), Direction::West);
}

#[test]
fn manhattan_distance_and_steps() {
    assert_eq!(pos(1, 5).distance(&pos(4, 1)), 7);
    assert_eq!(pos(0, 0).step(Direction::North, 3, 3), None);
    assert_eq!(pos(0, 0).step(Direction::West, 3, 3), None);
    assert_eq!(pos(2, 2).step(Direction::East, 3, 3), None);
    assert_eq!(pos(1, 1).step(Direction::South, 3, 3), Some(pos(1, 2)));
}

#[test]
fn rng_is_deterministic_and_bounded() {
    let mut a = Rng::new(9);
    let mut b = Rng::new(9);
    for _ in 0..50 {
        let x = a.below(7);
        assert_eq!(x, b.below(7));
        assert!(x < 7);
    }
    let mut z = Rng::new(0);
    assert_ne!(z.next_u64(), 0);
}

#[test]
fn rng_xorshift_value() {
    let mut r = Rng::new(1);
    let s: u64 = 1;
    let a = s ^ (s << 13);
    let b = a ^ (a >> 7);
    let c = b ^ (b << 17);
    assert_eq!(r.next_u64(), c);
}

#[test]
fn parse_size_arguments() {
    assert_eq!(parse(None), Ok(10));
    assert_eq!(parse(Some(&"12".to_string())), Ok(12));
    assert_eq!(parse(Some(&"2".to_string())), Err(ArgError::TooSmall));
    assert_eq!(parse(Some(&"abc".to_string())), Err(ArgError::NotANumber));
    assert_eq!(check_dimension(Some(3)), Ok(3));
    assert_eq!(check_dimension(None), Err(ArgError::NotANumber));
}

#[test]
fn single_neighbor_node_becomes_dead_end() {
    // In a 2 x 1 maze the two cells are joined; the child has only its parent.
    let maze = Maze::generate(2, 1, 8).unwrap();
    let start = maze.find_start().unwrap();
    let other = if start == pos(0, 0) { pos(1, 0) } else { pos(0, 0) };
    let mut root = TreeNode::new(start);
    root.calculate_heuristic(&maze);
    let mut tree = Tree::new();
    tree.insert(&mut root);
    let mut child = TreeNode::new(other);
    child.calculate_heuristic(&maze);
    TreeNode::insert_node(&mut tree, 0, &mut child);
    assert_eq!(TreeNode::get_best_next_position(&mut tree, 1, &maze), None);
    assert!(tree.node(1).dead_end);
}

#[test]
fn solve_single_cell_is_unsolvable() {
    let mut maze = Maze::generate(1, 1, 9).unwrap();
    assert_eq!(maze.solve(), Err(MazeError::Unsolvable));
}

#[test]
fn solve_corridor() {
    let mut maze = Maze::generate(6, 1, 12).unwrap();
    let path = maze.solve().unwrap();
    let start = maze.find_start().unwrap();
    let end = maze.find_end().unwrap();
    let len = if start.x > end.x { start.x - end.x } else { end.x - start.x } + 1;
    assert_eq!(path.len(), len);
}
