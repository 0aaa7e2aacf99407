use maze_solver::{Maze, Rng, Tree, TreeNode};

#[test]
fn it_works() {
    let mut maze: Maze = Maze::new(10, 10).unwrap();
    let mut rng = Rng::new(20);
    maze.make(&mut rng);
    println!("{:?}", maze);

    let mut node = TreeNode::new(maze.find_start().unwrap());
    node.calculate_heuristic(&maze);

    let mut tree = Tree::new();
    tree.insert(&mut node);

    for _ in 0..20 {
        let find = tree.find_best_valid_position().unwrap();
        println!("Find node; {:#?}", tree.node(find));

        if let Some(best_pos) = TreeNode::get_best_next_position(&mut tree, find, &maze) {
            if maze.find_end().unwrap() == best_pos {
                println!("FINISHED");
                break;
            }
            maze.mark_position_visited(best_pos);
            let mut n = TreeNode::new(best_pos);
            n.calculate_heuristic(&maze);
            TreeNode::insert_node(&mut tree, find, &mut n);
        }
    }

    println!("{:?}", maze);
}

fn pos(x: usize, y: usize) -> maze_solver::Position {
    maze_solver::Position { x, y }
}

#[test]
fn inserted_child_scores() {
    let maze = Maze::generate(4, 4, 3).unwrap();
    let end = maze.find_end().unwrap();
    let mut root = TreeNode::new(pos(0, 0));
    root.calculate_heuristic(&maze);
    assert_eq!(root.h, end.x + end.y);
    assert_eq!(root.f, root.g + root.h);
    let mut tree = Tree::new();
    tree.insert(&mut root);
    let mut child = TreeNode::new(pos(1, 0));
    child.calculate_heuristic(&maze);
    let h = child.h;
    tree.insert(&mut child);
    assert_eq!(child.parent, Some(0));
    assert_eq!(child.g, 1);
    assert_eq!(child.h, h);
    assert_eq!(child.f, 1 + h);
    assert_eq!(tree.len(), 2);
    assert_eq!(tree.node(0).childs, vec![1]);
    let mut grandchild = TreeNode::new(pos(1, 1));
    grandchild.calculate_heuristic(&maze);
    TreeNode::insert_node(&mut tree, 1, &mut grandchild);
    assert_eq!(tree.node(2).g, 2);
    assert_eq!(tree.node(2).f, 2 + tree.node(2).h);
    assert_eq!(tree.node(2).parent, Some(1));
}

#[test]
fn empty_tree_has_no_best() {
    let tree = Tree::new();
    assert_eq!(tree.find_best_valid_position(), None);
    assert_eq!(tree.len(), 0);
}

#[test]
fn best_node_has_least_f() {
    let maze = Maze::generate(5, 5, 17).unwrap();
    let end = maze.find_end().unwrap();
    let mut root = TreeNode::new(pos(0, 0));
    root.calculate_heuristic(&maze);
    let mut tree = Tree::new();
    tree.insert(&mut root);
    let mut near = TreeNode::new(end);
    near.calculate_heuristic(&maze);
    TreeNode::insert_node(&mut tree, 0, &mut near);
    // The end cell itself has h == 0, so f == 1 beats the root unless the root is next to it.
    let best = tree.find_best_valid_position().unwrap();
    let fs: Vec<usize> = (0..tree.len()).map(|i| tree.node(i).f).collect();
    assert_eq!(tree.node(best).f, *fs.iter().min().unwrap());
    assert_eq!(TreeNode::find_best_valid_position(&tree, 1), Some(1));
}

#[test]
fn dead_end_stays_dead() {
    let maze = Maze::generate(2, 1, 4).unwrap();
    let start = maze.find_start().unwrap();
    let other = if start == pos(0, 0) { pos(1, 0) } else { pos(0, 0) };
    let mut root = TreeNode::new(start);
    root.calculate_heuristic(&maze);
    let mut tree = Tree::new();
    tree.insert(&mut root);
    // The root has a single move, so it turns dead while returning it.
    assert_eq!(TreeNode::get_best_next_position(&mut tree, 0, &maze), Some(other));
    assert!(tree.node(0).dead_end);
    assert_eq!(TreeNode::get_best_next_position(&mut tree, 0, &maze), None);
    assert!(tree.node(0).dead_end);
    let mut child = TreeNode::new(other);
    child.calculate_heuristic(&maze);
    TreeNode::insert_node(&mut tree, 0, &mut child);
    assert!(tree.node(0).dead_end);
    assert_eq!(tree.find_best_valid_position(), Some(1));
    assert_eq!(TreeNode::find_best_valid_position(&tree, 0), Some(1));
}

#[test]
fn trace_path_marks_root_to_node() {
    let mut maze = Maze::generate(3, 1, 6).unwrap();
    let mut tree = Tree::new();
    let mut a = TreeNode::new(pos(0, 0));
    a.calculate_heuristic(&maze);
    tree.insert(&mut a);
    let mut b = TreeNode::new(pos(1, 0));
    b.calculate_heuristic(&maze);
    TreeNode::insert_node(&mut tree, 0, &mut b);
    let mut c = TreeNode::new(pos(2, 0));
    c.calculate_heuristic(&maze);
    TreeNode::insert_node(&mut tree, 1, &mut c);
    let path = TreeNode::trace_path(&tree, 2, &mut maze);
    assert_eq!(path, vec![pos(0, 0), pos(1, 0), pos(2, 0)]);
    for x in 0..3 {
        assert!(maze.get_node_from_position(pos(x, 0)).unwrap().visited);
    }
}
