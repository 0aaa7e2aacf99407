use vstd::prelude::*;
use crate::grid::{Direction, Position, manhattan, opposite};
use crate::maze::{Maze, MazeError, lemma_distance_bound, lemma_step_back, open_path};
use crate::tree::{
    Tree, TreeNode, follows_walls, moves, nearest_first, lemma_path_valid,
    lemma_fresh_moves_within, lemma_fresh_moves_cover, lemma_fresh_moves_fresh, tree_wf, explored_from,
};
use vstd::set_lib::{set_int_range, lemma_int_range, lemma_len_subset, lemma_map_size};
use vstd::relations::injective_on;

verus! {

/// `path` leads from the start cell of `maze` to its end cell, each step
/// through an open wall.
pub open spec fn solution_path(maze: Maze, path: Seq<Position>) -> bool {
    &&& path.len() >= 1
    &&& maze.unique_start(path[0])
    &&& maze.unique_end(path.last())
    &&& open_path(maze, path)
}

/// The indices of dead-end nodes.
pub open spec fn dead_set(nodes: Seq<TreeNode>) -> Set<int> {
    Set::new(|i: int| 0 <= i < nodes.len() && nodes[i].dead_end)
}

/// Node `b` got one new last child, at `q`, and nothing else changed.
pub open spec fn grown(before: Seq<TreeNode>, after: Seq<TreeNode>, b: int, q: Position) -> bool {
    &&& after.len() == before.len() + 1
    &&& after.last().position == q
    &&& after.last().parent == Some(b as usize)
    &&& !after.last().dead_end
    &&& after.last().childs@.len() == 0
    &&& after[b].childs@ == before[b].childs@.push(before.len() as usize)
    &&& after[b].parent == before[b].parent
    &&& after[b].position == before[b].position
    &&& after[b].dead_end == before[b].dead_end
    &&& after[b].g == before[b].g
    &&& forall|j: int| 0 <= j < before.len() && j != b ==> #[trigger] after[j] == before[j]
}

/// Each non-root node sits one step along the maze tree `up` below its
/// parent's cell, and is listed among its parent's children.
pub open spec fn links_mirror(nodes: Seq<TreeNode>, m0: Maze, up: Map<Position, Option<Direction>>) -> bool {
    forall|i: int| 0 <= i < nodes.len() && (#[trigger] nodes[i]).parent is Some ==> {
        &&& up[nodes[i].position] is Some
        &&& m0.neighbor(nodes[i].position, up[nodes[i].position].unwrap())
            == Some(nodes[nodes[i].parent.unwrap() as int].position)
        &&& nodes[nodes[i].parent.unwrap() as int].childs@.contains(i as usize)
    }
}

/// No two nodes share a cell.
pub open spec fn cells_distinct(nodes: Seq<TreeNode>) -> bool {
    forall|i: int, j: int| 0 <= i < nodes.len() && 0 <= j < nodes.len() && i != j
        ==> #[trigger] nodes[i].position != #[trigger] nodes[j].position
}

/// A dead end has explored every exit of its cell.
pub open spec fn dead_explored(nodes: Seq<TreeNode>, m0: Maze) -> bool {
    forall|i: int, q: Position| 0 <= i < nodes.len() && nodes[i].dead_end
        && #[trigger] m0.exits(nodes[i].position).contains(q) ==> explored_from(nodes, i, q)
}

/// No node sits at `end`.
pub open spec fn avoids(nodes: Seq<TreeNode>, end: Position) -> bool {
    forall|i: int| 0 <= i < nodes.len() ==> #[trigger] nodes[i].position != end
}

/// The search tree mirrors the tree `up` of a generated maze rooted at the
/// start cell, and has not reached `end` yet.
#[verifier::opaque]
pub open spec fn on_track(
    nodes: Seq<TreeNode>,
    m0: Maze,
    start: Position,
    end: Position,
    up: Map<Position, Option<Direction>>,
) -> bool {
    &&& tree_wf(nodes)
    &&& 1 <= nodes.len() <= usize::MAX
    &&& nodes[0].position == start
    &&& nodes[0].g == 0
    &&& follows_walls(nodes, m0)
    &&& links_mirror(nodes, m0, up)
    &&& cells_distinct(nodes)
    &&& dead_explored(nodes, m0)
    &&& avoids(nodes, end)
}

/// Depth never exceeds the arena index.
proof fn lemma_depth_bound(nodes: Seq<TreeNode>, i: int)
    requires
        tree_wf(nodes),
        nodes.len() >= 1,
        nodes[0].g == 0,
        0 <= i < nodes.len(),
    ensures
        nodes[i].g <= i,
    decreases i,
{
    if i > 0 {
        assert(nodes[i].parent is Some);
        lemma_depth_bound(nodes, nodes[i].parent.unwrap() as int);
    }
}

/// Nodes on distinct cells are no more than the cells.
proof fn lemma_node_count(nodes: Seq<TreeNode>, m0: Maze)
    requires
        m0.wf(),
        forall|i: int| 0 <= i < nodes.len() ==> m0.in_bounds(#[trigger] nodes[i].position),
        forall|i: int, j: int| 0 <= i < nodes.len() && 0 <= j < nodes.len() && i != j
            ==> #[trigger] nodes[i].position != #[trigger] nodes[j].position,
    ensures
        nodes.len() <= m0.width_spec() * m0.height_spec(),
{
    let range = set_int_range(0, nodes.len() as int);
    let f = |i: int| nodes[i].position;
    lemma_int_range(0, nodes.len() as int);
    assert(injective_on(f, range)) by {
        assert forall|i: int, j: int| range.contains(i) && range.contains(j) && #[trigger] f(i) == #[trigger] f(j)
            implies i == j by {}
    }
    let image = range.map(f);
    lemma_map_size(range, image, f);
    m0.lemma_grid_size();
    assert forall|p: Position| image.contains(p) implies m0.grid_cells().contains(p) by {
        let i = choose|i: int| range.contains(i) && f(i) == p;
    }
    lemma_len_subset(image, m0.grid_cells());
}

/// Every cell on a path from the start is some node's cell, when every
/// node is a dead end.
proof fn lemma_path_covered(
    nodes: Seq<TreeNode>,
    m0: Maze,
    start: Position,
    end: Position,
    up: Map<Position, Option<Direction>>,
    path: Seq<Position>,
    k: int,
)
    requires
        m0.wf(),
        on_track(nodes, m0, start, end, up),
        forall|i: int| 0 <= i < nodes.len() ==> (#[trigger] nodes[i]).dead_end,
        path.len() >= 1,
        path[0] == start,
        open_path(m0, path),
        0 <= k < path.len(),
    ensures
        exists|j: int| 0 <= j < nodes.len() && (#[trigger] nodes[j]).position == path[k],
    decreases k,
{
    reveal(on_track);
    if k == 0 {
        assert(nodes[0].position == path[0]);
    } else {
        lemma_path_covered(nodes, m0, start, end, up, path, k - 1);
        let j = choose|j: int| 0 <= j < nodes.len() && (#[trigger] nodes[j]).position == path[k - 1];
        assert(m0.connected(path[k - 1], path[k]));
        assert(m0.in_bounds(nodes[j].position));
        m0.lemma_connected_exit(path[k - 1], path[k]);
        assert(nodes[j].dead_end);
        assert(explored_from(nodes, j, path[k]));
        if exists|c: int| 0 <= c < nodes[j].childs@.len()
            && #[trigger] nodes[nodes[j].childs@[c] as int].position == path[k] {
            let c = choose|c: int| 0 <= c < nodes[j].childs@.len()
                && #[trigger] nodes[nodes[j].childs@[c] as int].position == path[k];
            let ci = nodes[j].childs@[c] as int;
            assert(nodes[ci].position == path[k]);
        } else {
            let p = nodes[j].parent.unwrap() as int;
            assert(nodes[p].position == path[k]);
        }
    }
}

/// While the search is on track, some node is not a dead end.
proof fn lemma_some_alive(
    nodes: Seq<TreeNode>,
    m0: Maze,
    start: Position,
    end: Position,
    depth: Map<Position, nat>,
    up: Map<Position, Option<Direction>>,
)
    requires
        m0.wf(),
        m0.walls_symmetric(),
        m0.tree_labelling(start, depth, up),
        m0.in_bounds(start),
        m0.in_bounds(end),
        on_track(nodes, m0, start, end, up),
    ensures
        exists|i: int| 0 <= i < nodes.len() && !(#[trigger] nodes[i]).dead_end,
{
    reveal(on_track);
    if forall|i: int| 0 <= i < nodes.len() ==> (#[trigger] nodes[i]).dead_end {
        let path = m0.path_down(start, depth, up, end);
        lemma_path_covered(nodes, m0, start, end, up, path, path.len() - 1);
        let j = choose|j: int| 0 <= j < nodes.len() && (#[trigger] nodes[j]).position == path[path.len() - 1];
        assert(nodes[j].position == end);
    }
}

/// The dead-end indices form a finite set no larger than the arena.
proof fn lemma_dead_set_bound(nodes: Seq<TreeNode>)
    ensures
        dead_set(nodes).finite(),
        dead_set(nodes).len() <= nodes.len(),
{
    lemma_int_range(0, nodes.len() as int);
    lemma_len_subset(dead_set(nodes), set_int_range(0, nodes.len() as int));
}

/// Marking as dead end a node whose exits are all explored keeps the search
/// on track and adds one dead end.
proof fn lemma_mark_dead(
    nodes: Seq<TreeNode>,
    nodes1: Seq<TreeNode>,
    b: int,
    m0: Maze,
    start: Position,
    end: Position,
    up: Map<Position, Option<Direction>>,
)
    requires
        on_track(nodes, m0, start, end, up),
        0 <= b < nodes.len(),
        !nodes[b].dead_end,
        nodes1 == nodes.update(b, TreeNode { dead_end: true, ..nodes[b] }),
        forall|q: Position| #[trigger] m0.exits(nodes[b].position).contains(q) ==> explored_from(nodes, b, q),
    ensures
        on_track(nodes1, m0, start, end, up),
        dead_set(nodes1).finite(),
        dead_set(nodes1).len() == dead_set(nodes).len() + 1,
{
    reveal(on_track);
    assert forall|i: int| 0 <= i < nodes.len() implies #[trigger] nodes1[i].position == nodes[i].position
        && nodes1[i].parent == nodes[i].parent && nodes1[i].childs == nodes[i].childs
        && nodes1[i].g == nodes[i].g && nodes1[i].f == nodes[i].f && nodes1[i].h == nodes[i].h by {}
    assert forall|i: int, q: Position| 0 <= i < nodes.len() implies
        #[trigger] explored_from(nodes1, i, q) == explored_from(nodes, i, q) by {
        if exists|k: int| 0 <= k < nodes[i].childs@.len() && #[trigger] nodes[nodes[i].childs@[k] as int].position == q {
            let k = choose|k: int| 0 <= k < nodes[i].childs@.len() && #[trigger] nodes[nodes[i].childs@[k] as int].position == q;
            assert(nodes1[nodes1[i].childs@[k] as int].position == q);
        }
        if exists|k: int| 0 <= k < nodes1[i].childs@.len() && #[trigger] nodes1[nodes1[i].childs@[k] as int].position == q {
            let k = choose|k: int| 0 <= k < nodes1[i].childs@.len() && #[trigger] nodes1[nodes1[i].childs@[k] as int].position == q;
            assert(nodes[nodes[i].childs@[k] as int].position == q);
        }
    }
    assert(dead_set(nodes1) =~= dead_set(nodes).insert(b));
    lemma_dead_set_bound(nodes);
    lemma_dead_set_bound(nodes1);
    assert(follows_walls(nodes1, m0));
}

/// Explored positions stay explored when a node gains a child.
proof fn lemma_explored_grows(before: Seq<TreeNode>, after: Seq<TreeNode>, b: int, q: Position, i: int, p: Position)
    requires
        tree_wf(before),
        0 <= b < before.len(),
        0 <= i < before.len(),
        grown(before, after, b, q),
        explored_from(before, i, p),
    ensures
        explored_from(after, i, p),
{
    assert(after[i].parent == before[i].parent);
    if exists|k: int| 0 <= k < before[i].childs@.len() && #[trigger] before[before[i].childs@[k] as int].position == p {
        let k = choose|k: int| 0 <= k < before[i].childs@.len() && #[trigger] before[before[i].childs@[k] as int].position == p;
        let c = before[i].childs@[k] as int;
        assert(after[i].childs@[k] == before[i].childs@[k]);
        assert(c < before.len());
        if c != b {
            assert(after[c] == before[c]);
        }
        assert(after[after[i].childs@[k] as int].position == p);
    } else {
        let pp = before[i].parent.unwrap() as int;
        if pp != b {
            assert(after[pp] == before[pp]);
        }
        assert(after[pp].position == p);
    }
}

/// What a node keeps when another node gains a child.
proof fn lemma_grow_same(
    nodes: Seq<TreeNode>,
    nodes1: Seq<TreeNode>,
    nodes2: Seq<TreeNode>,
    b: int,
    q: Position,
    x: bool,
)
    requires
        growth(nodes, nodes1, nodes2, b, q, x),
    ensures
        forall|i: int| 0 <= i < nodes.len() ==> #[trigger] nodes2[i].position == nodes[i].position
            && nodes2[i].parent == nodes[i].parent && nodes2[i].g == nodes[i].g,
        forall|i: int| 0 <= i < nodes.len() && i != b ==> #[trigger] nodes2[i] == nodes1[i],
        forall|i: int, p: Position| 0 <= i < nodes.len() && explored_from(nodes, i, p)
            ==> #[trigger] explored_from(nodes2, i, p),
{
    let n = nodes.len() as int;
    assert forall|i: int| 0 <= i < n implies #[trigger] nodes2[i].position == nodes[i].position
        && nodes2[i].parent == nodes[i].parent && nodes2[i].g == nodes[i].g by {
        if i != b {
            assert(nodes2[i] == nodes1[i]);
        }
    }
    assert(tree_wf(nodes1)) by {
        assert forall|i: int| 0 <= i < n implies #[trigger] nodes1[i].parent == nodes[i].parent
            && nodes1[i].childs == nodes[i].childs && nodes1[i].g == nodes[i].g && nodes1[i].f == nodes[i].f
            && nodes1[i].h == nodes[i].h by {}
    }
    assert forall|i: int, p: Position| 0 <= i < n && explored_from(nodes, i, p)
        implies #[trigger] explored_from(nodes2, i, p) by {
        if exists|k: int| 0 <= k < nodes[i].childs@.len() && #[trigger] nodes[nodes[i].childs@[k] as int].position == p {
            let k = choose|k: int| 0 <= k < nodes[i].childs@.len() && #[trigger] nodes[nodes[i].childs@[k] as int].position == p;
            assert(nodes1[nodes1[i].childs@[k] as int].position == p);
        }
        assert(explored_from(nodes1, i, p));
        lemma_explored_grows(nodes1, nodes2, b, q, i, p);
    }
}

/// A fresh move of node `b` is a cell no node occupies, one maze-tree step
/// below the node's cell.
proof fn lemma_new_cell(
    nodes: Seq<TreeNode>,
    b: int,
    q: Position,
    m0: Maze,
    start: Position,
    end: Position,
    depth: Map<Position, nat>,
    up: Map<Position, Option<Direction>>,
)
    requires
        m0.wf(),
        m0.tree_labelling(start, depth, up),
        on_track(nodes, m0, start, end, up),
        0 <= b < nodes.len(),
        m0.exits(nodes[b].position).contains(q),
        !explored_from(nodes, b, q),
    ensures
        m0.in_bounds(q),
        m0.connected(nodes[b].position, q),
        q != start,
        up[q] is Some,
        m0.neighbor(q, up[q].unwrap()) == Some(nodes[b].position),
        forall|j: int| 0 <= j < nodes.len() ==> #[trigger] nodes[j].position != q,
{
    reveal(on_track);
    let n = nodes.len() as int;
    let pb = nodes[b].position;
    assert(m0.in_bounds(pb));
    m0.lemma_exits(pb);
    let qi = choose|qi: int| 0 <= qi < m0.exits(pb).len() && m0.exits(pb)[qi] == q;
    assert(m0.in_bounds(q) && m0.connected(pb, q));
    let d = choose|d: Direction| m0.neighbor(pb, d) == Some(q) && #[trigger] m0.open(pb, d);
    lemma_step_back(pb, d, m0.width_spec(), m0.height_spec());
    if up[pb] == Some(d) {
        assert(b != 0);
        assert(nodes[b].parent is Some);
        let pp = nodes[b].parent.unwrap() as int;
        assert(nodes[pp].position == q);
        assert(explored_from(nodes, b, q));
    }
    assert(up[q] == Some(opposite(d)));
    assert forall|j: int| 0 <= j < n implies #[trigger] nodes[j].position != q by {
        if nodes[j].position == q {
            assert(j != 0);
            assert(nodes[j].parent is Some);
            let pj = nodes[j].parent.unwrap() as int;
            assert(nodes[pj].position == pb);
            assert(pj == b);
            assert(nodes[b].childs@.contains(j as usize));
            let k = choose|k: int| 0 <= k < nodes[b].childs@.len() && nodes[b].childs@[k] == j as usize;
            assert(nodes[nodes[b].childs@[k] as int].position == q);
        }
    }
}

/// The relation between the arenas before a node gains a child (`nodes`),
/// after its dead-end mark is set (`nodes1`), and after the child is added
/// (`nodes2`).
pub open spec fn growth(
    nodes: Seq<TreeNode>,
    nodes1: Seq<TreeNode>,
    nodes2: Seq<TreeNode>,
    b: int,
    q: Position,
    x: bool,
) -> bool {
    &&& tree_wf(nodes)
    &&& nodes.len() <= usize::MAX
    &&& 0 <= b < nodes.len()
    &&& nodes1 == nodes.update(b, TreeNode { dead_end: x, ..nodes[b] })
    &&& grown(nodes1, nodes2, b, q)
}

proof fn lemma_grow_links(
    nodes: Seq<TreeNode>,
    nodes1: Seq<TreeNode>,
    nodes2: Seq<TreeNode>,
    b: int,
    q: Position,
    x: bool,
    m0: Maze,
    up: Map<Position, Option<Direction>>,
)
    requires
        growth(nodes, nodes1, nodes2, b, q, x),
        links_mirror(nodes, m0, up),
        up[q] is Some,
        m0.neighbor(q, up[q].unwrap()) == Some(nodes[b].position),
    ensures
        links_mirror(nodes2, m0, up),
{
    let n = nodes.len() as int;
    lemma_grow_same(nodes, nodes1, nodes2, b, q, x);
    assert(nodes2[b].childs@[nodes1[b].childs@.len() as int] == n as usize);
    assert forall|i: int| 0 <= i < nodes2.len() && (#[trigger] nodes2[i]).parent is Some implies {
        &&& up[nodes2[i].position] is Some
        &&& m0.neighbor(nodes2[i].position, up[nodes2[i].position].unwrap())
            == Some(nodes2[nodes2[i].parent.unwrap() as int].position)
        &&& nodes2[nodes2[i].parent.unwrap() as int].childs@.contains(i as usize)
    } by {
        if i < n {
            assert(nodes[i].parent is Some);
            let p = nodes[i].parent.unwrap() as int;
            assert(nodes[p].childs@.contains(i as usize));
            if p == b {
                let k = choose|k: int| 0 <= k < nodes[b].childs@.len() && nodes[b].childs@[k] == i as usize;
                assert(nodes2[b].childs@[k] == i as usize);
            }
        } else {
            assert(i == n);
        }
    }
}

#[verifier::rlimit(40)]
proof fn lemma_grow_distinct(
    nodes: Seq<TreeNode>,
    nodes1: Seq<TreeNode>,
    nodes2: Seq<TreeNode>,
    b: int,
    q: Position,
    x: bool,
)
    requires
        growth(nodes, nodes1, nodes2, b, q, x),
        cells_distinct(nodes),
        forall|j: int| 0 <= j < nodes.len() ==> #[trigger] nodes[j].position != q,
    ensures
        cells_distinct(nodes2),
{
    let n = nodes.len() as int;
    lemma_grow_same(nodes, nodes1, nodes2, b, q, x);
    assert forall|i: int, j: int| 0 <= i < nodes2.len() && 0 <= j < nodes2.len() && i != j
        implies #[trigger] nodes2[i].position != #[trigger] nodes2[j].position by {
        if i < n && j < n {
            assert(nodes[i].position != nodes[j].position);
        } else if i < n {
            assert(nodes[i].position != q);
        } else {
            assert(nodes[j].position != q);
        }
    }
}

proof fn lemma_grow_dead(
    nodes: Seq<TreeNode>,
    nodes1: Seq<TreeNode>,
    nodes2: Seq<TreeNode>,
    b: int,
    q: Position,
    x: bool,
    m0: Maze,
)
    requires
        growth(nodes, nodes1, nodes2, b, q, x),
        dead_explored(nodes, m0),
        x ==> forall|p: Position| #[trigger] m0.exits(nodes[b].position).contains(p)
            ==> explored_from(nodes, b, p) || p == q,
    ensures
        dead_explored(nodes2, m0),
{
    let n = nodes.len() as int;
    lemma_grow_same(nodes, nodes1, nodes2, b, q, x);
    assert forall|i: int, p: Position| 0 <= i < nodes2.len() && nodes2[i].dead_end
        && #[trigger] m0.exits(nodes2[i].position).contains(p) implies explored_from(nodes2, i, p) by {
        assert(i < n);
        if i == b {
            if p == q {
                let k = nodes1[b].childs@.len() as int;
                assert(nodes2[b].childs@[k] == n as usize);
                assert(nodes2[nodes2[b].childs@[k] as int].position == q);
            } else {
                assert(explored_from(nodes, b, p));
            }
        } else {
            assert(nodes1[i] == nodes[i]);
            assert(explored_from(nodes, i, p));
        }
    }
}

proof fn lemma_grow_follows(
    nodes: Seq<TreeNode>,
    nodes1: Seq<TreeNode>,
    nodes2: Seq<TreeNode>,
    b: int,
    q: Position,
    x: bool,
    m0: Maze,
)
    requires
        growth(nodes, nodes1, nodes2, b, q, x),
        follows_walls(nodes, m0),
        m0.in_bounds(q),
        m0.connected(nodes[b].position, q),
    ensures
        follows_walls(nodes2, m0),
{
    let n = nodes.len() as int;
    lemma_grow_same(nodes, nodes1, nodes2, b, q, x);
    assert forall|i: int| 0 <= i < nodes2.len() && (#[trigger] nodes2[i]).parent is Some
        implies m0.connected(nodes2[nodes2[i].parent.unwrap() as int].position, nodes2[i].position) by {
        if i < n {
            assert(nodes[i].parent is Some);
            assert(m0.connected(nodes[nodes[i].parent.unwrap() as int].position, nodes[i].position));
        }
    }
    assert forall|i: int| 0 <= i < nodes2.len() implies m0.in_bounds(#[trigger] nodes2[i].position) by {
        if i < n {
            assert(m0.in_bounds(nodes[i].position));
        }
    }
}

proof fn lemma_grow_dead_set(
    nodes: Seq<TreeNode>,
    nodes1: Seq<TreeNode>,
    nodes2: Seq<TreeNode>,
    b: int,
    q: Position,
    x: bool,
)
    requires
        growth(nodes, nodes1, nodes2, b, q, x),
        !nodes[b].dead_end,
    ensures
        dead_set(nodes2).finite(),
        dead_set(nodes2).len() >= dead_set(nodes).len(),
{
    lemma_grow_same(nodes, nodes1, nodes2, b, q, x);
    assert(dead_set(nodes).subset_of(dead_set(nodes2))) by {
        assert forall|j: int| dead_set(nodes).contains(j) implies dead_set(nodes2).contains(j) by {
            if j != b {
                assert(nodes1[j] == nodes[j]);
            }
        }
    }
    lemma_dead_set_bound(nodes2);
    lemma_len_subset(dead_set(nodes), dead_set(nodes2));
}

/// Adding a fresh move of node `b` as its child keeps the search on track;
/// the dead ends stay dead.
proof fn lemma_grow(
    nodes: Seq<TreeNode>,
    nodes1: Seq<TreeNode>,
    nodes2: Seq<TreeNode>,
    b: int,
    q: Position,
    x: bool,
    m0: Maze,
    start: Position,
    end: Position,
    depth: Map<Position, nat>,
    up: Map<Position, Option<Direction>>,
)
    requires
        m0.wf(),
        m0.tree_labelling(start, depth, up),
        on_track(nodes, m0, start, end, up),
        !nodes[b].dead_end,
        growth(nodes, nodes1, nodes2, b, q, x),
        x ==> forall|p: Position| #[trigger] m0.exits(nodes[b].position).contains(p)
            ==> explored_from(nodes, b, p) || p == q,
        m0.exits(nodes[b].position).contains(q),
        !explored_from(nodes, b, q),
        q != end,
        tree_wf(nodes2),
        nodes2.len() <= usize::MAX,
    ensures
        on_track(nodes2, m0, start, end, up),
        dead_set(nodes2).finite(),
        dead_set(nodes2).len() >= dead_set(nodes).len(),
        nodes2.len() == nodes.len() + 1,
{
    reveal(on_track);
    lemma_new_cell(nodes, b, q, m0, start, end, depth, up);
    lemma_grow_links(nodes, nodes1, nodes2, b, q, x, m0, up);
    lemma_grow_distinct(nodes, nodes1, nodes2, b, q, x);
    lemma_grow_dead(nodes, nodes1, nodes2, b, q, x, m0);
    lemma_grow_follows(nodes, nodes1, nodes2, b, q, x, m0);
    lemma_grow_dead_set(nodes, nodes1, nodes2, b, q, x);
    lemma_grow_same(nodes, nodes1, nodes2, b, q, x);
    assert(nodes2[0].position == start);
    assert(nodes2[0].g == 0);
    assert(avoids(nodes2, end)) by {
        assert forall|i: int| 0 <= i < nodes2.len() implies #[trigger] nodes2[i].position != end by {
            if i < nodes.len() {
                assert(nodes[i].position != end);
            }
        }
    }
}

/// The arena after `get_best_next_position` on a live node `b`: only its
/// dead-end mark may have changed, set when it had fewer than two moves.
pub open spec fn asked(t0: Seq<TreeNode>, t1: Seq<TreeNode>, b: int, maze: Maze) -> bool {
    &&& 0 <= b < t0.len()
    &&& !t0[b].dead_end
    &&& t1 == t0.update(b, TreeNode { dead_end: moves(t0, b, maze).len() < 2, ..t0[b] })
}

/// A node left without moves becomes a dead end on track.
proof fn lemma_step_stuck(
    t0: Seq<TreeNode>,
    t1: Seq<TreeNode>,
    b: int,
    maze: Maze,
    m0: Maze,
    start: Position,
    end: Position,
    up: Map<Position, Option<Direction>>,
)
    requires
        m0.wf(),
        maze.same_layout(m0),
        on_track(t0, m0, start, end, up),
        asked(t0, t1, b, maze),
        moves(t0, b, maze).len() == 0,
    ensures
        on_track(t1, m0, start, end, up),
        dead_set(t1).finite(),
        t1.len() + dead_set(t1).len() > t0.len() + dead_set(t0).len(),
{
    reveal(on_track);
    let pos_b = t0[b].position;
    assert(m0.in_bounds(pos_b));
    maze.lemma_same_layout(m0);
    assert(maze.exits(pos_b) == m0.exits(pos_b));
    lemma_fresh_moves_cover(t0, b, maze.exits(pos_b));
    assert forall|p: Position| #[trigger] m0.exits(pos_b).contains(p) implies explored_from(t0, b, p) by {
        let k = choose|k: int| 0 <= k < m0.exits(pos_b).len() && m0.exits(pos_b)[k] == p;
        assert(maze.exits(pos_b)[k] == p);
    }
    lemma_mark_dead(t0, t1, b, m0, start, end, up);
}

/// The facts about a move `q` chosen for live node `b`.
proof fn lemma_step_move(
    t0: Seq<TreeNode>,
    t1: Seq<TreeNode>,
    b: int,
    q: Position,
    maze: Maze,
    m0: Maze,
    start: Position,
    end: Position,
    up: Map<Position, Option<Direction>>,
)
    requires
        m0.wf(),
        maze.same_layout(m0),
        on_track(t0, m0, start, end, up),
        asked(t0, t1, b, maze),
        moves(t0, b, maze).contains(q),
    ensures
        m0.exits(t0[b].position).contains(q),
        !explored_from(t0, b, q),
        moves(t0, b, maze).len() < 2 ==> forall|p: Position| #[trigger] m0.exits(t0[b].position).contains(p)
            ==> explored_from(t0, b, p) || p == q,
{
    reveal(on_track);
    let pos_b = t0[b].position;
    let ms = moves(t0, b, maze);
    assert(m0.in_bounds(pos_b));
    maze.lemma_same_layout(m0);
    assert(maze.exits(pos_b) == m0.exits(pos_b));
    lemma_fresh_moves_cover(t0, b, maze.exits(pos_b));
    lemma_fresh_moves_within(t0, b, maze.exits(pos_b));
    lemma_fresh_moves_fresh(t0, b, maze.exits(pos_b));
    let k = choose|k: int| 0 <= k < ms.len() && ms[k] == q;
    if ms.len() < 2 {
        assert forall|p: Position| #[trigger] m0.exits(pos_b).contains(p)
            implies explored_from(t0, b, p) || p == q by {
            let j = choose|j: int| 0 <= j < m0.exits(pos_b).len() && m0.exits(pos_b)[j] == p;
            assert(maze.exits(pos_b)[j] == p);
            if !explored_from(t0, b, p) {
                let i = choose|i: int| 0 <= i < ms.len() && ms[i] == p;
                assert(i == k);
            }
        }
    }
}

/// On track, the score of a new child always fits: depth and distance are
/// each below the number of cells.
proof fn lemma_step_fits(
    t0: Seq<TreeNode>,
    b: int,
    q: Position,
    m0: Maze,
    start: Position,
    end: Position,
    up: Map<Position, Option<Direction>>,
)
    requires
        m0.wf(),
        on_track(t0, m0, start, end, up),
        m0.width_spec() * m0.height_spec() <= usize::MAX / 2,
        0 <= b < t0.len(),
        m0.in_bounds(q),
        m0.in_bounds(end),
    ensures
        t0[b].g + 1 + manhattan(q, end) <= usize::MAX,
{
    reveal(on_track);
    lemma_depth_bound(t0, b);
    lemma_node_count(t0, m0);
    lemma_distance_bound(m0.width_spec(), m0.height_spec(), q, end);
}

/// A move chosen for node `b` is an in-grid cell joined to the node's cell.
proof fn lemma_move_connected(maze: Maze, m0: Maze, nodes: Seq<TreeNode>, b: int, q: Position)
    requires
        m0.wf(),
        maze.same_layout(m0),
        0 <= b < nodes.len(),
        maze.in_bounds(nodes[b].position),
        exists|k: int| nearest_first(moves(nodes, b, maze), maze.end_pos(), k) && moves(nodes, b, maze)[k] == q,
    ensures
        m0.in_bounds(q),
        m0.connected(nodes[b].position, q),
{
    let pos = nodes[b].position;
    maze.lemma_same_layout(m0);
    lemma_fresh_moves_within(nodes, b, maze.exits(pos));
    let ms = moves(nodes, b, maze);
    let k = choose|k: int| nearest_first(ms, maze.end_pos(), k) && ms[k] == q;
    assert(ms[k] == q);
    assert(maze.exits(pos).contains(q));
    maze.lemma_exits(pos);
    let j = choose|j: int| 0 <= j < maze.exits(pos).len() && maze.exits(pos)[j] == q;
    assert(maze.connected(pos, q));
}

/// Changing only dead-end marks keeps the nodes on the maze's walls.
proof fn lemma_follows_marks(before: Seq<TreeNode>, after: Seq<TreeNode>, m0: Maze)
    requires
        tree_wf(before),
        follows_walls(before, m0),
        after.len() == before.len(),
        forall|i: int| 0 <= i < after.len() ==> #[trigger] after[i].position == before[i].position
            && after[i].parent == before[i].parent,
    ensures
        follows_walls(after, m0),
{
    assert forall|i: int| 0 <= i < after.len() && (#[trigger] after[i]).parent is Some
        implies m0.connected(after[after[i].parent.unwrap() as int].position, after[i].position) by {
        assert(after[i].position == before[i].position);
        assert(before[i].parent is Some);
        let p = before[i].parent.unwrap() as int;
        assert(after[p].position == before[p].position);
    }
}

/// Adding a child on a joined cell keeps the nodes on the maze's walls.
proof fn lemma_follows_insert(
    before: Seq<TreeNode>,
    after: Seq<TreeNode>,
    m0: Maze,
    b: usize,
    q: Position,
    before_child: TreeNode,
    child: TreeNode,
)
    requires
        follows_walls(before, m0),
        tree_wf(before),
        b < before.len(),
        before_child.position == q,
        m0.in_bounds(q),
        m0.connected(before[b as int].position, q),
        TreeNode::inserted_under(before, after, b as int, before_child, child),
    ensures
        follows_walls(after, m0),
        after[0].position == before[0].position,
{
    assert forall|i: int| 0 <= i < after.len() implies m0.in_bounds(#[trigger] after[i].position) by {
        if i < before.len() && i != b {
            assert(after[i] == before[i]);
        }
    }
    assert forall|i: int| 0 <= i < after.len() && (#[trigger] after[i]).parent is Some
        implies m0.connected(after[after[i].parent.unwrap() as int].position, after[i].position) by {
        if i < before.len() {
            if i != b {
                assert(after[i] == before[i]);
            }
            assert(after[i].position == before[i].position && after[i].parent == before[i].parent);
            assert(before[i].parent is Some);
            let p = before[i].parent.unwrap() as int;
            assert(m0.connected(before[p].position, before[i].position));
            if p != b {
                assert(after[p] == before[p]);
            }
            assert(after[p].position == before[p].position);
        } else {
            assert(i == before.len());
            assert(after[i].parent == Some(b));
            assert(after[i].position == q);
            assert(after[b as int].position == before[b as int].position);
        }
    }
    if b != 0 {
        assert(after[0] == before[0]);
    }
}

impl Maze {
    /// Marks the end cell and the path down to node `b` visited, and returns
    /// that path followed by the end cell.
    fn finish(&mut self, tree: &Tree, b: usize, end: Position, Ghost(m0): Ghost<Maze>, Ghost(start): Ghost<Position>)
        -> (r: Vec<Position>)
        requires
            m0.wf(),
            m0.unique_start(start),
            m0.unique_end(end),
            old(self).wf(),
            old(self).same_layout(m0),
            tree.wf(),
            b < tree@.len(),
            tree@[0].position == start,
            follows_walls(tree@, m0),
            m0.connected(tree@[b as int].position, end),
        ensures
            final(self).wf(),
            final(self).same_layout(m0),
            solution_path(m0, r@),
            forall|q: Position| final(self).in_bounds(q) && r@.contains(q)
                ==> (#[trigger] final(self).cell(q)).visited,
    {
        let ghost pos_b = tree@[b as int].position;
        self.mark_position_visited(end);
        let mut path = TreeNode::trace_path(tree, b, self);
        let ghost traced = path@;
        path.push(end);
        proof {
            lemma_path_valid(tree@, m0, b as int);
            assert forall|k: int| 0 <= k < path@.len() - 1
                implies m0.connected(#[trigger] path@[k], path@[k + 1]) by {
                if k < traced.len() - 1 {
                    assert(path@[k] == traced[k] && path@[k + 1] == traced[k + 1]);
                } else {
                    assert(path@[k] == pos_b);
                }
            }
            assert(path@[0] == start);
            assert forall|x: Position| self.in_bounds(x) && path@.contains(x)
                implies (#[trigger] self.cell(x)).visited by {
                if x != end {
                    let k = choose|k: int| 0 <= k < path@.len() && path@[k] == x;
                    assert(traced[k] == x);
                }
            }
        }
        path
    }

    /// Marks `q` visited and adds a node for it under node `b`; `false` when
    /// the new node's score would not fit in a `usize`.
    fn extend(
        &mut self,
        tree: &mut Tree,
        b: usize,
        q: Position,
        Ghost(m0): Ghost<Maze>,
        Ghost(end): Ghost<Position>,
    ) -> (ok: bool)
        requires
            m0.wf(),
            m0.unique_end(end),
            old(self).wf(),
            old(self).same_layout(m0),
            old(tree).wf(),
            b < old(tree)@.len(),
            follows_walls(old(tree)@, m0),
            m0.in_bounds(q),
            m0.connected(old(tree)@[b as int].position, q),
        ensures
            final(self).wf(),
            final(self).same_layout(m0),
            final(tree).wf(),
            final(tree)@.len() >= 1,
            final(tree)@[0].position == old(tree)@[0].position,
            follows_walls(final(tree)@, m0),
            ok ==> grown(old(tree)@, final(tree)@, b as int, q),
            !ok ==> old(tree)@[b as int].g + 1 + manhattan(q, end) > usize::MAX,
    {
        self.mark_position_visited(q);
        let mut child = TreeNode::new(q);
        proof {
            self.lemma_same_layout(m0);
            assert(self.is_end(end));
            assert forall|e: Position| #[trigger] self.is_end(e)
                implies 0 + manhattan(q, e) <= usize::MAX by {
                lemma_distance_bound(self.width_spec(), self.height_spec(), q, e);
            }
        }
        child.calculate_heuristic(self);
        proof {
            let e = choose|e: Position| self.is_end(e) && child.h == manhattan(q, e);
            assert(m0.is_end(e));
        }
        if tree.node(b).g >= usize::MAX - child.h {
            return false;
        }
        let ghost t1 = tree@;
        let ghost c0 = child;
        TreeNode::insert_node(tree, b, &mut child);
        proof {
            lemma_follows_insert(t1, tree@, m0, b, q, c0, child);
            assert forall|j: int| 0 <= j < t1.len() && j != b implies #[trigger] tree@[j] == t1[j] by {}
        }
        true
    }

    /// Adds the move `q` of node `b` to the tree (see `extend`). On track,
    /// this never fails and keeps the search on track.
    fn grow_step(
        &mut self,
        tree: &mut Tree,
        b: usize,
        q: Position,
        Ghost(t0): Ghost<Seq<TreeNode>>,
        Ghost(m0): Ghost<Maze>,
        Ghost(start): Ghost<Position>,
        Ghost(end): Ghost<Position>,
        Ghost(track): Ghost<bool>,
        Ghost(depth): Ghost<Map<Position, nat>>,
        Ghost(up): Ghost<Map<Position, Option<Direction>>>,
    ) -> (ok: bool)
        requires
            m0.wf(),
            m0.unique_end(end),
            old(self).wf(),
            old(self).same_layout(m0),
            old(tree).wf(),
            b < old(tree)@.len(),
            follows_walls(old(tree)@, m0),
            m0.in_bounds(q),
            m0.connected(old(tree)@[b as int].position, q),
            q != end,
            track ==> {
                &&& m0.walls_symmetric()
                &&& m0.tree_labelling(start, depth, up)
                &&& m0.width_spec() * m0.height_spec() <= usize::MAX / 2
                &&& on_track(t0, m0, start, end, up)
                &&& asked(t0, old(tree)@, b as int, *old(self))
                &&& moves(t0, b as int, *old(self)).contains(q)
            },
        ensures
            final(self).wf(),
            final(self).same_layout(m0),
            final(tree).wf(),
            final(tree)@.len() >= 1,
            final(tree)@[0].position == old(tree)@[0].position,
            follows_walls(final(tree)@, m0),
            track ==> {
                &&& ok
                &&& on_track(final(tree)@, m0, start, end, up)
                &&& dead_set(final(tree)@).finite()
                &&& final(tree)@.len() + dead_set(final(tree)@).len() > t0.len() + dead_set(t0).len()
            },
    {
        let ghost t1 = tree@;
        let ghost maze = *self;
        proof {
            if track {
                lemma_step_move(t0, t1, b as int, q, maze, m0, start, end, up);
            }
        }
        let ok = self.extend(tree, b, q, Ghost(m0), Ghost(end));
        // The arena's length fits in a `usize`.
        let len = tree.len();
        proof {
            assert(tree@.len() == len);
            if track {
                lemma_dead_set_bound(t0);
                if ok {
                    let x = moves(t0, b as int, maze).len() < 2;
                    assert(tree_wf(t0) && t0.len() <= usize::MAX) by {
                        reveal(on_track);
                    }
                    lemma_grow(t0, t1, tree@, b as int, q, x, m0, start, end, depth, up);
                } else {
                    lemma_step_fits(t0, b as int, q, m0, start, end, up);
                }
            }
        }
        ok
    }

    /// One round of the search: picks the best open node and lets it move.
    /// `None` to go on; `Some` with the path found, or with `Unsolvable`.
    /// On a generated maze of more than one cell (and not too large for the
    /// scores), every round keeps the search on track and adds a node or a
    /// dead end, and none fails.
    fn search_step(
        &mut self,
        tree: &mut Tree,
        end: Position,
        Ghost(m0): Ghost<Maze>,
        Ghost(start): Ghost<Position>,
        Ghost(track): Ghost<bool>,
        Ghost(depth): Ghost<Map<Position, nat>>,
        Ghost(up): Ghost<Map<Position, Option<Direction>>>,
    ) -> (r: Option<Result<Vec<Position>, MazeError>>)
        requires
            m0.wf(),
            m0.unique_start(start),
            m0.unique_end(end),
            old(self).wf(),
            old(self).same_layout(m0),
            old(tree).wf(),
            old(tree)@.len() >= 1,
            old(tree)@[0].position == start,
            follows_walls(old(tree)@, m0),
            track ==> {
                &&& m0.walls_symmetric()
                &&& m0.tree_labelling(start, depth, up)
                &&& m0.width_spec() * m0.height_spec() <= usize::MAX / 2
                &&& on_track(old(tree)@, m0, start, end, up)
            },
        ensures
            final(self).wf(),
            final(self).same_layout(m0),
            r is None ==> {
                &&& final(tree).wf()
                &&& final(tree)@.len() >= 1
                &&& final(tree)@[0].position == start
                &&& follows_walls(final(tree)@, m0)
            },
            r matches Some(Ok(path)) ==> solution_path(m0, path@),
            r matches Some(Ok(path)) ==> forall|q: Position| final(self).in_bounds(q) && path@.contains(q)
                ==> (#[trigger] final(self).cell(q)).visited,
            r matches Some(Err(e)) ==> e == MazeError::Unsolvable,
            track ==> !(r matches Some(Err(_))),
            track && r is None ==> {
                &&& on_track(final(tree)@, m0, start, end, up)
                &&& dead_set(final(tree)@).finite()
                &&& final(tree)@.len() + dead_set(final(tree)@).len()
                    > old(tree)@.len() + dead_set(old(tree)@).len()
            },
    {
        proof {
            assert forall|p: Position| #[trigger] self.is_end(p) == m0.is_end(p) by {
                self.lemma_same_layout(m0);
            }
            assert(self.unique_end(end));
            assert(self.end_pos() == end);
        }
        let b = match tree.find_best_valid_position() {
            Some(b) => b,
            None => {
                proof {
                    if track {
                        lemma_some_alive(tree@, m0, start, end, depth, up);
                    }
                }
                return Some(Err(MazeError::Unsolvable));
            },
        };
        let ghost t0 = tree@;
        let ghost maze = *self;
        let next = TreeNode::get_best_next_position(tree, b, self);
        let ghost t1 = tree@;
        proof {
            assert forall|i: int| 0 <= i < tree@.len() implies #[trigger] tree@[i].position == t0[i].position
                && tree@[i].parent == t0[i].parent by {}
            lemma_follows_marks(t0, tree@, m0);
            lemma_dead_set_bound(t0);
            assert(asked(t0, t1, b as int, maze));
        }
        match next {
            None => {
                proof {
                    if track {
                        lemma_step_stuck(t0, t1, b as int, maze, m0, start, end, up);
                    }
                }
                None
            },
            Some(q) => {
                proof {
                    lemma_move_connected(maze, m0, t0, b as int, q);
                    let ms = moves(t0, b as int, maze);
                    let k = choose|k: int| nearest_first(ms, maze.end_pos(), k) && ms[k] == q;
                    assert(ms.contains(q));
                }
                if q == end {
                    let path = self.finish(tree, b, end, Ghost(m0), Ghost(start));
                    Some(Ok(path))
                } else if self.grow_step(tree, b, q, Ghost(t0), Ghost(m0), Ghost(start), Ghost(end), Ghost(track),
                    Ghost(depth), Ghost(up)) {
                    None
                } else {
                    Some(Err(MazeError::Unsolvable))
                }
            },
        }
    }

    /// Searches from the start cell toward the end cell, growing the search
    /// tree one node at a time: pick the best open node, ask it for its next
    /// move, and either stop at the end or add the move as a child. Each cell
    /// moved to is marked visited, and so is every cell of the path found.
    /// Gives up with `Unsolvable` when every node is a dead end, or after
    /// twice as many steps as there are cells; neither happens on a generated
    /// maze of more than one cell whose doubled cell count fits in a `usize`.
    pub fn solve(&mut self) -> (r: Result<Vec<Position>, MazeError>)
        requires
            old(self).perfect(),
        ensures
            final(self).wf(),
            final(self).same_layout(*old(self)),
            r matches Ok(path) ==> solution_path(*old(self), path@),
            r matches Ok(path) ==> forall|q: Position| final(self).in_bounds(q) && path@.contains(q)
                ==> (#[trigger] final(self).cell(q)).visited,
            r matches Err(e) ==> e == MazeError::Unsolvable,
            1 < old(self).width_spec() * old(self).height_spec() <= usize::MAX / 2 ==> r is Ok,
    {
        let ghost m0 = *self;
        let start = match self.find_start() {
            Some(s) => s,
            None => {
                return Err(MazeError::Unsolvable);
            },
        };
        let end = match self.find_end() {
            Some(e) => e,
            None => {
                return Err(MazeError::Unsolvable);
            },
        };
        let ghost track = 1 < m0.width_spec() * m0.height_spec() && m0.width_spec() * m0.height_spec() <= usize::MAX / 2;
        let ghost mut depth: Map<Position, nat> = Map::empty();
        let ghost mut up: Map<Position, Option<Direction>> = Map::empty();
        proof {
            let s0 = choose|s: Position| #[trigger] m0.unique_start(s) && m0.spanning_tree(s);
            assert(m0.unique_start(start));
            assert(s0 == start);
            let e0 = choose|e: Position| #[trigger] m0.unique_end(e);
            assert(m0.has_unique_end());
            assert(m0.unique_end(end));
            let (d0, u0) = choose|depth: Map<Position, nat>, up: Map<Position, Option<Direction>>|
                #[trigger] m0.tree_labelling(start, depth, up);
            depth = d0;
            up = u0;
            assert forall|e: Position| #[trigger] self.is_end(e)
                implies 0 + manhattan(start, e) <= usize::MAX by {
                lemma_distance_bound(self.width_spec(), self.height_spec(), start, e);
            }
        }
        let mut root = TreeNode::new(start);
        root.calculate_heuristic(self);
        let mut tree = Tree::new();
        tree.insert(&mut root);
        proof {
            if track {
                assert(start != end);
                lemma_dead_set_bound(tree@);
                assert(dead_set(tree@) =~= Set::empty());
                reveal(on_track);
                assert(on_track(tree@, m0, start, end, up));
            }
        }
        let n = self.width() * self.height();
        let limit: usize = if n <= usize::MAX / 2 { 2 * n } else { usize::MAX };
        let mut steps: usize = 0;
        while steps < limit
            invariant
                m0 == *old(self),
                m0.wf(),
                m0.unique_start(start),
                m0.unique_end(end),
                self.wf(),
                self.same_layout(m0),
                tree.wf(),
                tree@.len() >= 1,
                tree@[0].position == start,
                follows_walls(tree@, m0),
                steps <= limit,
                n == m0.width_spec() * m0.height_spec(),
                track == (1 < m0.width_spec() * m0.height_spec() && m0.width_spec() * m0.height_spec() <= usize::MAX / 2),
                track ==> {
                    &&& m0.walls_symmetric()
                    &&& m0.tree_labelling(start, depth, up)
                    &&& on_track(tree@, m0, start, end, up)
                    &&& dead_set(tree@).finite()
                    &&& tree@.len() + dead_set(tree@).len() >= steps + 1
                    &&& limit == 2 * n
                },
            decreases limit - steps,
        {
            proof {
                if track {
                    assert(m0.walls_symmetric());
                    assert(m0.tree_labelling(start, depth, up));
                    assert(on_track(tree@, m0, start, end, up));
                    assert(m0.width_spec() * m0.height_spec() <= usize::MAX / 2);
                }
            }
            match self.search_step(&mut tree, end, Ghost(m0), Ghost(start), Ghost(track), Ghost(depth), Ghost(up)) {
                Some(r) => {
                    return r;
                },
                None => {},
            }
            steps = steps + 1;
        }
        proof {
            if track {
                lemma_node_count(tree@, m0);
                lemma_dead_set_bound(tree@);
            }
        }
        Err(MazeError::Unsolvable)
    }
}

} // verus!
