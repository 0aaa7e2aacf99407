use vstd::prelude::*;
use crate::grid::{Position, manhattan};
use crate::maze::{Maze, lemma_distance_bound, open_path};

verus! {

/// One explored position of the search tree. Nodes live in the arena of a
/// [`Tree`] and refer to each other by index.
#[derive(Debug)]
pub struct TreeNode {
    /// Index of the parent node; `None` for the root.
    pub parent: Option<usize>,
    /// Indices of the children, in order of discovery.
    pub childs: Vec<usize>,
    pub position: Position,
    /// Once set, the node is never selected again.
    pub dead_end: bool,
    /// `g + h`.
    pub f: usize,
    /// Depth in the tree.
    pub g: usize,
    /// Manhattan distance to the end cell.
    pub h: usize,
}

/// The search tree: an arena of nodes whose first node is the root.
pub struct Tree {
    nodes: Vec<TreeNode>,
}

/// `i` is `a` or lies below it, following parent links.
#[verifier::opaque]
pub open spec fn descends(nodes: Seq<TreeNode>, i: int, a: int) -> bool
    decreases i,
{
    if i == a {
        true
    } else if 0 <= i < nodes.len() && nodes[i].parent is Some && nodes[i].parent.unwrap() < i {
        descends(nodes, nodes[i].parent.unwrap() as int, a)
    } else {
        false
    }
}

/// Node `j` may be picked by a search below `a`: it exists, is not a dead
/// end, and lies in the subtree of `a`.
pub open spec fn selectable(nodes: Seq<TreeNode>, a: int, j: int) -> bool {
    0 <= j < nodes.len() && !nodes[j].dead_end && descends(nodes, j, a)
}

/// `b` is the selectable node of least `f` below `a`, the one of least index
/// among equals.
pub open spec fn best_below(nodes: Seq<TreeNode>, a: int, b: int) -> bool {
    &&& selectable(nodes, a, b)
    &&& forall|j: int| #[trigger] selectable(nodes, a, j) ==> nodes[b].f <= nodes[j].f
    &&& forall|j: int| #[trigger] selectable(nodes, a, j) && nodes[j].f == nodes[b].f ==> b <= j
}

/// The two nodes hold the same values, child lists compared by contents.
pub open spec fn same_node(a: TreeNode, b: TreeNode) -> bool {
    &&& a.parent == b.parent
    &&& a.childs@ == b.childs@
    &&& a.position == b.position
    &&& a.dead_end == b.dead_end
    &&& a.f == b.f
    &&& a.g == b.g
    &&& a.h == b.h
}

/// Every dead end of `before` is still one in `after`.
pub open spec fn dead_ends_kept(before: Seq<TreeNode>, after: Seq<TreeNode>) -> bool {
    &&& before.len() <= after.len()
    &&& forall|j: int| 0 <= j < before.len() && (#[trigger] before[j]).dead_end ==> after[j].dead_end
}

/// A descendant is never above its ancestor in the arena.
pub proof fn lemma_descends_order(nodes: Seq<TreeNode>, i: int, a: int)
    requires
        descends(nodes, i, a),
    ensures
        a <= i,
    decreases i,
{
    reveal(descends);
    if i != a {
        lemma_descends_order(nodes, nodes[i].parent.unwrap() as int, a);
    }
}

impl TreeNode {
    /// A fresh node at `position`: depth 0, no links, scores zero.
    pub fn new(position: Position) -> (r: TreeNode)
        ensures
            r.parent is None,
            r.childs@.len() == 0,
            r.position == position,
            !r.dead_end,
            r.f == 0,
            r.g == 0,
            r.h == 0,
    {
        TreeNode { parent: None, childs: Vec::new(), position, dead_end: false, f: 0, g: 0, h: 0 }
    }

    /// Sets `h` to the distance from this node to the maze's end cell, and
    /// `f` to `g + h`.
    pub fn calculate_heuristic(&mut self, maze: &Maze)
        requires
            maze.wf(),
            exists|e: Position| maze.is_end(e),
            forall|e: Position| #[trigger] maze.is_end(e)
                ==> old(self).g + manhattan(old(self).position, e) <= usize::MAX,
        ensures
            exists|e: Position| maze.is_end(e) && final(self).h == manhattan(old(self).position, e),
            maze.has_unique_end() ==> final(self).h == manhattan(old(self).position, maze.end_pos()),
            final(self).f == final(self).g + final(self).h,
            final(self).g == old(self).g,
            final(self).parent == old(self).parent,
            final(self).childs == old(self).childs,
            final(self).position == old(self).position,
            final(self).dead_end == old(self).dead_end,
    {
        match maze.find_end() {
            Some(end) => {
                assert(maze.is_end(end));
                self.h = self.position.distance(&end);
                self.f = self.g + self.h;
            },
            None => {
                assert(false);
            },
        }
    }
}


impl View for Tree {
    type V = Seq<TreeNode>;

    closed spec fn view(&self) -> Seq<TreeNode> {
        self.nodes@
    }
}

/// The arena is a tree: the root comes first, each other node after its
/// parent, child lists point at nodes whose parent is the listing node, and
/// the scores obey `f == g + h` and `g(child) == g(parent) + 1`.
pub open spec fn tree_wf(nodes: Seq<TreeNode>) -> bool {
    &&& forall|i: int| 0 <= i < nodes.len() ==> ((#[trigger] nodes[i]).parent is None <==> i == 0)
    &&& forall|i: int| 0 <= i < nodes.len() && (#[trigger] nodes[i]).parent is Some
        ==> nodes[i].parent.unwrap() < i
            && nodes[i].g == nodes[nodes[i].parent.unwrap() as int].g + 1
    &&& forall|i: int| 0 <= i < nodes.len() ==> (#[trigger] nodes[i]).f == nodes[i].g + nodes[i].h
    &&& forall|i: int, k: int| 0 <= i < nodes.len() && 0 <= k < nodes[i].childs@.len() ==> {
        &&& i < #[trigger] nodes[i].childs@[k] < nodes.len()
        &&& nodes[nodes[i].childs@[k] as int].parent == Some(i as usize)
    }
}

impl Tree {
    pub open spec fn wf(self) -> bool {
        tree_wf(self@)
    }

    /// An empty tree.
    pub fn new() -> (r: Tree)
        ensures
            r.wf(),
            r@.len() == 0,
    {
        Tree { nodes: Vec::new() }
    }

    /// Number of nodes.
    pub fn len(&self) -> (r: usize)
        ensures
            r == self@.len(),
    {
        self.nodes.len()
    }

    /// The node at index `i`.
    pub fn node(&self, i: usize) -> (r: &TreeNode)
        requires
            i < self@.len(),
        ensures
            *r == self@[i as int],
    {
        &self.nodes[i]
    }

    /// Makes `to_insert` the root of an empty tree, or a child of the root.
    pub fn insert(&mut self, to_insert: &mut TreeNode)
        requires
            old(self).wf(),
            old(to_insert).childs@.len() == 0,
            old(self)@.len() == 0 ==> old(to_insert).parent is None && old(to_insert).f == old(to_insert).g
                + old(to_insert).h,
            old(self)@.len() > 0 ==> old(self)@[0].g + 1 + old(to_insert).h <= usize::MAX,
        ensures
            final(self).wf(),
            final(self)@.len() == old(self)@.len() + 1,
            dead_ends_kept(old(self)@, final(self)@),
            old(self)@.len() == 0 ==> *final(to_insert) == *old(to_insert)
                && same_node(final(self)@[0], *old(to_insert)),
            old(self)@.len() > 0 ==> TreeNode::inserted_under(old(self)@, final(self)@, 0,
                *old(to_insert), *final(to_insert)),
    {
        if self.nodes.len() == 0 {
            let node = TreeNode {
                parent: None,
                childs: Vec::new(),
                position: to_insert.position,
                dead_end: to_insert.dead_end,
                f: to_insert.f,
                g: to_insert.g,
                h: to_insert.h,
            };
            self.nodes.push(node);
            proof {
                assert(self.nodes@[0].childs@ =~= to_insert.childs@);
            }
        } else {
            TreeNode::insert_node(self, 0, to_insert);
        }
    }
}

impl TreeNode {
    /// `child` (first `before_child`) was linked under `parent`: its depth and
    /// score set, its copy appended to the arena, and listed as the last child
    /// of `parent`; nothing else changed.
    pub open spec fn inserted_under(
        before: Seq<TreeNode>,
        after: Seq<TreeNode>,
        parent: int,
        before_child: TreeNode,
        child: TreeNode,
    ) -> bool {
        &&& child.parent == Some(parent as usize)
        &&& child.g == before[parent].g + 1
        &&& child.f == child.g + child.h
        &&& child.h == before_child.h
        &&& child.position == before_child.position
        &&& child.dead_end == before_child.dead_end
        &&& child.childs == before_child.childs
        &&& after.len() == before.len() + 1
        &&& same_node(after.last(), child)
        &&& after[parent].childs@ == before[parent].childs@.push(before.len() as usize)
        &&& after[parent].parent == before[parent].parent
        &&& after[parent].position == before[parent].position
        &&& after[parent].dead_end == before[parent].dead_end
        &&& after[parent].f == before[parent].f
        &&& after[parent].g == before[parent].g
        &&& after[parent].h == before[parent].h
        &&& forall|j: int| 0 <= j < before.len() && j != parent ==> #[trigger] after[j] == before[j]
    }

    /// Links `to_insert` under node `node`: sets its parent and depth,
    /// recomputes `f`, and appends it to the tree as the last child of `node`.
    pub fn insert_node(tree: &mut Tree, node: usize, to_insert: &mut TreeNode)
        requires
            old(tree).wf(),
            node < old(tree)@.len(),
            old(to_insert).childs@.len() == 0,
            old(tree)@[node as int].g + 1 + old(to_insert).h <= usize::MAX,
        ensures
            final(tree).wf(),
            dead_ends_kept(old(tree)@, final(tree)@),
            TreeNode::inserted_under(old(tree)@, final(tree)@, node as int, *old(to_insert), *final(to_insert)),
    {
        let new_index = tree.nodes.len();
        to_insert.parent = Some(node);
        to_insert.g = tree.nodes[node].g + 1;
        to_insert.f = to_insert.g + to_insert.h;
        let copy = TreeNode {
            parent: Some(node),
            childs: Vec::new(),
            position: to_insert.position,
            dead_end: to_insert.dead_end,
            f: to_insert.f,
            g: to_insert.g,
            h: to_insert.h,
        };
        tree.nodes[node].childs.push(new_index);
        tree.nodes.push(copy);
        proof {
            let before = old(tree)@;
            let after = tree@;
            assert(after.last().childs@ =~= to_insert.childs@);
            assert forall|i: int, k: int| 0 <= i < after.len() && 0 <= k < after[i].childs@.len() implies {
                &&& i < #[trigger] after[i].childs@[k] < after.len()
                &&& after[after[i].childs@[k] as int].parent == Some(i as usize)
            } by {
                if i != node && i < before.len() {
                    assert(after[i] == before[i]);
                } else if i == node {
                    if k < before[i].childs@.len() {
                        assert(after[i].childs@[k] == before[i].childs@[k]);
                    }
                }
            }
        }
    }
}


/// In a well-formed arena every node lies below the root.
pub proof fn lemma_descends_root(nodes: Seq<TreeNode>, i: int)
    requires
        tree_wf(nodes),
        0 <= i < nodes.len(),
    ensures
        descends(nodes, i, 0),
    decreases i,
{
    reveal(descends);
    if i != 0 {
        assert(nodes[i].parent is Some);
        lemma_descends_root(nodes, nodes[i].parent.unwrap() as int);
    }
}

impl TreeNode {
    /// Whether node `i` lies in the subtree of node `a`.
    fn is_descendant(tree: &Tree, i: usize, a: usize) -> (r: bool)
        requires
            tree.wf(),
            i < tree@.len(),
        ensures
            r == descends(tree@, i as int, a as int),
    {
        let mut cur = i;
        while cur > a
            invariant
                tree.wf(),
                cur < tree@.len(),
                descends(tree@, i as int, a as int) == descends(tree@, cur as int, a as int),
            decreases cur,
        {
            proof { reveal(descends); }
            match tree.nodes[cur].parent {
                Some(p) => {
                    cur = p;
                },
                None => {
                    return false;
                },
            }
        }
        proof {
            reveal(descends);
            if cur < a && descends(tree@, cur as int, a as int) {
                lemma_descends_order(tree@, cur as int, a as int);
            }
        }
        cur == a
    }

    /// The non-dead-end node of least `f` in the subtree of `node` (the
    /// first in arena order among equals), or `None` if every node there is a
    /// dead end.
    #[verifier::rlimit(40)]
    pub fn find_best_valid_position(tree: &Tree, node: usize) -> (r: Option<usize>)
        requires
            tree.wf(),
        ensures
            r is None <==> forall|j: int| !#[trigger] selectable(tree@, node as int, j),
            r matches Some(b) ==> best_below(tree@, node as int, b as int),
    {
        let n = tree.nodes.len();
        let mut best: Option<usize> = None;
        let mut j: usize = node;
        if j > n {
            j = n;
        }
        proof {
            assert forall|k: int| #[trigger] selectable(tree@, node as int, k) implies k >= j by {
                lemma_descends_order(tree@, k, node as int);
            }
        }
        while j < n
            invariant
                tree.wf(),
                n == tree@.len(),
                j <= n,
                best is None ==> forall|k: int| #[trigger] selectable(tree@, node as int, k) ==> k >= j,
                best matches Some(b) ==> {
                    &&& b < j
                    &&& selectable(tree@, node as int, b as int)
                    &&& forall|k: int| #[trigger] selectable(tree@, node as int, k) && k < j
                        ==> tree@[b as int].f <= tree@[k].f
                    &&& forall|k: int| #[trigger] selectable(tree@, node as int, k) && k < j
                        && tree@[k].f == tree@[b as int].f ==> b <= k
                },
            decreases n - j,
        {
            let cand = !tree.nodes[j].dead_end && TreeNode::is_descendant(tree, j, node);
            let ghost prev = best;
            if cand {
                match best {
                    None => {
                        best = Some(j);
                    },
                    Some(b) => {
                        if tree.nodes[j].f < tree.nodes[b].f {
                            best = Some(j);
                        }
                    },
                }
            }
            proof {
                let nodes = tree@;
                assert(cand == selectable(nodes, node as int, j as int));
                if best is Some {
                    let b = best.unwrap() as int;
                    assert forall|k: int| #[trigger] selectable(nodes, node as int, k) && k < j + 1
                        implies nodes[b].f <= nodes[k].f && (nodes[k].f == nodes[b].f ==> b <= k) by {
                        if k < j && prev is Some {
                            let pb = prev.unwrap() as int;
                            assert(nodes[pb].f <= nodes[k].f);
                        }
                    }
                }
            }
            j = j + 1;
        }
        proof {
            if best is None {
                assert forall|k: int| !#[trigger] selectable(tree@, node as int, k) by {
                    if selectable(tree@, node as int, k) {
                        assert(k < n);
                    }
                }
            } else {
                assert(selectable(tree@, node as int, best.unwrap() as int));
            }
        }
        best
    }
}

impl Tree {
    /// The non-dead-end node of least `f` in the whole tree (the first in
    /// arena order among equals), or `None` if there is none.
    pub fn find_best_valid_position(&self) -> (r: Option<usize>)
        requires
            self.wf(),
        ensures
            r is None <==> forall|j: int| 0 <= j < self@.len() ==> self@[j].dead_end,
            r matches Some(b) ==> {
                &&& b < self@.len()
                &&& !self@[b as int].dead_end
                &&& forall|j: int| 0 <= j < self@.len() && !self@[j].dead_end
                    ==> self@[b as int].f <= #[trigger] self@[j].f
                &&& forall|j: int| 0 <= j < self@.len() && !self@[j].dead_end
                    && self@[j].f == self@[b as int].f ==> b <= j
            },
    {
        proof {
            assert forall|j: int| 0 <= j < self@.len() implies
                (#[trigger] selectable(self@, 0, j) <==> !self@[j].dead_end) by {
                lemma_descends_root(self@, j);
            }
        }
        if self.nodes.len() == 0 {
            None
        } else {
            let r = TreeNode::find_best_valid_position(self, 0);
            proof {
                if r is None {
                    assert forall|j: int| 0 <= j < self@.len() implies self@[j].dead_end by {
                        assert(!selectable(self@, 0, j));
                    }
                } else {
                    let b = r.unwrap() as int;
                    assert(best_below(self@, 0, b));
                    assert forall|j: int| 0 <= j < self@.len() && !self@[j].dead_end
                        implies self@[b].f <= #[trigger] self@[j].f && (self@[j].f == self@[b].f ==> b <= j) by {
                        assert(selectable(self@, 0, j));
                    }
                }
            }
            r
        }
    }
}


/// `q` is the position of a child of node `i` or of its parent.
pub open spec fn explored_from(nodes: Seq<TreeNode>, i: int, q: Position) -> bool {
    ||| exists|k: int| 0 <= k < nodes[i].childs@.len()
        && #[trigger] nodes[nodes[i].childs@[k] as int].position == q
    ||| (nodes[i].parent is Some && nodes[nodes[i].parent.unwrap() as int].position == q)
}

/// The positions of `s` that node `i` has not explored, in order.
pub open spec fn fresh_moves(nodes: Seq<TreeNode>, i: int, s: Seq<Position>) -> Seq<Position>
    decreases s.len(),
{
    if s.len() == 0 {
        Seq::empty()
    } else {
        let prev = fresh_moves(nodes, i, s.drop_last());
        if explored_from(nodes, i, s.last()) {
            prev
        } else {
            prev.push(s.last())
        }
    }
}

/// The moves open to node `i`: open-wall neighbours of its position that are
/// neither its parent's nor a child's position.
pub open spec fn moves(nodes: Seq<TreeNode>, i: int, maze: Maze) -> Seq<Position> {
    fresh_moves(nodes, i, maze.exits(nodes[i].position))
}

/// `s[k]` is the first element of `s` nearest to `goal`.
pub open spec fn nearest_first(s: Seq<Position>, goal: Position, k: int) -> bool {
    &&& 0 <= k < s.len()
    &&& forall|j: int| 0 <= j < s.len() ==> manhattan(s[k], goal) <= manhattan(#[trigger] s[j], goal)
    &&& forall|j: int| 0 <= j < k ==> manhattan(s[k], goal) < manhattan(#[trigger] s[j], goal)
}

/// Every fresh move is one of the given positions.
pub proof fn lemma_fresh_moves_within(nodes: Seq<TreeNode>, i: int, s: Seq<Position>)
    ensures
        forall|k: int| 0 <= k < fresh_moves(nodes, i, s).len()
            ==> s.contains(#[trigger] fresh_moves(nodes, i, s)[k]),
    decreases s.len(),
{
    if s.len() > 0 {
        lemma_fresh_moves_within(nodes, i, s.drop_last());
        let f = fresh_moves(nodes, i, s);
        assert forall|k: int| 0 <= k < f.len() implies s.contains(#[trigger] f[k]) by {
            let prev = fresh_moves(nodes, i, s.drop_last());
            if k < prev.len() {
                assert(f[k] == prev[k]);
                let m = choose|m: int| 0 <= m < s.drop_last().len() && s.drop_last()[m] == prev[k];
                assert(s[m] == f[k]);
            } else {
                assert(f[k] == s[s.len() - 1]);
            }
        }
    }
}

/// No fresh move is explored from node `i`.
pub proof fn lemma_fresh_moves_fresh(nodes: Seq<TreeNode>, i: int, s: Seq<Position>)
    ensures
        forall|k: int| 0 <= k < fresh_moves(nodes, i, s).len()
            ==> !explored_from(nodes, i, #[trigger] fresh_moves(nodes, i, s)[k]),
    decreases s.len(),
{
    if s.len() > 0 {
        lemma_fresh_moves_fresh(nodes, i, s.drop_last());
        let f = fresh_moves(nodes, i, s);
        let prev = fresh_moves(nodes, i, s.drop_last());
        assert forall|k: int| 0 <= k < f.len() implies !explored_from(nodes, i, #[trigger] f[k]) by {
            if k < prev.len() {
                assert(f[k] == prev[k]);
            }
        }
    }
}

/// Each position of `s` is either explored from node `i` or kept as a fresh move.
pub proof fn lemma_fresh_moves_cover(nodes: Seq<TreeNode>, i: int, s: Seq<Position>)
    ensures
        forall|k: int| 0 <= k < s.len() ==> explored_from(nodes, i, #[trigger] s[k])
            || fresh_moves(nodes, i, s).contains(s[k]),
    decreases s.len(),
{
    if s.len() > 0 {
        let prev = s.drop_last();
        lemma_fresh_moves_cover(nodes, i, prev);
        let f = fresh_moves(nodes, i, s);
        let fp = fresh_moves(nodes, i, prev);
        assert forall|k: int| 0 <= k < s.len() implies explored_from(nodes, i, #[trigger] s[k])
            || f.contains(s[k]) by {
            if k < s.len() - 1 {
                assert(s[k] == prev[k]);
                if fp.contains(prev[k]) {
                    let m = choose|m: int| 0 <= m < fp.len() && fp[m] == prev[k];
                    assert(f[m] == fp[m]);
                }
            } else if !explored_from(nodes, i, s[k]) {
                assert(f[f.len() - 1] == s[k]);
            }
        }
    }
}

impl TreeNode {
    /// Whether `position` is that of the parent of node `node`.
    fn is_parent_position(tree: &Tree, node: usize, position: &Position) -> (r: bool)
        requires
            tree.wf(),
            node < tree@.len(),
        ensures
            r == (tree@[node as int].parent is Some
                && tree@[tree@[node as int].parent.unwrap() as int].position == *position),
    {
        match tree.nodes[node].parent {
            Some(p) => tree.nodes[p].position == *position,
            None => false,
        }
    }

    /// Whether `position` is that of a child of node `node` or of its parent.
    fn is_explored(tree: &Tree, node: usize, position: &Position) -> (r: bool)
        requires
            tree.wf(),
            node < tree@.len(),
        ensures
            r == explored_from(tree@, node as int, *position),
    {
        let childs = &tree.nodes[node].childs;
        let mut k: usize = 0;
        while k < childs.len()
            invariant
                tree.wf(),
                node < tree@.len(),
                *childs == tree@[node as int].childs,
                k <= childs@.len(),
                forall|m: int| 0 <= m < k ==> #[trigger] tree@[childs@[m] as int].position != *position,
            decreases childs@.len() - k,
        {
            let c = childs[k];
            if tree.nodes[c].position == *position {
                return true;
            }
            k = k + 1;
        }
        TreeNode::is_parent_position(tree, node, position)
    }

    /// Chooses where node `node` goes next: among its moves, the first one
    /// nearest the end cell. A node with fewer than two moves becomes a dead
    /// end; a dead end gets `None`.
    pub fn get_best_next_position(tree: &mut Tree, node: usize, maze: &Maze) -> (r: Option<Position>)
        requires
            old(tree).wf(),
            node < old(tree)@.len(),
            maze.wf(),
            maze.has_unique_end(),
        ensures
            final(tree).wf(),
            dead_ends_kept(old(tree)@, final(tree)@),
            old(tree)@[node as int].dead_end ==> r is None && final(tree)@ == old(tree)@,
            !old(tree)@[node as int].dead_end ==> {
                let ms = moves(old(tree)@, node as int, *maze);
                &&& final(tree)@ == old(tree)@.update(
                    node as int,
                    TreeNode { dead_end: ms.len() < 2, ..old(tree)@[node as int] },
                )
                &&& r is None <==> ms.len() == 0
                &&& r matches Some(q) ==> exists|k: int| nearest_first(ms, maze.end_pos(), k) && ms[k] == q
            },
    {
        if tree.nodes[node].dead_end {
            return None;
        }
        let ghost nodes = tree@;
        let pos = tree.nodes[node].position;
        let exits = maze.open_neighbors(pos);
        let mut cands: Vec<Position> = Vec::new();
        let mut k: usize = 0;
        while k < exits.len()
            invariant
                tree.wf(),
                tree@ == nodes,
                node < nodes.len(),
                exits@ == maze.exits(pos),
                k <= exits@.len(),
                cands@ == fresh_moves(nodes, node as int, exits@.subrange(0, k as int)),
            decreases exits@.len() - k,
        {
            let q = exits[k];
            if !TreeNode::is_explored(tree, node, &q) {
                cands.push(q);
            }
            proof {
                assert(exits@.subrange(0, k + 1).drop_last() =~= exits@.subrange(0, k as int));
            }
            k = k + 1;
        }
        proof {
            assert(exits@.subrange(0, exits@.len() as int) =~= exits@);
            maze.lemma_exits(pos);
            lemma_fresh_moves_within(nodes, node as int, exits@);
        }
        if cands.len() < 2 {
            tree.nodes[node].dead_end = true;
        }
        proof {
            assert(tree@ =~= nodes.update(
                node as int,
                TreeNode { dead_end: cands@.len() < 2, ..nodes[node as int] },
            ));
        }
        if cands.len() == 0 {
            return None;
        }
        let end = match maze.find_end() {
            Some(e) => e,
            None => {
                return None;
            },
        };
        let ghost ms = cands@;
        proof {
            assert forall|j: int| 0 <= j < ms.len() implies maze.in_bounds(#[trigger] ms[j]) by {
                assert(exits@.contains(ms[j]));
            }
            lemma_distance_bound(maze.width_spec(), maze.height_spec(), ms[0], end);
        }
        let mut best: usize = 0;
        let mut best_d: usize = cands[0].distance(&end);
        let mut j: usize = 1;
        while j < cands.len()
            invariant
                cands@ == ms,
                maze.wf(),
                maze.in_bounds(end),
                forall|m: int| 0 <= m < ms.len() ==> maze.in_bounds(#[trigger] ms[m]),
                1 <= j <= ms.len(),
                best < j,
                best_d == manhattan(ms[best as int], end),
                forall|m: int| 0 <= m < j ==> best_d <= manhattan(#[trigger] ms[m], end),
                forall|m: int| 0 <= m < best ==> best_d < manhattan(#[trigger] ms[m], end),
            decreases ms.len() - j,
        {
            proof {
                lemma_distance_bound(maze.width_spec(), maze.height_spec(), ms[j as int], end);
            }
            let dj = cands[j].distance(&end);
            if dj < best_d {
                best = j;
                best_d = dj;
            }
            j = j + 1;
        }
        proof {
            assert(nearest_first(ms, maze.end_pos(), best as int));
        }
        Some(cands[best])
    }
}


/// The positions from the root down to node `i`, following parent links.
pub open spec fn path_to(nodes: Seq<TreeNode>, i: int) -> Seq<Position>
    decreases i,
{
    if 0 <= i < nodes.len() && nodes[i].parent is Some && nodes[i].parent.unwrap() < i {
        path_to(nodes, nodes[i].parent.unwrap() as int).push(nodes[i].position)
    } else {
        seq![nodes[i].position]
    }
}

/// Each node stands on a cell of `maze`, joined to its parent's cell through
/// an open wall.
pub open spec fn follows_walls(nodes: Seq<TreeNode>, maze: Maze) -> bool {
    &&& forall|i: int| 0 <= i < nodes.len() ==> maze.in_bounds(#[trigger] nodes[i].position)
    &&& forall|i: int| 0 <= i < nodes.len() && (#[trigger] nodes[i]).parent is Some
        ==> maze.connected(nodes[nodes[i].parent.unwrap() as int].position, nodes[i].position)
}

/// The path traced back from any node runs from the root to that node, each
/// step through an open wall.
pub proof fn lemma_path_valid(nodes: Seq<TreeNode>, maze: Maze, i: int)
    requires
        tree_wf(nodes),
        follows_walls(nodes, maze),
        0 <= i < nodes.len(),
    ensures
        path_to(nodes, i).len() >= 1,
        path_to(nodes, i)[0] == nodes[0].position,
        path_to(nodes, i).last() == nodes[i].position,
        open_path(maze, path_to(nodes, i)),
    decreases i,
{
    if i != 0 {
        assert(nodes[i].parent is Some);
        let p = nodes[i].parent.unwrap() as int;
        lemma_path_valid(nodes, maze, p);
        let prev = path_to(nodes, p);
        let path = path_to(nodes, i);
        assert(path == prev.push(nodes[i].position));
        assert forall|k: int| 0 <= k < path.len() - 1 implies maze.connected(#[trigger] path[k], path[k + 1]) by {
            if k < prev.len() - 1 {
                assert(path[k] == prev[k] && path[k + 1] == prev[k + 1]);
                assert(maze.connected(prev[k], prev[k + 1]));
            } else {
                assert(path[k] == nodes[p].position);
            }
        }
    }
}

impl TreeNode {
    /// Marks visited, on `maze`, every position from the root down to node
    /// `node`, and returns those positions in that order.
    pub fn trace_path(tree: &Tree, node: usize, maze: &mut Maze) -> (r: Vec<Position>)
        requires
            tree.wf(),
            node < tree@.len(),
            old(maze).wf(),
        ensures
            r@ == path_to(tree@, node as int),
            final(maze).wf(),
            final(maze).same_layout(*old(maze)),
            forall|q: Position| final(maze).in_bounds(q) ==> (#[trigger] final(maze).cell(q)).visited
                == (old(maze).cell(q).visited || r@.contains(q)),
        decreases node,
    {
        let mut path = match tree.nodes[node].parent {
            Some(p) => TreeNode::trace_path(tree, p, maze),
            None => Vec::new(),
        };
        let ghost mid = *maze;
        let ghost prev0 = path@;
        proof {
            assert forall|q: Position| mid.in_bounds(q) implies (#[trigger] mid.cell(q)).visited
                == (old(maze).cell(q).visited || path@.contains(q)) by {}
        }
        let pos = tree.nodes[node].position;
        maze.mark_position_visited(pos);
        path.push(pos);
        proof {
            assert(path@ =~= path_to(tree@, node as int));
            assert forall|q: Position| maze.in_bounds(q) implies (#[trigger] maze.cell(q)).visited
                == (old(maze).cell(q).visited || path@.contains(q)) by {
                let prev = prev0;
                assert(prev.push(pos) == path@);
                assert(mid.in_bounds(q));
                assert(mid.cell(q).visited == (old(maze).cell(q).visited || prev.contains(q)));
                assert(maze.cell(q).visited == (mid.cell(q).visited || q == pos));
                if path@.contains(q) && q != pos {
                    let k = choose|k: int| 0 <= k < path@.len() && path@[k] == q;
                    assert(prev[k] == q);
                }
                if prev.contains(q) {
                    let k = choose|k: int| 0 <= k < prev.len() && prev[k] == q;
                    assert(path@[k] == q);
                }
                assert(path@[path@.len() - 1] == pos);
            }
        }
        path
    }
}

} // verus!
