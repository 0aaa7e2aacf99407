use vstd::prelude::*;
use crate::grid::{Direction, Position, step, opposite, manhattan, adjacent, direction_to};
use crate::rng::Rng;
use vstd::set_lib::{set_int_range, lemma_int_range, lemma_len_subset, lemma_map_size};
use vstd::relations::injective_on;
use vstd::arithmetic::div_mod::{lemma_fundamental_div_mod, lemma_fundamental_div_mod_converse, lemma_mod_pos_bound};

verus! {

/// The set of directions through which a cell's wall is open.
#[derive(Clone, Copy, Debug, PartialEq, Eq, Structural)]
pub struct Access {
    pub north: bool,
    pub south: bool,
    pub east: bool,
    pub west: bool,
}

impl Access {
    pub open spec fn has(self, d: Direction) -> bool {
        match d {
            Direction::North => self.north,
            Direction::South => self.south,
            Direction::East => self.east,
            Direction::West => self.west,
        }
    }

    pub open spec fn is_closed(self) -> bool {
        !self.north && !self.south && !self.east && !self.west
    }

    /// No direction open.
    pub fn closed() -> (r: Access)
        ensures
            r.is_closed(),
    {
        Access { north: false, south: false, east: false, west: false }
    }

    pub fn contains(&self, d: &Direction) -> (r: bool)
        ensures
            r == self.has(*d),
    {
        match d {
            Direction::North => self.north,
            Direction::South => self.south,
            Direction::East => self.east,
            Direction::West => self.west,
        }
    }

    /// Opens direction `d`, leaving the others as they were.
    pub fn insert(&mut self, d: Direction)
        ensures
            forall|e: Direction| #[trigger] final(self).has(e) == (old(self).has(e) || e == d),
    {
        match d {
            Direction::North => self.north = true,
            Direction::South => self.south = true,
            Direction::East => self.east = true,
            Direction::West => self.west = true,
        }
    }
}

/// The state of one grid position.
#[derive(Clone, Copy, Debug, PartialEq, Eq, Structural)]
pub struct Cell {
    /// Directions in which the wall is open.
    pub access: Access,
    /// Bookkeeping during generation; afterwards, marks the solution path.
    pub visited: bool,
    pub start: bool,
    pub end: bool,
}

impl Cell {
    pub open spec fn is_blank(self) -> bool {
        self.access.is_closed() && !self.visited && !self.start && !self.end
    }

    /// A cell with every wall closed and no flag set.
    pub fn blank() -> (r: Cell)
        ensures
            r.is_blank(),
    {
        Cell { access: Access::closed(), visited: false, start: false, end: false }
    }
}

/// Errors of maze construction and solving.
#[derive(Clone, Copy, Debug, PartialEq, Eq, Structural)]
pub enum MazeError {
    /// Width or height is zero.
    InvalidDimensions,
    /// The search ran out of nodes or steps before reaching the end.
    Unsolvable,
}

/// A rectangular grid of cells, stored row by row.
#[derive(Debug)]
pub struct Maze {
    width: usize,
    height: usize,
    cells: Vec<Cell>,
}

/// `p.y * width + p.x` lies in `0 .. width * height` for an in-bounds `p`.
pub proof fn lemma_index_in_range(width: nat, height: nat, p: Position)
    requires
        p.x < width,
        p.y < height,
    ensures
        0 <= p.y * width + p.x < width * height,
{
    assert(p.y * width + p.x < width * height) by (nonlinear_arith)
        requires
            p.x < width,
            p.y < height,
    {
        assert(p.y * width + width <= width * height) by (nonlinear_arith)
            requires p.y + 1 <= height, width >= 0;
    }
}

/// Distinct in-bounds positions have distinct row-major indices.
pub proof fn lemma_index_injective(width: nat, p: Position, q: Position)
    requires
        p.x < width,
        q.x < width,
        p != q,
    ensures
        p.y * width + p.x != q.y * width + q.x,
{
    if p.y < q.y {
        assert(p.y * width + width <= q.y * width) by (nonlinear_arith)
            requires p.y + 1 <= q.y, width >= 0;
    } else if q.y < p.y {
        assert(q.y * width + width <= p.y * width) by (nonlinear_arith)
            requires q.y + 1 <= p.y, width >= 0;
    }
}

/// Two cells of a `width` x `height` grid lie at most `width * height - 1` steps apart.
pub proof fn lemma_distance_bound(width: nat, height: nat, p: Position, q: Position)
    requires
        p.x < width,
        q.x < width,
        p.y < height,
        q.y < height,
    ensures
        manhattan(p, q) + 1 <= width * height,
{
    assert(width + height <= width * height + 1) by (nonlinear_arith)
        requires width >= 1, height >= 1;
}

/// Stepping back the opposite way returns to the same cell.
pub proof fn lemma_step_back(p: Position, d: Direction, width: nat, height: nat)
    requires
        step(p, d, width, height) is Some,
        width <= usize::MAX,
        height <= usize::MAX,
        p.x < width,
        p.y < height,
    ensures
        step(step(p, d, width, height).unwrap(), opposite(d), width, height) == Some(p),
        adjacent(p, step(p, d, width, height).unwrap()),
{
    match d {
        Direction::North => {
            let q = Position { x: p.x, y: (p.y - 1) as usize };
            assert(step(p, d, width, height) == Some(q));
        },
        Direction::South => {
            let q = Position { x: p.x, y: (p.y + 1) as usize };
            assert(step(p, d, width, height) == Some(q));
        },
        Direction::East => {
            let q = Position { x: (p.x + 1) as usize, y: p.y };
            assert(step(p, d, width, height) == Some(q));
        },
        Direction::West => {
            let q = Position { x: (p.x - 1) as usize, y: p.y };
            assert(step(p, d, width, height) == Some(q));
        },
    }
}

/// The indices of visited cells.
pub open spec fn visited_indices(cells: Seq<Cell>) -> Set<int> {
    Set::new(|i: int| 0 <= i < cells.len() && cells[i].visited)
}

/// Consecutive positions of `path` are joined through open walls of `maze`.
pub open spec fn open_path(maze: Maze, path: Seq<Position>) -> bool {
    forall|k: int| 0 <= k < path.len() - 1 ==> maze.connected(#[trigger] path[k], path[k + 1])
}

/// The cell flag that `find_flag` looks for.
pub open spec fn flag(c: Cell, want_end: bool) -> bool {
    if want_end { c.end } else { c.start }
}

impl Maze {
    pub closed spec fn width_spec(self) -> nat {
        self.width as nat
    }

    pub closed spec fn height_spec(self) -> nat {
        self.height as nat
    }

    pub closed spec fn cells_spec(self) -> Seq<Cell> {
        self.cells@
    }

    pub open spec fn wf(self) -> bool {
        &&& 1 <= self.width_spec() <= usize::MAX
        &&& 1 <= self.height_spec() <= usize::MAX
        &&& self.width_spec() * self.height_spec() <= usize::MAX
        &&& self.cells_spec().len() == self.width_spec() * self.height_spec()
    }

    pub open spec fn in_bounds(self, p: Position) -> bool {
        p.x < self.width_spec() && p.y < self.height_spec()
    }

    pub open spec fn index(self, p: Position) -> int {
        p.y * self.width_spec() + p.x
    }

    pub open spec fn cell(self, p: Position) -> Cell {
        self.cells_spec()[self.index(p)]
    }

    /// The wall of `p` is open toward `d`.
    pub open spec fn open(self, p: Position, d: Direction) -> bool {
        self.cell(p).access.has(d)
    }

    /// The neighbour of `p` in direction `d`, if inside the grid.
    pub open spec fn neighbor(self, p: Position, d: Direction) -> Option<Position> {
        step(p, d, self.width_spec(), self.height_spec())
    }

    /// `a` and `b` are neighbours joined through an open wall.
    pub open spec fn connected(self, a: Position, b: Position) -> bool {
        exists|d: Direction| self.neighbor(a, d) == Some(b) && #[trigger] self.open(a, d)
    }

    pub open spec fn is_start(self, p: Position) -> bool {
        self.in_bounds(p) && self.cell(p).start
    }

    pub open spec fn is_end(self, p: Position) -> bool {
        self.in_bounds(p) && self.cell(p).end
    }

    /// `s` is the one start cell.
    pub open spec fn unique_start(self, s: Position) -> bool {
        self.is_start(s) && forall|q: Position| #[trigger] self.is_start(q) ==> q == s
    }

    /// `e` is the one end cell.
    pub open spec fn unique_end(self, e: Position) -> bool {
        self.is_end(e) && forall|q: Position| #[trigger] self.is_end(q) ==> q == e
    }

    pub open spec fn has_unique_end(self) -> bool {
        exists|e: Position| self.unique_end(e)
    }

    /// The end cell, where there is exactly one.
    pub open spec fn end_pos(self) -> Position {
        choose|e: Position| self.unique_end(e)
    }

    /// Every open wall leads to a cell inside the grid whose facing wall is open too.
    pub open spec fn walls_symmetric(self) -> bool {
        forall|p: Position, d: Direction|
            self.in_bounds(p) && #[trigger] self.open(p, d) ==> {
                &&& self.neighbor(p, d).is_some()
                &&& self.open(self.neighbor(p, d).unwrap(), opposite(d))
            }
    }

    /// Same size and walls and flags, whatever the `visited` marks.
    pub open spec fn same_layout(self, other: Maze) -> bool {
        &&& self.width_spec() == other.width_spec()
        &&& self.height_spec() == other.height_spec()
        &&& self.cells_spec().len() == other.cells_spec().len()
        &&& forall|i: int| 0 <= i < self.cells_spec().len() ==> {
            &&& (#[trigger] self.cells_spec()[i]).access == other.cells_spec()[i].access
            &&& self.cells_spec()[i].start == other.cells_spec()[i].start
            &&& self.cells_spec()[i].end == other.cells_spec()[i].end
        }
    }

    /// Every cell closed and unmarked.
    pub open spec fn is_blank(self) -> bool {
        forall|i: int| 0 <= i < self.cells_spec().len() ==> (#[trigger] self.cells_spec()[i]).is_blank()
    }

    /// The in-grid positions.
    pub open spec fn grid_cells(self) -> Set<Position> {
        Set::new(|p: Position| self.in_bounds(p))
    }

    /// The open walls, each named once, from its west or north side.
    pub open spec fn open_walls(self) -> Set<(Position, Direction)> {
        Set::new(|w: (Position, Direction)| {
            &&& self.in_bounds(w.0)
            &&& (w.1 == Direction::East || w.1 == Direction::South)
            &&& self.open(w.0, w.1)
        })
    }

    /// The wall crossed by going from `p` toward `d`, named from its west or north side.
    pub open spec fn wall_name(self, p: Position, d: Direction) -> (Position, Direction) {
        if d == Direction::East || d == Direction::South {
            (p, d)
        } else {
            (self.neighbor(p, d).unwrap(), opposite(d))
        }
    }

    /// The position at row-major index `i`.
    pub open spec fn position_at(self, i: int) -> Position {
        Position { x: (i % self.width_spec() as int) as usize, y: (i / self.width_spec() as int) as usize }
    }

    /// `c` walks around a cycle: it returns to where it began after at least
    /// three steps through open walls, never stepping straight back.
    pub open spec fn is_cycle(self, c: Seq<Position>) -> bool {
        &&& c.len() >= 4
        &&& c[0] == c.last()
        &&& forall|i: int| 0 <= i < c.len() - 1 ==> self.in_bounds(#[trigger] c[i]) && self.connected(c[i], c[i + 1])
        &&& forall|i: int| 0 <= i < c.len() - 2 ==> #[trigger] c[i] != c[i + 2]
        &&& c[1] != c[c.len() - 2]
    }

    /// `depth` and `up` describe a spanning tree of the whole grid rooted at
    /// `root`: every other cell has an open wall `up` toward a neighbour one
    /// level closer to the root, and every open wall is such a tree edge, seen
    /// from one of its two ends.
    pub open spec fn tree_labelling(
        self,
        root: Position,
        depth: Map<Position, nat>,
        up: Map<Position, Option<Direction>>,
    ) -> bool {
        &&& up[root] is None
        &&& depth[root] == 0
        &&& forall|p: Position| #![trigger up[p]]
            self.in_bounds(p) && p != root ==> {
                &&& up[p] is Some
                &&& self.open(p, up[p].unwrap())
                &&& self.neighbor(p, up[p].unwrap()) is Some
                &&& depth[self.neighbor(p, up[p].unwrap()).unwrap()] + 1 == depth[p]
            }
        &&& forall|p: Position, d: Direction|
            self.in_bounds(p) && #[trigger] self.open(p, d) ==> {
                &&& self.neighbor(p, d) is Some
                &&& (up[p] == Some(d) || up[self.neighbor(p, d).unwrap()] == Some(opposite(d)))
            }
    }

    /// The open walls form a spanning tree of the grid rooted at `root`.
    pub open spec fn spanning_tree(self, root: Position) -> bool {
        exists|depth: Map<Position, nat>, up: Map<Position, Option<Direction>>|
            #[trigger] self.tree_labelling(root, depth, up)
    }

    /// What a finished generation guarantees: symmetric walls forming a
    /// spanning tree rooted at the one start cell, one end cell distinct from
    /// the start unless the grid has a single cell, and no visited mark.
    pub open spec fn perfect(self) -> bool {
        &&& self.wf()
        &&& self.walls_symmetric()
        &&& forall|p: Position| self.in_bounds(p) ==> !(#[trigger] self.cell(p)).visited
        &&& exists|s: Position| #[trigger] self.unique_start(s) && self.spanning_tree(s)
        &&& exists|e: Position| #[trigger] self.unique_end(e)
        &&& forall|s: Position, e: Position|
            self.unique_start(s) && self.unique_end(e) && self.width_spec() * self.height_spec() > 1
                ==> s != e
    }

    /// Unvisited cells are still closed and unmarked.
    pub open spec fn unvisited_blank(self) -> bool {
        forall|p: Position| self.in_bounds(p) && !(#[trigger] self.cell(p)).visited
            ==> self.cell(p).is_blank()
    }

    /// The tree grown so far covers the visited cells.
    pub open spec fn partial_tree(
        self,
        root: Position,
        depth: Map<Position, nat>,
        up: Map<Position, Option<Direction>>,
    ) -> bool {
        &&& up[root] is None
        &&& depth[root] == 0
        &&& forall|p: Position| #![trigger up[p]]
            self.in_bounds(p) && self.cell(p).visited && p != root ==> {
                &&& up[p] is Some
                &&& self.open(p, up[p].unwrap())
                &&& self.neighbor(p, up[p].unwrap()) is Some
                &&& depth[self.neighbor(p, up[p].unwrap()).unwrap()] + 1 == depth[p]
            }
        &&& forall|p: Position, d: Direction|
            self.in_bounds(p) && #[trigger] self.open(p, d) ==> {
                &&& self.neighbor(p, d) is Some
                &&& (up[p] == Some(d) || up[self.neighbor(p, d).unwrap()] == Some(opposite(d)))
            }
    }

    /// Every in-grid neighbour of `p` is visited.
    pub open spec fn surrounded(self, p: Position) -> bool {
        forall|d: Direction| #[trigger] self.neighbor(p, d) is Some
            ==> self.cell(self.neighbor(p, d).unwrap()).visited
    }

    /// Invariant of the carving walk.
    pub open spec fn carving(
        self,
        start: Position,
        stack: Seq<Position>,
        found_end: bool,
        depth: Map<Position, nat>,
        up: Map<Position, Option<Direction>>,
    ) -> bool {
        &&& self.wf()
        &&& self.walls_symmetric()
        &&& self.unvisited_blank()
        &&& self.in_bounds(start)
        &&& self.cell(start).visited
        &&& forall|p: Position| #[trigger] self.is_start(p) <==> p == start
        &&& self.partial_tree(start, depth, up)
        &&& forall|i: int| 0 <= i < stack.len() ==> self.in_bounds(#[trigger] stack[i])
            && self.cell(stack[i]).visited
        &&& forall|i: int, j: int| 0 <= i < j < stack.len() ==> stack[i] != stack[j]
        &&& forall|p: Position| self.in_bounds(p) && (#[trigger] self.cell(p)).visited
            && !stack.contains(p) ==> self.surrounded(p)
        &&& found_end ==> exists|e: Position| #[trigger] self.unique_end(e)
            && (self.width_spec() * self.height_spec() > 1 ==> e != start)
        &&& !found_end ==> {
            &&& forall|p: Position| !#[trigger] self.is_end(p)
            &&& stack.len() >= 1
            &&& stack[0] == start
            &&& stack.len() == 1 ==> forall|p: Position| self.in_bounds(p)
                && (#[trigger] self.cell(p)).visited ==> p == start
        }
        &&& visited_indices(self.cells_spec()).finite()
        &&& visited_indices(self.cells_spec()).len() <= self.cells_spec().len()
    }

    /// Mazes that differ only in `visited` marks have the same walls, start and end.
    pub proof fn lemma_same_layout(self, other: Maze)
        requires
            other.wf(),
            self.same_layout(other),
        ensures
            self.wf(),
            forall|p: Position, d: Direction| self.in_bounds(p) ==> #[trigger] self.open(p, d) == other.open(p, d),
            forall|p: Position| #[trigger] self.is_start(p) == other.is_start(p),
            forall|p: Position| #[trigger] self.is_end(p) == other.is_end(p),
            forall|a: Position, b: Position| self.in_bounds(a) ==> #[trigger] self.connected(a, b) == other.connected(a, b),
            forall|p: Position| self.in_bounds(p) ==> (#[trigger] self.exits(p)) == other.exits(p),
    {
        let w = self.width_spec();
        let h = self.height_spec();
        assert forall|p: Position| self.in_bounds(p) implies {
            &&& (#[trigger] self.cell(p)).access == other.cell(p).access
            &&& self.cell(p).start == other.cell(p).start
            &&& self.cell(p).end == other.cell(p).end
        } by {
            lemma_index_in_range(w, h, p);
        }
        assert forall|p: Position, d: Direction| self.in_bounds(p) implies #[trigger] self.open(p, d) == other.open(p, d) by {
            assert(self.cell(p).access == other.cell(p).access);
        }
        assert forall|p: Position| #[trigger] self.is_start(p) == other.is_start(p) by {
            if self.in_bounds(p) {
                assert(self.cell(p).start == other.cell(p).start);
            }
        }
        assert forall|p: Position| #[trigger] self.is_end(p) == other.is_end(p) by {
            if self.in_bounds(p) {
                assert(self.cell(p).end == other.cell(p).end);
            }
        }
        assert forall|a: Position, b: Position| self.in_bounds(a) implies #[trigger] self.connected(a, b) == other.connected(a, b) by {
            if self.connected(a, b) {
                let d = choose|d: Direction| self.neighbor(a, d) == Some(b) && #[trigger] self.open(a, d);
                assert(other.open(a, d));
            }
            if other.connected(a, b) {
                let d = choose|d: Direction| other.neighbor(a, d) == Some(b) && #[trigger] other.open(a, d);
                assert(self.open(a, d));
            }
        }
        assert forall|p: Position| self.in_bounds(p) implies (#[trigger] self.exits(p)) == other.exits(p) by {
            assert(self.open(p, Direction::North) == other.open(p, Direction::North));
            assert(self.open(p, Direction::South) == other.open(p, Direction::South));
            assert(self.open(p, Direction::East) == other.open(p, Direction::East));
            assert(self.open(p, Direction::West) == other.open(p, Direction::West));
        }
    }

    /// The cell at an in-grid position.
    fn get_cell(&self, p: Position) -> (r: Cell)
        requires
            self.wf(),
            self.in_bounds(p),
        ensures
            r == self.cell(p),
    {
        proof { lemma_index_in_range(self.width as nat, self.height as nat, p); }
        self.cells[p.y * self.width + p.x]
    }

    /// Replaces the cell at an in-grid position.
    fn set_cell(&mut self, p: Position, c: Cell)
        requires
            old(self).wf(),
            old(self).in_bounds(p),
        ensures
            final(self).wf(),
            final(self).width_spec() == old(self).width_spec(),
            final(self).height_spec() == old(self).height_spec(),
            final(self).cells_spec() == old(self).cells_spec().update(old(self).index(p), c),
            forall|q: Position| final(self).in_bounds(q) ==> #[trigger] final(self).cell(q)
                == (if q == p { c } else { old(self).cell(q) }),
    {
        proof { lemma_index_in_range(self.width as nat, self.height as nat, p); }
        self.cells.set(p.y * self.width + p.x, c);
        proof {
            assert forall|q: Position| self.in_bounds(q) implies #[trigger] self.cell(q)
                == (if q == p { c } else { old(self).cell(q) }) by {
                lemma_index_in_range(self.width as nat, self.height as nat, q);
                if q != p {
                    lemma_index_injective(self.width as nat, p, q);
                }
            }
        }
    }

    fn push_if_unvisited(&self, v: &mut Vec<(Position, Direction)>, p: Position, d: Direction)
        requires
            self.wf(),
            self.in_bounds(p),
        ensures
            self.neighbor(p, d) is Some && !self.cell(self.neighbor(p, d).unwrap()).visited
                ==> final(v)@ == old(v)@.push((self.neighbor(p, d).unwrap(), d)),
            !(self.neighbor(p, d) is Some && !self.cell(self.neighbor(p, d).unwrap()).visited)
                ==> final(v)@ == old(v)@,
    {
        match p.step(d, self.width, self.height) {
            Some(q) => {
                proof { lemma_step_back(p, d, self.width as nat, self.height as nat); }
                if !self.get_cell(q).visited {
                    v.push((q, d));
                }
            },
            None => {},
        }
    }

    /// The in-grid neighbours of `p` not yet visited, each with the direction
    /// leading to it.
    fn unvisited_neighbors(&self, p: Position) -> (r: Vec<(Position, Direction)>)
        requires
            self.wf(),
            self.in_bounds(p),
        ensures
            forall|i: int| 0 <= i < r@.len() ==> self.neighbor(p, (#[trigger] r@[i]).1) == Some(r@[i].0)
                && !self.cell(r@[i].0).visited,
            r@.len() == 0 <==> self.surrounded(p),
    {
        let mut v: Vec<(Position, Direction)> = Vec::new();
        self.push_if_unvisited(&mut v, p, Direction::North);
        self.push_if_unvisited(&mut v, p, Direction::South);
        self.push_if_unvisited(&mut v, p, Direction::East);
        self.push_if_unvisited(&mut v, p, Direction::West);
        proof {
            if v@.len() == 0 {
                assert forall|d: Direction| #[trigger] self.neighbor(p, d) is Some
                    implies self.cell(self.neighbor(p, d).unwrap()).visited by {
                    match d {
                        Direction::North => {},
                        Direction::South => {},
                        Direction::East => {},
                        Direction::West => {},
                    }
                }
            } else {
                let e = v@[0].1;
                assert(self.neighbor(p, e) is Some);
            }
        }
        v
    }

    proof fn lemma_fill_row(self, a: Position, x: usize)
        requires
            self.wf(),
            self.in_bounds(a),
            self.cell(a).visited,
            x < self.width_spec(),
            forall|p: Position| self.in_bounds(p) && (#[trigger] self.cell(p)).visited ==> self.surrounded(p),
        ensures
            self.cell(Position { x, y: a.y }).visited,
        decreases (if a.x <= x { x - a.x } else { a.x - x }),
    {
        if a.x < x {
            let b = self.neighbor(a, Direction::East).unwrap();
            assert(self.surrounded(a));
            assert(self.neighbor(a, Direction::East) is Some);
            self.lemma_fill_row(b, x);
        } else if a.x > x {
            let b = self.neighbor(a, Direction::West).unwrap();
            assert(self.surrounded(a));
            assert(self.neighbor(a, Direction::West) is Some);
            self.lemma_fill_row(b, x);
        } else {
            assert(Position { x, y: a.y } == a);
        }
    }

    proof fn lemma_fill_column(self, a: Position, y: usize)
        requires
            self.wf(),
            self.in_bounds(a),
            self.cell(a).visited,
            y < self.height_spec(),
            forall|p: Position| self.in_bounds(p) && (#[trigger] self.cell(p)).visited ==> self.surrounded(p),
        ensures
            self.cell(Position { x: a.x, y }).visited,
        decreases (if a.y <= y { y - a.y } else { a.y - y }),
    {
        if a.y < y {
            let b = self.neighbor(a, Direction::South).unwrap();
            assert(self.surrounded(a));
            assert(self.neighbor(a, Direction::South) is Some);
            self.lemma_fill_column(b, y);
        } else if a.y > y {
            let b = self.neighbor(a, Direction::North).unwrap();
            assert(self.surrounded(a));
            assert(self.neighbor(a, Direction::North) is Some);
            self.lemma_fill_column(b, y);
        } else {
            assert(Position { x: a.x, y } == a);
        }
    }

    /// When the visited cells are closed under taking a step, and one is
    /// visited, all are: the grid is connected.
    proof fn lemma_all_visited(self, s: Position)
        requires
            self.wf(),
            self.in_bounds(s),
            self.cell(s).visited,
            forall|p: Position| self.in_bounds(p) && (#[trigger] self.cell(p)).visited ==> self.surrounded(p),
        ensures
            forall|p: Position| self.in_bounds(p) ==> (#[trigger] self.cell(p)).visited,
    {
        assert forall|p: Position| self.in_bounds(p) implies (#[trigger] self.cell(p)).visited by {
            self.lemma_fill_row(s, p.x);
            self.lemma_fill_column(Position { x: p.x, y: s.y }, p.y);
            assert(Position { x: p.x, y: p.y } == p);
        }
    }

    /// A grid of more than one cell gives every cell a neighbour.
    proof fn lemma_has_neighbor(self, p: Position)
        requires
            self.wf(),
            self.in_bounds(p),
            self.width_spec() * self.height_spec() > 1,
        ensures
            exists|d: Direction| #[trigger] self.neighbor(p, d) is Some,
    {
        if self.width_spec() > 1 {
            if p.x + 1 < self.width_spec() {
                assert(self.neighbor(p, Direction::East) is Some);
            } else {
                assert(self.neighbor(p, Direction::West) is Some);
            }
        } else {
            assert(self.height_spec() > 1) by (nonlinear_arith)
                requires
                    self.width_spec() <= 1,
                    self.width_spec() * self.height_spec() > 1;
            if p.y + 1 < self.height_spec() {
                assert(self.neighbor(p, Direction::South) is Some);
            } else {
                assert(self.neighbor(p, Direction::North) is Some);
            }
        }
    }

    /// Carving from `cur` into its unvisited neighbour `next` keeps the
    /// carving invariant and visits one more cell.
    proof fn lemma_carve_step(
        self,
        m0: Maze,
        start: Position,
        stack: Seq<Position>,
        found_end: bool,
        depth: Map<Position, nat>,
        up: Map<Position, Option<Direction>>,
        cur: Position,
        next: Position,
        d: Direction,
        cc: Cell,
        nc: Cell,
    )
        requires
            m0.carving(start, stack, found_end, depth, up),
            stack.len() > 0,
            cur == stack.last(),
            m0.neighbor(cur, d) == Some(next),
            !m0.cell(next).visited,
            self.wf(),
            self.width_spec() == m0.width_spec(),
            self.height_spec() == m0.height_spec(),
            cc.visited == m0.cell(cur).visited,
            cc.start == m0.cell(cur).start,
            cc.end == m0.cell(cur).end,
            forall|e: Direction| #[trigger] cc.access.has(e) == (m0.open(cur, e) || e == d),
            nc.visited,
            !nc.start,
            !nc.end,
            forall|e: Direction| #[trigger] nc.access.has(e) == (m0.open(next, e) || e == opposite(d)),
            self.cells_spec() == m0.cells_spec().update(m0.index(cur), cc).update(m0.index(next), nc),
            forall|q: Position| self.in_bounds(q) ==> #[trigger] self.cell(q)
                == (if q == next { nc } else if q == cur { cc } else { m0.cell(q) }),
        ensures
            self.carving(
                start,
                stack.push(next),
                found_end,
                depth.insert(next, depth[cur] + 1),
                up.insert(next, Some(opposite(d))),
            ),
            visited_indices(self.cells_spec()).len() == visited_indices(m0.cells_spec()).len() + 1,
    {
        let w = m0.width_spec();
        let h = m0.height_spec();
        let depth2 = depth.insert(next, depth[cur] + 1);
        let up2 = up.insert(next, Some(opposite(d)));
        let st2 = stack.push(next);
        lemma_step_back(cur, d, w, h);
        assert(m0.in_bounds(cur));
        assert(m0.cell(cur).visited);
        assert(m0.cell(next).is_blank());
        assert(cur != next);
        assert(self.cell(cur) == cc);
        assert(self.cell(next) == nc);
        // No open wall of the old maze leads into `next`.
        assert forall|p: Position, e: Direction| m0.in_bounds(p) && #[trigger] m0.open(p, e)
            implies m0.neighbor(p, e).unwrap() != next && p != next by {
            if m0.neighbor(p, e).unwrap() == next {
                assert(m0.open(next, opposite(e)));
            }
        }
        assert forall|p: Position, e: Direction| self.in_bounds(p) && #[trigger] self.open(p, e)
            implies self.neighbor(p, e) is Some && self.open(self.neighbor(p, e).unwrap(), opposite(e))
                && (up2[p] == Some(e) || up2[self.neighbor(p, e).unwrap()] == Some(opposite(e))) by {
            if p == next {
                assert(e == opposite(d));
                assert(opposite(opposite(d)) == d);
            } else if p == cur && e == d {
            } else {
                assert(m0.open(p, e));
                let q = m0.neighbor(p, e).unwrap();
                lemma_step_back(p, e, w, h);
                assert(q != next);
                assert(m0.open(q, opposite(e)));
                assert(self.cell(q).access.has(opposite(e)));
            }
        }
        assert forall|p: Position| self.in_bounds(p) && !(#[trigger] self.cell(p)).visited
            implies self.cell(p).is_blank() by {
            assert(p != cur && p != next);
        }
        assert forall|p: Position| #[trigger] self.is_start(p) <==> p == start by {
            assert(m0.is_start(p) <==> p == start);
            if self.in_bounds(p) && p == next {
                assert(!m0.cell(next).visited);
            }
        }
        assert forall|p: Position| #![trigger up2[p]]
            self.in_bounds(p) && self.cell(p).visited && p != start implies {
                &&& up2[p] is Some
                &&& self.open(p, up2[p].unwrap())
                &&& self.neighbor(p, up2[p].unwrap()) is Some
                &&& depth2[self.neighbor(p, up2[p].unwrap()).unwrap()] + 1 == depth2[p]
            } by {
            if p == next {
                assert(self.neighbor(next, opposite(d)) == Some(cur));
            } else {
                assert(m0.cell(p).visited);
                assert(up[p] is Some);
                let u = up[p].unwrap();
                assert(m0.open(p, u));
                assert(self.cell(p).access.has(u));
            }
        }
        assert forall|i: int| 0 <= i < st2.len() implies self.in_bounds(#[trigger] st2[i])
            && self.cell(st2[i]).visited by {
            if i < stack.len() {
                assert(stack[i] == st2[i]);
                assert(m0.cell(stack[i]).visited);
            }
        }
        assert forall|i: int, j: int| 0 <= i < j < st2.len() implies st2[i] != st2[j] by {
            if j == stack.len() {
                assert(m0.cell(stack[i]).visited);
            } else {
                assert(stack[i] != stack[j]);
            }
        }
        assert forall|p: Position| self.in_bounds(p) && (#[trigger] self.cell(p)).visited
            && !st2.contains(p) implies self.surrounded(p) by {
            assert(p != next) by {
                assert(st2[stack.len() as int] == next);
            }
            if !stack.contains(p) {
                assert(m0.cell(p).visited);
                assert(m0.surrounded(p));
                assert forall|e: Direction| #[trigger] self.neighbor(p, e) is Some
                    implies self.cell(self.neighbor(p, e).unwrap()).visited by {
                    assert(m0.neighbor(p, e) is Some);
                }
            } else {
                let k = choose|k: int| 0 <= k < stack.len() && stack[k] == p;
                assert(st2[k] == p);
            }
        }
        assert forall|p: Position| #[trigger] self.is_end(p) <==> m0.is_end(p) by {}
        if found_end {
            let e = choose|e: Position| #[trigger] m0.unique_end(e)
                && (w * h > 1 ==> e != start);
            assert(self.unique_end(e));
        }
        let n = m0.cells_spec().len() as int;
        let vi0 = visited_indices(m0.cells_spec());
        let vi1 = visited_indices(self.cells_spec());
        lemma_index_in_range(w, h, cur);
        lemma_index_in_range(w, h, next);
        lemma_index_injective(w, cur, next);
        assert(vi1 =~= vi0.insert(m0.index(next)));
        assert(!vi0.contains(m0.index(next)));
        lemma_int_range(0, n);
        lemma_len_subset(vi1, set_int_range(0, n));
        assert(self.carving(start, st2, found_end, depth2, up2));
    }

    /// Backing out of a dead end keeps the carving invariant; the first dead
    /// end becomes the end cell.
    proof fn lemma_dead_end_step(
        self,
        m0: Maze,
        start: Position,
        stack: Seq<Position>,
        found_end: bool,
        depth: Map<Position, nat>,
        up: Map<Position, Option<Direction>>,
    )
        requires
            m0.carving(start, stack, found_end, depth, up),
            stack.len() > 0,
            m0.surrounded(stack.last()),
            self.wf(),
            self.width_spec() == m0.width_spec(),
            self.height_spec() == m0.height_spec(),
            found_end ==> self.cells_spec() == m0.cells_spec(),
            !found_end ==> self.cells_spec() == m0.cells_spec().update(
                m0.index(stack.last()),
                Cell { end: true, ..m0.cell(stack.last()) },
            ),
            forall|q: Position| self.in_bounds(q) ==> #[trigger] self.cell(q)
                == (if q == stack.last() && !found_end { Cell { end: true, ..m0.cell(q) } } else { m0.cell(q) }),
        ensures
            self.carving(start, stack.drop_last(), true, depth, up),
            visited_indices(self.cells_spec()) == visited_indices(m0.cells_spec()),
    {
        let w = m0.width_spec();
        let h = m0.height_spec();
        let cur = stack.last();
        let st2 = stack.drop_last();
        let n = m0.cells_spec().len() as int;
        lemma_index_in_range(w, h, cur);
        assert(visited_indices(self.cells_spec()) =~= visited_indices(m0.cells_spec()));
        assert forall|p: Position, e: Direction| self.in_bounds(p)
            implies #[trigger] self.open(p, e) == m0.open(p, e) by {}
        assert forall|p: Position| #[trigger] self.is_start(p) <==> p == start by {
            assert(m0.is_start(p) <==> p == start);
        }
        assert forall|i: int| 0 <= i < st2.len() implies self.in_bounds(#[trigger] st2[i])
            && self.cell(st2[i]).visited by {
            assert(stack[i] == st2[i]);
        }
        assert forall|p: Position| self.in_bounds(p) && (#[trigger] self.cell(p)).visited
            && !st2.contains(p) implies self.surrounded(p) by {
            if p == cur {
            } else {
                if stack.contains(p) {
                    let k = choose|k: int| 0 <= k < stack.len() && stack[k] == p;
                    assert(st2[k] == p);
                }
            }
            assert(m0.surrounded(p));
            assert forall|e: Direction| #[trigger] self.neighbor(p, e) is Some
                implies self.cell(self.neighbor(p, e).unwrap()).visited by {
                assert(m0.neighbor(p, e) is Some);
            }
        }
        if found_end {
            let e = choose|e: Position| #[trigger] m0.unique_end(e)
                && (w * h > 1 ==> e != start);
            assert forall|q: Position| #[trigger] self.is_end(q) <==> m0.is_end(q) by {}
            assert(self.unique_end(e));
        } else {
            assert forall|q: Position| #[trigger] self.is_end(q) implies q == cur by {
                assert(!m0.is_end(q));
            }
            assert(self.unique_end(cur));
            if w * h > 1 {
                if stack.len() == 1 {
                    assert(cur == start);
                    m0.lemma_has_neighbor(cur);
                    let d = choose|d: Direction| #[trigger] m0.neighbor(cur, d) is Some;
                    let q = m0.neighbor(cur, d).unwrap();
                    lemma_step_back(cur, d, w, h);
                    assert(m0.cell(q).visited);
                } else {
                    assert(stack[0] != stack[stack.len() - 1]);
                }
            }
        }
        assert(self.carving(start, st2, true, depth, up));
    }

    /// Clearing the visited marks of a fully carved maze yields a perfect maze.
    proof fn lemma_reset_keeps(
        self,
        m_full: Maze,
        start: Position,
        depth: Map<Position, nat>,
        up: Map<Position, Option<Direction>>,
    )
        requires
            m_full.carving(start, Seq::empty(), true, depth, up),
            forall|p: Position| m_full.in_bounds(p) ==> (#[trigger] m_full.cell(p)).visited,
            self.width_spec() == m_full.width_spec(),
            self.height_spec() == m_full.height_spec(),
            self.cells_spec().len() == m_full.cells_spec().len(),
            forall|j: int| 0 <= j < self.cells_spec().len() ==> {
                &&& (#[trigger] self.cells_spec()[j]).access == m_full.cells_spec()[j].access
                &&& self.cells_spec()[j].start == m_full.cells_spec()[j].start
                &&& self.cells_spec()[j].end == m_full.cells_spec()[j].end
            },
            forall|j: int| 0 <= j < self.cells_spec().len() ==> !(#[trigger] self.cells_spec()[j]).visited,
        ensures
            self.perfect(),
    {
        let w = m_full.width_spec();
        let h = m_full.height_spec();
        assert forall|p: Position| self.in_bounds(p) implies {
            &&& (#[trigger] self.cell(p)).access == m_full.cell(p).access
            &&& self.cell(p).start == m_full.cell(p).start
            &&& self.cell(p).end == m_full.cell(p).end
            &&& !self.cell(p).visited
        } by {
            lemma_index_in_range(w, h, p);
        }
        assert forall|p: Position| #[trigger] self.is_start(p) <==> m_full.is_start(p) by {}
        assert forall|p: Position| #[trigger] self.is_end(p) <==> m_full.is_end(p) by {}
        assert forall|p: Position, d: Direction| self.in_bounds(p)
            implies #[trigger] self.open(p, d) == m_full.open(p, d) by {
            assert(self.cell(p).access == m_full.cell(p).access);
        }
        assert(self.walls_symmetric()) by {
            assert forall|p: Position, d: Direction|
                self.in_bounds(p) && #[trigger] self.open(p, d) implies {
                    &&& self.neighbor(p, d).is_some()
                    &&& self.open(self.neighbor(p, d).unwrap(), opposite(d))
                } by {
                assert(m_full.open(p, d));
                lemma_step_back(p, d, w, h);
                assert(m_full.open(m_full.neighbor(p, d).unwrap(), opposite(d)));
            }
        }
        assert(self.tree_labelling(start, depth, up)) by {
            assert forall|p: Position| #![trigger up[p]]
                self.in_bounds(p) && p != start implies {
                    &&& up[p] is Some
                    &&& self.open(p, up[p].unwrap())
                    &&& self.neighbor(p, up[p].unwrap()) is Some
                    &&& depth[self.neighbor(p, up[p].unwrap()).unwrap()] + 1 == depth[p]
                } by {
                assert(m_full.cell(p).visited);
                assert(m_full.open(p, up[p].unwrap()));
            }
            assert forall|p: Position, d: Direction|
                self.in_bounds(p) && #[trigger] self.open(p, d) implies {
                    &&& self.neighbor(p, d) is Some
                    &&& (up[p] == Some(d) || up[self.neighbor(p, d).unwrap()] == Some(opposite(d)))
                } by {
                assert(m_full.open(p, d));
            }
        }
        assert(self.unique_start(start));
        assert(self.spanning_tree(start));
        let e = choose|e: Position| #[trigger] m_full.unique_end(e)
            && (w * h > 1 ==> e != start);
        assert(self.unique_end(e));
        assert forall|s: Position, e2: Position|
            self.unique_start(s) && self.unique_end(e2) && self.width_spec() * self.height_spec() > 1
                implies s != e2 by {
            assert(s == start);
            assert(e2 == e);
        }
    }

    /// A `width` x `height` maze carved from a random source seeded with `seed`.
    pub fn generate(width: usize, height: usize, seed: u64) -> (r: Result<Maze, MazeError>)
        requires
            width * height <= usize::MAX,
        ensures
            r is Err <==> (width == 0 || height == 0),
            r is Err ==> r == Err::<Maze, MazeError>(MazeError::InvalidDimensions),
            r matches Ok(m) ==> m.perfect() && m.width_spec() == width && m.height_spec() == height,
    {
        match Maze::new(width, height) {
            Ok(mut m) => {
                let mut rng = Rng::new(seed);
                m.make(&mut rng);
                Ok(m)
            },
            Err(e) => Err(e),
        }
    }

    /// In a generated maze every cell is reached from the start cell by a
    /// path through open walls.
    pub proof fn lemma_reachable_from_start(self, p: Position)
        requires
            self.perfect(),
            self.in_bounds(p),
        ensures
            exists|path: Seq<Position>| path.len() >= 1 && self.unique_start(path[0])
                && path.last() == p && open_path(self, path),
    {
        let s = choose|s: Position| #[trigger] self.unique_start(s) && self.spanning_tree(s);
        let (depth, up) = choose|depth: Map<Position, nat>, up: Map<Position, Option<Direction>>|
            #[trigger] self.tree_labelling(s, depth, up);
        let path = self.path_down(s, depth, up, p);
        assert(self.unique_start(path[0]));
    }

    /// The path from the root down to `p` along the tree's `up` links.
    pub proof fn path_down(
        self,
        root: Position,
        depth: Map<Position, nat>,
        up: Map<Position, Option<Direction>>,
        p: Position,
    ) -> (path: Seq<Position>)
        requires
            self.wf(),
            self.walls_symmetric(),
            self.in_bounds(root),
            self.tree_labelling(root, depth, up),
            self.in_bounds(p),
        ensures
            path.len() >= 1,
            path[0] == root,
            path.last() == p,
            open_path(self, path),
        decreases depth[p],
    {
        if p == root {
            seq![root]
        } else {
            assert(up[p] is Some);
            let d = up[p].unwrap();
            let q = self.neighbor(p, d).unwrap();
            lemma_step_back(p, d, self.width_spec(), self.height_spec());
            let prev = self.path_down(root, depth, up, q);
            let path = prev.push(p);
            assert(self.open(q, opposite(d)));
            assert(self.connected(q, p));
            assert forall|k: int| 0 <= k < path.len() - 1 implies self.connected(#[trigger] path[k], path[k + 1]) by {
                if k < prev.len() - 1 {
                    assert(path[k] == prev[k] && path[k + 1] == prev[k + 1]);
                    assert(self.connected(prev[k], prev[k + 1]));
                } else {
                    assert(path[k] == q);
                }
            }
            path
        }
    }

    /// The grid has `width * height` cells.
    pub proof fn lemma_grid_size(self)
        requires
            self.wf(),
        ensures
            self.grid_cells().finite(),
            self.grid_cells().len() == self.width_spec() * self.height_spec(),
    {
        let w = self.width_spec() as int;
        let h = self.height_spec() as int;
        let n = w * h;
        let range = set_int_range(0, n);
        let f = |i: int| self.position_at(i);
        lemma_int_range(0, n);
        assert forall|i: int| 0 <= i < n implies self.in_bounds(#[trigger] self.position_at(i))
            && self.index(self.position_at(i)) == i by {
            lemma_fundamental_div_mod(i, w);
            lemma_mod_pos_bound(i, w);
            let q = i / w;
            let r = i % w;
            assert(0 <= q < h) by (nonlinear_arith)
                requires
                    i == w * q + r,
                    0 <= r < w,
                    0 <= i < w * h;
            assert(q * w == w * q) by (nonlinear_arith);
        }
        assert(injective_on(f, range)) by {
            assert forall|i: int, j: int| range.contains(i) && range.contains(j) && #[trigger] f(i) == #[trigger] f(j)
                implies i == j by {
                assert(self.index(self.position_at(i)) == i);
                assert(self.index(self.position_at(j)) == j);
            }
        }
        assert(range.map(f) =~= self.grid_cells()) by {
            assert forall|p: Position| self.grid_cells().contains(p) implies range.map(f).contains(p) by {
                lemma_index_in_range(w as nat, h as nat, p);
                let i = self.index(p);
                lemma_fundamental_div_mod_converse(i, w, p.y as int, p.x as int);
                assert(f(i) == p);
                assert(range.contains(i));
            }
        }
        lemma_map_size(range, self.grid_cells(), f);
    }

    /// A generated maze has exactly `width * height - 1` open walls: each
    /// non-start cell owns the one wall its tree link crosses.
    pub proof fn lemma_open_wall_count(self)
        requires
            self.perfect(),
        ensures
            self.open_walls().finite(),
            self.open_walls().len() + 1 == self.width_spec() * self.height_spec(),
    {
        let root = choose|s: Position| #[trigger] self.unique_start(s) && self.spanning_tree(s);
        let (depth, up) = choose|depth: Map<Position, nat>, up: Map<Position, Option<Direction>>|
            #[trigger] self.tree_labelling(root, depth, up);
        self.lemma_grid_size();
        let others = self.grid_cells().remove(root);
        assert(self.grid_cells().contains(root));
        let g = |p: Position| self.wall_name(p, up[p].unwrap());
        // The owner of a named wall `(a, e)` is `a` or the cell beyond it.
        assert forall|p: Position| others.contains(p) implies {
            let (a, e) = #[trigger] g(p);
            &&& self.open_walls().contains((a, e))
            &&& self.neighbor(a, e) is Some
            &&& ((p == a && up[a] == Some(e))
                || (p == self.neighbor(a, e).unwrap() && up[p] == Some(opposite(e))))
        } by {
            let d = up[p].unwrap();
            lemma_step_back(p, d, self.width_spec(), self.height_spec());
            if !(d == Direction::East || d == Direction::South) {
                let q = self.neighbor(p, d).unwrap();
                assert(self.open(q, opposite(d)));
                assert(opposite(opposite(d)) == d);
                match d {
                    Direction::North => {},
                    Direction::West => {},
                    _ => {},
                }
            }
        }
        assert(injective_on(g, others)) by {
            assert forall|p1: Position, p2: Position| others.contains(p1) && others.contains(p2)
                && #[trigger] g(p1) == #[trigger] g(p2) implies p1 == p2 by {
                let (a, e) = g(p1);
                self.lemma_open_wall_owner(root, depth, up, a, e);
            }
        }
        assert(others.map(g) =~= self.open_walls()) by {
            assert forall|w: (Position, Direction)| self.open_walls().contains(w) implies others.map(g).contains(w) by {
                let (a, e) = w;
                let b = self.neighbor(a, e).unwrap();
                lemma_step_back(a, e, self.width_spec(), self.height_spec());
                if up[a] == Some(e) {
                    assert(a != root);
                    assert(others.contains(a));
                    assert(g(a) == w);
                } else {
                    assert(up[b] == Some(opposite(e)));
                    assert(b != root);
                    assert(others.contains(b));
                    assert(g(b) == w);
                }
            }
        }
        lemma_map_size(others, self.open_walls(), g);
    }

    /// Some element among the first `m` of `c` has the greatest depth.
    proof fn lemma_deepest(depth: Map<Position, nat>, c: Seq<Position>, m: int) -> (i: int)
        requires
            1 <= m <= c.len(),
        ensures
            0 <= i < m,
            forall|j: int| 0 <= j < m ==> depth[#[trigger] c[j]] <= depth[c[i]],
        decreases m,
    {
        if m == 1 {
            0
        } else {
            let k = Self::lemma_deepest(depth, c, m - 1);
            if depth[c[m - 1]] > depth[c[k]] { m - 1 } else { k }
        }
    }

    /// Walking from a cell of greatest depth through an open wall leads
    /// along its `up` link.
    proof fn lemma_step_from_deepest(
        self,
        root: Position,
        depth: Map<Position, nat>,
        up: Map<Position, Option<Direction>>,
        a: Position,
        b: Position,
        top: nat,
    )
        requires
            self.wf(),
            self.walls_symmetric(),
            self.tree_labelling(root, depth, up),
            self.in_bounds(a),
            self.in_bounds(b),
            depth[a] == top,
            depth[b] <= top,
            self.connected(a, b) || self.connected(b, a),
        ensures
            up[a] is Some,
            self.neighbor(a, up[a].unwrap()) == Some(b),
    {
        if self.connected(a, b) {
            let d = choose|d: Direction| self.neighbor(a, d) == Some(b) && #[trigger] self.open(a, d);
            lemma_step_back(a, d, self.width_spec(), self.height_spec());
            if up[b] == Some(opposite(d)) {
                assert(b != root);
                assert(depth[a] + 1 == depth[b]);
            }
        } else {
            let d = choose|d: Direction| self.neighbor(b, d) == Some(a) && #[trigger] self.open(b, d);
            lemma_step_back(b, d, self.width_spec(), self.height_spec());
            assert(opposite(opposite(d)) == d);
            if up[b] == Some(d) {
                assert(b != root);
                assert(depth[a] + 1 == depth[b]);
            }
            assert(up[a] == Some(opposite(d)));
        }
    }

    /// A generated maze has no cycle.
    pub proof fn lemma_no_cycle(self, c: Seq<Position>)
        requires
            self.perfect(),
        ensures
            !self.is_cycle(c),
    {
        if self.is_cycle(c) {
            let root = choose|s: Position| #[trigger] self.unique_start(s) && self.spanning_tree(s);
            let (depth, up) = choose|depth: Map<Position, nat>, up: Map<Position, Option<Direction>>|
                #[trigger] self.tree_labelling(root, depth, up);
            let n = c.len();
            let i = Self::lemma_deepest(depth, c, n - 1);
            let top = depth[c[i]];
            let (prev, next) = if i == 0 {
                (c[n - 2], c[1])
            } else if i == n - 2 {
                (c[n - 3], c[n - 1])
            } else {
                (c[i - 1], c[i + 1])
            };
            assert(prev != next) by {
                if i == n - 2 {
                    assert(c[n - 3] != c[n - 3 + 2]);
                } else if i > 0 {
                    assert(c[i - 1] != c[i - 1 + 2]);
                }
            }
            assert(self.in_bounds(c[n - 1]));
            if i == 0 {
                assert(self.connected(c[n - 2], c[n - 1]));
                assert(self.connected(c[0], c[1]));
                assert(depth[c[n - 2]] <= top);
                assert(depth[c[1]] <= top);
            } else if i == n - 2 {
                assert(self.connected(c[n - 3], c[n - 2]));
                assert(self.connected(c[n - 2], c[n - 1]));
                assert(depth[c[n - 3]] <= top);
                assert(depth[c[0]] <= top);
            } else {
                assert(self.connected(c[i - 1], c[i]));
                assert(self.connected(c[i], c[i + 1]));
                assert(depth[c[i - 1]] <= top);
                assert(depth[c[i + 1]] <= top);
            }
            self.lemma_step_from_deepest(root, depth, up, c[i], prev, top);
            self.lemma_step_from_deepest(root, depth, up, c[i], next, top);
        }
    }

    /// Each open wall of a spanning-tree labelling belongs to exactly one of
    /// its two cells: the one whose `up` link crosses it. Since every cell
    /// but the root has exactly one `up` link, the open walls pair off with
    /// the `width * height - 1` non-root cells.
    pub proof fn lemma_open_wall_owner(
        self,
        root: Position,
        depth: Map<Position, nat>,
        up: Map<Position, Option<Direction>>,
        p: Position,
        d: Direction,
    )
        requires
            self.wf(),
            self.tree_labelling(root, depth, up),
            self.in_bounds(p),
            self.open(p, d),
        ensures
            self.neighbor(p, d) is Some,
            (up[p] == Some(d)) != (up[self.neighbor(p, d).unwrap()] == Some(opposite(d))),
    {
        let q = self.neighbor(p, d).unwrap();
        lemma_step_back(p, d, self.width_spec(), self.height_spec());
        if up[p] == Some(d) && up[q] == Some(opposite(d)) {
            assert(p != root);
            assert(depth[q] + 1 == depth[p]);
            assert(q != root);
            assert(self.neighbor(q, opposite(d)) == Some(p));
            assert(depth[p] + 1 == depth[q]);
        }
    }

    /// In a generated maze, the wall between two adjacent cells is open from
    /// one side exactly when it is open from the other.
    pub proof fn lemma_wall_symmetry(self, a: Position, b: Position)
        requires
            self.perfect(),
            self.in_bounds(a),
            self.in_bounds(b),
            adjacent(a, b),
        ensures
            direction_to(a, b) is Some,
            direction_to(b, a) is Some,
            self.open(a, direction_to(a, b).unwrap()) <==> self.open(b, direction_to(b, a).unwrap()),
    {
        let d = direction_to(a, b).unwrap();
        assert(direction_to(b, a) == Some(opposite(d)));
        assert(self.neighbor(a, d) == Some(b));
        assert(self.neighbor(b, opposite(d)) == Some(a));
        assert(opposite(opposite(d)) == d);
        if self.open(a, d) {
            assert(self.open(b, opposite(d)));
        }
        if self.open(b, opposite(d)) {
            assert(self.open(a, opposite(opposite(d))));
        }
    }

    /// Carves the walls of a blank maze by a randomized depth-first walk from
    /// a random start cell; the first dead end reached becomes the end cell.
    pub fn make(&mut self, rng: &mut Rng)
        requires
            old(self).wf(),
            old(self).is_blank(),
        ensures
            final(self).perfect(),
            final(self).width_spec() == old(self).width_spec(),
            final(self).height_spec() == old(self).height_spec(),
    {
        let sx = rng.below(self.width);
        let sy = rng.below(self.height);
        let start = Position { x: sx, y: sy };
        let ghost m_blank = *self;
        self.set_cell(start, Cell { access: Access::closed(), visited: true, start: true, end: false });
        let ghost mut depth: Map<Position, nat> = Map::new(|p: Position| true, |p: Position| 0nat);
        let ghost mut up: Map<Position, Option<Direction>> = Map::new(|p: Position| true, |p: Position| None);
        let mut stack: Vec<Position> = Vec::new();
        stack.push(start);
        let mut found_end = false;
        proof {
            lemma_index_in_range(self.width as nat, self.height as nat, start);
            assert forall|p: Position| self.in_bounds(p) && !(#[trigger] self.cell(p)).visited
                implies self.cell(p).is_blank() by {
                lemma_index_in_range(self.width as nat, self.height as nat, p);
            }
            assert forall|p: Position| #[trigger] self.is_start(p) <==> p == start by {
                if self.in_bounds(p) {
                    lemma_index_in_range(self.width as nat, self.height as nat, p);
                }
            }
            assert forall|p: Position| !#[trigger] self.is_end(p) by {
                if self.in_bounds(p) {
                    lemma_index_in_range(self.width as nat, self.height as nat, p);
                }
            }
            assert forall|p: Position, d: Direction| self.in_bounds(p) && #[trigger] self.open(p, d)
                implies false by {
                lemma_index_in_range(self.width as nat, self.height as nat, p);
            }
            assert forall|p: Position| self.in_bounds(p) && (#[trigger] self.cell(p)).visited
                implies p == start by {
                lemma_index_in_range(self.width as nat, self.height as nat, p);
            }
            let n = self.cells@.len() as int;
            assert(visited_indices(self.cells@) =~= set![self.index(start)]) by {
                assert forall|i: int| 0 <= i < n && m_blank.cells@[i] == self.cells@[i]
                    implies !self.cells@[i].visited by {}
            }
            assert(self.cells@.len() >= 1) by (nonlinear_arith)
                requires
                    self.cells@.len() == self.width_spec() * self.height_spec(),
                    self.width_spec() >= 1,
                    self.height_spec() >= 1;
            assert(set![self.index(start)].len() == 1);
            assert(stack@[0] == start);
            assert(stack@.contains(start));
            assert(self.partial_tree(start, depth, up));
            assert(self.walls_symmetric());
            assert(self.unvisited_blank());
            assert(self.carving(start, stack@, found_end, depth, up));
        }
        while stack.len() > 0
            invariant
                self.carving(start, stack@, found_end, depth, up),
                self.width_spec() == m_blank.width_spec(),
                self.height_spec() == m_blank.height_spec(),
            decreases
                2 * (self.cells_spec().len() - visited_indices(self.cells_spec()).len()) + stack@.len(),
        {
            let cur = stack[stack.len() - 1];
            let cands = self.unvisited_neighbors(cur);
            if cands.len() > 0 {
                let k = rng.below(cands.len());
                let (next, d) = cands[k];
                let ghost m0 = *self;
                proof {
                    lemma_step_back(cur, d, self.width as nat, self.height as nat);
                    lemma_index_in_range(self.width as nat, self.height as nat, next);
                    lemma_index_in_range(self.width as nat, self.height as nat, cur);
                    lemma_index_injective(self.width as nat, cur, next);
                }
                let mut cc = self.get_cell(cur);
                cc.access.insert(d);
                self.set_cell(cur, cc);
                let mut nc = self.get_cell(next);
                nc.access.insert(d.opposite());
                nc.visited = true;
                self.set_cell(next, nc);
                let ghost old_stack = stack@;
                stack.push(next);
                proof {
                    self.lemma_carve_step(m0, start, old_stack, found_end, depth, up, cur, next, d, cc, nc);
                    depth = depth.insert(next, depth[cur] + 1);
                    up = up.insert(next, Some(opposite(d)));
                }
            } else {
                let ghost m0 = *self;
                let ghost was_found = found_end;
                if !found_end {
                    let mut cc = self.get_cell(cur);
                    cc.end = true;
                    self.set_cell(cur, cc);
                    found_end = true;
                }
                let ghost old_stack = stack@;
                stack.pop();
                proof {
                    self.lemma_dead_end_step(m0, start, old_stack, was_found, depth, up);
                }
            }
        }
        proof {
            self.lemma_all_visited(start);
        }
        let ghost m_full = *self;
        let n = self.cells.len();
        let mut i: usize = 0;
        while i < n
            invariant
                n == self.cells@.len(),
                i <= n,
                self.width == m_full.width,
                self.height == m_full.height,
                self.cells@.len() == m_full.cells@.len(),
                forall|j: int| 0 <= j < n ==> {
                    &&& (#[trigger] self.cells@[j]).access == m_full.cells@[j].access
                    &&& self.cells@[j].start == m_full.cells@[j].start
                    &&& self.cells@[j].end == m_full.cells@[j].end
                },
                forall|j: int| 0 <= j < i ==> !(#[trigger] self.cells@[j]).visited,
            decreases n - i,
        {
            let mut c = self.cells[i];
            c.visited = false;
            self.cells.set(i, c);
            i = i + 1;
        }
        proof {
            self.lemma_reset_keeps(m_full, start, depth, up);
        }
    }

    pub fn width(&self) -> (r: usize)
        ensures
            r == self.width_spec(),
    {
        self.width
    }

    pub fn height(&self) -> (r: usize)
        ensures
            r == self.height_spec(),
    {
        self.height
    }

    /// A `width` x `height` maze with every wall closed.
    pub fn new(width: usize, height: usize) -> (r: Result<Maze, MazeError>)
        requires
            width * height <= usize::MAX,
        ensures
            r is Err <==> (width == 0 || height == 0),
            r is Err ==> r == Err::<Maze, MazeError>(MazeError::InvalidDimensions),
            r matches Ok(m) ==> m.wf() && m.is_blank() && m.width_spec() == width
                && m.height_spec() == height,
    {
        if width == 0 || height == 0 {
            return Err(MazeError::InvalidDimensions);
        }
        let n: usize = width * height;
        let mut cells: Vec<Cell> = Vec::new();
        let mut i: usize = 0;
        while i < n
            invariant
                i <= n,
                cells@.len() == i,
                forall|j: int| 0 <= j < i ==> (#[trigger] cells@[j]).is_blank(),
            decreases n - i,
        {
            cells.push(Cell::blank());
            i = i + 1;
        }
        Ok(Maze { width, height, cells })
    }

    /// The neighbours of `p` reached through an open wall, in the order
    /// north, south, east, west.
    pub open spec fn open_neighbors_spec(self, p: Position) -> Seq<Position> {
        self.open_piece(p, Direction::North) + self.open_piece(p, Direction::South)
            + self.open_piece(p, Direction::East) + self.open_piece(p, Direction::West)
    }

    /// The open-wall neighbours of `p`; none outside the grid.
    pub open spec fn exits(self, p: Position) -> Seq<Position> {
        if self.in_bounds(p) { self.open_neighbors_spec(p) } else { Seq::empty() }
    }

    /// Each exit of `p` is an in-grid cell joined to `p` through an open wall.
    pub proof fn lemma_exits(self, p: Position)
        requires
            self.wf(),
        ensures
            forall|k: int| 0 <= k < self.exits(p).len() ==> self.in_bounds(#[trigger] self.exits(p)[k])
                && self.connected(p, self.exits(p)[k]),
    {
        if self.in_bounds(p) {
            let s = self.exits(p);
            assert forall|k: int| 0 <= k < s.len() implies self.in_bounds(#[trigger] s[k])
                && self.connected(p, s[k]) by {
                let n = self.open_piece(p, Direction::North);
                let so = self.open_piece(p, Direction::South);
                let e = self.open_piece(p, Direction::East);
                let w = self.open_piece(p, Direction::West);
                let d = if k < n.len() {
                    Direction::North
                } else if k < n.len() + so.len() {
                    Direction::South
                } else if k < n.len() + so.len() + e.len() {
                    Direction::East
                } else {
                    Direction::West
                };
                assert(s[k] == self.neighbor(p, d).unwrap());
                assert(self.open(p, d));
            }
        }
    }

    /// A cell joined to `a` through an open wall is one of its exits.
    pub proof fn lemma_connected_exit(self, a: Position, b: Position)
        requires
            self.wf(),
            self.in_bounds(a),
            self.connected(a, b),
        ensures
            self.exits(a).contains(b),
    {
        let d = choose|d: Direction| self.neighbor(a, d) == Some(b) && #[trigger] self.open(a, d);
        let n = self.open_piece(a, Direction::North);
        let so = self.open_piece(a, Direction::South);
        let e = self.open_piece(a, Direction::East);
        let ex = self.exits(a);
        match d {
            Direction::North => {
                assert(ex[0] == b);
            },
            Direction::South => {
                assert(ex[n.len() as int] == b);
            },
            Direction::East => {
                assert(ex[(n.len() + so.len()) as int] == b);
            },
            Direction::West => {
                assert(ex[(n.len() + so.len() + e.len()) as int] == b);
            },
        }
    }

    pub open spec fn open_piece(self, p: Position, d: Direction) -> Seq<Position> {
        if self.open(p, d) && self.neighbor(p, d).is_some() {
            seq![self.neighbor(p, d).unwrap()]
        } else {
            Seq::empty()
        }
    }

    fn push_if_open(&self, v: &mut Vec<Position>, p: Position, d: Direction)
        requires
            self.wf(),
            self.in_bounds(p),
        ensures
            final(v)@ == old(v)@ + self.open_piece(p, d),
    {
        let c = self.get_node_from_position(p);
        match c {
            Some(cell) => {
                if cell.access.contains(&d) {
                    match p.step(d, self.width, self.height) {
                        Some(q) => v.push(q),
                        None => {},
                    }
                }
            },
            None => {},
        }
        proof {
            assert(v@ =~= old(v)@ + self.open_piece(p, d));
        }
    }

    /// The neighbours of `p` reached through an open wall (empty outside the grid).
    pub fn open_neighbors(&self, p: Position) -> (r: Vec<Position>)
        requires
            self.wf(),
        ensures
            r@ == self.exits(p),
    {
        let mut v: Vec<Position> = Vec::new();
        if p.x < self.width && p.y < self.height {
            self.push_if_open(&mut v, p, Direction::North);
            self.push_if_open(&mut v, p, Direction::South);
            self.push_if_open(&mut v, p, Direction::East);
            self.push_if_open(&mut v, p, Direction::West);
            proof {
                assert(v@ =~= self.open_neighbors_spec(p));
            }
        }
        proof {
            assert(v@ =~= self.exits(p));
        }
        v
    }

    /// The first cell, in row order, whose start (or end) flag is set.
    fn find_flag(&self, want_end: bool) -> (r: Option<Position>)
        requires
            self.wf(),
        ensures
            r matches Some(p) ==> self.in_bounds(p) && flag(self.cell(p), want_end),
            r is None ==> forall|q: Position| self.in_bounds(q) ==> !flag(#[trigger] self.cell(q), want_end),
    {
        let mut y: usize = 0;
        while y < self.height
            invariant
                self.wf(),
                y <= self.height,
                forall|q: Position| self.in_bounds(q) && q.y < y ==> !flag(#[trigger] self.cell(q), want_end),
            decreases self.height - y,
        {
            let mut x: usize = 0;
            while x < self.width
                invariant
                    self.wf(),
                    y < self.height,
                    x <= self.width,
                    forall|q: Position| self.in_bounds(q) && (q.y < y || (q.y == y && q.x < x))
                        ==> !flag(#[trigger] self.cell(q), want_end),
                decreases self.width - x,
            {
                let p = Position { x, y };
                proof { lemma_index_in_range(self.width as nat, self.height as nat, p); }
                let c = self.cells[y * self.width + x];
                if (want_end && c.end) || (!want_end && c.start) {
                    return Some(p);
                }
                x = x + 1;
            }
            y = y + 1;
        }
        None
    }

    /// A cell marked as start, if any.
    pub fn find_start(&self) -> (r: Option<Position>)
        requires
            self.wf(),
        ensures
            r matches Some(p) ==> self.is_start(p),
            r is None <==> forall|q: Position| !#[trigger] self.is_start(q),
    {
        let r = self.find_flag(false);
        proof {
            if r is Some {
                assert(self.is_start(r.unwrap()));
            }
        }
        r
    }

    /// A cell marked as end, if any.
    pub fn find_end(&self) -> (r: Option<Position>)
        requires
            self.wf(),
        ensures
            r matches Some(p) ==> self.is_end(p),
            r is None <==> forall|q: Position| !#[trigger] self.is_end(q),
            self.has_unique_end() ==> r == Some(self.end_pos()),
    {
        let r = self.find_flag(true);
        proof {
            if self.has_unique_end() {
                let e = self.end_pos();
                assert(self.unique_end(e));
                assert(r is Some);
            }
            if r is Some {
                assert(self.is_end(r.unwrap()));
            }
        }
        r
    }

    /// Manhattan distance from `p` to the end cell; `None` outside the grid or
    /// when no cell is marked as end.
    pub fn get_distance(&self, p: Position) -> (r: Option<usize>)
        requires
            self.wf(),
        ensures
            r is Some <==> self.in_bounds(p) && exists|e: Position| self.is_end(e),
            r matches Some(d) ==> exists|e: Position| self.is_end(e) && d == manhattan(p, e),
            self.has_unique_end() && self.in_bounds(p) ==> r == Some(manhattan(p, self.end_pos()) as usize),
    {
        if p.x >= self.width || p.y >= self.height {
            return None;
        }
        match self.find_end() {
            Some(e) => {
                proof { lemma_distance_bound(self.width as nat, self.height as nat, p, e); }
                Some(p.distance(&e))
            },
            None => None,
        }
    }

    /// The cell at `p`, or `None` outside the grid.
    pub fn get_node_from_position(&self, p: Position) -> (r: Option<Cell>)
        requires
            self.wf(),
        ensures
            r == (if self.in_bounds(p) { Some(self.cell(p)) } else { None::<Cell> }),
    {
        if p.x < self.width && p.y < self.height {
            proof { lemma_index_in_range(self.width as nat, self.height as nat, p); }
            Some(self.cells[p.y * self.width + p.x])
        } else {
            None
        }
    }

    /// Marks the cell at `p` visited; nothing happens outside the grid.
    pub fn mark_position_visited(&mut self, p: Position)
        requires
            old(self).wf(),
        ensures
            final(self).wf(),
            final(self).same_layout(*old(self)),
            forall|q: Position| final(self).in_bounds(q) ==>
                (#[trigger] final(self).cell(q)).visited == (old(self).cell(q).visited || q == p),
    {
        if p.x < self.width && p.y < self.height {
            proof { lemma_index_in_range(self.width as nat, self.height as nat, p); }
            let i: usize = p.y * self.width + p.x;
            let mut c = self.cells[i];
            c.visited = true;
            self.cells.set(i, c);
            proof {
                assert forall|q: Position| self.in_bounds(q) implies
                    (#[trigger] self.cell(q)).visited == (old(self).cell(q).visited || q == p) by {
                    lemma_index_in_range(self.width as nat, self.height as nat, q);
                    if q != p {
                        lemma_index_injective(self.width as nat, p, q);
                    }
                }
            }
        } else {
            proof {
                assert forall|q: Position| self.in_bounds(q) implies
                    (#[trigger] self.cell(q)).visited == (old(self).cell(q).visited || q == p) by {}
            }
        }
    }
}

} // verus!
