use vstd::prelude::*;

verus! {

/// A cell coordinate, 0-based, `x` along the width and `y` along the height.
#[derive(Clone, Copy, Debug, PartialEq, Eq, Structural)]
pub struct Position {
    pub x: usize,
    pub y: usize,
}

/// One of the four axis-aligned directions. North decreases `y`, east increases `x`.
#[derive(Clone, Copy, Debug, PartialEq, Eq, Structural)]
pub enum Direction {
    North,
    South,
    East,
    West,
}

/// The direction pointing back the other way.
pub open spec fn opposite(d: Direction) -> Direction {
    match d {
        Direction::North => Direction::South,
        Direction::South => Direction::North,
        Direction::East => Direction::West,
        Direction::West => Direction::East,
    }
}

/// The direction from `a` toward `b`, looking at the vertical axis first;
/// `None` when the two positions are equal.
pub open spec fn direction_to(a: Position, b: Position) -> Option<Direction> {
    if b.y < a.y {
        Some(Direction::North)
    } else if b.y > a.y {
        Some(Direction::South)
    } else if b.x > a.x {
        Some(Direction::East)
    } else if b.x < a.x {
        Some(Direction::West)
    } else {
        None
    }
}

/// The two positions differ by one step along exactly one axis.
pub open spec fn adjacent(a: Position, b: Position) -> bool {
    (a.x == b.x && (a.y + 1 == b.y || b.y + 1 == a.y))
    || (a.y == b.y && (a.x + 1 == b.x || b.x + 1 == a.x))
}

/// Manhattan distance between two positions.
pub open spec fn manhattan(a: Position, b: Position) -> nat {
    (if a.x >= b.x { a.x - b.x } else { b.x - a.x }) as nat
    + (if a.y >= b.y { a.y - b.y } else { b.y - a.y }) as nat
}

/// The position one step from `p` in direction `d`, when that step stays
/// inside a `width` x `height` grid.
pub open spec fn step(p: Position, d: Direction, width: nat, height: nat) -> Option<Position> {
    match d {
        Direction::North => if p.y > 0 { Some(Position { x: p.x, y: (p.y - 1) as usize }) } else { None },
        Direction::South => if p.y + 1 < height { Some(Position { x: p.x, y: (p.y + 1) as usize }) } else { None },
        Direction::East => if p.x + 1 < width { Some(Position { x: (p.x + 1) as usize, y: p.y }) } else { None },
        Direction::West => if p.x > 0 { Some(Position { x: (p.x - 1) as usize, y: p.y }) } else { None },
    }
}

impl Direction {
    pub fn opposite(&self) -> (r: Direction)
        ensures
            r == opposite(*self),
    {
        match self {
            Direction::North => Direction::South,
            Direction::South => Direction::North,
            Direction::East => Direction::West,
            Direction::West => Direction::East,
        }
    }
}

impl Position {
    /// Direction from `self` toward `other`; `None` when they are equal.
    pub fn get_direction(&self, other: &Position) -> (r: Option<Direction>)
        ensures
            r == direction_to(*self, *other),
    {
        if other.y < self.y {
            Some(Direction::North)
        } else if other.y > self.y {
            Some(Direction::South)
        } else if other.x > self.x {
            Some(Direction::East)
        } else if other.x < self.x {
            Some(Direction::West)
        } else {
            None
        }
    }

    /// Manhattan distance to `other`.
    pub fn distance(&self, other: &Position) -> (r: usize)
        requires
            manhattan(*self, *other) <= usize::MAX,
        ensures
            r == manhattan(*self, *other),
    {
        let dx = if self.x >= other.x { self.x - other.x } else { other.x - self.x };
        let dy = if self.y >= other.y { self.y - other.y } else { other.y - self.y };
        dx + dy
    }

    /// The neighbouring position in direction `d`, if it lies inside a
    /// `width` x `height` grid.
    pub fn step(&self, d: Direction, width: usize, height: usize) -> (r: Option<Position>)
        ensures
            r == step(*self, d, width as nat, height as nat),
    {
        match d {
            Direction::North => if self.y > 0 { Some(Position { x: self.x, y: self.y - 1 }) } else { None },
            Direction::South => if self.y < height && self.y + 1 < height { Some(Position { x: self.x, y: self.y + 1 }) } else { None },
            Direction::East => if self.x < width && self.x + 1 < width { Some(Position { x: self.x + 1, y: self.y }) } else { None },
            Direction::West => if self.x > 0 { Some(Position { x: self.x - 1, y: self.y }) } else { None },
        }
    }
}

} // verus!
