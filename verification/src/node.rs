//! Coordinate and cost model: grid positions, compass directions with their
//! per-step costs, the (g, h) cost pair, and search nodes.

use vstd::prelude::*;
use crate::MAX_DIM;

verus! {

/// Cardinal steps cost 10, diagonal steps cost 14 (the 1 : sqrt 2 ratio
/// scaled to integers).
pub const CARDINAL_COST: usize = 10;
pub const DIAGONAL_COST: usize = 14;

/// Upper bound on any heuristic value the search stores: both squared
/// coordinate differences are below `MAX_DIM`.
pub const H_LIMIT: usize = 2 * 4095 * 4095;

/// An integer grid coordinate. Equality and hashing are by value.
#[derive(Clone, Copy, PartialEq, Eq, Structural, Hash, Debug)]
pub struct Position {
    pub x: usize,
    pub y: usize,
}

/// Squared Euclidean distance between two positions. This is the search's
/// heuristic: it preserves the ordering of estimates without being a true
/// distance.
pub open spec fn spec_h_cost(a: Position, b: Position) -> int {
    (a.x - b.x) * (a.x - b.x) + (a.y - b.y) * (a.y - b.y)
}

impl Position {
    pub fn new(x: usize, y: usize) -> (r: Self)
        ensures
            r.x == x,
            r.y == y,
    {
        Self { x, y }
    }

    /// Heuristic estimate of the remaining cost from `self` to `another`:
    /// the squared Euclidean distance.
    pub fn h_cost(&self, another: &Self) -> (r: usize)
        requires
            self.x <= 32768,
            self.y <= 32768,
            another.x <= 32768,
            another.y <= 32768,
        ensures
            r == spec_h_cost(*self, *another),
            r <= 2 * 32768 * 32768,
    {
        let dx: usize = if self.x >= another.x {
            self.x - another.x
        } else {
            another.x - self.x
        };
        let dy: usize = if self.y >= another.y {
            self.y - another.y
        } else {
            another.y - self.y
        };
        proof {
            assert(dx * dx <= 32768 * 32768 && dx * dx == (self.x - another.x) * (self.x
                - another.x)) by (nonlinear_arith)
                requires
                    dx <= 32768,
                    dx == self.x - another.x || dx == another.x - self.x,
            ;
            assert(dy * dy <= 32768 * 32768 && dy * dy == (self.y - another.y) * (self.y
                - another.y)) by (nonlinear_arith)
                requires
                    dy <= 32768,
                    dy == self.y - another.y || dy == another.y - self.y,
            ;
        }
        dx * dx + dy * dy
    }
}

/// True when `num` is even, despite the name: the cardinal directions sit at
/// even positions in the compass order, and this parity test selects them.
pub fn is_odd(num: usize) -> (r: bool)
    ensures
        r == (num % 2 == 0),
{
    num % 2 == 0
}

/// The eight compass directions, in the order the search scans them.
/// Even positions in this order are the cardinal directions.
#[derive(Clone, Copy, PartialEq, Eq, Structural, Hash, Debug)]
pub enum Direction {
    North,
    NorthEast,
    East,
    SouthEast,
    South,
    SouthWest,
    West,
    NorthWest,
}

impl Direction {
    /// The (dx, dy) step this direction takes on the grid.
    pub open spec fn spec_offset(self) -> (int, int) {
        match self {
            Direction::North => (0, -1),
            Direction::NorthEast => (1, -1),
            Direction::East => (1, 0),
            Direction::SouthEast => (1, 1),
            Direction::South => (0, 1),
            Direction::SouthWest => (-1, 1),
            Direction::West => (-1, 0),
            Direction::NorthWest => (-1, -1),
        }
    }

    /// The coordinate one step in this direction from (x, y).
    pub fn get_coordinate(&self, x: isize, y: isize) -> (r: (isize, isize))
        requires
            -1000000 <= x <= 1000000,
            -1000000 <= y <= 1000000,
        ensures
            r.0 == x + self.spec_offset().0,
            r.1 == y + self.spec_offset().1,
    {
        match self {
            Direction::North => (x, y - 1),
            Direction::NorthEast => (x + 1, y - 1),
            Direction::East => (x + 1, y),
            Direction::SouthEast => (x + 1, y + 1),
            Direction::South => (x, y + 1),
            Direction::SouthWest => (x - 1, y + 1),
            Direction::West => (x - 1, y),
            Direction::NorthWest => (x - 1, y - 1),
        }
    }

    /// Accumulated-cost contribution of one step in this direction.
    pub open spec fn spec_g_cost(self) -> int {
        match self {
            Direction::North | Direction::East | Direction::South | Direction::West => 10,
            Direction::SouthEast | Direction::SouthWest | Direction::NorthEast
                | Direction::NorthWest => 14,
        }
    }

    pub fn g_cost(&self) -> (r: usize)
        ensures
            r == self.spec_g_cost(),
            r == CARDINAL_COST || r == DIAGONAL_COST,
    {
        match self {
            Direction::North | Direction::East | Direction::South | Direction::West => {
                CARDINAL_COST
            },
            Direction::SouthEast | Direction::SouthWest | Direction::NorthEast
                | Direction::NorthWest => DIAGONAL_COST,
        }
    }
}

/// The directions the search tries on each expansion, in scan order: the four
/// cardinal directions, interleaved with the four diagonal directions when
/// diagonal movement is enabled.
pub open spec fn spec_directions(diagonal: bool) -> Seq<Direction> {
    if diagonal {
        seq![
            Direction::North,
            Direction::NorthEast,
            Direction::East,
            Direction::SouthEast,
            Direction::South,
            Direction::SouthWest,
            Direction::West,
            Direction::NorthWest,
        ]
    } else {
        seq![Direction::North, Direction::East, Direction::South, Direction::West]
    }
}

pub fn directions(diagonal: bool) -> (v: Vec<Direction>)
    ensures
        v@ == spec_directions(diagonal),
{
    let mut v: Vec<Direction> = Vec::new();
    v.push(Direction::North);
    if diagonal {
        v.push(Direction::NorthEast);
    }
    v.push(Direction::East);
    if diagonal {
        v.push(Direction::SouthEast);
    }
    v.push(Direction::South);
    if diagonal {
        v.push(Direction::SouthWest);
    }
    v.push(Direction::West);
    if diagonal {
        v.push(Direction::NorthWest);
    }
    proof {
        assert(v@ =~= spec_directions(diagonal));
    }
    v
}

/// The cost pair of a node: `g_cost` is the accumulated path cost from the
/// frontier's own origin, `h_cost` the heuristic estimate of the remaining
/// cost to that frontier's goal. Their sum, the f-cost, ranks open nodes.
#[derive(Clone, Copy, PartialEq, Eq, Structural, Hash, Debug)]
pub struct Cost {
    pub g_cost: usize,
    pub h_cost: usize,
}

impl Cost {
    pub open spec fn spec_f_cost(self) -> int {
        self.g_cost + self.h_cost
    }

    pub fn f_cost(&self) -> (r: usize)
        requires
            self.g_cost + self.h_cost <= usize::MAX,
        ensures
            r == self.spec_f_cost(),
    {
        self.g_cost + self.h_cost
    }
}

impl Default for Cost {
    /// The worst possible cost: both components at their maximum.
    fn default() -> (r: Self)
        ensures
            r.g_cost == usize::MAX,
            r.h_cost == usize::MAX,
    {
        let max = usize::MAX;
        Cost { g_cost: max, h_cost: max }
    }
}

/// Ranking of the open list: a node is strictly preferred when its f-cost is
/// lower, or when the f-costs tie and its h-cost is lower. Ranking by f-cost
/// with an h-cost tie-break is a total preorder, so which node a pop takes
/// is fully determined, earliest entry winning among full ties.
pub open spec fn spec_prefer(a: Cost, b: Cost) -> bool {
    a.spec_f_cost() < b.spec_f_cost() || (a.spec_f_cost() == b.spec_f_cost() && a.h_cost
        < b.h_cost)
}

/// True when `a` ranks strictly ahead of `b` in the open list.
pub fn prefer(a: &Cost, b: &Cost) -> (r: bool)
    requires
        a.g_cost + a.h_cost <= usize::MAX,
        b.g_cost + b.h_cost <= usize::MAX,
    ensures
        r == spec_prefer(*a, *b),
{
    let fa = a.f_cost();
    let fb = b.f_cost();
    fa < fb || (fa == fb && a.h_cost < b.h_cost)
}

/// A search node: a position and, once the node has been reached from
/// somewhere, the index of its parent in the owning frontier's closed list.
/// Node identity is by position only: `==` ignores the parent link, so "is
/// this position already open or closed" queries are well defined whatever
/// route a node was reached by.
#[derive(Clone, Copy, Debug)]
pub struct Node {
    pub pos: Position,
    pub parent: Option<usize>,
}

impl PartialEq for Node {
    /// Two nodes are equal exactly when they sit on the same position.
    fn eq(&self, other: &Node) -> (r: bool) {
        self.pos == other.pos
    }
}

impl vstd::std_specs::cmp::PartialEqSpecImpl for Node {
    open spec fn obeys_eq_spec() -> bool {
        true
    }

    open spec fn eq_spec(&self, other: &Node) -> bool {
        self.pos == other.pos
    }
}

impl Eq for Node {}

impl Node {
    pub fn new(x: usize, y: usize) -> (r: Self)
        ensures
            r.pos.x == x,
            r.pos.y == y,
            r.parent is None,
    {
        Self { pos: Position::new(x, y), parent: None }
    }

    pub fn new_from_pos(pos: Position) -> (r: Self)
        ensures
            r.pos == pos,
            r.parent is None,
    {
        Self { pos, parent: None }
    }

    /// Re-parent this node: record the closed-list index of the node it is
    /// now best reached from.
    pub fn set_parent(&mut self, parent: usize)
        ensures
            final(self).pos == old(self).pos,
            final(self).parent == Some(parent),
    {
        self.parent = Some(parent);
    }
}

} // verus!
