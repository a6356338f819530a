//! Grid model: cell states, the dense rectangular grid, the sparse
//! blocked-set grid, and the uniform read-only view the search consults.

use vstd::prelude::*;
use crate::node::{Position, Direction, Node};
use crate::MAX_DIM;

verus! {

/// The state of one grid cell. `Block` is the only state that stops the
/// search; the rest exist for rendering the search's progress.
#[derive(Debug, Clone, Copy, PartialEq, Eq, Structural, Hash)]
pub enum Cell {
    Block,
    Path,
    Start,
    End,
    ShortestPath,
    Visiting,
    Visited,
}

impl Cell {
    pub open spec fn spec_fill_color(self) -> Seq<char> {
        match self {
            Cell::Block => "#111"@,
            Cell::Path => "#333"@,
            Cell::Start => "#0a0"@,
            Cell::End => "#aa0"@,
            Cell::ShortestPath => "#aaa"@,
            Cell::Visiting => "#03c"@,
            Cell::Visited => "#a00"@,
        }
    }

    /// The fill colour a renderer should paint this cell with.
    pub fn fill_color(&self) -> (r: &'static str)
        ensures
            r@ == self.spec_fill_color(),
    {
        match self {
            Cell::Block => "#111",
            Cell::Path => "#333",
            Cell::Start => "#0a0",
            Cell::End => "#aa0",
            Cell::ShortestPath => "#aaa",
            Cell::Visiting => "#03c",
            Cell::Visited => "#a00",
        }
    }

    pub open spec fn spec_stroke_color(self) -> Seq<char> {
        match self {
            Cell::Block => "#0a0a0a"@,
            Cell::Path => "#3e3e3e"@,
            Cell::Start => "#0c0"@,
            Cell::End => "#cc0"@,
            Cell::ShortestPath => "#ccc"@,
            Cell::Visiting => "#05c"@,
            Cell::Visited => "#c00"@,
        }
    }

    /// The border colour a renderer should paint this cell with.
    pub fn stroke_color(&self) -> (r: &'static str)
        ensures
            r@ == self.spec_stroke_color(),
    {
        match self {
            Cell::Block => "#0a0a0a",
            Cell::Path => "#3e3e3e",
            Cell::Start => "#0c0",
            Cell::End => "#cc0",
            Cell::ShortestPath => "#ccc",
            Cell::Visiting => "#05c",
            Cell::Visited => "#c00",
        }
    }
}

/// The abstract content of a grid: its bounds and which positions are
/// blocked. Both grid representations answer queries through this one model,
/// so the search cannot depend on the backing representation.
pub ghost struct GridModel {
    pub width: int,
    pub height: int,
    pub blocked: Set<Position>,
}

impl GridModel {
    pub open spec fn in_bounds(self, x: int, y: int) -> bool {
        0 <= x < self.width && 0 <= y < self.height
    }

    /// An in-bounds position the search may step onto.
    pub open spec fn free_at(self, x: int, y: int) -> bool {
        self.in_bounds(x, y) && !self.blocked.contains(
            Position { x: x as usize, y: y as usize },
        )
    }

    pub open spec fn wf(self) -> bool {
        0 <= self.width <= MAX_DIM && 0 <= self.height <= MAX_DIM
    }
}

/// A dense rectangular grid of cell states, stored row-major.
#[derive(Clone, Debug)]
pub struct Grid {
    pub width: usize,
    pub height: usize,
    pub data: Vec<Cell>,
}

impl Grid {
    /// The flat storage, index `row * width + column`.
    pub open spec fn spec_data(self) -> Seq<Cell> {
        self.data@
    }

    pub open spec fn wf(self) -> bool {
        &&& self.width <= MAX_DIM
        &&& self.height <= MAX_DIM
        &&& self.spec_data().len() == self.width * self.height
    }

    /// The uniform view of this grid: a position is blocked exactly when its
    /// cell is `Block`.
    pub open spec fn gm(self) -> GridModel {
        GridModel {
            width: self.width as int,
            height: self.height as int,
            blocked: Set::new(
                |p: Position|
                    p.x < self.width && p.y < self.height && self.spec_data()[p.y * self.width
                        + p.x] == Cell::Block,
            ),
        }
    }

    /// A fresh grid of the given bounds with every cell free.
    pub fn new(width: usize, height: usize) -> (r: Self)
        requires
            width <= MAX_DIM,
            height <= MAX_DIM,
        ensures
            r.wf(),
            r.width == width,
            r.height == height,
            forall|i: int| 0 <= i < r.spec_data().len() ==> r.spec_data()[i] == Cell::Path,
    {
        proof {
            assert(width * height <= MAX_DIM * MAX_DIM) by (nonlinear_arith)
                requires
                    width <= MAX_DIM,
                    height <= MAX_DIM,
            ;
        }
        let n: usize = width * height;
        let mut data: Vec<Cell> = Vec::new();
        let mut i: usize = 0;
        while i < n
            invariant
                i <= n,
                data@.len() == i,
                forall|k: int| 0 <= k < i ==> data@[k] == Cell::Path,
            decreases n - i,
        {
            data.push(Cell::Path);
            i = i + 1;
        }
        Self { width, height, data }
    }

    /// What `clear` leaves in a cell: start and end markers stay, walls stay
    /// unless `walls` asks for them to go, everything else reverts to `Path`.
    pub open spec fn spec_cleared(c: Cell, walls: bool) -> Cell {
        match c {
            Cell::Start => Cell::Start,
            Cell::End => Cell::End,
            Cell::Block => if walls {
                Cell::Path
            } else {
                Cell::Block
            },
            _ => Cell::Path,
        }
    }

    /// Reset the grid's transient cells, optionally removing walls too.
    pub fn clear(&mut self, walls: bool)
        requires
            old(self).wf(),
        ensures
            final(self).wf(),
            final(self).width == old(self).width,
            final(self).height == old(self).height,
            final(self).spec_data().len() == old(self).spec_data().len(),
            forall|k: int|
                0 <= k < old(self).spec_data().len() ==> final(self).spec_data()[k]
                    == Self::spec_cleared(old(self).spec_data()[k], walls),
    {
        let n: usize = self.data.len();
        proof {
            assert(n == self.width * self.height);
        }
        let mut i: usize = 0;
        while i < n
            invariant
                i <= n,
                n == self.data@.len(),
                self.width == old(self).width,
                self.height == old(self).height,
                old(self).spec_data().len() == n,
                forall|k: int|
                    0 <= k < i ==> self.data@[k] == Self::spec_cleared(
                        old(self).spec_data()[k],
                        walls,
                    ),
                forall|k: int| i <= k < n ==> self.data@[k] == old(self).spec_data()[k],
            decreases n - i,
        {
            let each = self.data[i];
            let clear = match each {
                Cell::Start | Cell::End | Cell::Block => each == Cell::Block && walls,
                _ => true,
            };
            if clear {
                self.data.set(i, Cell::Path);
            }
            i = i + 1;
        }
    }

    /// The grid's (width, height) pair.
    pub fn dimension(&self) -> (r: (usize, usize))
        ensures
            r.0 == self.width,
            r.1 == self.height,
    {
        (self.width, self.height)
    }

    /// The cell at flat index `row * width + column`; the addressed index
    /// must lie inside the backing storage.
    pub fn get(&self, column: usize, row: usize) -> (r: Cell)
        requires
            row * self.width + column < self.spec_data().len(),
        ensures
            r == self.spec_data()[row * self.width + column],
    {
        let n = self.data.len();
        let res = self.try_get(column, row);
        match res {
            Some(c) => c,
            None => {
                proof {
                    assert(false);
                }
                Cell::Path
            },
        }
    }

    /// The cell at flat index `row * width + column`, or `None` when that
    /// index lies outside the storage.
    pub fn try_get(&self, column: usize, row: usize) -> (r: Option<Cell>)
        requires
            row * self.width + column <= usize::MAX,
        ensures
            r == (if row * self.width + column < self.spec_data().len() {
                Some(self.spec_data()[row * self.width + column])
            } else {
                None::<Cell>
            }),
    {
        let idx: usize = row * self.width + column;
        if idx < self.data.len() {
            Some(self.data[idx])
        } else {
            None
        }
    }

    /// Write the cell at flat index `row * width + column`.
    pub fn set(&mut self, column: usize, row: usize, cell: Cell)
        requires
            row * old(self).width + column < old(self).spec_data().len(),
        ensures
            final(self).width == old(self).width,
            final(self).height == old(self).height,
            final(self).spec_data() == old(self).spec_data().update(
                row * old(self).width + column,
                cell,
            ),
    {
        let n = self.data.len();
        let index: usize = row * self.width + column;
        self.data.set(index, cell);
    }

    /// What `resize` leaves at (column, row): the old cell read through the
    /// old flat indexing, unless it was a start or end marker or lay outside
    /// the old storage, in which case the cell is free.
    pub open spec fn spec_resized_cell(old_data: Seq<Cell>, old_width: int, column: int, row: int) -> Cell {
        if 0 <= row * old_width + column < old_data.len() && old_data[row * old_width + column]
            != Cell::Start && old_data[row * old_width + column] != Cell::End {
            old_data[row * old_width + column]
        } else {
            Cell::Path
        }
    }

    /// Rebuild the grid at new bounds, keeping every surviving cell except
    /// the start and end markers.
    pub fn resize(&mut self, width: usize, height: usize)
        requires
            old(self).wf(),
            width <= MAX_DIM,
            height <= MAX_DIM,
        ensures
            final(self).wf(),
            final(self).width == width,
            final(self).height == height,
            forall|r: int, c: int|
                0 <= r < height && 0 <= c < width ==> final(self).spec_data()[r * width + c]
                    == Self::spec_resized_cell(
                    old(self).spec_data(),
                    old(self).width as int,
                    c,
                    r,
                ),
    {
        let ghost old_data = self.spec_data();
        let ghost old_width = self.width as int;
        let mut new_data: Vec<Cell> = Vec::new();
        let mut row: usize = 0;
        while row < height
            invariant
                row <= height,
                width <= MAX_DIM,
                height <= MAX_DIM,
                self == old(self),
                old(self).wf(),
                old_data == old(self).spec_data(),
                old_width == old(self).width as int,
                new_data@.len() == row * width,
                forall|r: int, c: int|
                    0 <= r < row && 0 <= c < width ==> new_data@[r * width + c]
                        == Self::spec_resized_cell(old_data, old_width, c, r),
            decreases height - row,
        {
            let mut col: usize = 0;
            proof {
                assert(row * width + width <= MAX_DIM * MAX_DIM) by (nonlinear_arith)
                    requires
                        row < height,
                        width <= MAX_DIM,
                        height <= MAX_DIM,
                ;
            }
            while col < width
                invariant
                    col <= width,
                    row < height,
                    width <= MAX_DIM,
                    height <= MAX_DIM,
                    self == old(self),
                    old(self).wf(),
                    old_data == old(self).spec_data(),
                    old_width == old(self).width as int,
                    new_data@.len() == row * width + col,
                    row * width + width <= MAX_DIM * MAX_DIM,
                    forall|r: int, c: int|
                        0 <= r < row && 0 <= c < width ==> new_data@[r * width + c]
                            == Self::spec_resized_cell(old_data, old_width, c, r),
                    forall|c: int|
                        0 <= c < col ==> new_data@[row * width + c] == Self::spec_resized_cell(
                            old_data,
                            old_width,
                            c,
                            row as int,
                        ),
                decreases width - col,
            {
                proof {
                    assert(row * self.width + col <= MAX_DIM * MAX_DIM) by (nonlinear_arith)
                        requires
                            row < height,
                            col < width,
                            self.width <= MAX_DIM,
                            width <= MAX_DIM,
                            height <= MAX_DIM,
                    ;
                }
                let mut done = false;
                let mut chosen = Cell::Path;
                if let Some(cell) = self.try_get(col, row) {
                    if cell != Cell::Start && cell != Cell::End {
                        chosen = cell;
                        done = true;
                    }
                }
                if !done {
                    chosen = Cell::Path;
                }
                new_data.push(chosen);
                proof {
                    assert forall|r: int, c: int|
                        0 <= r < row && 0 <= c < width implies #[trigger] (r * width + c) < row
                        * width + col by {
                        assert(r * width + width <= row * width) by (nonlinear_arith)
                            requires
                                0 <= r < row,
                                0 <= width,
                        ;
                    }
                }
                col = col + 1;
            }
            proof {
                assert((row + 1) * width == row * width + width) by (nonlinear_arith);
            }
            row = row + 1;
        }
        self.width = width;
        self.height = height;
        self.data = new_data;
        proof {
            assert forall|r: int, c: int|
                0 <= r < height && 0 <= c < width implies #[trigger] (r * width + c) < height
                * width by {
                assert(r * width + width <= height * width) by (nonlinear_arith)
                    requires
                        0 <= r < height,
                        0 <= width,
                ;
            }
            assert(self.spec_data().len() == self.width * self.height) by (nonlinear_arith)
                requires
                    self.spec_data().len() == height * width,
                    self.width == width,
                    self.height == height,
            ;
        }
    }
}

/// A sparse grid: a rectangle's bounds plus the list of blocked positions.
#[derive(Clone, Debug)]
pub struct GridSet {
    pub width: usize,
    pub height: usize,
    pub blocked: Vec<Position>,
}

impl GridSet {
    /// The uniform view of this grid: a position is blocked exactly when it
    /// appears in the blocked list.
    pub open spec fn gm(self) -> GridModel {
        GridModel {
            width: self.width as int,
            height: self.height as int,
            blocked: Set::new(|p: Position| self.blocked@.contains(p)),
        }
    }

    pub open spec fn wf(self) -> bool {
        self.width <= MAX_DIM && self.height <= MAX_DIM
    }

    pub fn new(width: usize, height: usize, blocked: Vec<Position>) -> (r: Self)
        requires
            width <= MAX_DIM,
            height <= MAX_DIM,
        ensures
            r.wf(),
            r.width == width,
            r.height == height,
            r.blocked@ == blocked@,
    {
        Self { width, height, blocked }
    }

    /// The grid's (width, height) pair.
    pub fn dimension(&self) -> (r: (usize, usize))
        ensures
            r.0 == self.width,
            r.1 == self.height,
    {
        (self.width, self.height)
    }

    /// Whether `pos` appears in the blocked list.
    pub fn is_blocked(&self, pos: &Position) -> (r: bool)
        ensures
            r == self.blocked@.contains(*pos),
    {
        let mut i: usize = 0;
        while i < self.blocked.len()
            invariant
                i <= self.blocked@.len(),
                forall|k: int| 0 <= k < i ==> self.blocked@[k] != *pos,
            decreases self.blocked@.len() - i,
        {
            if self.blocked[i] == *pos {
                return true;
            }
            i = i + 1;
        }
        false
    }
}

/// The read-only view the search consults: either backing representation,
/// answering the same bounds and freeness queries through `GridModel`.
#[derive(Clone, Copy)]
pub enum GridType<'a> {
    Full(&'a Grid),
    Sparse(&'a GridSet),
}

impl<'a> GridType<'a> {
    pub open spec fn gm(self) -> GridModel {
        match self {
            GridType::Full(g) => g.gm(),
            GridType::Sparse(s) => s.gm(),
        }
    }

    pub open spec fn wf(self) -> bool {
        match self {
            GridType::Full(g) => g.wf(),
            GridType::Sparse(s) => s.wf(),
        }
    }

    /// Whether (x, y) lies inside the grid's bounds.
    pub fn in_bounds(&self, x: isize, y: isize) -> (r: bool)
        ensures
            r == self.gm().in_bounds(x as int, y as int),
    {
        let (w, h) = match self {
            GridType::Full(g) => (g.width, g.height),
            GridType::Sparse(s) => (s.width, s.height),
        };
        x >= 0 && y >= 0 && (x as usize) < w && (y as usize) < h
    }

    /// The grid's (width, height) pair.
    pub fn dimension(&self) -> (r: (usize, usize))
        ensures
            r.0 == self.gm().width,
            r.1 == self.gm().height,
    {
        match self {
            GridType::Full(g) => g.dimension(),
            GridType::Sparse(s) => s.dimension(),
        }
    }

    /// Whether the in-bounds position `pos` is free to step onto.
    pub fn is_free(&self, pos: &Position) -> (r: bool)
        requires
            self.wf(),
            self.gm().in_bounds(pos.x as int, pos.y as int),
        ensures
            r == self.gm().free_at(pos.x as int, pos.y as int),
    {
        match self {
            GridType::Full(g) => {
                proof {
                    assert(pos.y * g.width + pos.x < g.spec_data().len()) by (nonlinear_arith)
                        requires
                            pos.x < g.width,
                            pos.y < g.height,
                            g.spec_data().len() == g.width * g.height,
                    ;
                }
                let n = g.data.len();
                let c = g.try_get(pos.x, pos.y);
                match c {
                    Some(cell) => cell != Cell::Block,
                    None => false,
                }
            },
            GridType::Sparse(s) => !s.is_blocked(pos),
        }
    }
}

/// Why a neighbouring cell was rejected as an expansion candidate.
#[derive(Clone, Copy, PartialEq, Eq, Structural, Debug)]
pub enum NeighbourError {
    /// The coordinate lies outside the grid's bounds.
    OutOfBounds,
    /// The cell is inside the bounds but blocked.
    Blocked,
}

impl Node {
    /// The neighbouring node one step in `direction`, if that cell is
    /// in-bounds and free; the node comes back unparented, and the caller
    /// records where it was reached from.
    pub fn get_neighbour(&self, direction: Direction, grid: GridType<'_>) -> (r: Result<
        Node,
        NeighbourError,
    >)
        requires
            grid.wf(),
            self.pos.x < MAX_DIM,
            self.pos.y < MAX_DIM,
        ensures
            ({
                let nx = self.pos.x + direction.spec_offset().0;
                let ny = self.pos.y + direction.spec_offset().1;
                &&& grid.gm().free_at(nx, ny) ==> r == Ok::<Node, NeighbourError>(
                    Node { pos: Position { x: nx as usize, y: ny as usize }, parent: None },
                )
                &&& !grid.gm().in_bounds(nx, ny) ==> r == Err::<Node, NeighbourError>(
                    NeighbourError::OutOfBounds,
                )
                &&& grid.gm().in_bounds(nx, ny) && !grid.gm().free_at(nx, ny) ==> r == Err::<
                    Node,
                    NeighbourError,
                >(NeighbourError::Blocked)
            }),
    {
        let (x, y) = direction.get_coordinate(self.pos.x as isize, self.pos.y as isize);
        if grid.in_bounds(x, y) {
            let pos = Position::new(x as usize, y as usize);
            if grid.is_free(&pos) {
                Ok(Node { pos, parent: None })
            } else {
                Err(NeighbourError::Blocked)
            }
        } else {
            Err(NeighbourError::OutOfBounds)
        }
    }

    /// The neighbour read through a dense grid.
    pub fn get_neighbour_from_grid(&self, direction: Direction, grid: &Grid) -> (r: Result<
        Node,
        NeighbourError,
    >)
        requires
            grid.wf(),
            self.pos.x < MAX_DIM,
            self.pos.y < MAX_DIM,
        ensures
            r == self.get_neighbour_spec(direction, GridType::Full(grid).gm()),
    {
        let r = self.get_neighbour(direction, GridType::Full(grid));
        proof {
            self.lemma_get_neighbour_spec(direction, GridType::Full(grid).gm());
        }
        r
    }

    /// The neighbour read through a sparse grid.
    pub fn get_neighbour_from_set(&self, direction: Direction, grid: &GridSet) -> (r: Result<
        Node,
        NeighbourError,
    >)
        requires
            grid.wf(),
            self.pos.x < MAX_DIM,
            self.pos.y < MAX_DIM,
        ensures
            r == self.get_neighbour_spec(direction, GridType::Sparse(grid).gm()),
    {
        let r = self.get_neighbour(direction, GridType::Sparse(grid));
        proof {
            self.lemma_get_neighbour_spec(direction, GridType::Sparse(grid).gm());
        }
        r
    }

    /// What `get_neighbour` returns, as a function of the grid model.
    pub open spec fn get_neighbour_spec(self, direction: Direction, gm: GridModel) -> Result<
        Node,
        NeighbourError,
    > {
        let nx = self.pos.x + direction.spec_offset().0;
        let ny = self.pos.y + direction.spec_offset().1;
        if gm.free_at(nx, ny) {
            Ok(Node { pos: Position { x: nx as usize, y: ny as usize }, parent: None })
        } else if !gm.in_bounds(nx, ny) {
            Err(NeighbourError::OutOfBounds)
        } else {
            Err(NeighbourError::Blocked)
        }
    }

    proof fn lemma_get_neighbour_spec(self, direction: Direction, gm: GridModel) {
    }
}

} // verus!
