//! The static part of the obstacle-grid world: coordinates, directions,
//! the bounded grid of wall cells, and the moving obstacles ("blizzards")
//! that wander over its interior.

use vstd::prelude::*;

verus! {

/// A cell position: `row` counts down from the top edge, `col` right from
/// the left edge.
#[derive(Clone, Copy, PartialEq, Eq, Structural, Debug)]
pub struct Coord {
    pub row: usize,
    pub col: usize,
}

/// One of the four cardinal directions an obstacle can move in.
#[derive(Clone, Copy, PartialEq, Eq, Structural, Debug)]
pub enum Direction {
    Up,
    Down,
    Left,
    Right,
}

/// A moving obstacle: its position at time zero and its fixed direction.
#[derive(Clone, Copy, PartialEq, Eq, Structural, Debug)]
pub struct Blizzard {
    pub pos: Coord,
    pub dir: Direction,
}

/// A bounded rectangle of `rows` x `cols` cells with a fixed set of wall
/// cells.  The walkable interior is the region with row in `1..rows-1` and
/// col in `1..cols-1`; the boundary rows and columns are walls except for
/// designated openings.
pub struct Grid {
    pub rows: usize,
    pub cols: usize,
    pub walls: Vec<Vec<bool>>,
}

impl Grid {
    /// The wall table covers every cell of the rectangle.
    pub open spec fn wf(self) -> bool {
        &&& self.walls@.len() == self.rows
        &&& forall|r: int| 0 <= r < self.rows ==> (#[trigger] self.walls@[r])@.len() == self.cols
    }

    /// Whether the cell at `(r, c)` is a wall.
    pub open spec fn is_wall(self, r: int, c: int) -> bool {
        self.walls@[r]@[c]
    }

    /// Whether `(r, c)` lies inside the rectangle.
    pub open spec fn in_bounds(self, r: int, c: int) -> bool {
        0 <= r < self.rows && 0 <= c < self.cols
    }

    /// Whether `(r, c)` lies in the interior (off the boundary ring).
    pub open spec fn in_interior(self, r: int, c: int) -> bool {
        1 <= r < self.rows - 1 && 1 <= c < self.cols - 1
    }

    /// Whether the coordinate names a cell of the rectangle.
    pub fn contains(&self, p: Coord) -> (b: bool)
        ensures
            b == self.in_bounds(p.row as int, p.col as int),
    {
        p.row < self.rows && p.col < self.cols
    }

    /// Whether the cell at `p` is a wall.
    pub fn wall_at(&self, p: Coord) -> (b: bool)
        requires
            self.wf(),
            self.in_bounds(p.row as int, p.col as int),
        ensures
            b == self.is_wall(p.row as int, p.col as int),
    {
        self.walls[p.row][p.col]
    }
}

/// Whether `p` is a cardinal neighbour of `q`.
pub open spec fn adjacent(q: Coord, p: Coord) -> bool {
    ||| (p.row == q.row && (p.col == q.col + 1 || p.col + 1 == q.col))
    ||| (p.col == q.col && (p.row == q.row + 1 || p.row + 1 == q.row))
}

impl Coord {
    /// The coordinate one cell away in the given direction.
    pub fn add_dir(&self, dir: &Direction) -> (q: Coord)
        requires
            dir is Up ==> self.row >= 1,
            dir is Left ==> self.col >= 1,
            dir is Down ==> self.row < usize::MAX,
            dir is Right ==> self.col < usize::MAX,
        ensures
            match dir {
                Direction::Up => q.row + 1 == self.row && q.col == self.col,
                Direction::Down => q.row == self.row + 1 && q.col == self.col,
                Direction::Left => q.col + 1 == self.col && q.row == self.row,
                Direction::Right => q.col == self.col + 1 && q.row == self.row,
            },
    {
        match dir {
            Direction::Up => Coord { row: self.row - 1, col: self.col },
            Direction::Right => Coord { row: self.row, col: self.col + 1 },
            Direction::Down => Coord { row: self.row + 1, col: self.col },
            Direction::Left => Coord { row: self.row, col: self.col - 1 },
        }
    }

    /// The cardinal neighbours of this coordinate that lie inside a
    /// `rows` x `cols` rectangle: exactly the in-bounds adjacent cells,
    /// each listed once.
    pub fn neighbours(&self, rows: usize, cols: usize) -> (v: Vec<Coord>)
        requires
            self.row < rows,
            self.col < cols,
        ensures
            forall|k: int|
                0 <= k < v@.len() ==> (#[trigger] v@[k]).row < rows && v@[k].col < cols
                    && adjacent(*self, v@[k]),
            forall|q: Coord|
                #[trigger] adjacent(*self, q) && q.row < rows && q.col < cols ==> v@.contains(q),
            v@.no_duplicates(),
            v@.len() <= 4,
    {
        let mut neighbours: Vec<Coord> = Vec::new();
        let ghost iu: int = neighbours@.len() as int;
        if self.row > 0 {
            neighbours.push(self.add_dir(&Direction::Up));
        }
        let ghost ir: int = neighbours@.len() as int;
        if self.col < cols - 1 {
            neighbours.push(self.add_dir(&Direction::Right));
        }
        let ghost id: int = neighbours@.len() as int;
        if self.row < rows - 1 {
            neighbours.push(self.add_dir(&Direction::Down));
        }
        let ghost il: int = neighbours@.len() as int;
        if self.col > 0 {
            neighbours.push(self.add_dir(&Direction::Left));
        }
        proof {
            assert forall|q: Coord|
                #[trigger] adjacent(*self, q) && q.row < rows && q.col < cols implies neighbours@.contains(
                q,
            ) by {
                if q.row + 1 == self.row && q.col == self.col {
                    assert(neighbours@[iu] == q);
                } else if q.row == self.row + 1 && q.col == self.col {
                    assert(neighbours@[id] == q);
                } else if q.col + 1 == self.col && q.row == self.row {
                    assert(neighbours@[il] == q);
                } else {
                    assert(q.col == self.col + 1 && q.row == self.row);
                    assert(neighbours@[ir] == q);
                }
            }
        }
        neighbours
    }
}

/// The ways a search request can fail.
#[derive(Clone, Copy, PartialEq, Eq, Structural, Debug)]
pub enum SearchError {
    /// The grid has no walkable interior in one of its dimensions.
    InvalidGrid,
    /// A start, end or obstacle coordinate lies outside the grid extents.
    OutOfBoundsCoordinate,
    /// The bounded state space was exhausted without reaching the end.
    NoPathFound,
}

} // verus!
