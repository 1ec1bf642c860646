use vstd::prelude::*;

use crate::direction::Direction;
use crate::square::Square;

verus! {

/// Read access to the cells of a square tile of side `side_len()`.
pub trait CellsGettable {
    /// Side length of the tile.
    spec fn side_len(&self) -> nat;

    /// The tile's representation is consistent.
    spec fn readable(&self) -> bool;

    /// State of the local cell `(x, y)`.
    spec fn cell_value(&self, x: int, y: int) -> bool;

    /// Reads the local cell `(x, y)`.
    fn get_cell(&self, x: usize, y: usize) -> (r: bool)
        requires
            self.readable(),
            x < self.side_len(),
            y < self.side_len(),
        ensures
            r == self.cell_value(x as int, y as int),
    ;
}

impl CellsGettable for Square {
    open spec fn side_len(&self) -> nat {
        self.side()
    }

    open spec fn readable(&self) -> bool {
        self.wf()
    }

    open spec fn cell_value(&self, x: int, y: int) -> bool {
        self.cell_at(x, y)
    }

    fn get_cell(&self, x: usize, y: usize) -> (r: bool) {
        Square::get_cell(self, x, y)
    }
}

/// One edge of a tile: `cell[i]` is the i-th cell along it.
pub struct ThinSquareLine {
    pub cell: Vec<bool>,
}

/// Two edges of a tile that meet in a corner: `leftline` holds a whole edge and
/// `rightline` the other edge without the shared corner cell.
pub struct ThinSquareCorner {
    pub leftline: Vec<bool>,
    pub rightline: Vec<bool>,
}

/// A tile, either whole or reduced to the edge or the pair of edges that faces one
/// direction; every cell off the kept edges reads as dead.
pub enum BoundarySquare {
    Full(Square),
    NorthBoundary(ThinSquareLine),
    SouthBoundary(ThinSquareLine),
    WestBoundary(ThinSquareLine),
    EastBoundary(ThinSquareLine),
    NorthWestBoundary(ThinSquareCorner),
    NorthEastBoundary(ThinSquareCorner),
    SouthWestBoundary(ThinSquareCorner),
    SouthEastBoundary(ThinSquareCorner),
}

/// The local cell `(x, y)` of a tile of side `n` lies on the edge, or pair of edges,
/// that faces `dir` (north is the row `y = n - 1`, east the column `x = n - 1`).
pub open spec fn on_edge(dir: Direction, n: int, x: int, y: int) -> bool {
    match dir {
        Direction::North => y == n - 1,
        Direction::South => y == 0,
        Direction::West => x == 0,
        Direction::East => x == n - 1,
        Direction::NorthWest => x == 0 || y == n - 1,
        Direction::NorthEast => y == n - 1 || x == n - 1,
        Direction::SouthWest => y == 0 || x == 0,
        Direction::SouthEast => x == n - 1 || y == 0,
    }
}

impl CellsGettable for BoundarySquare {
    open spec fn side_len(&self) -> nat {
        match self {
            BoundarySquare::Full(s) => s.side(),
            BoundarySquare::NorthBoundary(l) => l.cell@.len(),
            BoundarySquare::SouthBoundary(l) => l.cell@.len(),
            BoundarySquare::WestBoundary(l) => l.cell@.len(),
            BoundarySquare::EastBoundary(l) => l.cell@.len(),
            BoundarySquare::NorthWestBoundary(c) => c.leftline@.len(),
            BoundarySquare::NorthEastBoundary(c) => c.leftline@.len(),
            BoundarySquare::SouthWestBoundary(c) => c.leftline@.len(),
            BoundarySquare::SouthEastBoundary(c) => c.leftline@.len(),
        }
    }

    open spec fn readable(&self) -> bool {
        match self {
            BoundarySquare::Full(s) => s.wf(),
            BoundarySquare::NorthWestBoundary(c) => c.rightline@.len() + 1 == c.leftline@.len(),
            BoundarySquare::NorthEastBoundary(c) => c.rightline@.len() + 1 == c.leftline@.len(),
            BoundarySquare::SouthWestBoundary(c) => c.rightline@.len() + 1 == c.leftline@.len(),
            BoundarySquare::SouthEastBoundary(c) => c.rightline@.len() + 1 == c.leftline@.len(),
            _ => true,
        }
    }

    open spec fn cell_value(&self, x: int, y: int) -> bool {
        let n = self.side_len() as int;
        match self {
            BoundarySquare::Full(s) => s.cell_at(x, y),
            BoundarySquare::NorthBoundary(l) => y == n - 1 && l.cell@[x],
            BoundarySquare::SouthBoundary(l) => y == 0 && l.cell@[x],
            BoundarySquare::WestBoundary(l) => x == 0 && l.cell@[y],
            BoundarySquare::EastBoundary(l) => x == n - 1 && l.cell@[y],
            BoundarySquare::NorthWestBoundary(c) => if x == 0 {
                c.leftline@[y]
            } else {
                y == n - 1 && c.rightline@[x - 1]
            },
            BoundarySquare::NorthEastBoundary(c) => if y == n - 1 {
                c.leftline@[x]
            } else {
                x == n - 1 && c.rightline@[y]
            },
            BoundarySquare::SouthWestBoundary(c) => if y == 0 {
                c.leftline@[x]
            } else {
                x == 0 && c.rightline@[y - 1]
            },
            BoundarySquare::SouthEastBoundary(c) => if x == n - 1 {
                c.leftline@[y]
            } else {
                y == 0 && c.rightline@[x]
            },
        }
    }

    fn get_cell(&self, x: usize, y: usize) -> (r: bool) {
        match self {
            BoundarySquare::Full(square) => square.get_cell(x, y),
            BoundarySquare::NorthBoundary(square) => {
                if y == square.cell.len() - 1 {
                    square.cell[x]
                } else {
                    false
                }
            },
            BoundarySquare::SouthBoundary(square) => {
                if y == 0 {
                    square.cell[x]
                } else {
                    false
                }
            },
            BoundarySquare::WestBoundary(square) => {
                if x == 0 {
                    square.cell[y]
                } else {
                    false
                }
            },
            BoundarySquare::EastBoundary(square) => {
                if x == square.cell.len() - 1 {
                    square.cell[y]
                } else {
                    false
                }
            },
            BoundarySquare::NorthWestBoundary(square) => {
                if x == 0 {
                    square.leftline[y]
                } else if y == square.leftline.len() - 1 {
                    square.rightline[x - 1]
                } else {
                    false
                }
            },
            BoundarySquare::NorthEastBoundary(square) => {
                if y == square.leftline.len() - 1 {
                    square.leftline[x]
                } else if x == square.leftline.len() - 1 {
                    square.rightline[y]
                } else {
                    false
                }
            },
            BoundarySquare::SouthWestBoundary(square) => {
                if y == 0 {
                    square.leftline[x]
                } else if x == 0 {
                    square.rightline[y - 1]
                } else {
                    false
                }
            },
            BoundarySquare::SouthEastBoundary(square) => {
                if x == square.leftline.len() - 1 {
                    square.leftline[y]
                } else if y == 0 {
                    square.rightline[x]
                } else {
                    false
                }
            },
        }
    }
}

/// The cells `(x, y)` for `y` in `from..to`.
fn column_part(sq: &Square, x: usize, from: usize, to: usize) -> (r: Vec<bool>)
    requires
        sq.wf(),
        x < sq.side(),
        from <= to <= sq.side(),
    ensures
        r@.len() == to - from,
        forall|i: int| 0 <= i < r@.len() ==> r@[i] == sq.cell_at(x as int, from + i),
{
    let mut r: Vec<bool> = Vec::new();
    let mut y: usize = from;
    while y < to
        invariant
            sq.wf(),
            x < sq.side(),
            from <= y <= to <= sq.side(),
            r@.len() == y - from,
            forall|i: int| 0 <= i < r@.len() ==> r@[i] == sq.cell_at(x as int, from + i),
        decreases to - y,
    {
        r.push(sq.get_cell(x, y));
        y = y + 1;
    }
    r
}

/// The cells `(x, y)` for `x` in `from..to`.
fn row_part(sq: &Square, y: usize, from: usize, to: usize) -> (r: Vec<bool>)
    requires
        sq.wf(),
        y < sq.side(),
        from <= to <= sq.side(),
    ensures
        r@.len() == to - from,
        forall|i: int| 0 <= i < r@.len() ==> r@[i] == sq.cell_at(from + i, y as int),
{
    let mut r: Vec<bool> = Vec::new();
    let mut x: usize = from;
    while x < to
        invariant
            sq.wf(),
            y < sq.side(),
            from <= x <= to <= sq.side(),
            r@.len() == x - from,
            forall|i: int| 0 <= i < r@.len() ==> r@[i] == sq.cell_at(from + i, y as int),
        decreases to - x,
    {
        r.push(sq.get_cell(x, y));
        x = x + 1;
    }
    r
}

impl Square {
    /// The tile reduced to the edge, or pair of edges, that faces `dir`.
    pub fn get_boundary(&self, dir: &Direction) -> (r: BoundarySquare)
        requires
            self.wf(),
            self.side() >= 1,
        ensures
            r.readable(),
            r.side_len() == self.side(),
            forall|x: int, y: int|
                0 <= x < self.side() && 0 <= y < self.side() ==> #[trigger] r.cell_value(x, y) == (
                on_edge(*dir, self.side() as int, x, y) && self.cell_at(x, y)),
    {
        let n = self.size();
        match dir {
            Direction::North => BoundarySquare::NorthBoundary(
                ThinSquareLine { cell: row_part(self, n - 1, 0, n) },
            ),
            Direction::South => BoundarySquare::SouthBoundary(
                ThinSquareLine { cell: row_part(self, 0, 0, n) },
            ),
            Direction::West => BoundarySquare::WestBoundary(
                ThinSquareLine { cell: column_part(self, 0, 0, n) },
            ),
            Direction::East => BoundarySquare::EastBoundary(
                ThinSquareLine { cell: column_part(self, n - 1, 0, n) },
            ),
            Direction::NorthWest => BoundarySquare::NorthWestBoundary(
                ThinSquareCorner {
                    leftline: column_part(self, 0, 0, n),
                    rightline: row_part(self, n - 1, 1, n),
                },
            ),
            Direction::NorthEast => BoundarySquare::NorthEastBoundary(
                ThinSquareCorner {
                    leftline: row_part(self, n - 1, 0, n),
                    rightline: column_part(self, n - 1, 0, n - 1),
                },
            ),
            Direction::SouthWest => BoundarySquare::SouthWestBoundary(
                ThinSquareCorner {
                    leftline: row_part(self, 0, 0, n),
                    rightline: column_part(self, 0, 1, n),
                },
            ),
            Direction::SouthEast => BoundarySquare::SouthEastBoundary(
                ThinSquareCorner {
                    leftline: column_part(self, n - 1, 0, n),
                    rightline: row_part(self, 0, 0, n - 1),
                },
            ),
        }
    }
}

} // verus!
