use vstd::prelude::*;

verus! {

/// One of the eight Moore-neighbourhood offsets; north is `+y`.
#[derive(Clone, Copy, PartialEq, Eq, Debug)]
pub enum Direction {
    North,
    South,
    West,
    East,
    NorthWest,
    NorthEast,
    SouthWest,
    SouthEast,
}

impl Direction {
    /// The offset `(dx, dy)` of this direction.
    pub open spec fn offset(self) -> (int, int) {
        match self {
            Direction::North => (0, 1),
            Direction::South => (0, -1),
            Direction::West => (-1, 0),
            Direction::East => (1, 0),
            Direction::NorthWest => (-1, 1),
            Direction::NorthEast => (1, 1),
            Direction::SouthWest => (-1, -1),
            Direction::SouthEast => (1, -1),
        }
    }

    /// Moves `coords` one step in direction `dir`.
    pub fn shift(coords: (isize, isize), dir: &Direction) -> (r: (isize, isize))
        requires
            isize::MIN < coords.0 < isize::MAX,
            isize::MIN < coords.1 < isize::MAX,
        ensures
            r.0 == coords.0 + dir.offset().0,
            r.1 == coords.1 + dir.offset().1,
    {
        match dir {
            Direction::North => (coords.0, coords.1 + 1),
            Direction::South => (coords.0, coords.1 - 1),
            Direction::West => (coords.0 - 1, coords.1),
            Direction::East => (coords.0 + 1, coords.1),
            Direction::NorthWest => (coords.0 - 1, coords.1 + 1),
            Direction::NorthEast => (coords.0 + 1, coords.1 + 1),
            Direction::SouthWest => (coords.0 - 1, coords.1 - 1),
            Direction::SouthEast => (coords.0 + 1, coords.1 - 1),
        }
    }

    /// The eight directions in traversal order.
    pub fn all() -> (r: Vec<Direction>)
        ensures
            r@ == direction_order(),
    {
        let r = vec![
            Direction::North,
            Direction::South,
            Direction::East,
            Direction::West,
            Direction::NorthWest,
            Direction::NorthEast,
            Direction::SouthWest,
            Direction::SouthEast,
        ];
        assert(r@ =~= direction_order());
        r
    }
}

/// The traversal order of the eight directions.
pub open spec fn direction_order() -> Seq<Direction> {
    seq![
        Direction::North,
        Direction::South,
        Direction::East,
        Direction::West,
        Direction::NorthWest,
        Direction::NorthEast,
        Direction::SouthWest,
        Direction::SouthEast,
    ]
}

} // verus!
