use game_of_life::{BoundarySquare, CellsGettable, Direction, Square};

fn on_edge(dir: &Direction, n: usize, x: usize, y: usize) -> bool {
    match dir {
        Direction::North => y == n - 1,
        Direction::South => y == 0,
        Direction::West => x == 0,
        Direction::East => x == n - 1,
        Direction::NorthWest => x == 0 || y == n - 1,
        Direction::NorthEast => y == n - 1 || x == n - 1,
        Direction::SouthWest => y == 0 || x == 0,
        Direction::SouthEast => x == n - 1 || y == 0,
    }
}

fn patterned(n: usize) -> Square {
    let mut sq = Square::new(n);
    for x in 0..n {
        for y in 0..n {
            if (x * 7 + y * 3) % 4 != 1 {
                sq.set_cell(x, y, true);
            }
        }
    }
    sq
}

#[test]
fn full_square_reads_through_trait() {
    let sq = patterned(4);
    let full = BoundarySquare::Full(patterned(4));
    for x in 0..4 {
        for y in 0..4 {
            assert_eq!(CellsGettable::get_cell(&sq, x, y), sq.get_cell(x, y));
            assert_eq!(full.get_cell(x, y), sq.get_cell(x, y));
        }
    }
}

#[test]
fn boundaries_keep_only_the_facing_edges() {
    for &n in &[1usize, 2, 5] {
        let sq = patterned(n);
        for dir in Direction::all() {
            let b = sq.get_boundary(&dir);
            for x in 0..n {
                for y in 0..n {
                    assert_eq!(
                        b.get_cell(x, y),
                        on_edge(&dir, n, x, y) && sq.get_cell(x, y),
                        "direction {:?}, side {}, cell ({}, {})",
                        dir,
                        n,
                        x,
                        y
                    );
                }
            }
        }
    }
}

#[test]
fn north_boundary_of_a_row() {
    let mut sq = Square::new(3);
    sq.set_cell(0, 2, true);
    sq.set_cell(2, 2, true);
    sq.set_cell(1, 1, true);
    let b = sq.get_boundary(&Direction::North);
    assert!(matches!(b, BoundarySquare::NorthBoundary(_)));
    assert!(b.get_cell(0, 2));
    assert!(!b.get_cell(1, 2));
    assert!(b.get_cell(2, 2));
    assert!(!b.get_cell(1, 1));
}
