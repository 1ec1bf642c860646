use game_of_life::{Direction, Field, Shape, Square};

fn live_cells(f: &Field, lo: isize, hi: isize) -> Vec<(isize, isize)> {
    let mut v = Vec::new();
    for x in lo..=hi {
        for y in lo..=hi {
            if f.get_cell(x, y) {
                v.push((x, y));
            }
        }
    }
    v
}

fn field_with(cells: &[(isize, isize)], chunksize: usize) -> Field {
    let mut f = Field::new(chunksize);
    for &c in cells {
        f.set_cell(c, true);
    }
    f
}

fn sorted(mut v: Vec<(isize, isize)>) -> Vec<(isize, isize)> {
    v.sort();
    v
}

#[test]
fn new_field_is_empty() {
    let f = Field::new(8);
    assert!(f.is_empty());
    assert_eq!(f.len(), 0);
    assert!(!f.get_cell(0, 0));
    assert!(!f.get_cell(-5, 7));
    assert!(f.chunk_coords().is_empty());
}

#[test]
fn set_then_get_positive_and_negative() {
    let mut f = Field::new(8);
    for &(x, y) in &[(0, 0), (7, 7), (8, 8), (-1, -1), (-8, -8), (-9, -9), (123, -456)] {
        f.set_cell((x, y), true);
        assert!(f.get_cell(x, y));
    }
    assert!(!f.get_cell(1, 0));
    assert!(!f.get_cell(-2, -1));
}

#[test]
fn negative_cells_land_in_adjacent_chunks() {
    let mut f = Field::new(8);
    f.set_cell((-1, -1), true);
    f.set_cell((-9, -9), true);
    assert!(f.get_cell(-1, -1));
    assert!(f.get_cell(-9, -9));
    assert_eq!(f.len(), 2);
    assert_eq!(sorted(f.chunk_coords()), vec![(-2, -2), (-1, -1)]);
}

#[test]
fn extreme_coordinates_round_trip() {
    let mut f = Field::new(3);
    f.set_cell((isize::MIN, isize::MAX), true);
    assert!(f.get_cell(isize::MIN, isize::MAX));
    assert!(!f.get_cell(isize::MIN + 1, isize::MAX));
    f.set_cell((isize::MIN, isize::MAX), false);
    assert!(f.is_empty());
}

#[test]
fn last_dead_cell_removes_chunk() {
    let mut f = Field::new(4);
    f.set_cell((1, 1), true);
    f.set_cell((2, 1), true);
    assert_eq!(f.len(), 1);
    f.set_cell((1, 1), false);
    assert_eq!(f.len(), 1);
    f.set_cell((2, 1), false);
    assert_eq!(f.len(), 0);
    assert!(f.is_empty());
}

#[test]
fn clearing_dead_cell_creates_no_chunk() {
    let mut f = Field::new(4);
    f.set_cell((10, 10), false);
    assert!(f.is_empty());
    assert_eq!(f.len(), 0);
}

#[test]
fn repeated_write_keeps_one_chunk() {
    let mut f = Field::new(4);
    f.set_cell((0, 0), true);
    f.set_cell((0, 0), true);
    f.set_cell((0, 0), false);
    assert!(f.is_empty());
}

#[test]
fn unchanged_only_shape_changes_nothing() {
    let mut f = field_with(&[(0, 0), (1, 2)], 4);
    let before = live_cells(&f, -5, 5);
    let shape: Shape = vec![vec![None; 3]; 3];
    f.set_shape_at((-1, -1), &shape);
    assert_eq!(live_cells(&f, -5, 5), before);
    let empty: Shape = Vec::new();
    f.set_shape_at((0, 0), &empty);
    assert_eq!(live_cells(&f, -5, 5), before);
}

#[test]
fn mixed_shape_touches_only_set_entries() {
    let mut f = field_with(&[(0, 0), (1, 1), (3, 3)], 4);
    // columns: x offset 0 and 1; rows: y offset 0 and 1
    let shape: Shape = vec![vec![Some(false), None], vec![None, Some(true)]];
    f.set_shape_at((0, 0), &shape);
    assert!(!f.get_cell(0, 0));
    assert!(f.get_cell(1, 1));
    assert!(!f.get_cell(0, 1));
    assert!(!f.get_cell(1, 0));
    assert!(f.get_cell(3, 3));

    let shape: Shape = vec![vec![Some(true), None, Some(true)], vec![None], vec![Some(true)]];
    f.set_shape_at((-2, 5), &shape);
    assert_eq!(
        sorted(live_cells(&f, -5, 10)),
        vec![(-2, 5), (-2, 7), (0, 5), (1, 1), (3, 3)]
    );
}

#[test]
fn blinker_oscillates() {
    let mut f = field_with(&[(0, 1), (1, 1), (2, 1)], 4);
    f.update();
    assert_eq!(sorted(live_cells(&f, -3, 5)), vec![(1, 0), (1, 1), (1, 2)]);
    f.update();
    assert_eq!(sorted(live_cells(&f, -3, 5)), vec![(0, 1), (1, 1), (2, 1)]);
}

#[test]
fn blinker_across_chunk_corner() {
    let mut f = field_with(&[(-1, 0), (0, 0), (1, 0)], 4);
    f.update();
    assert_eq!(sorted(live_cells(&f, -4, 4)), vec![(0, -1), (0, 0), (0, 1)]);
    assert_eq!(sorted(f.chunk_coords()), vec![(0, -1), (0, 0)]);
}

#[test]
fn glider_moves_one_diagonal_step_in_four_generations() {
    let glider = [(1, 0), (2, 1), (0, 2), (1, 2), (2, 2)];
    for &cs in &[1usize, 2, 3, 8, 16] {
        let mut f = Field::new(cs);
        let mut shape: Shape = vec![vec![None; 3]; 3];
        for &(x, y) in &glider {
            shape[x as usize][y as usize] = Some(true);
        }
        f.set_shape_at((0, 0), &shape);
        for _ in 0..4 {
            f.update();
        }
        let expected: Vec<(isize, isize)> = sorted(glider.iter().map(|&(x, y)| (x + 1, y + 1)).collect());
        assert_eq!(sorted(live_cells(&f, -20, 20)), expected);
    }
}

#[test]
fn block_is_still_life() {
    for &(ox, oy) in &[(0isize, 0isize), (7, 7), (-1, -1), (-5, 3)] {
        let cells = [(ox, oy), (ox + 1, oy), (ox, oy + 1), (ox + 1, oy + 1)];
        let mut f = field_with(&cells, 8);
        for _ in 0..6 {
            f.update();
            assert_eq!(sorted(live_cells(&f, -20, 20)), sorted(cells.to_vec()));
        }
    }
}

#[test]
fn lone_cell_dies() {
    let mut f = field_with(&[(5, 5)], 4);
    f.update();
    assert!(f.is_empty());
    assert_eq!(f.len(), 0);
}

#[test]
fn update_chunk_of_absent_neighbour_matches_full_evaluation() {
    // a vertical blinker on the east border of chunk (0, 0) gives birth in chunk (1, 0)
    let f = field_with(&[(3, 1), (3, 2), (3, 3)], 4);
    let next = f.update_chunk((1, 0)).expect("a cell is born in the neighbour chunk");
    assert_eq!(next.alive_cells(), 1);
    for x in 0..4 {
        for y in 0..4 {
            assert_eq!(next.get_cell(x, y), x == 0 && y == 2);
        }
    }
    assert!(f.update_chunk((2, 0)).is_none());
    assert!(f.update_chunk((-1, 0)).is_none());
    let own = f.update_chunk((0, 0)).expect("the blinker keeps its centre");
    assert_eq!(own.alive_cells(), 2);
    assert!(own.get_cell(2, 2) && own.get_cell(3, 2));
}

#[test]
fn update_keys_covers_neighbours() {
    let f = field_with(&[(3, 1), (3, 2), (3, 3)], 4);
    let m = f.update_keys(&vec![(0, 0)]);
    let keys: Vec<(isize, isize)> = m.keys().cloned().collect();
    assert_eq!(keys, vec![(0, 0), (1, 0)]);
}

#[test]
fn worker_groups_follow_the_formula() {
    let mut f = Field::new(1);
    for i in 0..10 {
        f.set_cell((3 * i, 0), true);
    }
    assert_eq!(f.len(), 10);
    assert_eq!(f.partition_keys(3, 8).len(), 3);
    assert_eq!(f.partition_keys(3, 2).len(), 2);
    assert_eq!(f.partition_keys(20, 8).len(), 1);
    assert_eq!(f.partition_keys(1, 0).len(), 1);
    assert_eq!(f.partition_keys(1, 100).len(), 10);
    let groups = f.partition_keys(4, 8);
    assert_eq!(groups.len(), 2);
    let mut all: Vec<(isize, isize)> = groups.concat();
    all.sort();
    assert_eq!(all, sorted(f.chunk_coords()));
    assert_eq!(groups[0].len(), 5);
    assert_eq!(groups[1].len(), 5);
}

#[test]
fn empty_field_partitions_into_one_empty_group() {
    let f = Field::new(4);
    let groups = f.partition_keys(2, 4);
    assert_eq!(groups.len(), 1);
    assert!(groups[0].is_empty());
}

fn parallel_style_step(f: &mut Field, per: usize, max: usize) {
    assert!(f.can_step());
    let groups = f.partition_keys(per, max);
    let parts = groups.iter().map(|g| f.update_keys(g)).collect();
    f.merge_generation(&groups, parts);
}

#[test]
fn grouped_step_matches_serial_step() {
    let cells = [(1, 0), (2, 1), (0, 2), (1, 2), (2, 2), (10, 10), (11, 10), (12, 10), (-7, -7), (-7, -8), (-8, -7), (-8, -8), (20, -3)];
    for &(per, max) in &[(1usize, 1usize), (1, 3), (2, 2), (1, 64), (100, 4)] {
        let mut serial = field_with(&cells, 4);
        let mut grouped = field_with(&cells, 4);
        for _ in 0..5 {
            serial.update();
            parallel_style_step(&mut grouped, per, max);
            assert_eq!(live_cells(&serial, -30, 30), live_cells(&grouped, -30, 30));
            assert_eq!(sorted(serial.chunk_coords()), sorted(grouped.chunk_coords()));
        }
    }
}

#[test]
fn can_step_rejects_chunks_at_the_edge() {
    let mut f = Field::new(4);
    f.set_cell((0, 0), true);
    assert!(f.can_step());
    f.set_cell((isize::MAX, 0), true);
    assert!(!f.can_step());
    f.set_cell((isize::MAX, 0), false);
    assert!(f.can_step());
    f.set_cell((0, isize::MIN + 3), true);
    assert!(!f.can_step());
}

#[test]
fn square_counts_live_cells() {
    let mut sq = Square::new(3);
    assert_eq!(sq.size(), 3);
    assert_eq!(sq.alive_cells(), 0);
    sq.set_cell(0, 2, true);
    sq.set_cell(2, 0, true);
    sq.set_cell(2, 0, true);
    assert_eq!(sq.alive_cells(), 2);
    assert!(sq.get_cell(0, 2));
    assert!(!sq.get_cell(2, 2));
    sq.set_cell(1, 1, false);
    assert_eq!(sq.alive_cells(), 2);
    sq.set_cell(0, 2, false);
    assert_eq!(sq.alive_cells(), 1);
    let copy = sq.duplicate();
    assert_eq!(copy.alive_cells(), 1);
    assert!(copy.get_cell(2, 0));
}

#[test]
fn directions_shift_by_their_offsets() {
    let dirs = Direction::all();
    assert_eq!(dirs.len(), 8);
    let shifted: Vec<(isize, isize)> = dirs.iter().map(|d| Direction::shift((5, 5), d)).collect();
    assert_eq!(
        shifted,
        vec![(5, 6), (5, 4), (6, 5), (4, 5), (4, 6), (6, 6), (4, 4), (6, 4)]
    );
}

#[test]
fn partitioned_update_matches_update() {
    let cells = [(1, 0), (2, 1), (0, 2), (1, 2), (2, 2), (20, 20), (21, 20), (20, 21), (21, 21)];
    for &(per, max) in &[(1usize, 2usize), (1, 0), (3, 1), (1, 64)] {
        let mut serial = field_with(&cells, 4);
        let mut grouped = field_with(&cells, 4);
        serial.update();
        grouped.update_partitioned(per, max);
        let expected = vec![(0, 1), (1, 2), (1, 3), (2, 1), (2, 2), (20, 20), (20, 21), (21, 20), (21, 21)];
        assert_eq!(sorted(live_cells(&grouped, -30, 30)), expected);
        assert_eq!(sorted(live_cells(&serial, -30, 30)), expected);
        assert_eq!(grouped.len(), 2);
        assert_eq!(sorted(grouped.chunk_coords()), sorted(serial.chunk_coords()));
    }
}

#[test]
fn writing_the_same_value_keeps_the_chunks() {
    let mut f = field_with(&[(1, 1), (9, 9)], 8);
    let before = sorted(f.chunk_coords());
    f.set_cell((1, 1), true);
    f.set_cell((30, 30), false);
    assert_eq!(sorted(f.chunk_coords()), before);
    assert_eq!(f.len(), 2);
}

#[test]
fn chunk_count_after_steps() {
    let mut glider = field_with(&[(1, 0), (2, 1), (0, 2), (1, 2), (2, 2)], 8);
    glider.update();
    assert_eq!(sorted(live_cells(&glider, -10, 10)), vec![(0, 1), (1, 2), (1, 3), (2, 1), (2, 2)]);
    assert_eq!(glider.len(), 1);

    let mut block = field_with(&[(-1, -1), (0, -1), (-1, 0), (0, 0)], 8);
    block.update();
    assert_eq!(sorted(live_cells(&block, -10, 10)), vec![(-1, -1), (-1, 0), (0, -1), (0, 0)]);
    assert_eq!(block.len(), 4);

    let mut neg = field_with(&[(-2, -3), (-1, -2), (-3, -1), (-2, -1), (-1, -1)], 4);
    for _ in 0..4 {
        neg.update();
    }
    assert_eq!(sorted(live_cells(&neg, -10, 10)), vec![(-2, 0), (-1, -2), (-1, 0), (0, -1), (0, 0)]);
    assert_eq!(neg.len(), 4);
}
