use grainsim::grid::{Cell, SpatialGrid};

fn cell(x: i32, y: i32, z: i32) -> Cell {
    Cell { x, y, z }
}

#[test]
fn new_grid_holds_nothing() {
    let g = SpatialGrid::new();
    assert!(g.query(cell(0, 0, 0)).is_empty());
    assert!(g.query(cell(-3, 7, 1)).is_empty());
    assert!(g.neighbors(0, cell(0, 0, 0)).is_empty());
}

#[test]
fn insert_appends_to_the_bucket() {
    let mut g = SpatialGrid::new();
    g.insert(cell(1, 2, 3), 7);
    g.insert(cell(1, 2, 3), 4);
    g.insert(cell(1, 2, 4), 9);
    g.insert(cell(1, 2, 3), 7);
    assert_eq!(g.query(cell(1, 2, 3)), vec![7, 4, 7]);
    assert_eq!(g.query(cell(1, 2, 4)), vec![9]);
    assert!(g.query(cell(3, 2, 1)).is_empty());
}

#[test]
fn clear_empties_every_bucket() {
    let mut g = SpatialGrid::new();
    g.insert(cell(0, 0, 0), 1);
    g.insert(cell(5, 5, 5), 2);
    g.clear();
    assert!(g.query(cell(0, 0, 0)).is_empty());
    assert!(g.query(cell(5, 5, 5)).is_empty());
}

#[test]
fn rebuild_files_each_grain_under_its_cell() {
    let mut g = SpatialGrid::new();
    let cells = vec![cell(0, 0, 0), cell(1, 0, 0), cell(0, 0, 0), cell(-1, 4, 2), cell(1, 0, 0), cell(0, 0, 0)];
    g.rebuild(&cells);
    assert_eq!(g.query(cell(0, 0, 0)), vec![0, 2, 5]);
    assert_eq!(g.query(cell(1, 0, 0)), vec![1, 4]);
    assert_eq!(g.query(cell(-1, 4, 2)), vec![3]);
    assert!(g.query(cell(0, 1, 0)).is_empty());
}

#[test]
fn rebuild_puts_every_grain_in_exactly_one_bucket() {
    let mut g = SpatialGrid::new();
    let mut cells = Vec::new();
    for i in 0..60i32 {
        cells.push(cell(i % 4, (i / 4) % 3, i % 5 - 2));
    }
    g.rebuild(&cells);
    let mut seen = vec![0u32; cells.len()];
    for x in 0..4 {
        for y in 0..3 {
            for z in -2..3 {
                let c = cell(x, y, z);
                for j in g.query(c) {
                    assert_eq!(cells[j as usize], c);
                    seen[j as usize] += 1;
                }
            }
        }
    }
    assert!(seen.iter().all(|&n| n == 1));
}

#[test]
fn rebuild_leaves_nothing_of_the_filling_before() {
    let mut g = SpatialGrid::new();
    g.rebuild(&vec![cell(0, 0, 0), cell(9, 9, 9), cell(0, 0, 0)]);
    assert_eq!(g.query(cell(9, 9, 9)), vec![1]);
    g.rebuild(&vec![cell(2, 2, 2), cell(0, 0, 0)]);
    assert_eq!(g.query(cell(0, 0, 0)), vec![1]);
    assert_eq!(g.query(cell(2, 2, 2)), vec![0]);
    assert!(g.query(cell(9, 9, 9)).is_empty());
    g.rebuild(&Vec::new());
    assert!(g.query(cell(0, 0, 0)).is_empty());
    assert!(g.query(cell(2, 2, 2)).is_empty());
}

#[test]
fn cells_that_differ_in_one_coordinate_do_not_share_a_bucket() {
    let mut g = SpatialGrid::new();
    let cells = vec![
        cell(0, 0, 1),
        cell(0, 1, 0),
        cell(1, 0, 0),
        cell(0, 0, -1),
        cell(0, -1, 0),
        cell(-1, 0, 0),
        cell(i32::MAX, i32::MIN, 0),
        cell(i32::MIN, i32::MAX, 0),
        cell(i32::MIN, i32::MIN, i32::MIN),
        cell(i32::MAX, i32::MAX, i32::MAX),
        cell(0, 0, i32::MIN),
        cell(0, -1, i32::MAX),
    ];
    g.rebuild(&cells);
    for (i, c) in cells.iter().enumerate() {
        assert_eq!(g.query(*c), vec![i as u32]);
    }
}

#[test]
fn neighbors_leave_out_the_grain_itself() {
    let mut g = SpatialGrid::new();
    g.rebuild(&vec![cell(0, 0, 0), cell(0, 0, 0), cell(0, 0, 0)]);
    assert_eq!(g.neighbors(0, cell(0, 0, 0)), vec![1, 2]);
    assert_eq!(g.neighbors(1, cell(0, 0, 0)), vec![0, 2]);
    assert_eq!(g.neighbors(2, cell(0, 0, 0)), vec![0, 1]);
    // A grain that is not in the grid has all three as candidates.
    assert_eq!(g.neighbors(3, cell(0, 0, 0)), vec![0, 1, 2]);
}

#[test]
fn neighbors_visit_cells_with_x_slowest_and_z_fastest() {
    let mut g = SpatialGrid::new();
    let cells = vec![
        cell(0, 0, 0),    // 0: the grain asked about
        cell(1, 1, 1),    // 1: last cell of the neighborhood
        cell(0, 0, 1),    // 2: right after the center
        cell(-1, -1, -1), // 3: first cell of the neighborhood
        cell(0, -1, 1),   // 4
        cell(-1, 1, 0),   // 5
        cell(1, -1, -1),  // 6
        cell(0, 0, 0),    // 7: shares the center
        cell(2, 0, 0),    // 8: too far along x
        cell(0, -2, 0),   // 9: too far along y
        cell(1, 1, 2),    // 10: too far along z
    ];
    g.rebuild(&cells);
    assert_eq!(g.neighbors(0, cell(0, 0, 0)), vec![3, 5, 4, 7, 2, 6, 1]);
}

#[test]
fn neighbors_reach_all_twenty_seven_cells_and_no_farther() {
    let mut g = SpatialGrid::new();
    let mut cells = Vec::new();
    for x in -2..=2 {
        for y in -2..=2 {
            for z in -2..=2 {
                cells.push(cell(x, y, z));
            }
        }
    }
    g.rebuild(&cells);
    let center = cells.iter().position(|c| *c == cell(0, 0, 0)).unwrap() as u32;
    let found = g.neighbors(center, cell(0, 0, 0));
    assert_eq!(found.len(), 26);
    for (j, c) in cells.iter().enumerate() {
        let near = c.x.abs() <= 1 && c.y.abs() <= 1 && c.z.abs() <= 1;
        let named = found.iter().filter(|&&f| f == j as u32).count();
        if near && j as u32 != center {
            assert_eq!(named, 1);
        } else {
            assert_eq!(named, 0);
        }
    }
}

#[test]
fn neighbors_are_mutual() {
    let mut g = SpatialGrid::new();
    let mut cells = Vec::new();
    for i in 0..40i32 {
        cells.push(cell((i * 7) % 5, (i * 3) % 4, (i * 11) % 3));
    }
    g.rebuild(&cells);
    for i in 0..cells.len() {
        let mine = g.neighbors(i as u32, cells[i]);
        for j in 0..cells.len() {
            let theirs = g.neighbors(j as u32, cells[j]);
            assert_eq!(mine.contains(&(j as u32)), theirs.contains(&(i as u32)));
        }
    }
}

#[test]
fn neighbors_at_the_end_of_the_coordinate_range() {
    let mut g = SpatialGrid::new();
    let cells = vec![
        cell(i32::MAX, i32::MAX, i32::MAX),
        cell(i32::MAX, i32::MAX - 1, i32::MAX),
        cell(i32::MIN, i32::MIN, i32::MIN),
        cell(i32::MIN + 1, i32::MIN, i32::MIN),
        cell(i32::MIN, i32::MAX, 0),
    ];
    g.rebuild(&cells);
    assert_eq!(g.neighbors(0, cells[0]), vec![1]);
    assert_eq!(g.neighbors(1, cells[1]), vec![0]);
    assert_eq!(g.neighbors(2, cells[2]), vec![3]);
    assert_eq!(g.neighbors(3, cells[3]), vec![2]);
    assert!(g.neighbors(4, cells[4]).is_empty());
}

#[test]
fn neighbors_follow_the_cell_that_is_asked_about() {
    // The grain has moved since the grid was filled: its candidates are taken
    // around the cell it is in now.
    let mut g = SpatialGrid::new();
    g.rebuild(&vec![cell(0, 0, 0), cell(3, 0, 0), cell(1, 0, 0)]);
    assert_eq!(g.neighbors(0, cell(0, 0, 0)), vec![2]);
    assert_eq!(g.neighbors(0, cell(2, 0, 0)), vec![2, 1]);
    assert_eq!(g.neighbors(0, cell(4, 0, 0)), vec![1]);
    assert_eq!(g.neighbors(0, cell(-1, 0, 0)), Vec::<u32>::new());
    assert_eq!(g.neighbors(2, cell(-1, 0, 0)), vec![0]);
}
