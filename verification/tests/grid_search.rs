use hexpath::grid::{get_neighbors, grid_is_valid};
use hexpath::search::find_path;
use hexpath::parse::{parse_grid, GridError};

fn neighbors_set(pos: (usize, usize), rows: usize, cols: usize) -> Vec<(usize, usize)> {
    let mut v = get_neighbors(pos, rows, cols);
    v.sort();
    v
}

#[test]
fn one_cell_grid_both_modes() {
    let grid = vec![vec![7u32]];
    assert_eq!(find_path(&grid, true), Some(7));
    assert_eq!(find_path(&grid, false), Some(7));
}

#[test]
fn one_cell_grid_zero_weight() {
    let grid = vec![vec![0u32]];
    assert_eq!(find_path(&grid, true), Some(0));
    assert_eq!(find_path(&grid, false), Some(0));
}

#[test]
fn min_never_exceeds_max() {
    // The greedy maximize pass revisits cells as long as a revisit still
    // raises a label, so on grids with positive-weight cycles it can churn
    // for a very long time; with the end cell the dearest of all, the end
    // settles as soon as it is reached. The minimize pass is a plain
    // shortest-path search and needs no such care.
    let grids = vec![
        vec![vec![0u32, 1], vec![2, 255]],
        vec![vec![0u32, 0, 0], vec![0, 0, 0], vec![0, 0, 255]],
        vec![vec![0u32, 1, 9], vec![2, 55, 3], vec![4, 5, 255]],
        vec![vec![10u32, 20, 30, 40, 50]],
        vec![vec![1u32], vec![2], vec![3]],
    ];
    for grid in grids {
        let lo = find_path(&grid, true);
        let hi = find_path(&grid, false);
        assert!(lo.is_some() && hi.is_some());
        assert!(lo.unwrap() <= hi.unwrap());
    }
}

#[test]
fn find_path_is_idempotent() {
    let grid = vec![vec![0u32, 1, 9], vec![2, 55, 3], vec![4, 5, 255]];
    assert_eq!(find_path(&grid, true), find_path(&grid, true));
    assert_eq!(find_path(&grid, false), find_path(&grid, false));
    assert_eq!(grid, vec![vec![0u32, 1, 9], vec![2, 55, 3], vec![4, 5, 255]]);
}

#[test]
fn neighbors_are_symmetric_both_parities() {
    let rows = 3;
    let cols = 4;
    for r in 0..rows {
        for c in 0..cols {
            for &(nr, nc) in get_neighbors((r, c), rows, cols).iter() {
                let back = get_neighbors((nr, nc), rows, cols);
                assert!(
                    back.contains(&(r, c)),
                    "asymmetric: ({},{}) lists ({},{}) but not back",
                    r,
                    c,
                    nr,
                    nc
                );
            }
        }
    }
}

#[test]
fn two_by_two_scenario() {
    // Start (0,0)=0x00, end (1,1)=0xFF. Column 0 is even, so (0,0) touches
    // only (1,0) and (0,1). The cheapest route takes the 0x01 cell:
    // 0x00 + 0x01 + 0xFF = 0x100.
    let grid = vec![vec![0x00u32, 0x01], vec![0x02, 0xFF]];
    assert_eq!(neighbors_set((0, 0), 2, 2), vec![(0, 1), (1, 0)]);
    assert_eq!(find_path(&grid, true), Some(0x100));
}

#[test]
fn all_zero_but_end_both_modes_agree() {
    let grid = vec![vec![0u32, 0, 0], vec![0, 0, 0], vec![0, 0, 77]];
    assert_eq!(find_path(&grid, true), Some(77));
    assert_eq!(find_path(&grid, false), Some(77));
}

#[test]
fn single_row_grid_walks_right() {
    let grid = vec![vec![1u32, 2, 3, 4, 5]];
    // In a single row every cell touches only its left and right neighbors.
    assert_eq!(neighbors_set((0, 2), 1, 5), vec![(0, 1), (0, 3)]);
    assert_eq!(neighbors_set((0, 0), 1, 5), vec![(0, 1)]);
    assert_eq!(find_path(&grid, true), Some(15));
    assert_eq!(find_path(&grid, false), Some(15));
}

#[test]
fn single_column_grid() {
    let grid = vec![vec![1u32], vec![2], vec![3]];
    assert_eq!(find_path(&grid, true), Some(6));
    assert_eq!(find_path(&grid, false), Some(6));
}

#[test]
fn ragged_grid_rejected_before_search() {
    let ragged = vec![vec![0u32, 1], vec![2]];
    assert!(!grid_is_valid(&ragged));
    let lines = vec!["00 01".to_string(), "02".to_string()];
    assert_eq!(parse_grid(&lines), Err(GridError::MalformedGrid));
}

#[test]
fn empty_grid_rejected() {
    assert!(!grid_is_valid(&Vec::new()));
    assert!(!grid_is_valid(&vec![Vec::new()]));
    assert_eq!(parse_grid(&Vec::new()), Err(GridError::MalformedGrid));
    let blank = vec!["   ".to_string()];
    assert_eq!(parse_grid(&blank), Err(GridError::MalformedGrid));
}

#[test]
fn parsed_map_is_searched() {
    let lines = vec!["00 01".to_string(), "02 FF".to_string()];
    let grid = parse_grid(&lines).unwrap();
    assert_eq!(grid, vec![vec![0u32, 1], vec![2, 255]]);
    assert_eq!(find_path(&grid, true), Some(0x100));
}

#[test]
fn maximize_prefers_expensive_cells() {
    // Both routes through the middle exist; the dearest one costs
    // 0 + 2 + 255 = 257 when settled greedily.
    let grid = vec![vec![0u32, 1], vec![2, 255]];
    let hi = find_path(&grid, false).unwrap();
    assert!(hi >= find_path(&grid, true).unwrap());
    assert_eq!(hi, 257);
}

#[test]
fn overflowing_totals_are_never_returned() {
    // Every route to the end would cost more than a u32 can hold, so the
    // search reports absence rather than a wrapped total.
    let grid = vec![vec![u32::MAX, u32::MAX]];
    assert_eq!(find_path(&grid, true), None);
    assert_eq!(find_path(&grid, false), None);
}

#[test]
fn corner_neighbor_counts() {
    // Interior cell of an even column has six neighbors.
    assert_eq!(get_neighbors((1, 2), 4, 5).len(), 6);
    // Interior cell of an odd column has six neighbors too.
    assert_eq!(get_neighbors((1, 1), 4, 5).len(), 6);
    // The top-left corner has two.
    assert_eq!(get_neighbors((0, 0), 4, 5).len(), 2);
}
