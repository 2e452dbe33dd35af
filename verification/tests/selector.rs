use wfc::cell::Cell;
use wfc::select::pick_cell_with_least_entropy;

fn open(sockets: Vec<usize>) -> Cell {
    Cell { collapsed: false, sockets }
}

fn fixed(socket: usize) -> Cell {
    Cell { collapsed: true, sockets: vec![socket] }
}

#[test]
fn selector_returns_all_cells_of_a_fresh_grid() {
    let grid = vec![open(vec![0, 1]), open(vec![0, 1]), open(vec![0, 1]), open(vec![0, 1])];
    assert_eq!(pick_cell_with_least_entropy(&grid), vec![0, 1, 2, 3]);
}

#[test]
fn selector_returns_the_single_smallest_cell() {
    let grid = vec![open(vec![0, 1, 2]), open(vec![1]), open(vec![0, 2])];
    assert_eq!(pick_cell_with_least_entropy(&grid), vec![1]);
}

#[test]
fn selector_keeps_ties_in_grid_order() {
    let grid = vec![open(vec![0, 1]), open(vec![0, 1, 2]), open(vec![1, 2]), open(vec![0, 2])];
    assert_eq!(pick_cell_with_least_entropy(&grid), vec![0, 2, 3]);
}

#[test]
fn selector_ignores_collapsed_cells() {
    let grid = vec![fixed(0), open(vec![0, 1, 2]), fixed(2), open(vec![0, 1])];
    assert_eq!(pick_cell_with_least_entropy(&grid), vec![3]);
}

#[test]
fn selector_ignores_a_collapsed_cell_with_a_smaller_domain() {
    let grid = vec![fixed(1), open(vec![0, 1]), open(vec![1, 2])];
    assert_eq!(pick_cell_with_least_entropy(&grid), vec![1, 2]);
}

#[test]
fn selector_returns_nothing_on_a_complete_grid() {
    let grid = vec![fixed(0), fixed(1), fixed(0), fixed(1)];
    assert!(pick_cell_with_least_entropy(&grid).is_empty());
}

#[test]
fn selector_returns_nothing_on_an_empty_grid() {
    let grid: Vec<Cell> = Vec::new();
    assert!(pick_cell_with_least_entropy(&grid).is_empty());
}

#[test]
fn selector_includes_cells_with_an_empty_domain() {
    let grid = vec![open(vec![0]), open(vec![]), fixed(0), open(vec![])];
    assert_eq!(pick_cell_with_least_entropy(&grid), vec![1, 3]);
}

#[test]
fn selector_group_is_never_empty_while_a_cell_is_open_and_shares_one_size() {
    let grids = vec![
        vec![open(vec![0, 1, 2]), open(vec![2, 1]), fixed(0), open(vec![0, 1])],
        vec![fixed(0), fixed(0), open(vec![0, 1, 2, 3])],
        vec![open(vec![]), open(vec![1])],
    ];
    for grid in grids {
        let group = pick_cell_with_least_entropy(&grid);
        assert!(!group.is_empty());
        let least = grid.iter().filter(|c| !c.collapsed).map(|c| c.sockets.len()).min().unwrap();
        for &i in &group {
            assert!(!grid[i].collapsed);
            assert_eq!(grid[i].sockets.len(), least);
        }
        for (i, c) in grid.iter().enumerate() {
            if !c.collapsed && c.sockets.len() == least {
                assert!(group.contains(&i));
            }
        }
    }
}
