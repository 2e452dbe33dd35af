use wfc::cell::Cell;
use wfc::generate::create_grid;

#[test]
fn from_value_holds_the_whole_universe() {
    let c = Cell::from_value(4);
    assert!(!c.collapsed);
    assert_eq!(c.sockets, vec![0, 1, 2, 3]);
}

#[test]
fn from_value_of_an_empty_catalog() {
    let c = Cell::from_value(0);
    assert!(!c.collapsed);
    assert!(c.sockets.is_empty());
}

#[test]
fn from_list_keeps_the_list() {
    let c = Cell::from_list(vec![5, 2, 9]);
    assert!(!c.collapsed);
    assert_eq!(c.sockets, vec![5, 2, 9]);
}

#[test]
fn from_list_of_nothing() {
    let c = Cell::from_list(Vec::new());
    assert!(!c.collapsed);
    assert!(c.sockets.is_empty());
}

#[test]
fn clone_copies_flag_and_domain() {
    let c = Cell { collapsed: true, sockets: vec![3] };
    let d = c.clone();
    assert!(d.collapsed);
    assert_eq!(d.sockets, vec![3]);
}

#[test]
fn create_grid_makes_dim_squared_full_cells() {
    let grid = create_grid(3, 2);
    assert_eq!(grid.len(), 9);
    for cell in &grid {
        assert!(!cell.collapsed);
        assert_eq!(cell.sockets, vec![0, 1]);
    }
}

#[test]
fn create_grid_of_side_zero_is_empty() {
    assert!(create_grid(0, 5).is_empty());
}
