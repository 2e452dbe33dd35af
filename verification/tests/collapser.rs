use wfc::cell::Cell;
use wfc::collapse::{collapse_with, random_selection_of_sockets};

fn open(sockets: Vec<usize>) -> Cell {
    Cell { collapsed: false, sockets }
}

#[test]
fn collapse_with_fixes_the_cell_to_the_drawn_candidate() {
    let mut grid = vec![open(vec![0, 1, 2]), open(vec![0, 1, 2])];
    assert!(collapse_with(&mut grid, 1, Some(2)));
    assert!(!grid[0].collapsed);
    assert_eq!(grid[0].sockets, vec![0, 1, 2]);
    assert!(grid[1].collapsed);
    assert_eq!(grid[1].sockets, vec![2]);
}

#[test]
fn collapse_with_fails_on_an_empty_domain_and_still_marks_the_cell() {
    let mut grid = vec![open(vec![]), open(vec![0, 1])];
    assert!(!collapse_with(&mut grid, 0, None));
    assert!(grid[0].collapsed);
    assert!(grid[0].sockets.is_empty());
    assert!(!grid[1].collapsed);
    assert_eq!(grid[1].sockets, vec![0, 1]);
}

#[test]
fn collapse_with_ignores_a_draw_for_an_empty_domain() {
    let mut grid = vec![open(vec![])];
    assert!(!collapse_with(&mut grid, 0, Some(3)));
    assert!(grid[0].collapsed);
    assert!(grid[0].sockets.is_empty());
}

#[test]
fn collapse_with_fails_without_a_draw() {
    let mut grid = vec![open(vec![4, 5])];
    assert!(!collapse_with(&mut grid, 0, None));
    assert!(grid[0].collapsed);
    assert_eq!(grid[0].sockets, vec![4, 5]);
}

#[test]
fn collapser_returns_false_on_an_empty_tie_group() {
    let mut grid = vec![open(vec![0, 1])];
    assert!(!random_selection_of_sockets(&mut grid, &Vec::new()));
    assert!(!grid[0].collapsed);
    assert_eq!(grid[0].sockets, vec![0, 1]);
}

#[test]
fn collapser_collapses_one_cell_of_the_group_to_one_of_its_candidates() {
    for _ in 0..200 {
        let before = vec![open(vec![3, 5, 8]), open(vec![0, 1, 2, 3]), open(vec![2, 7, 9]), open(vec![1, 4, 6])];
        let mut grid = before.clone();
        let group = vec![0, 2, 3];
        assert!(random_selection_of_sockets(&mut grid, &group));
        let changed: Vec<usize> = (0..grid.len()).filter(|&i| grid[i].collapsed).collect();
        assert_eq!(changed.len(), 1);
        let target = changed[0];
        assert!(group.contains(&target));
        assert_eq!(grid[target].sockets.len(), 1);
        assert!(before[target].sockets.contains(&grid[target].sockets[0]));
        for i in 0..grid.len() {
            if i != target {
                assert!(!grid[i].collapsed);
                assert_eq!(grid[i].sockets, before[i].sockets);
            }
        }
    }
}

#[test]
fn collapser_reaches_every_cell_and_every_candidate() {
    let mut cells = [false; 3];
    let mut candidates = [false; 3];
    for _ in 0..2000 {
        let mut grid = vec![open(vec![0, 1, 2]), open(vec![0, 1, 2]), open(vec![0, 1, 2])];
        assert!(random_selection_of_sockets(&mut grid, &vec![0, 1, 2]));
        let target = (0..3).find(|&i| grid[i].collapsed).unwrap();
        cells[target] = true;
        candidates[grid[target].sockets[0]] = true;
    }
    assert_eq!(cells, [true; 3]);
    assert_eq!(candidates, [true; 3]);
}

#[test]
fn collapser_with_a_single_choice_is_certain() {
    let mut grid = vec![open(vec![0, 1]), open(vec![6])];
    assert!(random_selection_of_sockets(&mut grid, &vec![1]));
    assert!(!grid[0].collapsed);
    assert_eq!(grid[0].sockets, vec![0, 1]);
    assert!(grid[1].collapsed);
    assert_eq!(grid[1].sockets, vec![6]);
}

#[test]
fn collapser_fails_on_a_cell_without_candidates() {
    let mut grid = vec![open(vec![0, 1]), open(vec![])];
    assert!(!random_selection_of_sockets(&mut grid, &vec![1]));
    assert!(grid[1].collapsed);
    assert!(grid[1].sockets.is_empty());
    assert!(!grid[0].collapsed);
    assert_eq!(grid[0].sockets, vec![0, 1]);
}
