//! Grid cells and the candidate domain each of them carries.

use vstd::prelude::*;

verus! {

/// The full variant universe of a catalog of `n` variants: `0, 1, .., n - 1`.
pub open spec fn universe(n: nat) -> Seq<usize> {
    Seq::new(n, |i: int| i as usize)
}

/// One position of the grid.
///
/// `sockets` is the domain: the variant indices the cell may still resolve
/// to. A collapsed cell is meant to hold exactly one, see [`cell_valid`].
#[derive(Debug)]
pub struct Cell {
    pub collapsed: bool,
    pub sockets: Vec<usize>,
}

/// The mathematical view of a cell, which the contracts speak of: its flag,
/// and its domain as a sequence.
pub struct CellView {
    pub collapsed: bool,
    pub sockets: Seq<usize>,
}

impl View for Cell {
    type V = CellView;

    open spec fn view(&self) -> CellView {
        CellView { collapsed: self.collapsed, sockets: self.sockets@ }
    }
}

impl DeepView for Cell {
    type V = CellView;

    open spec fn deep_view(&self) -> CellView {
        self@
    }
}

impl Clone for Cell {
    fn clone(&self) -> (r: Cell)
        ensures
            r@ == self@,
    {
        Cell { collapsed: self.collapsed, sockets: self.sockets.clone() }
    }
}

impl Cell {
    /// An uncollapsed cell whose domain is the whole universe of `value` variants.
    pub fn from_value(value: usize) -> (cell: Cell)
        ensures
            cell@ == (CellView { collapsed: false, sockets: universe(value as nat) }),
    {
        let mut sockets: Vec<usize> = Vec::new();
        let mut i: usize = 0;
        while i < value
            invariant
                i <= value,
                sockets@ == universe(i as nat),
            decreases value - i,
        {
            sockets.push(i);
            i = i + 1;
        }
        Cell { collapsed: false, sockets }
    }

    /// An uncollapsed cell with the given domain.
    pub fn from_list(value: Vec<usize>) -> (cell: Cell)
        ensures
            cell@ == (CellView { collapsed: false, sockets: value@ }),
    {
        Cell { collapsed: false, sockets: value }
    }
}

/// The invariant of a single cell: once collapsed, its domain is a singleton.
pub open spec fn cell_valid(cell: CellView) -> bool {
    cell.collapsed ==> cell.sockets.len() == 1
}

/// The invariant of a grid: every cell is valid.
pub open spec fn grid_valid(grid: Seq<CellView>) -> bool {
    forall|i: int| 0 <= i < grid.len() ==> cell_valid(#[trigger] grid[i])
}

/// Every candidate of every cell names a variant of a catalog of `n` variants.
pub open spec fn grid_within(grid: Seq<CellView>, n: nat) -> bool {
    forall|i: int, k: int|
        0 <= i < grid.len() && 0 <= k < grid[i].sockets.len() ==> (#[trigger] grid[i].sockets[k]) < n
}

/// Whether the candidates of a domain grow strictly from each to the next.
/// Such a domain holds no candidate twice.
pub open spec fn ascending(s: Seq<usize>) -> bool {
    forall|i: int, j: int| 0 <= i < j < s.len() ==> s[i] < s[j]
}

/// Every domain of the grid is in ascending order, and so free of repeats.
pub open spec fn grid_ascending(grid: Seq<CellView>) -> bool {
    forall|i: int| 0 <= i < grid.len() ==> ascending((#[trigger] grid[i]).sockets)
}

/// The grid that generation starts from: `len` uncollapsed cells, each with
/// the whole universe of `n` variants as its domain.
pub open spec fn fresh_grid(len: nat, n: nat) -> Seq<CellView> {
    Seq::new(len, |i: int| CellView { collapsed: false, sockets: universe(n) })
}

} // verus!
