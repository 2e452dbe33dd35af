//! Sizes of a default run and the shape in which tile definitions arrive.

use vstd::prelude::*;

verus! {

/// Cells along one side of the grid in a default run.
pub const DIM: usize = 15;

/// Width of the drawing area, in pixels.
pub const GAME_WIDTH: u32 = 600;

/// Height of the drawing area, in pixels.
pub const GAME_HEIGHT: u32 = 600;

/// One raw tile definition: where its picture comes from, its four edge
/// labels in the order up, right, down, left, and whether it may be rotated.
#[derive(Debug)]
pub struct TileData {
    pub src: String,
    pub edges: Vec<String>,
    pub is_rotate: bool,
}

/// The raw tile definitions of a run, in catalog order.
#[derive(Debug)]
pub struct TileListData {
    pub tile_list: Vec<TileData>,
}

} // verus!
