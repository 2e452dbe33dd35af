//! What there is to draw: one sprite for every collapsed cell. Putting the
//! sprites on a screen is left to whoever owns the textures.

use vstd::prelude::*;
use crate::cell::{Cell, CellView, grid_valid, grid_within, universe};
use crate::defines::{GAME_HEIGHT, GAME_WIDTH};
use crate::filters::lemma_universe_filter_step;
use crate::propagate::lemma_row_major;
use crate::tile::{Tile, TileView};

verus! {

/// One picture to put on the screen: which texture, the rectangle it fills,
/// the angle in degrees by which it is turned clockwise, and the point of
/// the rectangle, counted from its corner, around which it is turned.
#[derive(Clone, Copy, Debug, PartialEq, Eq, Structural)]
pub struct Sprite {
    pub texture: usize,
    pub x: i32,
    pub y: i32,
    pub width: u32,
    pub height: u32,
    pub angle: i64,
    pub center_x: i32,
    pub center_y: i32,
}

/// The sprite of a variant in a rectangle: turned around the rectangle's middle.
pub open spec fn rendered(tile: TileView, x: i32, y: i32, width: u32, height: u32) -> Sprite {
    Sprite {
        texture: tile.texture,
        x,
        y,
        width,
        height,
        angle: tile.angle as i64,
        center_x: (width / 2) as i32,
        center_y: (height / 2) as i32,
    }
}

impl Tile {
    /// The sprite that shows this variant in the given rectangle.
    pub fn render(&self, x: i32, y: i32, width: u32, height: u32) -> (sprite: Sprite)
        ensures
            sprite == rendered(self@, x, y, width, height),
    {
        Sprite {
            texture: self.texture,
            x,
            y,
            width,
            height,
            angle: self.angle,
            center_x: (width / 2) as i32,
            center_y: (height / 2) as i32,
        }
    }
}

/// Whether the cell at place `i` is collapsed.
pub open spec fn is_collapsed(grid: Seq<CellView>) -> spec_fn(usize) -> bool {
    |i: usize| grid[i as int].collapsed
}

/// The sprite of the collapsed cell at place `i`. The drawing area is cut
/// into `dim` columns and `dim` rows of whole pixels; the cell at column
/// `i % dim` and row `i / dim` fills its field with the variant it holds.
pub open spec fn sprite_of(grid: Seq<CellView>, tiles: Seq<TileView>, dim: int) -> spec_fn(usize) -> Sprite {
    |i: usize|
        {
            let w = GAME_WIDTH as int / dim;
            let h = GAME_HEIGHT as int / dim;
            rendered(
                tiles[grid[i as int].sockets[0] as int],
                ((i as int % dim) * w) as i32,
                ((i as int / dim) * h) as i32,
                w as u32,
                h as u32,
            )
        }
}

/// The sprites of all collapsed cells, in grid order.
pub open spec fn drawn(grid: Seq<CellView>, tiles: Seq<TileView>, dim: int) -> Seq<Sprite> {
    universe(grid.len()).filter(is_collapsed(grid)).map_values(sprite_of(grid, tiles, dim))
}

/// Lists what is to be drawn: for every collapsed cell, in grid order, the
/// sprite of the variant it holds, placed in the cell's field.
pub fn draw(grid: &[Cell], tiles: &[Tile], dim: usize) -> (sprites: Vec<Sprite>)
    requires
        dim > 0,
        grid@.len() == dim * dim,
        grid_valid(grid.deep_view()),
        grid_within(grid.deep_view(), tiles@.len() as nat),
    ensures
        sprites@ == drawn(grid.deep_view(), tiles.deep_view(), dim as int),
{
    let ghost cells = grid.deep_view();
    let ghost catalog = tiles.deep_view();
    let count = grid.len();
    assert(dim < 0x1_0000_0000) by (nonlinear_arith)
        requires
            dim * dim <= usize::MAX,
            usize::MAX <= 0xffff_ffff_ffff_ffff,
            0 <= dim,
    ;
    let w: u32 = GAME_WIDTH / (dim as u32);
    let h: u32 = GAME_HEIGHT / (dim as u32);
    let mut sprites: Vec<Sprite> = Vec::with_capacity(count);
    let mut j: usize = 0;
    proof {
        lemma_universe_filter_step(0, is_collapsed(cells));
    }
    while j < dim
        invariant
            j <= dim,
            0 < dim < 0x1_0000_0000,
            count == dim * dim,
            grid@.len() == count,
            cells == grid.deep_view(),
            catalog == tiles.deep_view(),
            grid_valid(cells),
            grid_within(cells, tiles@.len() as nat),
            w == GAME_WIDTH as int / (dim as int),
            h == GAME_HEIGHT as int / (dim as int),
            sprites@ == universe((j * dim) as nat).filter(is_collapsed(cells)).map_values(
                sprite_of(cells, catalog, dim as int),
            ),
        decreases dim - j,
    {
        let mut i: usize = 0;
        while i < dim
            invariant
                i <= dim,
                j < dim,
                0 < dim < 0x1_0000_0000,
                count == dim * dim,
                grid@.len() == count,
                cells == grid.deep_view(),
                catalog == tiles.deep_view(),
                grid_valid(cells),
                grid_within(cells, tiles@.len() as nat),
                w == GAME_WIDTH as int / (dim as int),
                h == GAME_HEIGHT as int / (dim as int),
                sprites@ == universe((j * dim + i) as nat).filter(is_collapsed(cells)).map_values(
                    sprite_of(cells, catalog, dim as int),
                ),
            decreases dim - i,
        {
            proof {
                lemma_row_major(i as int, j as int, dim as int);
            }
            let index = i + j * dim;
            let cell = &grid[index];
            proof {
                lemma_universe_filter_step(index as nat, is_collapsed(cells));
            }
            if cell.collapsed {
                let tile_index = cell.sockets[0];
                let tile = &tiles[tile_index];
                // The field lies inside the drawing area, so its corner fits.
                assert(i * w <= GAME_WIDTH && j * h <= GAME_HEIGHT) by (nonlinear_arith)
                    requires
                        0 <= i < dim,
                        0 <= j < dim,
                        w == GAME_WIDTH as int / (dim as int),
                        h == GAME_HEIGHT as int / (dim as int),
                ;
                let sprite = tile.render(((i as u32) * w) as i32, ((j as u32) * h) as i32, w, h);
                sprites.push(sprite);
            }
            i = i + 1;
        }
        assert(j * dim + dim == (j + 1) * dim) by (nonlinear_arith);
        j = j + 1;
    }
    sprites
}

} // verus!
