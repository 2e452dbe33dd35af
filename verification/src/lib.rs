//! Wave function collapse on a square grid of tiles.
//!
//! A catalog of tile variants says which variants may sit next to each other;
//! a grid of cells holds, for every position, the variants that are still
//! possible there. Generation repeatedly picks a cell of least entropy,
//! collapses it to one variant, and sweeps the consequences over the grid.
//! When a cell is left without a variant, the grid is thrown away and
//! generation starts over.
//!
//! The parts, leaves first:
//!
//! - [`utility`]: edge labels, and when two of them fit together;
//! - [`direction`]: the four sides of a tile;
//! - [`tile`] and [`catalog`]: the variants, their rotated copies and their
//!   adjacency;
//! - [`cell`]: the cells of the grid and what makes a grid valid;
//! - [`select`], [`collapse`], [`propagate`]: the three steps of a turn;
//! - [`generate`]: the turn itself, and what holds of every grid it reaches;
//! - [`narrowing`]: that domains only ever narrow;
//! - [`render`]: what there is to draw;
//! - [`random`]: the source of chance;
//! - [`filters`]: facts about filtered sequences that the proofs share;
//! - [`defines`] and [`error`]: the shape of the input, and what can go
//!   wrong with it.
//!
//! Every function states what it computes over the views of its arguments,
//! and Verus proves that it does. Nothing panics.

pub mod catalog;
pub mod cell;
pub mod collapse;
pub mod defines;
pub mod direction;
pub mod error;
pub mod filters;
pub mod generate;
pub mod narrowing;
pub mod propagate;
pub mod random;
pub mod render;
pub mod select;
pub mod tile;
pub mod utility;
