//! Deterministic UV-remap texture computation.
//!
//! The library turns a seed string, frame dimensions, a nominal cell size and
//! a list of protected regions into a pixel-remapping texture: the regions are
//! cut into grid-aligned cells, the frame is cut into at most as many cells,
//! the frame cells are shuffled by a seeded pseudo-random permutation, and a
//! rasterizer writes, for every mapped texel, the normalized source coordinate
//! it should sample from. A progress parameter interpolates between the
//! identity mapping and the fully scrambled one.

pub mod rect;
pub mod seed;
pub mod shuffle;
pub mod parse;
pub mod grid;
pub mod solver;
pub mod raster;
pub mod uvmap;
