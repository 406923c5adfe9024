//! Engine of a tile-map editor: colour rasters, four-colour palette swaps,
//! the arithmetic between pointer positions and grid cells, a tileset strip
//! built from a blockset, a map composed of its blocks, and a linear
//! undo/redo history over whole map states.

pub mod config;
pub mod constants;
pub mod raster;
pub mod palette;
pub mod position;
pub mod history;
pub mod tileset;
pub mod maparea;
