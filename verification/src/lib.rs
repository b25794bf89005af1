//! Enumeration of the numberings of a grid of cells in which every line of
//! cells adds up to one common sum, as in the magic hexagon of order three.
//!
//! A [`Grid`] describes the cells and the lines that run through them, a
//! [`Puzzle`] holds the numbers placed so far, and [`Solutions`] walks the
//! tree of placements depth first, handing out one full numbering at a time
//! and leaving every branch in which a filled line misses the sum.

pub mod grid;
pub mod hexagon;
pub mod laws;
pub mod lines;
pub mod model;
pub mod pattern;
pub mod puzzle;
pub mod render;
pub mod search;
pub mod tiling;

pub use grid::{ConfigError, Grid, LineFamily};
pub use pattern::get_active_tiles_coords;
pub use model::{Board, LineCheck};
pub use puzzle::Puzzle;
pub use render::Tile;
pub use search::Solutions;
