//! Rules engine for a sliding-tile merge puzzle on a fixed 4x4 grid.
//!
//! The grid holds optional power-of-two tile values. A directional move
//! compacts every line toward the destination edge, merging adjacent equal
//! tiles (each merged tile at most once per move), and reports whether
//! anything changed. A spawn operation fills a uniformly chosen empty cell
//! with a 2 or a 4. A terminal predicate recognises grids on which no move
//! can change anything.

pub mod board;
pub mod engine;
pub mod laws;
pub mod model;

pub use board::Board;
pub use model::Direction;
