//! A sparse, unbounded two-dimensional grid of single characters, with a
//! tight bounding box over the occupied coordinates and a deterministic
//! rendering of the box to a block of text.

pub mod canvas;
pub mod laws;

pub use canvas::DebugCanvas;
pub use canvas::Options;
