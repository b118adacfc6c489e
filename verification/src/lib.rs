//! A verified engine for Conway's Game of Life.
//!
//! The library parses a textual grid description into a [`WorldConfig`],
//! evolves a [`World`] one generation at a time under the standard
//! neighbour-counting rule, and renders the grid back to text.

pub mod laws;
pub mod text;
pub mod world;
pub mod world_config;

pub use world::World;
pub use world_config::WorldConfig;

use vstd::prelude::*;

verus! {

/// The ways an operation on a grid can fail.
///
/// File access is left to callers; only the grid logic itself lives here,
/// so only the errors it can detect are listed.
#[derive(Clone, Copy, Debug, PartialEq, Eq, Structural)]
pub enum WorldError {
    /// The textual grid had rows of differing lengths, or no rows at all.
    MalformedGrid,
    /// A cell coordinate lay outside the grid's dimensions.
    OutOfBounds,
}

} // verus!
