//! Rule engine for a Shisen-sho style tile-matching puzzle.
//!
//! A board is a rectangular grid of cells, each empty or holding a tile of
//! some kind. Two tiles of the same kind may be removed together when an
//! orthogonal path with at most two bends connects them without crossing any
//! other tile. The board generator produces layouts that can always be
//! cleared completely.

pub mod shisen;
pub mod util;
