//! A small two-state cellular automaton engine.
//!
//! A [`grid::Grid`] holds a rectangular array of cells, each alive or dead.
//! Patterns are described by an [`object::Object`], parsed from a textual
//! list of relative coordinates, and loaded onto a grid at an anchor point.
//! [`grid::Grid::advance`] steps the whole grid one generation under the
//! standard birth/survival rule with non-wrapping edges.

pub mod grid;
pub mod life;
pub mod object;

pub use grid::Cell;
pub use grid::Grid;
pub use object::Object;
pub use object::ParseError;
