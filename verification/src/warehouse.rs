//! A bounded 2-D grid of walls and movable crates, pushed around by an agent.
//!
//! Submodules, leaf to root: [`cell`] holds the coordinate and cell-content
//! model, [`store`] the coordinate-to-content mapping, [`narrow`] the
//! one-cell-per-crate grid with its push logic, [`wide`] the grid of
//! two-cell crates with branching vertical pushes, [`parse`] the reading of
//! both grids from their text form, and [`part1`] / [`part2`] the drivers
//! that fold a command stream over a freshly parsed grid and score what
//! remains.

pub mod cell;
pub mod narrow;
pub mod parse;
pub mod part1;
pub mod part2;
pub mod store;
pub mod wide;
