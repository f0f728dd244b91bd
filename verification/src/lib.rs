//! Verified solvers for a family of small grid and list puzzles.
//!
//! The heart of the crate is the [`warehouse`] module: a bounded 2-D grid
//! holding walls and movable crates, an agent that pushes chains of crates,
//! and a scorer over the final crate positions. The push logic comes in a
//! narrow variant (one cell per crate) and a wide variant (two horizontally
//! adjacent half-cells per crate), whose vertical pushes branch into a tree
//! of dependent crates that must be validated before any cell is mutated.
//!
//! Around it stand smaller verified solvers: [`reports`] checks level
//! sequences, [`manuals`] orders pages under precedence rules,
//! [`calibration`] searches operator placements, [`antennas`] projects
//! antinodes across a rooftop grid, [`disk`] compacts a block-mapped disk,
//! [`trails`] rates climbing
//! paths on a height map, and [`patrol`] holds a patrolling guard's
//! vocabulary. [`text`] carries
//! the shared line, word and number handling.

pub mod antennas;
pub mod calibration;
pub mod disk;
pub mod manuals;
pub mod patrol;
pub mod reports;
pub mod text;
pub mod trails;
pub mod warehouse;
