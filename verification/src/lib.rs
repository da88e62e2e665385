//! Folds a snake cube: a chain of unit cubes joined by straight and turning
//! links is laid, layer by layer, into every shape that fits a bounded region.
//!
//! - `snake` holds the chain and the bricks, `area` the region, and `tree`
//!   the lineages in which foldings share their beginnings.
//! - `path` is the engine. What it computes is defined in `search`, over
//!   the connected free space of `region`; `laws` proves what every run keeps.
//! - `parser` reads the description of a puzzle, with the help of `text`,
//!   and `report` puts the outcome into words.
pub mod area;
pub mod laws;
pub mod parser;
pub mod path;
pub mod region;
pub mod report;
pub mod search;
pub mod snake;
pub mod text;
pub mod tree;
