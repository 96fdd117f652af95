//! A petri dish: a square grid of cells that evolves under small rewrite rules.
//!
//! A rule is a rectangular template that says, entry by entry, what a cell has to be
//! for the rule to match and what is written there when it is applied. From its base
//! template a rule derives its variants, the mirror images and rotations that it
//! allows. The dish keeps a cache of every position at which a variant matches,
//! repairs it after each edit of the world, and steps the simulation by applying a
//! match chosen at random.
//!
//! - [`cell`]: cells, their display records, groups of cells
//! - [`pattern`]: templates and their images under the symmetries of the square
//! - [`variants`]: the variants of a rule, and that they are closed under its symmetries
//! - [`rule`]: rules
//! - [`world`]: the grid, and whether a template matches it
//! - [`apply`]: what the application of a template writes
//! - [`matching`]: anchors, scans, and what a repair of the cache has to do
//! - [`cache`]: the list of matches of one variant
//! - [`dish`]: the dish itself

pub mod apply;
pub mod cache;
pub mod cell;
mod chance;
pub mod dish;
pub mod matching;
pub mod pattern;
pub mod rule;
pub mod variants;
pub mod world;

pub use cell::{Cell, CellData, CellGroup};
pub use dish::Dish;
pub use pattern::symmetry::Symmetry;
pub use pattern::{RuleCellFrom, RuleCellTo, SubRule};
pub use rule::{ResizeParam, Rule};
pub use world::{Chunk, World, CHUNK_SIZE};
