//! Verified grid pathfinding, with the puzzle logic around it.
//!
//! The core of the crate is [`pathfinder`]: a best-first shortest-path search
//! over rectangular grids of non-negative entry costs, with verified
//! contracts for path validity, cost accounting, completeness, termination,
//! and — for grids whose costs are all at least one — optimality of the
//! returned cost. [`cavern`] builds the risk grids that the search runs on.
//!
//! Around the core stand smaller verified pieces of the same puzzle
//! collection: the command-driven [`submarine`], the bingo [`board`], vent
//! lines read from arrow notation in [`vents`], bracket scoring in
//! [`syntax`], the ballistic [`probe`], and the shared [`parse`] and
//! [`utils`] helpers.

pub mod board;
pub mod cavern;
pub mod origami;
pub mod parse;
pub mod pathfinder;
pub mod probe;
pub mod submarine;
pub mod syntax;
pub mod utils;
pub mod vents;
