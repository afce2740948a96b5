//! Verified solutions for a set of small expedition puzzles.
//!
//! The centrepiece is [`filesystem`], an append-only directory tree that is
//! rebuilt from a stream of navigation and listing instructions and keeps a
//! running cumulative size per directory.

pub mod calories;
pub mod datastream;
pub mod filesystem;
pub mod laws;
pub mod pattern;
pub mod ranges;
pub mod rucksack;
pub mod strategy;
pub mod supplies;
pub mod tally;
pub mod transcript;
pub mod text;
pub mod tree;
