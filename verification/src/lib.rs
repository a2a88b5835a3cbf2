//! Region adjacency and map coloring for a world stored as a grid of tiles.
//!
//! A continent is a grid of up to 64 x 64 tiles. Every tile is cut into
//! 16 x 16 cells, and each cell names the region it belongs to (`0` is the
//! reserved "no region" id). From those cells the library builds the
//! undirected graph of regions that touch, and assigns every region a color
//! that differs from the colors of its neighbors and of its parent region.
//!
//! - [`grid`] numbers the tiles of a continent.
//! - [`graph`] holds the graph of regions that touch, and [`adjacency`]
//!   fills it from tiles.
//! - [`areas`] resolves the root ancestor of a region.
//! - [`coloring`] colors the regions.
//! - [`tiles`] collects the tiles of a continent, [`codec`] gives a tile its
//!   text form, and [`names`] reads the names of tile files.
//! - [`tables`] reads the reference tables, with the help of [`text`].
//! - [`report`] puts together what is reported about the regions.
//! - [`outside`] holds the calls into other crates.

pub mod adjacency;
pub mod areas;
pub mod codec;
pub mod coloring;
pub mod graph;
pub mod grid;
pub mod names;
pub mod outside;
pub mod report;
pub mod tables;
pub mod text;
pub mod tiles;
