//! Procedural worlds on a square grid. A grid of heights is classified into
//! water, land and far land; the islands are numbered; places for settlements
//! are found along the coasts and kept where an island holds enough of them;
//! and the grid is drawn chunk by chunk.

pub mod config;
pub mod grid;
pub mod connectivity;
pub mod terrain;
pub mod city;
pub mod world;
pub mod image_gen;
pub mod map_gen;
pub mod save;
