//! Wave function collapse on a fixed two-dimensional grid.
//!
//! A [`wave::Wave`] owns a grid of cells, a set of directional adjacency
//! rules and the collapse algorithm: it repeatedly commits the most
//! constrained cell to one tile variant that its decided neighbours permit,
//! until every cell is decided or some cell has no candidate left.
//!
//! Every function is verified against a mathematical model of the grid
//! ([`model::WaveView`]), and the laws that the collapse relies on are proved
//! in [`laws`]. Only the random choice itself, and the appending of a
//! character to a `String`, are taken on trust.

pub mod counting;
pub mod grid;
pub mod laws;
pub mod model;
mod rules;
pub mod tile;
mod trusted;
pub mod wave;
