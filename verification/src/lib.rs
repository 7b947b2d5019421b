//! A two-colour Game of Life on a sparse, double-buffered grid.
//!
//! The grid is addressed by pairs of `i64`. Its edges are joined: the row
//! after `i64::MAX` is `i64::MIN`, and likewise for columns, so every cell
//! has exactly eight distinct neighbours and every operation is total.

pub mod cell;
pub mod config;
pub mod grid;
mod key;
pub mod loc;
pub mod patterns;
pub mod rules;
pub mod world;

pub use cell::CellType;
pub use config::ParseError;
pub use loc::Loc;
pub use world::World;
