//! A hash-consed quadtree engine for Conway's Life.
//!
//! The grid is held as a DAG of quadrants that are stored once each under a
//! 128-bit content hash.  A memoizing recursive stepper advances a quadrant by
//! a power-of-two number of generations, and a bit-packed stepper advances the
//! smallest blocks directly.

pub mod largekey_table;
pub mod bitgrid;
pub mod census;
pub mod dump;
pub mod gather;
pub mod gray;
pub mod life;
pub mod point;
pub mod quadtree;
pub mod quadvalue;
pub mod rle;
pub mod stepper;
pub mod store;
pub mod treespec;
