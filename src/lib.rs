//! Density-based clustering (DBSCAN) of geographic points, with a
//! two-dimensional tree over the points for neighbourhood queries.
//!
//! Coordinates are held as order keys: integers that compare as the
//! coordinates do. The library decides everything that rests on order and
//! equality; the metric itself stays with the caller.

pub mod dbscan;
pub mod kdtree;
pub mod labels;
pub mod point;
