//! An R-tree: a height-balanced spatial index over axis-aligned rectangles
//! with integer coordinates, each carrying a payload. It supports insertion,
//! removal by rectangle and payload, intersection search, full scans and
//! nearest-first traversal by a distance the caller computes.
pub mod geometry;
pub mod node;
pub mod entries;
pub mod bounds;
pub mod tree;
pub mod iter;

pub use geometry::{Axis, Point, Rect};
pub use node::{Item, Node, Parent, MAX_ITEMS, MIN_ITEMS};
pub use tree::RTree;
pub use iter::{IterItem, ScanIterator, SearchIterator, NearbyIterator};
