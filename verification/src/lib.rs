//! A bucket k-d tree: an in-memory index over points in a fixed-dimensional
//! space, supporting incremental insertion, point-identity removal, and
//! nearest-neighbour queries with branch-and-bound pruning.
//!
//! Coordinates are raw fixed-point values (`u32`, with [`SCALE`] standing for
//! 1.0) and all distance arithmetic saturates at `u32::MAX`. Nodes live in
//! two append-only arenas — stems and leaves — addressed by integer indices;
//! an index at or above `LEAF_OFFSET` names a leaf. The dimension `k` and the
//! bucket capacity `b` are fixed when a tree is constructed.
//!
//! Every operation carries a proved contract over the tree's model (the
//! sequence of stored point/item pairs): `add` grows that multiset by exactly
//! the given pair, `remove` takes out exactly the matching pairs of the leaf
//! its descent reaches, and the two queries return true distances of stored
//! pairs — provably the scan minimum (or the k smallest distances) whenever
//! the pruning bound is admissible. `laws` states the library-wide facts
//! once and for all.

pub mod construct;
pub mod dist;
pub mod laws;
pub mod num;
pub mod query;
pub mod topk;
pub mod tree;

pub use dist::Metric;
pub use num::{MAX_DIST, SCALE};
pub use topk::NearestIter;
pub use tree::KdTree;
