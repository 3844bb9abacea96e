//! A three-dimensional spatial index: an octree over integer coordinates.
//!
//! The tree partitions a cubic region of space, supports point insertion
//! with on-demand subdivision into eight octants, and answers axis-aligned
//! range queries. A flat numeric encoding of the whole tree is provided,
//! with a proved lossless round trip.

pub mod point;
pub mod aabb;
pub mod oct_tree;
pub mod codec;
