//! A two-dimensional kd-tree over integer-coordinate points.
//!
//! The tree supports point insertion, nearest-neighbour lookup and
//! radius-bounded range queries (both a collecting and a streaming form),
//! and is generic over any point representation that exposes per-axis
//! coordinate access through [`PointTrait`].

pub mod laws;
pub mod point;
pub mod rect;
pub mod tree;

pub use tree::KDNode;
pub use tree::KDTree;

pub use point::Point2;
pub use point::PointTrait;
pub use point::KDPoint;

use vstd::prelude::*;

verus! {

/// The one error kind at the API surface. No operation currently produces
/// it; the channel is reserved for future input validation.
#[derive(Debug)]
pub enum KrakelError {
    InternalError(String),
}

} // verus!
