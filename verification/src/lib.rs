//! A mutable 2-D spatial index (region quadtree) over integer coordinates.
//!
//! The tree answers "which entities overlap this shape?" queries over a
//! dynamic set of axis-aligned rectangles and circles, supporting insertion,
//! deletion, in-place relocation, batched variants of each, and introspection
//! (node bounding boxes, shape dump).

use vstd::prelude::*;

pub mod geom;
pub mod laws;
pub mod pool;
pub mod tree;

verus! {

} // verus!
