//! Per-entity markers that change how an entity is raycast.
use vstd::prelude::*;

verus! {

/// Marks an entity whose triangles are hit from either side.
#[derive(Clone, Copy, Debug, Default)]
pub struct NoBackfaceCulling;

} // verus!
