use vstd::prelude::*;

verus! {

/// Whether triangles seen from behind are hit.
#[derive(Clone, Copy, Debug, PartialEq, Eq, Structural)]
pub enum Backfaces {
    /// Triangles whose winding faces away from the ray are never hit.
    Cull,
    /// Triangles are hit from either side.
    Include,
}

impl Default for Backfaces {
    fn default() -> (r: Self)
        ensures
            r == Backfaces::Cull,
    {
        Backfaces::Cull
    }
}

impl Backfaces {
    /// The policy for an entity: triangles are hit from either side where the entity carries
    /// the [`NoBackfaceCulling`](crate::markers::NoBackfaceCulling) marker, and from the front
    /// only otherwise.
    pub fn for_entity(no_backface_culling: bool) -> (r: Self)
        ensures
            r == (if no_backface_culling {
                Backfaces::Include
            } else {
                Backfaces::Cull
            }),
    {
        if no_backface_culling {
            Backfaces::Include
        } else {
            Backfaces::Cull
        }
    }
}

} // verus!
