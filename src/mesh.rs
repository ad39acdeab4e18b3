//! Triangle access over indexed and non-indexed vertex buffers.
//!
//! A mesh is seen here through its layout: how many positions and normals it has and which
//! vertices make up each triangle. The vertex data itself stays with the caller, which looks the
//! returned vertex indices up.
use vstd::prelude::*;
use crate::node::TriangleIndex;

verus! {

/// The index buffer of a mesh whose topology is a triangle list.
#[derive(Clone, Debug)]
pub enum Indices {
    U16(Vec<u16>),
    U32(Vec<u32>),
}

impl Indices {
    /// The indices, widened to natural numbers.
    pub open spec fn spec_values(self) -> Seq<nat> {
        match self {
            Indices::U16(v) => v@.map_values(|x: u16| x as nat),
            Indices::U32(v) => v@.map_values(|x: u32| x as nat),
        }
    }

    pub fn len(&self) -> (r: usize)
        ensures
            r == self.spec_values().len(),
    {
        match self {
            Indices::U16(v) => v.len(),
            Indices::U32(v) => v.len(),
        }
    }

    /// The index at position `i`.
    pub fn get(&self, i: usize) -> (r: usize)
        requires
            i < self.spec_values().len(),
        ensures
            r == self.spec_values()[i as int],
    {
        match self {
            Indices::U16(v) => v[i] as usize,
            Indices::U32(v) => v[i] as usize,
        }
    }
}

/// The three vertex indices of triangle `t`, when the buffers hold them: read from the index
/// buffer at `3t`, `3t + 1`, `3t + 2`, or those positions themselves when there is none, each of
/// which must be below `count`.
pub open spec fn spec_triangle_vertices(indices: Option<Indices>, count: nat, t: nat) -> Option<
    Seq<nat>,
> {
    let i = 3 * t as int;
    match indices {
        Some(ix) => {
            let v = ix.spec_values();
            if i + 2 < v.len() && v[i] < count && v[i + 1] < count && v[i + 2] < count {
                Some(seq![v[i], v[i + 1], v[i + 2]])
            } else {
                None
            }
        },
        None => if i + 2 < count {
            Some(seq![i as nat, (i + 1) as nat, (i + 2) as nat])
        } else {
            None
        },
    }
}

/// Which vertices make up each triangle of a mesh, and how many positions and normals it has.
#[derive(Clone, Debug)]
pub struct MeshAccessor {
    /// Number of vertex positions.
    pub vertex_count: usize,
    /// Number of vertex normals, where the mesh has normals.
    pub normal_count: Option<usize>,
    /// The index buffer, where the mesh has one.
    pub indices: Option<Indices>,
}

impl MeshAccessor {
    pub fn new(vertex_count: usize, normal_count: Option<usize>, indices: Option<Indices>) -> (r:
        Self)
        ensures
            r.vertex_count == vertex_count,
            r.normal_count == normal_count,
            r.indices == indices,
    {
        MeshAccessor { vertex_count, normal_count, indices }
    }

    /// The vertex indices of triangle `t`, checked against the positions.
    pub open spec fn spec_triangle(self, t: nat) -> Option<Seq<nat>> {
        spec_triangle_vertices(self.indices, self.vertex_count as nat, t)
    }

    /// The vertex indices of triangle `t`, checked against the normals.
    pub open spec fn spec_triangle_normals(self, t: nat) -> Option<Seq<nat>> {
        match self.normal_count {
            Some(n) => spec_triangle_vertices(self.indices, n as nat, t),
            None => None,
        }
    }

    /// Resolves the three vertex indices of triangle `t` against buffers of `count` entries.
    fn resolve(&self, t: TriangleIndex, count: usize) -> (r: Option<[usize; 3]>)
        ensures
            r.is_some() == spec_triangle_vertices(self.indices, count as nat, t as nat).is_some(),
            r.is_some() ==> r.unwrap()@.map_values(|x: usize| x as nat) == spec_triangle_vertices(
                self.indices,
                count as nat,
                t as nat,
            ).unwrap(),
    {
        let t = t as usize;
        match &self.indices {
            Some(ix) => {
                // `3t + 2 < len` is `t < len / 3`, which cannot overflow.
                if t >= ix.len() / 3 {
                    return None;
                }
                let a = ix.get(3 * t);
                let b = ix.get(3 * t + 1);
                let c = ix.get(3 * t + 2);
                if a < count && b < count && c < count {
                    let r = [a, b, c];
                    assert(r@.map_values(|x: usize| x as nat) =~= seq![a as nat, b as nat, c as nat]);
                    Some(r)
                } else {
                    None
                }
            },
            None => {
                if t >= count / 3 {
                    return None;
                }
                let r = [3 * t, 3 * t + 1, 3 * t + 2];
                assert(r@.map_values(|x: usize| x as nat) =~= seq![
                    3 * t as nat,
                    3 * t as nat + 1,
                    3 * t as nat + 2,
                ]);
                Some(r)
            },
        }
    }

    /// The indices of the three vertex positions of triangle `t`, or `None` where the triangle
    /// does not exist or refers to a position that does not.
    pub fn get_triangle(&self, t: TriangleIndex) -> (r: Option<[usize; 3]>)
        ensures
            r.is_some() == self.spec_triangle(t as nat).is_some(),
            r.is_some() ==> r.unwrap()@.map_values(|x: usize| x as nat) == self.spec_triangle(
                t as nat,
            ).unwrap(),
    {
        self.resolve(t, self.vertex_count)
    }

    /// The indices of the three vertex normals of triangle `t`, or `None` where the mesh has no
    /// normals or they do not cover the triangle.
    pub fn triangle_normals(&self, t: TriangleIndex) -> (r: Option<[usize; 3]>)
        ensures
            r.is_some() == self.spec_triangle_normals(t as nat).is_some(),
            r.is_some() ==> r.unwrap()@.map_values(|x: usize| x as nat)
                == self.spec_triangle_normals(t as nat).unwrap(),
    {
        match self.normal_count {
            Some(n) => self.resolve(t, n),
            None => None,
        }
    }

    /// How many triangles the buffers describe: a third of the index buffer, or of the positions
    /// where there is none.
    pub open spec fn spec_triangle_count(self) -> nat {
        match self.indices {
            Some(ix) => ix.spec_values().len() / 3,
            None => self.vertex_count as nat / 3,
        }
    }

    /// How many triangles the buffers describe.
    pub fn triangle_count(&self) -> (r: usize)
        ensures
            r == self.spec_triangle_count(),
    {
        match &self.indices {
            Some(ix) => ix.len() / 3,
            None => self.vertex_count / 3,
        }
    }

    /// The triangles of the mesh: `0, 1, 2, ...` up to the triangle count, or to the first index
    /// that does not resolve to a triangle.
    pub fn iter_triangles(&self) -> (r: Vec<TriangleIndex>)
        ensures
            r.len() <= self.spec_triangle_count(),
            forall|k: int|
                0 <= k < r.len() ==> #[trigger] r[k] == k && self.spec_triangle(k as nat).is_some(),
            r.len() == self.spec_triangle_count() || r.len() == u32::MAX || self.spec_triangle(
                r.len() as nat,
            ).is_none(),
    {
        let n = self.triangle_count();
        let mut out: Vec<TriangleIndex> = Vec::new();
        let mut i: u32 = 0;
        while (i as usize) < n && i < u32::MAX
            invariant
                out.len() == i,
                i <= n,
                n == self.spec_triangle_count(),
                forall|k: int|
                    0 <= k < out.len() ==> #[trigger] out[k] == k && self.spec_triangle(
                        k as nat,
                    ).is_some(),
            decreases u32::MAX - i,
        {
            if self.get_triangle(i).is_none() {
                return out;
            }
            out.push(i);
            i = i + 1;
        }
        out
    }
}

} // verus!
