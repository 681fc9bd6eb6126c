//! The mesh data model: vertices as exact fixed-point coordinates,
//! triangles as index triples, and the aggregate `Mesh` with its
//! well-formedness conditions.

use vstd::prelude::*;

verus! {

/// Largest coordinate magnitude, counted in units of the mesh scale, that
/// the exact orientation arithmetic accepts without overflowing `i128`.
pub const COORD_LIMIT: i64 = 1_000_000_000;

/// Largest vertex count that the exact orientation arithmetic accepts
/// without overflowing `i128`.
pub const COUNT_LIMIT: usize = 1_000_000_000;

/// Largest decimal scale (number of fractional digits) a mesh may carry.
pub const SCALE_LIMIT: u32 = 18;

/// A vertex coordinate triple. Each component is an integer number of
/// units; the enclosing mesh's `scale` says that one unit is `10^-scale`,
/// so the real coordinate is `x / 10^scale` and likewise for y and z.
#[derive(Clone, Copy, PartialEq, Eq, Structural, Debug)]
pub struct Vec3 {
    pub x: i64,
    pub y: i64,
    pub z: i64,
}

/// A coordinate triple as unbounded integers, for specifications.
pub ghost struct V3 {
    pub x: int,
    pub y: int,
    pub z: int,
}

impl View for Vec3 {
    type V = V3;

    open spec fn view(&self) -> V3 {
        V3 { x: self.x as int, y: self.y as int, z: self.z as int }
    }
}

/// An ordered triple of vertex indices. The order encodes the winding and
/// hence, by the right-hand rule, the direction of the triangle's normal.
#[derive(Clone, Copy, PartialEq, Eq, Structural, Debug)]
pub struct Triangle {
    pub a: usize,
    pub b: usize,
    pub c: usize,
}

/// The errors the library reports. Reading and writing the resources is
/// the caller's business, so I/O failures never arise here.
#[derive(Clone, Copy, PartialEq, Eq, Structural, Debug)]
pub enum MeshError {
    /// The input text does not follow the format, a count or coordinate
    /// token is malformed, fewer lines exist than a declared count
    /// requires, or a number is too large for exact evaluation.
    ParseError,
    /// The mesh declares zero vertices, so no centroid exists.
    DegenerateMesh,
}

/// A whole mesh: the declared counts from the input header together with
/// the parsed vertex and triangle lists. The loader guarantees that
/// `n_points` equals the number of vertices; the declared triangle count
/// is kept as read and may differ from `triangles.len()`, since the
/// loader consumes every remaining line as a triangle.
pub struct Mesh {
    pub n_points: usize,
    pub scale: u32,
    pub vertices: Vec<Vec3>,
    pub n_triangles: usize,
    pub triangles: Vec<Triangle>,
}

/// The centroid of `n` vertices, kept exact as the component-wise sum of
/// their coordinates: the centroid itself is `(sx / n, sy / n, sz / n)`
/// in units of the mesh scale.
#[derive(Clone, Copy, PartialEq, Eq, Structural, Debug)]
pub struct Centroid {
    pub sx: i128,
    pub sy: i128,
    pub sz: i128,
    pub n: usize,
}

impl View for Centroid {
    type V = V3;

    open spec fn view(&self) -> V3 {
        V3 { x: self.sx as int, y: self.sy as int, z: self.sz as int }
    }
}

pub open spec fn coord_ok(v: Vec3) -> bool {
    &&& -COORD_LIMIT <= v.x <= COORD_LIMIT
    &&& -COORD_LIMIT <= v.y <= COORD_LIMIT
    &&& -COORD_LIMIT <= v.z <= COORD_LIMIT
}

pub open spec fn coords_bounded(s: Seq<Vec3>) -> bool {
    forall|i: int| 0 <= i < s.len() ==> coord_ok(#[trigger] s[i])
}

pub open spec fn tri_in_range(t: Triangle, n: int) -> bool {
    t.a < n && t.b < n && t.c < n
}

impl Mesh {
    /// The declared point count is the actual one, and the counts and
    /// coordinates are small enough for exact arithmetic.
    pub open spec fn bounded(&self) -> bool {
        &&& self.n_points == self.vertices@.len()
        &&& self.vertices@.len() <= COUNT_LIMIT
        &&& self.scale <= SCALE_LIMIT
        &&& coords_bounded(self.vertices@)
    }

    /// Every triangle indexes into the vertex list.
    pub open spec fn indices_ok(&self) -> bool {
        forall|i: int|
            0 <= i < self.triangles@.len() ==> tri_in_range(
                #[trigger] self.triangles@[i],
                self.vertices@.len() as int,
            )
    }

    pub open spec fn wf(&self) -> bool {
        self.bounded() && self.indices_ok()
    }
}

/// Decides whether a mesh meets the corrector's precondition: bounded
/// counts and coordinates, and every triangle index in range.
pub fn mesh_ready_for_correction(mesh: &Mesh) -> (r: bool)
    ensures
        r == mesh.wf(),
{
    if mesh.n_points != mesh.vertices.len() {
        return false;
    }
    if mesh.vertices.len() > COUNT_LIMIT {
        return false;
    }
    if mesh.scale > SCALE_LIMIT {
        return false;
    }
    let mut i: usize = 0;
    while i < mesh.vertices.len()
        invariant
            i <= mesh.vertices@.len(),
            forall|j: int| 0 <= j < i ==> coord_ok(#[trigger] mesh.vertices@[j]),
        decreases mesh.vertices@.len() - i,
    {
        let v = mesh.vertices[i];
        if v.x < -COORD_LIMIT || v.x > COORD_LIMIT || v.y < -COORD_LIMIT || v.y > COORD_LIMIT
            || v.z < -COORD_LIMIT || v.z > COORD_LIMIT {
            return false;
        }
        i = i + 1;
    }
    let n = mesh.vertices.len();
    let mut k: usize = 0;
    while k < mesh.triangles.len()
        invariant
            k <= mesh.triangles@.len(),
            n == mesh.vertices@.len(),
            forall|j: int|
                0 <= j < k ==> tri_in_range(#[trigger] mesh.triangles@[j], n as int),
        decreases mesh.triangles@.len() - k,
    {
        let t = mesh.triangles[k];
        if t.a >= n || t.b >= n || t.c >= n {
            return false;
        }
        k = k + 1;
    }
    true
}

} // verus!
