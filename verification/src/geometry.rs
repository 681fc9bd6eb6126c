//! The orientation corrector: the exact centroid, the per-triangle
//! orientation test, and the winding correction, with the laws that
//! relate them.
//!
//! The orientation scalar of a triangle (P0, P1, P2) against a centroid
//! C = S/N is d = ((P1-P0) x (P2-P0)) . (P0 - C). The library evaluates
//! the integer `orient` value ((P1-P0) x (P2-P0)) . (N*P0 - S) instead:
//! the two differ by the positive factor N (and a positive power of ten
//! from the fixed-point scale), so they have the same sign and `orient`
//! needs no division and no rounding.

use vstd::prelude::*;

use crate::mesh::{
    coord_ok, coords_bounded, tri_in_range, Centroid, Mesh, MeshError, Triangle, Vec3, V3,
    COORD_LIMIT, COUNT_LIMIT,
};

verus! {

pub open spec fn vadd(a: V3, b: V3) -> V3 {
    V3 { x: a.x + b.x, y: a.y + b.y, z: a.z + b.z }
}

pub open spec fn vsub(a: V3, b: V3) -> V3 {
    V3 { x: a.x - b.x, y: a.y - b.y, z: a.z - b.z }
}

pub open spec fn vscale(k: int, a: V3) -> V3 {
    V3 { x: k * a.x, y: k * a.y, z: k * a.z }
}

pub open spec fn vcross(a: V3, b: V3) -> V3 {
    V3 {
        x: a.y * b.z - a.z * b.y,
        y: a.z * b.x - a.x * b.z,
        z: a.x * b.y - a.y * b.x,
    }
}

pub open spec fn vdot(a: V3, b: V3) -> int {
    a.x * b.x + a.y * b.y + a.z * b.z
}

/// Component-wise sum of a vertex list.
pub open spec fn sum_v(s: Seq<Vec3>) -> V3
    decreases s.len(),
{
    if s.len() == 0 {
        V3 { x: 0, y: 0, z: 0 }
    } else {
        vadd(sum_v(s.drop_last()), s.last()@)
    }
}

/// The orientation scalar of the triangle (p0, p1, p2) against the
/// centroid s/n, scaled by the positive factor n: positive exactly when
/// the triangle's normal points away from the centroid.
pub open spec fn orient(p0: V3, p1: V3, p2: V3, s: V3, n: int) -> int {
    vdot(vcross(vsub(p1, p0), vsub(p2, p0)), vsub(vscale(n, p0), s))
}

/// A winding flip: the swap of the triangle's second and third vertices.
pub open spec fn flip(t: Triangle) -> Triangle {
    Triangle { a: t.a, b: t.c, c: t.b }
}

/// The orientation scalar of a stored triangle against the centroid of
/// the whole vertex list.
pub open spec fn orient_tri(pts: Seq<Vec3>, t: Triangle) -> int {
    orient(pts[t.a as int]@, pts[t.b as int]@, pts[t.c as int]@, sum_v(pts), pts.len() as int)
}

/// What correction does to one triangle: keep it when it already winds
/// outward (orientation scalar strictly positive), flip it otherwise.
pub open spec fn corrected_tri(pts: Seq<Vec3>, t: Triangle) -> Triangle {
    if orient_tri(pts, t) > 0 {
        t
    } else {
        flip(t)
    }
}

/// What correction does to the whole triangle list.
pub open spec fn corrected_seq(pts: Seq<Vec3>, ts: Seq<Triangle>) -> Seq<Triangle> {
    ts.map_values(|t: Triangle| corrected_tri(pts, t))
}

/// `c` is the exact centroid record of the first `npoints` entries of `pts`.
pub open spec fn centroid_for(c: Centroid, pts: Seq<Vec3>, npoints: int) -> bool {
    &&& c.n == npoints
    &&& c@ == sum_v(pts.take(npoints))
}

proof fn lemma_mul_bound(x: int, y: int, bx: int, by: int)
    by (nonlinear_arith)
    requires
        0 <= bx,
        0 <= by,
        -bx <= x <= bx,
        -by <= y <= by,
    ensures
        -(bx * by) <= x * y <= bx * by,
{
}

/// The sum of a bounded vertex list is bounded by the count times the
/// coordinate bound.
proof fn lemma_sum_bound(s: Seq<Vec3>)
    requires
        coords_bounded(s),
    ensures
        -(s.len() * COORD_LIMIT) <= sum_v(s).x <= s.len() * COORD_LIMIT,
        -(s.len() * COORD_LIMIT) <= sum_v(s).y <= s.len() * COORD_LIMIT,
        -(s.len() * COORD_LIMIT) <= sum_v(s).z <= s.len() * COORD_LIMIT,
    decreases s.len(),
{
    if s.len() > 0 {
        assert(coords_bounded(s.drop_last())) by {
            assert(forall|i: int|
                0 <= i < s.drop_last().len() ==> #[trigger] s.drop_last()[i] == s[i]);
        }
        lemma_sum_bound(s.drop_last());
        assert(coord_ok(s.last()));
    }
}

/// Computes the exact coordinate sums of the first `npoints` vertices.
fn sum_coords(points: &Vec<Vec3>, npoints: usize) -> (r: (i128, i128, i128))
    requires
        npoints <= points@.len(),
        npoints <= COUNT_LIMIT,
        coords_bounded(points@),
    ensures
        r.0 == sum_v(points@.take(npoints as int)).x,
        r.1 == sum_v(points@.take(npoints as int)).y,
        r.2 == sum_v(points@.take(npoints as int)).z,
{
    let mut sx: i128 = 0;
    let mut sy: i128 = 0;
    let mut sz: i128 = 0;
    let mut i: usize = 0;
    while i < npoints
        invariant
            i <= npoints,
            npoints <= points@.len(),
            npoints <= COUNT_LIMIT,
            coords_bounded(points@),
            sx == sum_v(points@.take(i as int)).x,
            sy == sum_v(points@.take(i as int)).y,
            sz == sum_v(points@.take(i as int)).z,
            -(i * COORD_LIMIT) <= sx <= i * COORD_LIMIT,
            -(i * COORD_LIMIT) <= sy <= i * COORD_LIMIT,
            -(i * COORD_LIMIT) <= sz <= i * COORD_LIMIT,
        decreases npoints - i,
    {
        let p = points[i];
        proof {
            assert(coord_ok(points@[i as int]));
            assert(points@.take(i + 1).drop_last() =~= points@.take(i as int));
            assert(points@.take(i + 1).last() == points@[i as int]);
        }
        sx = sx + p.x as i128;
        sy = sy + p.y as i128;
        sz = sz + p.z as i128;
        i = i + 1;
    }
    (sx, sy, sz)
}

/// Computes the centroid record of the first `npoints` vertices: the
/// exact component-wise coordinate sums together with the count, standing
/// for the arithmetic mean (sum / npoints) of the vertices. A mesh with
/// zero vertices has no centroid and is rejected as degenerate.
pub fn compute_centroid(points: &Vec<Vec3>, npoints: usize) -> (r: Result<
    Centroid,
    MeshError,
>)
    requires
        npoints <= points@.len(),
        npoints <= COUNT_LIMIT,
        coords_bounded(points@),
    ensures
        r is Err <==> npoints == 0,
        r is Err ==> r == Result::<Centroid, MeshError>::Err(MeshError::DegenerateMesh),
        r matches Ok(c) ==> centroid_for(c, points@, npoints as int),
{
    if npoints == 0 {
        return Err(MeshError::DegenerateMesh);
    }
    let (sx, sy, sz) = sum_coords(points, npoints);
    Ok(Centroid { sx, sy, sz, n: npoints })
}

/// Decides whether a triangle's normal, the cross product of its edge
/// vectors (P1-P0) and (P2-P0), points away from the centroid: true
/// exactly when the orientation scalar is strictly positive. A zero
/// scalar (a degenerate triangle, or a normal at right angles to the
/// centroid ray) counts as not outward.
pub fn compute_triangle_norm_vec_direction(
    points: &Vec<Vec3>,
    triangle: &Triangle,
    centroid: &Centroid,
) -> (outwards: bool)
    requires
        tri_in_range(*triangle, points@.len() as int),
        coords_bounded(points@),
        1 <= centroid.n <= COUNT_LIMIT,
        -(centroid.n * COORD_LIMIT) <= centroid.sx <= centroid.n * COORD_LIMIT,
        -(centroid.n * COORD_LIMIT) <= centroid.sy <= centroid.n * COORD_LIMIT,
        -(centroid.n * COORD_LIMIT) <= centroid.sz <= centroid.n * COORD_LIMIT,
    ensures
        outwards == (orient(
            points@[triangle.a as int]@,
            points@[triangle.b as int]@,
            points@[triangle.c as int]@,
            centroid@,
            centroid.n as int,
        ) > 0),
{
    let p0 = points[triangle.a];
    let p1 = points[triangle.b];
    let p2 = points[triangle.c];
    proof {
        assert(coord_ok(points@[triangle.a as int]));
        assert(coord_ok(points@[triangle.b as int]));
        assert(coord_ok(points@[triangle.c as int]));
    }
    let ax = p1.x as i128 - p0.x as i128;
    let ay = p1.y as i128 - p0.y as i128;
    let az = p1.z as i128 - p0.z as i128;
    let bx = p2.x as i128 - p0.x as i128;
    let by = p2.y as i128 - p0.y as i128;
    let bz = p2.z as i128 - p0.z as i128;
    proof {
        lemma_mul_bound(ay as int, bz as int, 2_000_000_000, 2_000_000_000);
        lemma_mul_bound(az as int, by as int, 2_000_000_000, 2_000_000_000);
        lemma_mul_bound(az as int, bx as int, 2_000_000_000, 2_000_000_000);
        lemma_mul_bound(ax as int, bz as int, 2_000_000_000, 2_000_000_000);
        lemma_mul_bound(ax as int, by as int, 2_000_000_000, 2_000_000_000);
        lemma_mul_bound(ay as int, bx as int, 2_000_000_000, 2_000_000_000);
    }
    let nx = ay * bz - az * by;
    let ny = az * bx - ax * bz;
    let nz = ax * by - ay * bx;
    proof {
        lemma_mul_bound(centroid.n as int, p0.x as int, COUNT_LIMIT as int, COORD_LIMIT as int);
        lemma_mul_bound(centroid.n as int, p0.y as int, COUNT_LIMIT as int, COORD_LIMIT as int);
        lemma_mul_bound(centroid.n as int, p0.z as int, COUNT_LIMIT as int, COORD_LIMIT as int);
        lemma_mul_bound(centroid.n as int, COORD_LIMIT as int, COUNT_LIMIT as int, COORD_LIMIT as int);
    }
    let rx = centroid.n as i128 * p0.x as i128 - centroid.sx;
    let ry = centroid.n as i128 * p0.y as i128 - centroid.sy;
    let rz = centroid.n as i128 * p0.z as i128 - centroid.sz;
    proof {
        lemma_mul_bound(nx as int, rx as int, 8_000_000_000_000_000_000, 2_000_000_000_000_000_000);
        lemma_mul_bound(ny as int, ry as int, 8_000_000_000_000_000_000, 2_000_000_000_000_000_000);
        lemma_mul_bound(nz as int, rz as int, 8_000_000_000_000_000_000, 2_000_000_000_000_000_000);
    }
    let d = nx * rx + ny * ry + nz * rz;
    d > 0
}

/// Makes every triangle's winding agree with an outward normal, judged
/// against the centroid of the whole vertex list: each triangle is kept
/// when its orientation scalar is positive and flipped otherwise. The
/// vertex list, the scale and the declared counts never change. A mesh
/// with zero vertices has no centroid and is rejected unchanged.
pub fn correct_orientation(mesh: &mut Mesh) -> (r: Result<(), MeshError>)
    requires
        old(mesh).wf(),
    ensures
        r is Err <==> old(mesh).vertices@.len() == 0,
        r is Err ==> r == Result::<(), MeshError>::Err(MeshError::DegenerateMesh),
        final(mesh).vertices@ == old(mesh).vertices@,
        final(mesh).n_points == old(mesh).n_points,
        final(mesh).scale == old(mesh).scale,
        final(mesh).n_triangles == old(mesh).n_triangles,
        r is Err ==> final(mesh).triangles@ == old(mesh).triangles@,
        r is Ok ==> final(mesh).triangles@ == corrected_seq(
            old(mesh).vertices@,
            old(mesh).triangles@,
        ),
{
    if mesh.vertices.len() == 0 {
        return Err(MeshError::DegenerateMesh);
    }
    let (sx, sy, sz) = sum_coords(&mesh.vertices, mesh.n_points);
    let centroid = Centroid { sx, sy, sz, n: mesh.n_points };
    proof {
        assert(mesh.vertices@.take(mesh.n_points as int) =~= mesh.vertices@);
        lemma_sum_bound(mesh.vertices@);
    }
    let ghost pts = mesh.vertices@;
    let ghost tris0 = mesh.triangles@;
    let mut i: usize = 0;
    while i < mesh.triangles.len()
        invariant
            i <= tris0.len(),
            mesh.vertices@ == pts,
            mesh.triangles@.len() == tris0.len(),
            mesh.n_points == pts.len(),
            1 <= centroid.n <= COUNT_LIMIT,
            coords_bounded(pts),
            centroid.n == pts.len(),
            centroid@ == sum_v(pts),
            -(centroid.n * COORD_LIMIT) <= centroid.sx <= centroid.n * COORD_LIMIT,
            -(centroid.n * COORD_LIMIT) <= centroid.sy <= centroid.n * COORD_LIMIT,
            -(centroid.n * COORD_LIMIT) <= centroid.sz <= centroid.n * COORD_LIMIT,
            forall|j: int| 0 <= j < tris0.len() ==> tri_in_range(#[trigger] tris0[j], pts.len() as int),
            forall|j: int|
                0 <= j < i ==> mesh.triangles@[j] == corrected_tri(pts, #[trigger] tris0[j]),
            forall|j: int| i <= j < tris0.len() ==> #[trigger] mesh.triangles@[j] == tris0[j],
            mesh.n_points == old(mesh).n_points,
            mesh.scale == old(mesh).scale,
            mesh.n_triangles == old(mesh).n_triangles,
        decreases tris0.len() - i,
    {
        let t = mesh.triangles[i];
        let outwards = compute_triangle_norm_vec_direction(&mesh.vertices, &t, &centroid);
        if !outwards {
            mesh.triangles[i] = Triangle { a: t.a, b: t.c, c: t.b };
        }
        proof {
            assert(mesh.triangles@[i as int] == corrected_tri(pts, tris0[i as int]));
        }
        i = i + 1;
    }
    proof {
        assert(mesh.triangles@ =~= corrected_seq(pts, tris0));
    }
    Ok(())
}

/// The orientation scalar changes sign under a winding flip: the flip
/// swaps the two edge vectors, which negates their cross product, while
/// the centroid ray keeps its first vertex and is unchanged.
pub proof fn lemma_orient_flip(p0: V3, p1: V3, p2: V3, s: V3, n: int)
    ensures
        orient(p0, p2, p1, s, n) == -orient(p0, p1, p2, s, n),
{
    let v1 = vsub(p1, p0);
    let v2 = vsub(p2, p0);
    let r = vsub(vscale(n, p0), s);
    let c = vcross(v1, v2);
    let cf = vcross(v2, v1);
    assert(v2.y * v1.z - v2.z * v1.y == -(v1.y * v2.z - v1.z * v2.y)) by (nonlinear_arith);
    assert(v2.z * v1.x - v2.x * v1.z == -(v1.z * v2.x - v1.x * v2.z)) by (nonlinear_arith);
    assert(v2.x * v1.y - v2.y * v1.x == -(v1.x * v2.y - v1.y * v2.x)) by (nonlinear_arith);
    assert(cf.x == -c.x && cf.y == -c.y && cf.z == -c.z);
    assert((-c.x) * r.x == -(c.x * r.x)) by (nonlinear_arith);
    assert((-c.y) * r.y == -(c.y * r.y)) by (nonlinear_arith);
    assert((-c.z) * r.z == -(c.z * r.z)) by (nonlinear_arith);
}

/// The flip of a stored triangle negates its orientation scalar.
pub proof fn lemma_orient_tri_flip(pts: Seq<Vec3>, t: Triangle)
    requires
        tri_in_range(t, pts.len() as int),
    ensures
        orient_tri(pts, flip(t)) == -orient_tri(pts, t),
{
    lemma_orient_flip(
        pts[t.a as int]@,
        pts[t.b as int]@,
        pts[t.c as int]@,
        sum_v(pts),
        pts.len() as int,
    );
}

/// Invariance under the input winding: a triangle whose orientation
/// scalar is not zero is corrected to the same index order whichever of
/// its two windings is fed in.
pub proof fn lemma_winding_invariance(pts: Seq<Vec3>, t: Triangle)
    requires
        tri_in_range(t, pts.len() as int),
        orient_tri(pts, t) != 0,
    ensures
        corrected_tri(pts, flip(t)) == corrected_tri(pts, t),
{
    lemma_orient_tri_flip(pts, t);
    assert(flip(flip(t)) == t);
}

/// Idempotence of correction on one triangle: once a triangle with a
/// nonzero orientation scalar has been corrected, correcting it again
/// changes nothing. A triangle with scalar zero is flipped by every
/// pass, so it is excluded here.
pub proof fn lemma_correction_stable(pts: Seq<Vec3>, t: Triangle)
    requires
        tri_in_range(t, pts.len() as int),
        orient_tri(pts, t) != 0,
    ensures
        corrected_tri(pts, corrected_tri(pts, t)) == corrected_tri(pts, t),
{
    lemma_orient_tri_flip(pts, t);
}

/// Idempotence of correction on a whole triangle list: when every
/// triangle has a nonzero orientation scalar, applying the correction
/// twice yields the same list as applying it once.
pub proof fn lemma_correction_idempotent(pts: Seq<Vec3>, ts: Seq<Triangle>)
    requires
        forall|i: int|
            0 <= i < ts.len() ==> tri_in_range(#[trigger] ts[i], pts.len() as int),
        forall|i: int| 0 <= i < ts.len() ==> orient_tri(pts, #[trigger] ts[i]) != 0,
    ensures
        corrected_seq(pts, corrected_seq(pts, ts)) == corrected_seq(pts, ts),
{
    let once = corrected_seq(pts, ts);
    assert forall|i: int| 0 <= i < ts.len() implies #[trigger] corrected_seq(pts, once)[i]
        == once[i] by {
        assert(once[i] == corrected_tri(pts, ts[i]));
        lemma_correction_stable(pts, ts[i]);
    }
    assert(corrected_seq(pts, once) =~= once);
}

} // verus!
