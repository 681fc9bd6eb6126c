//! The mesh writer: serialization back to the text format, with the
//! vertex coordinates written to a fixed decimal precision.
//!
//! A coordinate of `u` units at scale `c` printed with precision `p`
//! keeps its exact digits when `p >= c` (padded with zeros) and is
//! rounded to the nearest multiple of `10^-p`, ties away from zero, when
//! `p < c`.

use vstd::prelude::*;

use crate::mesh::{Mesh, Triangle, Vec3, COORD_LIMIT, SCALE_LIMIT};
use crate::parse::{pow10, MANT_LIMIT};

verus! {

/// The decimal digits of `n`, most significant first, no leading zeros
/// (a single zero for zero).
pub open spec fn spec_nat_digits(n: nat) -> Seq<u8>
    decreases n,
{
    if n < 10 {
        seq![(48 + n) as u8]
    } else {
        spec_nat_digits(n / 10).push((48 + n % 10) as u8)
    }
}

/// The low `w` decimal digits of `m`, zero-padded to exactly `w` digits.
pub open spec fn spec_frac_digits(m: nat, w: nat) -> Seq<u8>
    decreases w,
{
    if w == 0 {
        Seq::empty()
    } else {
        spec_frac_digits(m / 10, (w - 1) as nat).push((48 + m % 10) as u8)
    }
}

pub open spec fn zeros(w: nat) -> Seq<u8>
    decreases w,
{
    if w == 0 {
        Seq::empty()
    } else {
        zeros((w - 1) as nat).push(48u8)
    }
}

pub open spec fn abs_of(u: int) -> nat {
    if u >= 0 {
        u as nat
    } else {
        (-u) as nat
    }
}

/// The magnitude written for a coordinate of magnitude `a` at scale `c`
/// and precision `p`: `a` itself when every digit is kept, else `a`
/// rounded to `p` fractional digits, ties away from zero.
pub open spec fn rounded_mag(a: nat, c: nat, p: nat) -> nat {
    if p < c {
        let d = pow10((c - p) as nat);
        if 2 * (a % d) >= d {
            a / d + 1
        } else {
            a / d
        }
    } else {
        a
    }
}

/// The scale at which the written digits are exact: the lesser of the
/// stored scale and the requested precision.
pub open spec fn eff_scale(c: nat, p: nat) -> nat {
    if p < c {
        p
    } else {
        c
    }
}

/// The text of one coordinate: optional minus sign, the integer digits,
/// and for positive precision a point followed by exactly `p` fractional
/// digits.
pub open spec fn spec_coord(u: int, c: nat, p: nat) -> Seq<u8> {
    let a = rounded_mag(abs_of(u), c, p);
    let e = eff_scale(c, p);
    let sign: Seq<u8> = if u < 0 {
        seq![45u8]
    } else {
        Seq::empty()
    };
    let frac: Seq<u8> = if p == 0 {
        Seq::empty()
    } else {
        seq![46u8] + spec_frac_digits(a % pow10(e), e) + zeros((p - e) as nat)
    };
    sign + spec_nat_digits(a / pow10(e)) + frac
}

/// The text of one coordinate line: the three coordinates separated by
/// single blanks.
pub open spec fn spec_vertex_line(v: Vec3, c: nat, p: nat) -> Seq<u8> {
    spec_coord(v.x as int, c, p) + seq![32u8] + spec_coord(v.y as int, c, p) + seq![32u8]
        + spec_coord(v.z as int, c, p)
}

/// The text of one triangle line: the three indices separated by single
/// blanks.
pub open spec fn spec_tri_line(t: Triangle) -> Seq<u8> {
    spec_nat_digits(t.a as nat) + seq![32u8] + spec_nat_digits(t.b as nat) + seq![32u8]
        + spec_nat_digits(t.c as nat)
}

/// The first `k` coordinate lines, each closed by a newline.
pub open spec fn spec_vertex_lines(vs: Seq<Vec3>, c: nat, p: nat, k: int) -> Seq<u8>
    decreases k,
{
    if k <= 0 {
        Seq::empty()
    } else {
        spec_vertex_lines(vs, c, p, k - 1) + spec_vertex_line(vs[k - 1], c, p) + seq![10u8]
    }
}

/// The first `k` triangle lines, each closed by a newline.
pub open spec fn spec_tri_lines(ts: Seq<Triangle>, k: int) -> Seq<u8>
    decreases k,
{
    if k <= 0 {
        Seq::empty()
    } else {
        spec_tri_lines(ts, k - 1) + spec_tri_line(ts[k - 1]) + seq![10u8]
    }
}

/// The whole output resource: the point count, the coordinate lines, the
/// declared triangle count, and that many triangle lines.
pub open spec fn spec_render(m: Mesh, p: nat) -> Seq<u8> {
    spec_nat_digits(m.n_points as nat) + seq![10u8] + spec_vertex_lines(
        m.vertices@,
        m.scale as nat,
        p,
        m.vertices@.len() as int,
    ) + spec_nat_digits(m.n_triangles as nat) + seq![10u8] + spec_tri_lines(
        m.triangles@,
        m.n_triangles as int,
    )
}

proof fn lemma_pow10_mono(a: nat, b: nat)
    requires
        a <= b,
    ensures
        pow10(a) <= pow10(b),
        pow10(a) >= 1,
    decreases b,
{
    if a < b {
        lemma_pow10_mono(a, (b - 1) as nat);
        assert(pow10(b) == 10 * pow10((b - 1) as nat));
    } else if a > 0 {
        lemma_pow10_mono((a - 1) as nat, (a - 1) as nat);
        assert(pow10(a) == 10 * pow10((a - 1) as nat));
    }
}

proof fn lemma_pow10_at_limit()
    ensures
        pow10(SCALE_LIMIT as nat) == MANT_LIMIT,
{
    reveal_with_fuel(pow10, 20);
}

/// Computes an exact power of ten.
fn pow10_u64(e: u32) -> (r: u64)
    requires
        e <= SCALE_LIMIT,
    ensures
        r == pow10(e as nat),
        1 <= r <= MANT_LIMIT,
{
    let mut r: u64 = 1;
    let mut k: u32 = 0;
    while k < e
        invariant
            k <= e,
            e <= SCALE_LIMIT,
            1 <= r,
            r == pow10(k as nat),
        decreases e - k,
    {
        proof {
            lemma_pow10_mono(k as nat, SCALE_LIMIT as nat);
            lemma_pow10_at_limit();
        }
        r = r * 10;
        k = k + 1;
    }
    proof {
        lemma_pow10_mono(e as nat, SCALE_LIMIT as nat);
        lemma_pow10_at_limit();
    }
    r
}

/// Appends the decimal digits of `v`.
fn push_nat(out: &mut Vec<u8>, v: u64)
    ensures
        final(out)@ == old(out)@ + spec_nat_digits(v as nat),
    decreases v,
{
    if v < 10 {
        out.push(48 + v as u8);
        proof {
            assert(out@ =~= old(out)@ + spec_nat_digits(v as nat));
        }
    } else {
        push_nat(out, v / 10);
        out.push(48 + (v % 10) as u8);
        proof {
            assert(out@ =~= old(out)@ + spec_nat_digits(v as nat));
        }
    }
}

/// Appends the low `w` decimal digits of `m`, zero-padded to width `w`.
fn push_frac(out: &mut Vec<u8>, m: u64, w: u32)
    ensures
        final(out)@ == old(out)@ + spec_frac_digits(m as nat, w as nat),
    decreases w,
{
    if w == 0 {
        proof {
            assert(out@ =~= old(out)@ + spec_frac_digits(m as nat, 0));
        }
    } else {
        push_frac(out, m / 10, w - 1);
        out.push(48 + (m % 10) as u8);
        proof {
            assert(out@ =~= old(out)@ + spec_frac_digits(m as nat, w as nat));
        }
    }
}

/// Appends one coordinate at precision `p`.
#[verifier::rlimit(60)]
fn push_coord(out: &mut Vec<u8>, u: i64, c: u32, p: usize)
    requires
        -COORD_LIMIT <= u <= COORD_LIMIT,
        c <= SCALE_LIMIT,
    ensures
        final(out)@ == old(out)@ + spec_coord(u as int, c as nat, p as nat),
{
    let neg = u < 0;
    let a: u64 = if neg {
        (-u) as u64
    } else {
        u as u64
    };
    let (a2, e): (u64, u32) = if p < c as usize {
        let d = pow10_u64(c - p as u32);
        let q = a / d;
        let r = a % d;
        if 2 * r >= d {
            (q + 1, p as u32)
        } else {
            (q, p as u32)
        }
    } else {
        (a, c)
    };
    proof {
        assert(a2 == rounded_mag(abs_of(u as int), c as nat, p as nat));
        assert(e == eff_scale(c as nat, p as nat));
    }
    if neg {
        out.push(45);
    }
    let de = pow10_u64(e);
    push_nat(out, a2 / de);
    if p > 0 {
        out.push(46);
        push_frac(out, a2 % de, e);
        let mut z: usize = e as usize;
        let ghost base = out@;
        while z < p
            invariant
                e as usize <= z <= p,
                out@ == base + zeros((z - e) as nat),
            decreases p - z,
        {
            out.push(48);
            proof {
                assert(out@ =~= base + zeros((z + 1 - e) as nat));
            }
            z = z + 1;
        }
        proof {
            assert(z == p);
            assert(out@ =~= old(out)@ + spec_coord(u as int, c as nat, p as nat));
        }
    } else {
        proof {
            assert(out@ =~= old(out)@ + spec_coord(u as int, c as nat, p as nat));
        }
    }
}

/// Serializes the mesh in the input format: the declared point count, one
/// line per vertex at the requested precision, the declared triangle
/// count, and that many triangle lines: the declared triangle count picks
/// how many stored triangles are written.
#[verifier::rlimit(100)]
pub fn render_output(mesh: &Mesh, precision: usize) -> (out: Vec<u8>)
    requires
        mesh.bounded(),
        mesh.n_triangles <= mesh.triangles@.len(),
    ensures
        out@ == spec_render(*mesh, precision as nat),
{
    let mut out: Vec<u8> = Vec::new();
    push_nat(&mut out, mesh.n_points as u64);
    out.push(10);
    let ghost head = out@;
    proof {
        assert(head =~= spec_nat_digits(mesh.n_points as nat) + seq![10u8]);
    }
    let mut i: usize = 0;
    while i < mesh.vertices.len()
        invariant
            i <= mesh.vertices@.len(),
            mesh.bounded(),
            mesh.n_triangles <= mesh.triangles@.len(),
            out@ == head + spec_vertex_lines(
                mesh.vertices@,
                mesh.scale as nat,
                precision as nat,
                i as int,
            ),
        decreases mesh.vertices@.len() - i,
    {
        let v = mesh.vertices[i];
        proof {
            assert(crate::mesh::coord_ok(mesh.vertices@[i as int]));
        }
        push_coord(&mut out, v.x, mesh.scale, precision);
        out.push(32);
        push_coord(&mut out, v.y, mesh.scale, precision);
        out.push(32);
        push_coord(&mut out, v.z, mesh.scale, precision);
        out.push(10);
        proof {
            assert(out@ =~= head + spec_vertex_lines(
                mesh.vertices@,
                mesh.scale as nat,
                precision as nat,
                i + 1,
            ));
        }
        i = i + 1;
    }
    push_nat(&mut out, mesh.n_triangles as u64);
    out.push(10);
    let ghost mid = out@;
    proof {
        assert(mid =~= head + spec_vertex_lines(
            mesh.vertices@,
            mesh.scale as nat,
            precision as nat,
            mesh.vertices@.len() as int,
        ) + spec_nat_digits(mesh.n_triangles as nat) + seq![10u8]);
    }
    let mut k: usize = 0;
    while k < mesh.n_triangles
        invariant
            k <= mesh.n_triangles,
            mesh.n_triangles <= mesh.triangles@.len(),
            out@ == mid + spec_tri_lines(mesh.triangles@, k as int),
        decreases mesh.n_triangles - k,
    {
        let t = mesh.triangles[k];
        push_nat(&mut out, t.a as u64);
        out.push(32);
        push_nat(&mut out, t.b as u64);
        out.push(32);
        push_nat(&mut out, t.c as u64);
        out.push(10);
        proof {
            assert(out@ =~= mid + spec_tri_lines(mesh.triangles@, k + 1));
        }
        k = k + 1;
    }
    proof {
        assert(out@ =~= spec_render(*mesh, precision as nat));
    }
    out
}

} // verus!
