use mesh_orient::geometry::{
    compute_centroid, compute_triangle_norm_vec_direction, correct_orientation,
};
use mesh_orient::mesh::{mesh_ready_for_correction, Centroid, Mesh, MeshError, Triangle, Vec3};
use mesh_orient::parse::{parse_dec_token, parse_input, parse_nat_token};
use mesh_orient::render::render_output;

fn v3(x: i64, y: i64, z: i64) -> Vec3 {
    Vec3 { x, y, z }
}

fn tri(a: usize, b: usize, c: usize) -> Triangle {
    Triangle { a, b, c }
}

/// The four-point tetrahedron used throughout: integer coordinates, so
/// the mesh scale is zero and one unit is one.
fn tetra_points() -> Vec<Vec3> {
    vec![v3(0, 0, 0), v3(0, 0, 1), v3(0, 1, 0), v3(1, 0, 0)]
}

const TETRA_TEXT: &[u8] =
    b"4\n0.0 0.0 0.0\n0.0 0.0 1.0\n0.0 1.0 0.0\n1.0 0.0 0.0\n4\n0 1 2\n0 3 2\n0 3 1\n1 2 3\n";

#[test]
fn test_parse_input() {
    let mesh = parse_input(TETRA_TEXT).unwrap();
    assert_eq!(mesh.n_points, 4);
    // The coordinates carry one fractional digit, so the mesh scale is 1
    // and the stored units are ten times the written values.
    assert_eq!(mesh.scale, 1);
    assert_eq!(
        mesh.vertices,
        vec![v3(0, 0, 0), v3(0, 0, 10), v3(0, 10, 0), v3(10, 0, 0)]
    );
    assert_eq!(mesh.n_triangles, 4);
    assert_eq!(
        mesh.triangles,
        vec![tri(0, 1, 2), tri(0, 3, 2), tri(0, 3, 1), tri(1, 2, 3)]
    );
}

#[test]
fn test_compute_centroid() {
    let points = tetra_points();
    let npoints: usize = 4;
    let centroid = compute_centroid(&points, npoints).unwrap();
    // Sum (1, 1, 1) over 4 points: the centroid is (0.25, 0.25, 0.25).
    assert_eq!(centroid, Centroid { sx: 1, sy: 1, sz: 1, n: 4 });
}

#[test]
fn test_compute_triangle_norm_vec_direction() {
    let points = tetra_points();
    let triangle = tri(0, 1, 2);
    // The centroid (0.25, 0.25, 0.25) as a sum over four points.
    let centroid = Centroid { sx: 1, sy: 1, sz: 1, n: 4 };
    let outwards: bool = compute_triangle_norm_vec_direction(&points, &triangle, &centroid);
    assert_eq!(outwards, true);
}

#[test]
fn centroid_of_empty_list_is_degenerate() {
    let points: Vec<Vec3> = Vec::new();
    assert_eq!(compute_centroid(&points, 0), Err(MeshError::DegenerateMesh));
}

#[test]
fn correction_flips_inward_triangle() {
    // (0, 1, 2) winds outward for the tetrahedron; (0, 2, 1) is the same
    // triangle wound inward and must come out flipped back.
    let mut mesh = Mesh {
        n_points: 4,
        scale: 0,
        vertices: tetra_points(),
        n_triangles: 2,
        triangles: vec![tri(0, 1, 2), tri(0, 2, 1)],
    };
    assert!(mesh_ready_for_correction(&mesh));
    correct_orientation(&mut mesh).unwrap();
    assert_eq!(mesh.triangles, vec![tri(0, 1, 2), tri(0, 1, 2)]);
}

#[test]
fn correction_same_result_for_both_windings() {
    // Feeding either winding of the same triangle gives the same final
    // index order.
    let mut one = Mesh {
        n_points: 4,
        scale: 0,
        vertices: tetra_points(),
        n_triangles: 1,
        triangles: vec![tri(1, 2, 3)],
    };
    let mut other = Mesh {
        n_points: 4,
        scale: 0,
        vertices: tetra_points(),
        n_triangles: 1,
        triangles: vec![tri(1, 3, 2)],
    };
    correct_orientation(&mut one).unwrap();
    correct_orientation(&mut other).unwrap();
    assert_eq!(one.triangles, other.triangles);
}

#[test]
fn correction_twice_equals_once() {
    let mut mesh = parse_input(TETRA_TEXT).unwrap();
    assert!(mesh_ready_for_correction(&mesh));
    correct_orientation(&mut mesh).unwrap();
    let after_one = mesh.triangles.clone();
    correct_orientation(&mut mesh).unwrap();
    assert_eq!(mesh.triangles, after_one);
}

#[test]
fn round_trip_keeps_counts_and_triangles() {
    let mut mesh = parse_input(TETRA_TEXT).unwrap();
    correct_orientation(&mut mesh).unwrap();
    let text = render_output(&mesh, 1);
    let back = parse_input(&text).unwrap();
    assert_eq!(back.n_points, mesh.n_points);
    assert_eq!(back.n_triangles, mesh.n_triangles);
    assert_eq!(back.triangles, mesh.triangles);
    assert_eq!(back.vertices, mesh.vertices);
}

#[test]
fn declared_count_beyond_lines_is_rejected() {
    // Three coordinate lines for a declared count of five.
    let text = b"5\n0.0 0.0 0.0\n0.0 0.0 1.0\n0.0 1.0 0.0\n";
    assert!(matches!(parse_input(text), Err(MeshError::ParseError)));
}

#[test]
fn zero_point_resource_is_degenerate() {
    let mut mesh = parse_input(b"0\n0\n").unwrap();
    assert_eq!(mesh.n_points, 0);
    assert_eq!(
        correct_orientation(&mut mesh),
        Err(MeshError::DegenerateMesh)
    );
}

#[test]
fn malformed_tokens_are_rejected() {
    assert!(matches!(parse_input(b""), Err(MeshError::ParseError)));
    assert!(matches!(parse_input(b"x\n0\n"), Err(MeshError::ParseError)));
    assert!(matches!(parse_input(b"1\n0.0 0.0\n0\n"), Err(MeshError::ParseError)));
    assert!(matches!(parse_input(b"1\n0.0 0.0 nope\n0\n"), Err(MeshError::ParseError)));
    assert!(matches!(parse_input(b"1\n0.0 0.0 0.0\n"), Err(MeshError::ParseError)));
    assert!(matches!(parse_input(b"0\n0\n0 1\n"), Err(MeshError::ParseError)));
    assert!(matches!(parse_input(b"0\n0\n0 1 2 3\n"), Err(MeshError::ParseError)));
}

#[test]
fn nat_token_parsing() {
    assert_eq!(parse_nat_token(b"0"), Some(0));
    assert_eq!(parse_nat_token(b"007"), Some(7));
    assert_eq!(parse_nat_token(b"123456"), Some(123456));
    assert_eq!(parse_nat_token(b""), None);
    assert_eq!(parse_nat_token(b"12a"), None);
    assert_eq!(parse_nat_token(b"-3"), None);
    assert_eq!(parse_nat_token(b"99999999999999999999999999999"), None);
}

#[test]
fn dec_token_parsing() {
    assert_eq!(parse_dec_token(b"0"), Some((0, 0)));
    assert_eq!(parse_dec_token(b"12.5"), Some((125, 1)));
    assert_eq!(parse_dec_token(b"-12.5"), Some((-125, 1)));
    assert_eq!(parse_dec_token(b"+0.25"), Some((25, 2)));
    assert_eq!(parse_dec_token(b"3."), Some((3, 0)));
    assert_eq!(parse_dec_token(b".5"), Some((5, 1)));
    assert_eq!(parse_dec_token(b""), None);
    assert_eq!(parse_dec_token(b"."), None);
    assert_eq!(parse_dec_token(b"1.2.3"), None);
    assert_eq!(parse_dec_token(b"1e5"), None);
    assert_eq!(parse_dec_token(b"9999999999999999999999"), None);
}

#[test]
fn out_of_exact_range_is_rejected() {
    // Rescaling 1000000000000 to the tenths of the second coordinate
    // exceeds the exact coordinate range.
    let text = b"1\n1000000000000 0.1 0.0\n0\n";
    assert!(matches!(parse_input(text), Err(MeshError::ParseError)));
    // More fractional digits than the exact format carries.
    let text2 = b"1\n0.0000000000000000001 0.0 0.0\n0\n";
    assert!(matches!(parse_input(text2), Err(MeshError::ParseError)));
    // The same values in range parse fine.
    let ok = parse_input(b"1\n100.5 0.1 0.0\n0\n").unwrap();
    assert_eq!(ok.scale, 1);
    assert_eq!(ok.vertices, vec![v3(1005, 1, 0)]);
}

#[test]
fn render_formats_fixed_precision() {
    let mesh = Mesh {
        n_points: 2,
        scale: 2,
        vertices: vec![v3(25, -104, 0), v3(100, 5, -5)],
        n_triangles: 1,
        triangles: vec![tri(0, 1, 0)],
    };
    // Scale 2: the stored units stand for 0.25, -1.04, 0.0 and 1.0,
    // 0.05, -0.05. At precision 1 they round to one fractional digit,
    // ties away from zero.
    let out = render_output(&mesh, 1);
    assert_eq!(
        std::str::from_utf8(&out).unwrap(),
        "2\n0.3 -1.0 0.0\n1.0 0.1 -0.1\n1\n0 1 0\n"
    );
    // Precision 3 pads with zeros and keeps every stored digit.
    let out3 = render_output(&mesh, 3);
    assert_eq!(
        std::str::from_utf8(&out3).unwrap(),
        "2\n0.250 -1.040 0.000\n1.000 0.050 -0.050\n1\n0 1 0\n"
    );
    // Precision 0 drops the point entirely.
    let out0 = render_output(&mesh, 0);
    assert_eq!(std::str::from_utf8(&out0).unwrap(), "2\n0 -1 0\n1 0 -0\n1\n0 1 0\n");
}

#[test]
fn readiness_check_rejects_bad_indices() {
    let mesh = Mesh {
        n_points: 4,
        scale: 0,
        vertices: tetra_points(),
        n_triangles: 1,
        triangles: vec![tri(0, 1, 4)],
    };
    assert!(!mesh_ready_for_correction(&mesh));
}
