//! Winding-order correction for closed triangular surface meshes.
//!
//! A mesh is read from a line-oriented text format (a vertex count, the
//! vertex coordinates, a triangle count, the triangle index triples).
//! Coordinates are plain decimal literals; the library keeps them exact,
//! as integer multiples of a power-of-ten unit, so every orientation
//! decision is made with exact integer arithmetic rather than rounded
//! floating point.
//!
//! For each triangle the normal candidate is the cross product of its two
//! edge vectors; the triangle winds outward when that normal agrees in
//! direction with the vector from the mesh centroid to the triangle's
//! first vertex. Triangles that fail the test have their second and third
//! vertices swapped. The centroid is assumed to lie inside the closed
//! surface; when it does not, the decisions are well-defined but need not
//! match the geometric outside.

pub mod mesh;
pub mod geometry;
pub mod parse;
pub mod render;
pub mod roundtrip;
