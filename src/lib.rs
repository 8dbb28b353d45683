//! Contour extraction from 2D signed-distance scenes by dual contouring: a CSG
//! field is sampled on a grid, each crossing cell gets a dual vertex that
//! minimizes a quadratic error over tangent constraints, and the cells are
//! turned into contour lines and fill triangles. All coordinates and field
//! values are fixed-point integers.

pub mod geom;
pub mod field;
pub mod grid;
pub mod search;
pub mod contour;
pub mod window;
