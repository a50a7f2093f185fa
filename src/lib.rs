//! Islands of thresholded planar graphs, tracked over time into a Reeb graph.
//!
//! All geometry is exact: vertices are lattice points and every derived point
//! (a centroid, the centre of a smallest enclosing disk) is a rational point.
pub mod geometry;
pub mod line;
pub mod disk;
pub mod polygon;
pub mod dcel;
pub mod graph;
pub mod reeb_graph;
pub mod tracker;
pub mod beachline;
