//! Flight-log triangles: fixes parsed from IGC position records, a stable
//! time ordering of the trace, and the extremal reduction that picks the
//! candidate turn points of the largest closed triangle.
//!
//! The search is a heuristic: it looks only at triangles among the four
//! bounding-box extremes of the trace, not at every triple of points.
pub mod igc;
pub mod point;
pub mod search;
