//! Topological core of polygon offsetting: contours, edges, crossings and
//! region tracing over vertex identifiers. Coordinates are carried as an
//! opaque parameter `C`; the numeric geometry that decides on them lives
//! with the caller.

pub mod contour;
pub mod crossings;
pub mod error;
pub mod regions;
pub mod selection;
pub mod seqs;
pub mod sorting;
pub mod types;

pub use crate::error::OffsetError;
pub use crate::types::{Edge, Polygon, PolygonView, Segment, Vertex};
