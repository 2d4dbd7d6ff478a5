use std::collections::HashMap;
use vstd::prelude::*;

verus! {

/// A point of a polygon. `is_intersect` marks points created where two
/// edges cross, or where a collapsed edge was replaced by its midpoint.
#[derive(Debug, Clone, Copy, Default)]
pub struct Vertex<C> {
    pub x: C,
    pub y: C,
    pub is_intersect: bool,
}

/// A directed edge between the vertices with identifiers `p1` and `p2`.
#[derive(Debug, Clone, Copy, Default)]
pub struct Edge<C> {
    pub p1: usize,
    pub p2: usize,
    pub index: usize,
    pub outward_normal: Vertex<C>,
}

/// A segment between two points `P` of a contour.
#[derive(Debug, Clone, Copy, Default)]
pub struct Segment<P> {
    pub p1: P,
    pub p2: P,
}

/// A polygon: its edges in order and its vertices keyed by identifier.
#[derive(Debug, Clone, Default)]
pub struct Polygon<C> {
    pub edges: Vec<Edge<C>>,
    pub vertices: HashMap<usize, Vertex<C>>,
    pub offset_margin: C,
    pub is_degenerate: bool,
}

/// The mathematical value of a polygon.
#[verifier::ext_equal]
pub struct PolygonView<C> {
    pub edges: Seq<Edge<C>>,
    pub vertices: Map<usize, Vertex<C>>,
    pub offset_margin: C,
    pub is_degenerate: bool,
}

impl<C> View for Polygon<C> {
    type V = PolygonView<C>;

    open spec fn view(&self) -> PolygonView<C> {
        PolygonView {
            edges: self.edges@,
            vertices: self.vertices@,
            offset_margin: self.offset_margin,
            is_degenerate: self.is_degenerate,
        }
    }
}

impl<C: Copy> Polygon<C> {
    /// A polygon with the given parts.
    pub fn from_parts(
        edges: Vec<Edge<C>>,
        vertices: HashMap<usize, Vertex<C>>,
        offset_margin: C,
        is_degenerate: bool,
    ) -> (p: Self)
        ensures
            p.edges@ == edges@,
            p.vertices@ == vertices@,
            p.offset_margin == offset_margin,
            p.is_degenerate == is_degenerate,
    {
        Polygon { edges, vertices, offset_margin, is_degenerate }
    }
}

} // verus!
