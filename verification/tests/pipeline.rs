// End-to-end offsetting over `f64`, driving the verified core the way the
// application crate does: the floating-point functions below are the
// application's, kept identical to it (without its `Display` impl), so that
// the pipeline is run here.

use polygon_offsetting::contour::{
    closed_start_points, contour_to_vertices, number_vertices, reverse_segments, tuples_to_segments,
};
use polygon_offsetting::crossings::{max_vertex_id, order_crossings, split_edges};
use polygon_offsetting::selection::{edge_start_points, start_points_by_index};
use polygon_offsetting::OffsetError as CoreError;

/// A polygon with `f64` coordinates.
pub type Polygon = polygon_offsetting::Polygon<f64>;
/// A vertex with `f64` coordinates.
pub type Vertex = polygon_offsetting::Vertex<f64>;
/// An edge whose normal has `f64` coordinates.
pub type Edge = polygon_offsetting::Edge<f64>;
/// A segment between two `f64` points.
pub type Segment = polygon_offsetting::Segment<(f64, f64)>;

/// The result of an offset: the closed contour, its area and perimeter.
#[derive(Default, Debug, Clone)]
pub struct Offset {
    pub contour: Vec<(f64, f64)>,
    pub area: f64,
    pub perimeter: f64,
}

/// The ways an offsetting request can fail.
#[derive(Debug, Clone, Copy, PartialEq, Eq)]
pub enum OffsetError {
    InvalidTolerance,
    NoValidRegions,
    CollapsedPolygon,
    UnclosedPolygon,
    RegionSortingFailed,
    SinglePointRegion,
    InvalidResult,
}

impl From<CoreError> for OffsetError {
    fn from(e: CoreError) -> Self {
        match e {
            CoreError::InvalidTolerance => OffsetError::InvalidTolerance,
            CoreError::NoValidRegions => OffsetError::NoValidRegions,
            CoreError::CollapsedPolygon => OffsetError::CollapsedPolygon,
            CoreError::UnclosedPolygon => OffsetError::UnclosedPolygon,
            CoreError::RegionSortingFailed => OffsetError::RegionSortingFailed,
            CoreError::SinglePointRegion => OffsetError::SinglePointRegion,
            CoreError::InvalidResult => OffsetError::InvalidResult,
        }
    }
}

impl From<OffsetError> for CoreError {
    fn from(e: OffsetError) -> Self {
        match e {
            OffsetError::InvalidTolerance => CoreError::InvalidTolerance,
            OffsetError::NoValidRegions => CoreError::NoValidRegions,
            OffsetError::CollapsedPolygon => CoreError::CollapsedPolygon,
            OffsetError::UnclosedPolygon => CoreError::UnclosedPolygon,
            OffsetError::RegionSortingFailed => CoreError::RegionSortingFailed,
            OffsetError::SinglePointRegion => CoreError::SinglePointRegion,
            OffsetError::InvalidResult => CoreError::InvalidResult,
        }
    }
}



/// Building and offsetting a polygon from a closed contour.
pub trait PolygonOffsetting: Sized {
    /// Creates a polygon from a closed contour (first and last points equal)
    /// with the given offset margin: positive outward, negative inward.
    fn new(initial_contour: &Vec<(f64, f64)>, offset_size: f64) -> Result<Self, OffsetError>;

    /// Computes the offset contour; edges shorter than `tolerance` collapse.
    fn offsetting(&mut self, tolerance: f64) -> Result<Offset, OffsetError>;
}

impl PolygonOffsetting for Polygon {
    // Stays here because its deciding tests (zero-length segments, closedness,
    // winding sum, edge normals) are floating point.
    fn new(initial_contour: &Vec<(f64, f64)>, offset_size: f64) -> Result<Polygon, OffsetError> {
        let mut new_segments: Vec<Segment> = tuples_to_segments(initial_contour);
        // remove contiguous points with same coords
        new_segments.retain(|s| get_dist(s.p1, s.p2) != 0.);

        // check if our polygon is closed
        if initial_contour[0] != initial_contour[initial_contour.len() - 1] {
            return Err(OffsetError::UnclosedPolygon);
        }

        // check the direction of our polygon
        let value = new_segments
            .iter()
            .fold(0., |acc, seg| acc + (seg.p2.0 - seg.p1.0) * (seg.p2.1 + seg.p1.1));

        // reverse it if clockwise
        if value > 0. {
            new_segments = reverse_segments(&new_segments);
        }

        if new_segments.is_empty() {
            panic!("the contour has no segment of nonzero length");
        }
        let points = closed_start_points(&new_segments);
        let vertices = contour_to_vertices(points);
        let n = vertices.len();
        let normals: Vec<Vertex> = (0..n)
            .map(|i| outward_edge_normal(&vertices[&i], &vertices[&((i + 1) % n)]))
            .collect();
        Ok(Polygon::create_polygon(vertices, offset_size, &normals))
    }

    // Stays here because each step decides on floating-point results.
    fn offsetting(&mut self, tolerance: f64) -> Result<Offset, OffsetError> {
        validate_input(tolerance)?;

        if let Some(zero_offset_result) = handle_zero_offset_case(self)? {
            return Ok(zero_offset_result);
        }

        if is_collapsed(self) {
            return Err(OffsetError::CollapsedPolygon);
        }

        let mut margin_polygon = create_margin_polygon(self, tolerance);
        detect_all_intersect(&mut margin_polygon);

        let best_region = find_best_region(self, &margin_polygon)?;
        let offset = build_offset_result(&best_region)?;

        validate_result(&offset)?;
        Ok(offset)
    }
}

// Floating point: maps an `f64` to an integer with the same total order.
/// An integer that orders as `f64::total_cmp` orders the float.
fn total_order_key(f: f64) -> u64 {
    let bits = f.to_bits();
    if bits >> 63 == 1 {
        !bits
    } else {
        bits | (1u64 << 63)
    }
}

// Floating point: the shoelace formula on `f64` coordinates.
fn compute_area(contours: &Vec<(f64, f64)>) -> f64 {
    let mut a = 0.0;
    if contours.len() == 0 {
        return 0.0;
    }
    for i in 0..contours.len() - 1 {
        a = a + (contours[i].0 * contours[i + 1].1) - (contours[i + 1].0 * contours[i].1);
    }
    (a * -0.5).abs()
}

// Floating point: sums Euclidean edge lengths.
fn compute_perimeter(contour2d: &Vec<(f64, f64)>) -> f64 {
    let mut perimeter2d = 0.;
    for i in 0..(contour2d.len() - 1) {
        let p1 = &contour2d[i];
        let p2 = &contour2d[i + 1];
        perimeter2d += ((p2.0 - p1.0).powi(2) + (p2.1 - p1.1).powi(2)).sqrt();
    }
    perimeter2d
}

// Floating point: Euclidean distance.
fn get_dist(p1: (f64, f64), p2: (f64, f64)) -> f64 {
    ((p2.0 - p1.0).powi(2) + (p2.1 - p1.1).powi(2)).sqrt()
}

// Floating point: vector difference.
fn vector_sub(v1: (f64, f64), v2: (f64, f64)) -> (f64, f64) {
    (v1.0 - v2.0, v1.1 - v2.1)
}

// Floating point: vector sum.
fn vector_add(v1: (f64, f64), v2: (f64, f64)) -> (f64, f64) {
    (v1.0 + v2.0, v1.1 + v2.1)
}

// Floating point: compares the margin with the bounding box of the vertices.
fn is_collapsed(poly: &Polygon) -> bool {
    if poly.offset_margin >= 0.0 {
        return false; // Only inward offsets can collapse
    }

    let mut min_x = f64::INFINITY;
    let mut max_x = f64::NEG_INFINITY;
    let mut min_y = f64::INFINITY;
    let mut max_y = f64::NEG_INFINITY;

    for vertex in poly.vertices.values() {
        min_x = min_x.min(vertex.x);
        max_x = max_x.max(vertex.x);
        min_y = min_y.min(vertex.y);
        max_y = max_y.max(vertex.y);
    }

    let width = max_x - min_x;
    let height = max_y - min_y;
    let min_dimension = width.min(height);

    poly.offset_margin.abs() > min_dimension
}

// Floating point: trigonometry places the points of a rounded corner.
fn append_arc(
    center: &Vertex,
    radius: f64,
    start_vertex: &Vertex,
    end_vertex: &Vertex,
    tolerance: f64,
) -> Vec<Vertex> {
    let mut start_angle = (start_vertex.y - center.y).atan2(start_vertex.x - center.x);
    let mut end_angle = (end_vertex.y - center.y).atan2(end_vertex.x - center.x);
    if start_angle < 0. {
        start_angle = 2. * std::f64::consts::PI + start_angle
    }
    if end_angle <= 0. {
        end_angle = 2. * std::f64::consts::PI + end_angle
    }

    let mut angle: f64 = end_angle - start_angle;
    if angle.abs() > std::f64::consts::PI {
        angle = -(angle / angle.abs()) * (2. * std::f64::consts::PI - angle.abs());
    }

    let n_angle =
        (1. - (4. * radius * tolerance - 2. * tolerance.powi(2)) / (radius.powi(2))).acos();
    if n_angle == 0.0 {
        let vect = vector_add(
            (start_vertex.x, start_vertex.y),
            vector_sub((end_vertex.x, end_vertex.y), (start_vertex.x, start_vertex.y)),
        );
        return vec![Vertex { x: vect.0, y: vect.1, is_intersect: false }];
    }
    let nseg: i64 = ((angle.abs() / n_angle.abs()).round() + 1.) as i64;

    let angular_step = angle / nseg as f64;

    let mut dots = Vec::new();
    for i in 0..(nseg + 1) {
        let theta = start_angle + angular_step * i as f64;
        let x = radius * (theta).cos() + center.x;
        let y = radius * (theta).sin() + center.y;
        dots.push(Vertex { x, y, is_intersect: false });
    }
    dots
}

// Floating point: parametric intersection of two segments with tolerances.
fn edges_intersection(e1: &(Vertex, Vertex), e2: &(Vertex, Vertex), is_inters: bool) -> Option<Vertex> {
    let den = (e2.1.y - e2.0.y) * (e1.1.x - e1.0.x) - (e2.1.x - e2.0.x) * (e1.1.y - e1.0.y);
    if den > -0.0001 && den < 0.0001 {
        return None; // lines are parallel or conincident
    }

    let ua = ((e2.1.x - e2.0.x) * (e1.0.y - e2.0.y) - (e2.1.y - e2.0.y) * (e1.0.x - e2.0.x)) / den;
    let ub = ((e1.1.x - e1.0.x) * (e1.0.y - e2.0.y) - (e1.1.y - e1.0.y) * (e1.0.x - e2.0.x)) / den;

    if ua < 0.0000001 || ub < 0.0000001 || ua > 0.9999999 || ub > 0.9999999 {
        return None;
    }

    Some(Vertex {
        x: e1.0.x + ua * (e1.1.x - e1.0.x),
        y: e1.0.y + ua * (e1.1.y - e1.0.y),
        is_intersect: is_inters,
    })
}

// Floating point: translates both ends of an edge.
fn create_offset_edge(p1: &Vertex, p2: &Vertex, dx: f64, dy: f64) -> (Vertex, Vertex) {
    let mut v1: Vertex = Vertex::default();
    let mut v2: Vertex = Vertex::default();
    v1.x = p1.x + dx;
    v1.y = p1.y + dy;
    v2.x = p2.x + dx;
    v2.y = p2.y + dy;
    (v1, v2)
}

// Stays here because the corner points are floating-point geometry.
/// Offsets every edge along its normal and joins consecutive offset edges
/// by their crossing, a midpoint where an edge collapsed, or an arc. The
/// corner points are computed here; the library numbers them and builds
/// the edge ring.
fn create_margin_polygon(poly: &Polygon, tolerance: f64) -> Polygon {
    let mut offset_edges: Vec<(Vertex, Vertex)> = Vec::new();
    for edge in poly.edges.iter() {
        let p1 = poly.vertices.get(&edge.p1).unwrap();
        let p2 = poly.vertices.get(&edge.p2).unwrap();
        let dx = edge.outward_normal.x * poly.offset_margin;
        let dy = edge.outward_normal.y * poly.offset_margin;
        offset_edges.push(create_offset_edge(p1, p2, dx, dy));
    }

    let mut corners: Vec<Vec<Vertex>> = Vec::new();
    for i in 0..offset_edges.len() {
        let this_edge = &offset_edges[i];
        let prev_edge = &offset_edges[(i + offset_edges.len() - 1) % offset_edges.len()];

        let this_length = ((this_edge.1.x - this_edge.0.x).powi(2)
            + (this_edge.1.y - this_edge.0.y).powi(2))
        .sqrt();
        let prev_length = ((prev_edge.1.x - prev_edge.0.x).powi(2)
            + (prev_edge.1.y - prev_edge.0.y).powi(2))
        .sqrt();

        // Handle collapsed edges by using the midpoint
        if this_length < tolerance || prev_length < tolerance {
            corners.push(vec![Vertex {
                x: (this_edge.0.x + this_edge.1.x) / 2.0,
                y: (this_edge.0.y + this_edge.1.y) / 2.0,
                is_intersect: true,
            }]);
            continue;
        }

        if let Some(vertex) = edges_intersection(prev_edge, this_edge, false) {
            corners.push(vec![vertex]);
        } else {
            let arc_center = poly.vertices.get(&i).unwrap();
            corners.push(append_arc(
                arc_center,
                poly.offset_margin.abs(),
                &prev_edge.1,
                &this_edge.0,
                tolerance,
            ));
        }
    }

    let vertices = number_vertices(&corners);
    let normals = vec![Vertex::default(); vertices.len()];
    Polygon::create_polygon(vertices, poly.offset_margin, &normals)
}

// Floating point: the total-order key of a squared distance; NaN gives none.
fn squared_dist_key(p1: &Vertex, c: usize, poly: &Polygon) -> Option<u64> {
    let vertex = poly.vertices.get(&c)?;
    if vertex.x.is_nan() || vertex.y.is_nan() {
        return None;
    }
    let dist = (p1.x - vertex.x).powi(2) + (p1.y - vertex.y).powi(2);
    if dist.is_nan() {
        None
    } else {
        Some(total_order_key(dist))
    }
}

// Stays here because the distance keys are floating point.
/// Orders the crossings `cross` by squared distance from `p1`, dropping
/// those whose distance is not a number.
pub fn sort_by_squared_dist(p1: &Vertex, cross: &[usize], poly: &Polygon) -> Vec<usize> {
    let keys: Vec<Option<u64>> = cross.iter().map(|&c| squared_dist_key(p1, c, poly)).collect();
    order_crossings(&cross.to_vec(), &keys)
}

// Stays here because crossing points and distances are floating point.
/// Finds where the edges cross (floating point), lets the library number
/// the crossings, measures each crossing's distance from its edge's start
/// (floating point), and lets the library split the edges.
fn detect_all_intersect(margin_polygon: &mut Polygon) {
    let n = margin_polygon.edges.len();
    let mut hits: Vec<Vec<Option<Vertex>>> = vec![vec![None; n]; n];
    let mut count: usize = 0;
    for a in 0..n {
        for b in 0..n {
            if a > b {
                let edge1 = &margin_polygon.edges[a];
                let edge2 = &margin_polygon.edges[b];
                let p1: Vertex = *margin_polygon.vertices.get(&edge1.p1).unwrap();
                let p2: Vertex = *margin_polygon.vertices.get(&edge1.p2).unwrap();
                let p3: Vertex = *margin_polygon.vertices.get(&edge2.p1).unwrap();
                let p4: Vertex = *margin_polygon.vertices.get(&edge2.p2).unwrap();
                hits[a][b] = edges_intersection(&(p1, p2), &(p3, p4), true);
                if hits[a][b].is_some() {
                    count += 1;
                }
            }
        }
    }
    let base = max_vertex_id(&margin_polygon.vertices);
    if base.checked_add(count).is_none() {
        panic!("attempt to add with overflow");
    }
    let indices = margin_polygon.register_crossings(&hits);

    let keys: Vec<Vec<Option<u64>>> = margin_polygon
        .edges
        .iter()
        .map(|edge| {
            let p1 = margin_polygon.vertices.get(&edge.p1).unwrap();
            match indices.get(&edge.index) {
                Some(cross) => {
                    cross.iter().map(|&c| squared_dist_key(p1, c, margin_polygon)).collect()
                }
                None => Vec::new(),
            }
        })
        .collect();
    margin_polygon.edges = split_edges(&margin_polygon.edges, &indices, &keys);
    margin_polygon.offset_margin = 0.0;
    margin_polygon.is_degenerate = false;
}

// Floating point: the unit normal to the left of an edge.
fn outward_edge_normal(v1: &Vertex, v2: &Vertex) -> Vertex {
    let dx = v2.x - v1.x;
    let dy = v2.y - v1.y;
    let edge_length = (dx * dx + dy * dy).sqrt();
    Vertex { is_intersect: false, x: dy / edge_length, y: -dx / edge_length }
}

// Stays here as the caller's check of a library precondition.
/// Panics, as a missing vertex lookup would, unless every edge starts at a
/// known vertex.
fn check_edge_starts(poly: &Polygon) {
    for e in poly.edges.iter() {
        if !poly.vertices.contains_key(&e.p1) {
            panic!("called `Option::unwrap()` on a `None` value");
        }
    }
}

// Stays here because the area is floating point.
/// The shoelace area of a polygon, its edges taken in `index` order; the
/// ordering and the point lookup come from the library.
fn get_polygon_area(poly: &Polygon) -> f64 {
    check_edge_starts(poly);
    let contours = start_points_by_index(poly);

    let mut a = 0.0;
    for i in 0..contours.len() - 1 {
        a = a + (contours[i].0 * contours[i + 1].1) - (contours[i + 1].0 * contours[i].1);
    }
    a = a + (contours[contours.len() - 1].0 * contours[0].1)
        - (contours[0].0 * contours[contours.len() - 1].1);
    (a * -0.5).abs()
}

// Floating point: the tolerance must be above zero.
fn validate_input(tolerance: f64) -> Result<(), OffsetError> {
    if tolerance <= 0.0 {
        Err(OffsetError::InvalidTolerance)
    } else {
        Ok(())
    }
}

// Stays here because the margin test, area and perimeter are floating point.
/// With a zero margin the offset is the polygon itself.
fn handle_zero_offset_case(poly: &Polygon) -> Result<Option<Offset>, OffsetError> {
    if poly.offset_margin != 0.0 {
        return Ok(None);
    }
    check_edge_starts(poly);
    let mut points = edge_start_points(poly);
    points.push(points[0]);

    Ok(Some(Offset {
        area: compute_area(&points),
        perimeter: compute_perimeter(&points),
        contour: points,
    }))
}

// Stays here because region areas are floating point.
/// Traces the regions of the margin polygon (library), measures their areas
/// (floating point), and picks the largest (library).
fn find_best_region(poly: &Polygon, margin_polygon: &Polygon) -> Result<Polygon, OffsetError> {
    let n = margin_polygon.edges.len();
    for e in margin_polygon.edges.iter() {
        if e.p1 != e.p2 && margin_polygon.vertices.contains_key(&e.p1) && e.index >= n {
            panic!("index out of bounds: the len is {} but the index is {}", n, e.index);
        }
    }
    let regions = poly.detect_regions(margin_polygon);
    let keys: Vec<u64> = regions.iter().map(|r| total_order_key(get_polygon_area(r))).collect();
    poly.choose_region(regions, margin_polygon.vertices.len(), &keys).map_err(OffsetError::from)
}

// Stays here because closing and measuring the contour is floating point.
/// The contour of a region, closed if its ends differ (floating-point
/// comparison), with its area and perimeter.
fn build_offset_result(region: &Polygon) -> Result<Offset, OffsetError> {
    let area = get_polygon_area(region);
    check_edge_starts(region);
    let mut contour = edge_start_points(region);
    if !contour.is_empty() && contour[0] != *contour.last().unwrap() {
        contour.push(contour[0]);
    }
    let perimeter = compute_perimeter(&contour);
    Ok(Offset { contour, area, perimeter })
}

// Floating point: rejects results with too few points or no area or length.
fn validate_result(offset: &Offset) -> Result<(), OffsetError> {
    if offset.contour.len() < 3 || offset.area <= f64::EPSILON || offset.perimeter <= f64::EPSILON {
        Err(OffsetError::CollapsedPolygon)
    } else {
        Ok(())
    }
}

#[test]
fn test_offsetting_with_collapsed_polygon() {
    let positions = vec![(0.0, 0.0), (1.0, 0.0), (1.0, 1.0), (0.0, 1.0), (0.0, 0.0)];
    // Use an extremely large offset that would truly collapse the polygon
    let mut polygon = Polygon::new(&positions, -1000.0).unwrap();
    let result = polygon.offsetting(0.1);
    assert!(matches!(result, Err(OffsetError::CollapsedPolygon)));
}

#[test]
fn test_offsetting_with_valid_polygon() {
    let positions = vec![(0.0, 0.0), (2.0, 0.0), (2.0, 2.0), (0.0, 2.0), (0.0, 0.0)];
    let mut polygon = Polygon::new(&positions, -0.5).unwrap();
    let result = polygon.offsetting(0.1);
    assert!(result.is_ok());
    let offset = result.unwrap();
    assert!(offset.area > 0.0);
    assert!(offset.perimeter > 0.0);
    assert_eq!(offset.contour.len(), 5); // Closed polygon
}

#[test]
fn test_collapsing_edge() {
    let positions = vec![(0.0, 0.0), (1.0, 0.0), (1.0, 1.0), (0.0, 1.0), (0.0, 0.0)];

    // Small inward offset should succeed
    let mut polygon = Polygon::new(&positions, -0.4).unwrap();
    assert!(polygon.offsetting(0.1).is_ok());

    // Larger offset that collapses edges but should still produce a valid polygon
    let mut polygon = Polygon::new(&positions, -0.8).unwrap();
    let result = polygon.offsetting(0.1);
    assert!(result.is_ok());
    let offset = result.unwrap();
    assert!(offset.contour.len() >= 3); // Should still form a valid polygon
    assert!(offset.area > 0.0); // Should have some area
    assert!(offset.perimeter > 0.0); // Should have some perimeter
}

#[test]
fn test_validate_input() {
    assert!(validate_input(0.0).is_err());
    assert!(validate_input(-1.0).is_err());
    assert!(validate_input(0.1).is_ok());
}

#[test]
fn test_handle_zero_offset_case() {
    let positions = vec![(0.0, 0.0), (1.0, 0.0), (0.0, 1.0), (0.0, 0.0)];
    let poly = Polygon::new(&positions, 0.0).unwrap();
    let result = handle_zero_offset_case(&poly).unwrap();
    assert!(result.is_some());
    let offset = result.unwrap();
    assert_eq!(offset.contour.len(), 4);
    assert!(offset.area > 0.0);

    let poly = Polygon::new(&positions, 1.0).unwrap();
    let result = handle_zero_offset_case(&poly).unwrap();
    assert!(result.is_none());
}

#[test]
fn test_find_best_region() {
    let positions = vec![(0.0, 0.0), (2.0, 0.0), (2.0, 2.0), (0.0, 2.0), (0.0, 0.0)];
    let poly = Polygon::new(&positions, -0.5).unwrap();
    let mut margin_poly = create_margin_polygon(&poly, 0.1);
    detect_all_intersect(&mut margin_poly);
    let best_region = find_best_region(&poly, &margin_poly).unwrap();
    assert!(get_polygon_area(&best_region) > 0.0);
}

#[test]
fn test_build_offset_result() {
    let positions = vec![(0.0, 0.0), (1.0, 0.0), (1.0, 1.0), (0.0, 1.0), (0.0, 0.0)];
    let poly = Polygon::new(&positions, 0.0).unwrap();
    let region = poly.detect_regions(&poly).remove(0);
    let offset = build_offset_result(&region).unwrap();
    assert_eq!(offset.contour.len(), 5);
    assert!(offset.area > 0.0);
}

#[test]
fn test_validate_result() {
    let valid_offset = Offset {
        contour: vec![(0.0, 0.0), (1.0, 0.0), (1.0, 1.0), (0.0, 0.0)],
        area: 0.5,
        perimeter: 1.0 + 1.0 + 2.0f64.sqrt(),
    };
    assert!(validate_result(&valid_offset).is_ok());

    let invalid_offset = Offset { contour: vec![(0.0, 0.0), (1.0, 0.0)], area: 0.0, perimeter: 1.0 };
    assert!(validate_result(&invalid_offset).is_err());
}

#[test]
fn test_offsetting_with_collapsed_edge() {
    // This polygon has a very short top edge that will collapse with an inward offset
    let positions = vec![
        (-9.209196386108575, -82.65770331049015),
        (-19.350875198739036, -95.0),
        (-20.0, -95.0),
        (-20.0, -71.49615313993024),
        (-12.246282220888371, -74.45427771910211),
        (-9.209196386108575, -82.65770331049015),
    ];

    let mut polygon = Polygon::new(&positions, -0.7).unwrap();
    let result = polygon.offsetting(0.1);

    assert!(result.is_ok());
    let offset = result.unwrap();
    assert!(offset.contour.len() > 2); // Should still have at least 3 points
}

#[test]
fn collapsed_edge_regions_do_not_depend_on_walk_order() {
    let positions = vec![
        (-9.209196386108575, -82.65770331049015),
        (-19.350875198739036, -95.0),
        (-20.0, -95.0),
        (-20.0, -71.49615313993024),
        (-12.246282220888371, -74.45427771910211),
        (-9.209196386108575, -82.65770331049015),
    ];
    let polygon = Polygon::new(&positions, -0.7).unwrap();
    let mut margin = create_margin_polygon(&polygon, 0.1);
    detect_all_intersect(&mut margin);
    let mut ids: Vec<usize> = margin.vertices.keys().copied().collect();
    ids.sort();
    for shift in 0..ids.len() {
        let mut order = ids.clone();
        order.rotate_left(shift);
        let regions = polygon.detect_regions_in_order(&margin, order.clone());
        assert!(!regions.is_empty(), "no region for walk order {:?}", order);
        for r in regions.iter() {
            let n = r.edges.len();
            assert!(n == 1 || r.edges[n - 1].p2 == r.edges[0].p1);
        }
    }
}
