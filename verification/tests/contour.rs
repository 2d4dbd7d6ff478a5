use polygon_offsetting::contour::{
    closed_start_points, contour_to_vertices, number_vertices, reverse_segments, tuples_to_segments,
};
use polygon_offsetting::{Polygon, Segment, Vertex};

fn square() -> Vec<(f64, f64)> {
    vec![(0.0, 0.0), (1.0, 0.0), (1.0, 1.0), (0.0, 1.0), (0.0, 0.0)]
}

#[test]
fn segments_join_consecutive_points_and_close() {
    let segs = tuples_to_segments(&square());
    assert_eq!(segs.len(), 5);
    assert_eq!(segs[0].p1, (0.0, 0.0));
    assert_eq!(segs[0].p2, (1.0, 0.0));
    assert_eq!(segs[3].p1, (0.0, 1.0));
    assert_eq!(segs[3].p2, (0.0, 0.0));
    // the closing segment of a closed contour has zero length
    assert_eq!((segs[4].p1, segs[4].p2), ((0.0, 0.0), (0.0, 0.0)));
    let open = tuples_to_segments(&vec![(0.0, 0.0), (1.0, 0.0), (1.0, 2.0)]);
    assert_eq!(open.len(), 3);
    assert_eq!((open[2].p1, open[2].p2), ((1.0, 2.0), (0.0, 0.0)));
    let one: Vec<Segment<(f64, f64)>> = tuples_to_segments(&vec![(2.0, 2.0)]);
    assert_eq!(one.len(), 1);
    assert_eq!((one[0].p1, one[0].p2), ((2.0, 2.0), (2.0, 2.0)));
    let empty: Vec<(f64, f64)> = Vec::new();
    assert!(tuples_to_segments(&empty).is_empty());
}

#[test]
fn reversing_flips_order_and_direction() {
    let segs = tuples_to_segments(&vec![(0.0, 0.0), (1.0, 0.0), (1.0, 2.0)]);
    let rev = reverse_segments(&segs);
    assert_eq!(rev.len(), 3);
    assert_eq!((rev[0].p1, rev[0].p2), ((0.0, 0.0), (1.0, 2.0)));
    assert_eq!((rev[1].p1, rev[1].p2), ((1.0, 2.0), (1.0, 0.0)));
    assert_eq!((rev[2].p1, rev[2].p2), ((1.0, 0.0), (0.0, 0.0)));
    let back = reverse_segments(&rev);
    for (a, b) in back.iter().zip(segs.iter()) {
        assert_eq!((a.p1, a.p2), (b.p1, b.p2));
    }
}

#[test]
fn start_points_are_closed() {
    let segs = tuples_to_segments(&vec![(0.0, 0.0), (1.0, 0.0), (1.0, 2.0)]);
    let pts = closed_start_points(&segs);
    assert_eq!(pts, vec![(0.0, 0.0), (1.0, 0.0), (1.0, 2.0), (0.0, 0.0)]);
}

#[test]
fn contour_vertices_skip_the_closing_point() {
    let v = contour_to_vertices(square());
    assert_eq!(v.len(), 4);
    for k in 0..4 {
        assert!(v.contains_key(&k));
        assert!(!v[&k].is_intersect);
    }
    assert_eq!((v[&2].x, v[&2].y), (1.0, 1.0));
    assert!(!v.contains_key(&4));
    assert!(contour_to_vertices(vec![(5.0, 5.0)]).is_empty());
}

#[test]
fn polygon_edges_form_a_ring() {
    let vertices = contour_to_vertices(square());
    let normals: Vec<Vertex<f64>> = (0..4).map(|i| Vertex { x: i as f64, y: 0.0, is_intersect: false }).collect();
    let poly = Polygon::create_polygon(vertices, -0.5, &normals);
    let ring: Vec<(usize, usize, usize)> = poly.edges.iter().map(|e| (e.p1, e.p2, e.index)).collect();
    assert_eq!(ring, vec![(0, 1, 0), (1, 2, 1), (2, 3, 2), (3, 0, 3)]);
    assert_eq!(poly.edges[2].outward_normal.x, 2.0);
    assert_eq!(poly.offset_margin, -0.5);
    assert!(!poly.is_degenerate);
    assert_eq!(poly.vertices.len(), 4);
}

#[test]
fn single_vertex_polygon_has_no_edge() {
    let vertices = contour_to_vertices(vec![(0.0, 0.0), (0.0, 0.0)]);
    let poly = Polygon::create_polygon(vertices, 1.0, &vec![Vertex::default()]);
    assert!(poly.edges.is_empty());
    assert_eq!(poly.vertices.len(), 1);
}

#[test]
fn corners_are_numbered_in_order() {
    let a = Vertex { x: 1.0, y: 0.0, is_intersect: true };
    let b = Vertex { x: 2.0, y: 0.0, is_intersect: false };
    let c = Vertex { x: 3.0, y: 0.0, is_intersect: false };
    let v = number_vertices(&vec![vec![a], vec![b, c], vec![]]);
    assert_eq!(v.len(), 3);
    assert_eq!(v[&0].x, 1.0);
    assert!(v[&0].is_intersect);
    assert_eq!(v[&1].x, 2.0);
    assert_eq!(v[&2].x, 3.0);
}
