use std::collections::HashMap;

use polygon_offsetting::crossings::{max_vertex_id, order_crossings, split_edges};
use polygon_offsetting::{Edge, Polygon, Vertex};

/// An integer that orders like `f64::total_cmp`.
fn total_order_key(f: f64) -> u64 {
    let b = f.to_bits();
    if b >> 63 == 1 {
        !b
    } else {
        b | (1u64 << 63)
    }
}

/// The key of the squared distance from `p1` to the crossing `c`, if any.
fn dist_key(p1: &Vertex<f64>, c: usize, poly: &Polygon<f64>) -> Option<u64> {
    let vertex = poly.vertices.get(&c)?;
    if vertex.x.is_nan() || vertex.y.is_nan() {
        return None;
    }
    let dist = (p1.x - vertex.x).powi(2) + (p1.y - vertex.y).powi(2);
    if dist.is_nan() {
        None
    } else {
        Some(total_order_key(dist))
    }
}

fn sort_by_squared_dist(p1: &Vertex<f64>, cross: &[usize], poly: &Polygon<f64>) -> Vec<usize> {
    let keys: Vec<Option<u64>> = cross.iter().map(|&c| dist_key(p1, c, poly)).collect();
    order_crossings(&cross.to_vec(), &keys)
}

#[test]
fn test_sort_by_squared_dist_normal_case() {
    let p1 = Vertex { x: 0.0, y: 0.0, is_intersect: false };
    let points = vec![
        (10, Vertex { x: 1.0, y: 0.0, is_intersect: false }),
        (20, Vertex { x: 2.0, y: 0.0, is_intersect: false }),
        (30, Vertex { x: 0.0, y: 1.0, is_intersect: false }),
    ];
    let cross: Vec<usize> = points.iter().map(|(id, _)| *id).collect();
    let test_poly = Polygon { vertices: points.into_iter().collect(), ..Default::default() };

    let sorted = sort_by_squared_dist(&p1, &cross, &test_poly);
    assert_eq!(sorted, vec![10, 30, 20]);
}

#[test]
fn test_sort_by_squared_dist_with_nan() {
    let p1 = Vertex { x: 0.0, y: 0.0, is_intersect: false };
    let points = vec![
        (10, Vertex { x: f64::NAN, y: f64::NAN, is_intersect: false }),
        (20, Vertex { x: 1.0, y: 0.0, is_intersect: false }),
        (30, Vertex { x: 0.0, y: 1.0, is_intersect: false }),
    ];
    let cross: Vec<usize> = points.iter().map(|(id, _)| *id).collect();
    let test_poly = Polygon { vertices: points.into_iter().collect(), ..Default::default() };

    let sorted = sort_by_squared_dist(&p1, &cross, &test_poly);
    // NaN points should be filtered out or placed at the end
    assert_eq!(sorted.len(), 2);
    assert!(sorted.contains(&20));
    assert!(sorted.contains(&30));
}

#[test]
fn order_keeps_found_order_for_equal_keys() {
    let cross = vec![7, 3, 9, 5];
    let keys = vec![Some(2), Some(1), None, Some(2)];
    assert_eq!(order_crossings(&cross, &keys), vec![3, 7, 5]);
}

#[test]
fn max_vertex_id_is_greatest_key_or_zero() {
    let mut v: HashMap<usize, Vertex<f64>> = HashMap::new();
    assert_eq!(max_vertex_id(&v), 0);
    v.insert(4, Vertex::default());
    v.insert(11, Vertex::default());
    v.insert(2, Vertex::default());
    assert_eq!(max_vertex_id(&v), 11);
}

fn bow_tie() -> Polygon<f64> {
    let mut poly: Polygon<f64> = Polygon::default();
    poly.vertices.insert(0, Vertex { x: 0.0, y: 0.0, is_intersect: false });
    poly.vertices.insert(1, Vertex { x: 2.0, y: 2.0, is_intersect: false });
    poly.vertices.insert(2, Vertex { x: 2.0, y: 0.0, is_intersect: false });
    poly.vertices.insert(3, Vertex { x: 0.0, y: 2.0, is_intersect: false });
    let normal = Vertex { x: 0.5, y: -0.5, is_intersect: false };
    for (i, (p1, p2)) in [(0, 1), (1, 2), (2, 3), (3, 0)].into_iter().enumerate() {
        poly.edges.push(Edge { p1, p2, index: i + 10, outward_normal: normal });
    }
    poly
}

#[test]
fn crossings_are_numbered_after_the_greatest_vertex() {
    let mut poly = bow_tie();
    let cross_point = Vertex { x: 1.0, y: 1.0, is_intersect: true };
    let mut hits = vec![vec![None; 4]; 4];
    hits[2][0] = Some(cross_point);
    let indices = poly.register_crossings(&hits);
    assert_eq!(poly.vertices.len(), 5);
    assert!(poly.vertices[&4].is_intersect);
    assert_eq!(poly.vertices[&4].x, 1.0);
    let idx: Vec<usize> = poly.edges.iter().map(|e| e.index).collect();
    assert_eq!(idx, vec![0, 1, 2, 3]);
    // lists are kept under the former indices (10..13), looked up by position
    assert_eq!(indices.len(), 4);
    assert!(indices.values().all(|v| v.is_empty()));
}

#[test]
fn bow_tie_edges_are_split_at_their_crossing() {
    let mut poly = bow_tie();
    for (i, e) in poly.edges.iter_mut().enumerate() {
        e.index = i;
    }
    let mut hits = vec![vec![None; 4]; 4];
    hits[2][0] = Some(Vertex { x: 1.0, y: 1.0, is_intersect: true });
    let indices = poly.register_crossings(&hits);
    assert_eq!(indices[&0], vec![4]);
    assert_eq!(indices[&2], vec![4]);
    assert!(indices[&1].is_empty() && indices[&3].is_empty());
    let keys: Vec<Vec<Option<u64>>> = poly
        .edges
        .iter()
        .map(|e| match indices.get(&e.index) {
            Some(cross) => cross.iter().map(|&c| dist_key(&poly.vertices[&e.p1], c, &poly)).collect(),
            None => Vec::new(),
        })
        .collect();
    let split = split_edges(&poly.edges, &indices, &keys);
    let shape: Vec<(usize, usize, usize)> = split.iter().map(|e| (e.p1, e.p2, e.index)).collect();
    assert_eq!(shape, vec![(0, 4, 0), (4, 1, 1), (1, 2, 2), (2, 4, 3), (4, 3, 4), (3, 0, 5)]);
    assert!(split.iter().all(|e| e.outward_normal.x == 0.5));
    assert!(split.iter().all(|e| poly.vertices.contains_key(&e.p1) && poly.vertices.contains_key(&e.p2)));
}

#[test]
fn edge_with_several_crossings_is_split_nearest_first() {
    let mut poly: Polygon<f64> = Polygon::default();
    poly.edges.push(Edge { p1: 0, p2: 1, index: 0, outward_normal: Vertex::default() });
    let mut indices: HashMap<usize, Vec<usize>> = HashMap::new();
    indices.insert(0, vec![8, 6, 7]);
    let keys = vec![vec![Some(30), Some(10), Some(20)]];
    let split = split_edges(&poly.edges, &indices, &keys);
    let shape: Vec<(usize, usize)> = split.iter().map(|e| (e.p1, e.p2)).collect();
    assert_eq!(shape, vec![(0, 6), (6, 7), (7, 8), (8, 1)]);
}
