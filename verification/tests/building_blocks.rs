use std::collections::HashMap;

use polygon_offsetting::regions::build_edge_map;
use polygon_offsetting::seqs::{remove_value, vec_contains};
use polygon_offsetting::sorting::sort_by_key;
use polygon_offsetting::{Edge, Polygon, Vertex};

fn edge(p1: usize, p2: usize, index: usize) -> Edge<f64> {
    Edge { p1, p2, index, outward_normal: Vertex::default() }
}

#[test]
fn edge_map_lists_leaving_edges_once_and_skips_loops() {
    let edges = vec![edge(0, 1, 0), edge(1, 1, 1), edge(0, 2, 2), edge(0, 1, 0), edge(9, 0, 3)];
    let map = build_edge_map(&vec![2, 0, 1], &edges);
    assert_eq!(map.len(), 3);
    assert_eq!(map[&0], vec![0, 2]);
    assert!(map[&1].is_empty());
    assert!(map[&2].is_empty());
    assert!(!map.contains_key(&9));
}

#[test]
fn sorting_is_stable() {
    let items = vec![(3u64, 'a'), (1, 'b'), (3, 'c'), (2, 'd'), (1, 'e')];
    let sorted = sort_by_key(&items);
    assert_eq!(sorted, vec![(1, 'b'), (1, 'e'), (2, 'd'), (3, 'a'), (3, 'c')]);
}

#[test]
fn removing_a_value_removes_every_occurrence() {
    let mut v = vec![3, 1, 3, 2, 3];
    remove_value(&mut v, 3);
    assert_eq!(v, vec![1, 2]);
    assert!(vec_contains(&v, 2));
    assert!(!vec_contains(&v, 3));
}

#[test]
fn polygon_from_parts_keeps_them() {
    let mut vertices = HashMap::new();
    vertices.insert(5, Vertex { x: 1.5, y: 2.5, is_intersect: true });
    let p: Polygon<f64> = Polygon::from_parts(vec![edge(5, 5, 0)], vertices, -2.0, true);
    assert_eq!(p.edges.len(), 1);
    assert_eq!(p.vertices[&5].y, 2.5);
    assert_eq!(p.offset_margin, -2.0);
    assert!(p.is_degenerate);
}
