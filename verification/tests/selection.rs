use polygon_offsetting::selection::{edge_start_points, start_points_by_index};
use polygon_offsetting::{Edge, OffsetError, Polygon, Vertex};

fn region(n_edges: usize, tag: f64) -> Polygon<f64> {
    let mut p: Polygon<f64> = Polygon::default();
    p.offset_margin = tag;
    for i in 0..n_edges {
        p.edges.push(Edge { p1: i, p2: (i + 1) % n_edges, index: i, outward_normal: Vertex::default() });
    }
    p
}

#[test]
fn no_region_errors() {
    let searcher: Polygon<f64> = Polygon::default();
    assert!(matches!(
        searcher.choose_region(Vec::new(), 1, &Vec::new()),
        Err(OffsetError::SinglePointRegion)
    ));
    assert!(matches!(
        searcher.choose_region(Vec::new(), 3, &Vec::new()),
        Err(OffsetError::NoValidRegions)
    ));
}

#[test]
fn largest_region_wins_and_ties_go_to_the_last() {
    let searcher: Polygon<f64> = Polygon::default();
    let regions = vec![region(3, 1.0), region(4, 2.0), region(3, 3.0)];
    let best = searcher.choose_region(regions, 10, &vec![5, 9, 2]).unwrap();
    assert_eq!(best.offset_margin, 2.0);
    let regions = vec![region(3, 1.0), region(4, 2.0), region(3, 3.0)];
    let best = searcher.choose_region(regions, 10, &vec![9, 9, 2]).unwrap();
    assert_eq!(best.offset_margin, 2.0);
}

#[test]
fn start_points_follow_edges() {
    let mut p = region(3, 0.0);
    p.vertices.insert(0, Vertex { x: 0.0, y: 0.0, is_intersect: false });
    p.vertices.insert(1, Vertex { x: 1.0, y: 0.0, is_intersect: false });
    p.vertices.insert(2, Vertex { x: 0.0, y: 1.0, is_intersect: false });
    p.edges[0].index = 2;
    p.edges[2].index = 0;
    assert_eq!(edge_start_points(&p), vec![(0.0, 0.0), (1.0, 0.0), (0.0, 1.0)]);
    assert_eq!(start_points_by_index(&p), vec![(0.0, 1.0), (1.0, 0.0), (0.0, 0.0)]);
}
