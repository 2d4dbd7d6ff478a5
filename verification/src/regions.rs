use std::collections::{HashMap, HashSet};
use vstd::prelude::*;
use vstd::std_specs::iter::IteratorSpec;

use crate::seqs::{lemma_without_twice, remove_value, vec_contains, without};
use crate::types::{Edge, Polygon, PolygonView, Vertex};

verus! {

broadcast use vstd::std_specs::hash::group_hash_axioms;

/// The edge lists of a map from vertex identifiers to edge positions.
pub open spec fn lists_view(m: Map<usize, Vec<usize>>) -> Map<usize, Seq<usize>> {
    m.map_values(|v: Vec<usize>| v@)
}

/// Whether the vertex `v` has at least one outgoing edge listed.
pub open spec fn has_edges(lists: Map<usize, Seq<usize>>, v: usize) -> bool {
    lists.contains_key(v) && lists[v].len() > 0
}

/// Every listed edge position names an edge of a polygon with `n` edges.
pub open spec fn lists_in_range(lists: Map<usize, Seq<usize>>, n: nat) -> bool {
    forall|k: usize, j: int| #[trigger] lists.contains_key(k) && 0 <= j < lists[k].len()
        ==> #[trigger] lists[k][j] < n
}

/// The first listed edge other than the one we arrived by.
pub open spec fn first_other(edges: Seq<usize>, prev: Option<usize>) -> Option<usize>
    decreases edges.len(),
{
    if edges.len() == 0 {
        None
    } else if prev != Some(edges[0]) {
        Some(edges[0])
    } else {
        first_other(edges.drop_first(), prev)
    }
}

/// The edge taken out of a vertex: at a crossing the first one other than
/// the edge we came by, elsewhere the first one listed.
pub open spec fn next_edge<C>(v: Vertex<C>, edges: Seq<usize>, prev: Option<usize>) -> Option<usize> {
    if v.is_intersect {
        first_other(edges, prev)
    } else if edges.len() > 0 {
        Some(edges[0])
    } else {
        None
    }
}

/// The walk that traces one region. Each visit is a vertex and the edge
/// position taken out of it; the last visit may take no edge. The walk
/// stops before a vertex already seen, one without listed edges, or one
/// the polygon does not hold, and after a vertex whose chosen edge is
/// missing or loops onto itself.
pub open spec fn trace_visits<C>(
    poly: PolygonView<C>,
    lists: Map<usize, Seq<usize>>,
    idx: usize,
    prev: Option<usize>,
    seen: Set<usize>,
    fuel: nat,
) -> Seq<(usize, Option<usize>)>
    decreases fuel,
{
    if fuel == 0 || seen.contains(idx) || !has_edges(lists, idx) || !poly.vertices.contains_key(idx) {
        seq![]
    } else {
        match next_edge(poly.vertices[idx], lists[idx], prev) {
            None => seq![(idx, None)],
            Some(ei) => {
                let e = poly.edges[ei as int];
                if e.p1 == e.p2 {
                    seq![(idx, None)]
                } else {
                    seq![(idx, Some(ei))] + trace_visits(
                        poly,
                        lists,
                        e.p2,
                        Some(ei),
                        seen.insert(idx),
                        (fuel - 1) as nat,
                    )
                }
            },
        }
    }
}

/// Enough steps for any walk over the polygon's vertices.
pub open spec fn trace_fuel<C>(poly: PolygonView<C>) -> nat {
    poly.vertices.dom().len() + 1
}

/// The walk that traces the region starting at `start`.
pub open spec fn region_walk<C>(
    poly: PolygonView<C>,
    lists: Map<usize, Seq<usize>>,
    start: usize,
) -> Seq<(usize, Option<usize>)> {
    trace_visits(poly, lists, start, None, Set::empty(), trace_fuel(poly))
}

/// The vertices a walk visits.
pub open spec fn visit_ids(visits: Seq<(usize, Option<usize>)>) -> Set<usize> {
    Set::new(|k: usize| exists|j: int| 0 <= j < visits.len() && #[trigger] visits[j].0 == k)
}

/// The visits of a walk that took an edge.
pub open spec fn walked(visits: Seq<(usize, Option<usize>)>) -> Seq<(usize, Option<usize>)> {
    if visits.len() > 0 && visits.last().1 is None {
        visits.drop_last()
    } else {
        visits
    }
}

/// The edges of a region: one per edge taken, from the visited vertex to
/// the end of the polygon edge taken, numbered in order.
pub open spec fn region_edges<C>(
    poly: PolygonView<C>,
    w: Seq<(usize, Option<usize>)>,
) -> Seq<Edge<C>> {
    Seq::new(
        w.len(),
        |j: int|
            Edge {
                p1: w[j].0,
                p2: poly.edges[w[j].1.unwrap() as int].p2,
                index: j as usize,
                outward_normal: poly.edges[w[j].1.unwrap() as int].outward_normal,
            },
    )
}

/// The region a walk traces.
pub open spec fn region_of<C>(
    poly: PolygonView<C>,
    visits: Seq<(usize, Option<usize>)>,
) -> PolygonView<C> {
    PolygonView {
        edges: region_edges(poly, walked(visits)),
        vertices: poly.vertices.restrict(visit_ids(visits)),
        offset_margin: poly.offset_margin,
        is_degenerate: false,
    }
}

/// A region is kept when it is a single segment, or a closed loop of three
/// edges or more: its last edge ends where its first one starts.
pub open spec fn keeps_region<C>(edges: Seq<Edge<C>>) -> bool {
    edges.len() == 1 || (edges.len() >= 3 && edges.last().p2 == edges[0].p1)
}

/// The position of the first vertex of `s` with listed edges.
pub open spec fn first_with_edges(lists: Map<usize, Seq<usize>>, s: Seq<usize>) -> Option<int>
    decreases s.len(),
{
    if s.len() == 0 {
        None
    } else if has_edges(lists, s[0]) {
        Some(0)
    } else {
        match first_with_edges(lists, s.drop_first()) {
            Some(i) => Some(i + 1),
            None => None,
        }
    }
}

proof fn lemma_first_other_listed(edges: Seq<usize>, prev: Option<usize>)
    ensures
        first_other(edges, prev) matches Some(e) ==> edges.contains(e),
    decreases edges.len(),
{
    if edges.len() > 0 && prev == Some(edges[0]) {
        lemma_first_other_listed(edges.drop_first(), prev);
        if let Some(e) = first_other(edges.drop_first(), prev) {
            let j = choose|j: int| 0 <= j < edges.drop_first().len() && edges.drop_first()[j] == e;
            assert(edges[j + 1] == e);
        }
    } else if edges.len() > 0 {
        assert(edges[0] == edges[0]);
    }
}

proof fn lemma_visit_ids_push(visits: Seq<(usize, Option<usize>)>, v: (usize, Option<usize>))
    ensures
        visit_ids(visits.push(v)) == visit_ids(visits).insert(v.0),
{
    let p = visits.push(v);
    assert forall|k: usize| visit_ids(p).contains(k) implies visit_ids(visits).insert(v.0).contains(
        k,
    ) by {
        let j = choose|j: int| 0 <= j < p.len() && #[trigger] p[j].0 == k;
        if j < visits.len() {
            assert(visits[j].0 == k);
        }
    }
    assert forall|k: usize| visit_ids(visits).insert(v.0).contains(k) implies visit_ids(p).contains(
        k,
    ) by {
        if k == v.0 {
            assert(p[visits.len() as int].0 == k);
        } else {
            let j = choose|j: int| 0 <= j < visits.len() && #[trigger] visits[j].0 == k;
            assert(p[j].0 == k);
        }
    }
    assert(visit_ids(p) =~= visit_ids(visits).insert(v.0));
}

/// The first edge position in `edges` other than `prev`.
fn first_other_edge(edges: &Vec<usize>, prev: Option<usize>) -> (r: Option<usize>)
    ensures
        r == first_other(edges@, prev),
{
    let mut i: usize = 0;
    assert(edges@.skip(0) =~= edges@);
    while i < edges.len()
        invariant
            i <= edges.len(),
            first_other(edges@, prev) == first_other(edges@.skip(i as int), prev),
        decreases edges.len() - i,
    {
        assert(edges@.skip(i as int).drop_first() =~= edges@.skip(i + 1));
        let keep = match prev {
            Some(p) => edges[i] != p,
            None => true,
        };
        if keep {
            return Some(edges[i]);
        }
        i = i + 1;
    }
    None
}

impl<C: Copy> Polygon<C> {
    /// Whether a traced region is worth keeping: a closed loop of three
    /// edges or more, or a single segment.
    pub fn should_add_region(&self, region: &Polygon<C>) -> (keep: bool)
        ensures
            keep == keeps_region(region.edges@),
    {
        let n = region.edges.len();
        n == 1 || (n >= 3 && region.edges[n - 1].p2 == region.edges[0].p1)
    }

    /// Takes out of `remaining` the first vertex that has an edge listed in
    /// `map`, and returns it; the vertices before it stay. With no such
    /// vertex, `remaining` is left as it was and nothing is returned.
    pub fn find_start_vertex(
        &self,
        remaining: &mut Vec<usize>,
        map: &HashMap<usize, Vec<usize>>,
    ) -> (start: Option<usize>)
        ensures
            match first_with_edges(lists_view(map@), old(remaining)@) {
                Some(i) => start == Some(old(remaining)@[i]) && final(remaining)@ == old(
                    remaining,
                )@.remove(i),
                None => start is None && final(remaining)@ == old(remaining)@,
            },
    {
        let ghost lists = lists_view(map@);
        let mut i: usize = 0;
        assert(remaining@.skip(0) =~= remaining@);
        while i < remaining.len()
            invariant
                i <= remaining.len(),
                lists == lists_view(map@),
                remaining@ == old(remaining)@,
                first_with_edges(lists, remaining@) == match first_with_edges(
                    lists,
                    remaining@.skip(i as int),
                ) {
                    Some(j) => Some(j + i),
                    None => None,
                },
            decreases remaining.len() - i,
        {
            assert(remaining@.skip(i as int).drop_first() =~= remaining@.skip(i + 1));
            assert(remaining@.skip(i as int)[0] == remaining@[i as int]);
            let v = remaining[i];
            let found = match map.get(&v) {
                Some(list) => list.len() > 0,
                None => false,
            };
            assert(found == has_edges(lists, remaining@.skip(i as int)[0]));
            if found {
                remaining.remove(i);
                return Some(v);
            }
            i = i + 1;
        }
        None
    }

    /// Traces the region that starts at `start`: from each vertex it follows
    /// the edge chosen by `next_edge` among those listed in `map`, until it
    /// comes back to a vertex already seen or cannot go on. The region holds
    /// the visited vertices and one edge per step; every visited vertex is
    /// taken out of `remaining`.
    pub fn trace_region(
        &self,
        start: usize,
        polygon: &Polygon<C>,
        map: &HashMap<usize, Vec<usize>>,
        remaining: &mut Vec<usize>,
    ) -> (region: Polygon<C>)
        requires
            lists_in_range(lists_view(map@), polygon.edges@.len()),
        ensures
            region@ == region_of(polygon@, region_walk(polygon@, lists_view(map@), start)),
            final(remaining)@ == without(
                old(remaining)@,
                visit_ids(region_walk(polygon@, lists_view(map@), start)),
            ),
    {
        let ghost poly = polygon@;
        let ghost lists = lists_view(map@);
        let ghost full = region_walk(poly, lists, start);
        let ghost rem0 = remaining@;
        let mut region = Polygon {
            edges: Vec::new(),
            vertices: HashMap::new(),
            offset_margin: polygon.offset_margin,
            is_degenerate: false,
        };
        let mut idx = start;
        let mut prev_edge_index: Option<usize> = None;
        let mut has_moved = false;
        let mut visited: HashSet<usize> = HashSet::new();
        let ghost mut path: Seq<(usize, Option<usize>)> = seq![];
        let ghost mut seen: Set<usize> = Set::empty();
        proof {
            assert(visit_ids(path) =~= seen);
            assert(region.vertices@ =~= poly.vertices.restrict(seen));
            assert(region_edges(poly, path) =~= region.edges@);
            assert(without(rem0, seen) =~= rem0) by {
                lemma_without_empty(rem0);
            }
            assert(path + full =~= full);
        }
        loop
            invariant
                lists_in_range(lists, poly.edges.len()),
                poly == polygon@,
                lists == lists_view(map@),
                full == region_walk(poly, lists, start),
                full == path + trace_visits(
                    poly,
                    lists,
                    idx,
                    prev_edge_index,
                    seen,
                    (trace_fuel(poly) - path.len()) as nat,
                ),
                forall|j: int| 0 <= j < path.len() ==> (#[trigger] path[j]).1 is Some,
                path.len() > 0 ==> prev_edge_index == path.last().1,
                path.len() == 0 ==> prev_edge_index is None,
                has_moved == (path.len() > 0),
                visit_ids(path) == seen,
                visited@ == seen,
                seen.subset_of(poly.vertices.dom()),
                seen.finite(),
                seen.len() == path.len(),
                region.vertices@ == poly.vertices.restrict(seen),
                region.edges@ == region_edges(poly, path),
                region.offset_margin == poly.offset_margin,
                !region.is_degenerate,
                remaining@ == without(rem0, seen),
                rem0 == old(remaining)@,
            decreases trace_fuel(poly) - path.len(),
        {
            proof {
                vstd::set_lib::lemma_len_subset(seen, poly.vertices.dom());
            }
            let ghost fuel = (trace_fuel(poly) - path.len()) as nat;
            if visited.contains(&idx) {
                proof {
                    assert(full =~= path);
                    lemma_walk_ends(path);
                }
                return region;
            }
            visited.insert(idx);
            let no_edges = match map.get(&idx) {
                Some(v) => v.len() == 0,
                None => true,
            };
            if (region.vertices.contains_key(&idx) && has_moved) || no_edges {
                proof {
                    assert(full =~= path);
                    lemma_walk_ends(path);
                }
                return region;
            }
            let vertex = match polygon.vertices.get(&idx) {
                Some(v) => *v,
                None => {
                    proof {
                        assert(full =~= path);
                        lemma_walk_ends(path);
                    }
                    return region;
                },
            };
            region.vertices.insert(idx, vertex);
            remove_value(remaining, idx);
            proof {
                lemma_without_twice(rem0, seen, set![idx]);
                assert(seen.union(set![idx]) =~= seen.insert(idx));
                assert(region.vertices@ =~= poly.vertices.restrict(seen.insert(idx)));
            }
            let edges = match map.get(&idx) {
                Some(v) => v,
                None => {
                    return region;
                },
            };
            let edge_index = if vertex.is_intersect {
                first_other_edge(edges, prev_edge_index)
            } else if edges.len() > 0 {
                Some(edges[0])
            } else {
                None
            };
            assert(edge_index == next_edge(poly.vertices[idx], lists[idx], prev_edge_index));
            match edge_index {
                Some(ei) => {
                    proof {
                        lemma_first_other_listed(lists[idx], prev_edge_index);
                        let j = choose|j: int| 0 <= j < lists[idx].len() && lists[idx][j] == ei;
                        assert(lists.contains_key(idx) && 0 <= j < lists[idx].len());
                        assert(lists[idx][j] < poly.edges.len());
                    }
                    let edge = polygon.edges[ei];
                    if edge.p1 == edge.p2 {
                        proof {
                            let last = path.push((idx, None::<usize>));
                            assert(full =~= last);
                            lemma_visit_ids_push(path, (idx, None));
                            assert(walked(last) =~= path);
                        }
                        return region;
                    }
                    let n = region.edges.len();
                    region.edges.push(
                        Edge { p1: idx, p2: edge.p2, outward_normal: edge.outward_normal, index: n },
                    );
                    proof {
                        let step = (idx, Some(ei));
                        let rest = trace_visits(
                            poly,
                            lists,
                            edge.p2,
                            Some(ei),
                            seen.insert(idx),
                            (fuel - 1) as nat,
                        );
                        assert(full =~= path.push(step) + rest);
                        lemma_visit_ids_push(path, step);
                        path = path.push(step);
                        seen = seen.insert(idx);
                        assert(region.edges@ =~= region_edges(poly, path));
                    }
                    prev_edge_index = Some(ei);
                    idx = edge.p2;
                    has_moved = true;
                },
                None => {
                    proof {
                        let last = path.push((idx, None::<usize>));
                        assert(full =~= last);
                        lemma_visit_ids_push(path, (idx, None));
                        assert(walked(last) =~= path);
                    }
                    return region;
                },
            }
        }
    }
}

/// Whether every edge that can be listed for a vertex names an edge by its
/// position: its `index` is below the number of edges.
pub open spec fn edge_indices_in_range<C>(poly: PolygonView<C>) -> bool {
    forall|i: int|
        0 <= i < poly.edges.len() && (#[trigger] poly.edges[i]).p1 != poly.edges[i].p2
            && poly.vertices.contains_key(poly.edges[i].p1) ==> poly.edges[i].index
            < poly.edges.len()
}

/// Whether `x` is the `index` of an edge that leaves `k` and does not loop
/// onto its start.
pub open spec fn is_listed_index<C>(edges: Seq<Edge<C>>, k: usize, x: usize) -> bool {
    exists|i: int|
        0 <= i < edges.len() && (#[trigger] edges[i]).p1 == k && edges[i].p1 != edges[i].p2
            && edges[i].index == x
}

/// For each vertex of `dom`, the `index` of each edge that leaves it, in the
/// order of `edges`, each once; edges that loop onto their start are left out.
pub open spec fn edge_map<C>(dom: Set<usize>, edges: Seq<Edge<C>>) -> Map<usize, Seq<usize>>
    decreases edges.len(),
{
    if edges.len() == 0 {
        Map::new(|k: usize| dom.contains(k), |k: usize| Seq::<usize>::empty())
    } else {
        let m = edge_map(dom, edges.drop_last());
        let e = edges.last();
        if e.p1 != e.p2 && m.contains_key(e.p1) && !m[e.p1].contains(e.index) {
            m.insert(e.p1, m[e.p1].push(e.index))
        } else {
            m
        }
    }
}

/// Every listed entry of the edge map is the `index` of an edge leaving that
/// vertex, and the map has the vertices of `dom` as keys.
pub proof fn lemma_edge_map_entries<C>(dom: Set<usize>, edges: Seq<Edge<C>>)
    ensures
        edge_map(dom, edges).dom() == dom,
        forall|k: usize, j: int|
            edge_map(dom, edges).contains_key(k) && 0 <= j < edge_map(dom, edges)[k].len()
                ==> #[trigger] is_listed_index(edges, k, edge_map(dom, edges)[k][j]),
    decreases edges.len(),
{
    let m = edge_map(dom, edges);
    if edges.len() == 0 {
        assert(m.dom() =~= dom);
    } else {
        let pre = edges.drop_last();
        lemma_edge_map_entries(dom, pre);
        let mp = edge_map(dom, pre);
        let e = edges.last();
        assert(m.dom() =~= dom);
        assert forall|k: usize, j: int| m.contains_key(k) && 0 <= j < m[k].len() implies #[trigger] is_listed_index(edges, k, m[k][j]) by {
            if e.p1 != e.p2 && mp.contains_key(e.p1) && !mp[e.p1].contains(e.index) && k == e.p1
                && j == mp[k].len() {
                assert(edges[edges.len() - 1] == e);
            } else {
                assert(mp.contains_key(k) && 0 <= j < mp[k].len() && mp[k][j] == m[k][j]);
                assert(is_listed_index(pre, k, mp[k][j]));
                let i = choose|i: int|
                    0 <= i < pre.len() && (#[trigger] pre[i]).p1 == k && pre[i].p1 != pre[i].p2
                        && pre[i].index == mp[k][j];
                assert(edges[i] == pre[i]);
            }
        }
    }
}

/// With edge indices in range, every listed edge position is in range.
pub proof fn lemma_edge_map_in_range<C>(poly: PolygonView<C>)
    requires
        edge_indices_in_range(poly),
    ensures
        lists_in_range(edge_map(poly.vertices.dom(), poly.edges), poly.edges.len()),
{
    let m = edge_map(poly.vertices.dom(), poly.edges);
    lemma_edge_map_entries(poly.vertices.dom(), poly.edges);
    assert forall|k: usize, j: int| #[trigger] m.contains_key(k) && 0 <= j < m[k].len() implies #[trigger] m[k][j]
        < poly.edges.len() by {
        assert(is_listed_index(poly.edges, k, m[k][j]));
        let i = choose|i: int|
            0 <= i < poly.edges.len() && (#[trigger] poly.edges[i]).p1 == k && poly.edges[i].p1
                != poly.edges[i].p2 && poly.edges[i].index == m[k][j];
    }
}

/// Builds the edge map of `edges` over the vertices listed in `order`.
pub fn build_edge_map<C: Copy>(order: &Vec<usize>, edges: &Vec<Edge<C>>) -> (map: HashMap<
    usize,
    Vec<usize>,
>)
    ensures
        lists_view(map@) == edge_map(order@.to_set(), edges@),
{
    let ghost dom = order@.to_set();
    let mut map: HashMap<usize, Vec<usize>> = HashMap::new();
    let mut i: usize = 0;
    while i < order.len()
        invariant
            i <= order.len(),
            dom == order@.to_set(),
            lists_view(map@) == Map::new(
                |k: usize| order@.take(i as int).contains(k),
                |k: usize| Seq::<usize>::empty(),
            ),
        decreases order.len() - i,
    {
        let ghost before = map@;
        map.insert(order[i], Vec::new());
        proof {
            broadcast use vstd::seq_lib::group_seq_properties;
            assert(order@.take(i + 1) =~= order@.take(i as int).push(order@[i as int]));
            assert forall|k: usize| #[trigger] map@.contains_key(k) <==> order@.take(i + 1).contains(k) by {
                assert(lists_view(before).contains_key(k) == before.contains_key(k));
            }
            assert forall|k: usize| #[trigger] map@.contains_key(k) implies map@[k]@ == Seq::<usize>::empty() by {
                if k != order@[i as int] {
                    assert(before.contains_key(k));
                    assert(lists_view(before)[k] == before[k]@);
                }
            }
            assert(lists_view(map@) =~= Map::new(
                |k: usize| order@.take(i + 1).contains(k),
                |k: usize| Seq::<usize>::empty(),
            ));
        }
        i = i + 1;
    }
    proof {
        assert(order@.take(order.len() as int) =~= order@);
        assert(lists_view(map@) =~= edge_map(dom, edges@.take(0)));
    }
    let mut j: usize = 0;
    while j < edges.len()
        invariant
            j <= edges.len(),
            lists_view(map@) == edge_map(dom, edges@.take(j as int)),
        decreases edges.len() - j,
    {
        let e = edges[j];
        assert(edges@.take(j + 1).drop_last() =~= edges@.take(j as int));
        assert(edges@.take(j + 1).last() == e);
        if e.p1 != e.p2 {
            match map.remove(&e.p1) {
                Some(list) => {
                    let mut list = list;
                    if !vec_contains(&list, e.index) {
                        list.push(e.index);
                    }
                    map.insert(e.p1, list);
                    proof {
                        assert(lists_view(map@) =~= edge_map(dom, edges@.take(j + 1)));
                    }
                },
                None => {
                    proof {
                        assert(lists_view(map@) =~= edge_map(dom, edges@.take(j + 1)));
                    }
                },
            }
        }
        j = j + 1;
    }
    assert(edges@.take(edges.len() as int) =~= edges@);
    map
}

/// The position of the first edge that starts at `v`.
pub open spec fn first_starting_at<C>(edges: Seq<Edge<C>>, v: usize) -> Option<int>
    decreases edges.len(),
{
    if edges.len() == 0 {
        None
    } else if edges[0].p1 == v {
        Some(0)
    } else {
        match first_starting_at(edges.drop_first(), v) {
            Some(j) => Some(j + 1),
            None => None,
        }
    }
}

/// The identifiers the edges at positions `j` to `k - 1` start at.
pub open spec fn starts_between<C>(edges: Seq<Edge<C>>, j: int, k: int) -> Set<usize> {
    Set::new(|v: usize| exists|m: int| j <= m < k && #[trigger] edges[m].p1 == v)
}

/// The identifiers the edges from position `j` on start at.
pub open spec fn starts_from<C>(edges: Seq<Edge<C>>, j: int) -> Set<usize> {
    starts_between(edges, j, edges.len() as int)
}

proof fn lemma_starts_between_step<C>(edges: Seq<Edge<C>>, j: int, k: int)
    requires
        j <= k,
    ensures
        starts_between(edges, j, k + 1) == starts_between(edges, j, k).insert(edges[k].p1),
{
    assert forall|w: usize| #[trigger] starts_between(edges, j, k + 1).contains(w) <==> starts_between(
        edges,
        j,
        k,
    ).insert(edges[k].p1).contains(w) by {
        if starts_between(edges, j, k + 1).contains(w) {
            let m = choose|m: int| j <= m < k + 1 && #[trigger] edges[m].p1 == w;
            if m < k {
                assert(starts_between(edges, j, k).contains(w));
            }
        }
        if w == edges[k].p1 {
            assert(j <= k < k + 1 && edges[k].p1 == w);
        }
        if starts_between(edges, j, k).contains(w) {
            let m = choose|m: int| j <= m < k && #[trigger] edges[m].p1 == w;
            assert(j <= m < k + 1 && edges[m].p1 == w);
        }
    }
    assert(starts_between(edges, j, k + 1) =~= starts_between(edges, j, k).insert(edges[k].p1));
}

/// The closed loop a traced region ends on. When the last edge ends at a
/// vertex the region passed before, the region is cut down to the loop that
/// starts at that vertex: its edges from there on, numbered from 0, and
/// their start vertices. Otherwise (the region closes at its start, or does
/// not close at all) it is left as it is.
pub open spec fn loop_part<C>(r: PolygonView<C>) -> PolygonView<C> {
    if r.edges.len() == 0 {
        r
    } else {
        match first_starting_at(r.edges, r.edges.last().p2) {
            None => r,
            Some(j) => PolygonView {
                edges: Seq::new(
                    (r.edges.len() - j) as nat,
                    |k: int|
                        Edge {
                            p1: r.edges[j + k].p1,
                            p2: r.edges[j + k].p2,
                            index: k as usize,
                            outward_normal: r.edges[j + k].outward_normal,
                        },
                ),
                vertices: r.vertices.restrict(starts_from(r.edges, j)),
                offset_margin: r.offset_margin,
                is_degenerate: r.is_degenerate,
            },
        }
    }
}

proof fn lemma_first_starting_at<C>(edges: Seq<Edge<C>>, v: usize)
    ensures
        first_starting_at(edges, v) matches Some(j) ==> 0 <= j < edges.len() && edges[j].p1 == v,
    decreases edges.len(),
{
    if edges.len() > 0 && edges[0].p1 != v {
        lemma_first_starting_at(edges.drop_first(), v);
    }
}

/// Cutting a region down to its loop keeps it a chain through vertices of
/// the polygon, keeps every edge an edge of the polygon, and makes the last
/// edge end where the first one starts whenever it cut anything.
pub proof fn lemma_loop_part<C>(r: PolygonView<C>, poly: PolygonView<C>)
    ensures
        is_chain_of(r, poly) ==> is_chain_of(loop_part(r), poly),
        edges_from_polygon(r, poly) ==> edges_from_polygon(loop_part(r), poly),
        loop_part(r).edges.len() <= r.edges.len(),
        loop_part(r).offset_margin == r.offset_margin,
        loop_part(r).is_degenerate == r.is_degenerate,
        loop_part(r) != r ==> loop_part(r).edges.len() > 0 && loop_part(r).edges.last().p2
            == loop_part(r).edges[0].p1,
{
    if r.edges.len() > 0 {
        let v = r.edges.last().p2;
        lemma_first_starting_at(r.edges, v);
        if let Some(j) = first_starting_at(r.edges, v) {
            let t = loop_part(r);
            assert forall|k: int| 0 <= k < t.edges.len() implies #[trigger] t.edges[k] == (Edge {
                p1: r.edges[j + k].p1,
                p2: r.edges[j + k].p2,
                index: k as usize,
                outward_normal: r.edges[j + k].outward_normal,
            }) by {}
            assert(t.edges.last().p2 == r.edges[r.edges.len() - 1].p2);
            if is_chain_of(r, poly) {
                assert forall|k: int| 0 <= k < t.edges.len() - 1 implies (#[trigger] t.edges[k]).p2
                    == t.edges[k + 1].p1 by {
                    assert(r.edges[j + k].p2 == r.edges[j + k + 1].p1);
                }
                assert forall|k: int| 0 <= k < t.edges.len() implies t.vertices.contains_key(
                    #[trigger] t.edges[k].p1,
                ) by {
                    assert(r.vertices.contains_key(r.edges[j + k].p1));
                    assert(starts_from(r.edges, j).contains(r.edges[j + k].p1));
                }
                assert forall|a: int, b: int| 0 <= a < b < t.edges.len() implies (
                #[trigger] t.edges[a]).p1 != (#[trigger] t.edges[b]).p1 by {
                    assert(r.edges[j + a].p1 != r.edges[j + b].p1);
                }
                assert(t.vertices.submap_of(poly.vertices));
            }
            if edges_from_polygon(r, poly) {
                assert forall|k: int| 0 <= k < t.edges.len() implies {
                    &&& (#[trigger] t.edges[k]).index == k as usize
                    &&& exists|m: int|
                        0 <= m < poly.edges.len() && (#[trigger] poly.edges[m]).p1 == t.edges[k].p1
                            && poly.edges[m].p2 == t.edges[k].p2 && poly.edges[m].p1
                            != poly.edges[m].p2 && poly.edges[m].outward_normal
                            == t.edges[k].outward_normal
                } by {
                    assert(r.edges[j + k] == r.edges[j + k]);
                    let m = choose|m: int|
                        0 <= m < poly.edges.len() && (#[trigger] poly.edges[m]).p1 == r.edges[j
                            + k].p1 && poly.edges[m].p2 == r.edges[j + k].p2 && poly.edges[m].p1
                            != poly.edges[m].p2 && poly.edges[m].outward_normal == r.edges[j
                            + k].outward_normal;
                }
            }
        }
    }
}

impl<C: Copy> Polygon<C> {
    /// Cuts a traced region down to the closed loop it ends on (see
    /// `loop_part`).
    pub fn trim_to_loop(&self, region: Polygon<C>) -> (r: Polygon<C>)
        requires
            forall|k: int|
                0 <= k < region.edges.len() ==> region.vertices@.contains_key(
                    #[trigger] region.edges@[k].p1,
                ),
        ensures
            r@ == loop_part(region@),
    {
        let n = region.edges.len();
        if n == 0 {
            return region;
        }
        let v = region.edges[n - 1].p2;
        let ghost es = region.edges@;
        let mut j: usize = 0;
        assert(es.skip(0) =~= es);
        while j < n && region.edges[j].p1 != v
            invariant
                j <= n,
                n == es.len(),
                es == region.edges@,
                first_starting_at(es, v) == match first_starting_at(es.skip(j as int), v) {
                    Some(m) => Some(m + j),
                    None => None,
                },
            decreases n - j,
        {
            assert(es.skip(j as int).drop_first() =~= es.skip(j + 1));
            j = j + 1;
        }
        if j == n {
            assert(first_starting_at(es.skip(n as int), v) == None::<int>);
            return region;
        }
        assert(es.skip(j as int)[0] == es[j as int]);
        assert(first_starting_at(es, v) == Some(j as int));
        let ghost t = loop_part(region@);
        assert(es.last().p2 == v);
        assert(t.edges == Seq::new(
            (n - j) as nat,
            |m: int|
                Edge {
                    p1: es[j + m].p1,
                    p2: es[j + m].p2,
                    index: m as usize,
                    outward_normal: es[j + m].outward_normal,
                },
        ));
        assert(t.vertices == region.vertices@.restrict(starts_from(es, j as int)));
        let mut edges: Vec<Edge<C>> = Vec::new();
        let mut vertices: HashMap<usize, Vertex<C>> = HashMap::new();
        let mut k: usize = j;
        while k < n
            invariant
                j <= k <= n,
                n == es.len(),
                es == region.edges@,
                first_starting_at(es, v) == Some(j as int),
                t == loop_part(region@),
                t.edges.len() == n - j,
                forall|m: int| 0 <= m < n - j ==> #[trigger] t.edges[m] == (Edge {
                    p1: es[j + m].p1,
                    p2: es[j + m].p2,
                    index: m as usize,
                    outward_normal: es[j + m].outward_normal,
                }),
                t.vertices == region.vertices@.restrict(starts_from(es, j as int)),
                forall|m: int| 0 <= m < n ==> region.vertices@.contains_key(#[trigger] es[m].p1),
                edges@ == t.edges.take(k - j),
                vertices@ == region.vertices@.restrict(starts_between(es, j as int, k as int)),
            decreases n - k,
        {
            let e = region.edges[k];
            edges.push(
                Edge { p1: e.p1, p2: e.p2, index: k - j, outward_normal: e.outward_normal },
            );
            assert(edges@ =~= t.edges.take(k + 1 - j));
            let ghost before = vertices@;
            assert(region.vertices@.contains_key(es[k as int].p1));
            match region.vertices.get(&e.p1) {
                Some(w) => {
                    vertices.insert(e.p1, *w);
                },
                None => {},
            }
            proof {
                lemma_starts_between_step(es, j as int, k as int);
                assert(vertices@ =~= region.vertices@.restrict(starts_between(es, j as int, k + 1)));
            }
            k = k + 1;
        }
        assert(t.edges.take(n - j) =~= t.edges);
        let r = Polygon {
            edges,
            vertices,
            offset_margin: region.offset_margin,
            is_degenerate: region.is_degenerate,
        };
        assert(r@.vertices =~= t.vertices);
        r
    }
}

/// A region as it is reported: marked degenerate when it has fewer than
/// three edges.
pub open spec fn reported<C>(r: PolygonView<C>) -> PolygonView<C> {
    PolygonView {
        edges: r.edges,
        vertices: r.vertices,
        offset_margin: r.offset_margin,
        is_degenerate: r.edges.len() < 3,
    }
}

/// The number of regions traced at most for `n` vertices: twice their number.
pub open spec fn iteration_cap(n: nat) -> nat {
    if 2 * n > usize::MAX {
        usize::MAX as nat
    } else {
        2 * n
    }
}

/// The regions found while vertices remain and the budget lasts: each round
/// starts at the first remaining vertex that has an edge (vertices without
/// edges are passed over), traces from it, takes the start and the visited
/// vertices out, cuts the traced region down to the loop it ends on, and
/// reports it when it is kept. When no remaining
/// vertex has an edge, the search ends.
pub open spec fn detect_from<C>(
    poly: PolygonView<C>,
    lists: Map<usize, Seq<usize>>,
    remaining: Seq<usize>,
    budget: nat,
) -> Seq<PolygonView<C>>
    decreases budget,
{
    if budget == 0 || remaining.len() == 0 {
        seq![]
    } else {
        match first_with_edges(lists, remaining) {
            None => seq![],
            Some(i) => {
                let walk = region_walk(poly, lists, remaining[i]);
                let region = loop_part(region_of(poly, walk));
                let rest = detect_from(
                    poly,
                    lists,
                    without(remaining.remove(i), visit_ids(walk)),
                    (budget - 1) as nat,
                );
                if keeps_region(region.edges) {
                    seq![reported(region)] + rest
                } else {
                    rest
                }
            },
        }
    }
}

/// The regions of `poly` when its vertices are walked in `order`.
pub open spec fn regions_in_order<C>(poly: PolygonView<C>, order: Seq<usize>) -> Seq<PolygonView<C>> {
    detect_from(
        poly,
        edge_map(poly.vertices.dom(), poly.edges),
        order,
        iteration_cap(order.len()),
    )
}

/// The views of a list of polygons.
pub open spec fn views<C>(s: Seq<Polygon<C>>) -> Seq<PolygonView<C>> {
    s.map_values(|p: Polygon<C>| p@)
}

impl<C: Copy> Polygon<C> {
    /// Splits `polygon` into the regions it encloses, starting each region at
    /// the first vertex of `order`, not yet taken out, that has an edge, and
    /// keeping of each traced region the closed loop it ends on.
    pub fn detect_regions_in_order(&self, polygon: &Polygon<C>, order: Vec<usize>) -> (regions: Vec<
        Polygon<C>,
    >)
        requires
            order@.to_set() == polygon.vertices@.dom(),
            edge_indices_in_range(polygon@),
        ensures
            views(regions@) == regions_in_order(polygon@, order@),
    {
        let ghost poly = polygon@;
        let ghost order0 = order@;
        let mut regions: Vec<Polygon<C>> = Vec::new();
        let mut remaining = order;
        let map = build_edge_map(&remaining, &polygon.edges);
        let ghost lists = lists_view(map@);
        proof {
            lemma_edge_map_in_range(poly);
        }
        let max_iterations: usize = if remaining.len() > usize::MAX / 2 {
            usize::MAX
        } else {
            remaining.len() * 2
        };
        let mut iteration_count: usize = 0;
        assert(views(regions@) + detect_from(poly, lists, remaining@, (max_iterations - iteration_count) as nat) =~= regions_in_order(poly, order0));
        while !remaining.is_empty() && iteration_count < max_iterations
            invariant
                poly == polygon@,
                lists == lists_view(map@),
                lists == edge_map(poly.vertices.dom(), poly.edges),
                lists_in_range(lists, poly.edges.len()),
                iteration_count <= max_iterations,
                max_iterations == iteration_cap(order0.len()),
                views(regions@) + detect_from(
                    poly,
                    lists,
                    remaining@,
                    (max_iterations - iteration_count) as nat,
                ) == regions_in_order(poly, order0),
            decreases max_iterations - iteration_count,
        {
            let ghost budget = (max_iterations - iteration_count) as nat;
            let ghost before = views(regions@);
            let ghost rem = remaining@;
            iteration_count = iteration_count + 1;
            match self.find_start_vertex(&mut remaining, &map) {
                None => {
                    // only vertices without edges are left
                    remaining.clear();
                    assert(views(regions@) + detect_from(poly, lists, remaining@, (budget - 1) as nat)
                        =~= before + detect_from(poly, lists, rem, budget));
                },
                Some(start_idx) => {
                    let ghost i = first_with_edges(lists, rem)->Some_0;
                    let traced = self.trace_region(start_idx, polygon, &map, &mut remaining);
                    proof {
                        lemma_traced_region_is_chain(poly, lists, rem[i]);
                    }
                    let mut current_region = self.trim_to_loop(traced);
                    if self.should_add_region(&current_region) {
                        if current_region.edges.len() < 3 {
                            current_region.is_degenerate = true;
                        }
                        assert(current_region@ =~= reported(loop_part(region_of(poly, region_walk(poly, lists, rem[i])))));
                        regions.push(current_region);
                        proof {
                            assert(views(regions@) =~= before.push(current_region@));
                            assert(views(regions@) + detect_from(poly, lists, remaining@, (budget - 1) as nat)
                                =~= before + detect_from(poly, lists, rem, budget));
                        }
                    } else {
                        assert(views(regions@) =~= before);
                    }
                },
            }
        }
        assert(views(regions@) + seq![] =~= views(regions@));
        regions
    }
}

/// The identifiers of a map's vertices, in the order the map walks them.
pub fn vertex_ids<C: Copy>(vertices: &HashMap<usize, Vertex<C>>) -> (ids: Vec<usize>)
    ensures
        ids@.to_set() == vertices@.dom(),
        ids@.no_duplicates(),
{
    let ghost keys = vstd::std_specs::hash::spec_keys_iter(vertices).remaining().map_values(
        |r: &usize| *r,
    );
    let mut ids: Vec<usize> = Vec::new();
    for k in it: vertices.keys()
        invariant
            it.seq().map_values(|r: &usize| *r) == keys,
            ids@ == keys.take(it.index()),
    {
        assert(keys.take(it.index() + 1) =~= ids@.push(*k));
        ids.push(*k);
    }
    proof {
        assert(ids@ =~= keys);
        assert(keys =~= vstd::std_specs::hash::spec_keys_iter(vertices).remaining().unref());
    }
    ids
}

impl<C: Copy> Polygon<C> {
    /// Splits `polygon` into the regions it encloses. Vertices are tried as
    /// starting points in the order the vertex map walks them.
    pub fn detect_regions(&self, polygon: &Polygon<C>) -> (regions: Vec<Polygon<C>>)
        requires
            edge_indices_in_range(polygon@),
        ensures
            exists|order: Seq<usize>|
                order.no_duplicates() && order.to_set() == polygon.vertices@.dom() && views(regions@)
                    == regions_in_order(polygon@, order),
    {
        let order = vertex_ids(&polygon.vertices);
        let ghost o = order@;
        let regions = self.detect_regions_in_order(polygon, order);
        assert(o.no_duplicates() && o.to_set() == polygon.vertices@.dom() && views(regions@) == regions_in_order(polygon@, o));
        regions
    }
}

/// Facts about every walk: each visit but the last took an edge, the next
/// visit is where that edge ends, and the visited vertices are distinct
/// vertices of the polygon, none of them seen before the walk.
proof fn lemma_walk_shape<C>(
    poly: PolygonView<C>,
    lists: Map<usize, Seq<usize>>,
    idx: usize,
    prev: Option<usize>,
    seen: Set<usize>,
    fuel: nat,
)
    ensures
        ({
            let w = trace_visits(poly, lists, idx, prev, seen, fuel);
            &&& forall|j: int|
                0 <= j < w.len() - 1 ==> (#[trigger] w[j]).1 is Some && w[j + 1].0 == poly.edges[w[j].1.unwrap() as int].p2
            &&& forall|j: int| 0 <= j < w.len() ==> poly.vertices.contains_key(#[trigger] w[j].0)
            &&& forall|j: int| 0 <= j < w.len() ==> !seen.contains(#[trigger] w[j].0)
            &&& forall|i: int, j: int| 0 <= i < j < w.len() ==> (#[trigger] w[i]).0 != (#[trigger] w[j]).0
            &&& (w.len() > 0 ==> w[0].0 == idx)
        }),
    decreases fuel,
{
    let w = trace_visits(poly, lists, idx, prev, seen, fuel);
    if !(fuel == 0 || seen.contains(idx) || !has_edges(lists, idx) || !poly.vertices.contains_key(idx)) {
        if let Some(ei) = next_edge(poly.vertices[idx], lists[idx], prev) {
            let e = poly.edges[ei as int];
            if e.p1 != e.p2 {
                let rest = trace_visits(poly, lists, e.p2, Some(ei), seen.insert(idx), (fuel - 1) as nat);
                lemma_walk_shape(poly, lists, e.p2, Some(ei), seen.insert(idx), (fuel - 1) as nat);
                assert(w == seq![(idx, Some(ei))] + rest);
                assert forall|j: int| 0 <= j < w.len() - 1 implies (#[trigger] w[j]).1 is Some && w[j + 1].0 == poly.edges[w[j].1.unwrap() as int].p2 by {
                    if j > 0 {
                        assert(w[j] == rest[j - 1]);
                        assert(w[j + 1] == rest[j]);
                    }
                }
                assert forall|j: int| 0 <= j < w.len() implies poly.vertices.contains_key(#[trigger] w[j].0) && !seen.contains(w[j].0) by {
                    if j > 0 {
                        assert(w[j] == rest[j - 1]);
                    }
                }
                assert forall|i: int, j: int| 0 <= i < j < w.len() implies (#[trigger] w[i]).0 != (#[trigger] w[j]).0 by {
                    assert(w[j] == rest[j - 1]);
                    if i > 0 {
                        assert(w[i] == rest[i - 1]);
                    }
                }
            }
        }
    }
}

/// Every edge a walk takes is listed for the vertex it leaves and does not
/// loop onto its start.
proof fn lemma_walk_edges<C>(
    poly: PolygonView<C>,
    lists: Map<usize, Seq<usize>>,
    idx: usize,
    prev: Option<usize>,
    seen: Set<usize>,
    fuel: nat,
)
    ensures
        ({
            let w = trace_visits(poly, lists, idx, prev, seen, fuel);
            forall|j: int|
                0 <= j < w.len() && (#[trigger] w[j]).1 is Some ==> {
                    &&& lists.contains_key(w[j].0)
                    &&& lists[w[j].0].contains(w[j].1.unwrap())
                    &&& poly.edges[w[j].1.unwrap() as int].p1 != poly.edges[w[j].1.unwrap() as int].p2
                }
        }),
    decreases fuel,
{
    let w = trace_visits(poly, lists, idx, prev, seen, fuel);
    if !(fuel == 0 || seen.contains(idx) || !has_edges(lists, idx) || !poly.vertices.contains_key(idx)) {
        lemma_first_other_listed(lists[idx], prev);
        assert(lists[idx][0] == lists[idx][0]);
        if let Some(ei) = next_edge(poly.vertices[idx], lists[idx], prev) {
            assert(lists[idx].contains(ei));
            let e = poly.edges[ei as int];
            if e.p1 != e.p2 {
                let rest = trace_visits(poly, lists, e.p2, Some(ei), seen.insert(idx), (fuel - 1) as nat);
                lemma_walk_edges(poly, lists, e.p2, Some(ei), seen.insert(idx), (fuel - 1) as nat);
                assert(w == seq![(idx, Some(ei))] + rest);
                assert forall|j: int| 0 <= j < w.len() && (#[trigger] w[j]).1 is Some implies {
                    &&& lists.contains_key(w[j].0)
                    &&& lists[w[j].0].contains(w[j].1.unwrap())
                    &&& poly.edges[w[j].1.unwrap() as int].p1 != poly.edges[w[j].1.unwrap() as int].p2
                } by {
                    if j > 0 {
                        assert(w[j] == rest[j - 1]);
                    }
                }
            }
        }
    }
}

/// Whether every edge of a region is an edge of `poly` (one that does not
/// loop onto its start) with the same ends and normal, and carries its
/// position in the region as `index`.
pub open spec fn edges_from_polygon<C>(region: PolygonView<C>, poly: PolygonView<C>) -> bool {
    forall|j: int|
        0 <= j < region.edges.len() ==> {
            &&& (#[trigger] region.edges[j]).index == j as usize
            &&& exists|k: int|
                0 <= k < poly.edges.len() && (#[trigger] poly.edges[k]).p1 == region.edges[j].p1
                    && poly.edges[k].p2 == region.edges[j].p2 && poly.edges[k].p1 != poly.edges[k].p2
                    && poly.edges[k].outward_normal == region.edges[j].outward_normal
        }
}

/// When every edge's `index` is its position, each edge of a traced region
/// is a non-looping edge of the polygon with the same ends and normal,
/// numbered by its position in the region.
pub proof fn lemma_region_edges_from_polygon<C>(poly: PolygonView<C>, start: usize)
    requires
        forall|k: int| 0 <= k < poly.edges.len() ==> (#[trigger] poly.edges[k]).index == k,
    ensures
        edges_from_polygon(
            region_of(poly, region_walk(poly, edge_map(poly.vertices.dom(), poly.edges), start)),
            poly,
        ),
{
    let lists = edge_map(poly.vertices.dom(), poly.edges);
    let w = region_walk(poly, lists, start);
    let r = region_of(poly, w);
    let wk = walked(w);
    lemma_walk_shape(poly, lists, start, None, Set::empty(), trace_fuel(poly));
    lemma_walk_edges(poly, lists, start, None, Set::empty(), trace_fuel(poly));
    lemma_edge_map_entries(poly.vertices.dom(), poly.edges);
    assert forall|j: int| 0 <= j < r.edges.len() implies {
        &&& (#[trigger] r.edges[j]).index == j as usize
        &&& exists|k: int|
            0 <= k < poly.edges.len() && (#[trigger] poly.edges[k]).p1 == r.edges[j].p1
                && poly.edges[k].p2 == r.edges[j].p2 && poly.edges[k].p1 != poly.edges[k].p2
                && poly.edges[k].outward_normal == r.edges[j].outward_normal
    } by {
        assert(wk[j] == w[j]);
        if j == w.len() - 1 {
            assert(w[j].1 is Some);
        } else {
            assert(w[j].1 is Some);
        }
        let ei = w[j].1.unwrap();
        let v = w[j].0;
        let m = choose|m: int| 0 <= m < lists[v].len() && lists[v][m] == ei;
        assert(is_listed_index(poly.edges, v, lists[v][m]));
        let k = choose|k: int|
            0 <= k < poly.edges.len() && (#[trigger] poly.edges[k]).p1 == v && poly.edges[k].p1
                != poly.edges[k].p2 && poly.edges[k].index == ei;
        assert(poly.edges[k].index == k);
        assert(poly.edges[ei as int] == poly.edges[k]);
    }
}

/// Whether a region is a chain: each edge starts where the previous one
/// ends, every edge starts at a distinct vertex of the region, and the
/// region's vertices are vertices of `poly` with the same values.
pub open spec fn is_chain_of<C>(region: PolygonView<C>, poly: PolygonView<C>) -> bool {
    &&& forall|j: int|
        0 <= j < region.edges.len() - 1 ==> (#[trigger] region.edges[j]).p2 == region.edges[j + 1].p1
    &&& forall|j: int|
        0 <= j < region.edges.len() ==> region.vertices.contains_key(#[trigger] region.edges[j].p1)
    &&& forall|i: int, j: int|
        0 <= i < j < region.edges.len() ==> (#[trigger] region.edges[i]).p1 != (
        #[trigger] region.edges[j]).p1
    &&& region.vertices.submap_of(poly.vertices)
}

/// A walk that goes from each visited vertex along the edge it took to the
/// next visit, through distinct vertices of `poly`.
pub open spec fn is_walk<C>(poly: PolygonView<C>, w: Seq<(usize, Option<usize>)>) -> bool {
    &&& forall|j: int|
        0 <= j < w.len() - 1 ==> (#[trigger] w[j]).1 is Some && w[j + 1].0 == poly.edges[w[j].1.unwrap() as int].p2
    &&& forall|j: int| 0 <= j < w.len() ==> poly.vertices.contains_key(#[trigger] w[j].0)
    &&& forall|i: int, j: int| 0 <= i < j < w.len() ==> (#[trigger] w[i]).0 != (#[trigger] w[j]).0
}

proof fn lemma_walk_region_is_chain<C>(poly: PolygonView<C>, w: Seq<(usize, Option<usize>)>)
    requires
        is_walk(poly, w),
    ensures
        is_chain_of(region_of(poly, w), poly),
        region_of(poly, w).vertices.dom() == visit_ids(w),
{
    let r = region_of(poly, w);
    let wk = walked(w);
    assert forall|j: int| 0 <= j < wk.len() implies #[trigger] wk[j] == w[j] by {}
    assert forall|j: int| 0 <= j < r.edges.len() - 1 implies (#[trigger] r.edges[j]).p2
        == r.edges[j + 1].p1 by {
        assert(wk[j] == w[j] && wk[j + 1] == w[j + 1]);
    }
    assert forall|j: int| 0 <= j < r.edges.len() implies r.vertices.contains_key(
        #[trigger] r.edges[j].p1,
    ) by {
        assert(wk[j] == w[j]);
        assert(visit_ids(w).contains(w[j].0));
    }
    assert forall|i: int, j: int| 0 <= i < j < r.edges.len() implies (#[trigger] r.edges[i]).p1
        != (#[trigger] r.edges[j]).p1 by {
        assert(wk[i] == w[i] && wk[j] == w[j]);
    }
    assert(visit_ids(w).subset_of(poly.vertices.dom())) by {
        assert forall|k: usize| visit_ids(w).contains(k) implies poly.vertices.dom().contains(k) by {
            let j = choose|j: int| 0 <= j < w.len() && #[trigger] w[j].0 == k;
        }
    }
    assert(r.vertices.dom() =~= visit_ids(w));
}

/// A traced region is a chain through vertices of the polygon, each
/// visited once; its vertices are those the walk visited.
pub proof fn lemma_traced_region_is_chain<C>(
    poly: PolygonView<C>,
    lists: Map<usize, Seq<usize>>,
    start: usize,
)
    ensures
        is_chain_of(region_of(poly, region_walk(poly, lists, start)), poly),
        region_of(poly, region_walk(poly, lists, start)).vertices.dom() == visit_ids(
            region_walk(poly, lists, start),
        ),
{
    let w = region_walk(poly, lists, start);
    lemma_walk_shape(poly, lists, start, None, Set::empty(), trace_fuel(poly));
    assert(is_walk(poly, w));
    lemma_walk_region_is_chain(poly, w);
}

/// The facts every reported region satisfies: it is a single segment
/// marked degenerate, or a closed loop of three edges or more that is not;
/// and it is a chain through vertices of the polygon.
pub open spec fn well_reported<C>(r: PolygonView<C>, poly: PolygonView<C>) -> bool {
    &&& keeps_region(r.edges)
    &&& r.is_degenerate == (r.edges.len() == 1)
    &&& (r.edges.len() >= 3 ==> r.edges[r.edges.len() - 1].p2 == r.edges[0].p1)
    &&& is_chain_of(r, poly)
}

/// Every reported region is kept by `keeps_region`, is marked degenerate
/// exactly when it is a single segment, closes into a loop when it has
/// three edges or more, and is a chain through vertices of the polygon.
pub proof fn lemma_reported_regions<C>(
    poly: PolygonView<C>,
    lists: Map<usize, Seq<usize>>,
    remaining: Seq<usize>,
    budget: nat,
)
    ensures
        forall|i: int|
            0 <= i < detect_from(poly, lists, remaining, budget).len() ==> well_reported(
                #[trigger] detect_from(poly, lists, remaining, budget)[i],
                poly,
            ),
        detect_from(poly, lists, remaining, budget).len() <= budget,
    decreases budget,
{
    if !(budget == 0 || remaining.len() == 0) {
        if let Some(k) = first_with_edges(lists, remaining) {
            let walk = region_walk(poly, lists, remaining[k]);
            let region = loop_part(region_of(poly, walk));
            let rest_in = without(remaining.remove(k), visit_ids(walk));
            lemma_reported_regions(poly, lists, rest_in, (budget - 1) as nat);
            lemma_traced_region_is_chain(poly, lists, remaining[k]);
            lemma_loop_part(region_of(poly, walk), poly);
            let out = detect_from(poly, lists, remaining, budget);
            let rest = detect_from(poly, lists, rest_in, (budget - 1) as nat);
            if keeps_region(region.edges) {
                assert(out == seq![reported(region)] + rest);
                assert(well_reported(reported(region), poly));
                assert forall|i: int| 0 <= i < out.len() implies well_reported(#[trigger] out[i], poly) by {
                    if i > 0 {
                        assert(out[i] == rest[i - 1]);
                    }
                }
            }
        }
    }
}

proof fn lemma_reported_edges_from<C>(poly: PolygonView<C>, remaining: Seq<usize>, budget: nat)
    requires
        forall|k: int| 0 <= k < poly.edges.len() ==> (#[trigger] poly.edges[k]).index == k,
    ensures
        forall|i: int|
            0 <= i < detect_from(poly, edge_map(poly.vertices.dom(), poly.edges), remaining, budget).len()
                ==> edges_from_polygon(
                #[trigger] detect_from(poly, edge_map(poly.vertices.dom(), poly.edges), remaining, budget)[i],
                poly,
            ),
    decreases budget,
{
    let lists = edge_map(poly.vertices.dom(), poly.edges);
    if !(budget == 0 || remaining.len() == 0) {
        if let Some(k) = first_with_edges(lists, remaining) {
            let walk = region_walk(poly, lists, remaining[k]);
            let region = loop_part(region_of(poly, walk));
            let rest_in = without(remaining.remove(k), visit_ids(walk));
            lemma_reported_edges_from(poly, rest_in, (budget - 1) as nat);
            lemma_region_edges_from_polygon(poly, remaining[k]);
            lemma_loop_part(region_of(poly, walk), poly);
            let out = detect_from(poly, lists, remaining, budget);
            let rest = detect_from(poly, lists, rest_in, (budget - 1) as nat);
            if keeps_region(region.edges) {
                assert(out == seq![reported(region)] + rest);
                assert(edges_from_polygon(reported(region), poly));
                assert forall|i: int| 0 <= i < out.len() implies edges_from_polygon(#[trigger] out[i], poly) by {
                    if i > 0 {
                        assert(out[i] == rest[i - 1]);
                    }
                }
            }
        }
    }
}

/// When every edge's `index` is its position, every edge of every region
/// found is a non-looping edge of the polygon with the same ends and normal,
/// numbered by its position in the region.
pub proof fn lemma_region_edges_in_order<C>(poly: PolygonView<C>, order: Seq<usize>)
    requires
        forall|k: int| 0 <= k < poly.edges.len() ==> (#[trigger] poly.edges[k]).index == k,
    ensures
        forall|i: int|
            0 <= i < regions_in_order(poly, order).len() ==> edges_from_polygon(
                #[trigger] regions_in_order(poly, order)[i],
                poly,
            ),
{
    lemma_reported_edges_from(poly, order, iteration_cap(order.len()));
}

/// The regions found when the vertices are walked in any order: each is a
/// closed loop of three edges or more, or a single segment marked
/// degenerate; each is a chain through the polygon's vertices; and there
/// are at most twice as many as vertices.
pub proof fn lemma_regions_in_order<C>(poly: PolygonView<C>, order: Seq<usize>)
    ensures
        forall|i: int|
            0 <= i < regions_in_order(poly, order).len() ==> well_reported(
                #[trigger] regions_in_order(poly, order)[i],
                poly,
            ),
        regions_in_order(poly, order).len() <= 2 * order.len(),
{
    lemma_reported_regions(
        poly,
        edge_map(poly.vertices.dom(), poly.edges),
        order,
        iteration_cap(order.len()),
    );
}

proof fn lemma_walk_ends(path: Seq<(usize, Option<usize>)>)
    requires
        forall|j: int| 0 <= j < path.len() ==> (#[trigger] path[j]).1 is Some,
    ensures
        walked(path) == path,
{
    if path.len() > 0 {
        assert(path[path.len() - 1].1 is Some);
    }
}

proof fn lemma_without_empty(s: Seq<usize>)
    ensures
        without(s, Set::empty()) == s,
    decreases s.len(),
{
    if s.len() > 0 {
        lemma_without_empty(s.drop_last());
        assert(s.drop_last().push(s.last()) =~= s);
    }
}

} // verus!
