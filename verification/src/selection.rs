use vstd::prelude::*;

use crate::error::OffsetError;
use crate::regions::views;
use crate::sorting::{sort_by_key, stable_sort};
use crate::types::{Edge, Polygon, PolygonView};

verus! {

broadcast use vstd::std_specs::hash::group_hash_axioms;

/// Whether every edge starts at a vertex the polygon holds.
pub open spec fn starts_known<C>(poly: PolygonView<C>) -> bool {
    forall|i: int| 0 <= i < poly.edges.len() ==> poly.vertices.contains_key(#[trigger] poly.edges[i].p1)
}

/// The coordinates of the start of each edge, in the order of the edges.
pub open spec fn start_points<C>(poly: PolygonView<C>, edges: Seq<Edge<C>>) -> Seq<(C, C)> {
    edges.map_values(|e: Edge<C>| (poly.vertices[e.p1].x, poly.vertices[e.p1].y))
}

/// The edges ordered by `index`, edges with equal `index` in their order.
pub open spec fn edges_by_index<C>(edges: Seq<Edge<C>>) -> Seq<Edge<C>> {
    stable_sort(edges.map_values(|e: Edge<C>| (e.index as u64, e))).map_values(
        |p: (u64, Edge<C>)| p.1,
    )
}

/// The edges of `s` whose `index` is `k`, in their order.
pub open spec fn edges_with_index<C>(s: Seq<Edge<C>>, k: usize) -> Seq<Edge<C>>
    decreases s.len(),
{
    if s.len() == 0 {
        s
    } else if s.last().index == k {
        edges_with_index(s.drop_last(), k).push(s.last())
    } else {
        edges_with_index(s.drop_last(), k)
    }
}

/// Whether each pair is keyed by its edge's `index`.
pub open spec fn keyed_by_index<C>(s: Seq<(u64, Edge<C>)>) -> bool {
    forall|i: int| 0 <= i < s.len() ==> (#[trigger] s[i]).0 == s[i].1.index as u64
}

proof fn lemma_with_key_edges<C>(s: Seq<(u64, Edge<C>)>, k: usize)
    requires
        keyed_by_index(s),
    ensures
        edges_with_index(s.map_values(|p: (u64, Edge<C>)| p.1), k) == crate::sorting::with_key(
            s,
            k as u64,
        ).map_values(|p: (u64, Edge<C>)| p.1),
    decreases s.len(),
{
    if s.len() > 0 {
        let d = s.drop_last();
        assert(keyed_by_index(d)) by {
            assert forall|i: int| 0 <= i < d.len() implies (#[trigger] d[i]).0 == d[i].1.index as u64 by {
                assert(d[i] == s[i]);
            }
        }
        lemma_with_key_edges(d, k);
        assert(s.map_values(|p: (u64, Edge<C>)| p.1).drop_last() =~= d.map_values(
            |p: (u64, Edge<C>)| p.1,
        ));
        assert(s[s.len() - 1].0 == s[s.len() - 1].1.index as u64);
        let wd = crate::sorting::with_key(d, k as u64);
        assert(wd.push(s.last()).map_values(|p: (u64, Edge<C>)| p.1) =~= wd.map_values(
            |p: (u64, Edge<C>)| p.1,
        ).push(s.last().1));
    }
}

/// Taking the edges by `index`: every edge is taken once, the `index`
/// values never decrease along the result, and the edges sharing one
/// `index` come in the order they had.
pub proof fn lemma_edges_by_index<C>(edges: Seq<Edge<C>>)
    ensures
        edges_by_index(edges).len() == edges.len(),
        forall|i: int, j: int|
            0 <= i <= j < edges.len() ==> (#[trigger] edges_by_index(edges)[i]).index
                <= (#[trigger] edges_by_index(edges)[j]).index,
        forall|k: usize| #[trigger] edges_with_index(edges_by_index(edges), k) == edges_with_index(edges, k),
{
    broadcast use vstd::seq_lib::group_to_multiset_ensures;

    let keyed = edges.map_values(|e: Edge<C>| (e.index as u64, e));
    let sorted = stable_sort(keyed);
    crate::sorting::lemma_stable_sort(keyed);
    assert(sorted.to_multiset().len() == keyed.to_multiset().len());
    assert(keyed_by_index(keyed));
    assert(keyed_by_index(sorted)) by {
        assert forall|i: int| 0 <= i < sorted.len() implies (#[trigger] sorted[i]).0 == sorted[i].1.index as u64 by {
            assert(sorted.contains(sorted[i]));
            assert(sorted.to_multiset().count(sorted[i]) > 0);
            assert(keyed.to_multiset().count(sorted[i]) > 0);
            let t = choose|t: int| 0 <= t < keyed.len() && keyed[t] == sorted[i];
            assert(keyed[t].0 == keyed[t].1.index as u64);
        }
    }
    let ebi = edges_by_index(edges);
    assert forall|i: int, j: int| 0 <= i <= j < edges.len() implies (#[trigger] ebi[i]).index
        <= (#[trigger] ebi[j]).index by {
        assert(sorted[i].0 <= sorted[j].0);
        assert(sorted[i].0 == sorted[i].1.index as u64);
        assert(sorted[j].0 == sorted[j].1.index as u64);
    }
    assert forall|k: usize| #[trigger] edges_with_index(ebi, k) == edges_with_index(edges, k) by {
        lemma_with_key_edges(sorted, k);
        lemma_with_key_edges(keyed, k);
        assert(keyed.map_values(|p: (u64, Edge<C>)| p.1) =~= edges);
        assert(crate::sorting::with_key(sorted, k as u64) == crate::sorting::with_key(keyed, k as u64));
    }
}

/// The position of the greatest key; of several equal greatest keys, the
/// last one.
pub open spec fn last_max_index(keys: Seq<u64>) -> int
    decreases keys.len(),
{
    if keys.len() <= 1 {
        0
    } else {
        let i = last_max_index(keys.drop_last());
        if keys.last() >= keys[i] {
            keys.len() - 1
        } else {
            i
        }
    }
}

/// The position picked holds a greatest key, and every later key is smaller.
pub proof fn lemma_last_max_index(keys: Seq<u64>)
    requires
        keys.len() > 0,
    ensures
        0 <= last_max_index(keys) < keys.len(),
        forall|j: int| 0 <= j < keys.len() ==> #[trigger] keys[j] <= keys[last_max_index(keys)],
        forall|j: int|
            last_max_index(keys) < j < keys.len() ==> #[trigger] keys[j] < keys[last_max_index(keys)],
    decreases keys.len(),
{
    if keys.len() > 1 {
        let d = keys.drop_last();
        lemma_last_max_index(d);
        assert forall|j: int| 0 <= j < d.len() implies #[trigger] keys[j] == d[j] by {}
    }
}

/// The error reported when no region was found: a lone vertex is a single
/// point, anything else has no valid region.
pub open spec fn no_region_error(vertex_count: nat) -> OffsetError {
    if vertex_count == 1 {
        OffsetError::SinglePointRegion
    } else {
        OffsetError::NoValidRegions
    }
}

/// The coordinates of the start of each edge of `poly`, in edge order.
pub fn edge_start_points<C: Copy>(poly: &Polygon<C>) -> (points: Vec<(C, C)>)
    requires
        starts_known(poly@),
    ensures
        points@ == start_points(poly@, poly.edges@),
{
    let mut points: Vec<(C, C)> = Vec::new();
    let mut i: usize = 0;
    while i < poly.edges.len()
        invariant
            i <= poly.edges.len(),
            starts_known(poly@),
            points@ == start_points(poly@, poly.edges@).take(i as int),
        decreases poly.edges.len() - i,
    {
        let p1 = poly.edges[i].p1;
        assert(poly@.vertices.contains_key(poly@.edges[i as int].p1));
        let v = match poly.vertices.get(&p1) {
            Some(v) => *v,
            None => {
                return points;
            },
        };
        points.push((v.x, v.y));
        assert(points@ =~= start_points(poly@, poly.edges@).take(i + 1));
        i = i + 1;
    }
    assert(start_points(poly@, poly.edges@).take(poly.edges.len() as int) =~= start_points(
        poly@,
        poly.edges@,
    ));
    points
}

/// The coordinates of the start of each edge of `poly`, with the edges
/// taken in the order of their `index`.
pub fn start_points_by_index<C: Copy>(poly: &Polygon<C>) -> (points: Vec<(C, C)>)
    requires
        starts_known(poly@),
    ensures
        points@ == start_points(poly@, edges_by_index(poly.edges@)),
{
    let mut keyed: Vec<(u64, Edge<C>)> = Vec::new();
    let mut i: usize = 0;
    while i < poly.edges.len()
        invariant
            i <= poly.edges.len(),
            keyed@ == poly.edges@.map_values(|e: Edge<C>| (e.index as u64, e)).take(i as int),
        decreases poly.edges.len() - i,
    {
        let e = poly.edges[i];
        keyed.push((e.index as u64, e));
        assert(keyed@ =~= poly.edges@.map_values(|e: Edge<C>| (e.index as u64, e)).take(i + 1));
        i = i + 1;
    }
    assert(keyed@ =~= poly.edges@.map_values(|e: Edge<C>| (e.index as u64, e)));
    let sorted = sort_by_key(&keyed);
    proof {
        crate::sorting::lemma_stable_sort(keyed@);
    }
    let ghost ordered = edges_by_index(poly.edges@);
    let mut points: Vec<(C, C)> = Vec::new();
    let mut j: usize = 0;
    while j < sorted.len()
        invariant
            j <= sorted.len(),
            starts_known(poly@),
            sorted@ == stable_sort(keyed@),
            sorted@.to_multiset() == keyed@.to_multiset(),
            keyed@ == poly.edges@.map_values(|e: Edge<C>| (e.index as u64, e)),
            ordered == sorted@.map_values(|p: (u64, Edge<C>)| p.1),
            points@ == start_points(poly@, ordered).take(j as int),
        decreases sorted.len() - j,
    {
        let e = sorted[j].1;
        proof {
            broadcast use vstd::seq_lib::group_to_multiset_ensures;

            assert(sorted@.contains(sorted@[j as int]));
            assert(sorted@.to_multiset().count(sorted@[j as int]) > 0);
            assert(keyed@.to_multiset().count(sorted@[j as int]) > 0);
            assert(keyed@.contains(sorted@[j as int]));
            let m = choose|m: int| 0 <= m < keyed@.len() && keyed@[m] == sorted@[j as int];
            assert(poly@.vertices.contains_key(poly@.edges[m].p1));
        }
        let v = match poly.vertices.get(&e.p1) {
            Some(v) => *v,
            None => {
                return points;
            },
        };
        points.push((v.x, v.y));
        assert(points@ =~= start_points(poly@, ordered).take(j + 1));
        j = j + 1;
    }
    assert(start_points(poly@, ordered).take(sorted.len() as int) =~= start_points(poly@, ordered));
    points
}

impl<C: Copy> Polygon<C> {
    /// Picks the region with the greatest area key; of several with equal
    /// greatest keys, the last. With no region, reports a single point
    /// when the searched polygon had exactly one vertex, and no valid
    /// region otherwise.
    pub fn choose_region(
        &self,
        regions: Vec<Polygon<C>>,
        vertex_count: usize,
        area_keys: &Vec<u64>,
    ) -> (best: Result<Polygon<C>, OffsetError>)
        requires
            area_keys.len() == regions.len(),
        ensures
            regions.len() == 0 ==> best == Err::<Polygon<C>, OffsetError>(
                no_region_error(vertex_count as nat),
            ),
            regions.len() > 0 ==> (best matches Ok(p) && p@ == views(regions@)[last_max_index(
                area_keys@,
            )]),
    {
        if regions.len() == 0 {
            if vertex_count == 1 {
                return Err(OffsetError::SinglePointRegion);
            }
            return Err(OffsetError::NoValidRegions);
        }
        let mut best: usize = 0;
        let mut i: usize = 1;
        while i < area_keys.len()
            invariant
                1 <= i <= area_keys.len(),
                best == last_max_index(area_keys@.take(i as int)),
                best < i,
            decreases area_keys.len() - i,
        {
            proof {
                assert(area_keys@.take(i + 1).drop_last() =~= area_keys@.take(i as int));
                lemma_last_max_index(area_keys@.take(i as int));
            }
            if area_keys[i] >= area_keys[best] {
                best = i;
            }
            i = i + 1;
        }
        proof {
            assert(area_keys@.take(area_keys.len() as int) =~= area_keys@);
        }
        let mut regions = regions;
        let r = regions.remove(best);
        Ok(r)
    }
}

} // verus!
