use std::collections::HashMap;
use vstd::prelude::*;
use vstd::std_specs::iter::IteratorSpec;

use crate::regions::lists_view;
use crate::seqs::vec_contains;
use crate::sorting::{sort_by_key, stable_sort};
use crate::types::{Edge, Polygon, PolygonView, Vertex};

verus! {

broadcast use vstd::std_specs::hash::group_hash_axioms;

// ---------------------------------------------------------------------------
// Ordering the crossings found on one edge
/// The crossings that have a key, each paired with its key, in their order.
pub open spec fn keyed_crossings(cross: Seq<usize>, keys: Seq<Option<u64>>) -> Seq<(u64, usize)>
    decreases cross.len(),
{
    if cross.len() == 0 {
        seq![]
    } else {
        let pre = keyed_crossings(cross.drop_last(), keys.drop_last());
        match keys.last() {
            Some(k) => pre.push((k, cross.last())),
            None => pre,
        }
    }
}

/// The crossings of an edge that have a key, nearest first: ordered by key,
/// those with equal keys in the order they were found. A crossing without
/// a key (its distance could not be measured) is left out.
pub open spec fn crossing_order(cross: Seq<usize>, keys: Seq<Option<u64>>) -> Seq<usize> {
    stable_sort(keyed_crossings(cross, keys)).map_values(|p: (u64, usize)| p.1)
}

/// Orders the crossings `cross` of an edge by their distance keys `keys`
/// (`None` where no distance could be measured), nearest first.
pub fn order_crossings(cross: &Vec<usize>, keys: &Vec<Option<u64>>) -> (order: Vec<usize>)
    requires
        cross.len() == keys.len(),
    ensures
        order@ == crossing_order(cross@, keys@),
{
    let mut keyed: Vec<(u64, usize)> = Vec::new();
    let mut i: usize = 0;
    while i < cross.len()
        invariant
            i <= cross.len(),
            cross.len() == keys.len(),
            keyed@ == keyed_crossings(cross@.take(i as int), keys@.take(i as int)),
        decreases cross.len() - i,
    {
        assert(cross@.take(i + 1).drop_last() =~= cross@.take(i as int));
        assert(keys@.take(i + 1).drop_last() =~= keys@.take(i as int));
        assert(keys@.take(i + 1).last() == keys@[i as int]);
        assert(cross@.take(i + 1).last() == cross@[i as int]);
        match keys[i] {
            Some(k) => keyed.push((k, cross[i])),
            None => {},
        }
        i = i + 1;
    }
    assert(cross@.take(cross.len() as int) =~= cross@);
    assert(keys@.take(keys.len() as int) =~= keys@);
    let sorted = sort_by_key(&keyed);
    let mut order: Vec<usize> = Vec::new();
    let mut j: usize = 0;
    while j < sorted.len()
        invariant
            j <= sorted.len(),
            order@ == sorted@.take(j as int).map_values(|p: (u64, usize)| p.1),
        decreases sorted.len() - j,
    {
        order.push(sorted[j].1);
        assert(sorted@.take(j + 1).map_values(|p: (u64, usize)| p.1) =~= order@);
        j = j + 1;
    }
    assert(sorted@.take(sorted.len() as int) =~= sorted@);
    order
}

// ---------------------------------------------------------------------------
// Numbering the crossings
/// The crossings found in row `a` of the table, for the edges before `upto`:
/// each is the pair of edge positions and the crossing point.
pub open spec fn row_hits<C>(hits: Seq<Vec<Option<Vertex<C>>>>, a: int, upto: int) -> Seq<
    (usize, usize, Vertex<C>),
>
    decreases upto,
{
    if upto <= 0 {
        seq![]
    } else {
        let pre = row_hits(hits, a, upto - 1);
        match hits[a]@[upto - 1] {
            Some(v) => pre.push((a as usize, (upto - 1) as usize, v)),
            None => pre,
        }
    }
}

/// The crossings of the first `rows` rows, each row taken against the edges
/// before it, in the order they are numbered.
pub open spec fn hits_upto<C>(hits: Seq<Vec<Option<Vertex<C>>>>, rows: int) -> Seq<
    (usize, usize, Vertex<C>),
>
    decreases rows,
{
    if rows <= 0 {
        seq![]
    } else {
        hits_upto(hits, rows - 1) + row_hits(hits, rows - 1, rows - 1)
    }
}

/// All crossings of the table, in the order they are numbered: edge `a`
/// against every edge `b < a`, `a` and then `b` ascending.
pub open spec fn crossing_list<C>(hits: Seq<Vec<Option<Vertex<C>>>>) -> Seq<
    (usize, usize, Vertex<C>),
> {
    hits_upto(hits, hits.len() as int)
}

/// Whether crossing `x` comes before crossing `y` in numbering order: by
/// the later edge first, then by the earlier one.
pub open spec fn pair_before<C>(x: (usize, usize, Vertex<C>), y: (usize, usize, Vertex<C>)) -> bool {
    x.0 < y.0 || (x.0 == y.0 && x.1 < y.1)
}

/// Whether `list` is exactly the crossings of the table `hits` below its
/// diagonal among the first `rows` rows (columns below `cols` in row
/// `rows`), each once, in numbering order.
pub open spec fn lists_table_crossings<C>(
    hits: Seq<Vec<Option<Vertex<C>>>>,
    list: Seq<(usize, usize, Vertex<C>)>,
    rows: int,
    cols: int,
) -> bool {
    &&& forall|t: int|
        0 <= t < list.len() ==> {
            let x = #[trigger] list[t];
            &&& x.1 < x.0 < hits.len()
            &&& (x.0 < rows || (x.0 == rows && x.1 < cols))
            &&& hits[x.0 as int]@[x.1 as int] == Some(x.2)
        }
    &&& forall|a: int, b: int|
        0 <= b < a < hits.len() && (a < rows || (a == rows && b < cols)) && (#[trigger] hits[a]@[b]) is Some
            ==> exists|t: int| 0 <= t < list.len() && list[t].0 == a && #[trigger] list[t].1 == b
    &&& forall|s: int, t: int| 0 <= s < t < list.len() ==> pair_before(#[trigger] list[s], #[trigger] list[t])
}

proof fn lemma_row_hits_table<C>(hits: Seq<Vec<Option<Vertex<C>>>>, a: int, upto: int, pre: Seq<(usize, usize, Vertex<C>)>)
    requires
        0 <= upto <= a < hits.len(),
        hits.len() <= usize::MAX,
        forall|r: int| 0 <= r < hits.len() ==> (#[trigger] hits[r])@.len() == hits.len(),
        lists_table_crossings(hits, pre, a, 0),
    ensures
        lists_table_crossings(hits, pre + row_hits(hits, a, upto), a, upto),
    decreases upto,
{
    let l = pre + row_hits(hits, a, upto);
    if upto > 0 {
        lemma_row_hits_table(hits, a, upto - 1, pre);
        let l0 = pre + row_hits(hits, a, upto - 1);
        let b = upto - 1;
        match hits[a]@[b] {
            Some(v) => {
                let x = (a as usize, b as usize, v);
                assert(l =~= l0.push(x));
                assert forall|t: int| 0 <= t < l.len() implies {
                    let y = #[trigger] l[t];
                    &&& y.1 < y.0 < hits.len()
                    &&& (y.0 < a || (y.0 == a && y.1 < upto))
                    &&& hits[y.0 as int]@[y.1 as int] == Some(y.2)
                } by {
                    if t < l0.len() {
                        assert(l[t] == l0[t]);
                    }
                }
                assert forall|p: int, q: int|
                    0 <= q < p < hits.len() && (p < a || (p == a && q < upto)) && (#[trigger] hits[p]@[q]) is Some
                        implies exists|t: int| 0 <= t < l.len() && l[t].0 == p && #[trigger] l[t].1 == q by {
                    if p == a && q == b {
                        assert(l[l0.len() as int].0 == p && l[l0.len() as int].1 == q);
                    } else {
                        let t = choose|t: int| 0 <= t < l0.len() && l0[t].0 == p && #[trigger] l0[t].1 == q;
                        assert(l[t] == l0[t]);
                    }
                }
                assert forall|s: int, t: int| 0 <= s < t < l.len() implies pair_before(#[trigger] l[s], #[trigger] l[t]) by {
                    assert(l[s] == l0[s]);
                    if t < l0.len() {
                        assert(l[t] == l0[t]);
                    }
                }
            },
            None => {
                assert(l =~= l0);
                assert forall|p: int, q: int|
                    0 <= q < p < hits.len() && (p < a || (p == a && q < upto)) && (#[trigger] hits[p]@[q]) is Some
                        implies exists|t: int| 0 <= t < l.len() && l[t].0 == p && #[trigger] l[t].1 == q by {
                    let t = choose|t: int| 0 <= t < l0.len() && l0[t].0 == p && #[trigger] l0[t].1 == q;
                    assert(l[t] == l0[t]);
                }
            },
        }
    } else {
        assert(l =~= pre);
    }
}

proof fn lemma_hits_upto_table<C>(hits: Seq<Vec<Option<Vertex<C>>>>, rows: int)
    requires
        0 <= rows <= hits.len(),
        hits.len() <= usize::MAX,
        forall|r: int| 0 <= r < hits.len() ==> (#[trigger] hits[r])@.len() == hits.len(),
    ensures
        lists_table_crossings(hits, hits_upto(hits, rows), rows, 0),
    decreases rows,
{
    if rows > 0 {
        lemma_hits_upto_table(hits, rows - 1);
        let pre = hits_upto(hits, rows - 1);
        lemma_row_hits_table(hits, rows - 1, rows - 1, pre);
        let l = hits_upto(hits, rows);
        assert(l == pre + row_hits(hits, rows - 1, rows - 1));
        assert forall|p: int, q: int|
            0 <= q < p < hits.len() && p < rows && (#[trigger] hits[p]@[q]) is Some
                implies exists|t: int| 0 <= t < l.len() && l[t].0 == p && #[trigger] l[t].1 == q by {
            assert(p < rows - 1 || (p == rows - 1 && q < rows - 1));
        }
    } else {
        assert(hits_upto(hits, 0) =~= Seq::<(usize, usize, Vertex<C>)>::empty());
    }
}

/// The crossings numbered are exactly the entries of the table below its
/// diagonal that hold a point, each once, in order of the later edge and
/// then the earlier one; and the `t`-th of them is listed under both of its
/// edges with the identifier `base + 1 + t`.
pub proof fn lemma_crossing_list<C>(hits: Seq<Vec<Option<Vertex<C>>>>, base: usize)
    requires
        hits.len() <= usize::MAX,
        forall|r: int| 0 <= r < hits.len() ==> (#[trigger] hits[r])@.len() == hits.len(),
        base + crossing_list(hits).len() <= usize::MAX,
    ensures
        forall|t: int|
            0 <= t < crossing_list(hits).len() ==> {
                let x = #[trigger] crossing_list(hits)[t];
                &&& x.1 < x.0 < hits.len()
                &&& hits[x.0 as int]@[x.1 as int] == Some(x.2)
                &&& crossings_touching(crossing_list(hits), x.0, base).contains((base + 1 + t) as usize)
                &&& crossings_touching(crossing_list(hits), x.1, base).contains((base + 1 + t) as usize)
            },
        forall|a: int, b: int|
            0 <= b < a < hits.len() && (#[trigger] hits[a]@[b]) is Some ==> exists|t: int|
                0 <= t < crossing_list(hits).len() && crossing_list(hits)[t].0 == a
                    && #[trigger] crossing_list(hits)[t].1 == b,
        forall|s: int, t: int|
            0 <= s < t < crossing_list(hits).len() ==> pair_before(
                #[trigger] crossing_list(hits)[s],
                #[trigger] crossing_list(hits)[t],
            ),
{
    let l = crossing_list(hits);
    lemma_hits_upto_table(hits, hits.len() as int);
    assert forall|t: int| 0 <= t < l.len() implies {
        let x = #[trigger] l[t];
        &&& crossings_touching(l, x.0, base).contains((base + 1 + t) as usize)
        &&& crossings_touching(l, x.1, base).contains((base + 1 + t) as usize)
    } by {
        lemma_touching_has(l, t, l[t].0, base);
        lemma_touching_has(l, t, l[t].1, base);
    }
    assert forall|a: int, b: int|
        0 <= b < a < hits.len() && (#[trigger] hits[a]@[b]) is Some implies exists|t: int|
            0 <= t < l.len() && l[t].0 == a && #[trigger] l[t].1 == b by {
        assert(a < hits.len() as int || (a == hits.len() && b < 0));
    }
}

proof fn lemma_touching_has<C>(list: Seq<(usize, usize, Vertex<C>)>, t: int, e: usize, base: usize)
    requires
        0 <= t < list.len(),
        list[t].0 == e || list[t].1 == e,
        base + list.len() <= usize::MAX,
    ensures
        crossings_touching(list, e, base).contains((base + 1 + t) as usize),
    decreases list.len(),
{
    let tc = crossings_touching(list, e, base);
    if t == list.len() - 1 {
        assert(tc.last() == (base + list.len()) as usize);
        assert(tc[tc.len() - 1] == (base + 1 + t) as usize);
    } else {
        let d = list.drop_last();
        assert(d[t] == list[t]);
        lemma_touching_has(d, t, e, base);
        let td = crossings_touching(d, e, base);
        let j = choose|j: int| 0 <= j < td.len() && td[j] == (base + 1 + t) as usize;
        if list.last().0 == e || list.last().1 == e {
            assert(tc[j] == td[j]);
        }
    }
}

/// The new vertices: the `t`-th crossing gets the identifier `base + 1 + t`.
pub open spec fn crossing_vertices<C>(list: Seq<(usize, usize, Vertex<C>)>, base: usize) -> Map<
    usize,
    Vertex<C>,
> {
    Map::new(|k: usize| base < k <= base + list.len(), |k: usize| list[k - base - 1].2)
}

/// The identifiers of the crossings that lie on the edge at position `e`.
pub open spec fn crossings_touching<C>(
    list: Seq<(usize, usize, Vertex<C>)>,
    e: usize,
    base: usize,
) -> Seq<usize>
    decreases list.len(),
{
    if list.len() == 0 {
        seq![]
    } else {
        let pre = crossings_touching(list.drop_last(), e, base);
        if list.last().0 == e || list.last().1 == e {
            pre.push((base + list.len()) as usize)
        } else {
            pre
        }
    }
}

/// For every key of `keys`, the crossings on the edge at that position.
pub open spec fn crossing_lists<C>(
    keys: Set<usize>,
    list: Seq<(usize, usize, Vertex<C>)>,
    base: usize,
) -> Map<usize, Seq<usize>> {
    Map::new(|k: usize| keys.contains(k), |k: usize| crossings_touching(list, k, base))
}

/// The `index` values of a list of edges.
pub open spec fn index_set<C>(edges: Seq<Edge<C>>) -> Set<usize> {
    Set::new(|k: usize| exists|i: int| 0 <= i < edges.len() && #[trigger] edges[i].index == k)
}

/// The edges with each `index` set to the edge's position.
pub open spec fn renumbered<C>(edges: Seq<Edge<C>>) -> Seq<Edge<C>> {
    Seq::new(
        edges.len(),
        |i: int|
            Edge {
                p1: edges[i].p1,
                p2: edges[i].p2,
                index: i as usize,
                outward_normal: edges[i].outward_normal,
            },
    )
}

/// Whether `m` is the greatest identifier of `dom`, or 0 when there is none.
pub open spec fn is_key_ceiling(dom: Set<usize>, m: usize) -> bool {
    (forall|k: usize| dom.contains(k) ==> k <= m) && (m == 0 || dom.contains(m))
}

/// The greatest identifier of `dom`, or 0 when there is none.
pub open spec fn key_ceiling(dom: Set<usize>) -> usize {
    choose|m: usize| is_key_ceiling(dom, m)
}

proof fn lemma_key_ceiling_unique(dom: Set<usize>, m: usize)
    requires
        is_key_ceiling(dom, m),
    ensures
        key_ceiling(dom) == m,
{
    let c = key_ceiling(dom);
    assert(is_key_ceiling(dom, c));
    if c != 0 {
        assert(dom.contains(c));
        assert(c <= m);
    }
    if m != 0 {
        assert(dom.contains(m));
        assert(m <= c);
    }
}

/// The greatest vertex identifier, or 0 for no vertices.
pub fn max_vertex_id<C: Copy>(vertices: &HashMap<usize, Vertex<C>>) -> (m: usize)
    ensures
        m == key_ceiling(vertices@.dom()),
{
    let ghost keys = vstd::std_specs::hash::spec_keys_iter(vertices).remaining().map_values(
        |r: &usize| *r,
    );
    let mut max: usize = 0;
    assert(keys =~= vstd::std_specs::hash::spec_keys_iter(vertices).remaining().unref());
    for k in it: vertices.keys()
        invariant
            it.seq().map_values(|r: &usize| *r) == keys,
            keys.to_set() == vertices@.dom(),
            forall|j: int| 0 <= j < it.index() ==> #[trigger] keys[j] <= max,
            max == 0 || exists|j: int| 0 <= j < it.index() && #[trigger] keys[j] == max,
    {
        assert(keys[it.index()] == *k);
        if *k > max {
            max = *k;
        }
    }
    proof {
        assert(keys =~= vstd::std_specs::hash::spec_keys_iter(vertices).remaining().unref());
        assert forall|k: usize| vertices@.dom().contains(k) implies k <= max by {
            assert(keys.to_set().contains(k));
            let j = choose|j: int| 0 <= j < keys.len() && keys[j] == k;
        }
        if max != 0 {
            let j = choose|j: int| 0 <= j < keys.len() && #[trigger] keys[j] == max;
            assert(keys.to_set().contains(keys[j]));
        }
        lemma_key_ceiling_unique(vertices@.dom(), max);
    }
    max
}

proof fn lemma_touching_bounds<C>(list: Seq<(usize, usize, Vertex<C>)>, e: usize, base: usize)
    requires
        base + list.len() <= usize::MAX,
    ensures
        forall|j: int|
            0 <= j < crossings_touching(list, e, base).len() ==> base < #[trigger] crossings_touching(
                list,
                e,
                base,
            )[j] <= base + list.len(),
    decreases list.len(),
{
    if list.len() > 0 {
        let pre = crossings_touching(list.drop_last(), e, base);
        lemma_touching_bounds(list.drop_last(), e, base);
        let t = crossings_touching(list, e, base);
        assert forall|j: int| 0 <= j < t.len() implies base < #[trigger] t[j] <= base + list.len() by {
            if j < pre.len() {
                assert(t[j] == pre[j]);
            }
        }
    }
}

proof fn lemma_touching_push<C>(
    list: Seq<(usize, usize, Vertex<C>)>,
    h: (usize, usize, Vertex<C>),
    e: usize,
    base: usize,
)
    ensures
        crossings_touching(list.push(h), e, base) == if h.0 == e || h.1 == e {
            crossings_touching(list, e, base).push((base + list.len() + 1) as usize)
        } else {
            crossings_touching(list, e, base)
        },
{
    assert(list.push(h).drop_last() =~= list);
}

impl<C: Copy> Polygon<C> {
    /// Numbers the crossings of the polygon's edges. `hits[a][b]`, for
    /// `b < a`, is the point where the edge at position `a` crosses the edge
    /// at position `b`, if they cross. Each crossing becomes a new vertex,
    /// numbered on from the greatest identifier; each edge takes its position
    /// as `index`. Returns, for every former `index` value, the identifiers
    /// of the crossings on the edge at that position.
    pub fn register_crossings(
        &mut self,
        hits: &Vec<Vec<Option<Vertex<C>>>>,
    ) -> (indices: HashMap<usize, Vec<usize>>)
        requires
            hits.len() == old(self).edges.len(),
            forall|a: int| 0 <= a < hits.len() ==> (#[trigger] hits@[a])@.len() == hits.len(),
            key_ceiling(old(self).vertices@.dom()) + crossing_list(hits@).len() <= usize::MAX,
        ensures
            final(self).vertices@ == old(self).vertices@.union_prefer_right(
                crossing_vertices(crossing_list(hits@), key_ceiling(old(self).vertices@.dom())),
            ),
            final(self).edges@ == renumbered(old(self).edges@),
            final(self).offset_margin == old(self).offset_margin,
            final(self).is_degenerate == old(self).is_degenerate,
            lists_view(indices@) == crossing_lists(
                index_set(old(self).edges@),
                crossing_list(hits@),
                key_ceiling(old(self).vertices@.dom()),
            ),
    {
        let ghost edges0 = self.edges@;
        let ghost verts0 = self.vertices@;
        let n = self.edges.len();
        let mut indices: HashMap<usize, Vec<usize>> = HashMap::new();
        let mut edges: Vec<Edge<C>> = Vec::new();
        let mut i: usize = 0;
        while i < n
            invariant
                i <= n,
                n == edges0.len(),
                self.edges@ == edges0,
                edges@ == renumbered(edges0).take(i as int),
                lists_view(indices@) == Map::new(
                    |k: usize| index_set(edges0.take(i as int)).contains(k),
                    |k: usize| Seq::<usize>::empty(),
                ),
            decreases n - i,
        {
            let e = self.edges[i];
            let ghost before = indices@;
            indices.insert(e.index, Vec::new());
            edges.push(Edge { p1: e.p1, p2: e.p2, index: i, outward_normal: e.outward_normal });
            proof {
                assert(edges@ =~= renumbered(edges0).take(i + 1));
                assert forall|k: usize|
                    index_set(edges0.take(i + 1)).contains(k) <==> (index_set(
                        edges0.take(i as int),
                    ).contains(k) || k == e.index) by {
                    if index_set(edges0.take(i + 1)).contains(k) {
                        let j = choose|j: int|
                            0 <= j < i + 1 && #[trigger] edges0.take(i + 1)[j].index == k;
                        if j < i {
                            assert(edges0.take(i as int)[j].index == k);
                        }
                    }
                    if index_set(edges0.take(i as int)).contains(k) {
                        let j = choose|j: int|
                            0 <= j < i && #[trigger] edges0.take(i as int)[j].index == k;
                        assert(edges0.take(i + 1)[j].index == k);
                    }
                    if k == e.index {
                        assert(edges0.take(i + 1)[i as int].index == k);
                    }
                }
                assert forall|k: usize| #[trigger] indices@.contains_key(k) <==> index_set(
                    edges0.take(i + 1),
                ).contains(k) by {
                    assert(lists_view(before).contains_key(k) == before.contains_key(k));
                }
                assert forall|k: usize| #[trigger] indices@.contains_key(k) implies indices@[k]@
                    == Seq::<usize>::empty() by {
                    if k != e.index {
                        assert(lists_view(before)[k] == before[k]@);
                    }
                }
                assert(lists_view(indices@) =~= Map::new(
                    |k: usize| index_set(edges0.take(i + 1)).contains(k),
                    |k: usize| Seq::<usize>::empty(),
                ));
            }
            i = i + 1;
        }
        proof {
            assert(edges0.take(n as int) =~= edges0);
            assert(renumbered(edges0).take(n as int) =~= renumbered(edges0));
        }
        self.edges = edges;
        let base = max_vertex_id(&self.vertices);
        let ghost keys = index_set(edges0);
        let ghost all = crossing_list(hits@);
        let mut vertices = self.vertices.clone();
        let mut max = base;
        proof {
            assert(lists_view(indices@) =~= crossing_lists(keys, hits_upto(hits@, 0), base));
            assert(vertices@ =~= verts0.union_prefer_right(crossing_vertices(hits_upto(hits@, 0), base)));
        }
        proof {
            lemma_rows_len(hits@, 0, n as int);
        }
        let mut a: usize = 0;
        while a < n
            invariant
                a <= n,
                n == hits.len(),
                forall|r: int| 0 <= r < hits.len() ==> (#[trigger] hits@[r])@.len() == hits.len(),
                base == key_ceiling(verts0.dom()),
                base + all.len() <= usize::MAX,
                all == crossing_list(hits@),
                all == hits_upto(hits@, n as int),
                hits_upto(hits@, a as int).len() <= all.len(),
                max == base + hits_upto(hits@, a as int).len(),
                vertices@ == verts0.union_prefer_right(
                    crossing_vertices(hits_upto(hits@, a as int), base),
                ),
                lists_view(indices@) == crossing_lists(keys, hits_upto(hits@, a as int), base),
            decreases n - a,
        {
            let mut b: usize = 0;
            let ghost row_start = hits_upto(hits@, a as int);
            while b < n
                invariant
                    a < n,
                    b <= n,
                    n == hits.len(),
                    forall|r: int|
                        0 <= r < hits.len() ==> (#[trigger] hits@[r])@.len() == hits.len(),
                    base + all.len() <= usize::MAX,
                    all == hits_upto(hits@, n as int),
                    row_start == hits_upto(hits@, a as int),
                    (row_start + row_hits(hits@, a as int, if b < a { b as int } else { a as int })).len() <= all.len(),
                    max == base + (row_start + row_hits(
                        hits@,
                        a as int,
                        if b < a { b as int } else { a as int },
                    )).len(),
                    vertices@ == verts0.union_prefer_right(
                        crossing_vertices(
                            row_start + row_hits(
                                hits@,
                                a as int,
                                if b < a { b as int } else { a as int },
                            ),
                            base,
                        ),
                    ),
                    lists_view(indices@) == crossing_lists(
                        keys,
                        row_start + row_hits(
                            hits@,
                            a as int,
                            if b < a { b as int } else { a as int },
                        ),
                        base,
                    ),
                decreases n - b,
            {
                if a > b {
                    let ghost done = row_start + row_hits(hits@, a as int, b as int);
                    match hits[a][b] {
                        Some(v) => {
                            let ghost h = (a, b, v);
                            proof {
                                assert(row_hits(hits@, a as int, b + 1) == row_hits(hits@, a as int, b as int).push(h));
                                assert(done.push(h) =~= row_start + row_hits(hits@, a as int, b + 1));
                                lemma_row_prefix_len(hits@, a as int, b + 1);
                                assert(row_start + row_hits(hits@, a as int, a as int) =~= hits_upto(hits@, a + 1));
                                lemma_rows_len(hits@, a + 1, n as int);
                            }
                            let id = max + 1;
                            let ghost vbefore = vertices@;
                            vertices.insert(id, v);
                            proof {
                                assert(vertices@ =~= verts0.union_prefer_right(
                                    crossing_vertices(done.push(h), base),
                                ));
                            }
                            let ghost ibefore = indices@;
                            proof {
                                lemma_touching_push(done, h, a, base);
                                lemma_touching_push(done, h, b, base);
                                lemma_touching_bounds(done, a, base);
                                lemma_touching_bounds(done, b, base);
                                assert(!crossings_touching(done, a, base).contains(id)) by {
                                    if crossings_touching(done, a, base).contains(id) {
                                        let j = choose|j: int| 0 <= j < crossings_touching(done, a, base).len() && crossings_touching(done, a, base)[j] == id;
                                    }
                                }
                                assert(!crossings_touching(done, b, base).contains(id)) by {
                                    if crossings_touching(done, b, base).contains(id) {
                                        let j = choose|j: int| 0 <= j < crossings_touching(done, b, base).len() && crossings_touching(done, b, base)[j] == id;
                                    }
                                }
                                assert forall|k: usize| #[trigger] ibefore.contains_key(k) implies ibefore[k]@
                                    == crossings_touching(done, k, base) && keys.contains(k) by {
                                    assert(lists_view(ibefore)[k] == ibefore[k]@);
                                }
                                assert forall|k: usize| keys.contains(k) implies #[trigger] ibefore.contains_key(k) by {
                                    assert(lists_view(ibefore).contains_key(k));
                                }
                            }
                            match indices.remove(&a) {
                                Some(list) => {
                                    let mut list = list;
                                    if !vec_contains(&list, id) {
                                        list.push(id);
                                    }
                                    indices.insert(a, list);
                                },
                                None => {},
                            }
                            let ghost imid = indices@;
                            proof {
                                assert(imid.dom() =~= ibefore.dom());
                                assert forall|k: usize| #[trigger] imid.contains_key(k) implies imid[k]@
                                    == (if k == a { crossings_touching(done.push(h), k, base) } else { ibefore[k]@ }) by {
                                }
                            }
                            match indices.remove(&b) {
                                Some(list) => {
                                    let mut list = list;
                                    if !vec_contains(&list, id) {
                                        list.push(id);
                                    }
                                    indices.insert(b, list);
                                },
                                None => {},
                            }
                            max = id;
                            proof {
                                assert(indices@.dom() =~= ibefore.dom());
                                assert forall|k: usize| #[trigger] indices@.contains_key(k) implies indices@[k]@
                                    == crossings_touching(done.push(h), k, base) by {
                                    if k != a && k != b {
                                        assert(indices@[k] == ibefore[k]);
                                        lemma_touching_push(done, h, k, base);
                                        assert(crossings_touching(done.push(h), k, base) == crossings_touching(done, k, base));
                                    } else if k == a {
                                        assert(indices@[k] == imid[k]);
                                    } else {
                                        assert(imid[b] == ibefore[b]);
                                        assert(ibefore[b]@ == crossings_touching(done, b, base));
                                        assert(crossings_touching(done.push(h), b, base) == crossings_touching(done, b, base).push(id));
                                    }
                                }
                                assert(lists_view(indices@) =~= crossing_lists(keys, done.push(h), base));
                            }
                        },
                        None => {
                            proof {
                                assert(row_hits(hits@, a as int, b + 1) == row_hits(hits@, a as int, b as int));
                            }
                        },
                    }
                }
                b = b + 1;
            }
            proof {
                assert(row_start + row_hits(hits@, a as int, a as int) =~= hits_upto(hits@, a + 1));
                lemma_rows_len(hits@, a + 1, n as int);
            }
            a = a + 1;
        }
        self.vertices = vertices;
        indices
    }
}

proof fn lemma_row_prefix_len<C>(hits: Seq<Vec<Option<Vertex<C>>>>, a: int, upto: int)
    requires
        0 <= upto <= a,
    ensures
        row_hits(hits, a, upto).len() <= row_hits(hits, a, a).len(),
    decreases a - upto,
{
    if upto < a {
        lemma_row_prefix_len(hits, a, upto + 1);
    }
}

proof fn lemma_rows_len<C>(hits: Seq<Vec<Option<Vertex<C>>>>, rows: int, n: int)
    requires
        0 <= rows <= n,
    ensures
        hits_upto(hits, rows).len() <= hits_upto(hits, n).len(),
    decreases n - rows,
{
    if rows < n {
        lemma_rows_len(hits, rows + 1, n);
    }
}

// ---------------------------------------------------------------------------
// Splitting edges at their crossings
/// The edges that replace `e` when it is split at the crossings `s`, taken
/// in order: from the start of `e` through each crossing to its end, each
/// with the normal of `e`. With no crossing, `e` itself.
pub open spec fn pieces<C>(e: Edge<C>, s: Seq<usize>) -> Seq<Edge<C>> {
    if s.len() == 0 {
        seq![e]
    } else {
        Seq::new(
            s.len() + 1,
            |j: int|
                Edge {
                    p1: if j == 0 {
                        e.p1
                    } else {
                        s[j - 1]
                    },
                    p2: if j == s.len() {
                        e.p2
                    } else {
                        s[j]
                    },
                    index: 0,
                    outward_normal: e.outward_normal,
                },
        )
    }
}

/// The crossings on `e`, nearest first, as listed under its `index`.
pub open spec fn edge_crossings<C>(
    e: Edge<C>,
    lists: Map<usize, Seq<usize>>,
    keys: Seq<Option<u64>>,
) -> Seq<usize> {
    if lists.contains_key(e.index) && lists[e.index].len() > 0 {
        crossing_order(lists[e.index], keys)
    } else {
        seq![]
    }
}

/// The first `n` edges, each replaced by its pieces.
pub open spec fn split_upto<C>(
    edges: Seq<Edge<C>>,
    lists: Map<usize, Seq<usize>>,
    keys: Seq<Vec<Option<u64>>>,
    n: int,
) -> Seq<Edge<C>>
    decreases n,
{
    if n <= 0 {
        seq![]
    } else {
        split_upto(edges, lists, keys, n - 1) + pieces(
            edges[n - 1],
            edge_crossings(edges[n - 1], lists, keys[n - 1]@),
        )
    }
}

/// The edges split at their crossings and numbered by position.
pub open spec fn split_at_crossings<C>(
    edges: Seq<Edge<C>>,
    lists: Map<usize, Seq<usize>>,
    keys: Seq<Vec<Option<u64>>>,
) -> Seq<Edge<C>> {
    renumbered(split_upto(edges, lists, keys, edges.len() as int))
}

/// The pieces of an edge form a chain from its start to its end, and each
/// keeps the edge's normal.
pub proof fn lemma_pieces_chain<C>(e: Edge<C>, s: Seq<usize>)
    ensures
        pieces(e, s).len() == s.len() + 1,
        pieces(e, s)[0].p1 == e.p1,
        pieces(e, s).last().p2 == e.p2,
        forall|j: int|
            0 <= j < pieces(e, s).len() - 1 ==> (#[trigger] pieces(e, s)[j]).p2 == pieces(
                e,
                s,
            )[j + 1].p1,
        forall|j: int|
            0 <= j < pieces(e, s).len() ==> (#[trigger] pieces(e, s)[j]).outward_normal
                == e.outward_normal,
{
}

/// Sets each edge's `index` to its position.
pub fn renumber<C: Copy>(edges: &Vec<Edge<C>>) -> (out: Vec<Edge<C>>)
    ensures
        out@ == renumbered(edges@),
{
    let mut out: Vec<Edge<C>> = Vec::new();
    let mut i: usize = 0;
    while i < edges.len()
        invariant
            i <= edges.len(),
            out@ == renumbered(edges@).take(i as int),
        decreases edges.len() - i,
    {
        let e = edges[i];
        out.push(Edge { p1: e.p1, p2: e.p2, index: i, outward_normal: e.outward_normal });
        assert(out@ =~= renumbered(edges@).take(i + 1));
        i = i + 1;
    }
    assert(renumbered(edges@).take(edges.len() as int) =~= renumbered(edges@));
    out
}

/// Replaces each edge by its pieces: the edge at position `k` is split at
/// the crossings listed in `indices` under its `index`, ordered by the keys
/// `keys[k]`, nearest first. The edges are then numbered by position.
pub fn split_edges<C: Copy>(
    edges: &Vec<Edge<C>>,
    indices: &HashMap<usize, Vec<usize>>,
    keys: &Vec<Vec<Option<u64>>>,
) -> (split: Vec<Edge<C>>)
    requires
        keys.len() == edges.len(),
        forall|k: int|
            0 <= k < edges.len() && #[trigger] indices@.contains_key(edges@[k].index) ==> keys@[k]@.len()
                == indices@[edges@[k].index]@.len(),
    ensures
        split@ == split_at_crossings(edges@, lists_view(indices@), keys@),
{
    let ghost lists = lists_view(indices@);
    let mut out: Vec<Edge<C>> = Vec::new();
    let mut k: usize = 0;
    while k < edges.len()
        invariant
            k <= edges.len(),
            keys.len() == edges.len(),
            lists == lists_view(indices@),
            forall|k: int|
                0 <= k < edges.len() && #[trigger] indices@.contains_key(edges@[k].index)
                    ==> keys@[k]@.len() == indices@[edges@[k].index]@.len(),
            out@ == split_upto(edges@, lists, keys@, k as int),
        decreases edges.len() - k,
    {
        let edge = edges[k];
        let ghost before = out@;
        let ghost cross_order = edge_crossings(edge, lists, keys@[k as int]@);
        let sorted: Vec<usize> = match indices.get(&edge.index) {
            Some(cross) => {
                if cross.len() > 0 {
                    order_crossings(cross, &keys[k])
                } else {
                    Vec::new()
                }
            },
            None => Vec::new(),
        };
        assert(sorted@ == cross_order);
        if sorted.len() > 0 {
            let last = sorted.len() - 1;
            out.push(Edge { p1: edge.p1, p2: sorted[0], index: 0, outward_normal: edge.outward_normal });
            let mut i: usize = 0;
            while i < last
                invariant
                    i <= last,
                    last == sorted.len() - 1,
                    sorted@ == cross_order,
                    cross_order.len() > 0,
                    out@ == before + pieces(edge, cross_order).take(i + 1),
                decreases last - i,
            {
                out.push(
                    Edge {
                        p1: sorted[i],
                        p2: sorted[i + 1],
                        index: 0,
                        outward_normal: edge.outward_normal,
                    },
                );
                assert(out@ =~= before + pieces(edge, cross_order).take(i + 2));
                i = i + 1;
            }
            out.push(
                Edge { p1: sorted[last], p2: edge.p2, index: 0, outward_normal: edge.outward_normal },
            );
            assert(pieces(edge, cross_order).take(last + 2) =~= pieces(edge, cross_order));
            assert(out@ =~= before + pieces(edge, cross_order));
        } else {
            out.push(edge);
            assert(out@ =~= before + pieces(edge, cross_order));
        }
        k = k + 1;
    }
    renumber(&out)
}

/// A finite set of identifiers has a greatest one, or none at all.
pub proof fn lemma_key_ceiling_exists(dom: Set<usize>)
    requires
        dom.finite(),
    ensures
        is_key_ceiling(dom, key_ceiling(dom)),
    decreases dom.len(),
{
    if dom.len() == 0 {
        assert(dom =~= Set::<usize>::empty());
        assert(is_key_ceiling(dom, 0));
    } else {
        let x = dom.choose();
        let rest = dom.remove(x);
        lemma_key_ceiling_exists(rest);
        let m = key_ceiling(rest);
        let c = if x > m { x } else { m };
        assert(is_key_ceiling(dom, c));
    }
}

/// Numbering the crossings keeps every former vertex as it was, and adds
/// exactly one vertex per crossing, with identifiers above all former ones.
pub proof fn lemma_crossings_fresh<C>(verts: Map<usize, Vertex<C>>, hits: Seq<Vec<Option<Vertex<C>>>>)
    requires
        verts.dom().finite(),
    ensures
        ({
            let base = key_ceiling(verts.dom());
            let list = crossing_list(hits);
            let after = verts.union_prefer_right(crossing_vertices(list, base));
            &&& verts.submap_of(after)
            &&& after.dom() == verts.dom().union(Set::new(|k: usize| base < k <= base + list.len()))
            &&& forall|k: usize| #[trigger] verts.contains_key(k) ==> k <= base
        }),
{
    lemma_key_ceiling_exists(verts.dom());
    let base = key_ceiling(verts.dom());
    let list = crossing_list(hits);
    let after = verts.union_prefer_right(crossing_vertices(list, base));
    assert forall|k: usize| #[trigger] verts.contains_key(k) implies after.contains_key(k) && after[k] == verts[k] by {
        assert(k <= base);
        assert(!crossing_vertices(list, base).contains_key(k));
    }
    assert(after.dom() =~= verts.dom().union(Set::new(|k: usize| base < k <= base + list.len())));
}

/// Splitting numbers the edges by position, so every edge `index` names an
/// edge of the split polygon.
pub proof fn lemma_split_indexed<C>(
    poly: PolygonView<C>,
    edges: Seq<Edge<C>>,
    lists: Map<usize, Seq<usize>>,
    keys: Seq<Vec<Option<u64>>>,
)
    requires
        poly.edges == split_at_crossings(edges, lists, keys),
        poly.edges.len() <= usize::MAX,
    ensures
        forall|i: int| 0 <= i < poly.edges.len() ==> (#[trigger] poly.edges[i]).index == i,
        crate::regions::edge_indices_in_range(poly),
{
}

proof fn lemma_keyed_from_cross(cross: Seq<usize>, keys: Seq<Option<u64>>)
    ensures
        forall|j: int|
            0 <= j < keyed_crossings(cross, keys).len() ==> cross.contains(
                #[trigger] keyed_crossings(cross, keys)[j].1,
            ),
    decreases cross.len(),
{
    if cross.len() > 0 {
        let pre = keyed_crossings(cross.drop_last(), keys.drop_last());
        lemma_keyed_from_cross(cross.drop_last(), keys.drop_last());
        let kc = keyed_crossings(cross, keys);
        assert forall|j: int| 0 <= j < kc.len() implies cross.contains(#[trigger] kc[j].1) by {
            if j < pre.len() {
                assert(kc[j] == pre[j]);
                let m = choose|m: int| 0 <= m < cross.drop_last().len() && cross.drop_last()[m] == pre[j].1;
                assert(cross[m] == pre[j].1);
            } else {
                assert(cross[cross.len() - 1] == kc[j].1);
            }
        }
    }
}

/// The ordered crossings of an edge are crossings it listed, those that
/// have a key, each once per listing: ordering only rearranges them.
pub proof fn lemma_crossing_order(cross: Seq<usize>, keys: Seq<Option<u64>>)
    ensures
        crossing_order(cross, keys).len() == keyed_crossings(cross, keys).len(),
        forall|j: int|
            0 <= j < crossing_order(cross, keys).len() ==> cross.contains(
                #[trigger] crossing_order(cross, keys)[j],
            ),
        crate::sorting::keys_ascending(stable_sort(keyed_crossings(cross, keys))),
        stable_sort(keyed_crossings(cross, keys)).to_multiset() == keyed_crossings(
            cross,
            keys,
        ).to_multiset(),
{
    broadcast use vstd::seq_lib::group_to_multiset_ensures;

    let kc = keyed_crossings(cross, keys);
    let sorted = stable_sort(kc);
    crate::sorting::lemma_stable_sort(kc);
    lemma_keyed_from_cross(cross, keys);
    assert(sorted.to_multiset().len() == kc.to_multiset().len());
    assert forall|j: int| 0 <= j < crossing_order(cross, keys).len() implies cross.contains(
        #[trigger] crossing_order(cross, keys)[j],
    ) by {
        assert(sorted.contains(sorted[j]));
        assert(sorted.to_multiset().count(sorted[j]) > 0);
        assert(kc.to_multiset().count(sorted[j]) > 0);
        let m = choose|m: int| 0 <= m < kc.len() && kc[m] == sorted[j];
        assert(cross.contains(kc[m].1));
    }
}

/// The number of positions that have a key.
pub open spec fn count_keyed(keys: Seq<Option<u64>>) -> nat
    decreases keys.len(),
{
    if keys.len() == 0 {
        0
    } else {
        count_keyed(keys.drop_last()) + if keys.last() is Some {
            1nat
        } else {
            0nat
        }
    }
}

proof fn lemma_keyed_positions(cross: Seq<usize>, keys: Seq<Option<u64>>)
    requires
        keys.len() == cross.len(),
    ensures
        keyed_crossings(cross, keys).len() == count_keyed(keys),
        forall|t: int|
            0 <= t < keyed_crossings(cross, keys).len() ==> exists|p: int|
                0 <= p < cross.len() && cross[p] == (#[trigger] keyed_crossings(cross, keys)[t]).1
                    && keys[p] == Some(keyed_crossings(cross, keys)[t].0),
        forall|p: int|
            0 <= p < cross.len() && (#[trigger] keys[p]) is Some ==> keyed_crossings(
                cross,
                keys,
            ).contains((keys[p].unwrap(), cross[p])),
    decreases cross.len(),
{
    if cross.len() > 0 {
        let dc = cross.drop_last();
        let dk = keys.drop_last();
        lemma_keyed_positions(dc, dk);
        let pre = keyed_crossings(dc, dk);
        let kc = keyed_crossings(cross, keys);
        assert forall|t: int| 0 <= t < kc.len() implies exists|p: int|
            0 <= p < cross.len() && cross[p] == (#[trigger] kc[t]).1 && keys[p] == Some(kc[t].0) by {
            if t < pre.len() {
                assert(kc[t] == pre[t]);
                let p = choose|p: int|
                    0 <= p < dc.len() && dc[p] == pre[t].1 && dk[p] == Some(pre[t].0);
                assert(cross[p] == dc[p] && keys[p] == dk[p]);
            } else {
                let p = cross.len() - 1;
                assert(cross[p] == kc[t].1 && keys[p] == Some(kc[t].0));
            }
        }
        assert forall|p: int| 0 <= p < cross.len() && (#[trigger] keys[p]) is Some implies kc.contains(
            (keys[p].unwrap(), cross[p]),
        ) by {
            if p < cross.len() - 1 {
                assert(dk[p] == keys[p] && dc[p] == cross[p]);
                let t = choose|t: int| 0 <= t < pre.len() && pre[t] == (dk[p].unwrap(), dc[p]);
                assert(kc[t] == pre[t]);
            } else {
                assert(kc[kc.len() - 1] == (keys[p].unwrap(), cross[p]));
            }
        }
    }
}

/// Whether crossing `x` is listed with the key `k`.
pub open spec fn listed_with_key(cross: Seq<usize>, keys: Seq<Option<u64>>, x: usize, k: u64) -> bool {
    exists|p: int| 0 <= p < cross.len() && #[trigger] cross[p] == x && keys[p] == Some(k)
}

/// The crossings listed with key `k`, in the order they are listed.
pub open spec fn listed_by_key(cross: Seq<usize>, keys: Seq<Option<u64>>, k: u64) -> Seq<usize>
    decreases cross.len(),
{
    if cross.len() == 0 || keys.len() == 0 {
        seq![]
    } else {
        let pre = listed_by_key(cross.drop_last(), keys.drop_last(), k);
        if keys.last() == Some(k) {
            pre.push(cross.last())
        } else {
            pre
        }
    }
}

/// The members of `o` listed with key `k`, in their order in `o`.
pub open spec fn select_by_key(o: Seq<usize>, cross: Seq<usize>, keys: Seq<Option<u64>>, k: u64) -> Seq<usize>
    decreases o.len(),
{
    if o.len() == 0 {
        seq![]
    } else {
        let pre = select_by_key(o.drop_last(), cross, keys, k);
        if listed_with_key(cross, keys, o.last(), k) {
            pre.push(o.last())
        } else {
            pre
        }
    }
}

proof fn lemma_select_pairs(s: Seq<(u64, usize)>, cross: Seq<usize>, keys: Seq<Option<u64>>, k: u64)
    requires
        cross.no_duplicates(),
        forall|i: int| 0 <= i < s.len() ==> listed_with_key(cross, keys, (#[trigger] s[i]).1, s[i].0),
    ensures
        select_by_key(s.map_values(|p: (u64, usize)| p.1), cross, keys, k)
            == crate::sorting::with_key(s, k).map_values(|p: (u64, usize)| p.1),
    decreases s.len(),
{
    if s.len() > 0 {
        let d = s.drop_last();
        assert forall|i: int| 0 <= i < d.len() implies listed_with_key(cross, keys, (#[trigger] d[i]).1, d[i].0) by {
            assert(d[i] == s[i]);
        }
        lemma_select_pairs(d, cross, keys, k);
        let o = s.map_values(|p: (u64, usize)| p.1);
        assert(o.drop_last() =~= d.map_values(|p: (u64, usize)| p.1));
        let x = s[s.len() - 1];
        assert(listed_with_key(cross, keys, x.1, x.0));
        assert(o.last() == x.1);
        if listed_with_key(cross, keys, x.1, k) {
            let p = choose|p: int| 0 <= p < cross.len() && #[trigger] cross[p] == x.1 && keys[p] == Some(k);
            let q = choose|q: int| 0 <= q < cross.len() && #[trigger] cross[q] == x.1 && keys[q] == Some(x.0);
            assert(p == q);
        }
        let wd = crate::sorting::with_key(d, k);
        assert(wd.push(x).map_values(|p: (u64, usize)| p.1) =~= wd.map_values(|p: (u64, usize)| p.1).push(x.1));
    }
}

proof fn lemma_listed_by_key(cross: Seq<usize>, keys: Seq<Option<u64>>, k: u64)
    requires
        keys.len() == cross.len(),
    ensures
        crate::sorting::with_key(keyed_crossings(cross, keys), k).map_values(|p: (u64, usize)| p.1)
            == listed_by_key(cross, keys, k),
    decreases cross.len(),
{
    if cross.len() > 0 {
        lemma_listed_by_key(cross.drop_last(), keys.drop_last(), k);
        let pre = keyed_crossings(cross.drop_last(), keys.drop_last());
        let wp = crate::sorting::with_key(pre, k);
        match keys.last() {
            Some(kk) => {
                let x = (kk, cross.last());
                assert(pre.push(x).drop_last() =~= pre);
                assert(wp.push(x).map_values(|p: (u64, usize)| p.1) =~= wp.map_values(|p: (u64, usize)| p.1).push(cross.last()));
            },
            None => {},
        }
    }
}

/// The crossings of an edge come out nearest first. With the crossings
/// listed once each and one key per crossing: every crossing that has a key
/// comes out, no other, as many as there are keys; along the result the
/// keys never decrease; and the crossings that share a key come out in the
/// order they were listed.
pub proof fn lemma_crossings_nearest_first(cross: Seq<usize>, keys: Seq<Option<u64>>)
    requires
        cross.no_duplicates(),
        keys.len() == cross.len(),
    ensures
        crossing_order(cross, keys).len() == count_keyed(keys),
        forall|i: int|
            0 <= i < crossing_order(cross, keys).len() ==> exists|p: int|
                0 <= p < cross.len() && cross[p] == #[trigger] crossing_order(cross, keys)[i]
                    && keys[p] is Some,
        forall|p: int|
            0 <= p < cross.len() && (#[trigger] keys[p]) is Some ==> crossing_order(
                cross,
                keys,
            ).contains(cross[p]),
        forall|i: int, j: int, p: int, q: int|
            0 <= i < j < crossing_order(cross, keys).len() && 0 <= p < cross.len() && 0 <= q
                < cross.len() && cross[p] == #[trigger] crossing_order(cross, keys)[i] && cross[q]
                == #[trigger] crossing_order(cross, keys)[j] && keys[p] is Some && keys[q] is Some
                ==> #[trigger] keys[p].unwrap() <= #[trigger] keys[q].unwrap(),
        forall|k: u64| #[trigger] select_by_key(crossing_order(cross, keys), cross, keys, k)
            == listed_by_key(cross, keys, k),
{
    broadcast use vstd::seq_lib::group_to_multiset_ensures;

    let kc = keyed_crossings(cross, keys);
    let sorted = stable_sort(kc);
    let o = crossing_order(cross, keys);
    crate::sorting::lemma_stable_sort(kc);
    lemma_keyed_positions(cross, keys);
    assert(sorted.to_multiset().len() == kc.to_multiset().len());
    // each output position carries the key of its crossing
    assert forall|i: int| 0 <= i < sorted.len() implies exists|p: int|
        0 <= p < cross.len() && cross[p] == (#[trigger] sorted[i]).1 && keys[p] == Some(sorted[i].0) by {
        assert(sorted.contains(sorted[i]));
        assert(sorted.to_multiset().count(sorted[i]) > 0);
        assert(kc.to_multiset().count(sorted[i]) > 0);
        let t = choose|t: int| 0 <= t < kc.len() && kc[t] == sorted[i];
        assert(kc[t] == kc[t]);
    }
    assert forall|i: int| 0 <= i < o.len() implies exists|p: int|
        0 <= p < cross.len() && cross[p] == #[trigger] o[i] && keys[p] is Some by {
        assert(o[i] == sorted[i].1);
        assert(sorted[i] == sorted[i]);
    }
    assert forall|p: int| 0 <= p < cross.len() && (#[trigger] keys[p]) is Some implies o.contains(
        cross[p],
    ) by {
        let x = (keys[p].unwrap(), cross[p]);
        assert(kc.contains(x));
        assert(kc.to_multiset().count(x) > 0);
        assert(sorted.to_multiset().count(x) > 0);
        let i = choose|i: int| 0 <= i < sorted.len() && sorted[i] == x;
        assert(o[i] == cross[p]);
    }
    assert forall|i: int, j: int, p: int, q: int|
        0 <= i < j < o.len() && 0 <= p < cross.len() && 0 <= q < cross.len() && cross[p]
            == #[trigger] o[i] && cross[q] == #[trigger] o[j] && keys[p] is Some && keys[q] is Some implies #[trigger] keys[p].unwrap()
        <= #[trigger] keys[q].unwrap() by {
        assert(sorted[i] == sorted[i] && sorted[j] == sorted[j]);
        let pi = choose|pi: int|
            0 <= pi < cross.len() && cross[pi] == sorted[i].1 && keys[pi] == Some(sorted[i].0);
        let qj = choose|qj: int|
            0 <= qj < cross.len() && cross[qj] == sorted[j].1 && keys[qj] == Some(sorted[j].0);
        assert(o[i] == sorted[i].1 && o[j] == sorted[j].1);
        assert(pi == p);
        assert(qj == q);
        assert(sorted[i].0 <= sorted[j].0);
    }
    assert forall|k: u64| #[trigger] select_by_key(o, cross, keys, k) == listed_by_key(cross, keys, k) by {
        assert forall|i: int| 0 <= i < sorted.len() implies listed_with_key(cross, keys, (#[trigger] sorted[i]).1, sorted[i].0) by {
            let p = choose|p: int|
                0 <= p < cross.len() && cross[p] == sorted[i].1 && keys[p] == Some(sorted[i].0);
            assert(cross[p] == sorted[i].1);
        }
        lemma_select_pairs(sorted, cross, keys, k);
        lemma_listed_by_key(cross, keys, k);
        assert(crate::sorting::with_key(sorted, k) == crate::sorting::with_key(kc, k));
    }
}

/// Whether every edge starts and ends at a vertex of `dom`.
pub open spec fn ends_within<C>(edges: Seq<Edge<C>>, dom: Set<usize>) -> bool {
    forall|i: int| 0 <= i < edges.len() ==> dom.contains((#[trigger] edges[i]).p1) && dom.contains(edges[i].p2)
}

proof fn lemma_split_upto_within<C>(
    edges: Seq<Edge<C>>,
    lists: Map<usize, Seq<usize>>,
    keys: Seq<Vec<Option<u64>>>,
    n: int,
    dom: Set<usize>,
)
    requires
        0 <= n <= edges.len(),
        ends_within(edges, dom),
        forall|k: usize, j: int|
            lists.contains_key(k) && 0 <= j < lists[k].len() ==> dom.contains(#[trigger] lists[k][j]),
    ensures
        ends_within(split_upto(edges, lists, keys, n), dom),
    decreases n,
{
    if n > 0 {
        lemma_split_upto_within(edges, lists, keys, n - 1, dom);
        let e = edges[n - 1];
        let s = edge_crossings(e, lists, keys[n - 1]@);
        if lists.contains_key(e.index) && lists[e.index].len() > 0 {
            lemma_crossing_order(lists[e.index], keys[n - 1]@);
        }
        assert forall|j: int| 0 <= j < s.len() implies dom.contains(#[trigger] s[j]) by {
            let c = lists[e.index];
            let m = choose|m: int| 0 <= m < c.len() && c[m] == s[j];
            assert(dom.contains(c[m]));
        }
        let pre = split_upto(edges, lists, keys, n - 1);
        let pc = pieces(e, s);
        let all = split_upto(edges, lists, keys, n);
        assert(all == pre + pc);
        assert forall|i: int| 0 <= i < all.len() implies dom.contains(#[trigger] all[i].p1) && dom.contains(all[i].p2) by {
            if i >= pre.len() {
                assert(all[i] == pc[i - pre.len()]);
            } else {
                assert(all[i] == pre[i]);
            }
        }
    }
}

/// Numbering the crossings and splitting the edges at them never makes an
/// edge that starts or ends outside the vertices: every piece runs between
/// former vertices and the new crossing vertices.
pub proof fn lemma_split_ends_known<C>(
    verts: Map<usize, Vertex<C>>,
    edges: Seq<Edge<C>>,
    hits: Seq<Vec<Option<Vertex<C>>>>,
    keys: Seq<Vec<Option<u64>>>,
)
    requires
        verts.dom().finite(),
        ends_within(edges, verts.dom()),
        key_ceiling(verts.dom()) + crossing_list(hits).len() <= usize::MAX,
    ensures
        ({
            let base = key_ceiling(verts.dom());
            let list = crossing_list(hits);
            let after = verts.union_prefer_right(crossing_vertices(list, base));
            let lists = crossing_lists(index_set(edges), list, base);
            ends_within(split_at_crossings(renumbered(edges), lists, keys), after.dom())
        }),
{
    let base = key_ceiling(verts.dom());
    let list = crossing_list(hits);
    let after = verts.union_prefer_right(crossing_vertices(list, base));
    let lists = crossing_lists(index_set(edges), list, base);
    lemma_crossings_fresh(verts, hits);
    let re = renumbered(edges);
    assert(ends_within(re, after.dom())) by {
        assert forall|i: int| 0 <= i < re.len() implies after.dom().contains(#[trigger] re[i].p1) && after.dom().contains(re[i].p2) by {
            assert(verts.dom().contains(edges[i].p1) && verts.dom().contains(edges[i].p2));
        }
    }
    assert forall|k: usize, j: int| lists.contains_key(k) && 0 <= j < lists[k].len() implies after.dom().contains(#[trigger] lists[k][j]) by {
        lemma_touching_bounds(list, k, base);
    }
    lemma_split_upto_within(re, lists, keys, re.len() as int, after.dom());
    let sp = split_upto(re, lists, keys, re.len() as int);
    assert forall|i: int| 0 <= i < renumbered(sp).len() implies after.dom().contains(#[trigger] renumbered(sp)[i].p1) && after.dom().contains(renumbered(sp)[i].p2) by {
        assert(after.dom().contains(sp[i].p1));
    }
}

} // verus!
