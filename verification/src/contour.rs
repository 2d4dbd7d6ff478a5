use std::collections::HashMap;
use vstd::prelude::*;

use crate::types::{Edge, Polygon, PolygonView, Segment, Vertex};

verus! {

broadcast use vstd::std_specs::hash::group_hash_axioms;

/// The segments of a contour: one from each point to the next, and the last
/// from the last point back to the first (of zero length when the contour is
/// closed).
pub open spec fn contour_segments<P>(contour: Seq<P>) -> Seq<Segment<P>> {
    Seq::new(
        contour.len(),
        |i: int|
            Segment {
                p1: contour[i],
                p2: if i + 1 < contour.len() {
                    contour[i + 1]
                } else {
                    contour[0]
                },
            },
    )
}

/// Segments in the opposite order, each running the other way.
pub open spec fn reversed_segments<P>(s: Seq<Segment<P>>) -> Seq<Segment<P>> {
    Seq::new(s.len(), |i: int| Segment { p1: s[s.len() - 1 - i].p2, p2: s[s.len() - 1 - i].p1 })
}

/// The start points of the segments, closed by the first start point again.
pub open spec fn closed_starts<P>(s: Seq<Segment<P>>) -> Seq<P> {
    s.map_values(|g: Segment<P>| g.p1).push(s[0].p1)
}

/// The vertices of a closed contour: the points before the closing one,
/// keyed by position, none of them a crossing.
pub open spec fn contour_vertices<C>(contour: Seq<(C, C)>) -> Map<usize, Vertex<C>> {
    Map::new(
        |k: usize| k + 1 < contour.len(),
        |k: usize| Vertex { x: contour[k as int].0, y: contour[k as int].1, is_intersect: false },
    )
}

/// The edges of a ring of `n` vertices numbered from 0: vertex `i` to vertex
/// `i + 1`, the last back to 0, each with its normal. A single vertex makes
/// no edge, since its edge would loop onto itself.
pub open spec fn ring_edges<C>(n: nat, normals: Seq<Vertex<C>>) -> Seq<Edge<C>> {
    if n == 1 {
        seq![]
    } else {
        Seq::new(
            n,
            |i: int|
                Edge {
                    p1: i as usize,
                    p2: ((i + 1) % (n as int)) as usize,
                    index: i as usize,
                    outward_normal: normals[i],
                },
        )
    }
}

/// The point lists of a sequence of corners, one after the other.
pub open spec fn concat<T>(parts: Seq<Seq<T>>) -> Seq<T>
    decreases parts.len(),
{
    if parts.len() == 0 {
        seq![]
    } else {
        concat(parts.drop_last()) + parts.last()
    }
}

/// The views of a list of vertex lists.
pub open spec fn corner_views<C>(corners: Seq<Vec<Vertex<C>>>) -> Seq<Seq<Vertex<C>>> {
    corners.map_values(|c: Vec<Vertex<C>>| c@)
}

/// Splits a contour into segments: each point to the next, and the last
/// point back to the first.
pub fn tuples_to_segments<P: Copy>(contour: &Vec<P>) -> (segments: Vec<Segment<P>>)
    ensures
        segments@ == contour_segments(contour@),
{
    let mut segments: Vec<Segment<P>> = Vec::new();
    if contour.len() == 0 {
        assert(segments@ =~= contour_segments(contour@));
        return segments;
    }
    let mut i: usize = 1;
    while i < contour.len()
        invariant
            1 <= i <= contour.len(),
            segments@ == contour_segments(contour@).take(i - 1),
        decreases contour.len() - i,
    {
        segments.push(Segment { p1: contour[i - 1], p2: contour[i] });
        assert(segments@ =~= contour_segments(contour@).take(i as int));
        i = i + 1;
    }
    // the closing segment, from the last point back to the first
    segments.push(Segment { p1: contour[contour.len() - 1], p2: contour[0] });
    assert(segments@ =~= contour_segments(contour@));
    segments
}

/// Reverses a chain of segments: the order of the segments and the
/// direction of each.
pub fn reverse_segments<P: Copy>(sgmts: &Vec<Segment<P>>) -> (segments: Vec<Segment<P>>)
    ensures
        segments@ == reversed_segments(sgmts@),
{
    let mut segments: Vec<Segment<P>> = Vec::new();
    let mut i: usize = sgmts.len();
    while i > 0
        invariant
            i <= sgmts.len(),
            segments@ == reversed_segments(sgmts@).take(sgmts.len() - i),
        decreases i,
    {
        i = i - 1;
        let s = sgmts[i];
        segments.push(Segment { p1: s.p2, p2: s.p1 });
        assert(segments@ =~= reversed_segments(sgmts@).take(sgmts.len() - i));
    }
    assert(reversed_segments(sgmts@).take(sgmts.len() as int) =~= reversed_segments(sgmts@));
    segments
}

/// Reversing a chain twice gives it back.
pub proof fn lemma_reverse_twice<P>(s: Seq<Segment<P>>)
    ensures
        reversed_segments(reversed_segments(s)) == s,
{
    assert(reversed_segments(reversed_segments(s)) =~= s);
}

/// Whether each segment starts where the previous one ends.
pub open spec fn is_segment_chain<P>(s: Seq<Segment<P>>) -> bool {
    forall|i: int| 0 <= i < s.len() - 1 ==> (#[trigger] s[i]).p2 == s[i + 1].p1
}

/// Whether `g` is one of the segments of `s` run the other way.
pub open spec fn flips_some<P>(s: Seq<Segment<P>>, g: Segment<P>) -> bool {
    exists|j: int| 0 <= j < s.len() && g.p1 == #[trigger] s[j].p2 && g.p2 == s[j].p1
}

/// Reversing a chain gives a chain with as many segments, each an original
/// segment run the other way; it starts where the original ends and ends
/// where the original starts, so a closed chain stays closed.
pub proof fn lemma_reverse_chain<P>(s: Seq<Segment<P>>)
    ensures
        reversed_segments(s).len() == s.len(),
        forall|i: int|
            0 <= i < s.len() ==> #[trigger] flips_some(s, reversed_segments(s)[i]),
        is_segment_chain(s) ==> is_segment_chain(reversed_segments(s)),
        s.len() > 0 ==> reversed_segments(s)[0].p1 == s[s.len() - 1].p2
            && reversed_segments(s)[s.len() - 1].p2 == s[0].p1,
{
    let r = reversed_segments(s);
    assert forall|i: int| 0 <= i < s.len() implies #[trigger] flips_some(s, r[i]) by {
        let j = s.len() - 1 - i;
        assert(0 <= j < s.len() && r[i].p1 == s[j].p2 && r[i].p2 == s[j].p1);
    }
    if is_segment_chain(s) {
        assert forall|i: int| 0 <= i < r.len() - 1 implies (#[trigger] r[i]).p2 == r[i + 1].p1 by {
            let j = s.len() - 2 - i;
            assert(s[j].p2 == s[j + 1].p1);
        }
    }
}

/// The start points of a chain of segments, closed by the first one again.
pub fn closed_start_points<P: Copy>(segments: &Vec<Segment<P>>) -> (points: Vec<P>)
    requires
        segments.len() > 0,
    ensures
        points@ == closed_starts(segments@),
{
    let mut points: Vec<P> = Vec::new();
    let mut i: usize = 0;
    while i < segments.len()
        invariant
            i <= segments.len(),
            points@ == segments@.map_values(|g: Segment<P>| g.p1).take(i as int),
        decreases segments.len() - i,
    {
        points.push(segments[i].p1);
        assert(points@ =~= segments@.map_values(|g: Segment<P>| g.p1).take(i + 1));
        i = i + 1;
    }
    assert(segments@.map_values(|g: Segment<P>| g.p1).take(segments.len() as int)
        =~= segments@.map_values(|g: Segment<P>| g.p1));
    points.push(points[0]);
    points
}

/// Converts a closed contour into vertices keyed by position; the closing
/// point, equal to the first, is left out.
pub fn contour_to_vertices<C: Copy>(contour: Vec<(C, C)>) -> (vtxs: HashMap<usize, Vertex<C>>)
    requires
        contour.len() >= 1,
    ensures
        vtxs@ == contour_vertices(contour@),
{
    let mut vtxs: HashMap<usize, Vertex<C>> = HashMap::new();
    let mut i: usize = 0;
    while i < contour.len() - 1
        invariant
            contour.len() >= 1,
            i <= contour.len() - 1,
            vtxs@ == contour_vertices(contour@).restrict(Set::new(|k: usize| k < i)),
        decreases contour.len() - 1 - i,
    {
        let vertex = Vertex { x: contour[i].0, y: contour[i].1, is_intersect: false };
        vtxs.insert(i, vertex);
        assert(vtxs@ =~= contour_vertices(contour@).restrict(Set::new(|k: usize| k < i + 1)));
        i = i + 1;
    }
    assert(vtxs@ =~= contour_vertices(contour@));
    vtxs
}

/// Numbers the points of the corners one after the other from 0.
pub fn number_vertices<C: Copy>(corners: &Vec<Vec<Vertex<C>>>) -> (vertices: HashMap<
    usize,
    Vertex<C>,
>)
    requires
        concat(corner_views(corners@)).len() <= usize::MAX,
    ensures
        vertices@ == Map::new(
            |k: usize| k < concat(corner_views(corners@)).len(),
            |k: usize| concat(corner_views(corners@))[k as int],
        ),
{
    let ghost all = concat(corner_views(corners@));
    let mut vertices: HashMap<usize, Vertex<C>> = HashMap::new();
    let mut index: usize = 0;
    let mut c: usize = 0;
    while c < corners.len()
        invariant
            c <= corners.len(),
            all == concat(corner_views(corners@)),
            all.len() <= usize::MAX,
            index == concat(corner_views(corners@).take(c as int)).len(),
            concat(corner_views(corners@).take(c as int)).len() <= all.len(),
            vertices@ == Map::new(
                |k: usize| k < index,
                |k: usize| concat(corner_views(corners@).take(c as int))[k as int],
            ),
        decreases corners.len() - c,
    {
        let ghost done = concat(corner_views(corners@).take(c as int));
        let corner = &corners[c];
        proof {
            assert(corner_views(corners@).take(c + 1).drop_last() =~= corner_views(corners@).take(
                c as int,
            ));
            assert(corner_views(corners@).take(c + 1).last() == corner@);
            lemma_concat_prefix_len(corner_views(corners@), c + 1);
        }
        let mut j: usize = 0;
        while j < corner.len()
            invariant
                j <= corner.len(),
                corner == &corners@[c as int],
                done + corner@ == concat(corner_views(corners@).take(c + 1)),
                (done + corner@).len() <= all.len(),
                all.len() <= usize::MAX,
                index == done.len() + j,
                vertices@ == Map::new(
                    |k: usize| k < index,
                    |k: usize| (done + corner@)[k as int],
                ),
            decreases corner.len() - j,
        {
            vertices.insert(index, corner[j]);
            index = index + 1;
            j = j + 1;
            assert(vertices@ =~= Map::new(
                |k: usize| k < index,
                |k: usize| (done + corner@)[k as int],
            ));
        }
        assert(vertices@ =~= Map::new(
            |k: usize| k < index,
            |k: usize| concat(corner_views(corners@).take(c + 1))[k as int],
        ));
        c = c + 1;
    }
    assert(corner_views(corners@).take(corners.len() as int) =~= corner_views(corners@));
    vertices
}

proof fn lemma_concat_prefix_len<T>(parts: Seq<Seq<T>>, m: int)
    requires
        0 <= m <= parts.len(),
    ensures
        concat(parts.take(m)).len() <= concat(parts).len(),
    decreases parts.len() - m,
{
    if m < parts.len() {
        lemma_concat_prefix_len(parts, m + 1);
        assert(parts.take(m + 1).drop_last() =~= parts.take(m));
    } else {
        assert(parts.take(m) =~= parts);
    }
}

/// The total number of points of all parts.
pub open spec fn total_len<T>(parts: Seq<Seq<T>>) -> nat
    decreases parts.len(),
{
    if parts.len() == 0 {
        0
    } else {
        total_len(parts.drop_last()) + parts.last().len()
    }
}

proof fn lemma_total_len_prefix<T>(parts: Seq<Seq<T>>, c: int)
    requires
        0 <= c <= parts.len(),
    ensures
        total_len(parts.take(c)) <= total_len(parts),
        c < parts.len() ==> total_len(parts.take(c + 1)) == total_len(parts.take(c))
            + parts[c].len(),
        c < parts.len() ==> total_len(parts.take(c)) + parts[c].len() <= total_len(parts),
    decreases parts.len() - c,
{
    if c < parts.len() {
        assert(parts.take(c + 1).drop_last() =~= parts.take(c));
        lemma_total_len_prefix(parts, c + 1);
    } else {
        assert(parts.take(c) =~= parts);
    }
}

/// Numbering the corners one after the other: there are as many points as
/// all corners hold together, and point `j` of corner `c` comes right after
/// the points of the corners before `c`, at `total_len(parts.take(c)) + j`.
pub proof fn lemma_concat_layout<T>(parts: Seq<Seq<T>>)
    ensures
        concat(parts).len() == total_len(parts),
        forall|c: int, j: int|
            0 <= c < parts.len() && 0 <= j < parts[c].len() ==> concat(parts)[total_len(
                parts.take(c),
            ) + j] == #[trigger] parts[c][j],
    decreases parts.len(),
{
    if parts.len() > 0 {
        let pre = parts.drop_last();
        lemma_concat_layout(pre);
        assert forall|c: int, j: int|
            0 <= c < parts.len() && 0 <= j < parts[c].len() implies concat(parts)[total_len(
                parts.take(c),
            ) + j] == #[trigger] parts[c][j] by {
            if c < parts.len() - 1 {
                assert(parts.take(c) =~= pre.take(c));
                assert(parts[c] == pre[c]);
                lemma_total_len_prefix(pre, c);
                assert(pre[c][j] == parts[c][j]);
            } else {
                assert(parts.take(c) =~= pre);
            }
        }
    }
}

impl<C: Copy> Polygon<C> {
    /// Builds a polygon over `vertices`, keyed from 0, with an edge from each
    /// vertex to the next and from the last back to the first. The edge
    /// leaving vertex `i` gets position `i` as index and `normals[i]` as its
    /// normal; an edge that would loop onto its start is left out.
    pub fn create_polygon(
        vertices: HashMap<usize, Vertex<C>>,
        offset_size: C,
        normals: &Vec<Vertex<C>>,
    ) -> (polygon: Polygon<C>)
        requires
            normals.len() == vertices@.len(),
        ensures
            polygon@ == (PolygonView {
                edges: ring_edges(vertices@.len(), normals@),
                vertices: vertices@,
                offset_margin: offset_size,
                is_degenerate: false,
            }),
    {
        let n = vertices.len();
        let mut edges: Vec<Edge<C>> = Vec::new();
        let mut i: usize = 0;
        while i < n
            invariant
                i <= n,
                n == normals.len(),
                n == vertices@.len(),
                n == 1 ==> edges@.len() == 0,
                n != 1 ==> edges@ == ring_edges(n as nat, normals@).take(i as int),
            decreases n - i,
        {
            proof {
                if i + 1 < n {
                    vstd::arithmetic::div_mod::lemma_small_mod((i + 1) as nat, n as nat);
                } else {
                    vstd::arithmetic::div_mod::lemma_mod_self_0(n as int);
                }
            }
            let edge = Edge {
                p1: i,
                p2: (i + 1) % n,
                index: i,
                outward_normal: normals[i],
            };
            if edge.p1 == edge.p2 {
                i = i + 1;
                continue;
            }
            edges.push(edge);
            assert(n != 1 ==> edges@ =~= ring_edges(n as nat, normals@).take(i + 1));
            i = i + 1;
        }
        if n != 1 {
            assert(ring_edges(n as nat, normals@).take(n as int) =~= ring_edges(n as nat, normals@));
        } else {
            assert(edges@ =~= ring_edges(n as nat, normals@));
        }
        Polygon { edges, vertices, offset_margin: offset_size, is_degenerate: false }
    }
}

/// The identifiers below `n`.
pub open spec fn ids_below(n: nat) -> Set<usize> {
    Set::new(|k: usize| k < n)
}

proof fn lemma_ids_below_len(n: nat)
    requires
        n <= usize::MAX + 1,
    ensures
        ids_below(n).finite(),
        ids_below(n).len() == n,
    decreases n,
{
    if n > 0 {
        lemma_ids_below_len((n - 1) as nat);
        assert(ids_below(n) =~= ids_below((n - 1) as nat).insert((n - 1) as usize));
    } else {
        assert(ids_below(0) =~= Set::<usize>::empty());
    }
}

/// The polygon built over the vertices of a closed contour with `n` points
/// before the closing one has `n` vertices keyed 0 to `n - 1`; its edges
/// run from vertex `i` to the next one, by position, and close into a ring
/// when there are two vertices or more. Every edge starts and ends at one
/// of its vertices, and its `index` is its position.
pub proof fn lemma_contour_polygon<C>(contour: Seq<(C, C)>, poly: PolygonView<C>)
    requires
        1 <= contour.len() <= usize::MAX + 1,
        poly.vertices == contour_vertices(contour),
        exists|normals: Seq<Vertex<C>>| poly.edges == ring_edges(poly.vertices.len(), normals),
    ensures
        poly.vertices.dom() == ids_below((contour.len() - 1) as nat),
        poly.vertices.len() == contour.len() - 1,
        forall|i: int|
            0 <= i < poly.edges.len() ==> {
                &&& (#[trigger] poly.edges[i]).p1 == i
                &&& poly.edges[i].index == i
                &&& poly.vertices.contains_key(poly.edges[i].p1)
                &&& poly.vertices.contains_key(poly.edges[i].p2)
                &&& poly.edges[i].p1 != poly.edges[i].p2
                &&& poly.edges[i].p2 == poly.edges[(i + 1) % poly.edges.len() as int].p1
            },
        poly.edges.len() == 0 || poly.edges.len() == poly.vertices.len(),
{
    let n = (contour.len() - 1) as nat;
    assert(poly.vertices.dom() =~= ids_below(n));
    lemma_ids_below_len(n);
    let normals = choose|normals: Seq<Vertex<C>>| poly.edges == ring_edges(poly.vertices.len(), normals);
    if n != 1 {
        assert forall|i: int| 0 <= i < poly.edges.len() implies {
            &&& (#[trigger] poly.edges[i]).p1 == i
            &&& poly.edges[i].index == i
            &&& poly.vertices.contains_key(poly.edges[i].p1)
            &&& poly.vertices.contains_key(poly.edges[i].p2)
            &&& poly.edges[i].p1 != poly.edges[i].p2
            &&& poly.edges[i].p2 == poly.edges[(i + 1) % poly.edges.len() as int].p1
        } by {
            if i + 1 < n {
                vstd::arithmetic::div_mod::lemma_small_mod((i + 1) as nat, n);
            } else {
                vstd::arithmetic::div_mod::lemma_mod_self_0(n as int);
            }
        }
    }
}

} // verus!
