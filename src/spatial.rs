use vstd::prelude::*;
use vstd::multiset::Multiset;
use rstar::primitives::{GeomWithData, Rectangle};
use rstar::{RTree, AABB};
use crate::graph::{
    graph_edge, graph_edge_endpoints, graph_edge_handles, graph_edges, graph_node, graph_nodes,
    pos_ok, Graph, RoadGraph, MAX_POS,
};
use crate::profile::{lemma_scaled_step, tdiv, tdiv_exec};

verus! {

/// One whole edge, as a fraction along it.
pub const FRAC_ONE: i64 = 1_000_000;

/// An edge copied out of the graph with its endpoint positions, so that
/// geometric queries need not consult the graph.
#[derive(Clone, Copy, Debug)]
pub struct SpatialEdge {
    pub p_u: (i64, i64),
    pub p_v: (i64, i64),
    pub u: usize,
    pub v: usize,
    pub e_idx: usize,
    pub length: i64,
    pub climb: i64,
    pub slope: i64,
    pub id: u64,
}

pub open spec fn point_in_range(p: (i64, i64)) -> bool {
    pos_ok(p.0) && pos_ok(p.1)
}

pub open spec fn segment_in_range(se: SpatialEdge) -> bool {
    point_in_range(se.p_u) && point_in_range(se.p_v)
}

/// Dot product of (point - start) with (end - start).
pub open spec fn seg_dot(p: (i64, i64), se: SpatialEdge) -> int {
    (p.0 - se.p_u.0) * (se.p_v.0 - se.p_u.0) + (p.1 - se.p_u.1) * (se.p_v.1 - se.p_u.1)
}

pub open spec fn seg_len_sq(se: SpatialEdge) -> int {
    (se.p_v.0 - se.p_u.0) * (se.p_v.0 - se.p_u.0) + (se.p_v.1 - se.p_u.1) * (se.p_v.1
        - se.p_u.1)
}

/// Where the perpendicular from `p` meets the segment, clamped to it, as a
/// fraction of `FRAC_ONE` (rounded down); 0 on a segment of no extent.
pub open spec fn proj_fraction(p: (i64, i64), se: SpatialEdge) -> int {
    if seg_len_sq(se) == 0 || seg_dot(p, se) <= 0 {
        0
    } else if seg_dot(p, se) >= seg_len_sq(se) {
        FRAC_ONE as int
    } else {
        seg_dot(p, se) * FRAC_ONE / seg_len_sq(se)
    }
}

/// The point of the segment closest to `p` (coordinates rounded toward
/// the start).
pub open spec fn proj_point(p: (i64, i64), se: SpatialEdge) -> (int, int) {
    if seg_len_sq(se) == 0 || seg_dot(p, se) <= 0 {
        (se.p_u.0 as int, se.p_u.1 as int)
    } else if seg_dot(p, se) >= seg_len_sq(se) {
        (se.p_v.0 as int, se.p_v.1 as int)
    } else {
        (
            se.p_u.0 + tdiv(seg_dot(p, se) * (se.p_v.0 - se.p_u.0), seg_len_sq(se)),
            se.p_u.1 + tdiv(seg_dot(p, se) * (se.p_v.1 - se.p_u.1), seg_len_sq(se)),
        )
    }
}

/// Squared Euclidean distance from `p` to its projection on the segment.
pub open spec fn dist_sq(p: (i64, i64), se: SpatialEdge) -> int {
    let q = proj_point(p, se);
    (q.0 - p.0) * (q.0 - p.0) + (q.1 - p.1) * (q.1 - p.1)
}

/// Projects `point` on the segment: the closest point and its fraction
/// along the segment.
pub fn project_point_to_segment(point: &(i64, i64), se: &SpatialEdge) -> (r: ((i64, i64), i64))
    requires
        point_in_range(*point),
        segment_in_range(*se),
    ensures
        r.0.0 == proj_point(*point, *se).0,
        r.0.1 == proj_point(*point, *se).1,
        r.1 == proj_fraction(*point, *se),
        0 <= r.1 <= FRAC_ONE,
        point_in_range(r.0),
{
    let a = point.0 as i128 - se.p_u.0 as i128;
    let b = point.1 as i128 - se.p_u.1 as i128;
    let c = se.p_v.0 as i128 - se.p_u.0 as i128;
    let d = se.p_v.1 as i128 - se.p_u.1 as i128;
    proof {
        let m: int = 0x200_0000_0000;
        assert(-m * m <= a * c <= m * m) by (nonlinear_arith)
            requires -m <= a <= m, -m <= c <= m;
        assert(-m * m <= b * d <= m * m) by (nonlinear_arith)
            requires -m <= b <= m, -m <= d <= m;
        assert(0 <= c * c <= m * m) by (nonlinear_arith)
            requires -m <= c <= m;
        assert(0 <= d * d <= m * m) by (nonlinear_arith)
            requires -m <= d <= m;
    }
    let dot = a * c + b * d;
    let len_sq = c * c + d * d;
    if len_sq == 0 || dot <= 0 {
        return (se.p_u, 0);
    }
    if dot >= len_sq {
        return (se.p_v, FRAC_ONE);
    }
    proof {
        let m: int = 0x200_0000_0000;
        assert(0 < dot * (FRAC_ONE as int) < len_sq * (FRAC_ONE as int)) by (nonlinear_arith)
            requires 0 < dot < len_sq;
        assert(dot * (FRAC_ONE as int) / (len_sq as int) < FRAC_ONE) by (nonlinear_arith)
            requires 0 < dot * (FRAC_ONE as int) < len_sq * (FRAC_ONE as int), len_sq > 0;
        assert(0 <= dot * (FRAC_ONE as int) / (len_sq as int)) by (nonlinear_arith)
            requires 0 < dot * (FRAC_ONE as int), len_sq > 0;
        assert(-(2 * m * m) * m <= dot * c <= (2 * m * m) * m) by (nonlinear_arith)
            requires 0 < dot <= 2 * m * m, -m <= c <= m;
        assert(-(2 * m * m) * m <= dot * d <= (2 * m * m) * m) by (nonlinear_arith)
            requires 0 < dot <= 2 * m * m, -m <= d <= m;
        lemma_scaled_step(dot as int, c as int, len_sq as int);
        lemma_scaled_step(dot as int, d as int, len_sq as int);
    }
    let f = dot * (FRAC_ONE as i128) / len_sq;
    let qx = se.p_u.0 as i128 + tdiv_exec(dot * c, len_sq);
    let qy = se.p_u.1 as i128 + tdiv_exec(dot * d, len_sq);
    ((qx as i64, qy as i64), f as i64)
}

/// Squared Euclidean distance from `point` to the segment.
pub fn distance_squared(point: &(i64, i64), se: &SpatialEdge) -> (r: i128)
    requires
        point_in_range(*point),
        segment_in_range(*se),
    ensures
        r == dist_sq(*point, *se),
        r >= 0,
{
    let (q, _f) = project_point_to_segment(point, se);
    let dx = q.0 as i128 - point.0 as i128;
    let dy = q.1 as i128 - point.1 as i128;
    proof {
        let m: int = 0x200_0000_0000;
        assert(0 <= dx * dx <= m * m) by (nonlinear_arith)
            requires -m <= dx <= m;
        assert(0 <= dy * dy <= m * m) by (nonlinear_arith)
            requires -m <= dy <= m;
    }
    dx * dx + dy * dy
}

/// Relies on `u128::isqrt`: the integer square root, rounded down.
#[verifier::external_body]
fn isqrt(x: u128) -> (r: u128)
    ensures
        r * r <= x < (r + 1) * (r + 1),
{
    x.isqrt()
}

/// Euclidean distance from `point` to the segment, rounded down.
pub fn distance_to_point(point: &(i64, i64), se: &SpatialEdge) -> (r: i128)
    requires
        point_in_range(*point),
        segment_in_range(*se),
    ensures
        r >= 0,
        r * r <= dist_sq(*point, *se) < (r + 1) * (r + 1),
{
    let d2 = distance_squared(point, se);
    let r = isqrt(d2 as u128);
    proof {
        assert(r <= d2) by (nonlinear_arith)
            requires r * r <= d2, r >= 0;
    }
    r as i128
}

/// A segment within distance `d` of `c` has a bounding box that meets the
/// square of half-side `d` around `c`.
pub proof fn lemma_within_meets_square(c: (i64, i64), d: i64, se: SpatialEdge, k: usize)
    requires
        point_in_range(c),
        segment_in_range(se),
        0 <= d <= MAX_POS,
        dist_sq(c, se) <= d * d,
    ensures
        boxes_meet(
            envelope_item(se, k),
            (c.0 - d) as i64,
            (c.1 - d) as i64,
            (c.0 + d) as i64,
            (c.1 + d) as i64,
        ),
{
    let q = proj_point(c, se);
    let dot = seg_dot(c, se);
    let len_sq = seg_len_sq(se);
    if !(len_sq == 0 || dot <= 0) && dot < len_sq {
        lemma_scaled_step(dot, se.p_v.0 - se.p_u.0, len_sq);
        lemma_scaled_step(dot, se.p_v.1 - se.p_u.1, len_sq);
    }
    let dx = q.0 - c.0;
    let dy = q.1 - c.1;
    assert(dx * dx >= 0 && dy * dy >= 0) by (nonlinear_arith);
    assert(-d <= dx <= d) by (nonlinear_arith)
        requires dx * dx <= d * d, d >= 0;
    assert(-d <= dy <= d) by (nonlinear_arith)
        requires dy * dy <= d * d, d >= 0;
    let e = envelope_item(se, k);
    assert(e.0 <= q.0 <= e.2);
    assert(e.1 <= q.1 <= e.3);
}

/// The envelopes of the entries, held in an `rstar::RTree`: each item is
/// (min x, min y, max x, max y, entry position).
#[verifier::external_body]
pub struct EnvelopeTree {
    tree: RTree<GeomWithData<Rectangle<(i64, i64)>, usize>>,
}

/// What an envelope tree holds.
pub uninterp spec fn tree_items(t: EnvelopeTree) -> Multiset<(i64, i64, i64, i64, usize)>;

pub open spec fn boxes_meet(e: (i64, i64, i64, i64, usize), x0: i64, y0: i64, x1: i64, y1: i64) -> bool {
    e.0 <= x1 && x0 <= e.2 && e.1 <= y1 && y0 <= e.3
}

/// Relies on `RTree::bulk_load`: the tree holds exactly the given boxes.
#[verifier::external_body]
fn tree_bulk_load(items: Vec<(i64, i64, i64, i64, usize)>) -> (r: EnvelopeTree)
    requires
        forall|k: int| 0 <= k < items.len() ==> (#[trigger] items@[k]).0 <= items@[k].2
            && items@[k].1 <= items@[k].3,
    ensures
        tree_items(r) == items@.to_multiset(),
{
    let geoms = items.into_iter().map(
        |(x0, y0, x1, y1, k)| GeomWithData::new(Rectangle::from_corners((x0, y0), (x1, y1)), k),
    ).collect();
    EnvelopeTree { tree: RTree::bulk_load(geoms) }
}

/// Relies on `RTree::locate_in_envelope_intersecting`: the positions of the
/// boxes that meet the query box, and only those.
#[verifier::external_body]
fn tree_locate(t: &EnvelopeTree, x0: i64, y0: i64, x1: i64, y1: i64) -> (r: Vec<usize>)
    requires
        x0 <= x1,
        y0 <= y1,
    ensures
        forall|k: int|
            0 <= k < r.len() ==> exists|e: (i64, i64, i64, i64, usize)|
                tree_items(*t).count(e) > 0 && e.4 == #[trigger] r@[k] && boxes_meet(
                    e,
                    x0,
                    y0,
                    x1,
                    y1,
                ),
        forall|e: (i64, i64, i64, i64, usize)|
            tree_items(*t).count(e) > 0 && boxes_meet(e, x0, y0, x1, y1) ==> #[trigger] r@.contains(
                e.4,
            ),
{
    let query = AABB::from_corners((x0, y0), (x1, y1));
    t.tree.locate_in_envelope_intersecting(&query).map(|g| g.data).collect()
}

pub open spec fn min_of(a: i64, b: i64) -> i64 {
    if a <= b {
        a
    } else {
        b
    }
}

pub open spec fn max_of(a: i64, b: i64) -> i64 {
    if a <= b {
        b
    } else {
        a
    }
}

/// The bounding box of an entry, tagged with its position.
pub open spec fn envelope_item(se: SpatialEdge, k: usize) -> (i64, i64, i64, i64, usize) {
    (
        min_of(se.p_u.0, se.p_v.0),
        min_of(se.p_u.1, se.p_v.1),
        max_of(se.p_u.0, se.p_v.0),
        max_of(se.p_u.1, se.p_v.1),
        k,
    )
}

/// The entry copies edge `se.e_idx` of the graph faithfully.
pub open spec fn entry_matches(se: SpatialEdge, g: Graph) -> bool {
    &&& graph_edges(g).contains_key(se.e_idx)
    &&& graph_edges(g)[se.e_idx].0 == se.u
    &&& graph_edges(g)[se.e_idx].1 == se.v
    &&& graph_edges(g)[se.e_idx].2.id == se.id
    &&& graph_edges(g)[se.e_idx].2.length == se.length
    &&& graph_edges(g)[se.e_idx].2.climb == se.climb
    &&& graph_edges(g)[se.e_idx].2.slope == se.slope
    &&& graph_nodes(g).contains_key(se.u)
    &&& graph_nodes(g).contains_key(se.v)
    &&& graph_nodes(g)[se.u].x == se.p_u.0
    &&& graph_nodes(g)[se.u].y == se.p_u.1
    &&& graph_nodes(g)[se.v].x == se.p_v.0
    &&& graph_nodes(g)[se.v].y == se.p_v.1
}

/// The spatial index: one entry per edge, and a range tree over their
/// bounding boxes.
pub struct SpatialIndex {
    pub entries: Vec<SpatialEdge>,
    pub tree: EnvelopeTree,
}

impl SpatialIndex {
    /// Every entry copies an edge of `g`, and the tree holds exactly the
    /// entries' boxes.
    pub open spec fn wf_for(&self, g: Graph) -> bool {
        &&& forall|k: int| 0 <= k < self.entries.len() ==> entry_matches(#[trigger] self.entries@[k], g)
        &&& self.tree_ok()
    }

    /// The tree holds exactly the entries' boxes.
    pub open spec fn tree_ok(&self) -> bool {
        &&& forall|e: (i64, i64, i64, i64, usize)| #[trigger]
            tree_items(self.tree).count(e) > 0 ==> e.4 < self.entries.len() && e
                == envelope_item(self.entries@[e.4 as int], e.4)
        &&& forall|j: int| 0 <= j < self.entries.len() ==> #[trigger] tree_items(self.tree).count(
            envelope_item(self.entries@[j], j as usize)) > 0
    }

    /// Positions of the entries whose bounding box meets the square of
    /// half-side `r` around `(cx, cy)`: all of them, and no others.
    pub fn candidates(&self, cx: i64, cy: i64, r: i64) -> (out: Vec<usize>)
        requires
            self.tree_ok(),
            0 <= r <= MAX_POS,
            -MAX_POS <= cx <= MAX_POS,
            -MAX_POS <= cy <= MAX_POS,
        ensures
            forall|k: int|
                0 <= k < out.len() ==> #[trigger] out@[k] < self.entries.len() && boxes_meet(
                    envelope_item(self.entries@[out@[k] as int], out@[k]),
                    (cx - r) as i64,
                    (cy - r) as i64,
                    (cx + r) as i64,
                    (cy + r) as i64,
                ),
            forall|j: int|
                0 <= j < self.entries.len() && boxes_meet(
                    envelope_item(#[trigger] self.entries@[j], j as usize),
                    (cx - r) as i64,
                    (cy - r) as i64,
                    (cx + r) as i64,
                    (cy + r) as i64,
                ) ==> out@.contains(j as usize),
    {
        let out = tree_locate(&self.tree, cx - r, cy - r, cx + r, cy + r);
        proof {
            assert forall|k: int| 0 <= k < out.len() implies #[trigger] out@[k]
                < self.entries.len() && boxes_meet(
                envelope_item(self.entries@[out@[k] as int], out@[k]),
                (cx - r) as i64,
                (cy - r) as i64,
                (cx + r) as i64,
                (cy + r) as i64,
            ) by {
                let e = choose|e: (i64, i64, i64, i64, usize)|
                    tree_items(self.tree).count(e) > 0 && e.4 == #[trigger] out@[k] && boxes_meet(
                        e,
                        (cx - r) as i64,
                        (cy - r) as i64,
                        (cx + r) as i64,
                        (cy + r) as i64,
                    );
                assert(tree_items(self.tree).count(e) > 0);
            }
            assert forall|j: int|
                0 <= j < self.entries.len() && boxes_meet(
                    envelope_item(#[trigger] self.entries@[j], j as usize),
                    (cx - r) as i64,
                    (cy - r) as i64,
                    (cx + r) as i64,
                    (cy + r) as i64,
                ) implies out@.contains(j as usize) by {
                let e = envelope_item(self.entries@[j], j as usize);
                assert(tree_items(self.tree).count(e) > 0);
            }
        }
        out
    }
}

/// Builds the spatial index of a graph: exactly one entry for every edge.
pub fn build_spatial_index(graph: &RoadGraph) -> (r: SpatialIndex)
    requires
        graph.wf(),
    ensures
        r.wf_for(graph.graph),
        forall|a: int, b: int|
            0 <= a < b < r.entries.len() ==> (#[trigger] r.entries@[a]).e_idx != (
            #[trigger] r.entries@[b]).e_idx,
        forall|e: usize|
            graph_edges(graph.graph).contains_key(e) ==> exists|k: int|
                0 <= k < r.entries.len() && (#[trigger] r.entries@[k]).e_idx == e,
{
    let g = &graph.graph;
    let handles = graph_edge_handles(g);
    let mut entries: Vec<SpatialEdge> = Vec::new();
    let mut items: Vec<(i64, i64, i64, i64, usize)> = Vec::new();
    let mut i: usize = 0;
    while i < handles.len()
        invariant
            graph.wf(),
            g == &graph.graph,
            forall|e: usize| handles@.contains(e) <==> graph_edges(*g).contains_key(e),
            handles@.no_duplicates(),
            0 <= i <= handles.len(),
            entries.len() == i,
            items.len() == i,
            forall|k: int| 0 <= k < i ==> entry_matches(#[trigger] entries@[k], *g),
            forall|k: int| 0 <= k < i ==> (#[trigger] entries@[k]).e_idx == handles@[k],
            forall|k: int|
                0 <= k < i ==> #[trigger] items@[k] == envelope_item(entries@[k], k as usize),
        decreases handles.len() - i,
    {
        let e = handles[i];
        assert(handles@.contains(e));
        let (u, v) = match graph_edge_endpoints(g, e) {
            Some(p) => p,
            None => {
                proof {
                    assert(false);
                }
                (0, 0)
            },
        };
        let data = match graph_edge(g, e) {
            Some(d) => d,
            None => {
                proof {
                    assert(false);
                }
                return SpatialIndex { entries, tree: tree_bulk_load(items) };
            },
        };
        assert(graph_edges(*g).contains_key(e));
        let nu = match graph_node(g, u) {
            Some(n) => n,
            None => {
                proof {
                    assert(false);
                }
                return SpatialIndex { entries, tree: tree_bulk_load(items) };
            },
        };
        let nv = match graph_node(g, v) {
            Some(n) => n,
            None => {
                proof {
                    assert(false);
                }
                return SpatialIndex { entries, tree: tree_bulk_load(items) };
            },
        };
        let se = SpatialEdge {
            p_u: (nu.x, nu.y),
            p_v: (nv.x, nv.y),
            u,
            v,
            e_idx: e,
            length: data.length,
            climb: data.climb,
            slope: data.slope,
            id: data.id,
        };
        let x0 = if nu.x <= nv.x { nu.x } else { nv.x };
        let y0 = if nu.y <= nv.y { nu.y } else { nv.y };
        let x1 = if nu.x <= nv.x { nv.x } else { nu.x };
        let y1 = if nu.y <= nv.y { nv.y } else { nu.y };
        entries.push(se);
        items.push((x0, y0, x1, y1, i));
        i = i + 1;
    }
    let ghost its = items@;
    let ghost ents = entries@;
    let tree = tree_bulk_load(items);
    proof {
        its.to_multiset_ensures();
        assert forall|e: (i64, i64, i64, i64, usize)| #[trigger]
            tree_items(tree).count(e) > 0 implies e.4 < ents.len() && e == envelope_item(
            ents[e.4 as int],
            e.4,
        ) by {
            assert(its.contains(e));
            let j = choose|j: int| 0 <= j < its.len() && its[j] == e;
            assert(its[j] == envelope_item(ents[j], j as usize));
        }
        assert forall|e: usize| graph_edges(graph.graph).contains_key(e) implies exists|k: int|
            0 <= k < ents.len() && (#[trigger] ents[k]).e_idx == e by {
            assert(handles@.contains(e));
            let j = choose|j: int| 0 <= j < handles.len() && handles@[j] == e;
            assert(0 <= j < ents.len() && ents[j].e_idx == e);
        }
        assert forall|j: int| 0 <= j < ents.len() implies #[trigger] tree_items(tree).count(
            envelope_item(ents[j], j as usize)) > 0 by {
            assert(its[j] == envelope_item(ents[j], j as usize));
            assert(its.contains(its[j]));
        }
    }
    SpatialIndex { entries, tree }
}

} // verus!
