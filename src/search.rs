use vstd::prelude::*;
use crate::graph::{
    graph_edge, graph_edges, graph_edges_at, graph_nodes, Graph, RoadGraph, MAX_COORD, MAX_POS,
};
use crate::matcher::{integral_abs_diff, AreaMatcher, ProfileMatcher, MAX_DIFF};
use crate::profile::{lemma_scaled_step, tdiv, total_len, Profile, MAX_POINTS};
use crate::spatial::{
    dist_sq, distance_squared, point_in_range, proj_fraction, project_point_to_segment,
    SpatialEdge, SpatialIndex, FRAC_ONE,
};

verus! {

/// Most partial paths kept from one step to the next.
pub const BEAM_WIDTH: usize = 50;

/// Smallest length tolerance (5 m in millimetres).
pub const MIN_TOLERANCE: i64 = 5_000;

/// Assumed mean edge length that sets the step budget (50 m in millimetres).
pub const MEAN_EDGE_LENGTH: i64 = 50_000;

/// Longest target profile a query may carry.
pub const MAX_TARGET_LEN: i64 = 0x1_0000_0000;

/// Most extension steps of one search.
pub const MAX_STEPS: i64 = 0x4_0000;

/// Upper bound on a path's length during a search.
pub const MAX_DIST_BOUND: i64 = 0x10_0000_0000;

/// A search: center point, radius, target profile.
pub struct Query {
    pub c: (i64, i64),
    pub d: i64,
    pub p: Profile,
}

impl Query {
    pub open spec fn wf(&self) -> bool {
        &&& self.p.wf()
        &&& total_len(self.p.points@) <= MAX_TARGET_LEN
        &&& self.p.points.len() <= MAX_POINTS / 2
        &&& point_in_range(self.c)
        &&& -MAX_POS <= self.d <= MAX_POS
    }
}

/// A found route: where it starts on its first edge and ends on its last
/// (fractions of `FRAC_ONE`), and the external ids of the edges in order.
#[derive(Clone, Debug)]
pub struct Route {
    pub si: i64,
    pub ti: i64,
    pub edge_ids: Vec<u64>,
}

/// A loaded snapshot: the road graph and its spatial index.
pub struct AppData {
    pub graph: RoadGraph,
    pub index: SpatialIndex,
}

impl AppData {
    pub open spec fn wf(&self) -> bool {
        self.graph.wf() && self.index.wf_for(self.graph.graph)
    }
}

/// The length tolerance for a target of length `l`: 5 % of it, at least
/// `MIN_TOLERANCE`.
pub open spec fn tolerance(l: int) -> int {
    if l / 20 > MIN_TOLERANCE {
        l / 20
    } else {
        MIN_TOLERANCE as int
    }
}

/// Entry `se` lies within distance `d` of `c`.
pub open spec fn within(c: (i64, i64), d: i64, se: SpatialEdge) -> bool {
    d >= 0 && dist_sq(c, se) <= d * d
}

/// A search state: the node reached, the length, area estimate and relative
/// elevation so far, the edges taken after the first one with the fraction
/// used of each, and the first edge with the fraction already behind.
struct PartialPath {
    node: usize,
    length: i64,
    cum_area: i128,
    rel_elev: i64,
    path: Vec<(usize, i64)>,
    first_fraction: i64,
    first_edge_idx: Option<usize>,
}

/// The edge handles of a sequence of steps.
pub open spec fn handles(steps: Seq<(usize, i64)>) -> Seq<usize> {
    steps.map_values(|st: (usize, i64)| st.0)
}

/// Total length of the edges `hs` of `g`.
pub open spec fn edges_len(g: Graph, hs: Seq<usize>) -> int
    decreases hs.len(),
{
    if hs.len() == 0 {
        0
    } else {
        edges_len(g, hs.drop_last()) + graph_edges(g)[hs.last()].2.length
    }
}

/// Where walking the edges `hs` from node `start` ends, each edge entered at
/// either endpoint and left at the other; `None` when an edge does not touch
/// the node reached.
pub open spec fn walk_end(g: Graph, start: usize, hs: Seq<usize>) -> Option<usize>
    decreases hs.len(),
{
    if hs.len() == 0 {
        Some(start)
    } else {
        match walk_end(g, start, hs.drop_last()) {
            Some(cur) => {
                let e = graph_edges(g)[hs.last()];
                if e.0 == cur {
                    Some(e.1)
                } else if e.1 == cur {
                    Some(e.0)
                } else {
                    None
                }
            },
            None => None,
        }
    }
}

/// The path starts on an index entry within the radius, at the center's
/// projection, uses edges of the graph, and keeps its sums in range.
spec fn path_ok(p: PartialPath, data: AppData, q: Query, l: int, steps: int) -> bool {
    let g = data.graph.graph;
    let ents = data.index.entries@;
    &&& graph_nodes(g).contains_key(p.node)
    &&& p.first_edge_idx is Some
    &&& exists|k: int|
        0 <= k < ents.len() && (#[trigger] ents[k]).e_idx == p.first_edge_idx->0 && within(
            q.c,
            q.d,
            ents[k],
        ) && p.first_fraction == proj_fraction(q.c, ents[k]) && p.length == seed_len(q.c, ents[k])
            + edges_len(g, handles(p.path@))
    &&& 0 <= p.first_fraction <= FRAC_ONE
    &&& graph_edges(g).contains_key(p.first_edge_idx->0)
    &&& walk_end(g, graph_edges(g)[p.first_edge_idx->0].1, handles(p.path@)) == Some(p.node)
    &&& forall|j: int|
        0 <= j < p.path.len() ==> graph_edges(g).contains_key((#[trigger] p.path@[j]).0) && p.path@[j].1
            == FRAC_ONE
    &&& p.path.len() <= steps
    &&& 0 <= p.length <= MAX_COORD + l + 2 * tolerance(l)
    &&& -(p.path.len() + 1) * MAX_COORD <= p.rel_elev <= (p.path.len() + 1) * MAX_COORD
    &&& 0 <= p.cum_area <= MAX_DIFF * p.length
}

/// `frac / FRAC_ONE` of `v`, truncated.
fn scale(frac: i64, v: i64) -> (r: i64)
    requires
        0 <= frac <= FRAC_ONE,
        -MAX_COORD <= v <= MAX_COORD,
    ensures
        r == tdiv(frac * v, FRAC_ONE as int),
        v >= 0 ==> 0 <= r <= v,
        v < 0 ==> v <= r <= 0,
{
    if frac == 0 {
        assert(frac * v == 0);
        return 0;
    }
    proof {
        lemma_scaled_step(frac as int, v as int, FRAC_ONE as int);
        assert(-MAX_COORD * FRAC_ONE <= frac * v <= MAX_COORD * FRAC_ONE) by (nonlinear_arith)
            requires 0 < frac <= FRAC_ONE, -MAX_COORD <= v <= MAX_COORD;
    }
    let n = frac as i128 * v as i128;
    let r = crate::profile::tdiv_exec(n, FRAC_ONE as i128);
    r as i64
}

/// A copy of a partial path.
fn copy_path(p: &PartialPath) -> (r: PartialPath)
    ensures
        r.node == p.node,
        r.length == p.length,
        r.cum_area == p.cum_area,
        r.rel_elev == p.rel_elev,
        r.path@ == p.path@,
        r.first_fraction == p.first_fraction,
        r.first_edge_idx == p.first_edge_idx,
{
    PartialPath {
        node: p.node,
        length: p.length,
        cum_area: p.cum_area,
        rel_elev: p.rel_elev,
        path: copy_steps(&p.path),
        first_fraction: p.first_fraction,
        first_edge_idx: p.first_edge_idx,
    }
}

fn copy_steps(v: &Vec<(usize, i64)>) -> (r: Vec<(usize, i64)>)
    ensures
        r@ == v@,
{
    let mut r: Vec<(usize, i64)> = Vec::new();
    let mut i: usize = 0;
    while i < v.len()
        invariant
            0 <= i <= v.len(),
            r@ == v@.subrange(0, i as int),
        decreases v.len() - i,
    {
        r.push(v[i]);
        i = i + 1;
        assert(r@ =~= v@.subrange(0, i as int));
    }
    assert(r@ =~= v@);
    r
}

/// Length and climb of the first edge past the start fraction `f`, each
/// scaled by `FRAC_ONE - f` (zero without a first edge).
pub open spec fn first_part(g: Graph, first: Option<usize>, f: i64) -> (int, int) {
    match first {
        Some(e) => (
            tdiv((FRAC_ONE - f) * graph_edges(g)[e].2.length, FRAC_ONE as int),
            tdiv((FRAC_ONE - f) * graph_edges(g)[e].2.climb, FRAC_ONE as int),
        ),
        None => (0, 0),
    }
}

/// Length and climb of the first `n` steps, each edge scaled by the
/// fraction used of it.
pub open spec fn steps_sum(g: Graph, steps: Seq<(usize, i64)>, n: int) -> (int, int)
    decreases n,
{
    if n <= 0 {
        (0, 0)
    } else {
        let prev = steps_sum(g, steps, n - 1);
        let st = steps[n - 1];
        (
            prev.0 + tdiv(st.1 * graph_edges(g)[st.0].2.length, FRAC_ONE as int),
            prev.1 + tdiv(st.1 * graph_edges(g)[st.0].2.climb, FRAC_ONE as int),
        )
    }
}

/// Number of breakpoints a first edge contributes.
pub open spec fn lead(first: Option<usize>) -> int {
    if first is Some {
        1
    } else {
        0
    }
}

/// The profile traversed by a path: the part of the first edge after the
/// start point, then each further edge.
fn extract_profile(p: &PartialPath, g: &Graph) -> (r: Profile)
    requires
        forall|e: usize| #[trigger]
            graph_edges(*g).contains_key(e) ==> crate::graph::edge_ok(graph_edges(*g)[e].2),
        p.first_edge_idx is Some ==> graph_edges(*g).contains_key(p.first_edge_idx->0),
        0 <= p.first_fraction <= FRAC_ONE,
        forall|j: int|
            0 <= j < p.path.len() ==> graph_edges(*g).contains_key((#[trigger] p.path@[j]).0)
                && 0 <= p.path@[j].1 <= FRAC_ONE,
        p.path.len() <= MAX_STEPS,
    ensures
        r.wf(),
        r.points.len() == 1 + lead(p.first_edge_idx) + p.path.len(),
        r.points@[0] == (0i64, 0i64),
        p.first_edge_idx is Some ==> r.points@[1].0 == first_part(
            *g,
            p.first_edge_idx,
            p.first_fraction,
        ).0 && r.points@[1].1 == first_part(*g, p.first_edge_idx, p.first_fraction).1,
        forall|j: int|
            0 <= j < p.path.len() ==> {
                let at = #[trigger] r.points@[j + 1 + lead(p.first_edge_idx)];
                &&& at.0 == first_part(*g, p.first_edge_idx, p.first_fraction).0 + steps_sum(
                    *g,
                    p.path@,
                    j + 1,
                ).0
                &&& at.1 == first_part(*g, p.first_edge_idx, p.first_fraction).1 + steps_sum(
                    *g,
                    p.path@,
                    j + 1,
                ).1
            },
{
    let mut points: Vec<(i64, i64)> = Vec::new();
    points.push((0i64, 0i64));
    let mut s: i64 = 0;
    let mut rel: i64 = 0;
    let mut used: usize = 0;
    if let Some(first) = p.first_edge_idx {
        let e = match graph_edge(g, first) {
            Some(e) => e,
            None => {
                assert(false);
                return Profile { points };
            },
        };
        let part_len = scale(FRAC_ONE - p.first_fraction, e.length);
        let part_climb = scale(FRAC_ONE - p.first_fraction, e.climb);
        s = s + part_len;
        rel = rel + part_climb;
        points.push((s, rel));
        used = 1;
    }
    let mut j: usize = 0;
    while j < p.path.len()
        invariant
            forall|e: usize| #[trigger]
                graph_edges(*g).contains_key(e) ==> crate::graph::edge_ok(graph_edges(*g)[e].2),
            forall|k: int|
                0 <= k < p.path.len() ==> graph_edges(*g).contains_key((#[trigger] p.path@[k]).0)
                    && 0 <= p.path@[k].1 <= FRAC_ONE,
            p.path.len() <= MAX_STEPS,
            0 <= j <= p.path.len(),
            used <= 1,
            points.len() == j + used + 1,
            points@[0] == (0i64, 0i64),
            0 <= s <= (j + used) * MAX_COORD,
            -(j + used) * MAX_COORD <= rel <= (j + used) * MAX_COORD,
            forall|a: int| 0 <= a < points.len() ==> crate::profile::point_ok(#[trigger] points@[a]),
            forall|a: int| 0 <= a < points.len() ==> (#[trigger] points@[a]).0 <= s,
            crate::profile::dist_sorted(points@),
            used == lead(p.first_edge_idx),
            p.first_edge_idx is Some ==> graph_edges(*g).contains_key(p.first_edge_idx->0),
            s == first_part(*g, p.first_edge_idx, p.first_fraction).0 + steps_sum(*g, p.path@, j as int).0,
            rel == first_part(*g, p.first_edge_idx, p.first_fraction).1 + steps_sum(*g, p.path@, j as int).1,
            p.first_edge_idx is Some ==> points@[1].0 == first_part(
                *g,
                p.first_edge_idx,
                p.first_fraction,
            ).0 && points@[1].1 == first_part(*g, p.first_edge_idx, p.first_fraction).1,
            forall|a: int|
                0 <= a < j ==> {
                    let at = #[trigger] points@[a + 1 + used];
                    &&& at.0 == first_part(*g, p.first_edge_idx, p.first_fraction).0 + steps_sum(
                        *g,
                        p.path@,
                        a + 1,
                    ).0
                    &&& at.1 == first_part(*g, p.first_edge_idx, p.first_fraction).1 + steps_sum(
                        *g,
                        p.path@,
                        a + 1,
                    ).1
                },
        decreases p.path.len() - j,
    {
        let (e_idx, frac) = p.path[j];
        assert(graph_edges(*g).contains_key(p.path@[j as int].0));
        let e = match graph_edge(g, e_idx) {
            Some(e) => e,
            None => {
                assert(false);
                return Profile { points };
            },
        };
        let this_len = scale(frac, e.length);
        let this_climb = scale(frac, e.climb);
        proof {
            assert((j + used + 1) * MAX_COORD <= (MAX_STEPS + 2) * MAX_COORD) by (nonlinear_arith)
                requires j + used + 1 <= MAX_STEPS + 2;
            assert((j + used) * MAX_COORD + MAX_COORD == (j + used + 1) * MAX_COORD)
                by (nonlinear_arith);
        }
        let ghost old_pts = points@;
        s = s + this_len;
        rel = rel + this_climb;
        points.push((s, rel));
        proof {
            assert(points@[j + 1 + used] == (s, rel));
            assert forall|a: int| 0 <= a < j + 1 implies {
                let at = #[trigger] points@[a + 1 + used];
                &&& at.0 == first_part(*g, p.first_edge_idx, p.first_fraction).0 + steps_sum(
                    *g,
                    p.path@,
                    a + 1,
                ).0
                &&& at.1 == first_part(*g, p.first_edge_idx, p.first_fraction).1 + steps_sum(
                    *g,
                    p.path@,
                    a + 1,
                ).1
            } by {
                if a < j {
                    assert(points@[a + 1 + used] == old_pts[a + 1 + used]);
                }
            }
        }
        j = j + 1;
        proof {
            assert forall|a: int, b: int| 0 <= a <= b < points.len() implies #[trigger] points@[a].0
                <= #[trigger] points@[b].0 by {
                if b == points.len() - 1 {
                    if a < b {
                        assert(old_pts[a].0 <= s - this_len);
                    }
                } else {
                    assert(crate::profile::dist_sorted(old_pts));
                    assert(old_pts[a].0 <= old_pts[b].0);
                }
            }
        }
    }
    Profile { points }
}

/// Position `i` ranks ahead of position `j`: a smaller key, or an equal key
/// and an earlier position.
pub open spec fn ranks_before(keys: Seq<i128>, i: int, j: int) -> bool {
    keys[i] < keys[j] || (keys[i] == keys[j] && i < j)
}

/// Position `j` is among those kept in `top`.
pub open spec fn kept(top: Seq<(i128, usize)>, j: int) -> bool {
    exists|b: int| 0 <= b < top.len() && (#[trigger] top[b]).1 == j
}

/// The first `BEAM_WIDTH` positions of a stable sort of the keys: as many
/// as there are keys up to `BEAM_WIDTH`, in ranking order, and every
/// position left out ranks after every position kept.
fn rank(keys: &Vec<i128>) -> (r: Vec<usize>)
    ensures
        r.len() == (if keys.len() < BEAM_WIDTH { keys.len() } else { BEAM_WIDTH }),
        forall|a: int| 0 <= a < r.len() ==> #[trigger] r@[a] < keys.len(),
        forall|a: int, b: int|
            0 <= a < b < r.len() ==> ranks_before(keys@, #[trigger] r@[a] as int, #[trigger] r@[b] as int),
        forall|j: int, a: int|
            0 <= j < keys.len() && !r@.contains(j as usize) && 0 <= a < r.len() ==> #[trigger] ranks_before(
                keys@,
                r@[a] as int,
                j,
            ),
{
    let mut top: Vec<(i128, usize)> = Vec::new();
    let mut i: usize = 0;
    while i < keys.len()
        invariant
            0 <= i <= keys.len(),
            top.len() == (if i < BEAM_WIDTH { i } else { BEAM_WIDTH }),
            forall|a: int|
                0 <= a < top.len() ==> (#[trigger] top@[a]).1 < i && top@[a].0 == keys@[top@[a].1 as int],
            forall|a: int, b: int|
                0 <= a < b < top.len() ==> ranks_before(
                    keys@,
                    (#[trigger] top@[a]).1 as int,
                    (#[trigger] top@[b]).1 as int,
                ),
            forall|j: int, a: int|
                0 <= j < i && !kept(top@, j) && 0
                    <= a < top.len() ==> #[trigger] ranks_before(keys@, top@[a].1 as int, j),
            i <= BEAM_WIDTH ==> forall|j: int| 0 <= j < i ==> #[trigger] kept(top@, j),
        decreases keys.len() - i,
    {
        let key = keys[i];
        let ghost old_top = top@;
        let mut pos: usize = top.len();
        while pos > 0 && top[pos - 1].0 > key
            invariant
                0 <= pos <= top.len(),
                top@ == old_top,
                forall|a: int| pos <= a < top.len() ==> (#[trigger] top@[a]).0 > key,
            decreases pos,
        {
            pos = pos - 1;
        }
        proof {
            assert forall|a: int| 0 <= a < pos implies ranks_before(keys@, (#[trigger] old_top[a]).1 as int, i as int) by {
                assert(ranks_before(keys@, old_top[a].1 as int, old_top[pos - 1].1 as int) || a == pos - 1);
            }
        }
        if pos < BEAM_WIDTH {
            top.insert(pos, (key, i));
            let ghost ins = top@;
            if top.len() > BEAM_WIDTH {
                top.pop();
            }
            proof {
                assert forall|a: int, b: int| 0 <= a < b < top.len() implies ranks_before(
                    keys@,
                    (#[trigger] top@[a]).1 as int,
                    (#[trigger] top@[b]).1 as int,
                ) by {
                    assert(top@[a] == ins[a] && top@[b] == ins[b]);
                    if b < pos {
                    } else if a < pos && b == pos {
                    } else if a < pos {
                        assert(ins[b] == old_top[b - 1]);
                        assert(ranks_before(keys@, old_top[a].1 as int, old_top[b - 1].1 as int));
                    } else if a == pos {
                        assert(ins[b] == old_top[b - 1]);
                        assert(old_top[b - 1].0 > key);
                    } else {
                        assert(ins[a] == old_top[a - 1] && ins[b] == old_top[b - 1]);
                    }
                }
                assert(top@[pos as int].1 == i);
                if i + 1 <= BEAM_WIDTH {
                    assert(ins.len() <= BEAM_WIDTH);
                    assert forall|j: int| 0 <= j < i + 1 implies #[trigger] kept(top@, j) by {
                        if j < i {
                            assert(kept(old_top, j));
                            let b = choose|b: int| 0 <= b < old_top.len() && #[trigger] old_top[b].1 == j;
                            if b < pos {
                                assert(top@[b].1 == j);
                            } else {
                                assert(top@[b + 1].1 == j);
                            }
                        } else {
                            assert(top@[pos as int].1 == j);
                        }
                    }
                }
                assert forall|j: int, a: int|
                    0 <= j < i + 1 && !kept(top@, j)
                        && 0 <= a < top.len() implies #[trigger] ranks_before(keys@, top@[a].1 as int, j) by {
                    assert(j != i);
                    if ins.len() > BEAM_WIDTH {
                        let x = ins[ins.len() - 1];
                        assert(top@[a] == ins[a]);
                        assert(ranks_before(keys@, top@[a].1 as int, x.1 as int)) by {
                            if a < pos {
                                if ins.len() - 1 != pos {
                                    assert(ins[ins.len() - 1] == old_top[ins.len() - 2]);
                                    assert(ranks_before(keys@, old_top[a].1 as int, old_top[ins.len() - 2].1 as int) || a == ins.len() - 2);
                                }
                            } else if a == pos {
                                assert(ins[ins.len() - 1] == old_top[ins.len() - 2]);
                                assert(old_top[ins.len() - 2].0 > key);
                            } else {
                                assert(ins[a] == old_top[a - 1]);
                                assert(ins[ins.len() - 1] == old_top[ins.len() - 2]);
                                assert(ranks_before(keys@, old_top[a - 1].1 as int, old_top[ins.len() - 2].1 as int) || a - 1 == ins.len() - 2);
                            }
                        }
                        if j != x.1 {
                            assert(!kept(old_top, j)) by {
                                if kept(old_top, j) {
                                    let b = choose|b: int| 0 <= b < old_top.len() && (#[trigger] old_top[b]).1 == j;
                                    if b < pos {
                                        assert(top@[b].1 == j);
                                    } else {
                                        assert(ins[b + 1] == old_top[b]);
                                        assert(b + 1 != ins.len() - 1);
                                        assert(top@[b + 1].1 == j);
                                    }
                                }
                            }
                            assert(x == old_top[ins.len() - 2]);
                            assert(ranks_before(keys@, old_top[ins.len() - 2].1 as int, j));
                        }
                    } else {
                        assert(old_top.len() < BEAM_WIDTH);
                        assert(i < BEAM_WIDTH);
                        assert(kept(old_top, j));
                        let b = choose|b: int| 0 <= b < old_top.len() && #[trigger] old_top[b].1 == j;
                        if b < pos {
                            assert(top@[b].1 == j);
                        } else {
                            assert(top@[b + 1].1 == j);
                        }
                    }
                }
            }
        } else {
            proof {
                assert forall|j: int, a: int|
                    0 <= j < i + 1 && !kept(top@, j)
                        && 0 <= a < top.len() implies #[trigger] ranks_before(keys@, top@[a].1 as int, j) by {
                    if j == i {
                        assert(ranks_before(keys@, old_top[a].1 as int, i as int));
                    }
                }
            }
        }
        i = i + 1;
    }
    let mut r: Vec<usize> = Vec::new();
    let mut j: usize = 0;
    while j < top.len()
        invariant
            0 <= j <= top.len(),
            r.len() == j,
            forall|a: int| 0 <= a < j ==> #[trigger] r@[a] == top@[a].1,
        decreases top.len() - j,
    {
        r.push(top[j].1);
        j = j + 1;
    }
    proof {
        assert forall|a: int, b: int| 0 <= a < b < r.len() implies ranks_before(
            keys@,
            #[trigger] r@[a] as int,
            #[trigger] r@[b] as int,
        ) by {
            assert(ranks_before(keys@, top@[a].1 as int, top@[b].1 as int));
        }
        assert forall|jj: int, a: int|
            0 <= jj < keys.len() && !r@.contains(jj as usize) && 0 <= a < r.len() implies #[trigger] ranks_before(
                keys@,
                r@[a] as int,
                jj,
            ) by {
            if kept(top@, jj) {
                let b = choose|b: int| 0 <= b < top.len() && (#[trigger] top@[b]).1 == jj;
                assert(r@[b] == jj as usize);
            }
            assert(r@[a] == top@[a].1);
        }
    }
    r
}

/// The ranking estimate of a path: its area extrapolated to the target
/// length, or the largest key for a path of no length.
fn estimate(p: &PartialPath, l: i64) -> (r: i128)
    requires
        0 <= p.cum_area <= MAX_DIFF * p.length,
        0 <= l <= MAX_TARGET_LEN,
        p.length <= MAX_DIST_BOUND,
    ensures
        p.length > 0 ==> r == (p.cum_area as int) / (p.length as int) * l,
        p.length <= 0 ==> r == i128::MAX,
{
    if p.length > 0 {
        proof {
            assert((p.cum_area as int) / (p.length as int) <= MAX_DIFF) by (nonlinear_arith)
                requires 0 <= p.cum_area <= MAX_DIFF * p.length, p.length > 0;
            assert(0 <= (p.cum_area as int) / (p.length as int)) by (nonlinear_arith)
                requires 0 <= p.cum_area, p.length > 0;
            assert(((p.cum_area as int) / (p.length as int)) * l <= MAX_DIFF * MAX_TARGET_LEN) by (nonlinear_arith)
                requires 0 <= (p.cum_area as int) / (p.length as int) <= MAX_DIFF, 0 <= l <= MAX_TARGET_LEN;
        }
        p.cum_area / (p.length as i128) * (l as i128)
    } else {
        i128::MAX
    }
}

/// Appends to `next` one child of `p` for each edge in `incident` (edges
/// at `p.node`, entered from their source when `outgoing`, else from their
/// target) that keeps the length within `l + 2 eps`.
fn extend_into(
    p: &PartialPath,
    data: &AppData,
    query: &Query,
    l: i64,
    eps: i64,
    step: usize,
    incident: &Vec<(usize, usize, usize)>,
    outgoing: bool,
    next: &mut Vec<PartialPath>,
)
    requires
        data.wf(),
        query.wf(),
        l == total_len(query.p.points@),
        0 < l,
        eps == tolerance(l as int),
        step < MAX_STEPS,
        path_ok(*p, *data, *query, l as int, step as int),
        forall|k: int|
            0 <= k < incident.len() ==> {
                let (e, s, t) = #[trigger] incident@[k];
                &&& graph_edges(data.graph.graph).contains_key(e)
                &&& graph_edges(data.graph.graph)[e].0 == s
                &&& graph_edges(data.graph.graph)[e].1 == t
                &&& (if outgoing { s == p.node } else { t == p.node })
            },
        forall|b: int|
            0 <= b < old(next).len() ==> path_ok(
                #[trigger] old(next)@[b],
                *data,
                *query,
                l as int,
                step + 1,
            ),
    ensures
        forall|b: int|
            0 <= b < final(next).len() ==> path_ok(
                #[trigger] final(next)@[b],
                *data,
                *query,
                l as int,
                step + 1,
            ),
{
    let g = &data.graph.graph;
    let mut k: usize = 0;
    while k < incident.len()
        invariant
            data.wf(),
            query.wf(),
            g == &data.graph.graph,
            l == total_len(query.p.points@),
            0 < l,
            eps == tolerance(l as int),
            step < MAX_STEPS,
            path_ok(*p, *data, *query, l as int, step as int),
            forall|k: int|
                0 <= k < incident.len() ==> {
                    let (e, s, t) = #[trigger] incident@[k];
                    &&& graph_edges(data.graph.graph).contains_key(e)
                    &&& graph_edges(data.graph.graph)[e].0 == s
                    &&& graph_edges(data.graph.graph)[e].1 == t
                    &&& (if outgoing { s == p.node } else { t == p.node })
                },
            0 <= k <= incident.len(),
            forall|b: int|
                0 <= b < next.len() ==> path_ok(
                    #[trigger] next@[b],
                    *data,
                    *query,
                    l as int,
                    step + 1,
                ),
        decreases incident.len() - k,
    {
        let (e_idx, src, dst) = incident[k];
        assert(graph_edges(*g).contains_key(incident@[k as int].0));
        let edge = match graph_edge(g, e_idx) {
            Some(x) => x,
            None => {
                assert(false);
                return;
            },
        };
        let other = if outgoing { dst } else { src };
        assert(crate::graph::edge_ok(edge));
        let new_len = p.length + edge.length;
        if new_len <= l + 2 * eps {
            let new_rel = p.rel_elev + edge.climb;
            proof {
                assert((p.path.len() + 1) * MAX_COORD + MAX_COORD == (p.path.len() + 2) * MAX_COORD)
                    by (nonlinear_arith);
                assert((p.path.len() + 2) * MAX_COORD <= (MAX_STEPS + 1) * MAX_COORD)
                    by (nonlinear_arith) requires p.path.len() + 2 <= MAX_STEPS + 1;
            }
            let t0 = query.p.interpolate(p.length);
            let t1 = query.p.interpolate(new_len);
            let add = integral_abs_diff(
                edge.length as i128,
                p.rel_elev as i128 - t0 as i128,
                new_rel as i128 - t1 as i128,
            );
            proof {
                assert(MAX_DIFF * p.length + MAX_DIFF * edge.length == MAX_DIFF * new_len)
                    by (nonlinear_arith) requires new_len == p.length + edge.length;
                assert(MAX_DIFF * new_len <= MAX_DIFF * 0x100_0000_0000) by (nonlinear_arith)
                    requires new_len <= 0x100_0000_0000;
            }
            let mut steps = copy_steps(&p.path);
            steps.push((e_idx, FRAC_ONE));
            let child = PartialPath {
                node: other,
                length: new_len,
                cum_area: p.cum_area + add,
                rel_elev: new_rel,
                path: steps,
                first_fraction: p.first_fraction,
                first_edge_idx: p.first_edge_idx,
            };
            proof {
                let ents = data.index.entries@;
                let kk = choose|kk: int|
                    0 <= kk < ents.len() && (#[trigger] ents[kk]).e_idx == p.first_edge_idx->0
                        && within(query.c, query.d, ents[kk]) && p.first_fraction == proj_fraction(
                        query.c,
                        ents[kk],
                    );
                assert(0 <= kk < ents.len() && ents[kk].e_idx == child.first_edge_idx->0);
                assert(handles(child.path@) =~= handles(p.path@).push(e_idx));
                assert(handles(child.path@).drop_last() =~= handles(p.path@));
                assert(child.length == seed_len(query.c, ents[kk]) + edges_len(
                    data.graph.graph,
                    handles(child.path@),
                ));
                assert(walk_end(
                    data.graph.graph,
                    graph_edges(data.graph.graph)[p.first_edge_idx->0].1,
                    handles(child.path@),
                ) == Some(other));
                assert forall|j: int| 0 <= j < child.path.len() implies graph_edges(
                    data.graph.graph,
                ).contains_key((#[trigger] child.path@[j]).0) && child.path@[j].1 == FRAC_ONE by {
                    if j < p.path.len() {
                        assert(child.path@[j] == p.path@[j]);
                    }
                }
            }
            next.push(child);
        }
        k = k + 1;
    }
}

/// Length of entry `se` left after the projection of `c` on it.
pub open spec fn seed_len(c: (i64, i64), se: SpatialEdge) -> int {
    tdiv((FRAC_ONE - proj_fraction(c, se)) * se.length, FRAC_ONE as int)
}

/// Some entry within the radius already leaves a length within tolerance of
/// the target's.
pub open spec fn seed_in_tolerance(data: AppData, q: Query) -> bool {
    let l = total_len(q.p.points@);
    exists|k: int|
        0 <= k < data.index.entries.len() && within(q.c, q.d, #[trigger] data.index.entries@[k])
            && -tolerance(l) <= seed_len(q.c, data.index.entries@[k]) - l <= tolerance(l)
}

/// What a returned route guarantees: at least one edge, fractions in
/// range (the end fraction is the whole last edge, or what is left of the
/// first edge when there is no other), a first edge from an index entry
/// within the radius whose start fraction is the center's projection on it,
/// further edges of the graph that walk on from the first edge's target
/// node (each entered at either end), and a length (rest of the first edge
/// plus the further edges) within tolerance of the target's.
pub open spec fn route_ok(route: Route, data: AppData, q: Query) -> bool {
    let l = total_len(q.p.points@);
    let ents = data.index.entries@;
    let g = data.graph.graph;
    &&& route.edge_ids.len() >= 1
    &&& 0 <= route.si <= FRAC_ONE
    &&& 0 <= route.ti <= FRAC_ONE
    &&& route.ti == (if route.edge_ids.len() > 1 {
        FRAC_ONE as int
    } else {
        FRAC_ONE - route.si
    })
    &&& exists|k: int, hs: Seq<usize>|
        {
            &&& 0 <= k < ents.len()
            &&& within(q.c, q.d, #[trigger] ents[k])
            &&& ents[k].id == route.edge_ids@[0]
            &&& route.si == proj_fraction(q.c, ents[k])
            &&& #[trigger] hs.len() + 1 == route.edge_ids.len()
            &&& walk_end(g, ents[k].v, hs) is Some
            &&& forall|j: int|
                0 <= j < hs.len() ==> graph_edges(g).contains_key(#[trigger] hs[j])
                    && graph_edges(g)[hs[j]].2.id == route.edge_ids@[j + 1]
            &&& -tolerance(l) <= seed_len(q.c, ents[k]) + edges_len(g, hs) - l <= tolerance(l)
        }
}

/// Scores `p` against the target if its length is within `eps` of `l`, and
/// keeps it as the best when it scores lower than the best so far.
fn consider(
    p: &PartialPath,
    data: &AppData,
    query: &Query,
    l: i64,
    eps: i64,
    best: &mut Option<PartialPath>,
    best_score: &mut i128,
)
    requires
        data.wf(),
        query.wf(),
        l == total_len(query.p.points@),
        0 < l,
        eps == tolerance(l as int),
        path_ok(*p, *data, *query, l as int, MAX_STEPS as int),
        (*old(best)) is Some ==> path_ok((*old(best))->0, *data, *query, l as int, MAX_STEPS as int)
            && -eps <= (*old(best))->0.length - l <= eps,
    ensures
        (*final(best)) is Some ==> path_ok((*final(best))->0, *data, *query, l as int, MAX_STEPS as int)
            && -eps <= (*final(best))->0.length - l <= eps,
        (*old(best)) is Some ==> (*final(best)) is Some,
        (p.length - l <= eps && l - p.length <= eps) ==> (*final(best)) is Some,
{
    if p.length - l <= eps && l - p.length <= eps {
        let profile = extract_profile(p, &data.graph.graph);
        let matcher = AreaMatcher { use_offset: true };
        let score = matcher.score(&profile, &query.p);
        let better = match best {
            Some(_) => score < *best_score,
            None => true,
        };
        if better {
            *best = Some(copy_path(p));
            *best_score = score;
        }
    }
}

/// Finds a route near `query.c` whose length is within tolerance of the
/// target's and whose elevation profile matches it best among the paths
/// the beam search keeps. Absent when the target has length 0, when no
/// index entry lies within the radius, or when no path reaches the
/// tolerance.
pub fn find_route(data: &AppData, query: &Query) -> (r: Option<Route>)
    requires
        data.wf(),
        query.wf(),
    ensures
        total_len(query.p.points@) == 0 ==> r is None,
        (forall|k: int|
            0 <= k < data.index.entries.len() ==> !within(
                query.c,
                query.d,
                #[trigger] data.index.entries@[k],
            )) ==> r is None,
        r matches Some(route) ==> route_ok(route, *data, *query),
        total_len(query.p.points@) > 0 && seed_in_tolerance(*data, *query) ==> r is Some,
{
    let l = query.p.total_length();
    if l == 0 {
        return None;
    }
    if query.d < 0 {
        return None;
    }
    let eps: i64 = if l / 20 > MIN_TOLERANCE { l / 20 } else { MIN_TOLERANCE };
    let g = &data.graph.graph;
    let ents = &data.index.entries;
    let cands = data.index.candidates(query.c.0, query.c.1, query.d);
    let mut beam: Vec<PartialPath> = Vec::new();
    let mut i: usize = 0;
    while i < cands.len()
        invariant
            data.wf(),
            query.wf(),
            g == &data.graph.graph,
            ents == &data.index.entries,
            l == total_len(query.p.points@),
            0 < l,
            query.d >= 0,
            eps == tolerance(l as int),
            0 <= i <= cands.len(),
            forall|a: int| 0 <= a < cands.len() ==> #[trigger] cands@[a] < ents.len(),
            forall|b: int| 0 <= b < beam.len() ==> path_ok(#[trigger] beam@[b], *data, *query, l as int, 0),
            beam.len() > 0 ==> exists|k: int|
                0 <= k < ents.len() && within(query.c, query.d, #[trigger] ents@[k]),
            forall|a: int|
                0 <= a < i && within(query.c, query.d, ents@[#[trigger] cands@[a] as int])
                    ==> exists|b: int|
                    0 <= b < beam.len() && (#[trigger] beam@[b]).length == seed_len(
                        query.c,
                        ents@[cands@[a] as int],
                    ),
            forall|k: int|
                0 <= k < ents.len() && crate::spatial::boxes_meet(
                    crate::spatial::envelope_item(#[trigger] ents@[k], k as usize),
                    (query.c.0 - query.d) as i64,
                    (query.c.1 - query.d) as i64,
                    (query.c.0 + query.d) as i64,
                    (query.c.1 + query.d) as i64,
                ) ==> cands@.contains(k as usize),
        decreases cands.len() - i,
    {
        let ghost old_beam = beam@;
        assert(cands@[i as int] < ents.len());
        let se = ents[cands[i]];
        proof {
            assert(crate::spatial::entry_matches(ents@[cands@[i as int] as int], *g));
            assert(graph_nodes(*g).contains_key(se.u));
            assert(graph_nodes(*g).contains_key(se.v));
            assert(graph_edges(*g).contains_key(se.e_idx));
            assert(crate::graph::edge_ok(graph_edges(*g)[se.e_idx].2));
        }
        let d2 = distance_squared(&query.c, &se);
        proof {
            assert(query.d * query.d <= MAX_POS * MAX_POS) by (nonlinear_arith)
                requires 0 <= query.d <= MAX_POS;
        }
        if d2 <= query.d as i128 * query.d as i128 {
            let (_proj, f) = project_point_to_segment(&query.c, &se);
            let part_len = scale(FRAC_ONE - f, se.length);
            let part_climb = scale(FRAC_ONE - f, se.climb);
            let t1 = query.p.interpolate(part_len);
            let area = integral_abs_diff(part_len as i128, 0, part_climb as i128 - t1 as i128);
            let seed = PartialPath {
                node: se.v,
                length: part_len,
                cum_area: area,
                rel_elev: part_climb,
                path: Vec::new(),
                first_fraction: f,
                first_edge_idx: Some(se.e_idx),
            };
            proof {
                let kk = cands@[i as int] as int;
                assert(handles(seed.path@) =~= Seq::<usize>::empty());
                assert(graph_edges(data.graph.graph)[se.e_idx].1 == se.v);
                assert(0 <= kk < ents.len() && ents@[kk].e_idx == seed.first_edge_idx->0 && within(
                    query.c,
                    query.d,
                    ents@[kk],
                ) && seed.length == seed_len(query.c, ents@[kk]) + edges_len(
                    data.graph.graph,
                    handles(seed.path@),
                ));
            }
            beam.push(seed);
            proof {
                assert(beam@[beam.len() - 1].length == seed_len(query.c, ents@[cands@[i as int] as int]));
            }
        }
        proof {
            assert forall|a: int|
                0 <= a < i + 1 && within(query.c, query.d, ents@[#[trigger] cands@[a] as int])
                    implies exists|b: int|
                    0 <= b < beam.len() && (#[trigger] beam@[b]).length == seed_len(
                        query.c,
                        ents@[cands@[a] as int],
                    ) by {
                if a < i {
                    let b = choose|b: int|
                        0 <= b < old_beam.len() && (#[trigger] old_beam[b]).length == seed_len(
                            query.c,
                            ents@[cands@[a] as int],
                        );
                    assert(beam@[b] == old_beam[b]);
                } else {
                    assert(beam@[beam.len() - 1].length == seed_len(query.c, ents@[cands@[i as int] as int]));
                }
            }
        }
        i = i + 1;
    }
    let ghost owed = total_len(query.p.points@) > 0 && seed_in_tolerance(*data, *query);
    proof {
        if owed {
            let k = choose|k: int|
                0 <= k < ents.len() && within(query.c, query.d, #[trigger] ents@[k])
                    && -tolerance(l as int) <= seed_len(query.c, ents@[k]) - l <= tolerance(l as int);
            assert(crate::spatial::entry_matches(ents@[k], *g));
            assert(graph_nodes(*g).contains_key(ents@[k].u));
            assert(graph_nodes(*g).contains_key(ents@[k].v));
            crate::spatial::lemma_within_meets_square(query.c, query.d, ents@[k], k as usize);
            assert(cands@.contains(k as usize));
            let a = choose|a: int| 0 <= a < cands.len() && cands@[a] == k as usize;
            assert(within(query.c, query.d, ents@[cands@[a] as int]));
        }
    }
    if beam.len() == 0 {
        return None;
    }
    proof {
        assert(MAX_TARGET_LEN <= 2 * MEAN_EDGE_LENGTH * 0x1_0000);
    }
    let max_steps = ((2 * l + MEAN_EDGE_LENGTH - 1) / MEAN_EDGE_LENGTH) as usize;
    let mut best: Option<PartialPath> = None;
    let mut best_score: i128 = 0;
    let mut step: usize = 0;
    while step < max_steps && beam.len() > 0
        invariant
            data.wf(),
            query.wf(),
            g == &data.graph.graph,
            l == total_len(query.p.points@),
            0 < l,
            eps == tolerance(l as int),
            max_steps <= MAX_STEPS - 1,
            0 <= step <= max_steps,
            forall|b: int|
                0 <= b < beam.len() ==> path_ok(#[trigger] beam@[b], *data, *query, l as int, step as int),
            best matches Some(b) ==> path_ok(b, *data, *query, l as int, MAX_STEPS as int) && -eps <= b.length - l <= eps,
            max_steps >= 1,
            owed && step == 0 ==> exists|b: int|
                0 <= b < beam.len() && -eps <= (#[trigger] beam@[b]).length - l <= eps,
            owed && step > 0 ==> best is Some,
        decreases max_steps - step,
    {
        let ghost was_some = best is Some;
        let mut next: Vec<PartialPath> = Vec::new();
        let mut j: usize = 0;
        while j < beam.len()
            invariant
                data.wf(),
                query.wf(),
                g == &data.graph.graph,
                l == total_len(query.p.points@),
                0 < l,
                eps == tolerance(l as int),
                max_steps <= MAX_STEPS - 1,
                0 <= step < max_steps,
                0 <= j <= beam.len(),
                forall|b: int|
                    0 <= b < beam.len() ==> path_ok(#[trigger] beam@[b], *data, *query, l as int, step as int),
                forall|b: int|
                    0 <= b < next.len() ==> path_ok(#[trigger] next@[b], *data, *query, l as int, step + 1),
                best matches Some(b) ==> path_ok(b, *data, *query, l as int, MAX_STEPS as int) && -eps <= b.length - l <= eps,
                was_some ==> best is Some,
                (exists|b: int| 0 <= b < j && -eps <= (#[trigger] beam@[b]).length - l <= eps)
                    ==> best is Some,
            decreases beam.len() - j,
        {
            let p = &beam[j];
            assert(path_ok(beam@[j as int], *data, *query, l as int, step as int));
            if p.length <= l + eps {
                consider(p, data, query, l, eps, &mut best, &mut best_score);
                let outs = graph_edges_at(g, p.node, true);
                extend_into(p, data, query, l, eps, step, &outs, true, &mut next);
                let ins = graph_edges_at(g, p.node, false);
                extend_into(p, data, query, l, eps, step, &ins, false, &mut next);
            }
            proof {
                if exists|b: int| 0 <= b < j + 1 && -eps <= (#[trigger] beam@[b]).length - l <= eps {
                    let b = choose|b: int| 0 <= b < j + 1 && -eps <= (#[trigger] beam@[b]).length - l <= eps;
                    if b < j {
                        assert(exists|b: int| 0 <= b < j && -eps <= (#[trigger] beam@[b]).length - l <= eps);
                    }
                }
            }
            j = j + 1;
        }
        let mut keys: Vec<i128> = Vec::new();
        let mut k: usize = 0;
        while k < next.len()
            invariant
                0 <= k <= next.len(),
                keys.len() == k,
                l == total_len(query.p.points@),
                0 < l <= MAX_TARGET_LEN,
                forall|b: int|
                    0 <= b < next.len() ==> path_ok(#[trigger] next@[b], *data, *query, l as int, step + 1),
            decreases next.len() - k,
        {
            assert(path_ok(next@[k as int], *data, *query, l as int, step + 1));
            keys.push(estimate(&next[k], l));
            k = k + 1;
        }
        let order = rank(&keys);
        let mut kept: Vec<PartialPath> = Vec::new();
        let mut m: usize = 0;
        while m < order.len()
            invariant
                0 <= m <= order.len(),
                keys.len() == next.len(),
                forall|a: int| 0 <= a < order.len() ==> #[trigger] order@[a] < keys.len(),
                forall|b: int|
                    0 <= b < next.len() ==> path_ok(#[trigger] next@[b], *data, *query, l as int, step + 1),
                forall|b: int|
                    0 <= b < kept.len() ==> path_ok(#[trigger] kept@[b], *data, *query, l as int, step + 1),
            decreases order.len() - m,
        {
            assert(order@[m as int] < keys.len());
            let c = copy_path(&next[order[m]]);
            assert(path_ok(next@[order@[m as int] as int], *data, *query, l as int, step + 1));
            kept.push(c);
            m = m + 1;
        }
        beam = kept;
        step = step + 1;
    }
    let mut j: usize = 0;
    while j < beam.len()
        invariant
            data.wf(),
            query.wf(),
            l == total_len(query.p.points@),
            0 < l,
            eps == tolerance(l as int),
            max_steps <= MAX_STEPS - 1,
            step <= max_steps,
            0 <= j <= beam.len(),
            forall|b: int|
                0 <= b < beam.len() ==> path_ok(#[trigger] beam@[b], *data, *query, l as int, step as int),
            best matches Some(b) ==> path_ok(b, *data, *query, l as int, MAX_STEPS as int) && -eps <= b.length - l <= eps,
            owed ==> best is Some,
        decreases beam.len() - j,
    {
        assert(path_ok(beam@[j as int], *data, *query, l as int, step as int));
        consider(&beam[j], data, query, l, eps, &mut best, &mut best_score);
        j = j + 1;
    }
    match best {
        None => None,
        Some(bp) => {
            proof {
                assert(eps == tolerance(l as int));
            }
            Some(route_of(&bp, data, query, l))
        },
    }
}

/// The route a path describes: the first edge's id, then the ids of the
/// edges after it; it starts at the first fraction and ends at the fraction
/// used of the last edge (what is left of the first edge when there is no
/// other).
fn route_of(bp: &PartialPath, data: &AppData, query: &Query, l: i64) -> (r: Route)
    requires
        data.wf(),
        l == total_len(query.p.points@),
        path_ok(*bp, *data, *query, l as int, MAX_STEPS as int),
        -tolerance(l as int) <= bp.length - l <= tolerance(l as int),
    ensures
        route_ok(r, *data, *query),
{
    let g = &data.graph.graph;
    let mut ids: Vec<u64> = Vec::new();
    let first = match bp.first_edge_idx {
        Some(e) => e,
        None => {
            assert(false);
            0
        },
    };
    let e0 = match graph_edge(g, first) {
        Some(e) => e,
        None => {
            assert(false);
            return Route { si: 0, ti: 0, edge_ids: ids };
        },
    };
    ids.push(e0.id);
    let ghost ents = data.index.entries@;
    let ghost kk = choose|kk: int|
        0 <= kk < ents.len() && (#[trigger] ents[kk]).e_idx == bp.first_edge_idx->0 && within(
            query.c,
            query.d,
            ents[kk],
        ) && bp.first_fraction == proj_fraction(query.c, ents[kk]) && bp.length == seed_len(
            query.c,
            ents[kk],
        ) + edges_len(data.graph.graph, handles(bp.path@));
    proof {
        assert(crate::spatial::entry_matches(ents[kk], *g));
        assert(ents[kk].id == ids@[0]);
    }
    let mut j: usize = 0;
    while j < bp.path.len()
        invariant
            path_ok(*bp, *data, *query, l as int, MAX_STEPS as int),
            g == &data.graph.graph,
            0 <= j <= bp.path.len(),
            ids.len() == j + 1,
            ids@[0] == e0.id,
            forall|a: int|
                0 <= a < j ==> #[trigger] ids@[a + 1] == graph_edges(*g)[bp.path@[a].0].2.id,
        decreases bp.path.len() - j,
    {
        let (e_idx, _frac) = bp.path[j];
        assert(graph_edges(*g).contains_key(bp.path@[j as int].0));
        let ed = match graph_edge(g, e_idx) {
            Some(x) => x,
            None => {
                assert(false);
                return Route { si: 0, ti: 0, edge_ids: ids };
            },
        };
        ids.push(ed.id);
        j = j + 1;
    }
    let n = bp.path.len();
    let ti = if n > 0 {
        assert(bp.path@[n - 1].1 == FRAC_ONE);
        bp.path[n - 1].1
    } else {
        FRAC_ONE - bp.first_fraction
    };
    let r = Route { si: bp.first_fraction, ti, edge_ids: ids };
    proof {
        let hs = handles(bp.path@);
        assert forall|j: int| 0 <= j < hs.len() implies graph_edges(*g).contains_key(#[trigger] hs[j])
            && graph_edges(*g)[hs[j]].2.id == r.edge_ids@[j + 1] by {
            assert(hs[j] == bp.path@[j].0);
            assert(graph_edges(*g).contains_key(bp.path@[j].0));
            assert(r.edge_ids@[j + 1] == graph_edges(*g)[bp.path@[j].0].2.id);
        }
        assert(hs.len() + 1 == r.edge_ids.len());
        assert(crate::spatial::entry_matches(ents[kk], *g));
        assert(walk_end(*g, ents[kk].v, hs) is Some);
        assert(within(query.c, query.d, ents[kk]));
    }
    r
}

} // verus!
