use vstd::prelude::*;
use petgraph::stable_graph::{EdgeIndex, NodeIndex, StableGraph};
use petgraph::{Directed, Direction};
use petgraph::visit::EdgeRef;

verus! {

/// Largest absolute elevation, edge length or climb.
pub const MAX_COORD: i64 = 0x8000_0000;

/// Largest absolute planar coordinate.
pub const MAX_POS: i64 = 0x100_0000_0000;

#[verifier::external_type_specification]
#[verifier::external_body]
#[verifier::reject_recursive_types(N)]
#[verifier::reject_recursive_types(E)]
#[verifier::reject_recursive_types(Ty)]
#[verifier::reject_recursive_types(Ix)]
pub struct ExStableGraph<N, E, Ty, Ix>(StableGraph<N, E, Ty, Ix>);

#[verifier::external_type_specification]
#[verifier::external_body]
pub struct ExDirected(Directed);

/// External node id to node handle, held in a `hashbrown::HashMap`.
#[verifier::external_body]
pub struct NodeIdTable {
    map: hashbrown::HashMap<u64, usize>,
}

/// What an id table holds.
pub uninterp spec fn id_table(t: NodeIdTable) -> Map<u64, usize>;

/// Relies on `hashbrown::HashMap::new`: an empty map.
#[verifier::external_body]
pub(crate) fn id_table_new() -> (r: NodeIdTable)
    ensures
        id_table(r).dom() == Set::<u64>::empty(),
{
    NodeIdTable { map: hashbrown::HashMap::new() }
}

/// Relies on `hashbrown::HashMap::insert`: the id now maps to the handle,
/// replacing any earlier entry.
#[verifier::external_body]
pub(crate) fn id_table_insert(t: &mut NodeIdTable, id: u64, h: usize)
    ensures
        id_table(*final(t)) == id_table(*old(t)).insert(id, h),
{
    t.map.insert(id, h);
}

/// Relies on `hashbrown::HashMap::get`: the handle of the id, if present.
#[verifier::external_body]
pub(crate) fn id_table_get(t: &NodeIdTable, id: u64) -> (r: Option<usize>)
    ensures
        r == (if id_table(*t).contains_key(id) {
            Some(id_table(*t)[id])
        } else {
            None
        }),
{
    t.map.get(&id).copied()
}

/// A road junction: planar position and absolute elevation.
#[derive(Clone, Copy, Debug, PartialEq, Eq)]
pub struct NodeData {
    pub x: i64,
    pub y: i64,
    pub elev: i64,
}

/// A road segment: length (non-negative), climb from its source to its
/// target, slope, and the stable external id.
#[derive(Clone, Copy, Debug, PartialEq, Eq)]
pub struct EdgeData {
    pub id: u64,
    pub length: i64,
    pub climb: i64,
    pub slope: i64,
}

pub type Graph = StableGraph<NodeData, EdgeData, Directed, usize>;

/// The nodes of a graph, by handle.
pub uninterp spec fn graph_nodes(g: Graph) -> Map<usize, NodeData>;

/// The edges of a graph, by handle: source, target, data.
pub uninterp spec fn graph_edges(g: Graph) -> Map<usize, (usize, usize, EdgeData)>;

/// Relies on `StableGraph::default` (`with_capacity(0, 0)`): an empty graph.
#[verifier::external_body]
pub(crate) fn graph_new() -> (r: Graph)
    ensures
        graph_nodes(r).dom() == Set::<usize>::empty(),
        graph_edges(r).dom() == Set::<usize>::empty(),
{
    StableGraph::default()
}

/// Relies on `StableGraph::add_node`: the node gets a handle not in use; with
/// `usize` handles it cannot run out of them.
#[verifier::external_body]
pub(crate) fn graph_add_node(g: &mut Graph, n: NodeData) -> (r: usize)
    ensures
        !graph_nodes(*old(g)).contains_key(r),
        graph_nodes(*final(g)) == graph_nodes(*old(g)).insert(r, n),
        graph_edges(*final(g)) == graph_edges(*old(g)),
{
    g.add_node(n).index()
}

/// Relies on `StableGraph::add_edge`: the edge gets a handle not in use. It
/// panics unless both endpoints exist.
#[verifier::external_body]
pub(crate) fn graph_add_edge(g: &mut Graph, a: usize, b: usize, e: EdgeData) -> (r: usize)
    requires
        graph_nodes(*old(g)).contains_key(a),
        graph_nodes(*old(g)).contains_key(b),
    ensures
        !graph_edges(*old(g)).contains_key(r),
        graph_edges(*final(g)) == graph_edges(*old(g)).insert(r, (a, b, e)),
        graph_nodes(*final(g)) == graph_nodes(*old(g)),
{
    g.add_edge(NodeIndex::new(a), NodeIndex::new(b), e).index()
}

/// Relies on `StableGraph::node_weight`: the node's data, if it exists.
#[verifier::external_body]
pub(crate) fn graph_node(g: &Graph, a: usize) -> (r: Option<NodeData>)
    ensures
        r == (if graph_nodes(*g).contains_key(a) {
            Some(graph_nodes(*g)[a])
        } else {
            None
        }),
{
    g.node_weight(NodeIndex::new(a)).copied()
}

/// Relies on `StableGraph::edge_weight`: the edge's data, if it exists.
#[verifier::external_body]
pub(crate) fn graph_edge(g: &Graph, e: usize) -> (r: Option<EdgeData>)
    ensures
        r == (if graph_edges(*g).contains_key(e) {
            Some(graph_edges(*g)[e].2)
        } else {
            None
        }),
{
    g.edge_weight(EdgeIndex::new(e)).copied()
}

/// Relies on `StableGraph::edge_endpoints`: source and target, if the edge
/// exists.
#[verifier::external_body]
pub(crate) fn graph_edge_endpoints(g: &Graph, e: usize) -> (r: Option<(usize, usize)>)
    ensures
        r == (if graph_edges(*g).contains_key(e) {
            Some((graph_edges(*g)[e].0, graph_edges(*g)[e].1))
        } else {
            None
        }),
{
    g.edge_endpoints(EdgeIndex::new(e)).map(|(a, b)| (a.index(), b.index()))
}

/// Relies on `StableGraph::edge_indices`: every edge handle, each once.
#[verifier::external_body]
pub(crate) fn graph_edge_handles(g: &Graph) -> (r: Vec<usize>)
    ensures
        r@.no_duplicates(),
        forall|e: usize| r@.contains(e) <==> graph_edges(*g).contains_key(e),
{
    g.edge_indices().map(|e| e.index()).collect()
}

/// Relies on `StableGraph::edges_directed`: the edges leaving `a`
/// (`outgoing`) or entering it, as (handle, source, target).
#[verifier::external_body]
pub(crate) fn graph_edges_at(g: &Graph, a: usize, outgoing: bool) -> (r: Vec<(usize, usize, usize)>)
    ensures
        forall|k: int|
            0 <= k < r.len() ==> {
                let (e, s, t) = #[trigger] r@[k];
                &&& graph_edges(*g).contains_key(e)
                &&& graph_edges(*g)[e].0 == s
                &&& graph_edges(*g)[e].1 == t
                &&& (if outgoing { s == a } else { t == a })
            },
        forall|e: usize|
            #![trigger graph_edges(*g)[e]]
            graph_edges(*g).contains_key(e) && (if outgoing {
                graph_edges(*g)[e].0 == a
            } else {
                graph_edges(*g)[e].1 == a
            }) ==> exists|k: int| 0 <= k < r.len() && (#[trigger] r@[k]).0 == e,
{
    let dir = if outgoing { Direction::Outgoing } else { Direction::Incoming };
    g.edges_directed(NodeIndex::new(a), dir).map(
        |er| (er.id().index(), er.source().index(), er.target().index()),
    ).collect()
}

} // verus!

verus! {

pub open spec fn coord_ok(v: i64) -> bool {
    -MAX_COORD <= v <= MAX_COORD
}

pub open spec fn pos_ok(v: i64) -> bool {
    -MAX_POS <= v <= MAX_POS
}

pub open spec fn node_ok(n: NodeData) -> bool {
    pos_ok(n.x) && pos_ok(n.y) && coord_ok(n.elev)
}

pub open spec fn edge_ok(e: EdgeData) -> bool {
    0 <= e.length <= MAX_COORD && coord_ok(e.climb)
}

/// Every edge joins two nodes of the graph, every id maps to a node, and all
/// values are in range.
pub open spec fn graph_wf(g: Graph, ids: Map<u64, usize>) -> bool {
    &&& forall|n: usize| #[trigger] graph_nodes(g).contains_key(n) ==> node_ok(graph_nodes(g)[n])
    &&& forall|e: usize| #[trigger]
        graph_edges(g).contains_key(e) ==> {
            &&& graph_nodes(g).contains_key(graph_edges(g)[e].0)
            &&& graph_nodes(g).contains_key(graph_edges(g)[e].1)
            &&& edge_ok(graph_edges(g)[e].2)
        }
    &&& forall|id: u64| #[trigger] ids.contains_key(id) ==> graph_nodes(g).contains_key(ids[id])
}

/// The road network: nodes and edges addressed by handles, and the table
/// from external node ids to handles filled while ingesting.
pub struct RoadGraph {
    pub graph: Graph,
    pub node_map: NodeIdTable,
}

impl RoadGraph {
    pub open spec fn wf(&self) -> bool {
        graph_wf(self.graph, id_table(self.node_map))
    }
}

/// One ingested record, its fields as found (`None` for a field that is
/// missing or not a number of the right kind).
#[derive(Clone, Copy, Debug)]
pub enum Record {
    Meta,
    Node { id: Option<u64>, x: Option<i64>, y: Option<i64>, elev: Option<i64> },
    Edge {
        id: Option<u64>,
        u: Option<u64>,
        v: Option<u64>,
        length: Option<i64>,
        climb: Option<i64>,
        slope: Option<i64>,
    },
    Unknown,
}

/// Why ingestion failed, with the position of the offending record.
#[derive(Clone, Copy, Debug, PartialEq, Eq, Structural)]
pub enum IngestionError {
    /// A required field is missing, mistyped or out of range.
    InvalidField { record: usize },
    /// An edge names a node id that no earlier record declared.
    UnknownNode { record: usize },
    /// The record type is none of meta, node, edge.
    UnknownRecordType { record: usize },
}

pub open spec fn opt_coord_ok(v: Option<i64>) -> bool {
    v is Some && coord_ok(v->0)
}

/// The node ids declared by the first `n` records.
pub open spec fn seen_ids(recs: Seq<Record>, n: int) -> Set<u64>
    decreases n,
{
    if n <= 0 {
        Set::empty()
    } else {
        let s = seen_ids(recs, n - 1);
        match recs[n - 1] {
            Record::Node { id: Some(id), .. } => s.insert(id),
            _ => s,
        }
    }
}

/// What is wrong with record `i`, given the node ids declared before it.
pub open spec fn record_fault(r: Record, i: int, seen: Set<u64>) -> Option<IngestionError> {
    match r {
        Record::Meta => None,
        Record::Node { id, x, y, elev } => {
            if id is Some && x is Some && pos_ok(x->0) && y is Some && pos_ok(y->0) && opt_coord_ok(
                elev,
            ) {
                None
            } else {
                Some(IngestionError::InvalidField { record: i as usize })
            }
        },
        Record::Edge { id, u, v, length, climb, slope } => {
            if !(id is Some && u is Some && v is Some && length is Some && 0 <= length->0
                <= MAX_COORD && opt_coord_ok(climb) && slope is Some) {
                Some(IngestionError::InvalidField { record: i as usize })
            } else if !seen.contains(u->0) || !seen.contains(v->0) {
                Some(IngestionError::UnknownNode { record: i as usize })
            } else {
                None
            }
        },
        Record::Unknown => Some(IngestionError::UnknownRecordType { record: i as usize }),
    }
}

/// The data of the last node record among the first `n` that declares
/// `id`.
pub open spec fn last_node(recs: Seq<Record>, n: int, id: u64) -> NodeData
    decreases n,
{
    if n <= 0 {
        NodeData { x: 0, y: 0, elev: 0 }
    } else {
        match recs[n - 1] {
            Record::Node { id: Some(j), x: Some(x), y: Some(y), elev: Some(elev) } => {
                if j == id {
                    NodeData { x, y, elev }
                } else {
                    last_node(recs, n - 1, id)
                }
            },
            _ => last_node(recs, n - 1, id),
        }
    }
}

/// The data an edge record carries (meaningful for a fault-free edge
/// record).
pub open spec fn edge_record_data(r: Record) -> (u64, u64, EdgeData) {
    match r {
        Record::Edge { id, u, v, length, climb, slope } => (
            u->0,
            v->0,
            EdgeData { id: id->0, length: length->0, climb: climb->0, slope: slope->0 },
        ),
        _ => (0, 0, EdgeData { id: 0, length: 0, climb: 0, slope: 0 }),
    }
}

/// Edge `w[i]` of `g` was made from edge record `i`: the record's data,
/// between the nodes that its two ids named at that point.
pub open spec fn edges_from_records(g: Graph, recs: Seq<Record>, w: Seq<usize>, n: int) -> bool {
    &&& w.len() == n
    &&& forall|i: int|
        0 <= i < n && #[trigger] recs[i] is Edge ==> {
            let (u, v, data) = edge_record_data(recs[i]);
            &&& graph_edges(g).contains_key(w[i])
            &&& graph_edges(g)[w[i]].2 == data
            &&& graph_nodes(g)[graph_edges(g)[w[i]].0] == last_node(recs, i, u)
            &&& graph_nodes(g)[graph_edges(g)[w[i]].1] == last_node(recs, i, v)
        }
    &&& forall|i: int, j: int|
        0 <= i < j < n && #[trigger] recs[i] is Edge && #[trigger] recs[j] is Edge ==> w[i] != w[j]
    &&& forall|e: usize| #[trigger]
        graph_edges(g).contains_key(e) ==> exists|i: int| 0 <= i < n && recs[i] is Edge && w[i] == e
}

/// A graph built from fault-free records: every declared node id maps to a
/// node with the data of its last declaration, and there is one edge per
/// edge record, made from it, and no other.
pub open spec fn built_from(g: RoadGraph, recs: Seq<Record>) -> bool {
    &&& g.wf()
    &&& forall|i: int| 0 <= i < recs.len() ==> fault_at(recs, i) is None
    &&& id_table(g.node_map).dom() == seen_ids(recs, recs.len() as int)
    &&& forall|id: u64| #[trigger]
        id_table(g.node_map).contains_key(id) ==> graph_nodes(g.graph)[id_table(g.node_map)[id]]
            == last_node(recs, recs.len() as int, id)
    &&& exists|w: Seq<usize>| edges_from_records(g.graph, recs, w, recs.len() as int)
}

pub open spec fn fault_at(recs: Seq<Record>, i: int) -> Option<IngestionError> {
    record_fault(recs[i], i, seen_ids(recs, i))
}

/// Builds the road graph from the records in order. It fails with the fault
/// of the first faulty record, and succeeds exactly when no record is
/// faulty; then the id table holds exactly the declared node ids, each
/// mapped to a node with the data of its last declaration, and the graph
/// has one edge per edge record, made from it, and no other.
#[verifier::spinoff_prover]
pub fn build_graph(records: &Vec<Record>) -> (r: Result<RoadGraph, IngestionError>)
    ensures
        match r {
            Ok(g) => built_from(g, records@),
            Err(e) => exists|i: int|
                0 <= i < records.len() && fault_at(records@, i) == Some(e) && forall|j: int|
                    0 <= j < i ==> fault_at(records@, j) is None,
        },
{
    let mut graph = graph_new();
    let mut node_map = id_table_new();
    let ghost mut w: Seq<usize> = Seq::empty();
    let mut i: usize = 0;
    while i < records.len()
        invariant
            0 <= i <= records.len(),
            graph_wf(graph, id_table(node_map)),
            id_table(node_map).dom() == seen_ids(records@, i as int),
            forall|j: int| 0 <= j < i ==> fault_at(records@, j) is None,
            forall|id: u64| #[trigger]
                id_table(node_map).contains_key(id) ==> graph_nodes(graph)[id_table(node_map)[id]]
                    == last_node(records@, i as int, id),
            edges_from_records(graph, records@, w, i as int),
        decreases records.len() - i,
    {
        let ghost old_graph = graph;
        match records[i] {
            Record::Meta => {},
            Record::Node { id, x, y, elev } => {
                match (id, x, y, elev) {
                    (Some(id), Some(x), Some(y), Some(elev)) => {
                        if !(-MAX_POS <= x && x <= MAX_POS && -MAX_POS <= y && y <= MAX_POS
                            && -MAX_COORD <= elev && elev <= MAX_COORD) {
                            assert(fault_at(records@, i as int) == Some(
                                IngestionError::InvalidField { record: i },
                            ));
                            return Err(IngestionError::InvalidField { record: i });
                        }
                        let ghost old_table = id_table(node_map);
                        let h = graph_add_node(&mut graph, NodeData { x, y, elev });
                        id_table_insert(&mut node_map, id, h);
                        assert(id_table(node_map).dom() =~= seen_ids(records@, i as int + 1));
                        assert forall|k: u64| #[trigger]
                            id_table(node_map).contains_key(k) implies graph_nodes(graph)[id_table(
                                node_map,
                            )[k]] == last_node(records@, i as int + 1, k) by {
                            if k != id {
                                assert(old_table.contains_key(k));
                                assert(id_table(node_map)[k] != h);
                            }
                        }
                    },
                    _ => {
                        assert(fault_at(records@, i as int) == Some(
                            IngestionError::InvalidField { record: i },
                        ));
                        return Err(IngestionError::InvalidField { record: i });
                    },
                }
            },
            Record::Edge { id, u, v, length, climb, slope } => {
                match (id, u, v, length, climb, slope) {
                    (Some(id), Some(u), Some(v), Some(length), Some(climb), Some(slope)) => {
                        if !(0 <= length && length <= MAX_COORD && -MAX_COORD <= climb && climb
                            <= MAX_COORD) {
                            assert(fault_at(records@, i as int) == Some(
                                IngestionError::InvalidField { record: i },
                            ));
                            return Err(IngestionError::InvalidField { record: i });
                        }
                        let hu = match id_table_get(&node_map, u) {
                            Some(h) => h,
                            None => {
                                assert(fault_at(records@, i as int) == Some(
                                    IngestionError::UnknownNode { record: i },
                                ));
                                return Err(IngestionError::UnknownNode { record: i });
                            },
                        };
                        let hv = match id_table_get(&node_map, v) {
                            Some(h) => h,
                            None => {
                                assert(fault_at(records@, i as int) == Some(
                                    IngestionError::UnknownNode { record: i },
                                ));
                                return Err(IngestionError::UnknownNode { record: i });
                            },
                        };
                        let e = graph_add_edge(
                            &mut graph,
                            hu,
                            hv,
                            EdgeData { id, length, climb, slope },
                        );
                        proof {
                            assert forall|k: u64| #[trigger]
                                id_table(node_map).contains_key(k) implies graph_nodes(graph)[id_table(
                                    node_map,
                                )[k]] == last_node(records@, i as int + 1, k) by {}
                            let w2 = w.push(e);
                            assert forall|a: int|
                                0 <= a < i + 1 && #[trigger] records@[a] is Edge implies {
                                let (u, v, data) = edge_record_data(records@[a]);
                                &&& graph_edges(graph).contains_key(w2[a])
                                &&& graph_edges(graph)[w2[a]].2 == data
                                &&& graph_nodes(graph)[graph_edges(graph)[w2[a]].0] == last_node(records@, a, u)
                                &&& graph_nodes(graph)[graph_edges(graph)[w2[a]].1] == last_node(records@, a, v)
                            } by {
                                if a < i {
                                    assert(graph_edges(old_graph).contains_key(w[a]));
                                    assert(w[a] != e);
                                }
                            }
                            assert forall|a: int, b: int|
                                0 <= a < b < i + 1 && #[trigger] records@[a] is Edge
                                    && #[trigger] records@[b] is Edge implies w2[a] != w2[b] by {
                                if b == i {
                                    assert(graph_edges(old_graph).contains_key(w[a]));
                                }
                            }
                            assert forall|x: usize| #[trigger]
                                graph_edges(graph).contains_key(x) implies exists|a: int|
                                0 <= a < i + 1 && records@[a] is Edge && w2[a] == x by {
                                if x == e {
                                    assert(records@[i as int] is Edge && w2[i as int] == x);
                                } else {
                                    assert(graph_edges(old_graph).contains_key(x));
                                    let a = choose|a: int| 0 <= a < i && records@[a] is Edge && w[a] == x;
                                    assert(w2[a] == x);
                                }
                            }
                            w = w2;
                        }
                    },
                    _ => {
                        assert(fault_at(records@, i as int) == Some(
                            IngestionError::InvalidField { record: i },
                        ));
                        return Err(IngestionError::InvalidField { record: i });
                    },
                }
            },
            Record::Unknown => {
                assert(fault_at(records@, i as int) == Some(
                    IngestionError::UnknownRecordType { record: i },
                ));
                return Err(IngestionError::UnknownRecordType { record: i });
            },
        }
        proof {
            if !(records@[i as int] is Edge) {
                let w2 = w.push(0usize);
                assert forall|a: int|
                    0 <= a < i + 1 && #[trigger] records@[a] is Edge implies {
                    let (u, v, data) = edge_record_data(records@[a]);
                    &&& graph_edges(graph).contains_key(w2[a])
                    &&& graph_edges(graph)[w2[a]].2 == data
                    &&& graph_nodes(graph)[graph_edges(graph)[w2[a]].0] == last_node(records@, a, u)
                    &&& graph_nodes(graph)[graph_edges(graph)[w2[a]].1] == last_node(records@, a, v)
                } by {
                    assert(graph_edges(old_graph).contains_key(w[a]));
                    assert(graph_nodes(old_graph).contains_key(graph_edges(old_graph)[w[a]].0));
                    assert(graph_nodes(old_graph).contains_key(graph_edges(old_graph)[w[a]].1));
                }
                assert forall|x: usize| #[trigger]
                    graph_edges(graph).contains_key(x) implies exists|a: int|
                    0 <= a < i + 1 && records@[a] is Edge && w2[a] == x by {
                    let a = choose|a: int| 0 <= a < i && records@[a] is Edge && w[a] == x;
                    assert(w2[a] == x);
                }
                w = w2;
            }
        }
        i = i + 1;
    }
    let g = RoadGraph { graph, node_map };
    assert(edges_from_records(g.graph, records@, w, records.len() as int));
    assert(g.wf());
    assert(built_from(g, records@));
    Ok(g)
}

} // verus!
