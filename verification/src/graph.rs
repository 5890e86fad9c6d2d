//! The routing graph built from a layout: nodes are addressed by index, every edge carries
//! its endpoints' indices and its Euclidean length, and every node lists its outgoing edges.
//!
//! Edge weights are fixed-point integers in units of `1 / (COORDINATE_SCALE * WEIGHT_SCALE)`
//! of layout length: the weight of an edge is the floor of the exact Euclidean distance
//! between its endpoints in those units.
use vstd::prelude::*;

use crate::lookup::{self, build_lookup, is_lookup_table};
use crate::models::{
    is_routable, last_index_of, lemma_last_index_of, node_ids,
    Layout, Node, NodeId, Position,
};

verus! {

/// Weight units per coordinate unit.
pub const WEIGHT_SCALE: u128 = 1_000_000;

/// The square of [`WEIGHT_SCALE`].
pub const WEIGHT_SCALE_SQUARED: u128 = 1_000_000_000_000;

/// Every edge weight is strictly below this bound (2^62).
pub const WEIGHT_LIMIT: u64 = 0x4000_0000_0000_0000;

pub type NodeIndex = usize;

pub type EdgeIndex = usize;

/// The squared Euclidean distance between `a` and `b`, in squared weight units.
pub open spec fn scaled_square_distance(a: Position, b: Position) -> int {
    let dx = b.x - a.x;
    let dy = b.y - a.y;
    (dx * dx + dy * dy) * WEIGHT_SCALE_SQUARED
}

/// `r` is the floor of the square root of `n`.
pub open spec fn is_floor_sqrt(n: int, r: int) -> bool {
    0 <= r && r * r <= n < (r + 1) * (r + 1)
}

/// The floor of the square root of `n`.
pub fn isqrt(n: u128) -> (r: u64)
    ensures
        is_floor_sqrt(n as int, r as int),
{
    let mut lo: u128 = 0;
    let mut hi: u128 = 0x1_0000_0000_0000_0000u128;
    assert(n < hi * hi) by (nonlinear_arith)
        requires
            hi == 0x1_0000_0000_0000_0000u128,
    ;
    while hi - lo > 1
        invariant
            lo < hi <= 0x1_0000_0000_0000_0000u128,
            lo * lo <= n,
            n < hi * hi,
        decreases hi - lo,
    {
        let mid = lo + (hi - lo) / 2;
        assert(mid * mid <= 0xffff_ffff_ffff_fffe_0000_0000_0000_0001u128) by (nonlinear_arith)
            requires
                mid <= 0xffff_ffff_ffff_ffffu128,
        ;
        if mid * mid <= n {
            lo = mid;
        } else {
            hi = mid;
        }
    }
    assert(hi == lo + 1);
    lo as u64
}

/// The Euclidean length of the segment from `a` to `b`, rounded down to a whole weight unit.
pub fn euclidean_weight(a: &Position, b: &Position) -> (weight: u64)
    requires
        a.in_range(),
        b.in_range(),
    ensures
        is_floor_sqrt(scaled_square_distance(*a, *b), weight as int),
        weight < WEIGHT_LIMIT,
{
    let dx: i128 = b.x as i128 - a.x as i128;
    let dy: i128 = b.y as i128 - a.y as i128;
    assert(0 <= dx * dx <= 4_000_000_000_000_000_000_000_000i128) by (nonlinear_arith)
        requires
            -2_000_000_000_000i128 <= dx <= 2_000_000_000_000i128,
    ;
    assert(0 <= dy * dy <= 4_000_000_000_000_000_000_000_000i128) by (nonlinear_arith)
        requires
            -2_000_000_000_000i128 <= dy <= 2_000_000_000_000i128,
    ;
    let square: u128 = (dx * dx + dy * dy) as u128;
    assert(square <= 8_000_000_000_000_000_000_000_000u128);
    let scaled: u128 = square * WEIGHT_SCALE_SQUARED;
    let weight = isqrt(scaled);
    assert(weight < WEIGHT_LIMIT) by (nonlinear_arith)
        requires
            weight * weight <= scaled,
            scaled <= 8_000_000_000_000_000_000_000_000_000_000_000_000u128,
    ;
    weight
}

/// An edge of the routing graph.
#[derive(Debug)]
pub struct GraphEdge {
    pub id: String,
    pub source: NodeIndex,
    pub sink: NodeIndex,
    pub weight: u64,
}

/// The mathematical content of a [`GraphEdge`].
pub struct EdgeView {
    pub id: Seq<char>,
    pub source: int,
    pub sink: int,
    pub weight: int,
}

impl View for GraphEdge {
    type V = EdgeView;

    open spec fn view(&self) -> EdgeView {
        EdgeView {
            id: self.id@,
            source: self.source as int,
            sink: self.sink as int,
            weight: self.weight as int,
        }
    }
}

/// The elements of `s` as mathematical integers.
pub open spec fn as_ints(s: Seq<usize>) -> Seq<int> {
    s.map_values(|x: usize| x as int)
}

/// The indices `e < k`, in increasing order, of the edges that leave `v`.
pub open spec fn outgoing_prefix(edges: Seq<EdgeView>, v: int, k: int) -> Seq<int>
    decreases k,
{
    if k <= 0 {
        seq![]
    } else if edges[k - 1].source == v {
        outgoing_prefix(edges, v, k - 1).push(k - 1)
    } else {
        outgoing_prefix(edges, v, k - 1)
    }
}

pub proof fn lemma_outgoing_prefix(edges: Seq<EdgeView>, v: int, k: int)
    requires
        0 <= k <= edges.len(),
    ensures
        forall|j: int|
            0 <= j < outgoing_prefix(edges, v, k).len() ==> 0 <= #[trigger] outgoing_prefix(
                edges,
                v,
                k,
            )[j] < k && edges[outgoing_prefix(edges, v, k)[j]].source == v,
        forall|e: int|
            0 <= e < k && edges[e].source == v ==> #[trigger] outgoing_prefix(edges, v, k).contains(
                e,
            ),
    decreases k,
{
    if k > 0 {
        lemma_outgoing_prefix(edges, v, k - 1);
        let p = outgoing_prefix(edges, v, k - 1);
        if edges[k - 1].source == v {
            assert(outgoing_prefix(edges, v, k) == p.push(k - 1));
            assert(p.push(k - 1)[p.len() as int] == k - 1);
            assert forall|e: int| 0 <= e < k && edges[e].source == v implies outgoing_prefix(
                edges,
                v,
                k,
            ).contains(e) by {
                if e < k - 1 {
                    assert(p.contains(e));
                    let j = choose|j: int| 0 <= j < p.len() && p[j] == e;
                    assert(p.push(k - 1)[j] == e);
                } else {
                    assert(p.push(k - 1)[p.len() as int] == e);
                }
            }
        } else {
            assert forall|e: int| 0 <= e < k && edges[e].source == v implies #[trigger] outgoing_prefix(
                edges,
                v,
                k,
            ).contains(e) by {
                assert(p.contains(e));
            }
        }
    }
}

/// The outgoing edges of a node are listed in strictly increasing order.
pub proof fn lemma_outgoing_prefix_increasing(edges: Seq<EdgeView>, v: int, k: int)
    requires
        0 <= k <= edges.len(),
    ensures
        forall|i: int, j: int|
            0 <= i < j < outgoing_prefix(edges, v, k).len() ==> #[trigger] outgoing_prefix(
                edges,
                v,
                k,
            )[i] < #[trigger] outgoing_prefix(edges, v, k)[j],
    decreases k,
{
    if k > 0 {
        lemma_outgoing_prefix_increasing(edges, v, k - 1);
        lemma_outgoing_prefix(edges, v, k - 1);
        let p = outgoing_prefix(edges, v, k - 1);
        if edges[k - 1].source == v {
            let q = p.push(k - 1);
            assert(outgoing_prefix(edges, v, k) == q);
            assert forall|i: int, j: int| 0 <= i < j < q.len() implies q[i] < q[j] by {
                assert(q[i] == p[i]);
                if j < p.len() {
                    assert(q[j] == p[j]);
                }
            }
        }
    }
}

/// The mathematical content of a [`Graph`]: node ids by index, edges by index, and for each
/// node the indices of its outgoing edges.
pub struct GraphView {
    pub node_ids: Seq<Seq<char>>,
    pub edges: Seq<EdgeView>,
    pub adjacency: Seq<Seq<int>>,
}

impl GraphView {
    /// Endpoints are node indices, each the one its node id resolves to, weights lie below
    /// [`WEIGHT_LIMIT`], and each node lists exactly its outgoing edges, in increasing order.
    pub open spec fn wf(self) -> bool {
        &&& forall|e: int|
            #![trigger self.edges[e]]
            0 <= e < self.edges.len() ==> {
                &&& 0 <= self.edges[e].source < self.node_ids.len()
                &&& 0 <= self.edges[e].sink < self.node_ids.len()
                &&& 0 <= self.edges[e].weight < WEIGHT_LIMIT
                &&& last_index_of(self.node_ids, self.node_ids[self.edges[e].source])
                    == self.edges[e].source
                &&& last_index_of(self.node_ids, self.node_ids[self.edges[e].sink])
                    == self.edges[e].sink
            }
        &&& self.adjacency.len() == self.node_ids.len()
        &&& forall|v: int|
            0 <= v < self.node_ids.len() ==> #[trigger] self.adjacency[v] == outgoing_prefix(
                self.edges,
                v,
                self.edges.len() as int,
            )
    }

    /// The index that node id `id` resolves to: the last node with that id, or `-1`.
    pub open spec fn index_of(self, id: Seq<char>) -> int {
        last_index_of(self.node_ids, id)
    }
}

/// In a well-formed graph, the list of node `v` holds exactly the edges that leave `v`:
/// every listed edge starts at `v`, and every edge is listed at its source.
pub proof fn lemma_adjacency_lists_outgoing_edges(g: GraphView)
    requires
        g.wf(),
    ensures
        forall|v: int, k: int|
            0 <= v < g.node_ids.len() && 0 <= k < g.adjacency[v].len() ==> 0 <= #[trigger] g.adjacency[v][k]
                < g.edges.len() && g.edges[g.adjacency[v][k]].source == v,
        forall|e: int| 0 <= e < g.edges.len() ==> #[trigger] g.adjacency[g.edges[e].source].contains(e),
{
    assert forall|v: int, k: int|
        0 <= v < g.node_ids.len() && 0 <= k < g.adjacency[v].len() implies 0 <= #[trigger] g.adjacency[v][k]
            < g.edges.len() && g.edges[g.adjacency[v][k]].source == v by {
        lemma_outgoing_prefix(g.edges, v, g.edges.len() as int);
    }
    assert forall|e: int| 0 <= e < g.edges.len() implies #[trigger] g.adjacency[g.edges[e].source].contains(e) by {
        lemma_outgoing_prefix(g.edges, g.edges[e].source, g.edges.len() as int);
    }
}

/// The routing graph of a layout whose edges name existing nodes.
#[derive(Debug)]
pub struct Graph {
    nodes: Vec<Node>,
    edges: Vec<GraphEdge>,
    adjacency: Vec<Vec<EdgeIndex>>,
    /// Node ids with the index of their (last) node, sorted by id.
    lookup: Vec<(String, NodeIndex)>,
}

impl View for Graph {
    type V = GraphView;

    closed spec fn view(&self) -> GraphView {
        GraphView {
            node_ids: node_ids(self.nodes@),
            edges: self.edges@.map_values(|e: GraphEdge| e@),
            adjacency: self.adjacency@.map_values(|a: Vec<EdgeIndex>| as_ints(a@)),
        }
    }
}

/// What `Graph::from_layout` builds from `layout`: the layout's nodes in order, and for each
/// layout edge, in order, an edge between the nodes its ids resolve to, weighted by its length.
pub open spec fn graph_of_layout(layout: &Layout, g: GraphView) -> bool {
    let ids = node_ids(layout.nodes@);
    &&& g.wf()
    &&& g.node_ids == ids
    &&& g.edges.len() == layout.edges@.len()
    &&& forall|e: int|
        #![trigger g.edges[e]]
        0 <= e < layout.edges@.len() ==> {
            &&& g.edges[e].id == layout.edges@[e].id@
            &&& g.edges[e].source == last_index_of(ids, layout.edges@[e].source@)
            &&& g.edges[e].sink == last_index_of(ids, layout.edges@[e].sink@)
            &&& is_floor_sqrt(
                scaled_square_distance(
                    layout.nodes@[g.edges[e].source].position,
                    layout.nodes@[g.edges[e].sink].position,
                ),
                g.edges[e].weight,
            )
        }
}

impl Graph {
    #[verifier::type_invariant]
    spec fn inv(self) -> bool {
        &&& self@.wf()
        &&& is_lookup_table(self.lookup@, node_ids(self.nodes@))
    }

    /// Builds the routing graph of a layout whose edges all name existing nodes and whose
    /// positions are all finite.
    pub fn from_layout(layout: &Layout) -> (graph: Graph)
        requires
            is_routable(layout),
        ensures
            graph_of_layout(layout, graph@),
    {
        let ghost ids = node_ids(layout.nodes@);
        let n = layout.nodes.len();
        let mut nodes: Vec<Node> = Vec::new();
        let mut adjacency: Vec<Vec<EdgeIndex>> = Vec::new();
        for i in 0..n
            invariant
                n == layout.nodes@.len(),
                ids == node_ids(layout.nodes@),
                nodes@ == layout.nodes@.subrange(0, i as int),
                adjacency@.len() == i,
                forall|v: int| 0 <= v < i ==> (#[trigger] adjacency@[v])@.len() == 0,
        {
            let node = layout.nodes[i].duplicate();
            nodes.push(node);
            adjacency.push(Vec::new());
            assert(nodes@ =~= layout.nodes@.subrange(0, i + 1));
        }
        assert(ids.take(n as int) =~= ids);
        assert(nodes@ =~= layout.nodes@);
        assert(node_ids(nodes@) =~= ids);
        let lookup = build_lookup(&nodes);
        let m = layout.edges.len();
        let mut edges: Vec<GraphEdge> = Vec::new();
        for j in 0..m
            invariant
                n == layout.nodes@.len(),
                m == layout.edges@.len(),
                is_routable(layout),
                ids == node_ids(layout.nodes@),
                nodes@ == layout.nodes@,
                is_lookup_table(lookup@, ids),
                edges@.len() == j,
                forall|e: int|
                    #![trigger edges@[e]]
                    0 <= e < j ==> {
                        &&& edges@[e]@.id == layout.edges@[e].id@
                        &&& edges@[e]@.source == last_index_of(ids, layout.edges@[e].source@)
                        &&& edges@[e]@.sink == last_index_of(ids, layout.edges@[e].sink@)
                        &&& 0 <= edges@[e]@.source < n
                        &&& 0 <= edges@[e]@.sink < n
                        &&& last_index_of(ids, ids[edges@[e]@.source]) == edges@[e]@.source
                        &&& last_index_of(ids, ids[edges@[e]@.sink]) == edges@[e]@.sink
                        &&& edges@[e].weight < WEIGHT_LIMIT
                        &&& is_floor_sqrt(
                            scaled_square_distance(
                                layout.nodes@[edges@[e]@.source].position,
                                layout.nodes@[edges@[e]@.sink].position,
                            ),
                            edges@[e]@.weight,
                        )
                    },
                adjacency@.len() == n,
                forall|v: int|
                    #![trigger adjacency@[v]]
                    0 <= v < n ==> as_ints(adjacency@[v]@)
                        == outgoing_prefix(
                        edges@.map_values(|e: GraphEdge| e@),
                        v,
                        j as int,
                    ),
        {
            let edge = &layout.edges[j];
            proof {
                assert(ids.contains(layout.edges@[j as int].source@));
                assert(ids.contains(layout.edges@[j as int].sink@));
                lemma_last_index_of(ids, edge.source@);
                lemma_last_index_of(ids, edge.sink@);
            }
            let source: NodeIndex = match lookup::lookup(&lookup, edge.source.as_str(), Ghost(ids)) {
                Some(index) => index,
                None => {
                    assert(false);
                    0
                },
            };
            let sink: NodeIndex = match lookup::lookup(&lookup, edge.sink.as_str(), Ghost(ids)) {
                Some(index) => index,
                None => {
                    assert(false);
                    0
                },
            };
            assert(layout.nodes@[source as int].position.in_range());
            assert(layout.nodes@[sink as int].position.in_range());
            let weight = euclidean_weight(&nodes[source].position, &nodes[sink].position);
            let ghost old_edges = edges@.map_values(|e: GraphEdge| e@);
            let ghost old_adjacency = adjacency@;
            edges.push(GraphEdge { id: edge.id.clone(), source, sink, weight });
            adjacency[source].push(j);
            proof {
                let views = edges@.map_values(|e: GraphEdge| e@);
                assert(views =~= old_edges.push(edges@[j as int]@));
                assert forall|e: int| 0 <= e < j implies views[e] == old_edges[e] by {}
                assert forall|v: int| 0 <= v < n implies #[trigger] as_ints(adjacency@[v]@) == outgoing_prefix(views, v, j + 1) by {
                    assert(outgoing_prefix(views, v, j as int) == outgoing_prefix(
                        old_edges,
                        v,
                        j as int,
                    )) by {
                        lemma_outgoing_prefix_agree(views, old_edges, v, j as int);
                    }
                    if v == source {
                        assert(adjacency@[v]@ == old_adjacency[v]@.push(j));
                        assert(as_ints(adjacency@[v]@)
                            =~= as_ints(old_adjacency[v]@).push(
                            j as int,
                        ));
                    } else {
                        assert(adjacency@[v] == old_adjacency[v]);
                    }
                }
            }
        }
        let graph = Graph { nodes, edges, adjacency, lookup };
        proof {
            let g = graph@;
            assert(g.node_ids == ids);
            assert forall|v: int| 0 <= v < g.node_ids.len() implies #[trigger] g.adjacency[v]
                == outgoing_prefix(g.edges, v, g.edges.len() as int) by {
                assert(g.adjacency[v] == as_ints(graph.adjacency@[v]@));
            }
            assert forall|e: int| 0 <= e < g.edges.len() implies #[trigger] g.edges[e]
                == graph.edges@[e]@ by {}
        }
        graph
    }

    /// The index of the node with id `id`, if any: the last such node.
    pub fn node_index(&self, id: &str) -> (index: Option<NodeIndex>)
        ensures
            self@.wf(),
            match index {
                Some(i) => i as int == self@.index_of(id@) && 0 <= i < self@.node_ids.len(),
                None => !self@.node_ids.contains(id@),
            },
    {
        proof {
            use_type_invariant(self);
            lemma_last_index_of(self@.node_ids, id@);
        }
        lookup::lookup(&self.lookup, id, Ghost(self@.node_ids))
    }

    /// The number of nodes.
    pub fn node_count(&self) -> (count: usize)
        ensures
            self@.wf(),
            count == self@.node_ids.len(),
    {
        proof {
            use_type_invariant(self);
        }
        self.nodes.len()
    }

    /// The id of node `index`.
    pub fn node_id(&self, index: NodeIndex) -> (id: &NodeId)
        requires
            index < self@.node_ids.len(),
        ensures
            id@ == self@.node_ids[index as int],
    {
        &self.nodes[index].id
    }

    /// The indices of the edges leaving node `index`.
    pub fn outgoing_edges(&self, index: NodeIndex) -> (out: &[EdgeIndex])
        requires
            index < self@.node_ids.len(),
        ensures
            self@.wf(),
            as_ints(out@) == self@.adjacency[index as int],
    {
        proof {
            use_type_invariant(self);
        }
        self.adjacency[index].as_slice()
    }

    /// Edge `index`.
    pub fn edge(&self, index: EdgeIndex) -> (edge: &GraphEdge)
        requires
            index < self@.edges.len(),
        ensures
            edge@ == self@.edges[index as int],
    {
        &self.edges[index]
    }
}

proof fn lemma_outgoing_prefix_agree(a: Seq<EdgeView>, b: Seq<EdgeView>, v: int, k: int)
    requires
        0 <= k <= a.len(),
        k <= b.len(),
        forall|e: int| 0 <= e < k ==> a[e] == b[e],
    ensures
        outgoing_prefix(a, v, k) == outgoing_prefix(b, v, k),
    decreases k,
{
    if k > 0 {
        lemma_outgoing_prefix_agree(a, b, v, k - 1);
    }
}

} // verus!
