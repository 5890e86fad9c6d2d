//! Shortest-route planning over the directed routing graph (Dijkstra's algorithm).
use vstd::prelude::*;

use crate::graph::{as_ints, lemma_outgoing_prefix, lemma_outgoing_prefix_increasing, EdgeIndex, Graph, GraphView, NodeIndex, WEIGHT_LIMIT};
use crate::connectivity::{count_false, filled, lemma_count_false_all, lemma_count_false_update};
use crate::models::{lemma_last_index_of, EdgeId, NodeId};

verus! {

/// A planned route.
#[derive(Debug, PartialEq)]
pub struct RouteResult {
    /// Node ids visited, in travel order (includes start and goal).
    pub nodes: Vec<NodeId>,
    /// Edge ids traversed, in travel order. `edges.len() == nodes.len() - 1`.
    pub edges: Vec<EdgeId>,
    /// Total travel distance along the route, in weight units.
    pub distance: u128,
}

/// Why no route was planned.
#[derive(Debug)]
pub enum RouteError {
    /// The start node does not exist.
    UnknownStart(String),
    /// The goal node does not exist.
    UnknownGoal(String),
    /// No directed route leads from the start (first) to the goal (second).
    NoRoute(String, String),
}

/// The machine-readable code of each kind of routing error.
pub open spec fn route_error_code(err: RouteError) -> Seq<char> {
    match err {
        RouteError::UnknownStart(_) => "unknown_start_node"@,
        RouteError::UnknownGoal(_) => "unknown_goal_node"@,
        RouteError::NoRoute(_, _) => "no_route"@,
    }
}

/// The human-readable description of a routing error.
pub open spec fn route_error_message(err: RouteError) -> Seq<char> {
    match err {
        RouteError::UnknownStart(s) => "start node '"@ + s@ + "' does not exist in the current layout"@,
        RouteError::UnknownGoal(g) => "goal node '"@ + g@ + "' does not exist in the current layout"@,
        RouteError::NoRoute(s, g) => "no route exists from '"@ + s@ + "' to '"@ + g@ + "'"@,
    }
}

impl RouteError {
    /// The machine-readable code of the error.
    pub fn code(&self) -> (code: &'static str)
        ensures
            code@ == route_error_code(*self),
    {
        match self {
            Self::UnknownStart(_) => "unknown_start_node",
            Self::UnknownGoal(_) => "unknown_goal_node",
            Self::NoRoute(_, _) => "no_route",
        }
    }

    /// The human-readable description of the error.
    pub fn message(&self) -> (message: String)
        ensures
            message@ == route_error_message(*self),
    {
        let mut message = String::new();
        match self {
            Self::UnknownStart(start) => {
                message.append("start node '");
                message.append(start.as_str());
                message.append("' does not exist in the current layout");
            },
            Self::UnknownGoal(goal) => {
                message.append("goal node '");
                message.append(goal.as_str());
                message.append("' does not exist in the current layout");
            },
            Self::NoRoute(start, goal) => {
                message.append("no route exists from '");
                message.append(start.as_str());
                message.append("' to '");
                message.append(goal.as_str());
                message.append("'");
            },
        }
        message
    }
}

/// `es` is a sequence of edge indices leading from node `from` to node `to`, each edge
/// starting where the previous one ends.
pub open spec fn is_path(g: GraphView, from: int, to: int, es: Seq<int>) -> bool
    decreases es.len(),
{
    if es.len() == 0 {
        from == to
    } else {
        &&& 0 <= es[0] < g.edges.len()
        &&& g.edges[es[0]].source == from
        &&& is_path(g, g.edges[es[0]].sink, to, es.drop_first())
    }
}

/// The summed weight of the edges of `es`.
pub open spec fn path_cost(g: GraphView, es: Seq<int>) -> int
    decreases es.len(),
{
    if es.len() == 0 {
        0
    } else {
        g.edges[es[0]].weight + path_cost(g, es.drop_first())
    }
}

/// The nodes visited when following `es` from `from`, including `from`.
pub open spec fn path_nodes(g: GraphView, from: int, es: Seq<int>) -> Seq<int>
    decreases es.len(),
{
    if es.len() == 0 {
        seq![from]
    } else {
        seq![from] + path_nodes(g, g.edges[es[0]].sink, es.drop_first())
    }
}

/// Some directed path leads from `from` to `to`.
pub open spec fn reachable(g: GraphView, from: int, to: int) -> bool {
    exists|es: Seq<int>| is_path(g, from, to, es)
}

/// `es` is a path from `from` to `to` that no other such path undercuts.
pub open spec fn is_shortest_path(g: GraphView, from: int, to: int, es: Seq<int>) -> bool {
    &&& is_path(g, from, to, es)
    &&& forall|other: Seq<int>| #[trigger]
        is_path(g, from, to, other) ==> path_cost(g, es) <= path_cost(g, other)
}

/// The views of a sequence of strings.
pub open spec fn string_views(v: Seq<String>) -> Seq<Seq<char>> {
    v.map_values(|s: String| s@)
}

/// `route` lists the nodes and edges of path `es` from `from`, and its total weight.
pub open spec fn describes_route(g: GraphView, from: int, es: Seq<int>, route: RouteResult) -> bool {
    &&& string_views(route.nodes@) == path_nodes(g, from, es).map_values(|v: int| g.node_ids[v])
    &&& string_views(route.edges@) == es.map_values(|e: int| g.edges[e].id)
    &&& route.nodes@.len() == route.edges@.len() + 1
    &&& route.distance == path_cost(g, es)
}

/// What planning a route from node id `start` to node id `goal` in `g` gives: the first
/// missing endpoint, or no route when the goal cannot be reached, or else a shortest route
/// that visits no node twice, is the trivial one when start and goal coincide, and otherwise
/// is the one that the search gives (`preferred_route`): each node entered by the edge from
/// the node finished first among the equally short ways in, then by the edge with the
/// smallest index. When every edge weighs something, that finishing order is nearest first,
/// larger index first among equally near nodes (`ties_broken`).
pub open spec fn route_outcome(
    g: GraphView,
    start: Seq<char>,
    goal: Seq<char>,
    result: Result<RouteResult, RouteError>,
) -> bool {
    match result {
        Err(RouteError::UnknownStart(s)) => s@ == start && !g.node_ids.contains(start),
        Err(RouteError::UnknownGoal(s)) => {
            &&& s@ == goal
            &&& g.node_ids.contains(start)
            &&& !g.node_ids.contains(goal)
        },
        Err(RouteError::NoRoute(s, t)) => {
            &&& s@ == start
            &&& t@ == goal
            &&& g.node_ids.contains(start)
            &&& g.node_ids.contains(goal)
            &&& !reachable(g, g.index_of(start), g.index_of(goal))
        },
        Ok(route) => {
            &&& g.node_ids.contains(start)
            &&& g.node_ids.contains(goal)
            &&& start == goal ==> route.edges@.len() == 0
            &&& no_repeats(string_views(route.nodes@))
            &&& exists|es: Seq<int>|
                #[trigger] is_shortest_path(g, g.index_of(start), g.index_of(goal), es)
                    && describes_route(g, g.index_of(start), es, route) && (positive_weights(g)
                    ==> ties_broken(g, g.index_of(start), es)) && (start != goal ==> preferred_route(
                    g,
                    g.index_of(start),
                    g.index_of(goal),
                    es,
                ))
        },
    }
}

pub proof fn lemma_path_cost_nonnegative(g: GraphView, from: int, to: int, es: Seq<int>)
    requires
        g.wf(),
        is_path(g, from, to, es),
    ensures
        path_cost(g, es) >= 0,
    decreases es.len(),
{
    if es.len() > 0 {
        lemma_path_cost_nonnegative(g, g.edges[es[0]].sink, to, es.drop_first());
    }
}

pub proof fn lemma_path_nodes_len(g: GraphView, from: int, es: Seq<int>)
    ensures
        path_nodes(g, from, es).len() == es.len() + 1,
    decreases es.len(),
{
    if es.len() > 0 {
        lemma_path_nodes_len(g, g.edges[es[0]].sink, es.drop_first());
    }
}

/// Relaxation has been applied to every edge that leaves a finished node.
spec fn edges_relaxed(g: GraphView, dist: Seq<Option<u128>>, done: Seq<bool>) -> bool {
    forall|e: int|
        #![trigger g.edges[e]]
        0 <= e < g.edges.len() && done[g.edges[e].source] ==> dist[g.edges[e].sink] is Some
            && dist[g.edges[e].sink]->0 <= dist[g.edges[e].source]->0 + g.edges[e].weight
}

/// `m` is a lower bound on the tentative distance of every unfinished, discovered node.
spec fn frontier_at_least(dist: Seq<Option<u128>>, done: Seq<bool>, m: int) -> bool {
    forall|y: int|
        0 <= y < dist.len() && !done[y] && #[trigger] dist[y] is Some ==> m <= dist[y]->0
}

/// Every path that leaves the finished nodes costs at least the smallest tentative
/// distance of an unfinished node, counted from the finished node it starts at.
proof fn lemma_frontier(
    g: GraphView,
    dist: Seq<Option<u128>>,
    done: Seq<bool>,
    x: int,
    z: int,
    es: Seq<int>,
    m: int,
)
    requires
        g.wf(),
        dist.len() == g.node_ids.len(),
        done.len() == g.node_ids.len(),
        0 <= x < g.node_ids.len(),
        is_path(g, x, z, es),
        done[x],
        !done[z],
        forall|y: int| 0 <= y < done.len() && #[trigger] done[y] ==> dist[y] is Some,
        edges_relaxed(g, dist, done),
        frontier_at_least(dist, done, m),
    ensures
        dist[x]->0 + path_cost(g, es) >= m,
    decreases es.len(),
{
    let e = es[0];
    let y = g.edges[e].sink;
    assert(g.edges[e].source == x);
    if done[y] {
        lemma_frontier(g, dist, done, y, z, es.drop_first(), m);
    } else {
        lemma_path_cost_nonnegative(g, y, z, es.drop_first());
    }
}

/// When no unfinished node is discovered, every path from a finished node ends at a
/// finished node.
proof fn lemma_closed(
    g: GraphView,
    dist: Seq<Option<u128>>,
    done: Seq<bool>,
    x: int,
    z: int,
    es: Seq<int>,
)
    requires
        g.wf(),
        dist.len() == g.node_ids.len(),
        done.len() == g.node_ids.len(),
        0 <= x < g.node_ids.len(),
        is_path(g, x, z, es),
        done[x],
        edges_relaxed(g, dist, done),
        forall|y: int| 0 <= y < done.len() && !done[y] ==> #[trigger] dist[y] is None,
    ensures
        0 <= z < g.node_ids.len(),
        done[z],
    decreases es.len(),
{
    if es.len() > 0 {
        let e = es[0];
        assert(g.edges[e].source == x);
        lemma_closed(g, dist, done, g.edges[e].sink, z, es.drop_first());
    }
}

/// The predecessor record of node `v` names a finished node `p` and an edge from `p` to `v`
/// whose weight accounts for the gap between their distances; when `v` is finished too, `p`
/// was finished before it.
spec fn prev_ok(
    g: GraphView,
    dist: Seq<Option<u128>>,
    done: Seq<bool>,
    prev: Seq<Option<(usize, usize)>>,
    order: Seq<int>,
    v: int,
) -> bool {
    &&& prev[v] is Some
    &&& {
        let (p, e) = prev[v]->0;
        &&& p < g.node_ids.len()
        &&& e < g.edges.len()
        &&& g.edges[e as int].source == p
        &&& g.edges[e as int].sink == v
        &&& done[p as int]
        &&& dist[p as int] is Some
        &&& dist[v]->0 == dist[p as int]->0 + g.edges[e as int].weight
        &&& done[v] ==> order[p as int] < order[v]
    }
}

/// The invariant of the search from `s`.
spec fn search_inv(
    g: GraphView,
    s: int,
    dist: Seq<Option<u128>>,
    done: Seq<bool>,
    prev: Seq<Option<(usize, usize)>>,
    order: Seq<int>,
    step: int,
) -> bool {
    let n = g.node_ids.len();
    &&& g.wf()
    &&& n <= usize::MAX
    &&& 0 <= s < n
    &&& dist.len() == n
    &&& done.len() == n
    &&& prev.len() == n
    &&& order.len() == n
    &&& 0 <= step <= n
    &&& dist[s] == Some(0u128)
    &&& forall|v: int|
        0 <= v < n && #[trigger] done[v] ==> dist[v] is Some && 0 <= order[v] < step
    &&& forall|v: int|
        0 <= v < n && #[trigger] dist[v] is Some ==> dist[v]->0 <= step * WEIGHT_LIMIT
    &&& forall|v: int, es: Seq<int>|
        0 <= v < n && #[trigger] done[v] && #[trigger] is_path(g, s, v, es) ==> dist[v]->0
            <= path_cost(g, es)
    &&& edges_relaxed(g, dist, done)
    &&& forall|x: int, y: int|
        0 <= x < n && 0 <= y < n && #[trigger] done[x] && !#[trigger] done[y] && dist[y] is Some
            ==> dist[x]->0 <= dist[y]->0
    &&& forall|v: int|
        0 <= v < n && v != s && #[trigger] dist[v] is Some ==> prev_ok(g, dist, done, prev, order, v)
}

/// Every edge weighs more than nothing.
pub open spec fn positive_weights(g: GraphView) -> bool {
    forall|e: int| 0 <= e < g.edges.len() ==> #[trigger] g.edges[e].weight > 0
}

/// Node `x` at distance `dx` is finished before node `y` at distance `dy`: the nearer one
/// first, and the larger index first among equally near ones.
pub open spec fn finishes_before(dx: int, x: int, dy: int, y: int) -> bool {
    dx < dy || (dx == dy && x > y)
}

/// Arriving through edge `e1` from node `u1` at distance `d1` is preferred to arriving
/// through edge `e2` from node `u2` at distance `d2`: the nearer predecessor first, then the
/// predecessor with the larger index, then the edge with the smaller index.
pub open spec fn prefers(d1: int, u1: int, e1: int, d2: int, u2: int, e2: int) -> bool {
    d1 < d2 || (d1 == d2 && (u1 > u2 || (u1 == u2 && e1 <= e2)))
}

/// Along the path `es` from `s`, every edge is the preferred one among all edges that reach
/// its end equally early, the predecessor's distance taken as that of a way there from `s`.
pub open spec fn ties_broken(g: GraphView, s: int, es: Seq<int>) -> bool {
    forall|i: int, e2: int, q: Seq<int>|
        #![trigger es[i], g.edges[e2], is_path(g, s, g.edges[e2].source, q)]
        0 <= i < es.len() && 0 <= e2 < g.edges.len() && g.edges[e2].sink == g.edges[es[i]].sink
            && is_path(g, s, g.edges[e2].source, q) && path_cost(g, q) + g.edges[e2].weight
            == path_cost(g, es.take(i + 1)) ==> prefers(
            path_cost(g, es.take(i)),
            g.edges[es[i]].source,
            es[i],
            path_cost(g, q),
            g.edges[e2].source,
            e2,
        )
}

/// The node named by the predecessor record of `v`.
spec fn prev_node(prev: Seq<Option<(usize, usize)>>, v: int) -> int {
    match prev[v] {
        Some((p, _)) => p as int,
        None => -1,
    }
}

/// The edge named by the predecessor record of `v`.
spec fn prev_edge(prev: Seq<Option<(usize, usize)>>, v: int) -> int {
    match prev[v] {
        Some((_, e)) => e as int,
        None => -1,
    }
}

/// The tentative distance of `v`, as an integer.
spec fn dist_of(dist: Seq<Option<u128>>, v: int) -> int {
    match dist[v] {
        Some(d) => d as int,
        None => -1,
    }
}

/// The predecessor record of node `v` is preferred to reaching `v` by edge `e` from node
/// `x`: it names a node finished before `x`, or `x` itself with an edge no later than `e`.
spec fn record_preferred(
    prev: Seq<Option<(usize, usize)>>,
    order: Seq<int>,
    x: int,
    e: int,
    v: int,
) -> bool {
    ||| order[prev_node(prev, v)] < order[x]
    ||| prev_node(prev, v) == x && prev_edge(prev, v) <= e
}

/// Every predecessor record is preferred among the edges from finished nodes that reach its
/// node equally early; with positive weights, nodes are also finished in the order of
/// `finishes_before`.
spec fn ties_inv(
    g: GraphView,
    s: int,
    dist: Seq<Option<u128>>,
    done: Seq<bool>,
    prev: Seq<Option<(usize, usize)>>,
    order: Seq<int>,
) -> bool {
    let n = g.node_ids.len();
    &&& forall|e: int|
        #![trigger g.edges[e]]
        0 <= e < g.edges.len() && done[g.edges[e].source] && g.edges[e].sink != s
            && dist_of(dist, g.edges[e].source) + g.edges[e].weight == dist_of(dist, g.edges[e].sink)
            ==> record_preferred(prev, order, g.edges[e].source, e, g.edges[e].sink)
    &&& positive_weights(g) ==> {
        &&& forall|x: int, y: int|
            0 <= x < n && 0 <= y < n && #[trigger] done[x] && !#[trigger] done[y] && dist[y] is Some
                ==> finishes_before(dist_of(dist, x), x, dist_of(dist, y), y)
        &&& forall|x: int, y: int|
            0 <= x < n && 0 <= y < n && #[trigger] done[x] && #[trigger] done[y] && order[x] < order[y]
                ==> finishes_before(dist_of(dist, x), x, dist_of(dist, y), y)
    }
}

/// `ties_inv` while the edges `out` of node `u`, finished at distance `du` as the last of
/// `step` nodes, are relaxed, the first `k` of them already.
spec fn relax_ties(
    g: GraphView,
    s: int,
    u: int,
    du: int,
    out: Seq<int>,
    k: int,
    dist: Seq<Option<u128>>,
    done: Seq<bool>,
    prev: Seq<Option<(usize, usize)>>,
    order: Seq<int>,
    step: int,
) -> bool {
    let n = g.node_ids.len();
    &&& forall|v: int| 0 <= v < n && v != u && #[trigger] done[v] ==> order[v] < step - 1
    &&& forall|i: int, j: int| 0 <= i < j < out.len() ==> #[trigger] out[i] < #[trigger] out[j]
    &&& forall|e: int|
        #![trigger g.edges[e]]
        0 <= e < g.edges.len() && done[g.edges[e].source] && g.edges[e].source != u
            && g.edges[e].sink != s && dist_of(dist, g.edges[e].source) + g.edges[e].weight
            == dist_of(dist, g.edges[e].sink) ==> record_preferred(
            prev,
            order,
            g.edges[e].source,
            e,
            g.edges[e].sink,
        )
    &&& forall|j: int|
        #![trigger out[j]]
        0 <= j < k && g.edges[out[j]].sink != s && du + g.edges[out[j]].weight == dist_of(
            dist,
            g.edges[out[j]].sink,
        ) ==> record_preferred(prev, order, u, out[j], g.edges[out[j]].sink)
    &&& forall|v: int, j: int|
        #![trigger prev[v], out[j]]
        0 <= v < n && v != s && dist[v] is Some && k <= j < out.len() && prev_node(prev, v) == u
            ==> prev_edge(prev, v) < out[j]
    &&& positive_weights(g) ==> {
        &&& forall|x: int, y: int|
            0 <= x < n && 0 <= y < n && #[trigger] done[x] && !#[trigger] done[y] && dist[y] is Some
                ==> finishes_before(dist_of(dist, x), x, dist_of(dist, y), y)
        &&& forall|x: int, y: int|
            0 <= x < n && 0 <= y < n && #[trigger] done[x] && #[trigger] done[y] && order[x] < order[y]
                ==> finishes_before(dist_of(dist, x), x, dist_of(dist, y), y)
    }
}

/// Some edge from one of the first `k` nodes of `f`, whose distances `d` lists, reaches `y`
/// at distance `dy`, and none reaches it at less.
#[verifier::opaque]
pub open spec fn tentative(g: GraphView, f: Seq<int>, d: Seq<int>, k: int, y: int, dy: int) -> bool {
    &&& exists|j: int, e: int|
        #![trigger f[j], g.edges[e]]
        0 <= j < k && 0 <= e < g.edges.len() && g.edges[e].source == f[j] && g.edges[e].sink == y
            && d[j] + g.edges[e].weight == dy
    &&& forall|j: int, e: int|
        #![trigger f[j], g.edges[e]]
        0 <= j < k && 0 <= e < g.edges.len() && g.edges[e].source == f[j] && g.edges[e].sink == y
            ==> dy <= d[j] + g.edges[e].weight
}

/// Node `c` at distance `dc` comes next after the first `k` nodes of `f`: every other node
/// that they reach lies farther, or as far with a smaller index.
#[verifier::opaque]
pub open spec fn chosen_next(g: GraphView, f: Seq<int>, d: Seq<int>, k: int, c: int, dc: int) -> bool {
    forall|y: int, dy: int|
        #![trigger tentative(g, f, d, k, y, dy)]
        y != c && !f.take(k).contains(y) && tentative(g, f, d, k, y, dy) ==> dc < dy || (dc == dy
            && c > y)
}

/// `f` lists, with their distances `d`, nodes in the order in which the search from `s`
/// finishes them: `s` first at distance 0, then each time the nearest of the nodes that the
/// finished ones reach, the one with the largest index among equally near ones.
pub open spec fn finishing_order(g: GraphView, s: int, f: Seq<int>, d: Seq<int>) -> bool {
    &&& f.len() == d.len()
    &&& f.len() > 0 ==> f[0] == s && d[0] == 0
    &&& no_repeats(f)
    &&& forall|k: int| 0 <= k < f.len() ==> 0 <= #[trigger] f[k] < g.node_ids.len()
    &&& forall|k: int|
        1 <= k < f.len() ==> tentative(g, f, d, k, #[trigger] f[k], d[k]) && chosen_next(
            g,
            f,
            d,
            k,
            f[k],
            d[k],
        )
}

/// The search from `s` finishes the nodes of `f` in that order, at the distances `d`, and
/// then comes to `t` at distance `dt`.
pub open spec fn search_history(g: GraphView, s: int, t: int, f: Seq<int>, d: Seq<int>, dt: int) -> bool {
    &&& finishing_order(g, s, f, d)
    &&& f.len() > 0
    &&& !f.contains(t)
    &&& tentative(g, f, d, f.len() as int, t, dt)
    &&& chosen_next(g, f, d, f.len() as int, t, dt)
}

/// Path `es` from `s` enters each of its nodes by the preferred edge among those from the
/// finished nodes `f` (distances `d`) that reach it equally early: the one from the node
/// finished first, and among that node's edges the one with the smallest index. `ks` gives
/// the place in `f` of each node of the path but the last.
pub open spec fn enters_by_preferred_edges(
    g: GraphView,
    s: int,
    f: Seq<int>,
    d: Seq<int>,
    ks: Seq<int>,
    es: Seq<int>,
) -> bool {
    let pn = path_nodes(g, s, es);
    &&& ks.len() == es.len()
    &&& forall|i: int|
        0 <= i < es.len() ==> 0 <= #[trigger] ks[i] < f.len() && f[ks[i]] == pn[i] && d[ks[i]]
            == path_cost(g, es.take(i))
    &&& forall|i: int, j2: int, e2: int|
        #![trigger ks[i], f[j2], g.edges[e2]]
        0 <= i < es.len() && 0 <= j2 < f.len() && 0 <= e2 < g.edges.len() && g.edges[e2].source
            == f[j2] && g.edges[e2].sink == pn[i + 1] && d[j2] + g.edges[e2].weight == path_cost(
            g,
            es.take(i + 1),
        ) ==> ks[i] < j2 || (ks[i] == j2 && es[i] <= e2)
}

/// Path `es` is the route that the search from `s` gives for `t`: the search finishes the
/// nodes of some finishing order before it comes to `t` at the cost of `es`, and `es` enters
/// each of its nodes by the preferred edge under that order.
pub open spec fn preferred_route(g: GraphView, s: int, t: int, es: Seq<int>) -> bool {
    exists|f: Seq<int>, d: Seq<int>, ks: Seq<int>|
        search_history(g, s, t, f, d, path_cost(g, es)) && #[trigger] enters_by_preferred_edges(
            g,
            s,
            f,
            d,
            ks,
            es,
        )
}

/// The ghost record of the search so far: `f` lists the finished nodes in finishing order
/// and `d` their distances.
spec fn history_inv(
    g: GraphView,
    s: int,
    dist: Seq<Option<u128>>,
    done: Seq<bool>,
    order: Seq<int>,
    step: int,
    f: Seq<int>,
    d: Seq<int>,
) -> bool {
    let n = g.node_ids.len();
    &&& f.len() == step
    &&& forall|k: int|
        0 <= k < step ==> done[#[trigger] f[k]] && order[f[k]] == k && dist_of(dist, f[k]) == d[k]
    &&& forall|v: int| 0 <= v < n && #[trigger] done[v] ==> f[order[v]] == v
    &&& finishing_order(g, s, f, d)
}

/// Picks the unfinished discovered node with the smallest tentative distance, preferring
/// the larger index among equals.
fn select_next(dist: &Vec<Option<u128>>, done: &Vec<bool>) -> (best: Option<usize>)
    requires
        dist@.len() == done@.len(),
    ensures
        match best {
            None => forall|v: int| 0 <= v < done@.len() && !done@[v] ==> #[trigger] dist@[v] is None,
            Some(u) => {
                &&& u < done@.len()
                &&& !done@[u as int]
                &&& dist@[u as int] is Some
                &&& frontier_at_least(dist@, done@, dist@[u as int]->0 as int)
                &&& forall|v: int|
                    u < v < done@.len() && !done@[v] && #[trigger] dist@[v] is Some
                        ==> dist@[u as int]->0 < dist@[v]->0
            },
        },
{
    let n = done.len();
    let mut best: Option<usize> = None;
    let mut best_cost: u128 = 0;
    for v in 0..n
        invariant
            n == done@.len(),
            dist@.len() == n,
            match best {
                None => forall|w: int| 0 <= w < v && !done@[w] ==> #[trigger] dist@[w] is None,
                Some(u) => {
                    &&& u < v
                    &&& !done@[u as int]
                    &&& dist@[u as int] == Some(best_cost)
                    &&& forall|w: int|
                        0 <= w < v && !done@[w] && #[trigger] dist@[w] is Some ==> best_cost
                            <= dist@[w]->0
                    &&& forall|w: int|
                        u < w < v && !done@[w] && #[trigger] dist@[w] is Some ==> best_cost
                            < dist@[w]->0
                },
            },
    {
        if !done[v] {
            match dist[v] {
                Some(d) => {
                    let replace = match best {
                        None => true,
                        Some(_) => d <= best_cost,
                    };
                    if replace {
                        best = Some(v);
                        best_cost = d;
                    }
                },
                None => {},
            }
        }
    }
    best
}

/// The strings of `v` in reverse order.
fn reversed(v: Vec<String>) -> (r: Vec<String>)
    ensures
        r@ == v@.reverse(),
{
    let ghost original = v@;
    let mut v = v;
    let mut r: Vec<String> = Vec::new();
    while v.len() > 0
        invariant
            v@ == original.subrange(0, v@.len() as int),
            r@ == original.reverse().subrange(0, original.len() - v@.len()),
            v@.len() <= original.len(),
        decreases v@.len(),
    {
        let last = v.pop();
        match last {
            Some(s) => {
                r.push(s);
            },
            None => {},
        }
        assert(r@ =~= original.reverse().subrange(0, original.len() - v@.len()));
        assert(v@ =~= original.subrange(0, v@.len() as int));
    }
    assert(r@ =~= original.reverse());
    r
}

proof fn lemma_reverse_map<A, B>(s: Seq<A>, f: spec_fn(A) -> B)
    ensures
        s.reverse().map_values(f) =~= s.map_values(f).reverse(),
{
}

/// The state of the inner relaxation loop over the outgoing edges `out` of node `u`, whose
/// first `k` edges have been relaxed.
spec fn relax_inv(
    g: GraphView,
    s: int,
    t: int,
    u: int,
    du: int,
    out: Seq<int>,
    k: int,
    dist: Seq<Option<u128>>,
    done: Seq<bool>,
    prev: Seq<Option<(usize, usize)>>,
    order: Seq<int>,
    step: int,
) -> bool {
    let n = g.node_ids.len();
    &&& g.wf()
    &&& 0 <= s < n
    &&& s != t
    &&& 0 <= t < n
    &&& !done[t]
    &&& 0 <= u < n
    &&& done[u]
    &&& dist[u] == Some(du as u128)
    &&& g.node_ids.len() <= usize::MAX
    &&& forall|j: int|
        0 <= j < out.len() ==> 0 <= #[trigger] out[j] < g.edges.len() && g.edges[out[j]].source == u
    &&& forall|e: int| 0 <= e < g.edges.len() && g.edges[e].source == u ==> #[trigger] out.contains(e)
    &&& 0 <= k <= out.len()
    &&& dist.len() == n
    &&& done.len() == n
    &&& prev.len() == n
    &&& order.len() == n
    &&& 1 <= step <= n
    &&& order[u] == step - 1
    &&& 0 <= du <= (step - 1) * WEIGHT_LIMIT
    &&& dist[s] == Some(0u128)
    &&& forall|v: int|
        0 <= v < n && #[trigger] done[v] ==> dist[v] is Some && 0 <= order[v] < step && dist[v]->0
            <= du
    &&& forall|v: int|
        0 <= v < n && #[trigger] dist[v] is Some ==> dist[v]->0 <= step * WEIGHT_LIMIT
    &&& forall|v: int, es: Seq<int>|
        0 <= v < n && #[trigger] done[v] && #[trigger] is_path(g, s, v, es) ==> dist[v]->0
            <= path_cost(g, es)
    &&& forall|e: int|
        #![trigger g.edges[e]]
        0 <= e < g.edges.len() && done[g.edges[e].source] && g.edges[e].source != u
            ==> dist[g.edges[e].sink] is Some && dist[g.edges[e].sink]->0
            <= dist[g.edges[e].source]->0 + g.edges[e].weight
    &&& forall|j: int|
        #![trigger out[j]]
        0 <= j < k ==> dist[g.edges[out[j]].sink] is Some && dist[g.edges[out[j]].sink]->0 <= du
            + g.edges[out[j]].weight
    &&& forall|x: int, y: int|
        0 <= x < n && 0 <= y < n && #[trigger] done[x] && !#[trigger] done[y] && dist[y] is Some
            ==> dist[x]->0 <= dist[y]->0
    &&& forall|v: int|
        0 <= v < n && v != s && #[trigger] dist[v] is Some ==> prev_ok(g, dist, done, prev, order, v)
}

/// Relaxing edge `out[k]` improved the distance of its end `v`: the tie invariant carries
/// over to the next edge.
proof fn lemma_relax_ties_improved(
    g: GraphView,
    s: int,
    t: int,
    u: int,
    du: int,
    out: Seq<int>,
    k: int,
    dist: Seq<Option<u128>>,
    done: Seq<bool>,
    prev: Seq<Option<(usize, usize)>>,
    order: Seq<int>,
    step: int,
    nd: u128,
    pu: usize,
    pe: usize,
)
    requires
        relax_inv(g, s, t, u, du, out, k, dist, done, prev, order, step),
        relax_ties(g, s, u, du, out, k, dist, done, prev, order, step),
        0 <= k < out.len(),
        !done[g.edges[out[k]].sink],
        nd == du + g.edges[out[k]].weight,
        dist[g.edges[out[k]].sink] is None || nd < dist[g.edges[out[k]].sink]->0,
        pu == u,
        pe == out[k],
    ensures
        relax_ties(
            g,
            s,
            u,
            du,
            out,
            k + 1,
            dist.update(g.edges[out[k]].sink, Some(nd)),
            done,
            prev.update(g.edges[out[k]].sink, Some((pu, pe))),
            order,
            step,
        ),
{
    let v = g.edges[out[k]].sink;
    let dist2 = dist.update(v, Some(nd));
    let prev2 = prev.update(v, Some((pu, pe)));
    let n = g.node_ids.len();
    assert forall|e: int|
        #![trigger g.edges[e]]
        0 <= e < g.edges.len() && done[g.edges[e].source] && g.edges[e].source != u
            && g.edges[e].sink != s && dist_of(dist2, g.edges[e].source) + g.edges[e].weight
            == dist_of(dist2, g.edges[e].sink) implies record_preferred(
            prev2,
            order,
            g.edges[e].source,
            e,
            g.edges[e].sink,
        ) by {
        let x = g.edges[e].source;
        let w = g.edges[e].sink;
        assert(x != v);
        assert(dist2[x] == dist[x]);
        if w == v {
            assert(dist[v] is Some && dist[v]->0 <= dist[x]->0 + g.edges[e].weight);
            assert(false);
        } else {
            assert(prev2[w] == prev[w]);
            assert(dist2[w] == dist[w]);
        }
    }
    assert forall|j: int|
        #![trigger out[j]]
        0 <= j < k + 1 && g.edges[out[j]].sink != s && du + g.edges[out[j]].weight == dist_of(
            dist2,
            g.edges[out[j]].sink,
        ) implies record_preferred(prev2, order, u, out[j], g.edges[out[j]].sink) by {
        let w = g.edges[out[j]].sink;
        if j < k {
            if w == v {
                assert(dist[v] is Some && dist[v]->0 <= du + g.edges[out[j]].weight);
                assert(false);
            } else {
                assert(prev2[w] == prev[w]);
                assert(dist2[w] == dist[w]);
            }
        }
    }
    assert forall|v2: int, j: int|
        #![trigger prev2[v2], out[j]]
        0 <= v2 < n && v2 != s && dist2[v2] is Some && k + 1 <= j < out.len() && prev_node(
            prev2,
            v2,
        ) == u implies prev_edge(prev2, v2) < out[j] by {
        if v2 != v {
            assert(prev2[v2] == prev[v2]);
            assert(dist2[v2] == dist[v2]);
        } else {
            assert(out[k] < out[j]);
        }
    }
    if positive_weights(g) {
        assert(g.edges[out[k]].weight > 0);
        assert forall|x: int, y: int|
            0 <= x < n && 0 <= y < n && #[trigger] done[x] && !#[trigger] done[y] && dist2[y] is Some
                implies finishes_before(dist_of(dist2, x), x, dist_of(dist2, y), y) by {
            assert(x != v);
            if y != v {
                assert(dist2[y] == dist[y]);
            }
        }
    }
}

/// Relaxing edge `out[k]` left every distance as it was: the tie invariant carries over to
/// the next edge.
proof fn lemma_relax_ties_kept(
    g: GraphView,
    s: int,
    t: int,
    u: int,
    du: int,
    out: Seq<int>,
    k: int,
    dist: Seq<Option<u128>>,
    done: Seq<bool>,
    prev: Seq<Option<(usize, usize)>>,
    order: Seq<int>,
    step: int,
)
    requires
        relax_inv(g, s, t, u, du, out, k, dist, done, prev, order, step),
        relax_ties(g, s, u, du, out, k, dist, done, prev, order, step),
        0 <= k < out.len(),
        dist[g.edges[out[k]].sink] is Some,
        dist[g.edges[out[k]].sink]->0 <= du + g.edges[out[k]].weight,
    ensures
        relax_ties(g, s, u, du, out, k + 1, dist, done, prev, order, step),
{
    assert forall|j: int|
        #![trigger out[j]]
        0 <= j < k + 1 && g.edges[out[j]].sink != s && du + g.edges[out[j]].weight == dist_of(
            dist,
            g.edges[out[j]].sink,
        ) implies record_preferred(prev, order, u, out[j], g.edges[out[j]].sink) by {
        if j == k {
            let v = g.edges[out[k]].sink;
            assert(prev_ok(g, dist, done, prev, order, v));
            let p = prev_node(prev, v);
            if p == u {
                assert(prev_edge(prev, v) < out[k]);
            } else {
                assert(done[p] && done[u]);
                assert(order[p] < order[u]);
            }
        }
    }
}

/// Finishing node `u`, the nearest unfinished node and the one with the largest index among
/// equally near ones, starts the relaxation of its edges with the tie invariant in place.
proof fn lemma_finish_ties(
    g: GraphView,
    s: int,
    dist: Seq<Option<u128>>,
    done: Seq<bool>,
    prev: Seq<Option<(usize, usize)>>,
    order: Seq<int>,
    step: int,
    u: int,
)
    requires
        search_inv(g, s, dist, done, prev, order, step),
        ties_inv(g, s, dist, done, prev, order),
        0 <= u < g.node_ids.len(),
        !done[u],
        dist[u] is Some,
        frontier_at_least(dist, done, dist[u]->0 as int),
        forall|v: int|
            u < v < done.len() && !done[v] && #[trigger] dist[v] is Some ==> dist[u]->0 < dist[v]->0,
    ensures
        relax_ties(
            g,
            s,
            u,
            dist[u]->0 as int,
            g.adjacency[u],
            0,
            dist,
            done.update(u, true),
            prev,
            order.update(u, step),
            step + 1,
        ),
{
    let n = g.node_ids.len();
    let done2 = done.update(u, true);
    let order2 = order.update(u, step);
    let du = dist[u]->0 as int;
    let out = g.adjacency[u];
    lemma_outgoing_prefix_increasing(g.edges, u, g.edges.len() as int);
    assert(out == crate::graph::outgoing_prefix(g.edges, u, g.edges.len() as int));
    assert forall|v: int| 0 <= v < n && v != u && #[trigger] done2[v] implies order2[v] < step + 1 - 1 by {
        assert(done[v]);
    }
    assert forall|e: int|
        #![trigger g.edges[e]]
        0 <= e < g.edges.len() && done2[g.edges[e].source] && g.edges[e].source != u
            && g.edges[e].sink != s && dist_of(dist, g.edges[e].source) + g.edges[e].weight
            == dist_of(dist, g.edges[e].sink) implies record_preferred(
            prev,
            order2,
            g.edges[e].source,
            e,
            g.edges[e].sink,
        ) by {
        let x = g.edges[e].source;
        let w = g.edges[e].sink;
        assert(done[x]);
        assert(prev_ok(g, dist, done, prev, order, w));
        assert(prev_node(prev, w) != u);
        assert(record_preferred(prev, order, x, e, w));
    }
    assert forall|v: int, j: int|
        #![trigger prev[v], out[j]]
        0 <= v < n && v != s && dist[v] is Some && 0 <= j < out.len() && prev_node(prev, v) == u
            implies prev_edge(prev, v) < out[j] by {
        assert(prev_ok(g, dist, done, prev, order, v));
    }
    if positive_weights(g) {
        assert forall|x: int, y: int|
            0 <= x < n && 0 <= y < n && #[trigger] done2[x] && !#[trigger] done2[y] && dist[y] is Some
                implies finishes_before(dist_of(dist, x), x, dist_of(dist, y), y) by {
            if x != u {
                assert(done[x] && !done[y]);
            } else {
                assert(!done[y] && dist[y] is Some);
                assert(du <= dist[y]->0);
            }
        }
        assert forall|x: int, y: int|
            0 <= x < n && 0 <= y < n && #[trigger] done2[x] && #[trigger] done2[y] && order2[x]
                < order2[y] implies finishes_before(dist_of(dist, x), x, dist_of(dist, y), y) by {
            if y == u && x != u {
                assert(done[x] && !done[u]);
            } else if x == u {
                assert(done[y]);
                assert(order[y] < step);
            } else {
                assert(done[x] && done[y]);
            }
        }
    }
}

/// `tentative` reads only the first `k` entries of the record.
proof fn lemma_tentative_prefix(
    g: GraphView,
    f: Seq<int>,
    d: Seq<int>,
    f2: Seq<int>,
    d2: Seq<int>,
    k: int,
    y: int,
    dy: int,
)
    requires
        0 <= k <= f.len(),
        k <= f2.len(),
        k <= d.len(),
        k <= d2.len(),
        forall|j: int| 0 <= j < k ==> f2[j] == f[j] && d2[j] == d[j],
    ensures
        tentative(g, f, d, k, y, dy) == tentative(g, f2, d2, k, y, dy),
{
    reveal(tentative);
    if tentative(g, f, d, k, y, dy) {
        let (j, e) = choose|j: int, e: int|
            #![trigger f[j], g.edges[e]]
            0 <= j < k && 0 <= e < g.edges.len() && g.edges[e].source == f[j] && g.edges[e].sink
                == y && d[j] + g.edges[e].weight == dy;
        assert(f2[j] == f[j]);
        assert forall|j: int, e: int|
            #![trigger f2[j], g.edges[e]]
            0 <= j < k && 0 <= e < g.edges.len() && g.edges[e].source == f2[j] && g.edges[e].sink
                == y implies dy <= d2[j] + g.edges[e].weight by {
            assert(f2[j] == f[j]);
        }
    }
    if tentative(g, f2, d2, k, y, dy) {
        let (j, e) = choose|j: int, e: int|
            #![trigger f2[j], g.edges[e]]
            0 <= j < k && 0 <= e < g.edges.len() && g.edges[e].source == f2[j] && g.edges[e].sink
                == y && d2[j] + g.edges[e].weight == dy;
        assert(f[j] == f2[j]);
        assert forall|j: int, e: int|
            #![trigger f[j], g.edges[e]]
            0 <= j < k && 0 <= e < g.edges.len() && g.edges[e].source == f[j] && g.edges[e].sink
                == y implies dy <= d[j] + g.edges[e].weight by {
            assert(f2[j] == f[j]);
        }
    }
}

/// `chosen_next` reads only the first `k` entries of the record.
proof fn lemma_chosen_next_prefix(
    g: GraphView,
    f: Seq<int>,
    d: Seq<int>,
    f2: Seq<int>,
    d2: Seq<int>,
    k: int,
    c: int,
    dc: int,
)
    requires
        0 <= k <= f.len(),
        k <= f2.len(),
        k <= d.len(),
        k <= d2.len(),
        forall|j: int| 0 <= j < k ==> f2[j] == f[j] && d2[j] == d[j],
        chosen_next(g, f, d, k, c, dc),
    ensures
        chosen_next(g, f2, d2, k, c, dc),
{
    reveal(chosen_next);
    assert(f2.take(k) =~= f.take(k));
    assert forall|y: int, dy: int|
        y != c && !f2.take(k).contains(y) && tentative(g, f2, d2, k, y, dy) implies dc < dy || (dc
            == dy && c > y) by {
        lemma_tentative_prefix(g, f, d, f2, d2, k, y, dy);
    }
}

/// Appending the node that comes next keeps the record a finishing order.
proof fn lemma_finishing_order_push(g: GraphView, s: int, f: Seq<int>, d: Seq<int>, u: int, du: int)
    requires
        finishing_order(g, s, f, d),
        0 <= u < g.node_ids.len(),
        !f.contains(u),
        f.len() == 0 ==> u == s && du == 0,
        f.len() > 0 ==> tentative(g, f, d, f.len() as int, u, du) && chosen_next(
            g,
            f,
            d,
            f.len() as int,
            u,
            du,
        ),
    ensures
        finishing_order(g, s, f.push(u), d.push(du)),
{
    let f2 = f.push(u);
    let d2 = d.push(du);
    let len = f.len() as int;
    assert forall|i: int, j: int| 0 <= i < j < f2.len() implies f2[i] != f2[j] by {
        if j == len {
            assert(f.contains(f[i]));
        }
    }
    assert forall|k: int| 1 <= k < f2.len() implies tentative(g, f2, d2, k, #[trigger] f2[k], d2[k])
        && chosen_next(g, f2, d2, k, f2[k], d2[k]) by {
        if k < len {
            lemma_tentative_prefix(g, f, d, f2, d2, k, f[k], d[k]);
            lemma_chosen_next_prefix(g, f, d, f2, d2, k, f[k], d[k]);
        } else {
            lemma_tentative_prefix(g, f, d, f2, d2, k, u, du);
            lemma_chosen_next_prefix(g, f, d, f2, d2, k, u, du);
        }
    }
}

/// The node that the search picks next is the one the finishing order says comes next.
proof fn lemma_pick_is_chosen(
    g: GraphView,
    s: int,
    dist: Seq<Option<u128>>,
    done: Seq<bool>,
    prev: Seq<Option<(usize, usize)>>,
    order: Seq<int>,
    step: int,
    f: Seq<int>,
    d: Seq<int>,
    u: int,
)
    requires
        search_inv(g, s, dist, done, prev, order, step),
        history_inv(g, s, dist, done, order, step, f, d),
        0 <= u < g.node_ids.len(),
        !done[u],
        dist[u] is Some,
        frontier_at_least(dist, done, dist[u]->0 as int),
        forall|v: int|
            u < v < done.len() && !done[v] && #[trigger] dist[v] is Some ==> dist[u]->0 < dist[v]->0,
    ensures
        !f.contains(u),
        step == 0 ==> u == s && dist_of(dist, u) == 0,
        step > 0 ==> tentative(g, f, d, step, u, dist_of(dist, u)) && chosen_next(
            g,
            f,
            d,
            step,
            u,
            dist_of(dist, u),
        ),
{
    reveal(tentative);
    reveal(chosen_next);
    let n = g.node_ids.len();
    let du = dist_of(dist, u);
    assert(!f.contains(u)) by {
        if f.contains(u) {
            let k = choose|k: int| 0 <= k < f.len() && f[k] == u;
            assert(done[f[k]]);
        }
    }
    if step == 0 {
        if u != s {
            assert(prev_ok(g, dist, done, prev, order, u));
            let p = prev_node(prev, u);
            assert(done[p]);
        }
    } else {
        assert(f[0] == s);
        assert(done[f[0]]);
        assert(prev_ok(g, dist, done, prev, order, u));
        let p = prev_node(prev, u);
        let ep = prev_edge(prev, u);
        let jp = order[p];
        assert(done[p]);
        assert(f[jp] == p);
        assert(dist_of(dist, f[jp]) == d[jp]);
        assert(g.edges[ep].source == f[jp] && g.edges[ep].sink == u && d[jp] + g.edges[ep].weight == du);
        assert forall|j: int, e: int|
            #![trigger f[j], g.edges[e]]
            0 <= j < step && 0 <= e < g.edges.len() && g.edges[e].source == f[j] && g.edges[e].sink
                == u implies du <= d[j] + g.edges[e].weight by {
            assert(done[f[j]]);
            assert(dist_of(dist, f[j]) == d[j]);
        }
        assert(tentative(g, f, d, step, u, du));
        assert forall|y: int, dy: int|
            y != u && !f.take(step).contains(y) && tentative(g, f, d, step, y, dy) implies du < dy || (
            du == dy && u > y) by {
            let (j, e) = choose|j: int, e: int|
                #![trigger f[j], g.edges[e]]
                0 <= j < step && 0 <= e < g.edges.len() && g.edges[e].source == f[j]
                    && g.edges[e].sink == y && d[j] + g.edges[e].weight == dy;
            assert(done[f[j]]);
            assert(dist_of(dist, f[j]) == d[j]);
            assert(g.edges[e] == g.edges[e]);
            assert(dist[y] is Some && dist[y]->0 <= dy);
            assert(!done[y]) by {
                if done[y] {
                    assert(f[order[y]] == y);
                    assert(f.take(step)[order[y]] == y);
                }
            }
            assert(prev_ok(g, dist, done, prev, order, y));
            let p2 = prev_node(prev, y);
            let e2 = prev_edge(prev, y);
            let j2 = order[p2];
            assert(done[p2]);
            assert(f[j2] == p2);
            assert(dist_of(dist, f[j2]) == d[j2]);
            assert(g.edges[e2].source == f[j2] && g.edges[e2].sink == y);
            assert(dy <= d[j2] + g.edges[e2].weight);
        }
    }
}

/// Finishing node `u` at distance `du` and relaxing its edges extends the ghost record.
proof fn lemma_history_step(
    g: GraphView,
    s: int,
    dist: Seq<Option<u128>>,
    dist2: Seq<Option<u128>>,
    done: Seq<bool>,
    order: Seq<int>,
    step: int,
    f: Seq<int>,
    d: Seq<int>,
    u: int,
    du: int,
)
    requires
        history_inv(g, s, dist, done, order, step, f, d),
        dist.len() == g.node_ids.len(),
        done.len() == g.node_ids.len(),
        order.len() == g.node_ids.len(),
        0 <= u < g.node_ids.len(),
        !done[u],
        dist_of(dist, u) == du,
        forall|v: int| 0 <= v < g.node_ids.len() && #[trigger] done[v] ==> 0 <= order[v] < step,
        forall|v: int| 0 <= v < g.node_ids.len() && #[trigger] done.update(u, true)[v] ==> dist2[v] == dist[v],
        finishing_order(g, s, f.push(u), d.push(du)),
    ensures
        history_inv(
            g,
            s,
            dist2,
            done.update(u, true),
            order.update(u, step),
            step + 1,
            f.push(u),
            d.push(du),
        ),
{
    let done2 = done.update(u, true);
    let order2 = order.update(u, step);
    let f2 = f.push(u);
    let d2 = d.push(du);
    let n = g.node_ids.len();
    assert forall|k: int| 0 <= k < step + 1 implies done2[#[trigger] f2[k]] && order2[f2[k]] == k
        && dist_of(dist2, f2[k]) == d2[k] by {
        if k < step {
            assert(f2[k] == f[k]);
            assert(0 <= f[k] < n);
            assert(done[f[k]]);
            assert(f[k] != u);
            assert(done2[f[k]]);
            assert(dist2[f[k]] == dist[f[k]]);
        } else {
            assert(done2[u]);
            assert(dist2[u] == dist[u]);
        }
    }
    assert forall|v: int| 0 <= v < n && #[trigger] done2[v] implies f2[order2[v]] == v by {
        if v != u {
            assert(done[v]);
            assert(0 <= order[v] < step);
            assert(order2[v] == order[v]);
            assert(f[order[v]] == v);
            assert(f2[order[v]] == f[order[v]]);
        } else {
            assert(order2[u] == step);
            assert(f2[step] == u);
        }
    }
}

/// Relaxes every edge leaving the node `u` that was just finished at distance `du`.
#[verifier::spinoff_prover]
#[verifier::rlimit(30)]
fn relax_edges(
    graph: &Graph,
    u: usize,
    du: u128,
    dist: &mut Vec<Option<u128>>,
    prev: &mut Vec<Option<(NodeIndex, EdgeIndex)>>,
    Ghost(s): Ghost<int>,
    Ghost(t): Ghost<int>,
    Ghost(done): Ghost<Seq<bool>>,
    Ghost(order): Ghost<Seq<int>>,
    Ghost(step): Ghost<int>,
)
    requires
        u < graph@.node_ids.len(),
        relax_inv(
            graph@,
            s,
            t,
            u as int,
            du as int,
            graph@.adjacency[u as int],
            0,
            old(dist)@,
            done,
            old(prev)@,
            order,
            step,
        ),
        relax_ties(
            graph@,
            s,
            u as int,
            du as int,
            graph@.adjacency[u as int],
            0,
            old(dist)@,
            done,
            old(prev)@,
            order,
            step,
        ),
    ensures
        search_inv(graph@, s, final(dist)@, done, final(prev)@, order, step),
        ties_inv(graph@, s, final(dist)@, done, final(prev)@, order),
        forall|v: int| 0 <= v < graph@.node_ids.len() && #[trigger] done[v] ==> final(dist)@[v] == old(dist)@[v],
{
    let ghost g = graph@;
    let ghost dist0 = dist@;
    let out = graph.outgoing_edges(u);
    let ghost out_ints = as_ints(out@);
    let mut k: usize = 0;
    while k < out.len()
        invariant
            g == graph@,
            out_ints == as_ints(out@),
            out_ints == g.adjacency[u as int],
            relax_inv(g, s, t, u as int, du as int, out_ints, k as int, dist@, done, prev@, order, step),
            relax_ties(g, s, u as int, du as int, out_ints, k as int, dist@, done, prev@, order, step),
            dist0 == old(dist)@,
            forall|v: int| 0 <= v < g.node_ids.len() && #[trigger] done[v] ==> dist@[v] == dist0[v],
        decreases out@.len() - k,
    {
        let edge_index = out[k];
        assert(out_ints[k as int] == edge_index as int);
        let edge = graph.edge(edge_index);
        let v = edge.sink;
        assert(du + edge.weight <= step * WEIGHT_LIMIT);
        let next_cost: u128 = du + edge.weight as u128;
        let is_better = match dist[v] {
            Some(d) => next_cost < d,
            None => true,
        };
        let ghost dist_before = dist@;
        let ghost prev_before = prev@;
        if is_better {
            assert(!done[v as int]);
            proof {
                lemma_relax_ties_improved(g, s, t, u as int, du as int, out_ints, k as int, dist@, done, prev@, order, step, next_cost, u, edge_index);
            }
            dist.set(v, Some(next_cost));
            prev.set(v, Some((u, edge_index)));
            assert(dist@ == dist_before.update(v as int, Some(next_cost)));
            assert(prev@ == prev_before.update(v as int, Some((u, edge_index))));
            assert forall|v2: int, es: Seq<int>|
                0 <= v2 < g.node_ids.len() && #[trigger] done[v2] && #[trigger] is_path(g, s, v2, es)
                    implies dist@[v2]->0 <= path_cost(g, es) by {
                assert(v2 != v);
            }
        } else {
            proof {
                lemma_relax_ties_kept(g, s, t, u as int, du as int, out_ints, k as int, dist@, done, prev@, order, step);
            }
        }
        k = k + 1;
    }
    proof {
        assert forall|e: int|
            #![trigger g.edges[e]]
            0 <= e < g.edges.len() && done[g.edges[e].source] implies dist@[g.edges[e].sink] is Some
                && dist@[g.edges[e].sink]->0 <= dist@[g.edges[e].source]->0 + g.edges[e].weight by {
            if g.edges[e].source == u {
                assert(out_ints.contains(e));
                let j = choose|j: int| 0 <= j < out_ints.len() && out_ints[j] == e;
                assert(out_ints[j] == e);
            }
        }
        assert forall|e: int|
            #![trigger g.edges[e]]
            0 <= e < g.edges.len() && done[g.edges[e].source] && g.edges[e].sink != s && dist_of(
                dist@,
                g.edges[e].source,
            ) + g.edges[e].weight == dist_of(dist@, g.edges[e].sink) implies record_preferred(
            prev@,
            order,
            g.edges[e].source,
            e,
            g.edges[e].sink,
        ) by {
            if g.edges[e].source == u {
                assert(out_ints.contains(e));
                let j = choose|j: int| 0 <= j < out_ints.len() && out_ints[j] == e;
                assert(out_ints[j] == e);
            }
        }
    }
}

/// Runs the search from `s` until `t` is the nearest unfinished node (`true`) or no
/// unfinished node is left in reach (`false`).
#[verifier::spinoff_prover]
#[verifier::rlimit(40)]
fn search(graph: &Graph, start_index: usize, goal_index: usize) -> (res: (
    Vec<Option<u128>>,
    Vec<bool>,
    Vec<Option<(NodeIndex, EdgeIndex)>>,
    bool,
    Ghost<Seq<int>>,
    Ghost<int>,
    Ghost<Seq<int>>,
    Ghost<Seq<int>>,
))
    requires
        graph@.wf(),
        start_index < graph@.node_ids.len(),
        goal_index < graph@.node_ids.len(),
        start_index != goal_index,
    ensures
        ({
            let (dist, done, prev, reached, order, step, f, d) = res;
            let t = goal_index as int;
            &&& search_inv(graph@, start_index as int, dist@, done@, prev@, order@, step@)
            &&& ties_inv(graph@, start_index as int, dist@, done@, prev@, order@)
            &&& history_inv(graph@, start_index as int, dist@, done@, order@, step@, f@, d@)
            &&& reached ==> search_history(graph@, start_index as int, t, f@, d@, dist_of(dist@, t))
            &&& !done@[t]
            &&& reached ==> dist@[t] is Some && frontier_at_least(dist@, done@, dist@[t]->0 as int)
            &&& !reached ==> forall|v: int|
                0 <= v < done@.len() && !done@[v] ==> #[trigger] dist@[v] is None
        }),
{
    let ghost g = graph@;
    let ghost s = start_index as int;
    let ghost t = goal_index as int;
    let n = graph.node_count();
    let mut dist: Vec<Option<u128>> = filled(n, None);
    let mut done: Vec<bool> = filled(n, false);
    let mut prev: Vec<Option<(NodeIndex, EdgeIndex)>> = filled(n, None);
    dist.set(start_index, Some(0));
    let ghost mut order: Seq<int> = Seq::new(n as nat, |i: int| 0);
    let ghost mut step: int = 0;
    let ghost mut f: Seq<int> = Seq::empty();
    let ghost mut d: Seq<int> = Seq::empty();
    proof {
        lemma_count_false_all(n as nat);
        assert(done@ =~= Seq::new(n as nat, |i: int| false));
    }
    loop
        invariant
            search_inv(g, s, dist@, done@, prev@, order, step),
            ties_inv(g, s, dist@, done@, prev@, order),
            history_inv(g, s, dist@, done@, order, step, f, d),
            g == graph@,
            n == g.node_ids.len(),
            s == start_index,
            t == goal_index,
            s != t,
            0 <= t < n,
            !done@[t],
            step + count_false(done@) == n,
        decreases count_false(done@),
    {
        let next = select_next(&dist, &done);
        if next.is_none() {
            return (dist, done, prev, false, Ghost(order), Ghost(step), Ghost(f), Ghost(d));
        }
        let u = match next {
            Some(u) => u,
            None => 0,
        };
        proof {
            lemma_pick_is_chosen(g, s, dist@, done@, prev@, order, step, f, d, u as int);
        }
        if u == goal_index {
            return (dist, done, prev, true, Ghost(order), Ghost(step), Ghost(f), Ghost(d));
        }
        let du: u128 = match dist[u] {
            Some(x) => x,
            None => 0,
        };
        proof {
            // Every path from the start to `u` costs at least `du`.
            assert forall|es: Seq<int>| #[trigger] is_path(g, s, u as int, es) implies du
                <= path_cost(g, es) by {
                if done@[s] {
                    lemma_frontier(g, dist@, done@, s, u as int, es, du as int);
                } else {
                    lemma_path_cost_nonnegative(g, s, u as int, es);
                }
            }
            lemma_count_false_update(done@, u as int);
            lemma_outgoing_prefix(g.edges, u as int, g.edges.len() as int);
            lemma_finish_ties(g, s, dist@, done@, prev@, order, step, u as int);
            lemma_finishing_order_push(g, s, f, d, u as int, du as int);
        }
        let ghost dist_before = dist@;
        let ghost done_before = done@;
        done.set(u, true);
        let ghost new_order = order.update(u as int, step);
        let ghost new_step = step + 1;
        proof {
            let out = g.adjacency[u as int];
            assert forall|v: int, es: Seq<int>|
                0 <= v < n && #[trigger] done@[v] && #[trigger] is_path(g, s, v, es) implies dist@[v]->0
                    <= path_cost(g, es) by {
                if v != u {
                    assert(done_before[v]);
                }
            }
            assert(relax_inv(g, s, t, u as int, du as int, out, 0, dist@, done@, prev@, new_order, new_step));
        }
        relax_edges(graph, u, du, &mut dist, &mut prev, Ghost(s), Ghost(t), Ghost(done@), Ghost(new_order), Ghost(new_step));
        proof {
            lemma_history_step(g, s, dist_before, dist@, done_before, order, step, f, d, u as int, du as int);
            order = new_order;
            step = new_step;
            f = f.push(u as int);
            d = d.push(du as int);
        }
    }
}

/// The position of node `v` in the finishing order, unfinished nodes coming last.
spec fn finish_rank(done: Seq<bool>, order: Seq<int>, step: int, v: int) -> int {
    if done[v] {
        order[v]
    } else {
        step
    }
}

/// No element occurs twice in `s`.
pub open spec fn no_repeats<A>(s: Seq<A>) -> bool {
    forall|i: int, j: int| 0 <= i < j < s.len() ==> s[i] != s[j]
}

/// Every element of `vs` is a node index that its own node id resolves to.
pub open spec fn resolved_nodes(g: GraphView, vs: Seq<int>) -> bool {
    forall|i: int|
        0 <= i < vs.len() ==> 0 <= #[trigger] vs[i] < g.node_ids.len() && g.index_of(
            g.node_ids[vs[i]],
        ) == vs[i]
}

/// Following the predecessor records back from the end of path `es` from `from` retraces
/// the path: each of its nodes after the first is recorded as reached by its edge.
spec fn records_follow(
    g: GraphView,
    prev: Seq<Option<(usize, usize)>>,
    from: int,
    es: Seq<int>,
) -> bool {
    forall|i: int| 0 <= i < es.len() ==> #[trigger] record_at(prev, path_nodes(g, from, es), es, i)
}

/// The predecessor record of node `pn[i + 1]` names node `pn[i]` and edge `es[i]`.
spec fn record_at(prev: Seq<Option<(usize, usize)>>, pn: Seq<int>, es: Seq<int>, i: int) -> bool {
    prev_node(prev, pn[i + 1]) == pn[i] && prev_edge(prev, pn[i + 1]) == es[i]
}

/// The tentative distance of each node of path `es` from `from` is `base` plus the cost of
/// the part of the path before it.
spec fn distances_follow(g: GraphView, dist: Seq<Option<u128>>, from: int, es: Seq<int>, base: int) -> bool {
    forall|i: int|
        0 <= i <= es.len() ==> dist_of(dist, #[trigger] path_nodes(g, from, es)[i]) == base + path_cost(
            g,
            es.take(i),
        )
}

/// Edge `es[i]` of a path leads from the `i`-th to the `i + 1`-th node that the path visits.
proof fn lemma_path_nodes_edges(g: GraphView, from: int, to: int, es: Seq<int>)
    requires
        is_path(g, from, to, es),
    ensures
        path_nodes(g, from, es)[0] == from,
        forall|i: int|
            0 <= i < es.len() ==> g.edges[#[trigger] es[i]].source == path_nodes(g, from, es)[i]
                && g.edges[es[i]].sink == path_nodes(g, from, es)[i + 1] && 0 <= es[i]
                < g.edges.len(),
    decreases es.len(),
{
    if es.len() > 0 {
        let rest = es.drop_first();
        let next = g.edges[es[0]].sink;
        lemma_path_nodes_edges(g, next, to, rest);
        let pn = path_nodes(g, from, es);
        let pn2 = path_nodes(g, next, rest);
        assert(pn == seq![from] + pn2);
        lemma_path_nodes_len(g, next, rest);
        assert forall|i: int| 0 <= i < es.len() implies g.edges[#[trigger] es[i]].source == pn[i]
            && g.edges[es[i]].sink == pn[i + 1] && 0 <= es[i] < g.edges.len() by {
            assert(pn[i + 1] == pn2[i]);
            if i > 0 {
                assert(es[i] == rest[i - 1]);
                assert(pn[i] == pn2[i - 1]);
            }
        }
    }
}

/// A prefix of a path costs no more than the whole path.
proof fn lemma_path_cost_take(g: GraphView, from: int, to: int, es: Seq<int>, j: int)
    requires
        g.wf(),
        is_path(g, from, to, es),
        0 <= j <= es.len(),
    ensures
        path_cost(g, es.take(j)) <= path_cost(g, es),
    decreases es.len(),
{
    if j == 0 {
        assert(es.take(0).len() == 0);
        lemma_path_cost_nonnegative(g, from, to, es);
    } else {
        let rest = es.drop_first();
        lemma_path_cost_take(g, g.edges[es[0]].sink, to, rest, j - 1);
        assert(es.take(j).drop_first() =~= rest.take(j - 1));
        assert(es.take(j)[0] == es[0]);
    }
}

/// The route that the predecessor records give reaches each of its nodes through the
/// preferred edge: with positive weights, ties are broken as `ties_broken` says.
proof fn lemma_route_ties_broken(
    g: GraphView,
    s: int,
    t: int,
    dist: Seq<Option<u128>>,
    done: Seq<bool>,
    prev: Seq<Option<(usize, usize)>>,
    order: Seq<int>,
    step: int,
    dg: int,
    es: Seq<int>,
)
    requires
        search_inv(g, s, dist, done, prev, order, step),
        ties_inv(g, s, dist, done, prev, order),
        0 <= t < g.node_ids.len(),
        !done[t],
        dist[t] is Some,
        dist[t]->0 == dg,
        frontier_at_least(dist, done, dg),
        is_path(g, s, t, es),
        path_cost(g, es) == dg,
        records_follow(g, prev, s, es),
        distances_follow(g, dist, s, es, 0),
    ensures
        positive_weights(g) ==> ties_broken(g, s, es),
{
    if positive_weights(g) {
        let pn = path_nodes(g, s, es);
        lemma_path_nodes_edges(g, s, t, es);
        lemma_path_nodes_len(g, s, es);
        assert forall|i: int, e2: int, q: Seq<int>|
            #![trigger es[i], g.edges[e2], is_path(g, s, g.edges[e2].source, q)]
            0 <= i < es.len() && 0 <= e2 < g.edges.len() && g.edges[e2].sink == g.edges[es[i]].sink
                && is_path(g, s, g.edges[e2].source, q) && path_cost(g, q) + g.edges[e2].weight
                == path_cost(g, es.take(i + 1)) implies prefers(
            path_cost(g, es.take(i)),
            g.edges[es[i]].source,
            es[i],
            path_cost(g, q),
            g.edges[e2].source,
            e2,
        ) by {
            let v = pn[i + 1];
            let u2 = g.edges[e2].source;
            assert(record_at(prev, pn, es, i));
            assert(g.edges[es[i]].sink == v);
            assert(dist_of(dist, pn[i + 1]) == path_cost(g, es.take(i + 1)));
            assert(dist_of(dist, pn[i]) == path_cost(g, es.take(i)));
            lemma_path_cost_take(g, s, t, es, i + 1);
            assert(g.edges[e2].weight > 0);
            lemma_path_cost_nonnegative(g, s, u2, q);
            assert(done[s]) by {
                if !done[s] {
                    assert(dist[s] is Some);
                }
            }
            assert(done[u2]) by {
                if !done[u2] {
                    lemma_frontier(g, dist, done, s, u2, q, dg);
                }
            }
            assert(dist[u2]->0 <= path_cost(g, q));
            assert(dist[v] is Some && dist[v]->0 <= dist[u2]->0 + g.edges[e2].weight);
            assert(v != s);
            assert(record_preferred(prev, order, u2, e2, v));
            let p = pn[i];
            assert(done[p]) by {
                assert(prev_ok(g, dist, done, prev, order, v));
            }
            if p != u2 {
                assert(done[p] && done[u2] && order[p] < order[u2]);
            }
        }
    }
}

/// Prepending to the path retraced so far the edge `e` by which the predecessor record of
/// its first node reaches it keeps the path retraced.
proof fn lemma_prepend_record(
    g: GraphView,
    prev: Seq<Option<(usize, usize)>>,
    dist: Seq<Option<u128>>,
    v: int,
    es: Seq<int>,
    p: int,
    e: int,
)
    requires
        0 <= v < prev.len(),
        0 <= p <= usize::MAX,
        0 <= e <= usize::MAX,
        prev[v] == Some((p as usize, e as usize)),
        dist_of(dist, v) == dist_of(dist, p) + g.edges[e].weight,
        g.edges[e].sink == v,
        records_follow(g, prev, v, es),
        distances_follow(g, dist, v, es, dist_of(dist, v)),
    ensures
        records_follow(g, prev, p, seq![e] + es),
        distances_follow(g, dist, p, seq![e] + es, dist_of(dist, p)),
{
    let es2 = seq![e] + es;
    let pn = path_nodes(g, v, es);
    let pn2 = path_nodes(g, p, es2);
    assert(es2.drop_first() =~= es);
    assert(pn2 == seq![p] + pn);
    lemma_path_nodes_len(g, v, es);
    assert(pn[0] == v);
    assert forall|i: int| 0 <= i < es2.len() implies #[trigger] record_at(prev, pn2, es2, i) by {
        if i > 0 {
            assert(record_at(prev, pn, es, i - 1));
            assert(pn2[i + 1] == pn[i]);
            assert(pn2[i] == pn[i - 1]);
            assert(es2[i] == es[i - 1]);
        } else {
            assert(pn2[1] == v);
        }
    }
    assert forall|i: int|
        0 <= i <= es2.len() implies dist_of(dist, #[trigger] pn2[i]) == dist_of(dist, p) + path_cost(
        g,
        es2.take(i),
    ) by {
        if i > 0 {
            assert(pn2[i] == pn[i - 1]);
            assert(es2.take(i).drop_first() =~= es.take(i - 1));
            assert(es2.take(i)[0] == e);
            assert(dist_of(dist, pn[i - 1]) == dist_of(dist, v) + path_cost(g, es.take(i - 1)));
        } else {
            assert(es2.take(0).len() == 0);
        }
    }
}

/// Edge weights are never negative, so neither is the cost of a sequence of edges.
proof fn lemma_cost_nonnegative(g: GraphView, es: Seq<int>)
    requires
        g.wf(),
        forall|j: int| 0 <= j < es.len() ==> 0 <= #[trigger] es[j] < g.edges.len(),
    ensures
        path_cost(g, es) >= 0,
    decreases es.len(),
{
    if es.len() > 0 {
        assert(0 <= es[0] < g.edges.len());
        assert(g.edges[es[0]] == g.edges[es[0]]);
        lemma_cost_nonnegative(g, es.drop_first());
    }
}

/// Each node of the route after the first has a predecessor record, that of the route.
proof fn lemma_route_node_recorded(
    g: GraphView,
    s: int,
    t: int,
    dist: Seq<Option<u128>>,
    done: Seq<bool>,
    prev: Seq<Option<(usize, usize)>>,
    order: Seq<int>,
    step: int,
    es: Seq<int>,
    i: int,
)
    requires
        search_inv(g, s, dist, done, prev, order, step),
        is_path(g, s, t, es),
        records_follow(g, prev, s, es),
        distances_follow(g, dist, s, es, 0),
        no_repeats(path_nodes(g, s, es)),
        0 <= i < es.len(),
    ensures
        dist[path_nodes(g, s, es)[i + 1]] is Some,
        path_nodes(g, s, es)[i + 1] != s,
        prev_ok(g, dist, done, prev, order, path_nodes(g, s, es)[i + 1]),
        record_at(prev, path_nodes(g, s, es), es, i),
        0 <= path_nodes(g, s, es)[i + 1] < g.node_ids.len(),
{
    let pn = path_nodes(g, s, es);
    lemma_path_nodes_len(g, s, es);
    lemma_path_nodes_edges(g, s, t, es);
    assert(record_at(prev, pn, es, i));
    assert(dist_of(dist, pn[i + 1]) == path_cost(g, es.take(i + 1)));
    assert forall|j: int| 0 <= j < es.take(i + 1).len() implies 0 <= #[trigger] es.take(i + 1)[j]
        < g.edges.len() by {
        assert(es.take(i + 1)[j] == es[j]);
    }
    lemma_cost_nonnegative(g, es.take(i + 1));
    assert(pn[0] == s);
    assert(pn[0] != pn[i + 1]);
    assert(g.edges[es[i]] == g.edges[es[i]]);
}

/// The route that the predecessor records give enters each of its nodes by the preferred
/// edge, as the finishing order of the search defines it.
proof fn lemma_route_enters_by_preferred_edges(
    g: GraphView,
    s: int,
    t: int,
    dist: Seq<Option<u128>>,
    done: Seq<bool>,
    prev: Seq<Option<(usize, usize)>>,
    order: Seq<int>,
    step: int,
    f: Seq<int>,
    d: Seq<int>,
    es: Seq<int>,
)
    requires
        search_inv(g, s, dist, done, prev, order, step),
        ties_inv(g, s, dist, done, prev, order),
        history_inv(g, s, dist, done, order, step, f, d),
        is_path(g, s, t, es),
        records_follow(g, prev, s, es),
        distances_follow(g, dist, s, es, 0),
        no_repeats(path_nodes(g, s, es)),
    ensures
        exists|ks: Seq<int>| enters_by_preferred_edges(g, s, f, d, ks, es),
{
    let pn = path_nodes(g, s, es);
    lemma_path_nodes_len(g, s, es);
    lemma_path_nodes_edges(g, s, t, es);
    let ks = Seq::new(es.len(), |i: int| order[pn[i]]);
    assert forall|i: int| 0 <= i < es.len() implies 0 <= #[trigger] ks[i] < f.len() && f[ks[i]]
        == pn[i] && d[ks[i]] == path_cost(g, es.take(i)) by {
        let v = pn[i + 1];
        lemma_route_node_recorded(g, s, t, dist, done, prev, order, step, es, i);
        assert(record_at(prev, pn, es, i));
        let p = pn[i];
        assert(done[p]);
        assert(f[order[p]] == p);
        assert(dist_of(dist, pn[i]) == path_cost(g, es.take(i)));
        assert(dist_of(dist, f[order[p]]) == d[order[p]]);
    }
    assert forall|i: int, j2: int, e2: int|
        #![trigger ks[i], f[j2], g.edges[e2]]
        0 <= i < es.len() && 0 <= j2 < f.len() && 0 <= e2 < g.edges.len() && g.edges[e2].source
            == f[j2] && g.edges[e2].sink == pn[i + 1] && d[j2] + g.edges[e2].weight == path_cost(
            g,
            es.take(i + 1),
        ) implies ks[i] < j2 || (ks[i] == j2 && es[i] <= e2) by {
        let v = pn[i + 1];
        lemma_route_node_recorded(g, s, t, dist, done, prev, order, step, es, i);
        assert(record_at(prev, pn, es, i));
        assert(done[f[j2]] && order[f[j2]] == j2 && dist_of(dist, f[j2]) == d[j2]);
        assert(dist_of(dist, pn[i + 1]) == path_cost(g, es.take(i + 1)));
        assert(v != s);
        assert(record_preferred(prev, order, f[j2], e2, v));
    }
    assert(enters_by_preferred_edges(g, s, f, d, ks, es));
}

/// Follows the predecessor records back from the goal `t`, which the search reached at
/// distance `dg`, to the start `s`.
#[verifier::spinoff_prover]
#[verifier::rlimit(30)]
fn trace_back(
    graph: &Graph,
    prev: &Vec<Option<(NodeIndex, EdgeIndex)>>,
    start_index: usize,
    goal_index: usize,
    dg: u128,
    Ghost(dist): Ghost<Seq<Option<u128>>>,
    Ghost(done): Ghost<Seq<bool>>,
    Ghost(order): Ghost<Seq<int>>,
    Ghost(step): Ghost<int>,
) -> (res: (Vec<NodeId>, Vec<EdgeId>, Ghost<Seq<int>>))
    requires
        search_inv(graph@, start_index as int, dist, done, prev@, order, step),
        goal_index < graph@.node_ids.len(),
        !done[goal_index as int],
        dist[goal_index as int] == Some(dg),
        graph@.index_of(graph@.node_ids[goal_index as int]) == goal_index,
    ensures
        ({
            let (node_path, edge_path, es) = res;
            let g = graph@;
            &&& is_path(g, start_index as int, goal_index as int, es@)
            &&& no_repeats(path_nodes(g, start_index as int, es@))
            &&& resolved_nodes(g, path_nodes(g, start_index as int, es@))
            &&& path_cost(g, es@) == dg
            &&& records_follow(g, prev@, start_index as int, es@)
            &&& distances_follow(g, dist, start_index as int, es@, 0)
            &&& string_views(node_path@) == path_nodes(g, start_index as int, es@).reverse().map_values(
                |v: int| g.node_ids[v],
            )
            &&& string_views(edge_path@) == es@.reverse().map_values(|e: int| g.edges[e].id)
        }),
{
    let ghost g = graph@;
    let ghost s = start_index as int;
    let ghost t = goal_index as int;
    let mut node_path: Vec<NodeId> = Vec::new();
    node_path.push(graph.node_id(goal_index).clone());
    let mut edge_path: Vec<EdgeId> = Vec::new();
    let ghost mut es: Seq<int> = Seq::empty();
    let mut current = goal_index;
    proof {
        assert(string_views(node_path@) =~= path_nodes(g, t, es).reverse().map_values(
            |v: int| g.node_ids[v],
        ));
        assert(string_views(edge_path@) =~= es.reverse().map_values(|e: int| g.edges[e].id));
        assert(path_nodes(g, t, es) == seq![t]);
    }
    while current != start_index
        invariant
            search_inv(g, s, dist, done, prev@, order, step),
            g == graph@,
            s == start_index,
            0 <= t < g.node_ids.len(),
            !done[t],
            0 <= current < g.node_ids.len(),
            dist[current as int] is Some,
            is_path(g, current as int, t, es),
            path_cost(g, es) + dist[current as int]->0 == dg,
            string_views(node_path@) == path_nodes(g, current as int, es).reverse().map_values(
                |v: int| g.node_ids[v],
            ),
            string_views(edge_path@) == es.reverse().map_values(|e: int| g.edges[e].id),
            resolved_nodes(g, path_nodes(g, current as int, es)),
            records_follow(g, prev@, current as int, es),
            distances_follow(g, dist, current as int, es, dist_of(dist, current as int)),
            forall|i: int, j: int|
                0 <= i < j < path_nodes(g, current as int, es).len() ==> finish_rank(
                    done,
                    order,
                    step,
                    path_nodes(g, current as int, es)[i],
                ) < finish_rank(done, order, step, path_nodes(g, current as int, es)[j]),
        decreases if done[current as int] {
            order[current as int]
        } else {
            step
        },
    {
        assert(prev_ok(g, dist, done, prev@, order, current as int));
        let (parent, edge_index) = match prev[current] {
            Some(p) => p,
            None => (0, 0),
        };
        let ghost old_es = es;
        let ghost old_current = current as int;
        let ghost old_nodes = node_path@;
        let ghost old_edges = edge_path@;
        edge_path.push(graph.edge(edge_index).id.clone());
        node_path.push(graph.node_id(parent).clone());
        proof {
            es = seq![edge_index as int] + old_es;
            assert(es.drop_first() =~= old_es);
            let p = parent as int;
            assert(path_nodes(g, p, es) == seq![p] + path_nodes(g, old_current, old_es));
            assert((seq![p] + path_nodes(g, old_current, old_es)).reverse()
                =~= path_nodes(g, old_current, old_es).reverse().push(p));
            assert(string_views(node_path@) =~= string_views(old_nodes).push(g.node_ids[p]));
            assert(string_views(node_path@) =~= path_nodes(g, p, es).reverse().map_values(
                |v: int| g.node_ids[v],
            ));
            assert(es.reverse() =~= old_es.reverse().push(edge_index as int));
            assert(string_views(edge_path@) =~= string_views(old_edges).push(g.edges[edge_index as int].id));
            assert(string_views(edge_path@) =~= es.reverse().map_values(|e: int| g.edges[e].id));
            let old_pn = path_nodes(g, old_current, old_es);
            let pn = path_nodes(g, p, es);
            lemma_path_nodes_len(g, old_current, old_es);
            assert(old_pn[0] == old_current);
            assert(g.edges[edge_index as int] == g.edges[edge_index as int]);
            assert forall|i: int| 0 <= i < pn.len() implies 0 <= #[trigger] pn[i] < g.node_ids.len()
                && g.index_of(g.node_ids[pn[i]]) == pn[i] by {
                if i > 0 {
                    assert(pn[i] == old_pn[i - 1]);
                }
            }
            assert(prev@[old_current] == Some((parent, edge_index)));
            lemma_prepend_record(g, prev@, dist, old_current, old_es, p, edge_index as int);
            assert forall|i: int, j: int| 0 <= i < j < pn.len() implies finish_rank(
                done,
                order,
                step,
                pn[i],
            ) < finish_rank(done, order, step, pn[j]) by {
                assert(pn[j] == old_pn[j - 1]);
                if i > 0 {
                    assert(pn[i] == old_pn[i - 1]);
                } else {
                    if j - 1 > 0 {
                        assert(finish_rank(done, order, step, old_pn[0]) < finish_rank(done, order, step, old_pn[j - 1]));
                    }
                }
            }
        }
        current = parent;
    }
    proof {
        let pn = path_nodes(g, s, es);
        assert(current as int == s);
        assert forall|i: int|
            0 <= i <= es.len() implies dist_of(dist, #[trigger] pn[i]) == 0 + path_cost(g, es.take(i)) by {
            assert(dist_of(dist, pn[i]) == dist_of(dist, current as int) + path_cost(g, es.take(i)));
        }
        assert forall|i: int, j: int| 0 <= i < j < pn.len() implies pn[i] != pn[j] by {
            assert(finish_rank(done, order, step, pn[i]) < finish_rank(done, order, step, pn[j]));
        }
    }
    (node_path, edge_path, Ghost(es))
}

/// Plans the shortest route between two nodes of a validated graph using
/// Dijkstra's algorithm, respecting edge direction.
#[verifier::spinoff_prover]
#[verifier::rlimit(30)]
pub fn plan_route(graph: &Graph, start: &str, goal: &str) -> (result: Result<
    RouteResult,
    RouteError,
>)
    ensures
        route_outcome(graph@, start@, goal@, result),
{
    let ghost g = graph@;
    proof {
        lemma_last_index_of(g.node_ids, start@);
        lemma_last_index_of(g.node_ids, goal@);
    }
    let start_index = match graph.node_index(start) {
        Some(i) => i,
        None => {
            return Err(RouteError::UnknownStart(start.to_owned()));
        },
    };
    let goal_index = match graph.node_index(goal) {
        Some(i) => i,
        None => {
            return Err(RouteError::UnknownGoal(goal.to_owned()));
        },
    };
    let ghost s = start_index as int;
    let ghost t = goal_index as int;

    if start_index == goal_index {
        let mut nodes: Vec<NodeId> = Vec::new();
        nodes.push(graph.node_id(start_index).clone());
        let route = RouteResult { nodes, edges: Vec::new(), distance: 0 };
        proof {
            let es = Seq::<int>::empty();
            assert(path_nodes(g, s, es) == seq![s]);
            assert(string_views(route.nodes@) =~= path_nodes(g, s, es).map_values(
                |v: int| g.node_ids[v],
            ));
            assert(string_views(route.edges@) =~= es.map_values(|e: int| g.edges[e].id));
            assert forall|other: Seq<int>| #[trigger] is_path(g, s, t, other) implies path_cost(
                g,
                es,
            ) <= path_cost(g, other) by {
                lemma_path_cost_nonnegative(g, s, t, other);
            }
            assert(start@ == goal@);
            assert(is_shortest_path(g, s, t, es) && describes_route(g, s, es, route) && (
            positive_weights(g) ==> ties_broken(g, s, es)) && (start@ != goal@ ==> preferred_route(
                g,
                s,
                t,
                es,
            )));
            assert(no_repeats(string_views(route.nodes@)));
        }
        return Ok(route);
    }

    let (dist, done, prev, reached, Ghost(order), Ghost(step), Ghost(fin), Ghost(fin_dist)) = search(
        graph,
        start_index,
        goal_index,
    );
    if !reached {
        proof {
            assert(!reachable(g, s, t)) by {
                if reachable(g, s, t) {
                    let es = choose|es: Seq<int>| is_path(g, s, t, es);
                    assert(done@[s]);
                    lemma_closed(g, dist@, done@, s, t, es);
                }
            }
        }
        return Err(RouteError::NoRoute(start.to_owned(), goal.to_owned()));
    }
    let dg: u128 = match dist[goal_index] {
        Some(x) => x,
        None => 0,
    };
    let (node_path, edge_path, Ghost(es)) = trace_back(
        graph,
        &prev,
        start_index,
        goal_index,
        dg,
        Ghost(dist@),
        Ghost(done@),
        Ghost(order),
        Ghost(step),
    );
    proof {
        assert forall|other: Seq<int>| #[trigger] is_path(g, s, t, other) implies path_cost(g, es)
            <= path_cost(g, other) by {
            if done@[s] {
                lemma_frontier(g, dist@, done@, s, t, other, dg as int);
            } else {
                lemma_path_cost_nonnegative(g, s, t, other);
            }
        }
    }
    let nodes = reversed(node_path);
    let edges = reversed(edge_path);
    let route = RouteResult { nodes, edges, distance: dg };
    proof {
        let pn = path_nodes(g, s, es);
        let f = |v: int| g.node_ids[v];
        let h = |e: int| g.edges[e].id;
        let sv = |x: String| x@;
        lemma_reverse_map(pn.reverse(), f);
        assert(pn.reverse().reverse() =~= pn);
        lemma_reverse_map(es.reverse(), h);
        assert(es.reverse().reverse() =~= es);
        lemma_reverse_map(node_path@, sv);
        lemma_reverse_map(edge_path@, sv);
        assert(string_views(route.nodes@) =~= pn.map_values(f));
        assert(string_views(route.edges@) =~= es.map_values(h));
        lemma_path_nodes_len(g, s, es);
        lemma_route_ties_broken(g, s, t, dist@, done@, prev@, order, step, dg as int, es);
        lemma_route_enters_by_preferred_edges(g, s, t, dist@, done@, prev@, order, step, fin, fin_dist, es);
        let ks = choose|ks: Seq<int>| enters_by_preferred_edges(g, s, fin, fin_dist, ks, es);
        assert(search_history(g, s, t, fin, fin_dist, path_cost(g, es)));
        assert(preferred_route(g, s, t, es));
        assert(is_shortest_path(g, s, t, es) && describes_route(g, s, es, route) && (
        positive_weights(g) ==> ties_broken(g, s, es)) && (start@ != goal@ ==> preferred_route(
            g,
            s,
            t,
            es,
        )));
        let names = string_views(route.nodes@);
        assert forall|i: int, j: int| 0 <= i < j < names.len() implies names[i] != names[j] by {
            assert(names[i] == g.node_ids[pn[i]]);
            assert(names[j] == g.node_ids[pn[j]]);
            assert(pn[i] != pn[j]);
            assert(g.index_of(g.node_ids[pn[i]]) == pn[i]);
            assert(g.index_of(g.node_ids[pn[j]]) == pn[j]);
        }
    }
    Ok(route)
}

} // verus!
