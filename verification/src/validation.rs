//! Layout validation: every rule violation is reported, in a fixed order, and only a
//! layout without violations is turned into a routing graph.
use vstd::prelude::*;
use vstd::hash_map::StringHashMap;
use vstd::hash_set::StringHashSet;

use crate::connectivity::{adj_path, adj_reachable, adjacency_view, bfs_reachable};
use crate::graph::{as_ints, graph_of_layout, Graph, NodeIndex};
use crate::models::{
    is_routable, last_index_of, lemma_last_index_of, lemma_last_index_of_push, node_ids, Edge,
    Layout, Node,
};
use crate::text::{
    blank, decimal, decimal_string, id_order, is_blank, join, join_strings, sort_strings, views,
};

verus! {

/// A violated rule: the rule's identifier and a description of the violation.
#[derive(Debug, PartialEq)]
pub struct ValidationError {
    /// Machine readable rule identifier, useful for tests/UI.
    pub rule: String,
    /// Human readable description of what went wrong.
    pub message: String,
}

/// A violation as a pair of rule identifier and message.
pub type Violation = (Seq<char>, Seq<char>);

/// The (rule, message) pairs of `errors`.
pub open spec fn violation_views(errors: Seq<ValidationError>) -> Seq<Violation> {
    errors.map_values(|e: ValidationError| (e.rule@, e.message@))
}

/// The violations reported for items `0..k`, item `i` contributing `f(i)`, in order.
pub open spec fn concat_items(f: spec_fn(int) -> Seq<Violation>, k: int) -> Seq<Violation>
    decreases k,
{
    if k <= 0 {
        seq![]
    } else {
        concat_items(f, k - 1) + f(k - 1)
    }
}

pub proof fn lemma_concat_items_nonempty(f: spec_fn(int) -> Seq<Violation>, k: int, i: int)
    requires
        0 <= i < k,
        f(i).len() > 0,
    ensures
        concat_items(f, k).len() > 0,
    decreases k,
{
    if i < k - 1 {
        lemma_concat_items_nonempty(f, k - 1, i);
    }
}

/// The ids of `edges`, in order.
pub open spec fn edge_ids(edges: Seq<Edge>) -> Seq<Seq<char>> {
    edges.map_values(|e: Edge| e.id@)
}

// --- Rule: node positions must produce finite route weights ---------------------

/// The violation of node `node` under the finite-position rule, if any.
pub open spec fn finite_position_item(node: Node) -> Seq<Violation> {
    if node.position.in_range() {
        seq![]
    } else {
        seq![("finite_node_position"@, "Node '"@ + node.id@ + "' has a non-finite position"@)]
    }
}

pub open spec fn finite_position_items(nodes: Seq<Node>) -> spec_fn(int) -> Seq<Violation> {
    |i: int| finite_position_item(nodes[i])
}

// --- Rule: unique node ids -------------------------------------------------------

/// The violation of node `i` under the unique-node-id rule: its id occurs earlier.
pub open spec fn duplicate_node_item(nodes: Seq<Node>, i: int) -> Seq<Violation> {
    if node_ids(nodes).take(i).contains(nodes[i].id@) {
        seq![("unique_node_id"@, "Duplicate node id '"@ + nodes[i].id@ + "'"@)]
    } else {
        seq![]
    }
}

pub open spec fn duplicate_node_items(nodes: Seq<Node>) -> spec_fn(int) -> Seq<Violation> {
    |i: int| duplicate_node_item(nodes, i)
}

// --- Rule: unique edge ids -------------------------------------------------------

/// The violation of edge `i` under the unique-edge-id rule: its id occurs earlier.
pub open spec fn duplicate_edge_item(edges: Seq<Edge>, i: int) -> Seq<Violation> {
    if edge_ids(edges).take(i).contains(edges[i].id@) {
        seq![("unique_edge_id"@, "Duplicate edge id '"@ + edges[i].id@ + "'"@)]
    } else {
        seq![]
    }
}

pub open spec fn duplicate_edge_items(edges: Seq<Edge>) -> spec_fn(int) -> Seq<Violation> {
    |i: int| duplicate_edge_item(edges, i)
}

// --- Rule: edges have both endpoints set and reference existing nodes --------------

/// The violations of edge `edge`, given the node ids `ids`: a missing endpoint, an unknown
/// source, an unknown sink, and a self loop, in that order. Self loops are rejected: a
/// driveway that leads back to the same intersection is not a useful edge.
pub open spec fn edge_item(ids: Seq<Seq<char>>, edge: Edge) -> Seq<Violation> {
    (if is_blank(edge.source@) || is_blank(edge.sink@) {
        seq![
            (
                "edge_endpoints_present"@,
                "Edge '"@ + edge.id@
                    + "' is not connected on both ends (source or sink missing)"@,
            ),
        ]
    } else {
        seq![]
    }) + (if !ids.contains(edge.source@) {
        seq![
            (
                "edge_references_existing_node"@,
                "Edge '"@ + edge.id@ + "' references unknown source node '"@ + edge.source@
                    + "'"@,
            ),
        ]
    } else {
        seq![]
    }) + (if !ids.contains(edge.sink@) {
        seq![
            (
                "edge_references_existing_node"@,
                "Edge '"@ + edge.id@ + "' references unknown sink node '"@ + edge.sink@ + "'"@,
            ),
        ]
    } else {
        seq![]
    }) + (if edge.source@ == edge.sink@ {
        seq![
            (
                "edge_no_self_loop"@,
                "Edge '"@ + edge.id@ + "' connects node '"@ + edge.source@
                    + "' to itself, which is not a valid driveway"@,
            ),
        ]
    } else {
        seq![]
    })
}

pub open spec fn edge_items(ids: Seq<Seq<char>>, edges: Seq<Edge>) -> spec_fn(int) -> Seq<
    Violation,
> {
    |i: int| edge_item(ids, edges[i])
}

/// Edge `edge` lacks an endpoint or names a node that is not among `ids`.
pub open spec fn dangles(ids: Seq<Seq<char>>, edge: Edge) -> bool {
    ||| is_blank(edge.source@)
    ||| is_blank(edge.sink@)
    ||| !ids.contains(edge.source@)
    ||| !ids.contains(edge.sink@)
}

/// Some edge of `layout` lacks an endpoint or names a node that does not exist.
pub open spec fn has_dangling_reference(layout: &Layout) -> bool {
    exists|e: int|
        0 <= e < layout.edges@.len() && dangles(node_ids(layout.nodes@), #[trigger] layout.edges@[e])
}

// --- Rule: every node has at least two edges attached ------------------------------

/// The number of edge ends among the first `k` edges that attach to node id `id`; a self
/// loop attaches twice.
pub open spec fn attached_ends(edges: Seq<Edge>, id: Seq<char>, k: int) -> nat
    decreases k,
{
    if k <= 0 {
        0
    } else {
        attached_ends(edges, id, k - 1) + (if edges[k - 1].source@ == id {
            1nat
        } else {
            0nat
        }) + (if edges[k - 1].sink@ == id {
            1nat
        } else {
            0nat
        })
    }
}

/// The number of edges attached to node id `id`, counting both directions.
pub open spec fn degree(edges: Seq<Edge>, id: Seq<char>) -> nat {
    attached_ends(edges, id, edges.len() as int)
}

/// The violation of node `node` under the minimum-degree rule, if any.
pub open spec fn degree_item(edges: Seq<Edge>, node: Node) -> Seq<Violation> {
    if degree(edges, node.id@) < 2 {
        seq![
            (
                "min_two_edges"@,
                "Node '"@ + node.id@ + "' only has "@ + decimal(degree(edges, node.id@))
                    + " connected edge(s), at least 2 are required"@,
            ),
        ]
    } else {
        seq![]
    }
}

pub open spec fn degree_items(nodes: Seq<Node>, edges: Seq<Edge>) -> spec_fn(int) -> Seq<
    Violation,
> {
    |i: int| degree_item(edges, nodes[i])
}

// --- Rule: every node reachable from every other node ------------------------------

/// `es` lists edges of `layout` that lead, one after the other, from node id `from` to
/// node id `to`.
pub open spec fn layout_path(layout: &Layout, from: Seq<char>, to: Seq<char>, es: Seq<int>) -> bool
    decreases es.len(),
{
    if es.len() == 0 {
        from == to
    } else {
        &&& 0 <= es[0] < layout.edges@.len()
        &&& layout.edges@[es[0]].source@ == from
        &&& layout_path(layout, layout.edges@[es[0]].sink@, to, es.drop_first())
    }
}

/// Following the edges of `layout` leads from node id `from` to node id `to`.
pub open spec fn layout_reachable(layout: &Layout, from: Seq<char>, to: Seq<char>) -> bool {
    exists|es: Seq<int>| #[trigger] layout_path(layout, from, to, es)
}

/// Node id `id` cannot be reached from `start`.
pub open spec fn unreachable_pred(layout: &Layout, start: Seq<char>) -> spec_fn(Seq<char>) -> bool {
    |id: Seq<char>| !layout_reachable(layout, start, id)
}

/// Node id `start` cannot be reached from `id`.
pub open spec fn cannot_reach_pred(layout: &Layout, start: Seq<char>) -> spec_fn(Seq<char>) -> bool {
    |id: Seq<char>| !layout_reachable(layout, id, start)
}

/// The ids of the nodes, in node order, that cannot be reached from `start`.
pub open spec fn unreachable_from(layout: &Layout, start: Seq<char>) -> Seq<Seq<char>> {
    node_ids(layout.nodes@).filter(unreachable_pred(layout, start))
}

/// The ids of the nodes, in node order, from which `start` cannot be reached.
pub open spec fn cannot_reach(layout: &Layout, start: Seq<char>) -> Seq<Seq<char>> {
    node_ids(layout.nodes@).filter(cannot_reach_pred(layout, start))
}

/// The strong-connectivity violations of `layout`, checked from its first node once every
/// edge names existing nodes.
pub open spec fn connectivity_violations(layout: &Layout) -> Seq<Violation> {
    if has_dangling_reference(layout) || layout.nodes@.len() == 0 {
        seq![]
    } else {
        let start = layout.nodes@[0].id@;
        let unreachable = unreachable_from(layout, start);
        let cannot = cannot_reach(layout, start);
        (if unreachable.len() > 0 {
            seq![
                (
                    "strongly_connected"@,
                    "Node(s) ["@ + join(unreachable.sort_by(id_order()), ", "@)
                        + "] are not reachable from node '"@ + start + "'"@,
                ),
            ]
        } else {
            seq![]
        }) + (if cannot.len() > 0 {
            seq![
                (
                    "strongly_connected"@,
                    "Node(s) ["@ + join(cannot.sort_by(id_order()), ", "@) + "] cannot reach node '"@
                        + start + "'"@,
                ),
            ]
        } else {
            seq![]
        })
    }
}

/// Every violation of `layout`, in the order the rules are checked: finite positions,
/// unique node ids, unique edge ids, edge endpoints, node degrees, strong connectivity.
pub open spec fn layout_violations(layout: &Layout) -> Seq<Violation> {
    let nodes = layout.nodes@;
    let edges = layout.edges@;
    concat_items(finite_position_items(nodes), nodes.len() as int) + concat_items(
        duplicate_node_items(nodes),
        nodes.len() as int,
    ) + concat_items(duplicate_edge_items(edges), edges.len() as int) + concat_items(
        edge_items(node_ids(nodes), edges),
        edges.len() as int,
    ) + concat_items(degree_items(nodes, edges), nodes.len() as int) + connectivity_violations(
        layout,
    )
}

/// Growing a prefix by one element adds exactly that element.
proof fn lemma_take_push_contains(all: Seq<Seq<char>>, i: int)
    requires
        0 <= i < all.len(),
    ensures
        forall|id: Seq<char>|
            #[trigger] all.take(i + 1).contains(id) <==> (all.take(i).contains(id) || id == all[i]),
{
    let prev = all.take(i);
    let next = all.take(i + 1);
    assert(next =~= prev.push(all[i]));
    assert forall|id: Seq<char>| next.contains(id) <==> (prev.contains(id) || id == all[i]) by {
        if next.contains(id) {
            let j = choose|j: int| 0 <= j < next.len() && #[trigger] next[j] == id;
            if j < i {
                assert(prev[j] == id);
            }
        }
        if prev.contains(id) {
            let j = choose|j: int| 0 <= j < prev.len() && #[trigger] prev[j] == id;
            assert(next[j] == id);
        }
        if id == all[i] {
            assert(next[i] == id);
        }
    }
}

// --- Building violations -------------------------------------------------------------

fn violation(rule: &str, message: String) -> (error: ValidationError)
    ensures
        error.rule@ == rule@,
        error.message@ == message@,
{
    ValidationError { rule: rule.to_owned(), message }
}

fn push_violation(errors: &mut Vec<ValidationError>, rule: &str, message: String)
    ensures
        violation_views(final(errors)@) == violation_views(old(errors)@).push((rule@, message@)),
{
    let ghost before = errors@;
    errors.push(violation(rule, message));
    assert(violation_views(errors@) =~= violation_views(before).push((rule@, message@)));
}

/// Appends the finite-position violations.
fn check_finite_positions(layout: &Layout, errors: &mut Vec<ValidationError>)
    ensures
        violation_views(final(errors)@) == violation_views(old(errors)@) + concat_items(
            finite_position_items(layout.nodes@),
            layout.nodes@.len() as int,
        ),
{
    let ghost start = violation_views(errors@);
    let ghost f = finite_position_items(layout.nodes@);
    for i in 0..layout.nodes.len()
        invariant
            f == finite_position_items(layout.nodes@),
            violation_views(errors@) == start + concat_items(f, i as int),
    {
        let node = &layout.nodes[i];
        if !node.position.is_finite() {
            let mut message = String::new();
            message.append("Node '");
            message.append(node.id.as_str());
            message.append("' has a non-finite position");
            push_violation(errors, "finite_node_position", message);
        }
        assert(concat_items(f, i + 1) == concat_items(f, i as int) + f(i as int));
        assert(violation_views(errors@) =~= start + concat_items(f, i + 1));
    }
}

/// Appends the unique-node-id violations and returns the set of node ids.
fn check_unique_node_ids(layout: &Layout, errors: &mut Vec<ValidationError>) -> (ids: StringHashSet)
    ensures
        violation_views(final(errors)@) == violation_views(old(errors)@) + concat_items(
            duplicate_node_items(layout.nodes@),
            layout.nodes@.len() as int,
        ),
        forall|id: Seq<char>| ids@.contains(id) <==> node_ids(layout.nodes@).contains(id),
{
    let ghost start = violation_views(errors@);
    let ghost nodes = layout.nodes@;
    let ghost all = node_ids(nodes);
    let ghost f = duplicate_node_items(nodes);
    let mut ids = StringHashSet::new();
    for i in 0..layout.nodes.len()
        invariant
            nodes == layout.nodes@,
            all == node_ids(nodes),
            f == duplicate_node_items(nodes),
            violation_views(errors@) == start + concat_items(f, i as int),
            forall|id: Seq<char>| ids@.contains(id) <==> all.take(i as int).contains(id),
    {
        let node = &layout.nodes[i];
        proof {
            lemma_take_push_contains(all, i as int);
        }
        if !ids.insert(node.id.clone()) {
            let mut message = String::new();
            message.append("Duplicate node id '");
            message.append(node.id.as_str());
            message.append("'");
            push_violation(errors, "unique_node_id", message);
        }
        assert(concat_items(f, i + 1) == concat_items(f, i as int) + f(i as int));
        assert(violation_views(errors@) =~= start + concat_items(f, i + 1));
    }
    assert(all.take(layout.nodes@.len() as int) =~= all);
    ids
}

/// Appends the unique-edge-id violations.
fn check_unique_edge_ids(layout: &Layout, errors: &mut Vec<ValidationError>)
    ensures
        violation_views(final(errors)@) == violation_views(old(errors)@) + concat_items(
            duplicate_edge_items(layout.edges@),
            layout.edges@.len() as int,
        ),
{
    let ghost start = violation_views(errors@);
    let ghost edges = layout.edges@;
    let ghost all = edge_ids(edges);
    let ghost f = duplicate_edge_items(edges);
    let mut ids = StringHashSet::new();
    for i in 0..layout.edges.len()
        invariant
            edges == layout.edges@,
            all == edge_ids(edges),
            f == duplicate_edge_items(edges),
            violation_views(errors@) == start + concat_items(f, i as int),
            forall|id: Seq<char>| ids@.contains(id) <==> all.take(i as int).contains(id),
    {
        let edge = &layout.edges[i];
        proof {
            lemma_take_push_contains(all, i as int);
        }
        if !ids.insert(edge.id.clone()) {
            let mut message = String::new();
            message.append("Duplicate edge id '");
            message.append(edge.id.as_str());
            message.append("'");
            push_violation(errors, "unique_edge_id", message);
        }
        assert(concat_items(f, i + 1) == concat_items(f, i as int) + f(i as int));
        assert(violation_views(errors@) =~= start + concat_items(f, i + 1));
    }
}

/// Appends the violations of one edge, given the node ids `all`, and returns whether the
/// edge dangles.
fn check_edge(
    edge: &Edge,
    ids: &StringHashSet,
    errors: &mut Vec<ValidationError>,
    Ghost(all): Ghost<Seq<Seq<char>>>,
) -> (dangling: bool)
    requires
        forall|id: Seq<char>| ids@.contains(id) <==> all.contains(id),
    ensures
        violation_views(final(errors)@) == violation_views(old(errors)@) + edge_item(all, *edge),
        dangling == dangles(all, *edge),
{
    let ghost before = violation_views(errors@);
    let source_blank = blank(edge.source.as_str());
    let sink_blank = blank(edge.sink.as_str());
    if source_blank || sink_blank {
        let mut message = String::new();
        message.append("Edge '");
        message.append(edge.id.as_str());
        message.append("' is not connected on both ends (source or sink missing)");
        push_violation(errors, "edge_endpoints_present", message);
    }
    let ghost first = violation_views(errors@);
    let known_source = ids.contains(edge.source.as_str());
    if !known_source {
        let mut message = String::new();
        message.append("Edge '");
        message.append(edge.id.as_str());
        message.append("' references unknown source node '");
        message.append(edge.source.as_str());
        message.append("'");
        push_violation(errors, "edge_references_existing_node", message);
    }
    let ghost second = violation_views(errors@);
    let known_sink = ids.contains(edge.sink.as_str());
    if !known_sink {
        let mut message = String::new();
        message.append("Edge '");
        message.append(edge.id.as_str());
        message.append("' references unknown sink node '");
        message.append(edge.sink.as_str());
        message.append("'");
        push_violation(errors, "edge_references_existing_node", message);
    }
    let ghost third = violation_views(errors@);
    if edge.source == edge.sink {
        let mut message = String::new();
        message.append("Edge '");
        message.append(edge.id.as_str());
        message.append("' connects node '");
        message.append(edge.source.as_str());
        message.append("' to itself, which is not a valid driveway");
        push_violation(errors, "edge_no_self_loop", message);
    }
    assert(violation_views(errors@) =~= before + edge_item(all, *edge));
    source_blank || sink_blank || !known_source || !known_sink
}

/// Appends the edge violations and returns whether some edge dangles.
fn check_edges(layout: &Layout, ids: &StringHashSet, errors: &mut Vec<ValidationError>) -> (dangling: bool)
    requires
        forall|id: Seq<char>| ids@.contains(id) <==> node_ids(layout.nodes@).contains(id),
    ensures
        violation_views(final(errors)@) == violation_views(old(errors)@) + concat_items(
            edge_items(node_ids(layout.nodes@), layout.edges@),
            layout.edges@.len() as int,
        ),
        dangling == has_dangling_reference(layout),
{
    let ghost start = violation_views(errors@);
    let ghost all = node_ids(layout.nodes@);
    let ghost f = edge_items(all, layout.edges@);
    let mut dangling = false;
    for i in 0..layout.edges.len()
        invariant
            forall|id: Seq<char>| ids@.contains(id) <==> all.contains(id),
            all == node_ids(layout.nodes@),
            f == edge_items(all, layout.edges@),
            violation_views(errors@) == start + concat_items(f, i as int),
            dangling <==> exists|e: int| 0 <= e < i && dangles(all, #[trigger] layout.edges@[e]),
    {
        let ghost before = violation_views(errors@);
        let ghost was_dangling = dangling;
        let this_dangles = check_edge(&layout.edges[i], ids, errors, Ghost(all));
        dangling = dangling || this_dangles;
        proof {
            assert(concat_items(f, i + 1) == concat_items(f, i as int) + f(i as int));
            assert(violation_views(errors@) =~= start + concat_items(f, i + 1));
            if dangles(all, layout.edges@[i as int]) {
                assert(dangling);
            }
            if dangling && !dangles(all, layout.edges@[i as int]) {
                assert(was_dangling);
            }
        }
    }
    dangling
}

pub proof fn lemma_attached_ends_bound(edges: Seq<Edge>, id: Seq<char>, k: int)
    requires
        0 <= k,
    ensures
        attached_ends(edges, id, k) <= 2 * k,
    decreases k,
{
    if k > 0 {
        lemma_attached_ends_bound(edges, id, k - 1);
    }
}

/// Appends the minimum-degree violations.
fn check_degrees(layout: &Layout, errors: &mut Vec<ValidationError>)
    ensures
        violation_views(final(errors)@) == violation_views(old(errors)@) + concat_items(
            degree_items(layout.nodes@, layout.edges@),
            layout.nodes@.len() as int,
        ),
{
    let ghost start = violation_views(errors@);
    let ghost all = node_ids(layout.nodes@);
    let ghost edges = layout.edges@;
    let ghost f = degree_items(layout.nodes@, edges);
    let n = layout.nodes.len();
    let m = layout.edges.len();
    let mut counts: StringHashMap<u128> = StringHashMap::new();
    for i in 0..n
        invariant
            n == layout.nodes@.len(),
            all == node_ids(layout.nodes@),
            forall|id: Seq<char>| counts@.contains_key(id) <==> all.take(i as int).contains(id),
            forall|id: Seq<char>| #[trigger] counts@.contains_key(id) ==> counts@[id] == 0,
    {
        proof {
            lemma_take_push_contains(all, i as int);
        }
        counts.insert(layout.nodes[i].id.clone(), 0);
    }
    assert(all.take(n as int) =~= all);
    for j in 0..m
        invariant
            m == edges.len(),
            edges == layout.edges@,
            all == node_ids(layout.nodes@),
            forall|id: Seq<char>| counts@.contains_key(id) <==> all.contains(id),
            forall|id: Seq<char>|
                #[trigger] counts@.contains_key(id) ==> counts@[id] == attached_ends(edges, id, j as int),
    {
        let edge = &layout.edges[j];
        proof {
            lemma_attached_ends_bound(edges, edge.source@, j as int);
            lemma_attached_ends_bound(edges, edge.sink@, j as int);
        }
        let ghost before = counts@;
        match counts.get(edge.source.as_str()) {
            Some(d) => {
                let d = *d;
                counts.insert(edge.source.clone(), d + 1);
            },
            None => {},
        }
        let ghost middle = counts@;
        proof {
            lemma_attached_ends_bound(edges, edge.sink@, j as int);
            if middle.contains_key(edge.sink@) {
                assert(middle[edge.sink@] <= before[edge.sink@] + 1);
            }
        }
        match counts.get(edge.sink.as_str()) {
            Some(d) => {
                let d = *d;
                counts.insert(edge.sink.clone(), d + 1);
            },
            None => {},
        }
        proof {
            assert forall|id: Seq<char>| #[trigger] counts@.contains_key(id) implies counts@[id]
                == attached_ends(edges, id, j + 1) by {
                assert(attached_ends(edges, id, j + 1) == attached_ends(edges, id, j as int) + (if edges[j as int].source@ == id {
                    1nat
                } else {
                    0nat
                }) + (if edges[j as int].sink@ == id {
                    1nat
                } else {
                    0nat
                }));
            }
        }
    }
    for i in 0..n
        invariant
            n == layout.nodes@.len(),
            m == edges.len(),
            edges == layout.edges@,
            all == node_ids(layout.nodes@),
            f == degree_items(layout.nodes@, edges),
            forall|id: Seq<char>| counts@.contains_key(id) <==> all.contains(id),
            forall|id: Seq<char>|
                #[trigger] counts@.contains_key(id) ==> counts@[id] == degree(edges, id),
            violation_views(errors@) == start + concat_items(f, i as int),
    {
        let node = &layout.nodes[i];
        assert(all[i as int] == node.id@);
        assert(all.contains(node.id@));
        let d: u128 = match counts.get(node.id.as_str()) {
            Some(d) => *d,
            None => 0,
        };
        if d < 2 {
            let mut message = String::new();
            message.append("Node '");
            message.append(node.id.as_str());
            message.append("' only has ");
            let count = decimal_string(d);
            message.append(count.as_str());
            message.append(" connected edge(s), at least 2 are required");
            push_violation(errors, "min_two_edges", message);
        }
        assert(concat_items(f, i + 1) == concat_items(f, i as int) + f(i as int));
        assert(violation_views(errors@) =~= start + concat_items(f, i + 1));
    }
}

// --- Strong connectivity over node indices ----------------------------------------

/// The node index that node id `id` resolves to in `layout`.
pub open spec fn canonical(layout: &Layout, id: Seq<char>) -> int {
    last_index_of(node_ids(layout.nodes@), id)
}

/// The successors of node `x` through the first `k` edges, as resolved node indices.
pub open spec fn forward_prefix(layout: &Layout, x: int, k: int) -> Seq<int>
    decreases k,
{
    if k <= 0 {
        seq![]
    } else if canonical(layout, layout.edges@[k - 1].source@) == x {
        forward_prefix(layout, x, k - 1).push(canonical(layout, layout.edges@[k - 1].sink@))
    } else {
        forward_prefix(layout, x, k - 1)
    }
}

/// The predecessors of node `x` through the first `k` edges, as resolved node indices.
pub open spec fn backward_prefix(layout: &Layout, x: int, k: int) -> Seq<int>
    decreases k,
{
    if k <= 0 {
        seq![]
    } else if canonical(layout, layout.edges@[k - 1].sink@) == x {
        backward_prefix(layout, x, k - 1).push(canonical(layout, layout.edges@[k - 1].source@))
    } else {
        backward_prefix(layout, x, k - 1)
    }
}

/// Every edge of `layout` names existing nodes at both ends.
pub open spec fn endpoints_exist(layout: &Layout) -> bool {
    forall|e: int|
        0 <= e < layout.edges@.len() ==> node_ids(layout.nodes@).contains(
            #[trigger] layout.edges@[e].source@,
        ) && node_ids(layout.nodes@).contains(layout.edges@[e].sink@)
}

proof fn lemma_forward_prefix(layout: &Layout, x: int, k: int)
    requires
        0 <= k <= layout.edges@.len(),
        endpoints_exist(layout),
    ensures
        forall|y: int|
            #[trigger] forward_prefix(layout, x, k).contains(y) <==> exists|e: int|
                0 <= e < k && canonical(layout, #[trigger] layout.edges@[e].source@) == x
                    && canonical(layout, layout.edges@[e].sink@) == y,
        forall|j: int|
            0 <= j < forward_prefix(layout, x, k).len() ==> 0 <= #[trigger] forward_prefix(
                layout,
                x,
                k,
            )[j] < layout.nodes@.len(),
    decreases k,
{
    if k > 0 {
        lemma_forward_prefix(layout, x, k - 1);
        let p = forward_prefix(layout, x, k - 1);
        let e = layout.edges@[k - 1];
        assert(node_ids(layout.nodes@).contains(e.source@));
        assert(node_ids(layout.nodes@).contains(e.sink@));
        lemma_last_index_of(node_ids(layout.nodes@), e.sink@);
        assert forall|y: int| #[trigger] forward_prefix(layout, x, k).contains(y) <==> exists|e2: int|
            0 <= e2 < k && canonical(layout, #[trigger] layout.edges@[e2].source@) == x
                && canonical(layout, layout.edges@[e2].sink@) == y by {
            if forward_prefix(layout, x, k).contains(y) {
                if p.contains(y) {
                    let e2 = choose|e2: int|
                        0 <= e2 < k - 1 && canonical(layout, #[trigger] layout.edges@[e2].source@) == x
                            && canonical(layout, layout.edges@[e2].sink@) == y;
                } else {
                    let j = choose|j: int| 0 <= j < forward_prefix(layout, x, k).len() && forward_prefix(layout, x, k)[j] == y;
                    assert(j == p.len());
                    assert(canonical(layout, layout.edges@[k - 1].source@) == x);
                }
            }
            if exists|e2: int|
                0 <= e2 < k && canonical(layout, #[trigger] layout.edges@[e2].source@) == x
                    && canonical(layout, layout.edges@[e2].sink@) == y {
                let e2 = choose|e2: int|
                    0 <= e2 < k && canonical(layout, #[trigger] layout.edges@[e2].source@) == x
                        && canonical(layout, layout.edges@[e2].sink@) == y;
                if e2 < k - 1 {
                    assert(p.contains(y));
                    let j = choose|j: int| 0 <= j < p.len() && p[j] == y;
                    assert(forward_prefix(layout, x, k)[j] == y);
                } else {
                    assert(forward_prefix(layout, x, k)[p.len() as int] == y);
                }
            }
        }
    }
}

proof fn lemma_backward_prefix(layout: &Layout, x: int, k: int)
    requires
        0 <= k <= layout.edges@.len(),
        endpoints_exist(layout),
    ensures
        forall|y: int|
            #[trigger] backward_prefix(layout, x, k).contains(y) <==> exists|e: int|
                0 <= e < k && canonical(layout, #[trigger] layout.edges@[e].sink@) == x
                    && canonical(layout, layout.edges@[e].source@) == y,
        forall|j: int|
            0 <= j < backward_prefix(layout, x, k).len() ==> 0 <= #[trigger] backward_prefix(
                layout,
                x,
                k,
            )[j] < layout.nodes@.len(),
    decreases k,
{
    if k > 0 {
        lemma_backward_prefix(layout, x, k - 1);
        let p = backward_prefix(layout, x, k - 1);
        let e = layout.edges@[k - 1];
        assert(node_ids(layout.nodes@).contains(e.source@));
        assert(node_ids(layout.nodes@).contains(e.sink@));
        lemma_last_index_of(node_ids(layout.nodes@), e.source@);
        assert forall|y: int| #[trigger] backward_prefix(layout, x, k).contains(y) <==> exists|e2: int|
            0 <= e2 < k && canonical(layout, #[trigger] layout.edges@[e2].sink@) == x
                && canonical(layout, layout.edges@[e2].source@) == y by {
            if backward_prefix(layout, x, k).contains(y) {
                if p.contains(y) {
                    let e2 = choose|e2: int|
                        0 <= e2 < k - 1 && canonical(layout, #[trigger] layout.edges@[e2].sink@) == x
                            && canonical(layout, layout.edges@[e2].source@) == y;
                } else {
                    let j = choose|j: int| 0 <= j < backward_prefix(layout, x, k).len() && backward_prefix(layout, x, k)[j] == y;
                    assert(j == p.len());
                    assert(canonical(layout, layout.edges@[k - 1].sink@) == x);
                }
            }
            if exists|e2: int|
                0 <= e2 < k && canonical(layout, #[trigger] layout.edges@[e2].sink@) == x
                    && canonical(layout, layout.edges@[e2].source@) == y {
                let e2 = choose|e2: int|
                    0 <= e2 < k && canonical(layout, #[trigger] layout.edges@[e2].sink@) == x
                        && canonical(layout, layout.edges@[e2].source@) == y;
                if e2 < k - 1 {
                    assert(p.contains(y));
                    let j = choose|j: int| 0 <= j < p.len() && p[j] == y;
                    assert(backward_prefix(layout, x, k)[j] == y);
                } else {
                    assert(backward_prefix(layout, x, k)[p.len() as int] == y);
                }
            }
        }
    }
}

/// The successor lists of all nodes, as resolved node indices.
pub open spec fn forward_adjacency(layout: &Layout) -> Seq<Seq<int>> {
    Seq::new(layout.nodes@.len(), |x: int| forward_prefix(layout, x, layout.edges@.len() as int))
}

/// The predecessor lists of all nodes, as resolved node indices.
pub open spec fn backward_adjacency(layout: &Layout) -> Seq<Seq<int>> {
    Seq::new(layout.nodes@.len(), |x: int| backward_prefix(layout, x, layout.edges@.len() as int))
}

/// Following one more edge at the end of a path.
pub proof fn lemma_layout_path_push(layout: &Layout, a: Seq<char>, b: Seq<char>, es: Seq<int>, e: int)
    requires
        layout_path(layout, a, b, es),
        0 <= e < layout.edges@.len(),
        layout.edges@[e].source@ == b,
    ensures
        layout_path(layout, a, layout.edges@[e].sink@, es.push(e)),
    decreases es.len(),
{
    if es.len() == 0 {
        assert(es.push(e).drop_first() =~= Seq::<int>::empty());
        assert(es.push(e)[0] == e);
        assert(layout_path(layout, layout.edges@[e].sink@, layout.edges@[e].sink@, Seq::<int>::empty()));
    } else {
        lemma_layout_path_push(layout, layout.edges@[es[0]].sink@, b, es.drop_first(), e);
        assert(es.push(e).drop_first() =~= es.drop_first().push(e));
        assert(es.push(e)[0] == es[0]);
    }
}

proof fn lemma_canonical(layout: &Layout, id: Seq<char>)
    requires
        node_ids(layout.nodes@).contains(id),
    ensures
        0 <= canonical(layout, id) < layout.nodes@.len(),
        node_ids(layout.nodes@)[canonical(layout, id)] == id,
{
    lemma_last_index_of(node_ids(layout.nodes@), id);
}

/// A path of edges maps to a walk along the successor lists.
proof fn lemma_path_to_forward_walk(layout: &Layout, a: Seq<char>, b: Seq<char>, es: Seq<int>) -> (vs: Seq<int>)
    requires
        endpoints_exist(layout),
        node_ids(layout.nodes@).contains(a),
        layout_path(layout, a, b, es),
    ensures
        adj_path(forward_adjacency(layout), canonical(layout, a), canonical(layout, b), vs),
    decreases es.len(),
{
    let adj = forward_adjacency(layout);
    lemma_canonical(layout, a);
    if es.len() == 0 {
        Seq::empty()
    } else {
        let e = es[0];
        let edge = layout.edges@[e];
        assert(node_ids(layout.nodes@).contains(edge.sink@));
        let rest = lemma_path_to_forward_walk(layout, edge.sink@, b, es.drop_first());
        lemma_forward_prefix(layout, canonical(layout, a), layout.edges@.len() as int);
        assert(adj[canonical(layout, a)].contains(canonical(layout, edge.sink@)));
        let vs = seq![canonical(layout, edge.sink@)] + rest;
        assert(vs.drop_first() =~= rest);
        vs
    }
}

/// A walk along the successor lists maps to a path of edges.
proof fn lemma_forward_walk_to_path(layout: &Layout, x: int, y: int, vs: Seq<int>) -> (es: Seq<int>)
    requires
        endpoints_exist(layout),
        0 <= x < layout.nodes@.len(),
        canonical(layout, node_ids(layout.nodes@)[x]) == x,
        adj_path(forward_adjacency(layout), x, y, vs),
    ensures
        0 <= y < layout.nodes@.len(),
        canonical(layout, node_ids(layout.nodes@)[y]) == y,
        layout_path(layout, node_ids(layout.nodes@)[x], node_ids(layout.nodes@)[y], es),
    decreases vs.len(),
{
    let ids = node_ids(layout.nodes@);
    if vs.len() == 0 {
        Seq::empty()
    } else {
        let adj = forward_adjacency(layout);
        lemma_forward_prefix(layout, x, layout.edges@.len() as int);
        assert(adj[x].contains(vs[0]));
        let e = choose|e: int|
            0 <= e < layout.edges@.len() && canonical(layout, #[trigger] layout.edges@[e].source@) == x
                && canonical(layout, layout.edges@[e].sink@) == vs[0];
        let edge = layout.edges@[e];
        lemma_canonical(layout, edge.source@);
        lemma_canonical(layout, edge.sink@);
        let rest = lemma_forward_walk_to_path(layout, vs[0], y, vs.drop_first());
        let es = seq![e] + rest;
        assert(es.drop_first() =~= rest);
        es
    }
}

/// A path of edges maps to a reversed walk along the predecessor lists.
proof fn lemma_path_to_backward_walk(layout: &Layout, a: Seq<char>, b: Seq<char>, es: Seq<int>) -> (vs: Seq<int>)
    requires
        endpoints_exist(layout),
        node_ids(layout.nodes@).contains(a),
        node_ids(layout.nodes@).contains(b),
        layout_path(layout, a, b, es),
    ensures
        adj_path(backward_adjacency(layout), canonical(layout, b), canonical(layout, a), vs),
    decreases es.len(),
{
    let adj = backward_adjacency(layout);
    lemma_canonical(layout, a);
    lemma_canonical(layout, b);
    if es.len() == 0 {
        Seq::empty()
    } else {
        let e = es[0];
        let edge = layout.edges@[e];
        assert(node_ids(layout.nodes@).contains(edge.sink@));
        lemma_canonical(layout, edge.sink@);
        let rest = lemma_path_to_backward_walk(layout, edge.sink@, b, es.drop_first());
        lemma_backward_prefix(layout, canonical(layout, edge.sink@), layout.edges@.len() as int);
        assert(adj[canonical(layout, edge.sink@)].contains(canonical(layout, a)));
        crate::connectivity::lemma_adj_path_push(
            adj,
            canonical(layout, b),
            canonical(layout, edge.sink@),
            rest,
            canonical(layout, a),
        );
        rest.push(canonical(layout, a))
    }
}

/// A walk along the predecessor lists maps to a reversed path of edges.
proof fn lemma_backward_walk_to_path(layout: &Layout, x: int, y: int, vs: Seq<int>) -> (es: Seq<int>)
    requires
        endpoints_exist(layout),
        0 <= x < layout.nodes@.len(),
        canonical(layout, node_ids(layout.nodes@)[x]) == x,
        adj_path(backward_adjacency(layout), x, y, vs),
    ensures
        0 <= y < layout.nodes@.len(),
        canonical(layout, node_ids(layout.nodes@)[y]) == y,
        layout_path(layout, node_ids(layout.nodes@)[y], node_ids(layout.nodes@)[x], es),
    decreases vs.len(),
{
    let ids = node_ids(layout.nodes@);
    if vs.len() == 0 {
        Seq::empty()
    } else {
        let adj = backward_adjacency(layout);
        lemma_backward_prefix(layout, x, layout.edges@.len() as int);
        assert(adj[x].contains(vs[0]));
        let e = choose|e: int|
            0 <= e < layout.edges@.len() && canonical(layout, #[trigger] layout.edges@[e].sink@) == x
                && canonical(layout, layout.edges@[e].source@) == vs[0];
        let edge = layout.edges@[e];
        lemma_canonical(layout, edge.source@);
        lemma_canonical(layout, edge.sink@);
        let rest = lemma_backward_walk_to_path(layout, vs[0], y, vs.drop_first());
        lemma_layout_path_push(layout, ids[y], ids[vs[0]], rest, e);
        rest.push(e)
    }
}

/// The searches from the first node decide reachability between node ids.
proof fn lemma_searches_decide_reachability(
    layout: &Layout,
    forward: Seq<bool>,
    backward: Seq<bool>,
    start: int,
    i: int,
)
    requires
        endpoints_exist(layout),
        0 <= i < layout.nodes@.len(),
        start == canonical(layout, layout.nodes@[0].id@),
        forward.len() == layout.nodes@.len(),
        backward.len() == layout.nodes@.len(),
        forall|v: int|
            0 <= v < layout.nodes@.len() ==> (forward[v] <==> adj_reachable(
                forward_adjacency(layout),
                start,
                v,
            )),
        forall|v: int|
            0 <= v < layout.nodes@.len() ==> (backward[v] <==> adj_reachable(
                backward_adjacency(layout),
                start,
                v,
            )),
    ensures
        0 <= canonical(layout, layout.nodes@[i].id@) < layout.nodes@.len(),
        forward[canonical(layout, layout.nodes@[i].id@)] <==> layout_reachable(
            layout,
            layout.nodes@[0].id@,
            layout.nodes@[i].id@,
        ),
        backward[canonical(layout, layout.nodes@[i].id@)] <==> layout_reachable(
            layout,
            layout.nodes@[i].id@,
            layout.nodes@[0].id@,
        ),
{
    let ids = node_ids(layout.nodes@);
    let first = ids[0];
    let id = ids[i];
    assert(ids.contains(first)) by {
        assert(ids[0] == first);
    }
    assert(ids.contains(id)) by {
        assert(ids[i] == id);
    }
    lemma_canonical(layout, first);
    lemma_canonical(layout, id);
    let ci = canonical(layout, id);
    if forward[ci] {
        let vs = choose|vs: Seq<int>| #[trigger] adj_path(forward_adjacency(layout), start, ci, vs);
        let es = lemma_forward_walk_to_path(layout, start, ci, vs);
        assert(layout_path(layout, first, id, es));
    }
    if layout_reachable(layout, first, id) {
        let es = choose|es: Seq<int>| #[trigger] layout_path(layout, first, id, es);
        let vs = lemma_path_to_forward_walk(layout, first, id, es);
        assert(adj_path(forward_adjacency(layout), start, ci, vs));
    }
    if backward[ci] {
        let vs = choose|vs: Seq<int>| #[trigger] adj_path(backward_adjacency(layout), start, ci, vs);
        let es = lemma_backward_walk_to_path(layout, start, ci, vs);
        assert(layout_path(layout, id, first, es));
    }
    if layout_reachable(layout, id, first) {
        let es = choose|es: Seq<int>| #[trigger] layout_path(layout, id, first, es);
        let vs = lemma_path_to_backward_walk(layout, id, first, es);
        assert(adj_path(backward_adjacency(layout), start, ci, vs));
    }
}

proof fn lemma_filter_take_step(all: Seq<Seq<char>>, p: spec_fn(Seq<char>) -> bool, i: int)
    requires
        0 <= i < all.len(),
    ensures
        all.take(i + 1).filter(p) == if p(all[i]) {
            all.take(i).filter(p).push(all[i])
        } else {
            all.take(i).filter(p)
        },
{
    reveal_with_fuel(Seq::filter, 1);
    assert(all.take(i + 1).drop_last() =~= all.take(i));
    assert(all.take(i + 1).last() == all[i]);
}

/// Appends the strong-connectivity violations.
fn check_connectivity(layout: &Layout, dangling: bool, errors: &mut Vec<ValidationError>)
    requires
        dangling == has_dangling_reference(layout),
    ensures
        violation_views(final(errors)@) == violation_views(old(errors)@) + connectivity_violations(
            layout,
        ),
{
    let ghost before = violation_views(errors@);
    let n = layout.nodes.len();
    let m = layout.edges.len();
    if dangling || n == 0 {
        assert(violation_views(errors@) =~= before + connectivity_violations(layout));
        return ;
    }
    let ghost ids = node_ids(layout.nodes@);
    proof {
        assert forall|e: int| 0 <= e < m implies ids.contains(#[trigger] layout.edges@[e].source@)
            && ids.contains(layout.edges@[e].sink@) by {
            if !(ids.contains(layout.edges@[e].source@) && ids.contains(layout.edges@[e].sink@)) {
                assert(dangles(ids, layout.edges@[e]));
            }
        }
        assert(endpoints_exist(layout));
    }
    // Resolve node ids to node indices, the last node of an id winning.
    let mut index: StringHashMap<usize> = StringHashMap::new();
    let mut forward: Vec<Vec<NodeIndex>> = Vec::new();
    let mut backward: Vec<Vec<NodeIndex>> = Vec::new();
    for i in 0..n
        invariant
            n == layout.nodes@.len(),
            ids == node_ids(layout.nodes@),
            forward@.len() == i,
            backward@.len() == i,
            forall|v: int| 0 <= v < i ==> (#[trigger] forward@[v])@.len() == 0,
            forall|v: int| 0 <= v < i ==> (#[trigger] backward@[v])@.len() == 0,
            forall|id: Seq<char>|
                #![trigger index@.contains_key(id)]
                index@.contains_key(id) <==> last_index_of(ids.take(i as int), id) >= 0,
            forall|id: Seq<char>|
                #![trigger index@[id]]
                index@.contains_key(id) ==> index@[id] as int == last_index_of(ids.take(i as int), id),
    {
        proof {
            assert(ids.take(i + 1) =~= ids.take(i as int).push(ids[i as int]));
            assert forall|id: Seq<char>|
                last_index_of(ids.take(i + 1), id) == if ids[i as int] == id {
                    i as int
                } else {
                    last_index_of(ids.take(i as int), id)
                } by {
                lemma_last_index_of_push(ids.take(i as int), ids[i as int], id);
            }
            assert forall|id: Seq<char>| last_index_of(ids.take(i as int), id) >= -1 by {
                lemma_last_index_of(ids.take(i as int), id);
            }
        }
        index.insert(layout.nodes[i].id.clone(), i);
        forward.push(Vec::new());
        backward.push(Vec::new());
    }
    assert(ids.take(n as int) =~= ids);
    for j in 0..m
        invariant
            n == layout.nodes@.len(),
            m == layout.edges@.len(),
            ids == node_ids(layout.nodes@),
            endpoints_exist(layout),
            forall|id: Seq<char>|
                #![trigger index@.contains_key(id)]
                index@.contains_key(id) <==> last_index_of(ids, id) >= 0,
            forall|id: Seq<char>|
                #![trigger index@[id]]
                index@.contains_key(id) ==> index@[id] as int == last_index_of(ids, id),
            forward@.len() == n,
            backward@.len() == n,
            forall|x: int| 0 <= x < n ==> as_ints(#[trigger] forward@[x]@) == forward_prefix(layout, x, j as int),
            forall|x: int| 0 <= x < n ==> as_ints(#[trigger] backward@[x]@) == backward_prefix(layout, x, j as int),
    {
        let edge = &layout.edges[j];
        proof {
            lemma_canonical(layout, edge.source@);
            lemma_canonical(layout, edge.sink@);
            lemma_last_index_of(ids, edge.source@);
            lemma_last_index_of(ids, edge.sink@);
        }
        let a: NodeIndex = match index.get(edge.source.as_str()) {
            Some(a) => *a,
            None => 0,
        };
        let b: NodeIndex = match index.get(edge.sink.as_str()) {
            Some(b) => *b,
            None => 0,
        };
        let ghost old_forward = forward@;
        let ghost old_backward = backward@;
        forward[a].push(b);
        backward[b].push(a);
        proof {
            assert forall|x: int| 0 <= x < n implies as_ints(#[trigger] forward@[x]@) == forward_prefix(layout, x, j + 1) by {
                if x == a {
                    assert(as_ints(forward@[x]@) =~= as_ints(old_forward[x]@).push(b as int));
                } else {
                    assert(forward@[x] == old_forward[x]);
                }
            }
            assert forall|x: int| 0 <= x < n implies as_ints(#[trigger] backward@[x]@) == backward_prefix(layout, x, j + 1) by {
                if x == b {
                    assert(as_ints(backward@[x]@) =~= as_ints(old_backward[x]@).push(a as int));
                } else {
                    assert(backward@[x] == old_backward[x]);
                }
            }
        }
    }
    proof {
        assert(adjacency_view(forward@) =~= forward_adjacency(layout)) by {
            assert forall|x: int| 0 <= x < n implies adjacency_view(forward@)[x] == forward_adjacency(layout)[x] by {
                assert(adjacency_view(forward@)[x] == as_ints(forward@[x]@));
            }
        }
        assert(adjacency_view(backward@) =~= backward_adjacency(layout)) by {
            assert forall|x: int| 0 <= x < n implies adjacency_view(backward@)[x] == backward_adjacency(layout)[x] by {
                assert(adjacency_view(backward@)[x] == as_ints(backward@[x]@));
            }
        }
        assert forall|v: int, j: int| 0 <= v < n && 0 <= j < forward@[v]@.len() implies #[trigger] forward@[v]@[j] < n by {
            lemma_forward_prefix(layout, v, m as int);
            assert(as_ints(forward@[v]@)[j] == forward@[v]@[j] as int);
        }
        assert forall|v: int, j: int| 0 <= v < n && 0 <= j < backward@[v]@.len() implies #[trigger] backward@[v]@[j] < n by {
            lemma_backward_prefix(layout, v, m as int);
            assert(as_ints(backward@[v]@)[j] == backward@[v]@[j] as int);
        }
        lemma_canonical(layout, ids[0]);
        assert(ids.contains(ids[0]));
    }
    let first = &layout.nodes[0].id;
    let start: NodeIndex = match index.get(first.as_str()) {
        Some(s) => *s,
        None => 0,
    };
    let reached = bfs_reachable(start, &forward);
    let reaching = bfs_reachable(start, &backward);
    let ghost first_id = ids[0];
    let mut unreachable: Vec<String> = Vec::new();
    let mut cannot: Vec<String> = Vec::new();
    for i in 0..n
        invariant
            n == layout.nodes@.len(),
            ids == node_ids(layout.nodes@),
            first_id == ids[0],
            first_id == layout.nodes@[0].id@,
            endpoints_exist(layout),
            start == canonical(layout, first_id),
            reached@.len() == n,
            reaching@.len() == n,
            forall|v: int| 0 <= v < n ==> (reached@[v] <==> adj_reachable(forward_adjacency(layout), start as int, v)),
            forall|v: int| 0 <= v < n ==> (reaching@[v] <==> adj_reachable(backward_adjacency(layout), start as int, v)),
            forall|id: Seq<char>|
                #![trigger index@.contains_key(id)]
                index@.contains_key(id) <==> last_index_of(ids, id) >= 0,
            forall|id: Seq<char>|
                #![trigger index@[id]]
                index@.contains_key(id) ==> index@[id] as int == last_index_of(ids, id),
            views(unreachable@) == ids.take(i as int).filter(unreachable_pred(layout, first_id)),
            views(cannot@) == ids.take(i as int).filter(cannot_reach_pred(layout, first_id)),
    {
        let node = &layout.nodes[i];
        proof {
            lemma_searches_decide_reachability(layout, reached@, reaching@, start as int, i as int);
            assert(ids[i as int] == node.id@);
            lemma_canonical(layout, node.id@);
            lemma_last_index_of(ids, node.id@);
            lemma_filter_take_step(ids, unreachable_pred(layout, first_id), i as int);
            lemma_filter_take_step(ids, cannot_reach_pred(layout, first_id), i as int);
        }
        let c: NodeIndex = match index.get(node.id.as_str()) {
            Some(c) => *c,
            None => 0,
        };
        let ghost old_unreachable = unreachable@;
        let ghost old_cannot = cannot@;
        if !reached[c] {
            unreachable.push(node.id.clone());
        }
        if !reaching[c] {
            cannot.push(node.id.clone());
        }
        assert(views(unreachable@) =~= ids.take(i + 1).filter(unreachable_pred(layout, first_id)));
        assert(views(cannot@) =~= ids.take(i + 1).filter(cannot_reach_pred(layout, first_id)));
    }
    assert(ids.take(n as int) =~= ids);
    if unreachable.len() > 0 {
        let sorted = sort_strings(unreachable);
        let listed = join_strings(&sorted, ", ");
        let mut message = String::new();
        message.append("Node(s) [");
        message.append(listed.as_str());
        message.append("] are not reachable from node '");
        message.append(first.as_str());
        message.append("'");
        push_violation(errors, "strongly_connected", message);
    }
    if cannot.len() > 0 {
        let sorted = sort_strings(cannot);
        let listed = join_strings(&sorted, ", ");
        let mut message = String::new();
        message.append("Node(s) [");
        message.append(listed.as_str());
        message.append("] cannot reach node '");
        message.append(first.as_str());
        message.append("'");
        push_violation(errors, "strongly_connected", message);
    }
    assert(violation_views(errors@) =~= before + connectivity_violations(layout));
}

/// Checks every rule and reports all violations found, in rule order.
///
/// Rules enforced:
/// 1. Node positions are finite.
/// 2. Node ids are unique.
/// 3. Edge ids are unique.
/// 4. Every edge has a non-empty source and sink.
/// 5. Every edge's source/sink references an existing node ("connects only existing nodes",
///    "connected on both ends to a node").
/// 6. No edge connects a node to itself.
/// 7. Every node has at least two edges attached to it (counting both directions).
/// 8. Every node is reachable from every other node (the layout is strongly connected),
///    treating edges as directed driveways; checked only once every edge names existing
///    nodes.
pub fn validate_rules(layout: &Layout) -> (result: Result<(), Vec<ValidationError>>)
    ensures
        match result {
            Ok(()) => layout_violations(layout).len() == 0,
            Err(errors) => {
                &&& errors@.len() > 0
                &&& violation_views(errors@) == layout_violations(layout)
            },
        },
{
    let mut errors: Vec<ValidationError> = Vec::new();
    check_finite_positions(layout, &mut errors);
    let ids = check_unique_node_ids(layout, &mut errors);
    check_unique_edge_ids(layout, &mut errors);
    let dangling = check_edges(layout, &ids, &mut errors);
    check_degrees(layout, &mut errors);
    check_connectivity(layout, dangling, &mut errors);
    assert(violation_views(errors@) =~= layout_violations(layout));
    if errors.len() == 0 {
        Ok(())
    } else {
        Err(errors)
    }
}

/// A layout without violations has finite positions and edges that name existing nodes.
pub proof fn lemma_accepted_layout_is_routable(layout: &Layout)
    requires
        layout_violations(layout).len() == 0,
    ensures
        is_routable(layout),
{
    let nodes = layout.nodes@;
    let edges = layout.edges@;
    let ids = node_ids(nodes);
    assert forall|i: int| 0 <= i < nodes.len() implies (#[trigger] nodes[i]).position.in_range() by {
        if !nodes[i].position.in_range() {
            assert(finite_position_items(nodes)(i).len() > 0);
            lemma_concat_items_nonempty(finite_position_items(nodes), nodes.len() as int, i);
        }
    }
    assert forall|e: int| 0 <= e < edges.len() implies ids.contains(#[trigger] edges[e].source@)
        && ids.contains(edges[e].sink@) by {
        if !(ids.contains(edges[e].source@) && ids.contains(edges[e].sink@)) {
            assert(edge_items(ids, edges)(e).len() > 0);
            lemma_concat_items_nonempty(edge_items(ids, edges), edges.len() as int, e);
        }
    }
}

/// Validates a layout against all fleet-management rules and, when it passes, builds
/// its routing graph.
///
/// Rules enforced:
/// 1. Node positions are finite.
/// 2. Node ids are unique.
/// 3. Edge ids are unique.
/// 4. Every edge has a non-empty source and sink.
/// 5. Every edge's source/sink references an existing node ("connects only existing nodes",
///    "connected on both ends to a node").
/// 6. No edge connects a node to itself.
/// 7. Every node has at least two edges attached to it (counting both directions).
/// 8. Every node is reachable from every other node (the layout is strongly connected),
///    treating edges as directed driveways.
pub fn validate_layout(layout: &Layout) -> (result: Result<Graph, Vec<ValidationError>>)
    ensures
        match result {
            Ok(graph) => {
                &&& layout_violations(layout).len() == 0
                &&& graph_of_layout(layout, graph@)
            },
            Err(errors) => {
                &&& errors@.len() > 0
                &&& violation_views(errors@) == layout_violations(layout)
            },
        },
{
    match validate_rules(layout) {
        Ok(()) => {
            proof {
                lemma_accepted_layout_is_routable(layout);
            }
            Ok(Graph::from_layout(layout))
        },
        Err(errors) => Err(errors),
    }
}

} // verus!
