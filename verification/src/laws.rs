//! Properties of the library as a whole: how the violations of a layout count rule by
//! rule, what an accepted layout guarantees, and what that means for route planning on its
//! graph.
use vstd::prelude::*;

use crate::graph::{graph_of_layout, is_floor_sqrt, GraphView};
use crate::models::{
    is_routable, last_index_of, lemma_last_index_of, node_ids, Edge, Layout, Node, Position,
    MAX_COORDINATE,
};
use crate::routing::{
    describes_route, is_path, is_shortest_path, path_cost, reachable, route_outcome, RouteError,
    RouteResult,
};
use crate::text::{id_order, is_blank, is_whitespace, join};
use crate::validation::{
    attached_ends, degree_item, finite_position_item, concat_items, finite_position_items, edge_item, Violation, canonical, cannot_reach, cannot_reach_pred, connectivity_violations, degree,
    degree_items, duplicate_edge_items, duplicate_node_items, edge_ids, edge_items,
    has_dangling_reference, lemma_accepted_layout_is_routable, lemma_concat_items_nonempty,
    layout_path, layout_reachable, layout_violations, unreachable_from, unreachable_pred, dangles,
};

verus! {

/// Joining two paths of layout edges.
pub proof fn lemma_layout_path_concat(
    layout: &Layout,
    a: Seq<char>,
    b: Seq<char>,
    c: Seq<char>,
    p: Seq<int>,
    q: Seq<int>,
)
    requires
        layout_path(layout, a, b, p),
        layout_path(layout, b, c, q),
    ensures
        layout_path(layout, a, c, p + q),
    decreases p.len(),
{
    if p.len() > 0 {
        lemma_layout_path_concat(layout, layout.edges@[p[0]].sink@, b, c, p.drop_first(), q);
        assert((p + q).drop_first() =~= p.drop_first() + q);
        assert((p + q)[0] == p[0]);
    } else {
        assert(p + q =~= q);
    }
}

/// A layout that validation accepts satisfies every rule: finite positions, unique node
/// and edge ids, edges with two distinct existing endpoints, at least two edges at every
/// node, and a directed path from every node to every node.
pub proof fn lemma_accepted_layout_satisfies_rules(layout: &Layout)
    requires
        layout_violations(layout).len() == 0,
    ensures
        is_routable(layout),
        forall|i: int, j: int|
            0 <= i < j < layout.nodes@.len() ==> #[trigger] layout.nodes@[i].id@
                != #[trigger] layout.nodes@[j].id@,
        forall|i: int, j: int|
            0 <= i < j < layout.edges@.len() ==> #[trigger] layout.edges@[i].id@
                != #[trigger] layout.edges@[j].id@,
        forall|e: int|
            0 <= e < layout.edges@.len() ==> {
                let edge = #[trigger] layout.edges@[e];
                &&& !is_blank(edge.source@)
                &&& !is_blank(edge.sink@)
                &&& node_ids(layout.nodes@).contains(edge.source@)
                &&& node_ids(layout.nodes@).contains(edge.sink@)
                &&& edge.source@ != edge.sink@
            },
        forall|i: int|
            0 <= i < layout.nodes@.len() ==> degree(layout.edges@, #[trigger] layout.nodes@[i].id@)
                >= 2,
        forall|a: Seq<char>, b: Seq<char>|
            #![trigger node_ids(layout.nodes@).contains(a), node_ids(layout.nodes@).contains(b)]
            node_ids(layout.nodes@).contains(a) && node_ids(layout.nodes@).contains(b)
                ==> layout_reachable(layout, a, b),
{
    let nodes = layout.nodes@;
    let edges = layout.edges@;
    let ids = node_ids(nodes);
    let n = nodes.len() as int;
    let m = edges.len() as int;
    lemma_accepted_layout_is_routable(layout);
    assert forall|i: int, j: int| 0 <= i < j < n implies #[trigger] nodes[i].id@
        != #[trigger] nodes[j].id@ by {
        if nodes[i].id@ == nodes[j].id@ {
            assert(ids.take(j)[i] == nodes[j].id@);
            assert(duplicate_node_items(nodes)(j).len() > 0);
            lemma_concat_items_nonempty(duplicate_node_items(nodes), n, j);
        }
    }
    assert forall|i: int, j: int| 0 <= i < j < m implies #[trigger] edges[i].id@
        != #[trigger] edges[j].id@ by {
        if edges[i].id@ == edges[j].id@ {
            assert(edge_ids(edges).take(j)[i] == edges[j].id@);
            assert(duplicate_edge_items(edges)(j).len() > 0);
            lemma_concat_items_nonempty(duplicate_edge_items(edges), m, j);
        }
    }
    assert forall|e: int| 0 <= e < m implies {
        let edge = #[trigger] edges[e];
        &&& !is_blank(edge.source@)
        &&& !is_blank(edge.sink@)
        &&& ids.contains(edge.source@)
        &&& ids.contains(edge.sink@)
        &&& edge.source@ != edge.sink@
    } by {
        let edge = edges[e];
        if is_blank(edge.source@) || is_blank(edge.sink@) || !ids.contains(edge.source@)
            || !ids.contains(edge.sink@) || edge.source@ == edge.sink@ {
            assert(edge_items(ids, edges)(e).len() > 0);
            lemma_concat_items_nonempty(edge_items(ids, edges), m, e);
        }
    }
    assert forall|i: int| 0 <= i < n implies degree(edges, #[trigger] nodes[i].id@) >= 2 by {
        if degree(edges, nodes[i].id@) < 2 {
            assert(degree_items(nodes, edges)(i).len() > 0);
            lemma_concat_items_nonempty(degree_items(nodes, edges), n, i);
        }
    }
    assert(!has_dangling_reference(layout)) by {
        if has_dangling_reference(layout) {
            let e = choose|e: int| 0 <= e < m && dangles(ids, #[trigger] edges[e]);
            assert(edges[e] == edges[e]);
        }
    }
    assert forall|a: Seq<char>, b: Seq<char>|
        #![trigger ids.contains(a), ids.contains(b)]
        ids.contains(a) && ids.contains(b) implies layout_reachable(layout, a, b) by {
        let start = nodes[0].id@;
        assert(connectivity_violations(layout).len() == 0);
        let ia = choose|i: int| 0 <= i < ids.len() && ids[i] == a;
        let ib = choose|i: int| 0 <= i < ids.len() && ids[i] == b;
        assert(layout_reachable(layout, a, start)) by {
            if !layout_reachable(layout, a, start) {
                assert(cannot_reach_pred(layout, start)(ids[ia]));
                ids.lemma_filter_contains(cannot_reach_pred(layout, start), ia);
                assert(cannot_reach(layout, start).len() > 0);
            }
        }
        assert(layout_reachable(layout, start, b)) by {
            if !layout_reachable(layout, start, b) {
                assert(unreachable_pred(layout, start)(ids[ib]));
                ids.lemma_filter_contains(unreachable_pred(layout, start), ib);
                assert(unreachable_from(layout, start).len() > 0);
            }
        }
        let p = choose|p: Seq<int>| #[trigger] layout_path(layout, a, start, p);
        let q = choose|q: Seq<int>| #[trigger] layout_path(layout, start, b, q);
        lemma_layout_path_concat(layout, a, start, b, p, q);
    }
}

/// No two nodes share an id.
pub open spec fn node_ids_unique(nodes: Seq<Node>) -> bool {
    forall|i: int, j: int|
        0 <= i < j < nodes.len() ==> #[trigger] nodes[i].id@ != #[trigger] nodes[j].id@
}

/// No two edges share an id.
pub open spec fn edge_ids_unique(edges: Seq<Edge>) -> bool {
    forall|i: int, j: int|
        0 <= i < j < edges.len() ==> #[trigger] edges[i].id@ != #[trigger] edges[j].id@
}

/// Every edge has two non-blank, distinct endpoints that name nodes among `ids`.
pub open spec fn edges_well_formed(ids: Seq<Seq<char>>, edges: Seq<Edge>) -> bool {
    forall|e: int|
        0 <= e < edges.len() ==> {
            let edge = #[trigger] edges[e];
            &&& !is_blank(edge.source@)
            &&& !is_blank(edge.sink@)
            &&& ids.contains(edge.source@)
            &&& ids.contains(edge.sink@)
            &&& edge.source@ != edge.sink@
        }
}

/// Every node has at least two edges attached.
pub open spec fn degrees_at_least_two(nodes: Seq<Node>, edges: Seq<Edge>) -> bool {
    forall|i: int| 0 <= i < nodes.len() ==> degree(edges, #[trigger] nodes[i].id@) >= 2
}

/// A directed path leads from every node to every node.
pub open spec fn strongly_connected(layout: &Layout) -> bool {
    let ids = node_ids(layout.nodes@);
    forall|a: Seq<char>, b: Seq<char>|
        #![trigger ids.contains(a), ids.contains(b)]
        ids.contains(a) && ids.contains(b) ==> layout_reachable(layout, a, b)
}

/// Every rule holds of `layout`: positions in range, unique node and edge ids, edges with
/// two distinct existing non-blank endpoints, at least two edges at every node, and a
/// directed path from every node to every node.
pub open spec fn satisfies_rules(layout: &Layout) -> bool {
    &&& is_routable(layout)
    &&& node_ids_unique(layout.nodes@)
    &&& edge_ids_unique(layout.edges@)
    &&& edges_well_formed(node_ids(layout.nodes@), layout.edges@)
    &&& degrees_at_least_two(layout.nodes@, layout.edges@)
    &&& strongly_connected(layout)
}

/// Items that contribute nothing contribute nothing together.
proof fn lemma_concat_items_empty(f: spec_fn(int) -> Seq<Violation>, k: int)
    requires
        forall|i: int| 0 <= i < k ==> (#[trigger] f(i)).len() == 0,
    ensures
        concat_items(f, k).len() == 0,
    decreases k,
{
    if k > 0 {
        lemma_concat_items_empty(f, k - 1);
    }
}

/// Validation finds no violation in a layout exactly when every rule holds of it.
pub proof fn lemma_no_violations_iff_rules_hold(layout: &Layout)
    ensures
        layout_violations(layout).len() == 0 <==> satisfies_rules(layout),
{
    if layout_violations(layout).len() == 0 {
        lemma_accepted_layout_satisfies_rules(layout);
    }
    if satisfies_rules(layout) {
        lemma_rules_hold_no_violations(layout);
    }
}

/// Where every rule holds, validation finds no violation.
proof fn lemma_rules_hold_no_violations(layout: &Layout)
    requires
        satisfies_rules(layout),
    ensures
        layout_violations(layout).len() == 0,
{
    {
        let nodes = layout.nodes@;
        let edges = layout.edges@;
        let ids = node_ids(nodes);
        let n = nodes.len() as int;
        let m = edges.len() as int;
        lemma_item_rules_hold(layout);
        lemma_connected_layout_has_no_connectivity_violation(layout);
        assert(layout_violations(layout) == concat_items(finite_position_items(nodes), n)
            + concat_items(duplicate_node_items(nodes), n) + concat_items(
            duplicate_edge_items(edges),
            m,
        ) + concat_items(edge_items(ids, edges), m) + concat_items(degree_items(nodes, edges), n)
            + connectivity_violations(layout));
    }
}

/// Where every rule holds, no node or edge has a violation of its own.
proof fn lemma_item_rules_hold(layout: &Layout)
    requires
        is_routable(layout),
        node_ids_unique(layout.nodes@),
        edge_ids_unique(layout.edges@),
        edges_well_formed(node_ids(layout.nodes@), layout.edges@),
        degrees_at_least_two(layout.nodes@, layout.edges@),
    ensures
        concat_items(finite_position_items(layout.nodes@), layout.nodes@.len() as int).len() == 0,
        concat_items(duplicate_node_items(layout.nodes@), layout.nodes@.len() as int).len() == 0,
        concat_items(duplicate_edge_items(layout.edges@), layout.edges@.len() as int).len() == 0,
        concat_items(edge_items(node_ids(layout.nodes@), layout.edges@), layout.edges@.len() as int).len()
            == 0,
        concat_items(degree_items(layout.nodes@, layout.edges@), layout.nodes@.len() as int).len()
            == 0,
{
    let nodes = layout.nodes@;
    let edges = layout.edges@;
    let ids = node_ids(nodes);
    let n = nodes.len() as int;
    let m = edges.len() as int;
    assert forall|i: int| 0 <= i < n implies (#[trigger] finite_position_items(nodes)(i)).len()
        == 0 by {
        assert(nodes[i].position.in_range());
    }
    assert forall|i: int| 0 <= i < n implies (#[trigger] duplicate_node_items(nodes)(i)).len()
        == 0 by {
        if ids.take(i).contains(nodes[i].id@) {
            let j = choose|j: int| 0 <= j < ids.take(i).len() && ids.take(i)[j] == nodes[i].id@;
            assert(ids.take(i)[j] == nodes[j].id@);
            assert(nodes[j].id@ != nodes[i].id@);
        }
    }
    assert forall|i: int| 0 <= i < m implies (#[trigger] duplicate_edge_items(edges)(i)).len()
        == 0 by {
        if edge_ids(edges).take(i).contains(edges[i].id@) {
            let j = choose|j: int|
                0 <= j < edge_ids(edges).take(i).len() && edge_ids(edges).take(i)[j]
                    == edges[i].id@;
            assert(edge_ids(edges).take(i)[j] == edges[j].id@);
            assert(edges[j].id@ != edges[i].id@);
        }
    }
    assert forall|i: int| 0 <= i < m implies (#[trigger] edge_items(ids, edges)(i)).len() == 0 by {
        assert(edges[i] == edges[i]);
    }
    assert forall|i: int| 0 <= i < n implies (#[trigger] degree_items(nodes, edges)(i)).len()
        == 0 by {
        assert(degree(edges, nodes[i].id@) >= 2);
    }
    lemma_concat_items_empty(finite_position_items(nodes), n);
    lemma_concat_items_empty(duplicate_node_items(nodes), n);
    lemma_concat_items_empty(duplicate_edge_items(edges), m);
    lemma_concat_items_empty(edge_items(ids, edges), m);
    lemma_concat_items_empty(degree_items(nodes, edges), n);
}

/// Where every rule holds, the connectivity check finds nothing.
proof fn lemma_connected_layout_has_no_connectivity_violation(layout: &Layout)
    requires
        edges_well_formed(node_ids(layout.nodes@), layout.edges@),
        strongly_connected(layout),
    ensures
        connectivity_violations(layout).len() == 0,
{
    let nodes = layout.nodes@;
    let edges = layout.edges@;
    let ids = node_ids(nodes);
    let m = edges.len() as int;
    assert(!has_dangling_reference(layout)) by {
        if has_dangling_reference(layout) {
            let e = choose|e: int| 0 <= e < m && dangles(ids, #[trigger] edges[e]);
            assert(edges[e] == edges[e]);
        }
    }
    if nodes.len() > 0 {
        let start = nodes[0].id@;
        assert(ids[0] == start);
        assert(ids.contains(start));
        let unreachable = unreachable_from(layout, start);
        let cannot = cannot_reach(layout, start);
        if unreachable.len() > 0 {
            ids.lemma_filter_pred(unreachable_pred(layout, start), 0);
            assert(unreachable.contains(unreachable[0]));
            ids.lemma_filter_contains_rev(unreachable_pred(layout, start), unreachable[0]);
            assert(ids.contains(unreachable[0]));
            assert(layout_reachable(layout, start, unreachable[0]));
        }
        if cannot.len() > 0 {
            ids.lemma_filter_pred(cannot_reach_pred(layout, start), 0);
            assert(cannot.contains(cannot[0]));
            ids.lemma_filter_contains_rev(cannot_reach_pred(layout, start), cannot[0]);
            assert(ids.contains(cannot[0]));
            assert(layout_reachable(layout, cannot[0], start));
        }
    }
}

/// With unique ids, every node id resolves to its own node.
proof fn lemma_unique_ids_resolve(layout: &Layout, i: int)
    requires
        0 <= i < layout.nodes@.len(),
        forall|i: int, j: int|
            0 <= i < j < layout.nodes@.len() ==> #[trigger] layout.nodes@[i].id@
                != #[trigger] layout.nodes@[j].id@,
    ensures
        canonical(layout, layout.nodes@[i].id@) == i,
{
    let ids = node_ids(layout.nodes@);
    assert(ids[i] == layout.nodes@[i].id@);
    lemma_last_index_of(ids, ids[i]);
    let r = last_index_of(ids, ids[i]);
    assert(ids[r] == layout.nodes@[r].id@);
}

/// A path of layout edges is a path of the same edges in the layout's graph.
proof fn lemma_layout_path_in_graph(layout: &Layout, g: GraphView, a: Seq<char>, b: Seq<char>, es: Seq<int>)
    requires
        graph_of_layout(layout, g),
        is_routable(layout),
        layout_path(layout, a, b, es),
    ensures
        is_path(g, canonical(layout, a), canonical(layout, b), es),
    decreases es.len(),
{
    if es.len() > 0 {
        let e = es[0];
        assert(g.edges[e].source == canonical(layout, layout.edges@[e].source@));
        lemma_layout_path_in_graph(layout, g, layout.edges@[e].sink@, b, es.drop_first());
    }
}

/// In the graph of an accepted layout, every node can reach every node.
pub proof fn lemma_accepted_graph_strongly_connected(layout: &Layout, g: GraphView)
    requires
        layout_violations(layout).len() == 0,
        graph_of_layout(layout, g),
    ensures
        forall|u: int, v: int|
            0 <= u < g.node_ids.len() && 0 <= v < g.node_ids.len() ==> #[trigger] reachable(g, u, v),
{
    lemma_accepted_layout_satisfies_rules(layout);
    let ids = node_ids(layout.nodes@);
    assert forall|u: int, v: int|
        0 <= u < g.node_ids.len() && 0 <= v < g.node_ids.len() implies #[trigger] reachable(g, u, v) by {
        assert(ids[u] == layout.nodes@[u].id@);
        assert(ids[v] == layout.nodes@[v].id@);
        assert(ids.contains(ids[u]));
        assert(ids.contains(ids[v]));
        assert(layout_reachable(layout, ids[u], ids[v]));
        let es = choose|es: Seq<int>| #[trigger] layout_path(layout, ids[u], ids[v], es);
        lemma_unique_ids_resolve(layout, u);
        lemma_unique_ids_resolve(layout, v);
        lemma_layout_path_in_graph(layout, g, ids[u], ids[v], es);
    }
}

/// On the graph of an accepted layout, planning between two existing nodes always yields
/// a route: no accepted layout leaves a node unreachable.
pub proof fn lemma_accepted_graph_always_routes(
    layout: &Layout,
    g: GraphView,
    start: Seq<char>,
    goal: Seq<char>,
    result: Result<RouteResult, RouteError>,
)
    requires
        layout_violations(layout).len() == 0,
        graph_of_layout(layout, g),
        g.node_ids.contains(start),
        g.node_ids.contains(goal),
        route_outcome(g, start, goal, result),
    ensures
        result is Ok,
{
    lemma_accepted_graph_strongly_connected(layout, g);
    lemma_last_index_of(g.node_ids, start);
    lemma_last_index_of(g.node_ids, goal);
    assert(reachable(g, g.index_of(start), g.index_of(goal)));
}

/// The floor of a square root is unique.
pub proof fn lemma_floor_sqrt_unique(n: int, a: int, b: int)
    requires
        is_floor_sqrt(n, a),
        is_floor_sqrt(n, b),
    ensures
        a == b,
{
    if a < b {
        assert((a + 1) * (a + 1) <= b * b) by (nonlinear_arith)
            requires
                0 <= a < b,
        ;
    } else if b < a {
        assert((b + 1) * (b + 1) <= a * a) by (nonlinear_arith)
            requires
                0 <= b < a,
        ;
    }
}

/// A path of a graph is a path, of the same cost, of any graph that keeps its edges.
proof fn lemma_path_in_larger_graph(g: GraphView, g2: GraphView, a: int, b: int, es: Seq<int>)
    requires
        is_path(g, a, b, es),
        g.edges.len() <= g2.edges.len(),
        forall|e: int| 0 <= e < g.edges.len() ==> g2.edges[e] == g.edges[e],
    ensures
        is_path(g2, a, b, es),
        path_cost(g2, es) == path_cost(g, es),
    decreases es.len(),
{
    if es.len() > 0 {
        assert(g2.edges[es[0]] == g.edges[es[0]]);
        lemma_path_in_larger_graph(g, g2, g.edges[es[0]].sink, b, es.drop_first());
    }
}

/// Adding a driveway to a layout never lengthens the shortest route between two nodes:
/// where the layout's graph has a route, the larger layout's graph has one too, and it is
/// no longer.
pub proof fn lemma_added_edge_never_lengthens_route(
    layout: &Layout,
    larger: &Layout,
    g: GraphView,
    g2: GraphView,
    start: Seq<char>,
    goal: Seq<char>,
    route: RouteResult,
    result: Result<RouteResult, RouteError>,
)
    requires
        larger.nodes@ == layout.nodes@,
        larger.edges@.len() == layout.edges@.len() + 1,
        forall|e: int| 0 <= e < layout.edges@.len() ==> larger.edges@[e] == layout.edges@[e],
        graph_of_layout(layout, g),
        graph_of_layout(larger, g2),
        route_outcome(g, start, goal, Ok(route)),
        route_outcome(g2, start, goal, result),
    ensures
        result matches Ok(r) && r.distance <= route.distance,
{
    assert forall|e: int| 0 <= e < g.edges.len() implies g2.edges[e] == g.edges[e] by {
        assert(larger.edges@[e] == layout.edges@[e]);
        assert(g.edges[e] == g.edges[e]);
        assert(g2.edges[e] == g2.edges[e]);
        lemma_floor_sqrt_unique(
            crate::graph::scaled_square_distance(
                layout.nodes@[g.edges[e].source].position,
                layout.nodes@[g.edges[e].sink].position,
            ),
            g.edges[e].weight,
            g2.edges[e].weight,
        );
    }
    let s = g.index_of(start);
    let t = g.index_of(goal);
    let es = choose|es: Seq<int>| #[trigger] is_shortest_path(g, s, t, es) && describes_route(g, s, es, route);
    lemma_path_in_larger_graph(g, g2, s, t, es);
    assert(reachable(g2, s, t));
    match result {
        Ok(r) => {
            let es2 = choose|es2: Seq<int>| #[trigger] is_shortest_path(g2, s, t, es2) && describes_route(g2, s, es2, r);
            assert(is_path(g2, s, t, es));
        },
        Err(_) => {},
    }
}


/// The violations of `vs` that belong to rule `rule`, in order.
pub open spec fn of_rule(vs: Seq<Violation>, rule: Seq<char>) -> Seq<Violation> {
    vs.filter(|v: Violation| v.0 == rule)
}

/// `h(0) + h(1) + ... + h(k - 1)`.
pub open spec fn sum_to(k: int, h: spec_fn(int) -> nat) -> nat
    decreases k,
{
    if k <= 0 {
        0
    } else {
        sum_to(k - 1, h) + h(k - 1)
    }
}

/// One where `b` holds, else none.
pub open spec fn indicator(b: bool) -> nat {
    if b {
        1
    } else {
        0
    }
}

proof fn lemma_of_rule_add(a: Seq<Violation>, b: Seq<Violation>, rule: Seq<char>)
    ensures
        of_rule(a + b, rule) == of_rule(a, rule) + of_rule(b, rule),
{
    Seq::filter_distributes_over_add(a, b, |v: Violation| v.0 == rule);
}

proof fn lemma_of_rule_single(x: Violation, rule: Seq<char>)
    ensures
        of_rule(seq![x], rule) == (if x.0 == rule {
            seq![x]
        } else {
            Seq::<Violation>::empty()
        }),
{
    reveal_with_fuel(Seq::filter, 2);
    let s = seq![x];
    assert(s.drop_last() =~= Seq::<Violation>::empty());
    assert(s.last() == x);
    assert(of_rule(s.drop_last(), rule) =~= Seq::<Violation>::empty());
    if x.0 == rule {
        assert(of_rule(s, rule) == of_rule(s.drop_last(), rule).push(x));
        assert(Seq::<Violation>::empty().push(x) =~= s);
    } else {
        assert(of_rule(s, rule) == of_rule(s.drop_last(), rule));
    }
}

/// The violations of one rule among those of items `0..k` number the sum of their numbers
/// per item.
proof fn lemma_section_count(
    f: spec_fn(int) -> Seq<Violation>,
    k: int,
    rule: Seq<char>,
    h: spec_fn(int) -> nat,
)
    requires
        forall|i: int| 0 <= i < k ==> of_rule(#[trigger] f(i), rule).len() == h(i),
    ensures
        of_rule(concat_items(f, k), rule).len() == sum_to(k, h),
    decreases k,
{
    if k > 0 {
        lemma_section_count(f, k - 1, rule, h);
        lemma_of_rule_add(concat_items(f, k - 1), f(k - 1), rule);
    }
}

/// A sum of counts is positive exactly when one of them is.
proof fn lemma_sum_positive(k: int, h: spec_fn(int) -> nat)
    ensures
        sum_to(k, h) > 0 <==> exists|i: int| 0 <= i < k && #[trigger] h(i) > 0,
    decreases k,
{
    if k > 0 {
        lemma_sum_positive(k - 1, h);
        if h(k - 1) > 0 {
            assert(h(k - 1) > 0);
        }
    }
}

/// A sum of counts that are all zero is zero.
proof fn lemma_sum_zero(k: int, h: spec_fn(int) -> nat)
    requires
        forall|i: int| 0 <= i < k ==> #[trigger] h(i) == 0,
    ensures
        sum_to(k, h) == 0,
    decreases k,
{
    if k > 0 {
        lemma_sum_zero(k - 1, h);
    }
}

/// Only strong-connectivity violations come from the connectivity check.
proof fn lemma_connectivity_of_rule(layout: &Layout, rule: Seq<char>)
    ensures
        of_rule(connectivity_violations(layout), rule) == (if rule == "strongly_connected"@ {
            connectivity_violations(layout)
        } else {
            Seq::<Violation>::empty()
        }),
{
    let conn = connectivity_violations(layout);
    if !(has_dangling_reference(layout) || layout.nodes@.len() == 0) {
        let start = layout.nodes@[0].id@;
        let unreachable = unreachable_from(layout, start);
        let cannot = cannot_reach(layout, start);
        let a = if unreachable.len() > 0 {
            seq![
                (
                    "strongly_connected"@,
                    "Node(s) ["@ + join(unreachable.sort_by(id_order()), ", "@)
                        + "] are not reachable from node '"@ + start + "'"@,
                ),
            ]
        } else {
            seq![]
        };
        let b = if cannot.len() > 0 {
            seq![
                (
                    "strongly_connected"@,
                    "Node(s) ["@ + join(cannot.sort_by(id_order()), ", "@) + "] cannot reach node '"@
                        + start + "'"@,
                ),
            ]
        } else {
            seq![]
        };
        assert(conn == a + b);
        lemma_of_rule_add(a, b, rule);
        if unreachable.len() > 0 {
            lemma_of_rule_single(a[0], rule);
            assert(a == seq![a[0]]);
        } else {
            assert(of_rule(a, rule) =~= Seq::<Violation>::empty());
        }
        if cannot.len() > 0 {
            lemma_of_rule_single(b[0], rule);
            assert(b == seq![b[0]]);
        } else {
            assert(of_rule(b, rule) =~= Seq::<Violation>::empty());
        }
        if rule == "strongly_connected"@ {
            assert(of_rule(conn, rule) =~= conn);
        } else {
            assert(of_rule(conn, rule) =~= Seq::<Violation>::empty());
        }
    } else {
        assert(of_rule(conn, rule) =~= Seq::<Violation>::empty());
    }
}

/// The violations of rule `rule`, section by section, each section's count per item given
/// by `h1` to `h5`.
proof fn lemma_rule_count(
    layout: &Layout,
    rule: Seq<char>,
    h1: spec_fn(int) -> nat,
    h2: spec_fn(int) -> nat,
    h3: spec_fn(int) -> nat,
    h4: spec_fn(int) -> nat,
    h5: spec_fn(int) -> nat,
)
    requires
        forall|i: int|
            0 <= i < layout.nodes@.len() ==> #[trigger] h1(i) == indicator(
                !layout.nodes@[i].position.in_range() && rule == "finite_node_position"@,
            ),
        forall|i: int|
            0 <= i < layout.nodes@.len() ==> #[trigger] h2(i) == indicator(
                node_ids(layout.nodes@).take(i).contains(layout.nodes@[i].id@) && rule
                    == "unique_node_id"@,
            ),
        forall|i: int|
            0 <= i < layout.edges@.len() ==> #[trigger] h3(i) == indicator(
                edge_ids(layout.edges@).take(i).contains(layout.edges@[i].id@) && rule
                    == "unique_edge_id"@,
            ),
        forall|i: int|
            0 <= i < layout.edges@.len() ==> #[trigger] h4(i) == edge_rule_count(
                node_ids(layout.nodes@),
                layout.edges@[i],
                rule,
            ),
        forall|i: int|
            0 <= i < layout.nodes@.len() ==> #[trigger] h5(i) == indicator(
                degree(layout.edges@, layout.nodes@[i].id@) < 2 && rule == "min_two_edges"@,
            ),
    ensures
        of_rule(layout_violations(layout), rule).len() == sum_to(layout.nodes@.len() as int, h1)
            + sum_to(layout.nodes@.len() as int, h2) + sum_to(layout.edges@.len() as int, h3)
            + sum_to(layout.edges@.len() as int, h4) + sum_to(layout.nodes@.len() as int, h5)
            + of_rule(connectivity_violations(layout), rule).len(),
{
    let nodes = layout.nodes@;
    let edges = layout.edges@;
    let n = nodes.len() as int;
    let m = edges.len() as int;
    let ids = node_ids(nodes);
    let f1 = finite_position_items(nodes);
    let f2 = duplicate_node_items(nodes);
    let f3 = duplicate_edge_items(edges);
    let f4 = edge_items(ids, edges);
    let f5 = degree_items(nodes, edges);
    assert forall|i: int| 0 <= i < n implies of_rule(#[trigger] f1(i), rule).len() == h1(i) by {
        if !nodes[i].position.in_range() {
            lemma_of_rule_single(f1(i)[0], rule);
            assert(f1(i) == seq![f1(i)[0]]);
        } else {
            assert(of_rule(f1(i), rule) =~= Seq::<Violation>::empty());
        }
    }
    assert forall|i: int| 0 <= i < n implies of_rule(#[trigger] f2(i), rule).len() == h2(i) by {
        if ids.take(i).contains(nodes[i].id@) {
            lemma_of_rule_single(f2(i)[0], rule);
            assert(f2(i) == seq![f2(i)[0]]);
        } else {
            assert(of_rule(f2(i), rule) =~= Seq::<Violation>::empty());
        }
    }
    assert forall|i: int| 0 <= i < m implies of_rule(#[trigger] f3(i), rule).len() == h3(i) by {
        if edge_ids(edges).take(i).contains(edges[i].id@) {
            lemma_of_rule_single(f3(i)[0], rule);
            assert(f3(i) == seq![f3(i)[0]]);
        } else {
            assert(of_rule(f3(i), rule) =~= Seq::<Violation>::empty());
        }
    }
    assert forall|i: int| 0 <= i < m implies of_rule(#[trigger] f4(i), rule).len() == h4(i) by {
        lemma_edge_rule_count(ids, edges[i], rule);
    }
    assert forall|i: int| 0 <= i < n implies of_rule(#[trigger] f5(i), rule).len() == h5(i) by {
        if degree(edges, nodes[i].id@) < 2 {
            lemma_of_rule_single(f5(i)[0], rule);
            assert(f5(i) == seq![f5(i)[0]]);
        } else {
            assert(of_rule(f5(i), rule) =~= Seq::<Violation>::empty());
        }
    }
    lemma_section_count(f1, n, rule, h1);
    lemma_section_count(f2, n, rule, h2);
    lemma_section_count(f3, m, rule, h3);
    lemma_section_count(f4, m, rule, h4);
    lemma_section_count(f5, n, rule, h5);
    let c1 = concat_items(f1, n);
    let c2 = concat_items(f2, n);
    let c3 = concat_items(f3, m);
    let c4 = concat_items(f4, m);
    let c5 = concat_items(f5, n);
    let c6 = connectivity_violations(layout);
    lemma_of_rule_add(c1, c2, rule);
    lemma_of_rule_add(c1 + c2, c3, rule);
    lemma_of_rule_add(c1 + c2 + c3, c4, rule);
    lemma_of_rule_add(c1 + c2 + c3 + c4, c5, rule);
    lemma_of_rule_add(c1 + c2 + c3 + c4 + c5, c6, rule);
    assert(layout_violations(layout) == c1 + c2 + c3 + c4 + c5 + c6);
}

/// The number of violations of rule `rule` that edge `edge` has, given the node ids `ids`.
pub open spec fn edge_rule_count(ids: Seq<Seq<char>>, edge: Edge, rule: Seq<char>) -> nat {
    indicator((is_blank(edge.source@) || is_blank(edge.sink@)) && rule == "edge_endpoints_present"@)
        + indicator(!ids.contains(edge.source@) && rule == "edge_references_existing_node"@)
        + indicator(!ids.contains(edge.sink@) && rule == "edge_references_existing_node"@)
        + indicator(edge.source@ == edge.sink@ && rule == "edge_no_self_loop"@)
}

proof fn lemma_optional_single(c: bool, v: Violation, rule: Seq<char>)
    ensures
        of_rule(if c { seq![v] } else { Seq::<Violation>::empty() }, rule).len() == indicator(c && v.0 == rule),
{
    if c {
        lemma_of_rule_single(v, rule);
    } else {
        assert(of_rule(Seq::<Violation>::empty(), rule) =~= Seq::<Violation>::empty());
    }
}

proof fn lemma_edge_rule_count(ids: Seq<Seq<char>>, edge: Edge, rule: Seq<char>)
    ensures
        of_rule(edge_item(ids, edge), rule).len() == edge_rule_count(ids, edge, rule),
{
    let a_v = (
        "edge_endpoints_present"@,
        "Edge '"@ + edge.id@ + "' is not connected on both ends (source or sink missing)"@,
    );
    let b_v = (
        "edge_references_existing_node"@,
        "Edge '"@ + edge.id@ + "' references unknown source node '"@ + edge.source@ + "'"@,
    );
    let c_v = (
        "edge_references_existing_node"@,
        "Edge '"@ + edge.id@ + "' references unknown sink node '"@ + edge.sink@ + "'"@,
    );
    let d_v = (
        "edge_no_self_loop"@,
        "Edge '"@ + edge.id@ + "' connects node '"@ + edge.source@
            + "' to itself, which is not a valid driveway"@,
    );
    let ca = is_blank(edge.source@) || is_blank(edge.sink@);
    let cb = !ids.contains(edge.source@);
    let cc = !ids.contains(edge.sink@);
    let cd = edge.source@ == edge.sink@;
    let a = if ca { seq![a_v] } else { Seq::<Violation>::empty() };
    let b = if cb { seq![b_v] } else { Seq::<Violation>::empty() };
    let c = if cc { seq![c_v] } else { Seq::<Violation>::empty() };
    let d = if cd { seq![d_v] } else { Seq::<Violation>::empty() };
    assert(edge_item(ids, edge) == a + b + c + d);
    lemma_optional_single(ca, a_v, rule);
    lemma_optional_single(cb, b_v, rule);
    lemma_optional_single(cc, c_v, rule);
    lemma_optional_single(cd, d_v, rule);
    lemma_of_rule_add(a, b, rule);
    lemma_of_rule_add(a + b, c, rule);
    lemma_of_rule_add(a + b + c, d, rule);
}


/// The rule names differ from one another.
proof fn lemma_rule_names()
    ensures
        "finite_node_position"@.len() == 20,
        "unique_node_id"@.len() == 14,
        "unique_edge_id"@.len() == 14,
        "edge_endpoints_present"@.len() == 22,
        "edge_references_existing_node"@.len() == 29,
        "edge_no_self_loop"@.len() == 17,
        "min_two_edges"@.len() == 13,
        "strongly_connected"@.len() == 18,
        "unique_node_id"@ != "unique_edge_id"@,
{
    reveal_strlit("finite_node_position");
    reveal_strlit("unique_node_id");
    reveal_strlit("unique_edge_id");
    reveal_strlit("edge_endpoints_present");
    reveal_strlit("edge_references_existing_node");
    reveal_strlit("edge_no_self_loop");
    reveal_strlit("min_two_edges");
    reveal_strlit("strongly_connected");
    assert("unique_node_id"@[7] != "unique_edge_id"@[7]);
}

/// The strong-connectivity violations of a layout are those of the connectivity check.
proof fn lemma_strongly_connected_only_from_connectivity(layout: &Layout)
    requires
        "finite_node_position"@.len() == 20,
        "unique_node_id"@.len() == 14,
        "unique_edge_id"@.len() == 14,
        "edge_endpoints_present"@.len() == 22,
        "edge_references_existing_node"@.len() == 29,
        "edge_no_self_loop"@.len() == 17,
        "min_two_edges"@.len() == 13,
        "strongly_connected"@.len() == 18,
    ensures
        of_rule(layout_violations(layout), "strongly_connected"@) == connectivity_violations(layout),
{
    let nodes = layout.nodes@;
    let edges = layout.edges@;
    let z = no_items();
    let rule = "strongly_connected"@;
    lemma_sum_zero(nodes.len() as int, z);
    lemma_sum_zero(edges.len() as int, z);
    lemma_rule_count(layout, rule, z, z, z, z, z);
    lemma_connectivity_of_rule(layout, rule);
    let c1 = concat_items(finite_position_items(nodes), nodes.len() as int);
    let c2 = concat_items(duplicate_node_items(nodes), nodes.len() as int);
    let c3 = concat_items(duplicate_edge_items(edges), edges.len() as int);
    let c4 = concat_items(edge_items(node_ids(nodes), edges), edges.len() as int);
    let c5 = concat_items(degree_items(nodes, edges), nodes.len() as int);
    let c6 = connectivity_violations(layout);
    let front = c1 + c2 + c3 + c4 + c5;
    assert(layout_violations(layout) == front + c6);
    lemma_of_rule_add(front, c6, rule);
    lemma_of_rule_add(c1 + c2 + c3 + c4, c5, rule);
    lemma_of_rule_add(c1 + c2 + c3, c4, rule);
    lemma_of_rule_add(c1 + c2, c3, rule);
    lemma_of_rule_add(c1, c2, rule);
    assert(of_rule(front, rule).len() == 0);
    assert(of_rule(front, rule) =~= Seq::<Violation>::empty());
    assert(of_rule(front + c6, rule) =~= c6);
}

proof fn lemma_count_finite(layout: &Layout)
    ensures
        of_rule(layout_violations(layout), "finite_node_position"@).len() == sum_to(
            layout.nodes@.len() as int,
            out_of_range_nodes(layout.nodes@),
        ),
{
    let nodes = layout.nodes@;
    let edges = layout.edges@;
    let z = no_items();
    lemma_rule_names();
    lemma_sum_zero(nodes.len() as int, z);
    lemma_sum_zero(edges.len() as int, z);
    lemma_rule_count(layout, "finite_node_position"@, out_of_range_nodes(nodes), z, z, z, z);
    lemma_connectivity_of_rule(layout, "finite_node_position"@);
}

proof fn lemma_count_node_ids(layout: &Layout)
    ensures
        of_rule(layout_violations(layout), "unique_node_id"@).len() == sum_to(
            layout.nodes@.len() as int,
            repeated_node_ids(layout.nodes@),
        ),
{
    let nodes = layout.nodes@;
    let edges = layout.edges@;
    let z = no_items();
    lemma_rule_names();
    lemma_sum_zero(nodes.len() as int, z);
    lemma_sum_zero(edges.len() as int, z);
    lemma_rule_count(layout, "unique_node_id"@, z, repeated_node_ids(nodes), z, z, z);
    lemma_connectivity_of_rule(layout, "unique_node_id"@);
}

proof fn lemma_count_edge_ids(layout: &Layout)
    ensures
        of_rule(layout_violations(layout), "unique_edge_id"@).len() == sum_to(
            layout.edges@.len() as int,
            repeated_edge_ids(layout.edges@),
        ),
{
    let nodes = layout.nodes@;
    let edges = layout.edges@;
    let z = no_items();
    lemma_rule_names();
    lemma_sum_zero(nodes.len() as int, z);
    lemma_sum_zero(edges.len() as int, z);
    lemma_rule_count(layout, "unique_edge_id"@, z, z, repeated_edge_ids(edges), z, z);
    lemma_connectivity_of_rule(layout, "unique_edge_id"@);
}

proof fn lemma_count_blank_ends(layout: &Layout)
    ensures
        of_rule(layout_violations(layout), "edge_endpoints_present"@).len() == sum_to(
            layout.edges@.len() as int,
            blank_ended_edges(layout.edges@),
        ),
{
    let nodes = layout.nodes@;
    let edges = layout.edges@;
    let z = no_items();
    lemma_rule_names();
    lemma_sum_zero(nodes.len() as int, z);
    lemma_sum_zero(edges.len() as int, z);
    lemma_rule_count(layout, "edge_endpoints_present"@, z, z, z, blank_ended_edges(edges), z);
    lemma_connectivity_of_rule(layout, "edge_endpoints_present"@);
}

proof fn lemma_count_unknown_ends(layout: &Layout)
    ensures
        of_rule(layout_violations(layout), "edge_references_existing_node"@).len() == sum_to(
            layout.edges@.len() as int,
            unknown_ends(node_ids(layout.nodes@), layout.edges@),
        ),
{
    let nodes = layout.nodes@;
    let edges = layout.edges@;
    let z = no_items();
    lemma_rule_names();
    lemma_sum_zero(nodes.len() as int, z);
    lemma_sum_zero(edges.len() as int, z);
    lemma_rule_count(layout, "edge_references_existing_node"@, z, z, z, unknown_ends(node_ids(nodes), edges), z);
    lemma_connectivity_of_rule(layout, "edge_references_existing_node"@);
}

proof fn lemma_count_self_loops(layout: &Layout)
    ensures
        of_rule(layout_violations(layout), "edge_no_self_loop"@).len() == sum_to(
            layout.edges@.len() as int,
            self_loops(layout.edges@),
        ),
{
    let nodes = layout.nodes@;
    let edges = layout.edges@;
    let z = no_items();
    lemma_rule_names();
    lemma_sum_zero(nodes.len() as int, z);
    lemma_sum_zero(edges.len() as int, z);
    lemma_rule_count(layout, "edge_no_self_loop"@, z, z, z, self_loops(edges), z);
    lemma_connectivity_of_rule(layout, "edge_no_self_loop"@);
}

proof fn lemma_count_low_degree(layout: &Layout)
    ensures
        of_rule(layout_violations(layout), "min_two_edges"@).len() == sum_to(
            layout.nodes@.len() as int,
            low_degree_nodes(layout.nodes@, layout.edges@),
        ),
{
    let nodes = layout.nodes@;
    let edges = layout.edges@;
    let z = no_items();
    lemma_rule_names();
    lemma_sum_zero(nodes.len() as int, z);
    lemma_sum_zero(edges.len() as int, z);
    lemma_rule_count(layout, "min_two_edges"@, z, z, z, z, low_degree_nodes(nodes, edges));
    lemma_connectivity_of_rule(layout, "min_two_edges"@);
}

/// One for each node whose position is out of range.
pub open spec fn out_of_range_nodes(nodes: Seq<Node>) -> spec_fn(int) -> nat {
    |i: int| indicator(!nodes[i].position.in_range())
}

/// One for each node whose id occurs earlier.
pub open spec fn repeated_node_ids(nodes: Seq<Node>) -> spec_fn(int) -> nat {
    |i: int| indicator(node_ids(nodes).take(i).contains(nodes[i].id@))
}

/// One for each edge whose id occurs earlier.
pub open spec fn repeated_edge_ids(edges: Seq<Edge>) -> spec_fn(int) -> nat {
    |i: int| indicator(edge_ids(edges).take(i).contains(edges[i].id@))
}

/// One for each edge with a blank end.
pub open spec fn blank_ended_edges(edges: Seq<Edge>) -> spec_fn(int) -> nat {
    |i: int| indicator(is_blank(edges[i].source@) || is_blank(edges[i].sink@))
}

/// For each edge, the number of its ends that name no node among `ids`.
pub open spec fn unknown_ends(ids: Seq<Seq<char>>, edges: Seq<Edge>) -> spec_fn(int) -> nat {
    |i: int| indicator(!ids.contains(edges[i].source@)) + indicator(!ids.contains(edges[i].sink@))
}

/// One for each edge from a node to itself.
pub open spec fn self_loops(edges: Seq<Edge>) -> spec_fn(int) -> nat {
    |i: int| indicator(edges[i].source@ == edges[i].sink@)
}

/// One for each node with fewer than two edges attached.
pub open spec fn low_degree_nodes(nodes: Seq<Node>, edges: Seq<Edge>) -> spec_fn(int) -> nat {
    |i: int| indicator(degree(edges, nodes[i].id@) < 2)
}

/// Nothing for any item.
spec fn no_items() -> spec_fn(int) -> nat {
    |i: int| 0nat
}

/// The violations of a layout, counted rule by rule: one `finite_node_position` for each
/// node whose position is out of range, one `unique_node_id` for each node (and one
/// `unique_edge_id` for each edge) whose id occurs earlier, one `edge_endpoints_present`
/// for each edge with a blank end, one `edge_references_existing_node` for each edge end
/// that names no node, one `edge_no_self_loop` for each edge from a node to itself, one
/// `min_two_edges` for each node with fewer than two edges attached; the
/// `strongly_connected` ones are exactly those of the connectivity check, and there are
/// none of them while an edge has a blank end or names no node.
pub proof fn lemma_violation_counts(layout: &Layout)
    ensures
        of_rule(layout_violations(layout), "finite_node_position"@).len() == sum_to(
            layout.nodes@.len() as int,
            out_of_range_nodes(layout.nodes@),
        ),
        of_rule(layout_violations(layout), "unique_node_id"@).len() == sum_to(
            layout.nodes@.len() as int,
            repeated_node_ids(layout.nodes@),
        ),
        of_rule(layout_violations(layout), "unique_edge_id"@).len() == sum_to(
            layout.edges@.len() as int,
            repeated_edge_ids(layout.edges@),
        ),
        of_rule(layout_violations(layout), "edge_endpoints_present"@).len() == sum_to(
            layout.edges@.len() as int,
            blank_ended_edges(layout.edges@),
        ),
        of_rule(layout_violations(layout), "edge_references_existing_node"@).len() == sum_to(
            layout.edges@.len() as int,
            unknown_ends(node_ids(layout.nodes@), layout.edges@),
        ),
        of_rule(layout_violations(layout), "edge_no_self_loop"@).len() == sum_to(
            layout.edges@.len() as int,
            self_loops(layout.edges@),
        ),
        of_rule(layout_violations(layout), "min_two_edges"@).len() == sum_to(
            layout.nodes@.len() as int,
            low_degree_nodes(layout.nodes@, layout.edges@),
        ),
        of_rule(layout_violations(layout), "strongly_connected"@) == connectivity_violations(layout),
        of_rule(layout_violations(layout), "edge_endpoints_present"@).len() + of_rule(
            layout_violations(layout),
            "edge_references_existing_node"@,
        ).len() > 0 ==> of_rule(layout_violations(layout), "strongly_connected"@).len() == 0,
{
    let nodes = layout.nodes@;
    let edges = layout.edges@;
    let m = edges.len() as int;
    let ids = node_ids(nodes);
    lemma_count_finite(layout);
    lemma_count_node_ids(layout);
    lemma_count_edge_ids(layout);
    lemma_count_blank_ends(layout);
    lemma_count_unknown_ends(layout);
    lemma_count_self_loops(layout);
    lemma_count_low_degree(layout);
    lemma_rule_names();
    lemma_strongly_connected_only_from_connectivity(layout);
    let blank = blank_ended_edges(edges);
    let unknown = unknown_ends(ids, edges);
    if sum_to(m, blank) + sum_to(m, unknown) > 0 {
        lemma_sum_positive(m, blank);
        lemma_sum_positive(m, unknown);
        let e = if sum_to(m, blank) > 0 {
            choose|i: int| 0 <= i < m && #[trigger] blank(i) > 0
        } else {
            choose|i: int| 0 <= i < m && #[trigger] unknown(i) > 0
        };
        assert(dangles(ids, edges[e]));
        assert(has_dangling_reference(layout));
    }
}


// --- What the per-item rules accept ------------------------------------------------

/// A position is in range exactly when each coordinate lies between `-MAX_COORDINATE` and
/// `MAX_COORDINATE`, negative coordinates included.
pub proof fn lemma_position_in_range_interval(p: Position)
    ensures
        p.in_range() <==> (-MAX_COORDINATE <= p.x && p.x <= MAX_COORDINATE && -MAX_COORDINATE
            <= p.y && p.y <= MAX_COORDINATE),
{
}

/// A node has a `finite_node_position` violation exactly when a coordinate lies outside
/// `[-MAX_COORDINATE, MAX_COORDINATE]`; a negative coordinate inside it is accepted.
pub proof fn lemma_finite_position_violation(node: Node)
    ensures
        (-MAX_COORDINATE <= node.position.x && node.position.x <= MAX_COORDINATE
            && -MAX_COORDINATE <= node.position.y && node.position.y <= MAX_COORDINATE)
            ==> finite_position_item(node).len() == 0,
        !(-MAX_COORDINATE <= node.position.x && node.position.x <= MAX_COORDINATE
            && -MAX_COORDINATE <= node.position.y && node.position.y <= MAX_COORDINATE)
            ==> finite_position_item(node) == seq![
            ("finite_node_position"@, "Node '"@ + node.id@ + "' has a non-finite position"@),
        ],
{
}

/// When every coordinate of a layout lies in `[-MAX_COORDINATE, MAX_COORDINATE]`, validation
/// reports no `finite_node_position` violation.
pub proof fn lemma_coordinates_in_interval_pass(layout: &Layout)
    requires
        forall|i: int|
            0 <= i < layout.nodes@.len() ==> -MAX_COORDINATE <= (#[trigger] layout.nodes@[i]).position.x
                && layout.nodes@[i].position.x <= MAX_COORDINATE && -MAX_COORDINATE
                <= layout.nodes@[i].position.y && layout.nodes@[i].position.y <= MAX_COORDINATE,
    ensures
        of_rule(layout_violations(layout), "finite_node_position"@).len() == 0,
{
    let nodes = layout.nodes@;
    lemma_count_finite(layout);
    assert forall|i: int| 0 <= i < nodes.len() implies #[trigger] out_of_range_nodes(nodes)(i)
        == 0 by {
        assert(nodes[i] == nodes[i]);
    }
    lemma_sum_zero(nodes.len() as int, out_of_range_nodes(nodes));
}

/// Which characters are whitespace: the ASCII control whitespace and the space are, letters,
/// digits and the underscore are not.
pub proof fn lemma_whitespace_characters(c: char)
    ensures
        is_whitespace(' '),
        is_whitespace('\t'),
        is_whitespace('\n'),
        is_whitespace('\r'),
        ('a' <= c && c <= 'z') || ('A' <= c && c <= 'Z') || ('0' <= c && c <= '9') || c == '_'
            ==> !is_whitespace(c),
{
}

/// A string is blank exactly when every one of its characters is whitespace: the empty
/// string is blank, and a string with one non-whitespace character anywhere is not.
pub proof fn lemma_blank_characters(s: Seq<char>)
    ensures
        is_blank(s) <==> forall|i: int| 0 <= i < s.len() ==> is_whitespace(#[trigger] s[i]),
        is_blank(Seq::<char>::empty()),
        (exists|i: int| 0 <= i < s.len() && !is_whitespace(#[trigger] s[i])) ==> !is_blank(s),
{
}

/// A concatenation is blank exactly when both parts are.
pub proof fn lemma_blank_concat(a: Seq<char>, b: Seq<char>)
    ensures
        is_blank(a + b) <==> is_blank(a) && is_blank(b),
{
    if is_blank(a + b) {
        assert forall|i: int| 0 <= i < a.len() implies is_whitespace(#[trigger] a[i]) by {
            assert((a + b)[i] == a[i]);
        }
        assert forall|i: int| 0 <= i < b.len() implies is_whitespace(#[trigger] b[i]) by {
            assert((a + b)[a.len() + i] == b[i]);
        }
    }
    if is_blank(a) && is_blank(b) {
        assert forall|i: int| 0 <= i < (a + b).len() implies is_whitespace(#[trigger] (a + b)[i]) by {
            if i < a.len() {
                assert((a + b)[i] == a[i]);
            } else {
                assert((a + b)[i] == b[i - a.len()]);
            }
        }
    }
}

/// An edge whose source and sink each hold a non-whitespace character, such as `Node BL`,
/// is never reported under `edge_endpoints_present`; one with an empty end always is.
pub proof fn lemma_endpoints_present(ids: Seq<Seq<char>>, edge: Edge)
    ensures
        (exists|i: int| 0 <= i < edge.source@.len() && !is_whitespace(#[trigger] edge.source@[i]))
            && (exists|j: int| 0 <= j < edge.sink@.len() && !is_whitespace(#[trigger] edge.sink@[j]))
            ==> of_rule(edge_item(ids, edge), "edge_endpoints_present"@).len() == 0,
        (edge.source@.len() == 0 || edge.sink@.len() == 0) ==> of_rule(
            edge_item(ids, edge),
            "edge_endpoints_present"@,
        ).len() == 1,
{
    lemma_edge_rule_count(ids, edge, "edge_endpoints_present"@);
    lemma_rule_names();
}

/// Edges attach to a node id once at each end that names it: a layout without edges
/// attaches nothing, and one more edge adds one for its source and one for its sink.
pub proof fn lemma_degree_counts_edge_ends(edges: Seq<Edge>, e: Edge, id: Seq<char>)
    ensures
        degree(Seq::<Edge>::empty(), id) == 0,
        degree(edges.push(e), id) == degree(edges, id) + (if e.source@ == id {
            1int
        } else {
            0int
        }) + (if e.sink@ == id {
            1int
        } else {
            0int
        }),
{
    let edges2 = edges.push(e);
    lemma_attached_ends_prefix(edges, edges2, id, edges.len() as int);
    assert(edges2[edges.len() as int] == e);
}

/// The count of edge ends among the first `k` edges depends on those edges alone.
proof fn lemma_attached_ends_prefix(a: Seq<Edge>, b: Seq<Edge>, id: Seq<char>, k: int)
    requires
        0 <= k <= a.len(),
        k <= b.len(),
        forall|j: int| 0 <= j < k ==> a[j] == b[j],
    ensures
        attached_ends(a, id, k) == attached_ends(b, id, k),
    decreases k,
{
    if k > 0 {
        lemma_attached_ends_prefix(a, b, id, k - 1);
        assert(a[k - 1] == b[k - 1]);
    }
}

/// A node with a single attached edge end is reported under `min_two_edges`.
pub proof fn lemma_single_edge_end_reported(edges: Seq<Edge>, node: Node, k: int)
    requires
        0 <= k < edges.len(),
        edges[k].source@ == node.id@ || edges[k].sink@ == node.id@,
        edges[k].source@ != edges[k].sink@,
        forall|j: int|
            #![trigger edges[j]]
            0 <= j < edges.len() && j != k ==> edges[j].source@ != node.id@ && edges[j].sink@
                != node.id@,
    ensures
        degree(edges, node.id@) == 1,
        degree_item(edges, node).len() == 1,
{
    lemma_attached_ends_single(edges, node.id@, k, edges.len() as int);
}

proof fn lemma_attached_ends_single(edges: Seq<Edge>, id: Seq<char>, k: int, m: int)
    requires
        0 <= k < edges.len(),
        0 <= m <= edges.len(),
        edges[k].source@ == id || edges[k].sink@ == id,
        edges[k].source@ != edges[k].sink@,
        forall|j: int|
            #![trigger edges[j]]
            0 <= j < edges.len() && j != k ==> edges[j].source@ != id && edges[j].sink@ != id,
    ensures
        attached_ends(edges, id, m) == (if m > k {
            1nat
        } else {
            0nat
        }),
    decreases m,
{
    if m > 0 {
        lemma_attached_ends_single(edges, id, k, m - 1);
        if m - 1 != k {
            assert(edges[m - 1].source@ != id && edges[m - 1].sink@ != id);
        }
    }
}

} // verus!
