//! The layout as it arrives from a client: nodes with positions and directed edges that
//! name their endpoints by node id.
//!
//! Coordinates are fixed-point integers: one unit of layout length is
//! [`COORDINATE_SCALE`] coordinate units. A coordinate whose magnitude exceeds
//! [`MAX_COORDINATE`] has no finite route weight in this representation; validation
//! reports such a node under the rule `finite_node_position`.
use vstd::prelude::*;

verus! {

/// Coordinate units per unit of layout length.
pub const COORDINATE_SCALE: i64 = 1_000_000;

/// Largest coordinate magnitude, in coordinate units, that yields a finite route weight.
pub const MAX_COORDINATE: i64 = 1_000_000_000_000;

pub type NodeId = String;

pub type EdgeId = String;

/// A node position in fixed-point coordinate units.
#[derive(Clone, Copy, Debug)]
pub struct Position {
    pub x: i64,
    pub y: i64,
}

impl Position {
    /// Both coordinates lie within `[-MAX_COORDINATE, MAX_COORDINATE]`.
    pub open spec fn in_range(self) -> bool {
        &&& -MAX_COORDINATE <= self.x <= MAX_COORDINATE
        &&& -MAX_COORDINATE <= self.y <= MAX_COORDINATE
    }

    /// Whether the position yields finite route weights.
    pub fn is_finite(&self) -> (finite: bool)
        ensures
            finite == self.in_range(),
            finite <==> (-MAX_COORDINATE <= self.x && self.x <= MAX_COORDINATE && -MAX_COORDINATE
                <= self.y && self.y <= MAX_COORDINATE),
    {
        -MAX_COORDINATE <= self.x && self.x <= MAX_COORDINATE && -MAX_COORDINATE <= self.y
            && self.y <= MAX_COORDINATE
    }
}

#[derive(Debug)]
pub struct Node {
    pub id: NodeId,
    pub position: Position,
}

#[derive(Debug)]
pub struct Edge {
    pub id: EdgeId,
    /// Node id this edge starts at.
    pub source: NodeId,
    /// Node id this edge ends at.
    pub sink: NodeId,
}

#[derive(Debug)]
pub struct Layout {
    pub id: String,
    pub nodes: Vec<Node>,
    pub edges: Vec<Edge>,
}

impl Node {
    /// A copy of the node.
    pub fn duplicate(&self) -> (copy: Node)
        ensures
            copy == *self,
    {
        Node { id: self.id.clone(), position: self.position }
    }
}

/// The ids of `nodes`, in order.
pub open spec fn node_ids(nodes: Seq<Node>) -> Seq<Seq<char>> {
    nodes.map_values(|n: Node| n.id@)
}

/// The largest index `i` with `ids[i] == id`, or `-1` when `id` does not occur.
pub open spec fn last_index_of(ids: Seq<Seq<char>>, id: Seq<char>) -> int
    decreases ids.len(),
{
    if ids.len() == 0 {
        -1
    } else if ids.last() == id {
        ids.len() - 1
    } else {
        last_index_of(ids.drop_last(), id)
    }
}

pub proof fn lemma_last_index_of(ids: Seq<Seq<char>>, id: Seq<char>)
    ensures
        -1 <= last_index_of(ids, id) < ids.len(),
        last_index_of(ids, id) >= 0 <==> ids.contains(id),
        last_index_of(ids, id) >= 0 ==> ids[last_index_of(ids, id)] == id,
        forall|j: int| last_index_of(ids, id) < j < ids.len() ==> ids[j] != id,
    decreases ids.len(),
{
    if ids.len() > 0 {
        lemma_last_index_of(ids.drop_last(), id);
        if ids.last() != id {
            if ids.drop_last().contains(id) {
                let j = choose|j: int| 0 <= j < ids.drop_last().len() && ids.drop_last()[j] == id;
                assert(ids[j] == id);
            }
            if ids.contains(id) {
                let j = choose|j: int| 0 <= j < ids.len() && ids[j] == id;
                assert(ids.drop_last()[j] == id);
            }
            assert forall|j: int| last_index_of(ids, id) < j < ids.len() implies ids[j] != id by {
                if j < ids.len() - 1 {
                    assert(ids.drop_last()[j] == ids[j]);
                }
            }
        } else {
            assert(ids[ids.len() - 1] == id);
        }
    }
}

pub proof fn lemma_last_index_of_push(ids: Seq<Seq<char>>, x: Seq<char>, id: Seq<char>)
    ensures
        last_index_of(ids.push(x), id) == if x == id {
            ids.len() as int
        } else {
            last_index_of(ids, id)
        },
{
    assert(ids.push(x).drop_last() =~= ids);
}

/// Every edge of `layout` names existing nodes at both ends and every position is finite.
pub open spec fn is_routable(layout: &Layout) -> bool {
    let ids = node_ids(layout.nodes@);
    &&& forall|e: int|
        0 <= e < layout.edges@.len() ==> ids.contains(#[trigger] layout.edges@[e].source@)
            && ids.contains(layout.edges@[e].sink@)
    &&& forall|i: int| 0 <= i < layout.nodes@.len() ==> (#[trigger] layout.nodes@[i]).position.in_range()
}

} // verus!
