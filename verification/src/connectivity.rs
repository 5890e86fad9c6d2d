//! Reachability in a directed graph given as adjacency lists of node indices.
use vstd::prelude::*;

use crate::graph::{as_ints, NodeIndex};

verus! {

/// The adjacency lists of `adjacency` as mathematical integers.
pub open spec fn adjacency_view(adjacency: Seq<Vec<NodeIndex>>) -> Seq<Seq<int>> {
    adjacency.map_values(|a: Vec<NodeIndex>| as_ints(a@))
}

/// `vs` lists, in order, the nodes after `from` on a walk that follows adjacency lists and
/// ends at `to`.
pub open spec fn adj_path(adj: Seq<Seq<int>>, from: int, to: int, vs: Seq<int>) -> bool
    decreases vs.len(),
{
    if vs.len() == 0 {
        from == to
    } else {
        &&& 0 <= from < adj.len()
        &&& adj[from].contains(vs[0])
        &&& adj_path(adj, vs[0], to, vs.drop_first())
    }
}

/// Some walk leads from `from` to `to`.
pub open spec fn adj_reachable(adj: Seq<Seq<int>>, from: int, to: int) -> bool {
    exists|vs: Seq<int>| #[trigger] adj_path(adj, from, to, vs)
}

/// Extending a walk by one adjacency step.
pub proof fn lemma_adj_path_push(adj: Seq<Seq<int>>, from: int, to: int, vs: Seq<int>, next: int)
    requires
        adj_path(adj, from, to, vs),
        0 <= to < adj.len(),
        adj[to].contains(next),
    ensures
        adj_path(adj, from, next, vs.push(next)),
    decreases vs.len(),
{
    if vs.len() == 0 {
        assert(vs.push(next).drop_first() =~= Seq::<int>::empty());
        assert(vs.push(next)[0] == next);
        assert(adj_path(adj, next, next, Seq::<int>::empty()));
    } else {
        lemma_adj_path_push(adj, vs[0], to, vs.drop_first(), next);
        assert(vs.push(next).drop_first() =~= vs.drop_first().push(next));
        assert(vs.push(next)[0] == vs[0]);
    }
}

/// A set of nodes closed under adjacency steps contains every node that a walk from one of
/// its members reaches.
proof fn lemma_closed_walk(adj: Seq<Seq<int>>, visited: Seq<bool>, from: int, to: int, vs: Seq<int>)
    requires
        visited.len() == adj.len(),
        0 <= from < adj.len(),
        visited[from],
        forall|x: int, j: int|
            0 <= x < adj.len() && visited[x] && 0 <= j < adj[x].len() ==> 0 <= #[trigger] adj[x][j]
                < adj.len() && visited[adj[x][j]],
        adj_path(adj, from, to, vs),
    ensures
        0 <= to < adj.len(),
        visited[to],
    decreases vs.len(),
{
    if vs.len() > 0 {
        let j = choose|j: int| 0 <= j < adj[from].len() && adj[from][j] == vs[0];
        assert(adj[from][j] == vs[0]);
        lemma_closed_walk(adj, visited, vs[0], to, vs.drop_first());
    }
}

/// The number of `false` entries of `s`.
pub open spec fn count_false(s: Seq<bool>) -> nat
    decreases s.len(),
{
    if s.len() == 0 {
        0
    } else {
        count_false(s.drop_last()) + if s.last() {
            0nat
        } else {
            1nat
        }
    }
}

pub proof fn lemma_count_false_update(s: Seq<bool>, i: int)
    requires
        0 <= i < s.len(),
        !s[i],
    ensures
        count_false(s.update(i, true)) + 1 == count_false(s),
    decreases s.len(),
{
    let t = s.update(i, true);
    if i == s.len() - 1 {
        assert(t.drop_last() =~= s.drop_last());
    } else {
        assert(t.drop_last() =~= s.drop_last().update(i, true));
        lemma_count_false_update(s.drop_last(), i);
    }
}

pub proof fn lemma_count_false_all(n: nat)
    ensures
        count_false(Seq::new(n, |i: int| false)) == n,
    decreases n,
{
    if n > 0 {
        assert(Seq::new(n, |i: int| false).drop_last() =~= Seq::new((n - 1) as nat, |i: int| false));
        lemma_count_false_all((n - 1) as nat);
    }
}

/// A vector holding `n` copies of `value`.
pub fn filled<T: Copy>(n: usize, value: T) -> (v: Vec<T>)
    ensures
        v@ == Seq::new(n as nat, |i: int| value),
{
    let mut v: Vec<T> = Vec::new();
    for i in 0..n
        invariant
            v@ == Seq::new(i as nat, |j: int| value),
    {
        v.push(value);
        assert(v@ =~= Seq::new((i + 1) as nat, |j: int| value));
    }
    v
}

/// Breadth-first search: marks exactly the nodes reachable from `start` by following the
/// adjacency lists.
pub fn bfs_reachable(start: NodeIndex, adjacency: &Vec<Vec<NodeIndex>>) -> (visited: Vec<bool>)
    requires
        start < adjacency@.len(),
        forall|v: int, j: int|
            0 <= v < adjacency@.len() && 0 <= j < adjacency@[v]@.len() ==> #[trigger] adjacency@[v]@[j]
                < adjacency@.len(),
    ensures
        visited@.len() == adjacency@.len(),
        forall|v: int|
            0 <= v < adjacency@.len() ==> (visited@[v] <==> adj_reachable(
                adjacency_view(adjacency@),
                start as int,
                v,
            )),
{
    let ghost adj = adjacency_view(adjacency@);
    let n = adjacency.len();
    let mut visited: Vec<bool> = filled(n, false);
    let mut queue: Vec<NodeIndex> = Vec::new();
    proof {
        lemma_count_false_all(n as nat);
        assert(visited@ =~= Seq::new(n as nat, |i: int| false));
        lemma_count_false_update(visited@, start as int);
        assert(adj_path(adj, start as int, start as int, Seq::empty()));
    }
    visited.set(start, true);
    queue.push(start);
    assert(as_ints(queue@)[0] == start as int);
    let mut head: usize = 0;
    while head < queue.len()
        invariant
            n == adjacency@.len(),
            adj == adjacency_view(adjacency@),
            forall|v: int, j: int|
                0 <= v < n && 0 <= j < adjacency@[v]@.len() ==> #[trigger] adjacency@[v]@[j] < n,
            visited@.len() == n,
            visited@[start as int],
            0 <= head <= queue@.len(),
            forall|k: int| 0 <= k < queue@.len() ==> #[trigger] queue@[k] < n && visited@[queue@[k] as int],
            forall|v: int| 0 <= v < n && #[trigger] visited@[v] ==> as_ints(queue@).contains(v),
            forall|v: int| 0 <= v < n && #[trigger] visited@[v] ==> adj_reachable(adj, start as int, v),
            forall|k: int, j: int|
                0 <= k < head && 0 <= j < adjacency@[queue@[k] as int]@.len() ==> visited@[#[trigger] adjacency@[queue@[k] as int]@[j] as int],
        decreases count_false(visited@), queue@.len() - head,
    {
        let current = queue[head];
        let ghost count_before = count_false(visited@);
        let ghost len_before = queue@.len();
        let neighbors = &adjacency[current];
        let mut j: usize = 0;
        while j < neighbors.len()
            invariant
                n == adjacency@.len(),
                adj == adjacency_view(adjacency@),
                forall|v: int, i: int|
                    0 <= v < n && 0 <= i < adjacency@[v]@.len() ==> #[trigger] adjacency@[v]@[i] < n,
                current < n,
                *neighbors == adjacency@[current as int],
                visited@.len() == n,
                visited@[start as int],
                visited@[current as int],
                adj_reachable(adj, start as int, current as int),
                0 <= head < len_before <= queue@.len(),
                queue@[head as int] == current,
                0 <= j <= neighbors@.len(),
                count_false(visited@) + (queue@.len() - len_before) == count_before,
                forall|k: int| 0 <= k < queue@.len() ==> #[trigger] queue@[k] < n && visited@[queue@[k] as int],
                forall|v: int| 0 <= v < n && #[trigger] visited@[v] ==> as_ints(queue@).contains(v),
                forall|v: int| 0 <= v < n && #[trigger] visited@[v] ==> adj_reachable(adj, start as int, v),
                forall|k: int, i: int|
                    0 <= k < head && 0 <= i < adjacency@[queue@[k] as int]@.len() ==> visited@[#[trigger] adjacency@[queue@[k] as int]@[i] as int],
                forall|i: int| 0 <= i < j ==> visited@[#[trigger] neighbors@[i] as int],
            decreases neighbors@.len() - j,
        {
            let next = neighbors[j];
            if !visited[next] {
                proof {
                    let vs = choose|vs: Seq<int>| #[trigger] adj_path(adj, start as int, current as int, vs);
                    assert(adj[current as int] == as_ints(adjacency@[current as int]@));
                    assert(as_ints(adjacency@[current as int]@)[j as int] == next as int);
                    lemma_adj_path_push(adj, start as int, current as int, vs, next as int);
                    lemma_count_false_update(visited@, next as int);
                }
                let ghost old_queue = queue@;
                visited.set(next, true);
                queue.push(next);
                proof {
                    assert forall|v: int| 0 <= v < n && #[trigger] visited@[v] implies as_ints(queue@).contains(v) by {
                        if v == next as int {
                            assert(as_ints(queue@)[old_queue.len() as int] == v);
                        } else {
                            let k = choose|k: int| 0 <= k < as_ints(old_queue).len() && as_ints(old_queue)[k] == v;
                            assert(as_ints(queue@)[k] == v);
                        }
                    }
                }
            }
            j = j + 1;
        }
        head = head + 1;
    }
    proof {
        assert forall|v: int| 0 <= v < n implies (visited@[v] <==> adj_reachable(adj, start as int, v)) by {
            if adj_reachable(adj, start as int, v) {
                let vs = choose|vs: Seq<int>| #[trigger] adj_path(adj, start as int, v, vs);
                assert forall|x: int, j: int|
                    0 <= x < adj.len() && visited@[x] && 0 <= j < adj[x].len() implies 0 <= #[trigger] adj[x][j]
                        < adj.len() && visited@[adj[x][j]] by {
                    let k = choose|k: int| 0 <= k < as_ints(queue@).len() && as_ints(queue@)[k] == x;
                    assert(queue@[k] as int == x);
                    assert(adj[x] == as_ints(adjacency@[x]@));
                    assert(adj[x][j] == adjacency@[queue@[k] as int]@[j] as int);
                }
                lemma_closed_walk(adj, visited@, start as int, v, vs);
            }
        }
    }
    visited
}

} // verus!
