//! A lookup table from node ids to node indices, kept sorted by id so that a lookup is a
//! binary search.
use vstd::prelude::*;
use vstd::relations::total_ordering;

use crate::models::{last_index_of, lemma_last_index_of, lemma_last_index_of_push, node_ids, Node};
use crate::text::{id_less_eq, id_order, lemma_id_order_total};

verus! {

/// The ids of the entries of `table`.
pub open spec fn table_keys(table: Seq<(String, usize)>) -> Seq<Seq<char>> {
    table.map_values(|entry: (String, usize)| entry.0@)
}

/// The keys of `table` increase strictly.
pub open spec fn keys_increasing(table: Seq<(String, usize)>) -> bool {
    forall|i: int, j: int|
        0 <= i < j < table.len() ==> id_order()(
            #[trigger] table_keys(table)[i],
            #[trigger] table_keys(table)[j],
        ) && table_keys(table)[i] != table_keys(table)[j]
}

/// `table` lists each id of `ids` once, in increasing order, with the last index at which
/// it occurs in `ids`.
pub open spec fn is_lookup_table(table: Seq<(String, usize)>, ids: Seq<Seq<char>>) -> bool {
    &&& keys_increasing(table)
    &&& forall|i: int|
        0 <= i < table.len() ==> 0 <= (#[trigger] table[i]).1 < ids.len() && table[i].1 as int
            == last_index_of(ids, table[i].0@)
    &&& forall|v: int| 0 <= v < ids.len() ==> table_keys(table).contains(#[trigger] ids[v])
}

/// The place of `id` among the increasing keys of `table`: the keys before it sort below
/// `id`, the keys from it on no lower.
fn locate(table: &Vec<(String, usize)>, id: &str) -> (pos: usize)
    requires
        keys_increasing(table@),
    ensures
        pos <= table@.len(),
        forall|j: int|
            0 <= j < pos ==> id_order()(#[trigger] table_keys(table@)[j], id@) && table_keys(
                table@,
            )[j] != id@,
        forall|j: int| pos <= j < table@.len() ==> id_order()(id@, #[trigger] table_keys(table@)[j]),
{
    proof {
        lemma_id_order_total();
    }
    let ghost keys = table_keys(table@);
    let mut lo: usize = 0;
    let mut hi: usize = table.len();
    while lo < hi
        invariant
            total_ordering(id_order()),
            keys == table_keys(table@),
            keys_increasing(table@),
            0 <= lo <= hi <= table@.len(),
            forall|j: int| 0 <= j < lo ==> id_order()(#[trigger] keys[j], id@) && keys[j] != id@,
            forall|j: int| hi <= j < keys.len() ==> id_order()(id@, #[trigger] keys[j]),
        decreases hi - lo,
    {
        let mid = lo + (hi - lo) / 2;
        let key = table[mid].0.as_str();
        assert(key@ == keys[mid as int]);
        let le = id_less_eq(id, key);
        assert(le == id_order()(id@, keys[mid as int]));
        assert(id_order()(id@, keys[mid as int]) || id_order()(keys[mid as int], id@));
        if le {
            assert forall|j: int| mid <= j < keys.len() implies id_order()(id@, #[trigger] keys[j]) by {
                if j > mid {
                    assert(id_order()(keys[mid as int], keys[j]));
                }
            }
            hi = mid;
        } else {
            assert(id_order()(keys[mid as int], id@));
            assert forall|j: int| 0 <= j < mid + 1 implies id_order()(#[trigger] keys[j], id@)
                && keys[j] != id@ by {
                if j < mid {
                    assert(id_order()(keys[j], keys[mid as int]));
                }
                if keys[j] == id@ {
                    assert(id_order()(id@, keys[mid as int]));
                }
            }
            lo = mid + 1;
        }
    }
    lo
}

/// The index that `table` gives for `id`, the last index of `id` in `ids`, if `id` occurs.
pub fn lookup(table: &Vec<(String, usize)>, id: &str, Ghost(ids): Ghost<Seq<Seq<char>>>) -> (index:
    Option<usize>)
    requires
        is_lookup_table(table@, ids),
    ensures
        match index {
            Some(i) => i as int == last_index_of(ids, id@) && 0 <= i < ids.len(),
            None => !ids.contains(id@),
        },
{
    proof {
        lemma_id_order_total();
    }
    let ghost keys = table_keys(table@);
    let pos = locate(table, id);
    let found = pos < table.len() && id_less_eq(table[pos].0.as_str(), id);
    if found {
        assert(keys[pos as int] == table@[pos as int].0@);
        assert(id_order()(keys[pos as int], id@));
        assert(id_order()(id@, keys[pos as int]));
        assert(keys[pos as int] == id@);
        assert(table@[pos as int] == table@[pos as int]);
        Some(table[pos].1)
    } else {
        assert(!ids.contains(id@)) by {
            if ids.contains(id@) {
                let v = choose|v: int| 0 <= v < ids.len() && ids[v] == id@;
                assert(keys.contains(ids[v]));
                let j = choose|j: int| 0 <= j < keys.len() && keys[j] == id@;
                assert(id_order()(id@, keys[j]));
                assert(keys[pos as int] == table@[pos as int].0@);
                if j > pos {
                    assert(id_order()(keys[pos as int], keys[j]));
                }
                assert(id_order()(id@, keys[pos as int]));
            }
        }
        None
    }
}

/// Replacing the entry of id `x` records its newest occurrence.
proof fn lemma_table_set(
    table: Seq<(String, usize)>,
    ids: Seq<Seq<char>>,
    pos: int,
    entry: (String, usize),
)
    requires
        is_lookup_table(table, ids),
        0 <= pos < table.len(),
        table_keys(table)[pos] == entry.0@,
        entry.1 as int == ids.len(),
    ensures
        is_lookup_table(table.update(pos, entry), ids.push(entry.0@)),
{
    let x = entry.0@;
    let t2 = table.update(pos, entry);
    let ids2 = ids.push(x);
    assert(table_keys(t2) =~= table_keys(table));
    assert forall|i: int| 0 <= i < t2.len() implies 0 <= (#[trigger] t2[i]).1 < ids2.len()
        && t2[i].1 as int == last_index_of(ids2, t2[i].0@) by {
        lemma_last_index_of_push(ids, x, t2[i].0@);
        if i != pos {
            assert(table_keys(table)[i] == table[i].0@);
            assert(table_keys(table)[i] != table_keys(table)[pos] || i == pos);
            if i < pos {
                assert(table_keys(table)[i] != table_keys(table)[pos]);
            } else {
                assert(table_keys(table)[pos] != table_keys(table)[i]);
            }
            assert(t2[i] == table[i]);
        }
    }
    assert forall|v: int| 0 <= v < ids2.len() implies table_keys(t2).contains(#[trigger] ids2[v]) by {
        if v < ids.len() {
            assert(ids2[v] == ids[v]);
            assert(table_keys(table).contains(ids[v]));
        } else {
            assert(table_keys(t2)[pos] == x);
        }
    }
}

/// Inserting id `x`, which the table lacks, at its place records its first occurrence.
proof fn lemma_table_insert(
    table: Seq<(String, usize)>,
    ids: Seq<Seq<char>>,
    pos: int,
    entry: (String, usize),
)
    requires
        is_lookup_table(table, ids),
        0 <= pos <= table.len(),
        forall|j: int|
            0 <= j < pos ==> id_order()(#[trigger] table_keys(table)[j], entry.0@) && table_keys(
                table,
            )[j] != entry.0@,
        forall|j: int|
            pos <= j < table.len() ==> id_order()(entry.0@, #[trigger] table_keys(table)[j])
                && table_keys(table)[j] != entry.0@,
        entry.1 as int == ids.len(),
    ensures
        is_lookup_table(table.insert(pos, entry), ids.push(entry.0@)),
{
    let x = entry.0@;
    let t2 = table.insert(pos, entry);
    let ids2 = ids.push(x);
    let keys = table_keys(table);
    let keys2 = table_keys(t2);
    table.insert_ensures(pos, entry);
    assert(keys2.len() == keys.len() + 1);
    assert forall|i: int| 0 <= i < keys2.len() implies #[trigger] keys2[i] == if i < pos {
        keys[i]
    } else if i == pos {
        x
    } else {
        keys[i - 1]
    } by {
        if i > pos {
            assert(t2[i] == table[i - 1]);
        }
    }
    assert forall|i: int, j: int| 0 <= i < j < t2.len() implies id_order()(
        #[trigger] table_keys(t2)[i],
        #[trigger] table_keys(t2)[j],
    ) && table_keys(t2)[i] != table_keys(t2)[j] by {
        assert(keys2[i] == keys2[i] && keys2[j] == keys2[j]);
        if i < pos && j > pos {
            assert(id_order()(keys[i], keys[j - 1]) && keys[i] != keys[j - 1]);
        } else if i > pos {
            assert(id_order()(keys[i - 1], keys[j - 1]) && keys[i - 1] != keys[j - 1]);
        } else if j < pos {
            assert(id_order()(keys[i], keys[j]) && keys[i] != keys[j]);
        } else if j > pos {
            assert(id_order()(x, keys[j - 1]));
        }
    }
    assert forall|i: int| 0 <= i < t2.len() implies 0 <= (#[trigger] t2[i]).1 < ids2.len()
        && t2[i].1 as int == last_index_of(ids2, t2[i].0@) by {
        lemma_last_index_of_push(ids, x, t2[i].0@);
        if i < pos {
            assert(t2[i] == table[i]);
            assert(keys[i] == table[i].0@);
        } else if i > pos {
            assert(t2[i] == table[i - 1]);
            assert(keys[i - 1] == table[i - 1].0@);
        }
    }
    assert forall|v: int| 0 <= v < ids2.len() implies keys2.contains(#[trigger] ids2[v]) by {
        if v < ids.len() {
            assert(ids2[v] == ids[v]);
            assert(keys.contains(ids[v]));
            let j = choose|j: int| 0 <= j < keys.len() && keys[j] == ids[v];
            if j < pos {
                assert(keys2[j] == keys[j]);
            } else {
                assert(keys2[j + 1] == keys[j]);
            }
        } else {
            assert(keys2[pos] == x);
        }
    }
}

/// The lookup table of the ids of `nodes`.
pub fn build_lookup(nodes: &Vec<Node>) -> (table: Vec<(String, usize)>)
    ensures
        is_lookup_table(table@, node_ids(nodes@)),
{
    proof {
        lemma_id_order_total();
    }
    let ghost ids = node_ids(nodes@);
    let mut table: Vec<(String, usize)> = Vec::new();
    let n = nodes.len();
    for i in 0..n
        invariant
            n == nodes@.len(),
            ids == node_ids(nodes@),
            total_ordering(id_order()),
            is_lookup_table(table@, ids.take(i as int)),
    {
        let id = nodes[i].id.as_str();
        let pos = locate(&table, id);
        let entry = (nodes[i].id.clone(), i);
        let ghost keys = table_keys(table@);
        proof {
            assert(ids.take(i + 1) =~= ids.take(i as int).push(id@));
            assert(ids[i as int] == id@);
        }
        let found = pos < table.len() && id_less_eq(table[pos].0.as_str(), id);
        if found {
            proof {
                assert(keys[pos as int] == table@[pos as int].0@);
                assert(id_order()(keys[pos as int], id@));
                assert(id_order()(id@, keys[pos as int]));
                assert(keys[pos as int] == id@);
                assert(entry.0@ == id@);
                lemma_table_set(table@, ids.take(i as int), pos as int, entry);
            }
            table.set(pos, entry);
        } else {
            proof {
                assert forall|j: int| pos <= j < table@.len() implies id_order()(
                    id@,
                    #[trigger] table_keys(table@)[j],
                ) && table_keys(table@)[j] != id@ by {
                    assert(keys[pos as int] == table@[pos as int].0@);
                    if keys[j] == id@ {
                        if j > pos {
                            assert(id_order()(keys[pos as int], keys[j]));
                        }
                        assert(id_order()(id@, keys[pos as int]));
                    }
                }
                lemma_table_insert(table@, ids.take(i as int), pos as int, entry);
            }
            table.insert(pos, entry);
        }
    }
    proof {
        assert(ids.take(n as int) =~= ids);
    }
    table
}

} // verus!
