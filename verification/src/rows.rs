//! The order of the nodes inside each layer.
//!
//! Each layer becomes a row. A row lists the nodes of its layer ordered by
//! group name (a node outside any group counts as the empty name), so that
//! the members of a group sit side by side; nodes with the same group name
//! keep the order of their indices. Names compare as Rust's `String` does,
//! character by character by code point. A node is set apart from the one
//! before it when that one is in a group and the two groups differ.
use vstd::prelude::*;
use crate::graph::{LayoutGraph, graph_nodes, node_at, node_count};
use crate::svg::str_eq;
use crate::text::chars_of;

verus! {

/// A node's place in a row.
pub struct RowSlot {
    /// The node's index in the layout graph.
    pub node: usize,
    /// Whether the layout leaves extra room between this node and the one
    /// before it.
    pub gap_before: bool,
}

/// `a` comes before `b` in code point order.
pub open spec fn key_lt(a: Seq<char>, b: Seq<char>) -> bool
    decreases a.len(),
{
    if a.len() == 0 {
        b.len() > 0
    } else if b.len() == 0 {
        false
    } else if a[0] != b[0] {
        (a[0] as int) < (b[0] as int)
    } else {
        key_lt(a.drop_first(), b.drop_first())
    }
}

/// The name that orders a node inside its layer.
pub open spec fn group_key(group: Option<Seq<char>>) -> Seq<char> {
    match group {
        Some(g) => g,
        None => Seq::empty(),
    }
}

/// Node `a` comes before node `b` in a row whose nodes have names `keys`.
pub open spec fn slot_before(keys: Seq<Seq<char>>, a: int, b: int) -> bool {
    key_lt(keys[a], keys[b]) || (keys[a] == keys[b] && a < b)
}

/// `row` lists exactly the nodes of layer `l`, in row order.
pub open spec fn row_ok(keys: Seq<Seq<char>>, layers: Seq<usize>, l: int, row: Seq<usize>) -> bool {
    &&& forall|i: int| 0 <= i < row.len() ==> (#[trigger] row[i]) < layers.len() && layers[row[i] as int] == l
    &&& forall|v: int| 0 <= v < layers.len() && layers[v] == l ==> #[trigger] row.contains(v as usize)
    &&& forall|i: int, j: int| 0 <= i < j < row.len() ==> slot_before(keys, #[trigger] row[i] as int, #[trigger] row[j] as int)
}

/// Whether a node in group `cur` is set apart from one in group `prev` before it.
pub open spec fn gap_between(prev: Option<Seq<char>>, cur: Option<Seq<char>>) -> bool {
    prev is Some && prev != cur
}

/// The group names of the nodes of a graph.
pub open spec fn groups_of(g: LayoutGraph) -> Seq<Option<Seq<char>>> {
    graph_nodes(g).map_values(|n: crate::graph::LayoutNode| crate::graph::opt_view(n.group))
}

/// The layers of the nodes of a graph.
pub open spec fn node_layers(g: LayoutGraph) -> Seq<usize> {
    graph_nodes(g).map_values(|n: crate::graph::LayoutNode| n.layer)
}

/// The nodes of a row, in order.
pub open spec fn slot_nodes(row: Seq<RowSlot>) -> Seq<usize> {
    row.map_values(|s: RowSlot| s.node)
}

// ── Order of names ───────────────────────────────────────────────────────────

proof fn lemma_key_lt_irrefl(a: Seq<char>)
    ensures
        !key_lt(a, a),
    decreases a.len(),
{
    if a.len() > 0 {
        lemma_key_lt_irrefl(a.drop_first());
    }
}

proof fn lemma_key_lt_total(a: Seq<char>, b: Seq<char>)
    ensures
        a == b || key_lt(a, b) || key_lt(b, a),
        !(key_lt(a, b) && key_lt(b, a)),
    decreases a.len(),
{
    if a.len() > 0 && b.len() > 0 && a[0] == b[0] {
        lemma_key_lt_total(a.drop_first(), b.drop_first());
        if a.drop_first() == b.drop_first() {
            assert(a =~= seq![a[0]] + a.drop_first());
            assert(b =~= seq![b[0]] + b.drop_first());
        }
    } else if a.len() == 0 && b.len() == 0 {
        assert(a =~= b);
    } else if a.len() > 0 && b.len() > 0 {
        assert((a[0] as int) != (b[0] as int));
    }
}

proof fn lemma_key_lt_trans(a: Seq<char>, b: Seq<char>, c: Seq<char>)
    requires
        key_lt(a, b),
        key_lt(b, c),
    ensures
        key_lt(a, c),
    decreases a.len(),
{
    if a.len() > 0 && b.len() > 0 && c.len() > 0 && a[0] == b[0] && b[0] == c[0] {
        lemma_key_lt_trans(a.drop_first(), b.drop_first(), c.drop_first());
    }
}

/// In a row, the nodes of one group sit side by side: any node between two
/// nodes with the same group name has that name too.
pub proof fn law_groups_side_by_side(keys: Seq<Seq<char>>, layers: Seq<usize>, l: int, row: Seq<usize>, i: int, k: int, j: int)
    requires
        row_ok(keys, layers, l, row),
        0 <= i < k < j < row.len(),
        keys[row[i] as int] == keys[row[j] as int],
    ensures
        keys[row[k] as int] == keys[row[i] as int],
{
    let a = keys[row[i] as int];
    let b = keys[row[k] as int];
    assert(slot_before(keys, row[i] as int, row[k] as int));
    assert(slot_before(keys, row[k] as int, row[j] as int));
    if b != a {
        assert(key_lt(a, b));
        assert(key_lt(b, a));
        lemma_key_lt_total(a, b);
    }
}

/// Compares two names in code point order.
fn key_less(a: &Vec<char>, b: &Vec<char>) -> (r: bool)
    ensures
        r == key_lt(a@, b@),
{
    let mut i: usize = 0;
    proof {
        assert(a@.skip(0) =~= a@);
        assert(b@.skip(0) =~= b@);
    }
    while i < a.len() && i < b.len()
        invariant
            i <= a@.len(),
            i <= b@.len(),
            key_lt(a@, b@) == key_lt(a@.skip(i as int), b@.skip(i as int)),
        decreases a@.len() - i,
    {
        let x = a[i];
        let y = b[i];
        proof {
            assert(a@.skip(i as int)[0] == x);
            assert(b@.skip(i as int)[0] == y);
            assert(a@.skip(i as int).drop_first() =~= a@.skip(i + 1));
            assert(b@.skip(i as int).drop_first() =~= b@.skip(i + 1));
        }
        if x != y {
            return x < y;
        }
        i = i + 1;
    }
    i < b.len()
}

// ── Rows ─────────────────────────────────────────────────────────────────────

/// Where node `v` goes in `row`: before the first node whose name is greater.
fn insert_point(keys: &Vec<Vec<char>>, row: &Vec<usize>, v: usize) -> (p: usize)
    requires
        v < keys@.len(),
        forall|i: int| 0 <= i < row@.len() ==> (#[trigger] row@[i]) < keys@.len(),
    ensures
        p <= row@.len(),
        forall|i: int| 0 <= i < p ==> !key_lt(keys@[v as int]@, keys@[#[trigger] row@[i] as int]@),
        p < row@.len() ==> key_lt(keys@[v as int]@, keys@[row@[p as int] as int]@),
{
    let mut p: usize = 0;
    while p < row.len()
        invariant
            p <= row@.len(),
            v < keys@.len(),
            forall|i: int| 0 <= i < row@.len() ==> (#[trigger] row@[i]) < keys@.len(),
            forall|i: int| 0 <= i < p ==> !key_lt(keys@[v as int]@, keys@[#[trigger] row@[i] as int]@),
        decreases row@.len() - p,
    {
        if key_less(&keys[v], &keys[row[p]]) {
            return p;
        }
        p = p + 1;
    }
    p
}

/// Names as texts.
pub open spec fn keys_view(keys: Seq<Vec<char>>) -> Seq<Seq<char>> {
    keys.map_values(|k: Vec<char>| k@)
}

/// The nodes of layer `l`, in row order.
fn build_row(keys: &Vec<Vec<char>>, layers: &Vec<usize>, l: usize) -> (row: Vec<usize>)
    requires
        keys@.len() == layers@.len(),
    ensures
        row_ok(keys_view(keys@), layers@, l as int, row@),
{
    let ghost kv = keys_view(keys@);
    let n = layers.len();
    let mut row: Vec<usize> = Vec::new();
    for v in 0..n
        invariant
            n == layers@.len() == keys@.len(),
            kv == keys_view(keys@),
            forall|i: int| 0 <= i < row@.len() ==> (#[trigger] row@[i]) < v && layers@[row@[i] as int] == l,
            forall|w: int| 0 <= w < v && layers@[w] == l ==> #[trigger] row@.contains(w as usize),
            forall|i: int, j: int| 0 <= i < j < row@.len() ==> slot_before(kv, #[trigger] row@[i] as int, #[trigger] row@[j] as int),
    {
        if layers[v] == l {
            let p = insert_point(keys, &row, v);
            let ghost old_row = row@;
            row.insert(p, v);
            proof {
                assert(row@ =~= old_row.insert(p as int, v));
                assert forall|i: int| 0 <= i < p implies slot_before(kv, #[trigger] old_row[i] as int, v as int) by {
                    lemma_key_lt_total(kv[old_row[i] as int], kv[v as int]);
                    assert(kv[v as int] == keys@[v as int]@);
                    assert(kv[old_row[i] as int] == keys@[old_row[i] as int]@);
                }
                assert forall|i: int| p <= i < old_row.len() implies slot_before(kv, v as int, #[trigger] old_row[i] as int) by {
                    let q = old_row[p as int] as int;
                    assert(kv[v as int] == keys@[v as int]@);
                    assert(kv[q] == keys@[q]@);
                    assert(key_lt(kv[v as int], kv[q]));
                    if i > p {
                        assert(slot_before(kv, q, old_row[i] as int));
                        if key_lt(kv[q], kv[old_row[i] as int]) {
                            lemma_key_lt_trans(kv[v as int], kv[q], kv[old_row[i] as int]);
                        }
                    }
                }
                assert forall|i: int, j: int| 0 <= i < j < row@.len() implies slot_before(kv, #[trigger] row@[i] as int, #[trigger] row@[j] as int) by {
                    if j < p {
                        assert(row@[i] == old_row[i] && row@[j] == old_row[j]);
                    } else if j == p {
                        assert(row@[i] == old_row[i]);
                    } else if i < p {
                        assert(row@[i] == old_row[i] && row@[j] == old_row[j - 1]);
                        assert(slot_before(kv, old_row[i] as int, v as int));
                        assert(slot_before(kv, v as int, old_row[j - 1] as int));
                        lemma_key_lt_total(kv[old_row[i] as int], kv[v as int]);
                        if key_lt(kv[old_row[i] as int], kv[v as int]) && key_lt(kv[v as int], kv[old_row[j - 1] as int]) {
                            lemma_key_lt_trans(kv[old_row[i] as int], kv[v as int], kv[old_row[j - 1] as int]);
                        }
                        assert(slot_before(kv, old_row[i] as int, old_row[j - 1] as int));
                    } else if i == p {
                        assert(row@[j] == old_row[j - 1]);
                    } else {
                        assert(row@[i] == old_row[i - 1] && row@[j] == old_row[j - 1]);
                    }
                }
                assert forall|w: int| 0 <= w < v + 1 && layers@[w] == l implies #[trigger] row@.contains(w as usize) by {
                    if w < v {
                        assert(old_row.contains(w as usize));
                        let k = choose|k: int| 0 <= k < old_row.len() && old_row[k] == w as usize;
                        if k < p {
                            assert(row@[k] == w as usize);
                        } else {
                            assert(row@[k + 1] == w as usize);
                        }
                    } else {
                        assert(row@[p as int] == v);
                    }
                }
            }
        } else {
            proof {
                assert forall|w: int| 0 <= w < v + 1 && layers@[w] == l implies #[trigger] row@.contains(w as usize) by {
                }
            }
        }
    }
    row
}

/// The group of every node and its name for ordering.
fn group_names(g: &LayoutGraph) -> (r: (Vec<Option<String>>, Vec<Vec<char>>))
    ensures
        r.0@.len() == graph_nodes(*g).len(),
        r.1@.len() == graph_nodes(*g).len(),
        forall|v: int| 0 <= v < r.0@.len() ==> crate::graph::opt_view(#[trigger] r.0@[v]) == groups_of(*g)[v],
        forall|v: int| 0 <= v < r.1@.len() ==> (#[trigger] r.1@[v])@ == group_key(groups_of(*g)[v]),
{
    let n = node_count(g);
    let mut groups: Vec<Option<String>> = Vec::new();
    let mut keys: Vec<Vec<char>> = Vec::new();
    for v in 0..n
        invariant
            n == graph_nodes(*g).len(),
            groups@.len() == v,
            keys@.len() == v,
            forall|w: int| 0 <= w < v ==> crate::graph::opt_view(#[trigger] groups@[w]) == groups_of(*g)[w],
            forall|w: int| 0 <= w < v ==> (#[trigger] keys@[w])@ == group_key(groups_of(*g)[w]),
    {
        let node = node_at(g, v);
        match &node.group {
            Some(s) => {
                let k = chars_of(s.as_str());
                groups.push(Some(s.clone()));
                keys.push(k);
            },
            None => {
                groups.push(None);
                keys.push(Vec::new());
            },
        }
        proof {
            assert(groups_of(*g)[v as int] == crate::graph::opt_view(graph_nodes(*g)[v as int].group));
        }
    }
    (groups, keys)
}

/// Whether the layout sets a node in group `cur` apart from one in group
/// `prev` before it.
fn gap(prev: &Option<String>, cur: &Option<String>) -> (r: bool)
    ensures
        r == gap_between(crate::graph::opt_view(*prev), crate::graph::opt_view(*cur)),
{
    match (prev, cur) {
        (Some(a), Some(b)) => !str_eq(a.as_str(), b.as_str()),
        (Some(_), None) => true,
        (None, _) => false,
    }
}

/// The rows of the layout: row `l` holds the nodes of layer `l` in row order,
/// with the gaps between groups marked.
pub fn layer_rows(g: &LayoutGraph, extra: usize) -> (rows: Vec<Vec<RowSlot>>)
    requires
        forall|v: int| 0 <= v < graph_nodes(*g).len() ==> #[trigger] graph_nodes(*g)[v].layer <= extra,
    ensures
        rows@.len() == extra + 1,
        forall|l: int|
            0 <= l < rows@.len() ==> row_ok(
                groups_of(*g).map_values(|o: Option<Seq<char>>| group_key(o)),
                node_layers(*g),
                l,
                slot_nodes(#[trigger] rows@[l]@),
            ),
        forall|l: int, i: int|
            0 <= l < rows@.len() && 0 <= i < rows@[l]@.len() ==> (#[trigger] rows@[l]@[i]).gap_before == (i > 0
                && gap_between(groups_of(*g)[rows@[l]@[i - 1].node as int], groups_of(*g)[rows@[l]@[i].node as int])),
{
    let n = node_count(g);
    let (groups, keys) = group_names(g);
    let ghost kv = groups_of(*g).map_values(|o: Option<Seq<char>>| group_key(o));
    proof {
        assert(keys_view(keys@) =~= kv);
    }
    let mut layers: Vec<usize> = Vec::new();
    for v in 0..n
        invariant
            n == graph_nodes(*g).len(),
            layers@ == node_layers(*g).take(v as int),
    {
        layers.push(node_at(g, v).layer);
        proof {
            assert(layers@ =~= node_layers(*g).take(v + 1));
        }
    }
    proof {
        assert(layers@ =~= node_layers(*g));
    }
    let mut rows: Vec<Vec<RowSlot>> = Vec::new();
    let mut l: usize = 0;
    loop
        invariant_except_break
            rows@.len() == l,
        invariant
            l <= extra,
            n == graph_nodes(*g).len(),
            layers@ == node_layers(*g),
            keys@.len() == n,
            groups@.len() == n,
            keys_view(keys@) == kv,
            forall|v: int| 0 <= v < n ==> crate::graph::opt_view(#[trigger] groups@[v]) == groups_of(*g)[v],
            forall|k: int| 0 <= k < rows@.len() ==> row_ok(kv, node_layers(*g), k, slot_nodes(#[trigger] rows@[k]@)),
            forall|k: int, i: int|
                0 <= k < rows@.len() && 0 <= i < rows@[k]@.len() ==> (#[trigger] rows@[k]@[i]).gap_before == (i > 0
                    && gap_between(groups_of(*g)[rows@[k]@[i - 1].node as int], groups_of(*g)[rows@[k]@[i].node as int])),
        ensures
            rows@.len() == extra + 1,
            forall|k: int| 0 <= k < rows@.len() ==> row_ok(kv, node_layers(*g), k, slot_nodes(#[trigger] rows@[k]@)),
            forall|k: int, i: int|
                0 <= k < rows@.len() && 0 <= i < rows@[k]@.len() ==> (#[trigger] rows@[k]@[i]).gap_before == (i > 0
                    && gap_between(groups_of(*g)[rows@[k]@[i - 1].node as int], groups_of(*g)[rows@[k]@[i].node as int])),
        decreases extra - l,
    {
        let order = build_row(&keys, &layers, l);
        let mut row: Vec<RowSlot> = Vec::new();
        for i in 0..order.len()
            invariant
                n == layers@.len(),
                groups@.len() == n,
                row_ok(kv, layers@, l as int, order@),
                row@.len() == i,
                forall|j: int| 0 <= j < i ==> (#[trigger] row@[j]).node == order@[j],
                forall|j: int|
                    0 <= j < i ==> (#[trigger] row@[j]).gap_before == (j > 0 && gap_between(
                        crate::graph::opt_view(groups@[order@[j - 1] as int]),
                        crate::graph::opt_view(groups@[order@[j] as int]),
                    )),
        {
            let v = order[i];
            let gap_before = if i == 0 {
                false
            } else {
                gap(&groups[order[i - 1]], &groups[v])
            };
            row.push(RowSlot { node: v, gap_before });
        }
        proof {
            assert(slot_nodes(row@) =~= order@);
        }
        rows.push(row);
        assert(rows@.len() == l + 1);
        if l == extra {
            break;
        }
        l = l + 1;
    }
    rows
}

} // verus!
