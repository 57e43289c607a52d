//! Layer assignment for the layered (Sugiyama-style) layout.
//!
//! Nodes are put in layers by longest path from the sources: a node all of
//! whose predecessors are settled is settled itself, one layer below the
//! lowest of them. A node on or behind a cycle never settles, since some of
//! its incoming edges are never followed; every such node goes into an extra
//! layer at the bottom, one below the lowest layer that any followed edge
//! leads to.
use vstd::prelude::*;
use crate::rows::{RowSlot, gap_between, group_key, groups_of, layer_rows, node_layers, row_ok, slot_nodes};
use crate::graph::{
    LayoutGraph, NodeV, clone_layout_node, edge_count, edge_endpoints, edges_in_range,
    graph_edges, graph_nodes, index_limit, node_at, node_count, node_view, set_node,
};

verus! {

/// The larger of two optional numbers.
pub open spec fn omax(a: Option<nat>, b: Option<nat>) -> Option<nat> {
    match (a, b) {
        (Some(x), Some(y)) => Some(if x >= y { x } else { y }),
        (Some(x), None) => Some(x),
        (None, y) => y,
    }
}

/// Edge `e` has been followed: its source is settled, or it is the source `u`
/// being worked on and `e` comes before `cur`.
pub open spec fn edge_done(es: Seq<(usize, usize)>, dn: Seq<bool>, u: int, cur: int, e: int) -> bool {
    dn[es[e].0 as int] || (es[e].0 == u && e < cur)
}

/// The largest `layer(source) + 1` over the followed edges among the first
/// `k` that end in `v`.
pub open spec fn done_max(
    es: Seq<(usize, usize)>,
    dn: Seq<bool>,
    u: int,
    cur: int,
    layers: Seq<usize>,
    v: int,
    k: int,
) -> Option<nat>
    decreases k,
{
    if k <= 0 {
        None
    } else {
        let r = done_max(es, dn, u, cur, layers, v, k - 1);
        if es[k - 1].1 == v && edge_done(es, dn, u, cur, k - 1) {
            omax(r, Some((layers[es[k - 1].0 as int] + 1) as nat))
        } else {
            r
        }
    }
}

/// The largest `layer(source) + 1` over all followed edges among the first `k`.
pub open spec fn all_max(es: Seq<(usize, usize)>, dn: Seq<bool>, u: int, cur: int, layers: Seq<usize>, k: int) -> Option<nat>
    decreases k,
{
    if k <= 0 {
        None
    } else {
        let r = all_max(es, dn, u, cur, layers, k - 1);
        if edge_done(es, dn, u, cur, k - 1) {
            omax(r, Some((layers[es[k - 1].0 as int] + 1) as nat))
        } else {
            r
        }
    }
}

/// How many edges among the first `k` end in `v` and have not been followed.
pub open spec fn undone_count(es: Seq<(usize, usize)>, dn: Seq<bool>, u: int, cur: int, v: int, k: int) -> nat
    decreases k,
{
    if k <= 0 {
        0
    } else {
        undone_count(es, dn, u, cur, v, k - 1) + if es[k - 1].1 == v && !edge_done(es, dn, u, cur, k - 1) {
            1nat
        } else {
            0nat
        }
    }
}

/// How many edges among the first `k` end in `v`.
pub open spec fn in_total(es: Seq<(usize, usize)>, v: int, k: int) -> nat
    decreases k,
{
    if k <= 0 {
        0
    } else {
        in_total(es, v, k - 1) + if es[k - 1].1 == v {
            1nat
        } else {
            0nat
        }
    }
}

/// The largest `layer(p) + 1` over the settled predecessors `p` of `v`.
pub open spec fn pred_max(es: Seq<(usize, usize)>, settled: Seq<bool>, layers: Seq<usize>, v: int) -> Option<nat> {
    done_max(es, settled, -1, 0, layers, v, es.len() as int)
}

/// The largest `layer(p) + 1` over the settled nodes `p` that have a successor.
pub open spec fn settled_max(es: Seq<(usize, usize)>, settled: Seq<bool>, layers: Seq<usize>) -> Option<nat> {
    all_max(es, settled, -1, 0, layers, es.len() as int)
}

/// `layers` puts the nodes of a graph with edges `es` in layers as the
/// module describes, with `settled` telling which nodes settle and `extra`
/// the index of the extra layer.
pub open spec fn is_layering(es: Seq<(usize, usize)>, settled: Seq<bool>, layers: Seq<usize>, extra: nat) -> bool {
    &&& settled.len() == layers.len()
    &&& forall|e: int| 0 <= e < es.len() ==> (#[trigger] es[e]).0 < layers.len() && es[e].1 < layers.len()
    &&& forall|v: int|
        0 <= v < layers.len() && #[trigger] settled[v] ==> (forall|e: int|
            0 <= e < es.len() && (#[trigger] es[e]).1 == v ==> settled[es[e].0 as int]) && layers[v]
            == match pred_max(es, settled, layers, v) {
            Some(m) => m,
            None => 0,
        }
    &&& forall|v: int|
        0 <= v < layers.len() && !#[trigger] settled[v] ==> (exists|e: int|
            0 <= e < es.len() && (#[trigger] es[e]).1 == v && !settled[es[e].0 as int]) && layers[v] == extra
    &&& extra == match settled_max(es, settled, layers) {
        Some(m) => m + 1,
        None => 1,
    }
}

/// The endpoints of a graph's edges.
pub open spec fn endpoints(g: LayoutGraph) -> Seq<(usize, usize)> {
    graph_edges(g).map_values(|t: (usize, usize, crate::graph::LayoutEdge)| (t.0, t.1))
}

/// The layer of each node of a graph.
pub open spec fn layers_of(g: LayoutGraph) -> Seq<usize> {
    graph_nodes(g).map_values(|n: crate::graph::LayoutNode| n.layer)
}

/// How many entries are `true`.
pub open spec fn count_true(s: Seq<bool>) -> nat
    decreases s.len(),
{
    if s.len() == 0 {
        0
    } else {
        count_true(s.drop_last()) + if s.last() {
            1nat
        } else {
            0nat
        }
    }
}

// ── Lemmas ───────────────────────────────────────────────────────────────────

proof fn lemma_count_true_update(s: Seq<bool>, i: int)
    requires
        0 <= i < s.len(),
        !s[i],
    ensures
        count_true(s.update(i, true)) == count_true(s) + 1,
    decreases s.len(),
{
    let t = s.update(i, true);
    if i < s.len() - 1 {
        assert(t.drop_last() =~= s.drop_last().update(i, true));
        lemma_count_true_update(s.drop_last(), i);
    } else {
        assert(t.drop_last() =~= s.drop_last());
    }
}

proof fn lemma_count_true_le(s: Seq<bool>)
    ensures
        count_true(s) <= s.len(),
    decreases s.len(),
{
    if s.len() > 0 {
        lemma_count_true_le(s.drop_last());
    }
}

/// Following edge `cur`, which leaves `u`: the counts and maxima change only
/// by that edge.
proof fn lemma_follow(
    es: Seq<(usize, usize)>,
    dn: Seq<bool>,
    u: int,
    cur: int,
    layers: Seq<usize>,
    v: int,
    k: int,
)
    requires
        0 <= cur < es.len(),
        es[cur].0 == u,
        0 <= u < dn.len(),
        !dn[u],
        k <= es.len(),
        forall|e: int| 0 <= e < es.len() ==> (#[trigger] es[e]).0 < dn.len() && es[e].0 < layers.len(),
    ensures
        done_max(es, dn, u, cur + 1, layers, v, k) == if k > cur && es[cur].1 == v {
            omax(done_max(es, dn, u, cur, layers, v, k), Some((layers[u] + 1) as nat))
        } else {
            done_max(es, dn, u, cur, layers, v, k)
        },
        all_max(es, dn, u, cur + 1, layers, k) == if k > cur {
            omax(all_max(es, dn, u, cur, layers, k), Some((layers[u] + 1) as nat))
        } else {
            all_max(es, dn, u, cur, layers, k)
        },
        undone_count(es, dn, u, cur + 1, v, k) + (if k > cur && es[cur].1 == v {
            1nat
        } else {
            0nat
        }) == undone_count(es, dn, u, cur, v, k),
    decreases k,
{
    if k > 0 {
        lemma_follow(es, dn, u, cur, layers, v, k - 1);
        let e = k - 1;
        assert(es[e].0 < dn.len());
        if e != cur {
            assert(edge_done(es, dn, u, cur + 1, e) == edge_done(es, dn, u, cur, e));
        } else {
            assert(edge_done(es, dn, u, cur + 1, e));
            assert(!edge_done(es, dn, u, cur, e));
        }
    }
}

/// The maxima only read the layers of sources of followed edges.
proof fn lemma_frame(
    es: Seq<(usize, usize)>,
    dn: Seq<bool>,
    u: int,
    cur: int,
    layers: Seq<usize>,
    t: int,
    x: usize,
    v: int,
    k: int,
)
    requires
        0 <= t < layers.len(),
        !dn[t],
        t != u,
        k <= es.len(),
        forall|e: int| 0 <= e < es.len() ==> (#[trigger] es[e]).0 < dn.len() && es[e].0 < layers.len(),
    ensures
        done_max(es, dn, u, cur, layers.update(t, x), v, k) == done_max(es, dn, u, cur, layers, v, k),
        all_max(es, dn, u, cur, layers.update(t, x), k) == all_max(es, dn, u, cur, layers, k),
    decreases k,
{
    if k > 0 {
        lemma_frame(es, dn, u, cur, layers, t, x, v, k - 1);
        let e = k - 1;
        if edge_done(es, dn, u, cur, e) {
            assert(es[e].0 != t);
        }
    }
}

/// Two states that have followed the same edges agree on all counts and maxima.
proof fn lemma_same_done(
    es: Seq<(usize, usize)>,
    dn1: Seq<bool>,
    u1: int,
    c1: int,
    dn2: Seq<bool>,
    u2: int,
    c2: int,
    layers: Seq<usize>,
    v: int,
    k: int,
)
    requires
        k <= es.len(),
        forall|e: int| 0 <= e < k ==> edge_done(es, dn1, u1, c1, e) == edge_done(es, dn2, u2, c2, e),
    ensures
        done_max(es, dn1, u1, c1, layers, v, k) == done_max(es, dn2, u2, c2, layers, v, k),
        all_max(es, dn1, u1, c1, layers, k) == all_max(es, dn2, u2, c2, layers, k),
        undone_count(es, dn1, u1, c1, v, k) == undone_count(es, dn2, u2, c2, v, k),
    decreases k,
{
    if k > 0 {
        lemma_same_done(es, dn1, u1, c1, dn2, u2, c2, layers, v, k - 1);
    }
}

/// A positive count has an unfollowed edge behind it; an unfollowed edge
/// makes the count positive.
proof fn lemma_undone_witness(es: Seq<(usize, usize)>, dn: Seq<bool>, u: int, cur: int, v: int, k: int)
    requires
        0 <= k <= es.len(),
    ensures
        undone_count(es, dn, u, cur, v, k) > 0 <==> exists|e: int|
            0 <= e < k && (#[trigger] es[e]).1 == v && !edge_done(es, dn, u, cur, e),
        undone_count(es, dn, u, cur, v, k) <= k,
    decreases k,
{
    if k > 0 {
        lemma_undone_witness(es, dn, u, cur, v, k - 1);
        if exists|e: int| 0 <= e < k && (#[trigger] es[e]).1 == v && !edge_done(es, dn, u, cur, e) {
            let e = choose|e: int| 0 <= e < k && (#[trigger] es[e]).1 == v && !edge_done(es, dn, u, cur, e);
            if e < k - 1 {
                assert(exists|e2: int| 0 <= e2 < k - 1 && (#[trigger] es[e2]).1 == v && !edge_done(es, dn, u, cur, e2));
            }
        }
        if undone_count(es, dn, u, cur, v, k - 1) > 0 {
            let e = choose|e: int| 0 <= e < k - 1 && (#[trigger] es[e]).1 == v && !edge_done(es, dn, u, cur, e);
            assert(0 <= e < k);
        }
    }
}

/// With nothing followed, every edge into `v` counts.
proof fn lemma_nothing_done(es: Seq<(usize, usize)>, dn: Seq<bool>, layers: Seq<usize>, v: int, k: int)
    requires
        k <= es.len(),
        forall|e: int| 0 <= e < es.len() ==> (#[trigger] es[e]).0 < dn.len(),
        forall|i: int| 0 <= i < dn.len() ==> !dn[i],
    ensures
        undone_count(es, dn, -1, 0, v, k) == in_total(es, v, k),
        done_max(es, dn, -1, 0, layers, v, k) == None::<nat>,
        all_max(es, dn, -1, 0, layers, k) == None::<nat>,
    decreases k,
{
    if k > 0 {
        lemma_nothing_done(es, dn, layers, v, k - 1);
        assert(es[k - 1].0 < dn.len());
    }
}

/// An edge into `v` with a settled source makes the maximum exist and
/// reach past that source's layer.
proof fn lemma_done_max_some(es: Seq<(usize, usize)>, dn: Seq<bool>, u: int, cur: int, layers: Seq<usize>, v: int, k: int)
    requires
        k <= es.len(),
        exists|e: int| 0 <= e < k && (#[trigger] es[e]).1 == v && edge_done(es, dn, u, cur, e),
    ensures
        done_max(es, dn, u, cur, layers, v, k) is Some,
    decreases k,
{
    if k > 0 {
        if exists|e: int| 0 <= e < k - 1 && (#[trigger] es[e]).1 == v && edge_done(es, dn, u, cur, e) {
            lemma_done_max_some(es, dn, u, cur, layers, v, k - 1);
        }
    }
}

proof fn lemma_max_bound(es: Seq<(usize, usize)>, dn: Seq<bool>, u: int, cur: int, layers: Seq<usize>, v: int, k: int, b: nat)
    requires
        k <= es.len(),
        forall|e: int| 0 <= e < k && edge_done(es, dn, u, cur, e) ==> layers[(#[trigger] es[e]).0 as int] + 1 <= b,
    ensures
        done_max(es, dn, u, cur, layers, v, k) matches Some(m) ==> m <= b,
        all_max(es, dn, u, cur, layers, k) matches Some(m) ==> m <= b,
    decreases k,
{
    if k > 0 {
        lemma_max_bound(es, dn, u, cur, layers, v, k - 1, b);
    }
}

proof fn lemma_in_total(es: Seq<(usize, usize)>, dn: Seq<bool>, u: int, cur: int, layers: Seq<usize>, v: int, k: int)
    requires
        0 <= k <= es.len(),
    ensures
        undone_count(es, dn, u, cur, v, k) <= in_total(es, v, k),
        in_total(es, v, k) > 0 <==> exists|e: int| 0 <= e < k && (#[trigger] es[e]).1 == v,
        undone_count(es, dn, u, cur, v, k) == 0 && in_total(es, v, k) > 0 ==> done_max(
            es,
            dn,
            u,
            cur,
            layers,
            v,
            k,
        ) is Some,
        undone_count(es, dn, u, cur, v, k) == 0 ==> forall|e: int|
            0 <= e < k && (#[trigger] es[e]).1 == v ==> edge_done(es, dn, u, cur, e),
    decreases k,
{
    if k > 0 {
        lemma_in_total(es, dn, u, cur, layers, v, k - 1);
        if exists|e: int| 0 <= e < k && (#[trigger] es[e]).1 == v {
            let e = choose|e: int| 0 <= e < k && (#[trigger] es[e]).1 == v;
            if e < k - 1 {
                assert(exists|e2: int| 0 <= e2 < k - 1 && (#[trigger] es[e2]).1 == v);
            }
        }
        if in_total(es, v, k - 1) > 0 {
            let e = choose|e: int| 0 <= e < k - 1 && (#[trigger] es[e]).1 == v;
            assert(0 <= e < k);
        }
        if undone_count(es, dn, u, cur, v, k) == 0 && in_total(es, v, k) > 0 {
            let e = choose|e: int| 0 <= e < k && (#[trigger] es[e]).1 == v;
            lemma_undone_witness(es, dn, u, cur, v, k);
            assert(edge_done(es, dn, u, cur, e));
            lemma_done_max_some(es, dn, u, cur, layers, v, k);
        }
        if undone_count(es, dn, u, cur, v, k) == 0 {
            lemma_undone_witness(es, dn, u, cur, v, k);
        }
    }
}

/// A followed edge into `v` puts the maximum at or past its source's layer
/// plus one.
proof fn lemma_done_max_ge(
    es: Seq<(usize, usize)>,
    dn: Seq<bool>,
    u: int,
    cur: int,
    layers: Seq<usize>,
    v: int,
    k: int,
    e: int,
)
    requires
        0 <= e < k <= es.len(),
        es[e].1 == v,
        edge_done(es, dn, u, cur, e),
    ensures
        done_max(es, dn, u, cur, layers, v, k) matches Some(m) && m >= layers[es[e].0 as int] + 1,
    decreases k,
{
    if e < k - 1 {
        lemma_done_max_ge(es, dn, u, cur, layers, v, k - 1, e);
    }
}

/// The maximum over the edges into one node is at most the maximum over all
/// edges.
proof fn lemma_done_le_all(es: Seq<(usize, usize)>, dn: Seq<bool>, u: int, cur: int, layers: Seq<usize>, v: int, k: int)
    requires
        k <= es.len(),
    ensures
        done_max(es, dn, u, cur, layers, v, k) matches Some(a) ==> (all_max(es, dn, u, cur, layers, k) matches Some(
            b,
        ) && a <= b),
    decreases k,
{
    if k > 0 {
        lemma_done_le_all(es, dn, u, cur, layers, v, k - 1);
    }
}

/// Every node lies at or above the extra layer, and every settled node
/// strictly above it.
pub proof fn law_extra_is_lowest(es: Seq<(usize, usize)>, settled: Seq<bool>, layers: Seq<usize>, extra: nat)
    requires
        is_layering(es, settled, layers, extra),
    ensures
        forall|v: int| 0 <= v < layers.len() ==> #[trigger] layers[v] <= extra,
        forall|v: int| 0 <= v < layers.len() && #[trigger] settled[v] ==> layers[v] < extra,
{
    assert forall|v: int| 0 <= v < layers.len() implies #[trigger] layers[v] <= extra && (settled[v] ==> layers[v] < extra) by {
        lemma_done_le_all(es, settled, -1, 0, layers, v, es.len() as int);
        if settled[v] {
            assert(layers[v] == opt_or(pred_max(es, settled, layers, v), 0));
        } else {
            assert(layers[v] == extra);
        }
    }
}

/// Nodes without incoming edges settle in the top layer.
pub proof fn law_sources_on_top(es: Seq<(usize, usize)>, settled: Seq<bool>, layers: Seq<usize>, extra: nat, v: int)
    requires
        is_layering(es, settled, layers, extra),
        0 <= v < layers.len(),
        forall|e: int| 0 <= e < es.len() ==> (#[trigger] es[e]).1 != v,
    ensures
        settled[v],
        layers[v] == 0,
{
    if !settled[v] {
        let e = choose|e: int| 0 <= e < es.len() && (#[trigger] es[e]).1 == v && !settled[es[e].0 as int];
        assert(es[e].1 != v);
    }
    assert(pred_max(es, settled, layers, v) is None) by {
        lemma_no_edge_none(es, settled, layers, v, es.len() as int);
    }
}

proof fn lemma_no_edge_none(es: Seq<(usize, usize)>, dn: Seq<bool>, layers: Seq<usize>, v: int, k: int)
    requires
        k <= es.len(),
        forall|e: int| 0 <= e < es.len() ==> (#[trigger] es[e]).1 != v,
    ensures
        done_max(es, dn, -1, 0, layers, v, k) is None,
    decreases k,
{
    if k > 0 {
        lemma_no_edge_none(es, dn, layers, v, k - 1);
        assert(es[k - 1].1 != v);
    }
}

/// An edge out of a settled node leads at least one layer down.
pub proof fn law_edges_lead_down(es: Seq<(usize, usize)>, settled: Seq<bool>, layers: Seq<usize>, extra: nat, e: int)
    requires
        is_layering(es, settled, layers, extra),
        0 <= e < es.len(),
        settled[es[e].0 as int],
    ensures
        layers[es[e].1 as int] >= layers[es[e].0 as int] + 1,
{
    let b = es[e].1 as int;
    assert(es[e].0 < layers.len() && es[e].1 < layers.len());
    lemma_done_max_ge(es, settled, -1, 0, layers, b, es.len() as int, e);
    lemma_done_le_all(es, settled, -1, 0, layers, b, es.len() as int);
    if settled[b] {
        assert(layers[b] == opt_or(pred_max(es, settled, layers, b), 0));
    } else {
        assert(layers[b] == extra);
    }
}

/// The maxima over edges into `v` read only the layers of the settled
/// sources of those edges.
proof fn lemma_frame_into(es: Seq<(usize, usize)>, dn: Seq<bool>, l1: Seq<usize>, l2: Seq<usize>, v: int, k: int)
    requires
        0 <= k <= es.len(),
        forall|e: int|
            0 <= e < k && (#[trigger] es[e]).1 == v && dn[es[e].0 as int] ==> l1[es[e].0 as int] == l2[es[e].0 as int],
    ensures
        done_max(es, dn, -1, 0, l1, v, k) == done_max(es, dn, -1, 0, l2, v, k),
    decreases k,
{
    if k > 0 {
        lemma_frame_into(es, dn, l1, l2, v, k - 1);
    }
}

/// A node settled in one layering and put at most `n` layers down is
/// settled in any other layering of the same graph.
proof fn lemma_settled_agree(
    es: Seq<(usize, usize)>,
    s1: Seq<bool>,
    l1: Seq<usize>,
    x1: nat,
    s2: Seq<bool>,
    l2: Seq<usize>,
    x2: nat,
    n: nat,
)
    requires
        is_layering(es, s1, l1, x1),
        is_layering(es, s2, l2, x2),
        l1.len() == l2.len(),
    ensures
        forall|v: int| 0 <= v < l1.len() && #[trigger] s1[v] && l1[v] <= n ==> s2[v],
    decreases n,
{
    if n > 0 {
        lemma_settled_agree(es, s1, l1, x1, s2, l2, x2, (n - 1) as nat);
    }
    assert forall|v: int| 0 <= v < l1.len() && #[trigger] s1[v] && l1[v] <= n implies s2[v] by {
        if !s2[v] {
            let e = choose|e: int| 0 <= e < es.len() && (#[trigger] es[e]).1 == v && !s2[es[e].0 as int];
            let p = es[e].0 as int;
            assert(s1[p]);
            law_edges_lead_down(es, s1, l1, x1, e);
            assert(l1[p] < l1[v]);
            if n == 0 {
                assert(false);
            } else {
                assert(l1[p] <= n - 1);
                assert(s2[p]);
            }
        }
    }
}

/// Two layerings of one graph that settle the same nodes put every settled
/// node at most `n` layers down in the same layer.
proof fn lemma_settled_layers_agree(
    es: Seq<(usize, usize)>,
    s: Seq<bool>,
    l1: Seq<usize>,
    x1: nat,
    l2: Seq<usize>,
    x2: nat,
    n: nat,
)
    requires
        is_layering(es, s, l1, x1),
        is_layering(es, s, l2, x2),
        l1.len() == l2.len(),
    ensures
        forall|v: int| 0 <= v < l1.len() && #[trigger] s[v] && l1[v] <= n ==> l2[v] == l1[v],
    decreases n,
{
    if n > 0 {
        lemma_settled_layers_agree(es, s, l1, x1, l2, x2, (n - 1) as nat);
    }
    assert forall|v: int| 0 <= v < l1.len() && #[trigger] s[v] && l1[v] <= n implies l2[v] == l1[v] by {
        assert forall|e: int|
            0 <= e < es.len() && (#[trigger] es[e]).1 == v && s[es[e].0 as int] implies l1[es[e].0 as int]
            == l2[es[e].0 as int] by {
            law_edges_lead_down(es, s, l1, x1, e);
            if n == 0 {
                assert(false);
            }
        }
        lemma_frame_into(es, s, l1, l2, v, es.len() as int);
        assert(l1[v] == opt_or(pred_max(es, s, l1, v), 0));
        assert(l2[v] == opt_or(pred_max(es, s, l2, v), 0));
    }
}

/// The layering of a graph is determined by the graph alone: whatever order
/// the nodes are settled in, the same nodes settle, every node lands in the
/// same layer and the extra layer is the same.
pub proof fn law_layering_unique(
    es: Seq<(usize, usize)>,
    s1: Seq<bool>,
    l1: Seq<usize>,
    x1: nat,
    s2: Seq<bool>,
    l2: Seq<usize>,
    x2: nat,
)
    requires
        is_layering(es, s1, l1, x1),
        is_layering(es, s2, l2, x2),
        l1.len() == l2.len(),
    ensures
        s1 == s2,
        l1 == l2,
        x1 == x2,
{
    let top1 = layers_bound(l1);
    let top2 = layers_bound(l2);
    lemma_layers_bound(l1);
    lemma_layers_bound(l2);
    lemma_settled_agree(es, s1, l1, x1, s2, l2, x2, top1);
    lemma_settled_agree(es, s2, l2, x2, s1, l1, x1, top2);
    assert(s1 =~= s2);
    lemma_settled_layers_agree(es, s1, l1, x1, l2, x2, top1);
    let n = l1.len() as int;
    assert forall|e: int| 0 <= e < es.len() implies (#[trigger] es[e]).0 < n by {}
    assert forall|w: int| 0 <= w < n && s1[w] implies l1[w] == l2[w] by {}
    lemma_frame_all(es, s1, l1, l2, 0, es.len() as int, n);
    assert(x1 == x2);
    assert forall|v: int| 0 <= v < n implies l1[v] == l2[v] by {
        lemma_frame_all(es, s1, l1, l2, v, es.len() as int, n);
        if !s1[v] {
            assert(l1[v] == x1 && l2[v] == x2);
        }
    }
    assert(l1 =~= l2);
}

/// A number at or above every layer.
spec fn layers_bound(l: Seq<usize>) -> nat
    decreases l.len(),
{
    if l.len() == 0 {
        0
    } else {
        let m = layers_bound(l.drop_last());
        if l.last() > m {
            l.last() as nat
        } else {
            m
        }
    }
}

proof fn lemma_layers_bound(l: Seq<usize>)
    ensures
        forall|v: int| 0 <= v < l.len() ==> #[trigger] l[v] <= layers_bound(l),
    decreases l.len(),
{
    if l.len() > 0 {
        lemma_layers_bound(l.drop_last());
        assert forall|v: int| 0 <= v < l.len() implies #[trigger] l[v] <= layers_bound(l) by {
            if v < l.len() - 1 {
                assert(l[v] == l.drop_last()[v]);
            }
        }
    }
}

// ── Executable layering ──────────────────────────────────────────────────────

fn filled<T: Copy>(n: usize, x: T) -> (v: Vec<T>)
    ensures
        v@.len() == n,
        forall|i: int| 0 <= i < n ==> v@[i] == x,
{
    let mut v: Vec<T> = Vec::new();
    for i in 0..n
        invariant
            v@.len() == i,
            forall|j: int| 0 <= j < i ==> v@[j] == x,
    {
        v.push(x);
    }
    v
}

/// The number in `o`, or `d` when there is none.
pub open spec fn opt_or(o: Option<nat>, d: nat) -> nat {
    match o {
        Some(m) => m,
        None => d,
    }
}

/// The state of the layering between two settled nodes.
spec fn outer_inv(
    es: Seq<(usize, usize)>,
    n: int,
    dn: Seq<bool>,
    deg: Seq<usize>,
    reached: Seq<bool>,
    layers: Seq<usize>,
    maxl: usize,
    u: int,
    cur: int,
    bound: nat,
) -> bool {
    let m = es.len() as int;
    &&& dn.len() == n && deg.len() == n && reached.len() == n && layers.len() == n
    &&& forall|e: int| 0 <= e < m ==> (#[trigger] es[e]).0 < n && es[e].1 < n
    &&& forall|v: int| 0 <= v < n ==> #[trigger] deg[v] == undone_count(es, dn, u, cur, v, m)
    &&& forall|v: int| 0 <= v < n && #[trigger] dn[v] ==> deg[v] == 0
    &&& forall|v: int|
        0 <= v < n ==> (#[trigger] reached[v] <==> (in_total(es, v, m) == 0 || done_max(
            es,
            dn,
            u,
            cur,
            layers,
            v,
            m,
        ) is Some))
    &&& forall|v: int|
        0 <= v < n && #[trigger] reached[v] ==> layers[v] == opt_or(done_max(es, dn, u, cur, layers, v, m), 0)
    &&& forall|v: int| 0 <= v < n && #[trigger] reached[v] ==> layers[v] <= bound
    &&& maxl == opt_or(all_max(es, dn, u, cur, layers, m), 0)
    &&& maxl <= bound
}

proof fn lemma_inv_same(
    es: Seq<(usize, usize)>,
    n: int,
    dn1: Seq<bool>,
    u1: int,
    c1: int,
    dn2: Seq<bool>,
    u2: int,
    c2: int,
    deg: Seq<usize>,
    reached: Seq<bool>,
    layers: Seq<usize>,
    maxl: usize,
    bound: nat,
)
    requires
        outer_inv(es, n, dn1, deg, reached, layers, maxl, u1, c1, bound),
        dn2.len() == n,
        forall|v: int| 0 <= v < n && #[trigger] dn2[v] ==> deg[v] == 0,
        forall|e: int| 0 <= e < es.len() ==> edge_done(es, dn1, u1, c1, e) == edge_done(es, dn2, u2, c2, e),
    ensures
        outer_inv(es, n, dn2, deg, reached, layers, maxl, u2, c2, bound),
{
    let m = es.len() as int;
    assert forall|v: int| 0 <= v < n implies #[trigger] deg[v] == undone_count(es, dn2, u2, c2, v, m) by {
        lemma_same_done(es, dn1, u1, c1, dn2, u2, c2, layers, v, m);
    }
    assert forall|v: int|
        0 <= v < n implies (#[trigger] reached[v] <==> (in_total(es, v, m) == 0 || done_max(es, dn2, u2, c2, layers, v, m) is Some)) by {
        lemma_same_done(es, dn1, u1, c1, dn2, u2, c2, layers, v, m);
    }
    assert forall|v: int|
        0 <= v < n && #[trigger] reached[v] implies layers[v] == opt_or(done_max(es, dn2, u2, c2, layers, v, m), 0) by {
        lemma_same_done(es, dn1, u1, c1, dn2, u2, c2, layers, v, m);
    }
    lemma_same_done(es, dn1, u1, c1, dn2, u2, c2, layers, 0, m);
}

/// Following edge `cur` from `u` to `b`: `b` loses one unfollowed edge and
/// gets the layer below `u` if that is lower than what it had.
proof fn lemma_follow_inv(
    es: Seq<(usize, usize)>,
    n: int,
    dn: Seq<bool>,
    deg: Seq<usize>,
    reached: Seq<bool>,
    l0: Seq<usize>,
    maxl: usize,
    u: int,
    cur: int,
    bound: nat,
    b: int,
    x: usize,
)
    requires
        outer_inv(es, n, dn, deg, reached, l0, maxl, u, cur, bound),
        0 <= cur < es.len(),
        0 <= u < n,
        es[cur].0 == u,
        es[cur].1 == b,
        !dn[u],
        deg[u] == 0,
        reached[u],
        l0[u] + 1 <= bound,
        bound < index_limit(),
        x == (if reached[b] && l0[b] >= l0[u] + 1 {
            l0[b]
        } else {
            (l0[u] + 1) as usize
        }),
    ensures
        deg[b] >= 1,
        b != u,
        !dn[b],
        outer_inv(
            es,
            n,
            dn,
            deg.update(b, (deg[b] - 1) as usize),
            reached.update(b, true),
            l0.update(b, x),
            if l0[u] + 1 > maxl {
                (l0[u] + 1) as usize
            } else {
                maxl
            },
            u,
            cur + 1,
            bound,
        ),
{
    let m = es.len() as int;
    let lu = l0[u];
    let deg1 = deg.update(b, (deg[b] - 1) as usize);
    let r1 = reached.update(b, true);
    let l1 = l0.update(b, x);
    let maxl1: usize = if lu + 1 > maxl {
        (lu + 1) as usize
    } else {
        maxl
    };
    assert(es[cur].1 < n);
    lemma_undone_witness(es, dn, u, cur, b, m);
    assert(!edge_done(es, dn, u, cur, cur));
    assert(deg[b] >= 1);
    lemma_in_total(es, dn, u, cur, l0, b, m);
    assert(in_total(es, b, m) > 0);
    assert forall|e: int| 0 <= e < m implies (#[trigger] es[e]).0 < dn.len() && es[e].0 < l0.len() by {}
    assert forall|v: int| 0 <= v < n implies #[trigger] deg1[v] == undone_count(es, dn, u, cur + 1, v, m) by {
        lemma_follow(es, dn, u, cur, l0, v, m);
    }
    assert forall|v: int| 0 <= v < n implies #[trigger] done_max(es, dn, u, cur + 1, l1, v, m) == (if v == b {
        omax(done_max(es, dn, u, cur, l0, v, m), Some((lu + 1) as nat))
    } else {
        done_max(es, dn, u, cur, l0, v, m)
    }) by {
        lemma_follow(es, dn, u, cur, l0, v, m);
        lemma_frame(es, dn, u, cur + 1, l0, b, x, v, m);
    }
    lemma_follow(es, dn, u, cur, l0, 0, m);
    lemma_frame(es, dn, u, cur + 1, l0, b, x, 0, m);
    let dm_b = done_max(es, dn, u, cur, l0, b, m);
    assert(reached[b] ==> dm_b is Some && l0[b] == opt_or(dm_b, 0));
    assert(!reached[b] ==> dm_b is None);
    assert(l1[b] == x);
    assert(done_max(es, dn, u, cur + 1, l1, b, m) == Some(x as nat));
    assert forall|v: int|
        0 <= v < n implies (#[trigger] r1[v] <==> (in_total(es, v, m) == 0 || done_max(es, dn, u, cur + 1, l1, v, m) is Some)) by {
        if v != b {
            assert(r1[v] == reached[v]);
            assert(done_max(es, dn, u, cur + 1, l1, v, m) == done_max(es, dn, u, cur, l0, v, m));
        }
    }
    assert forall|v: int|
        0 <= v < n && #[trigger] r1[v] implies l1[v] == opt_or(done_max(es, dn, u, cur + 1, l1, v, m), 0) by {
        if v != b {
            assert(reached[v]);
            assert(l1[v] == l0[v]);
            assert(done_max(es, dn, u, cur + 1, l1, v, m) == done_max(es, dn, u, cur, l0, v, m));
        }
    }
    assert(all_max(es, dn, u, cur + 1, l1, m) == omax(all_max(es, dn, u, cur, l0, m), Some((lu + 1) as nat)));
    assert(maxl1 == opt_or(all_max(es, dn, u, cur + 1, l1, m), 0));
    assert forall|v: int| 0 <= v < n && #[trigger] dn[v] implies deg1[v] == 0 by {}
    assert forall|v: int| 0 <= v < n && #[trigger] r1[v] implies l1[v] <= bound by {
        if v != b {
            assert(reached[v]);
        }
    }
}

/// Puts every node of the graph in a layer, as the module describes, and
/// returns the index of the extra layer below all settled nodes.
pub fn assign_layers(g: &mut LayoutGraph) -> (extra: usize)
    requires
        edges_in_range(*old(g)),
        graph_nodes(*old(g)).len() < index_limit(),
    ensures
        graph_edges(*final(g)) == graph_edges(*old(g)),
        graph_nodes(*final(g)).len() == graph_nodes(*old(g)).len(),
        forall|v: int|
            0 <= v < graph_nodes(*old(g)).len() ==> node_view(#[trigger] graph_nodes(*final(g))[v]) == (NodeV {
                layer: graph_nodes(*final(g))[v].layer,
                ..node_view(graph_nodes(*old(g))[v])
            }),
        exists|settled: Seq<bool>| is_layering(endpoints(*old(g)), settled, layers_of(*final(g)), extra as nat),
        forall|v: int| 0 <= v < graph_nodes(*final(g)).len() ==> #[trigger] graph_nodes(*final(g))[v].layer <= extra,
{
    let ghost es0 = endpoints(*g);
    let n = node_count(g);
    let m = edge_count(g);
    let mut es: Vec<(usize, usize)> = Vec::new();
    for e in 0..m
        invariant
            m == graph_edges(*g).len(),
            es0 == endpoints(*g),
            es@ == es0.take(e as int),
    {
        let p = edge_endpoints(g, e);
        es.push(p);
        assert(es@ =~= es0.take(e + 1));
    }
    assert(es@ =~= es0);
    assert forall|e: int| 0 <= e < m implies (#[trigger] es0[e]).0 < n && es0[e].1 < n by {
        assert(es0[e] == (graph_edges(*g)[e].0, graph_edges(*g)[e].1));
    }
    // In-degrees.
    let mut deg: Vec<usize> = filled(n, 0);
    for e in 0..m
        invariant
            es@ == es0,
            m == es0.len(),
            n == deg@.len(),
            forall|x: int| 0 <= x < m ==> (#[trigger] es0[x]).0 < n && es0[x].1 < n,
            forall|v: int| 0 <= v < n ==> #[trigger] deg@[v] == in_total(es0, v, e as int),
            forall|v: int| 0 <= v < n ==> #[trigger] deg@[v] <= e,
    {
        let b = es[e].1;
        let d = deg[b];
        deg.set(b, d + 1);
    }
    let mut dn: Vec<bool> = filled(n, false);
    let mut reached: Vec<bool> = Vec::new();
    for v in 0..n
        invariant
            n == deg@.len(),
            reached@.len() == v,
            forall|w: int| 0 <= w < v ==> #[trigger] reached@[w] == (deg@[w] == 0),
    {
        reached.push(deg[v] == 0);
    }
    let mut layers: Vec<usize> = filled(n, 0);
    let mut maxl: usize = 0;
    let mut npopped: usize = 0;
    proof {
        assert forall|v: int| 0 <= v < n implies #[trigger] deg@[v] == undone_count(es0, dn@, -1, 0, v, m as int)
            && done_max(es0, dn@, -1, 0, layers@, v, m as int) == None::<nat> by {
            lemma_nothing_done(es0, dn@, layers@, v, m as int);
        }
        lemma_nothing_done(es0, dn@, layers@, 0, m as int);
        assert(count_true(dn@) == 0) by {
            lemma_count_zero(dn@);
        }
    }
    loop
        invariant
            es@ == es0,
            m == es0.len(),
            n < index_limit(),
            outer_inv(es0, n as int, dn@, deg@, reached@, layers@, maxl, -1, 0, npopped as nat),
            npopped == count_true(dn@),
            npopped <= n,
        ensures
            outer_inv(es0, n as int, dn@, deg@, reached@, layers@, maxl, -1, 0, npopped as nat),
            npopped <= n,
            forall|w: int| 0 <= w < n ==> dn@[w] || deg@[w] != 0,
        decreases n - npopped,
    {
        // A node all of whose incoming edges have been followed.
        let u = match find_ready(&dn, &deg) {
            Some(u) => u,
            None => {
                break;
            },
        };
        let ghost dn0 = dn@;
        let ghost mut cur: int = 0;
        proof {
            lemma_inv_same(es0, n as int, dn@, -1, 0, dn@, u as int, 0, deg@, reached@, layers@, maxl, npopped as nat);
            lemma_in_total(es0, dn@, u as int, 0, layers@, u as int, m as int);
            assert(reached@[u as int]);
            lemma_count_true_update(dn@, u as int);
            lemma_count_true_le(dn@.update(u as int, true));
            assert forall|v: int| 0 <= v < n && #[trigger] dn@[v] implies reached@[v] && layers@[v] <= npopped by {
                lemma_in_total(es0, dn@, u as int, 0, layers@, v, m as int);
                assert(deg@[v] == 0);
            }
        }
        let lu = layers[u];
        for e in 0..m
            invariant
                es@ == es0,
                m == es0.len(),
                n < index_limit(),
                u < n,
                dn@ == dn0,
                !dn@[u as int],
                deg@[u as int] == 0,
                reached@[u as int],
                layers@[u as int] == lu,
                lu <= npopped,
                npopped < n,
                outer_inv(es0, n as int, dn@, deg@, reached@, layers@, maxl, u as int, e as int, npopped as nat + 1),
                forall|v: int| 0 <= v < n && #[trigger] dn@[v] ==> reached@[v] && layers@[v] <= npopped,
        {
            let (a, b) = es[e];
            let ghost l0 = layers@;
            let ghost ee = e as int;
            if a == u {
                proof {
                    lemma_follow_inv(es0, n as int, dn@, deg@, reached@, l0, maxl, u as int, ee, npopped as nat + 1, b as int,
                        if reached@[b as int] && l0[b as int] >= lu + 1 { l0[b as int] } else { (lu + 1) as usize });
                }
                let d = deg[b];
                let x = if reached[b] {
                    if layers[b] >= lu + 1 {
                        layers[b]
                    } else {
                        lu + 1
                    }
                } else {
                    lu + 1
                };
                deg.set(b, d - 1);
                layers.set(b, x);
                reached.set(b, true);
                if lu + 1 > maxl {
                    maxl = lu + 1;
                }
            } else {
                proof {
                    assert forall|x: int| 0 <= x < m implies edge_done(es0, dn@, u as int, ee, x) == edge_done(es0, dn@, u as int, ee + 1, x) by {
                        assert(es0[x].0 < n);
                    }
                    lemma_inv_same(es0, n as int, dn@, u as int, ee, dn@, u as int, ee + 1, deg@, reached@, layers@, maxl, npopped as nat + 1);
                }
            }
        }
        proof {
            let dn1 = dn@.update(u as int, true);
            assert forall|x: int| 0 <= x < m implies edge_done(es0, dn@, u as int, m as int, x) == edge_done(es0, dn1, -1, 0, x) by {
                assert(es0[x].0 < n);
            }
            lemma_count_true_update(dn@, u as int);
        }
        dn.set(u, true);
        npopped = npopped + 1;
        proof {
            lemma_inv_same(es0, n as int, dn0, u as int, m as int, dn@, -1, 0, deg@, reached@, layers@, maxl, npopped as nat);
        }
    }
    // Nodes that never settled go into the extra layer.
    let ghost lsettled = layers@;
    proof {
        lemma_count_true_le(dn@);
    }
    let extra = maxl + 1;
    for v in 0..n
        invariant
            es@ == es0,
            m == es0.len(),
            n < index_limit(),
            extra == maxl + 1,
            maxl <= n,
            outer_inv(es0, n as int, dn@, deg@, reached@, lsettled, maxl, -1, 0, n as nat),
            layers@.len() == n,
            forall|w: int| 0 <= w < n ==> dn@[w] || deg@[w] != 0,
            forall|w: int| 0 <= w < n && #[trigger] dn@[w] ==> layers@[w] == lsettled[w],
            forall|w: int| 0 <= w < v && !#[trigger] dn@[w] ==> layers@[w] == extra,
            forall|w: int| v <= w < n && !#[trigger] dn@[w] ==> layers@[w] == lsettled[w],
    {
        if !dn[v] {
            layers.set(v, extra);
        }
    }
    proof {
        lemma_final(es0, n as int, dn@, deg@, reached@, lsettled, layers@, maxl, extra);
    }
    // Write the layers into the graph.
    let ghost g0 = *g;
    for v in 0..n
        invariant
            n == graph_nodes(g0).len(),
            layers@.len() == n,
            graph_edges(*g) == graph_edges(g0),
            graph_nodes(*g).len() == n,
            forall|w: int| 0 <= w < v ==> (#[trigger] graph_nodes(*g)[w]).layer == layers@[w]
                && node_view(graph_nodes(*g)[w]) == (NodeV { layer: layers@[w], ..node_view(graph_nodes(g0)[w]) }),
            forall|w: int| v <= w < n ==> #[trigger] graph_nodes(*g)[w] == graph_nodes(g0)[w],
    {
        let mut node = clone_layout_node(node_at(g, v));
        node.layer = layers[v];
        set_node(g, v, node);
    }
    assert(layers_of(*g) =~= layers@);
    proof {
        law_extra_is_lowest(es0, dn@, layers@, extra as nat);
        assert forall|v: int| 0 <= v < n implies #[trigger] graph_nodes(*g)[v].layer <= extra by {
            assert(graph_nodes(*g)[v].layer == layers@[v]);
        }
    }
    extra
}

/// Lays out the graph: puts its nodes in layers, as the module describes, and
/// orders each layer into a row, as `crate::rows` describes. Row `l` holds
/// layer `l`; the last row is the extra layer. A graph without nodes is left
/// as it is and gets no rows.
pub fn layout(g: &mut LayoutGraph) -> (rows: Vec<Vec<RowSlot>>)
    requires
        edges_in_range(*old(g)),
        graph_nodes(*old(g)).len() < index_limit(),
    ensures
        graph_nodes(*old(g)).len() == 0 ==> rows@.len() == 0 && *final(g) == *old(g),
        graph_nodes(*old(g)).len() > 0 ==> rows@.len() > 0,
        graph_edges(*final(g)) == graph_edges(*old(g)),
        graph_nodes(*final(g)).len() == graph_nodes(*old(g)).len(),
        forall|v: int|
            0 <= v < graph_nodes(*old(g)).len() ==> node_view(#[trigger] graph_nodes(*final(g))[v]) == (NodeV {
                layer: graph_nodes(*final(g))[v].layer,
                ..node_view(graph_nodes(*old(g))[v])
            }),
        graph_nodes(*old(g)).len() > 0 ==> exists|settled: Seq<bool>|
            #[trigger] is_layering(endpoints(*old(g)), settled, layers_of(*final(g)), (rows@.len() - 1) as nat),
        forall|l: int|
            0 <= l < rows@.len() ==> row_ok(
                groups_of(*final(g)).map_values(|o: Option<Seq<char>>| group_key(o)),
                node_layers(*final(g)),
                l,
                slot_nodes(#[trigger] rows@[l]@),
            ),
        forall|l: int, i: int|
            0 <= l < rows@.len() && 0 <= i < rows@[l]@.len() ==> (#[trigger] rows@[l]@[i]).gap_before == (i > 0
                && gap_between(
                groups_of(*final(g))[rows@[l]@[i - 1].node as int],
                groups_of(*final(g))[rows@[l]@[i].node as int],
            )),
{
    if node_count(g) == 0 {
        return Vec::new();
    }
    let ghost g0 = *g;
    let extra = assign_layers(g);
    let rows = layer_rows(g, extra);
    proof {
        let settled = choose|s: Seq<bool>| is_layering(endpoints(g0), s, layers_of(*g), extra as nat);
        assert(((rows@.len() - 1) as nat) == extra as nat);
        assert(is_layering(endpoints(g0), settled, layers_of(*g), (rows@.len() - 1) as nat));
    }
    rows
}

/// Once no node is left to settle, the layers meet `is_layering`.
proof fn lemma_final(
    es: Seq<(usize, usize)>,
    n: int,
    dn: Seq<bool>,
    deg: Seq<usize>,
    reached: Seq<bool>,
    lsettled: Seq<usize>,
    layers: Seq<usize>,
    maxl: usize,
    extra: usize,
)
    requires
        outer_inv(es, n, dn, deg, reached, lsettled, maxl, -1, 0, n as nat),
        layers.len() == n,
        extra == maxl + 1,
        forall|w: int| 0 <= w < n ==> dn[w] || deg[w] != 0,
        forall|w: int| 0 <= w < n && #[trigger] dn[w] ==> layers[w] == lsettled[w],
        forall|w: int| 0 <= w < n && !#[trigger] dn[w] ==> layers[w] == extra,
    ensures
        is_layering(es, dn, layers, extra as nat),
{
    let m = es.len() as int;
    assert forall|w: int| 0 <= w < n && dn[w] implies reached[w] by {
        lemma_in_total(es, dn, -1, 0, lsettled, w, m);
    }
    // Only nodes that never settled change, so the maxima stay.
    assert forall|v: int| 0 <= v < n implies #[trigger] done_max(es, dn, -1, 0, layers, v, m) == done_max(es, dn, -1, 0, lsettled, v, m)
        && all_max(es, dn, -1, 0, layers, m) == all_max(es, dn, -1, 0, lsettled, m) by {
        lemma_frame_all(es, dn, lsettled, layers, v, m, n);
    }
    lemma_frame_all(es, dn, lsettled, layers, 0, m, n);
    assert forall|v: int| 0 <= v < n && #[trigger] dn[v] implies (forall|e: int|
        0 <= e < m && (#[trigger] es[e]).1 == v ==> dn[es[e].0 as int]) && layers[v] == opt_or(pred_max(es, dn, layers, v), 0) by {
        lemma_in_total(es, dn, -1, 0, lsettled, v, m);
        lemma_frame_all(es, dn, lsettled, layers, v, m, n);
        assert(reached[v]);
        assert(layers[v] == lsettled[v]);
    }
    assert forall|v: int| 0 <= v < n && !#[trigger] dn[v] implies (exists|e: int|
        0 <= e < m && (#[trigger] es[e]).1 == v && !dn[es[e].0 as int]) && layers[v] == extra by {
        lemma_undone_witness(es, dn, -1, 0, v, m);
        assert(deg[v] == undone_count(es, dn, -1, 0, v, m));
        assert(deg[v] != 0);
        let e = choose|e: int| 0 <= e < m && (#[trigger] es[e]).1 == v && !edge_done(es, dn, -1, 0, e);
        assert(!dn[es[e].0 as int]);
    }
}

/// Changing the layers of nodes that never settled leaves the maxima alone.
proof fn lemma_frame_all(es: Seq<(usize, usize)>, dn: Seq<bool>, l1: Seq<usize>, l2: Seq<usize>, v: int, k: int, n: int)
    requires
        0 <= k <= es.len(),
        l1.len() == n && l2.len() == n && dn.len() == n,
        forall|e: int| 0 <= e < es.len() ==> (#[trigger] es[e]).0 < n,
        forall|w: int| 0 <= w < n && dn[w] ==> l1[w] == l2[w],
    ensures
        done_max(es, dn, -1, 0, l2, v, k) == done_max(es, dn, -1, 0, l1, v, k),
        all_max(es, dn, -1, 0, l2, k) == all_max(es, dn, -1, 0, l1, k),
    decreases k,
{
    if k > 0 {
        lemma_frame_all(es, dn, l1, l2, v, k - 1, n);
        assert(es[k - 1].0 < n);
    }
}

fn find_ready(dn: &Vec<bool>, deg: &Vec<usize>) -> (r: Option<usize>)
    requires
        dn@.len() == deg@.len(),
    ensures
        match r {
            Some(u) => u < dn@.len() && !dn@[u as int] && deg@[u as int] == 0,
            None => forall|w: int| 0 <= w < dn@.len() ==> dn@[w] || deg@[w] != 0,
        },
{
    let n = dn.len();
    for i in 0..n
        invariant
            n == dn@.len() == deg@.len(),
            forall|w: int| 0 <= w < i ==> dn@[w] || deg@[w] != 0,
    {
        if !dn[i] && deg[i] == 0 {
            return Some(i);
        }
    }
    None
}

proof fn lemma_count_zero(s: Seq<bool>)
    requires
        forall|i: int| 0 <= i < s.len() ==> !s[i],
    ensures
        count_true(s) == 0,
    decreases s.len(),
{
    if s.len() > 0 {
        lemma_count_zero(s.drop_last());
    }
}

} // verus!
