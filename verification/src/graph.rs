//! The layout graph built from a diagram: one node per distinct node id, one
//! edge per top-level connection.
use vstd::prelude::*;
use petgraph::graph::{DiGraph, EdgeIndex, NodeIndex};
use crate::ast::{Arrow, Diagram, Stmt, StmtV, StyleProp, stmt_view, stmts_view, lemma_stmts_view_len, prop_view, props_view, PairV};
use crate::svg::str_eq;
use crate::text::{chars_of, slice, string_from};

verus! {

/// A node of the layout graph, with what layout and rendering read of it.
pub struct LayoutNode {
    pub id: String,
    pub label: String,
    pub group: Option<String>,
    pub icon: Option<String>,
    /// The layer that the layout puts the node in.
    pub layer: usize,
    pub fill: String,
    pub stroke: String,
    pub font_color: String,
}

/// An edge of the layout graph.
pub struct LayoutEdge {
    pub source: usize,
    pub target: usize,
    pub label: Option<String>,
    pub kind: Arrow,
}

/// The layout graph: petgraph's directed graph over layout nodes and edges.
pub type LayoutGraph = DiGraph<LayoutNode, LayoutEdge>;

/// Declares petgraph's `Graph` to Verus, as an opaque type: what a graph
/// holds is told by `graph_nodes` and `graph_edges` and the trusted calls
/// below.
#[verifier::external_type_specification]
#[verifier::external_body]
#[verifier::reject_recursive_types(N)]
#[verifier::reject_recursive_types(E)]
#[verifier::reject_recursive_types(Ty)]
#[verifier::reject_recursive_types(Ix)]
pub struct ExGraph<N, E, Ty, Ix>(petgraph::graph::Graph<N, E, Ty, Ix>);

/// Declares petgraph's `Directed` edge type marker to Verus.
#[verifier::external_type_specification]
#[verifier::external_body]
pub struct ExDirected(petgraph::Directed);

/// The node weights of a layout graph, by index.
pub uninterp spec fn graph_nodes(g: DiGraph<LayoutNode, LayoutEdge>) -> Seq<LayoutNode>;

/// The edges of a layout graph, by index: source, target and weight.
pub uninterp spec fn graph_edges(g: DiGraph<LayoutNode, LayoutEdge>) -> Seq<(usize, usize, LayoutEdge)>;

/// The largest number of nodes or edges that the graph's `u32` indices allow.
pub open spec fn index_limit() -> int {
    0xffff_ffff
}

/// An empty graph.
///
/// Trusted: calls petgraph's `Graph::new`, which builds a graph with no nodes
/// and no edges.
#[verifier::external_body]
fn new_graph() -> (g: LayoutGraph)
    ensures
        graph_nodes(g) == Seq::<LayoutNode>::empty(),
        graph_edges(g) == Seq::<(usize, usize, LayoutEdge)>::empty(),
{
    DiGraph::new()
}

/// Adds a node and returns its index.
///
/// Trusted: calls petgraph's `Graph::add_node`, which appends the weight to
/// the node list and returns the previous node count as the index; it panics
/// once the `u32` index space is full, which `requires` rules out.
#[verifier::external_body]
fn add_node(g: &mut LayoutGraph, n: LayoutNode) -> (idx: usize)
    requires
        graph_nodes(*old(g)).len() < index_limit(),
    ensures
        graph_nodes(*final(g)) == graph_nodes(*old(g)).push(n),
        graph_edges(*final(g)) == graph_edges(*old(g)),
        idx == graph_nodes(*old(g)).len(),
{
    g.add_node(n).index()
}

/// Adds an edge from `a` to `b`.
///
/// Trusted: calls petgraph's `Graph::add_edge`, which appends the edge to the
/// edge list and leaves the nodes' weights alone; it panics when an endpoint
/// does not exist or the `u32` index space is full, which `requires` rules out.
#[verifier::external_body]
fn add_edge(g: &mut LayoutGraph, a: usize, b: usize, e: LayoutEdge)
    requires
        a < graph_nodes(*old(g)).len(),
        b < graph_nodes(*old(g)).len(),
        graph_edges(*old(g)).len() < index_limit(),
    ensures
        graph_nodes(*final(g)) == graph_nodes(*old(g)),
        graph_edges(*final(g)) == graph_edges(*old(g)).push((a, b, e)),
{
    g.add_edge(NodeIndex::new(a), NodeIndex::new(b), e);
}

/// The weight of node `i`.
///
/// Trusted: calls petgraph's `Index<NodeIndex>` for `Graph`, which returns the
/// weight stored at that index.
#[verifier::external_body]
pub(crate) fn node_at(g: &LayoutGraph, i: usize) -> (n: &LayoutNode)
    requires
        i < graph_nodes(*g).len(),
    ensures
        *n == graph_nodes(*g)[i as int],
{
    &g[NodeIndex::new(i)]
}

/// Replaces the weight of node `i`.
///
/// Trusted: calls petgraph's `IndexMut<NodeIndex>` for `Graph`, which gives
/// the weight stored at that index; nothing else of the graph changes.
#[verifier::external_body]
pub(crate) fn set_node(g: &mut LayoutGraph, i: usize, n: LayoutNode)
    requires
        i < graph_nodes(*old(g)).len(),
    ensures
        graph_nodes(*final(g)) == graph_nodes(*old(g)).update(i as int, n),
        graph_edges(*final(g)) == graph_edges(*old(g)),
{
    g[NodeIndex::new(i)] = n;
}

/// The number of nodes.
///
/// Trusted: calls petgraph's `Graph::node_count`, the length of the node list.
#[verifier::external_body]
pub(crate) fn node_count(g: &LayoutGraph) -> (n: usize)
    ensures
        n == graph_nodes(*g).len(),
{
    g.node_count()
}

/// The number of edges.
///
/// Trusted: calls petgraph's `Graph::edge_count`, the length of the edge list.
#[verifier::external_body]
pub(crate) fn edge_count(g: &LayoutGraph) -> (n: usize)
    ensures
        n == graph_edges(*g).len(),
{
    g.edge_count()
}

/// The source and target of edge `e`.
///
/// Trusted: calls petgraph's `Graph::edge_endpoints`, which returns the two
/// endpoints that `add_edge` stored for that edge.
#[verifier::external_body]
pub(crate) fn edge_endpoints(g: &LayoutGraph, e: usize) -> (r: (usize, usize))
    requires
        e < graph_edges(*g).len(),
    ensures
        r.0 == graph_edges(*g)[e as int].0,
        r.1 == graph_edges(*g)[e as int].1,
{
    let (a, b) = g.edge_endpoints(EdgeIndex::new(e)).unwrap();
    (a.index(), b.index())
}

// ── Model ────────────────────────────────────────────────────────────────────

/// An optional string as optional text.
pub open spec fn opt_view(o: Option<String>) -> Option<Seq<char>> {
    match o {
        Some(s) => Some(s@),
        None => None,
    }
}

/// A layout node with every string replaced by its characters.
pub struct NodeV {
    pub id: Seq<char>,
    pub label: Seq<char>,
    pub group: Option<Seq<char>>,
    pub icon: Option<Seq<char>>,
    pub layer: usize,
    pub fill: Seq<char>,
    pub stroke: Seq<char>,
    pub font_color: Seq<char>,
}

/// A layout node with every string replaced by its characters.
pub open spec fn node_view(n: LayoutNode) -> NodeV {
    NodeV {
        id: n.id@,
        label: n.label@,
        group: opt_view(n.group),
        icon: opt_view(n.icon),
        layer: n.layer,
        fill: n.fill@,
        stroke: n.stroke@,
        font_color: n.font_color@,
    }
}

/// An edge: its endpoints as stored by the graph, the endpoints recorded in
/// its weight, its label and its arrow.
pub type EdgeV = (usize, usize, usize, usize, Option<Seq<char>>, Arrow);

/// An edge of the graph, with its weight as plain values.
pub open spec fn edge_view(t: (usize, usize, LayoutEdge)) -> EdgeV {
    (t.0, t.1, t.2.source, t.2.target, opt_view(t.2.label), t.2.kind)
}

/// Every edge joins two existing nodes.
pub open spec fn edges_in_range(g: LayoutGraph) -> bool {
    forall|e: int|
        0 <= e < graph_edges(g).len() ==> (#[trigger] graph_edges(g)[e]).0 < graph_nodes(g).len()
            && graph_edges(g)[e].1 < graph_nodes(g).len()
}

/// The graph's nodes, by index, as plain values.
pub open spec fn nodes_view(g: LayoutGraph) -> Seq<NodeV> {
    graph_nodes(g).map_values(|n: LayoutNode| node_view(n))
}

/// The graph's edges, by index, as plain values.
pub open spec fn edges_view(g: LayoutGraph) -> Seq<EdgeV> {
    graph_edges(g).map_values(|t: (usize, usize, LayoutEdge)| edge_view(t))
}

// ── Specification of graph building ──────────────────────────────────────────

/// A node as first created: default colours, no icon, layer 0.
pub open spec fn default_node(id: Seq<char>, label: Seq<char>, group: Option<Seq<char>>) -> NodeV {
    NodeV {
        id,
        label,
        group,
        icon: None,
        layer: 0,
        fill: "#18181b"@,
        stroke: "#3f3f46"@,
        font_color: "#f4f4f5"@,
    }
}

/// The index of the first node with the given id.
pub open spec fn find_node(nodes: Seq<NodeV>, id: Seq<char>) -> Option<int>
    decreases nodes.len(),
{
    if nodes.len() == 0 {
        None
    } else {
        match find_node(nodes.drop_last(), id) {
            Some(k) => Some(k),
            None => if nodes.last().id == id {
                Some(nodes.len() - 1)
            } else {
                None
            },
        }
    }
}

/// A mention of node `id`, with a label if it declares one, inside group
/// `grp` if any: a new node is created; a known one takes the label and the
/// group.
pub open spec fn touch(
    nodes: Seq<NodeV>,
    id: Seq<char>,
    label: Option<Seq<char>>,
    grp: Option<Seq<char>>,
) -> Seq<NodeV> {
    match find_node(nodes, id) {
        None => nodes.push(
            default_node(
                id,
                match label {
                    Some(l) => l,
                    None => id,
                },
                grp,
            ),
        ),
        Some(k) => {
            let n = nodes[k];
            nodes.update(
                k,
                NodeV {
                    label: match label {
                        Some(l) => l,
                        None => n.label,
                    },
                    group: match grp {
                        Some(g) => Some(g),
                        None => n.group,
                    },
                    ..n
                },
            )
        },
    }
}

/// `s` without its leading double quotes.
pub open spec fn trim_quotes_start(s: Seq<char>) -> Seq<char>
    decreases s.len(),
{
    if s.len() > 0 && s[0] == '"' {
        trim_quotes_start(s.drop_first())
    } else {
        s
    }
}

/// `s` without its trailing double quotes.
pub open spec fn trim_quotes_end(s: Seq<char>) -> Seq<char>
    decreases s.len(),
{
    if s.len() > 0 && s.last() == '"' {
        trim_quotes_end(s.drop_last())
    } else {
        s
    }
}

/// `s` without the double quotes at either end.
pub open spec fn trim_quotes(s: Seq<char>) -> Seq<char> {
    trim_quotes_end(trim_quotes_start(s))
}

/// A node after one style property: `fill`, `stroke`, `font-color` and
/// `icon` set the matching field; other keys are ignored.
pub open spec fn apply_prop(n: NodeV, p: PairV) -> NodeV {
    let v = trim_quotes(p.1);
    if p.0 == "fill"@ {
        NodeV { fill: v, ..n }
    } else if p.0 == "stroke"@ {
        NodeV { stroke: v, ..n }
    } else if p.0 == "font-color"@ {
        NodeV { font_color: v, ..n }
    } else if p.0 == "icon"@ {
        NodeV { icon: Some(v), ..n }
    } else {
        n
    }
}

/// A node after a style block's properties, in order.
pub open spec fn apply_props(n: NodeV, ps: Seq<PairV>) -> NodeV
    decreases ps.len(),
{
    if ps.len() == 0 {
        n
    } else {
        apply_prop(apply_props(n, ps.drop_last()), ps.last())
    }
}

/// The nodes after one statement inside group `grp` (or at top level).
pub open spec fn gather_stmt(nodes: Seq<NodeV>, s: StmtV, grp: Option<Seq<char>>) -> Seq<NodeV> {
    match s {
        StmtV::Node(id) => touch(nodes, id, None, grp),
        StmtV::NodeDecl(id, l) => touch(nodes, id, Some(l), grp),
        StmtV::Connection(f, t, _, _) => touch(touch(nodes, f, None, grp), t, None, grp),
        StmtV::NodeAttr(n, k, v) => match find_node(nodes, n) {
            Some(i) => if k == "icon"@ {
                nodes.update(i, NodeV { icon: Some(trim_quotes(v)), ..nodes[i] })
            } else {
                nodes
            },
            None => nodes,
        },
        StmtV::Style(n, ps) => match find_node(nodes, n) {
            Some(i) => nodes.update(i, apply_props(nodes[i], ps)),
            None => nodes,
        },
        StmtV::Group(_, _) => nodes,
    }
}

/// The nodes after the statements of group `g`, in order.
pub open spec fn gather_group(nodes: Seq<NodeV>, inner: Seq<StmtV>, g: Seq<char>) -> Seq<NodeV>
    decreases inner.len(),
{
    if inner.len() == 0 {
        nodes
    } else {
        gather_stmt(gather_group(nodes, inner.drop_last(), g), inner.last(), Some(g))
    }
}

/// The nodes of a diagram's statements: top-level statements in order, the
/// direct members of a top-level group inside that group.
pub open spec fn gather(ss: Seq<StmtV>) -> Seq<NodeV>
    decreases ss.len(),
{
    if ss.len() == 0 {
        Seq::empty()
    } else {
        let acc = gather(ss.drop_last());
        match ss.last() {
            StmtV::Group(g, inner) => gather_group(acc, inner, g),
            s => gather_stmt(acc, s, None),
        }
    }
}

/// One edge per top-level connection, between the nodes of its ends.
pub open spec fn edges_of(ss: Seq<StmtV>, nodes: Seq<NodeV>) -> Seq<EdgeV>
    decreases ss.len(),
{
    if ss.len() == 0 {
        Seq::empty()
    } else {
        let acc = edges_of(ss.drop_last(), nodes);
        match ss.last() {
            StmtV::Connection(f, t, a, l) => match (find_node(nodes, f), find_node(nodes, t)) {
                (Some(x), Some(y)) => acc.push((x as usize, y as usize, x as usize, y as usize, l, a)),
                _ => acc,
            },
            _ => acc,
        }
    }
}

/// How many node mentions the statements can make at most.
pub open spec fn mentions(ss: Seq<StmtV>) -> nat
    decreases ss.len(),
{
    if ss.len() == 0 {
        0
    } else {
        mentions(ss.drop_last()) + match ss.last() {
            StmtV::Group(_, inner) => 2 * inner.len() + 1,
            _ => 2,
        }
    }
}

// ── Lemmas ───────────────────────────────────────────────────────────────────

proof fn lemma_find_node(nodes: Seq<NodeV>, id: Seq<char>)
    ensures
        find_node(nodes, id) matches Some(k) ==> 0 <= k < nodes.len() && nodes[k].id == id,
        find_node(nodes, id) is None ==> forall|j: int| 0 <= j < nodes.len() ==> nodes[j].id != id,
    decreases nodes.len(),
{
    if nodes.len() > 0 {
        lemma_find_node(nodes.drop_last(), id);
        if find_node(nodes, id) is None {
            assert forall|j: int| 0 <= j < nodes.len() implies nodes[j].id != id by {
                if j < nodes.len() - 1 {
                    assert(nodes[j] == nodes.drop_last()[j]);
                }
            }
        }
    }
}

/// Once a prefix holds `id`, the first node with it lies in that prefix.
proof fn lemma_find_node_prefix(nodes: Seq<NodeV>, id: Seq<char>, m: int)
    requires
        0 <= m <= nodes.len(),
        find_node(nodes.take(m), id) is Some,
    ensures
        find_node(nodes, id) == find_node(nodes.take(m), id),
    decreases nodes.len() - m,
{
    if m < nodes.len() {
        assert(nodes.take(m + 1).drop_last() =~= nodes.take(m));
        lemma_find_node_prefix(nodes, id, m + 1);
    } else {
        assert(nodes.take(m) =~= nodes);
    }
}

/// Changing a node's fields but not its id keeps every lookup.
proof fn lemma_find_node_update(nodes: Seq<NodeV>, k: int, n: NodeV, id: Seq<char>)
    requires
        0 <= k < nodes.len(),
        n.id == nodes[k].id,
    ensures
        find_node(nodes.update(k, n), id) == find_node(nodes, id),
    decreases nodes.len(),
{
    let u = nodes.update(k, n);
    if k < nodes.len() - 1 {
        assert(u.drop_last() =~= nodes.drop_last().update(k, n));
        lemma_find_node_update(nodes.drop_last(), k, n, id);
        assert(u.last() == nodes.last());
    } else {
        assert(u.drop_last() =~= nodes.drop_last());
    }
}

/// Adding a node keeps every lookup that already succeeded.
proof fn lemma_find_node_push(nodes: Seq<NodeV>, n: NodeV, id: Seq<char>)
    requires
        find_node(nodes, id) is Some,
    ensures
        find_node(nodes.push(n), id) == find_node(nodes, id),
{
    assert(nodes.push(n).drop_last() =~= nodes);
}

proof fn lemma_touch(nodes: Seq<NodeV>, id: Seq<char>, label: Option<Seq<char>>, grp: Option<Seq<char>>, other: Seq<char>)
    ensures
        touch(nodes, id, label, grp).len() <= nodes.len() + 1,
        touch(nodes, id, label, grp).len() >= nodes.len(),
        find_node(touch(nodes, id, label, grp), id) is Some,
        find_node(nodes, other) is Some ==> find_node(touch(nodes, id, label, grp), other) == find_node(nodes, other),
{
    lemma_find_node(nodes, id);
    match find_node(nodes, id) {
        None => {
            let t = nodes.push(default_node(id, match label { Some(l) => l, None => id }, grp));
            assert(t.drop_last() =~= nodes);
            if find_node(nodes, other) is Some {
                lemma_find_node_push(nodes, default_node(id, match label { Some(l) => l, None => id }, grp), other);
            }
        },
        Some(k) => {
            let n = nodes[k];
            let m = NodeV {
                label: match label {
                    Some(l) => l,
                    None => n.label,
                },
                group: match grp {
                    Some(g) => Some(g),
                    None => n.group,
                },
                ..n
            };
            lemma_find_node_update(nodes, k, m, id);
            lemma_find_node_update(nodes, k, m, other);
        },
    }
}

proof fn lemma_gather_stmt(nodes: Seq<NodeV>, s: StmtV, grp: Option<Seq<char>>, other: Seq<char>)
    ensures
        nodes.len() <= gather_stmt(nodes, s, grp).len() <= nodes.len() + 2,
        find_node(nodes, other) is Some ==> find_node(gather_stmt(nodes, s, grp), other) == find_node(nodes, other),
{
    match s {
        StmtV::Node(id) => lemma_touch(nodes, id, None, grp, other),
        StmtV::NodeDecl(id, l) => lemma_touch(nodes, id, Some(l), grp, other),
        StmtV::Connection(f, t, _, _) => {
            lemma_touch(nodes, f, None, grp, other);
            lemma_touch(touch(nodes, f, None, grp), t, None, grp, other);
        },
        StmtV::NodeAttr(n, k, v) => {
            lemma_find_node(nodes, n);
            match find_node(nodes, n) {
                Some(i) => {
                    if k == "icon"@ {
                        lemma_find_node_update(nodes, i, NodeV { icon: Some(trim_quotes(v)), ..nodes[i] }, other);
                    }
                },
                None => {},
            }
        },
        StmtV::Style(n, ps) => {
            lemma_find_node(nodes, n);
            match find_node(nodes, n) {
                Some(i) => {
                    lemma_apply_props_id(nodes[i], ps);
                    lemma_find_node_update(nodes, i, apply_props(nodes[i], ps), other);
                },
                None => {},
            }
        },
        _ => {},
    }
}

proof fn lemma_apply_props_id(n: NodeV, ps: Seq<PairV>)
    ensures
        apply_props(n, ps).id == n.id,
    decreases ps.len(),
{
    if ps.len() > 0 {
        lemma_apply_props_id(n, ps.drop_last());
    }
}

proof fn lemma_gather_group_len(nodes: Seq<NodeV>, inner: Seq<StmtV>, g: Seq<char>)
    ensures
        gather_group(nodes, inner, g).len() <= nodes.len() + 2 * inner.len(),
    decreases inner.len(),
{
    if inner.len() > 0 {
        lemma_gather_group_len(nodes, inner.drop_last(), g);
        lemma_gather_stmt(gather_group(nodes, inner.drop_last(), g), inner.last(), Some(g), Seq::empty());
    }
}

proof fn lemma_gather_len(ss: Seq<StmtV>)
    ensures
        gather(ss).len() <= mentions(ss),
    decreases ss.len(),
{
    if ss.len() > 0 {
        lemma_gather_len(ss.drop_last());
        let acc = gather(ss.drop_last());
        match ss.last() {
            StmtV::Group(g, inner) => lemma_gather_group_len(acc, inner, g),
            s => lemma_gather_stmt(acc, s, None, Seq::empty()),
        }
    }
}

proof fn lemma_mentions_prefix(ss: Seq<StmtV>, i: int)
    requires
        0 <= i <= ss.len(),
    ensures
        mentions(ss.take(i)) <= mentions(ss),
        i <= mentions(ss),
    decreases ss.len() - i,
{
    if i < ss.len() {
        lemma_mentions_prefix(ss, i + 1);
        assert(ss.take(i + 1).drop_last() =~= ss.take(i));
    } else {
        assert(ss.take(i) =~= ss);
        lemma_mentions_len(ss);
    }
}

proof fn lemma_mentions_len(ss: Seq<StmtV>)
    ensures
        ss.len() <= mentions(ss),
    decreases ss.len(),
{
    if ss.len() > 0 {
        lemma_mentions_len(ss.drop_last());
    }
}

// ── Laws of graph building ───────────────────────────────────────────────────

/// No two nodes share an id.
pub open spec fn ids_distinct(nodes: Seq<NodeV>) -> bool {
    forall|i: int, j: int| 0 <= i < j < nodes.len() ==> (#[trigger] nodes[i]).id != (#[trigger] nodes[j]).id
}

/// How many top-level connections the statements hold.
pub open spec fn top_connections(ss: Seq<StmtV>) -> nat
    decreases ss.len(),
{
    if ss.len() == 0 {
        0
    } else {
        top_connections(ss.drop_last()) + if ss.last() is Connection {
            1nat
        } else {
            0nat
        }
    }
}

proof fn lemma_touch_distinct(nodes: Seq<NodeV>, id: Seq<char>, label: Option<Seq<char>>, grp: Option<Seq<char>>)
    requires
        ids_distinct(nodes),
    ensures
        ids_distinct(touch(nodes, id, label, grp)),
{
    lemma_find_node(nodes, id);
    let t = touch(nodes, id, label, grp);
    match find_node(nodes, id) {
        None => {
            assert forall|i: int, j: int| 0 <= i < j < t.len() implies (#[trigger] t[i]).id != (#[trigger] t[j]).id by {
                if j == nodes.len() {
                    assert(t[i] == nodes[i]);
                } else {
                    assert(t[i] == nodes[i] && t[j] == nodes[j]);
                }
            }
        },
        Some(k) => {
            assert forall|i: int, j: int| 0 <= i < j < t.len() implies (#[trigger] t[i]).id != (#[trigger] t[j]).id by {
                assert(t[i].id == nodes[i].id && t[j].id == nodes[j].id);
            }
        },
    }
}

/// Changing a node's fields but not its id keeps the ids distinct.
proof fn lemma_update_distinct(nodes: Seq<NodeV>, k: int, n: NodeV)
    requires
        ids_distinct(nodes),
        0 <= k < nodes.len(),
        n.id == nodes[k].id,
    ensures
        ids_distinct(nodes.update(k, n)),
{
    let u = nodes.update(k, n);
    assert forall|i: int, j: int| 0 <= i < j < u.len() implies (#[trigger] u[i]).id != (#[trigger] u[j]).id by {
        assert(u[i].id == nodes[i].id && u[j].id == nodes[j].id);
    }
}

proof fn lemma_gather_stmt_distinct(nodes: Seq<NodeV>, s: StmtV, grp: Option<Seq<char>>)
    requires
        ids_distinct(nodes),
    ensures
        ids_distinct(gather_stmt(nodes, s, grp)),
        s matches StmtV::Connection(f, t, _, _) ==> find_node(gather_stmt(nodes, s, grp), f) is Some
            && find_node(gather_stmt(nodes, s, grp), t) is Some,
{
    match s {
        StmtV::Node(id) => lemma_touch_distinct(nodes, id, None, grp),
        StmtV::NodeDecl(id, l) => lemma_touch_distinct(nodes, id, Some(l), grp),
        StmtV::Connection(f, t, _, _) => {
            lemma_touch_distinct(nodes, f, None, grp);
            lemma_touch_distinct(touch(nodes, f, None, grp), t, None, grp);
            lemma_touch(nodes, f, None, grp, f);
            lemma_touch(touch(nodes, f, None, grp), t, None, grp, f);
        },
        StmtV::NodeAttr(n, k, v) => {
            lemma_find_node(nodes, n);
            if let Some(i) = find_node(nodes, n) {
                if k == "icon"@ {
                    lemma_update_distinct(nodes, i, NodeV { icon: Some(trim_quotes(v)), ..nodes[i] });
                }
            }
        },
        StmtV::Style(n, ps) => {
            lemma_find_node(nodes, n);
            if let Some(i) = find_node(nodes, n) {
                lemma_apply_props_id(nodes[i], ps);
                lemma_update_distinct(nodes, i, apply_props(nodes[i], ps));
            }
        },
        _ => {},
    }
}

proof fn lemma_gather_group_facts(nodes: Seq<NodeV>, inner: Seq<StmtV>, g: Seq<char>, other: Seq<char>)
    requires
        ids_distinct(nodes),
    ensures
        ids_distinct(gather_group(nodes, inner, g)),
        find_node(nodes, other) is Some ==> find_node(gather_group(nodes, inner, g), other) == find_node(nodes, other),
    decreases inner.len(),
{
    if inner.len() > 0 {
        lemma_gather_group_facts(nodes, inner.drop_last(), g, other);
        let acc = gather_group(nodes, inner.drop_last(), g);
        lemma_gather_stmt_distinct(acc, inner.last(), Some(g));
        lemma_gather_stmt(acc, inner.last(), Some(g), other);
    }
}

/// The nodes after the first `k` statements: their ids are distinct, and
/// every id found there is found at the same index after all statements.
proof fn lemma_gather_facts(ss: Seq<StmtV>, k: int, other: Seq<char>)
    requires
        0 <= k <= ss.len(),
    ensures
        ids_distinct(gather(ss.take(k))),
        find_node(gather(ss.take(k)), other) is Some ==> find_node(gather(ss), other) == find_node(
            gather(ss.take(k)),
            other,
        ),
    decreases ss.len() - k,
{
    if k == ss.len() {
        assert(ss.take(k) =~= ss);
        lemma_gather_distinct_all(ss);
    } else {
        lemma_gather_facts(ss, k + 1, other);
        let pre = ss.take(k);
        let next = ss.take(k + 1);
        assert(next.drop_last() =~= pre);
        lemma_gather_distinct_all(pre);
        let acc = gather(pre);
        match ss[k] {
            StmtV::Group(g, inner) => lemma_gather_group_facts(acc, inner, g, other),
            st => lemma_gather_stmt(acc, st, None, other),
        }
    }
}

proof fn lemma_gather_distinct_all(ss: Seq<StmtV>)
    ensures
        ids_distinct(gather(ss)),
    decreases ss.len(),
{
    if ss.len() > 0 {
        lemma_gather_distinct_all(ss.drop_last());
        let acc = gather(ss.drop_last());
        match ss.last() {
            StmtV::Group(g, inner) => lemma_gather_group_facts(acc, inner, g, Seq::empty()),
            st => lemma_gather_stmt_distinct(acc, st, None),
        }
    }
}

/// The layout graph has one node per distinct node id: no two of its nodes
/// share an id.
pub proof fn law_node_ids_distinct(ss: Seq<StmtV>)
    ensures
        ids_distinct(gather(ss)),
{
    lemma_gather_distinct_all(ss);
}

/// Every top-level connection becomes exactly one edge.
pub proof fn law_every_connection_an_edge(ss: Seq<StmtV>)
    ensures
        edges_of(ss, gather(ss)).len() == top_connections(ss),
{
    lemma_edges_prefix(ss, ss.len() as int);
    assert(ss.take(ss.len() as int) =~= ss);
}

/// The top-level connections, in order: source id, target id, arrow and
/// label.
pub open spec fn connections(ss: Seq<StmtV>) -> Seq<(Seq<char>, Seq<char>, Arrow, Option<Seq<char>>)>
    decreases ss.len(),
{
    if ss.len() == 0 {
        Seq::empty()
    } else {
        let acc = connections(ss.drop_last());
        match ss.last() {
            StmtV::Connection(f, t, a, l) => acc.push((f, t, a, l)),
            _ => acc,
        }
    }
}

/// Edge `j` of the graph comes from the `j`-th top-level connection: it joins
/// the nodes whose ids are the connection's ends, and carries the
/// connection's label and arrow, whatever the arrow is.
pub open spec fn edge_matches(nodes: Seq<NodeV>, e: EdgeV, c: (Seq<char>, Seq<char>, Arrow, Option<Seq<char>>)) -> bool {
    &&& e.0 < nodes.len() && e.1 < nodes.len()
    &&& nodes[e.0 as int].id == c.0 && nodes[e.1 as int].id == c.1
    &&& e.2 == e.0 && e.3 == e.1
    &&& e.4 == c.3
    &&& e.5 == c.2
}

/// The edges follow the top-level connections one for one and in order:
/// each edge joins the nodes named by its connection and carries that
/// connection's label and arrow.
pub proof fn law_edges_follow_connections(ss: Seq<StmtV>)
    requires
        mentions(ss) < index_limit(),
    ensures
        edges_of(ss, gather(ss)).len() == connections(ss).len(),
        forall|j: int|
            0 <= j < connections(ss).len() ==> edge_matches(
                gather(ss),
                #[trigger] edges_of(ss, gather(ss))[j],
                connections(ss)[j],
            ),
{
    lemma_edges_follow(ss, ss.len() as int);
    assert(ss.take(ss.len() as int) =~= ss);
}

proof fn lemma_edges_follow(ss: Seq<StmtV>, k: int)
    requires
        0 <= k <= ss.len(),
        mentions(ss) < index_limit(),
    ensures
        edges_of(ss.take(k), gather(ss)).len() == connections(ss.take(k)).len(),
        forall|j: int|
            0 <= j < connections(ss.take(k)).len() ==> edge_matches(
                gather(ss),
                #[trigger] edges_of(ss.take(k), gather(ss))[j],
                connections(ss.take(k))[j],
            ),
    decreases k,
{
    if k > 0 {
        lemma_edges_follow(ss, k - 1);
        let pre = ss.take(k - 1);
        let cur = ss.take(k);
        assert(cur.drop_last() =~= pre);
        assert(cur.last() == ss[k - 1]);
        let nodes = gather(ss);
        if let StmtV::Connection(f, t, a, l) = ss[k - 1] {
            lemma_gather_distinct_all(pre);
            lemma_gather_stmt_distinct(gather(pre), ss[k - 1], None);
            assert(gather(cur) == gather_stmt(gather(pre), ss[k - 1], None));
            lemma_gather_facts(ss, k, f);
            lemma_gather_facts(ss, k, t);
            lemma_find_node(nodes, f);
            lemma_find_node(nodes, t);
            let x = find_node(nodes, f).unwrap();
            let y = find_node(nodes, t).unwrap();
            lemma_gather_len(ss);
            assert(x as usize as int == x && y as usize as int == y);
            assert(nodes[x].id == f && nodes[y].id == t);
            let es = edges_of(cur, nodes);
            let cs = connections(cur);
            assert(es == edges_of(pre, nodes).push((x as usize, y as usize, x as usize, y as usize, l, a)));
            assert(cs == connections(pre).push((f, t, a, l)));
            assert forall|j: int| 0 <= j < cs.len() implies edge_matches(nodes, #[trigger] es[j], cs[j]) by {
                if j < cs.len() - 1 {
                    assert(es[j] == edges_of(pre, nodes)[j]);
                    assert(cs[j] == connections(pre)[j]);
                }
            }
        } else {
            assert(edges_of(cur, nodes) == edges_of(pre, nodes));
            assert(connections(cur) == connections(pre));
        }
    }
}

/// Edges and connections counted over the first `k` statements, with the
/// nodes of all of them.
proof fn lemma_edges_prefix(ss: Seq<StmtV>, k: int)
    requires
        0 <= k <= ss.len(),
    ensures
        edges_of(ss.take(k), gather(ss)).len() == top_connections(ss.take(k)),
    decreases k,
{
    if k > 0 {
        lemma_edges_prefix(ss, k - 1);
        let pre = ss.take(k - 1);
        let cur = ss.take(k);
        assert(cur.drop_last() =~= pre);
        assert(cur.last() == ss[k - 1]);
        if let StmtV::Connection(f, t, _, _) = ss[k - 1] {
            lemma_gather_distinct_all(pre);
            lemma_gather_stmt_distinct(gather(pre), ss[k - 1], None);
            assert(gather(cur) == gather_stmt(gather(pre), ss[k - 1], None));
            lemma_gather_facts(ss, k, f);
            lemma_gather_facts(ss, k, t);
        }
    }
}

// ── Executable graph building ────────────────────────────────────────────────

/// Whether a diagram is small enough for the graph's `u32` indices: its
/// statements can make fewer node mentions than [`index_limit`].
pub fn fits_index_limit(diagram: &Diagram) -> (r: bool)
    ensures
        r == (mentions(stmts_view(diagram.stmts@)) < index_limit()),
{
    let ghost sv = stmts_view(diagram.stmts@);
    proof {
        lemma_stmts_view_len(diagram.stmts@);
    }
    let m = diagram.stmts.len();
    let mut total: u64 = 0;
    proof {
        assert(sv.take(0) =~= Seq::<StmtV>::empty());
    }
    for j in 0..m
        invariant
            m == diagram.stmts@.len() == sv.len(),
            sv == stmts_view(diagram.stmts@),
            forall|i: int| 0 <= i < m ==> #[trigger] sv[i] == stmt_view(diagram.stmts@[i]),
            total == mentions(sv.take(j as int)),
            total < index_limit(),
    {
        let ghost pre = sv.take(j as int);
        let ghost next = sv.take(j + 1);
        proof {
            assert(next.drop_last() =~= pre);
            assert(next.last() == stmt_view(diagram.stmts@[j as int]));
        }
        let add: u64 = match &diagram.stmts[j] {
            Stmt::Group(grp) => {
                proof {
                    lemma_stmts_view_len(grp.stmts@);
                }
                let k = grp.stmts.len() as u64;
                if k >= 0x8000_0000 {
                    proof {
                        lemma_mentions_prefix(sv, j + 1);
                    }
                    return false;
                }
                2 * k + 1
            },
            _ => 2,
        };
        total = total + add;
        if total >= 0xffff_ffff {
            proof {
                lemma_mentions_prefix(sv, j + 1);
            }
            return false;
        }
    }
    proof {
        assert(sv.take(m as int) =~= sv);
    }
    true
}

/// `ids` lists the id of each node of `g`, by index.
pub open spec fn ids_match(g: LayoutGraph, ids: Seq<String>) -> bool {
    &&& ids.len() == graph_nodes(g).len()
    &&& forall|i: int| 0 <= i < ids.len() ==> #[trigger] ids[i]@ == graph_nodes(g)[i].id@
}

fn clone_opt(o: &Option<String>) -> (r: Option<String>)
    ensures
        opt_view(r) == opt_view(*o),
{
    match o {
        Some(s) => Some(s.clone()),
        None => None,
    }
}

/// A deep copy of a layout node.
pub fn clone_layout_node(n: &LayoutNode) -> (r: LayoutNode)
    ensures
        node_view(r) == node_view(*n),
{
    LayoutNode {
        id: n.id.clone(),
        label: n.label.clone(),
        group: clone_opt(&n.group),
        icon: clone_opt(&n.icon),
        layer: n.layer,
        fill: n.fill.clone(),
        stroke: n.stroke.clone(),
        font_color: n.font_color.clone(),
    }
}

impl Default for LayoutNode {
    /// A node without id, label or group, in the default colours: a dark
    /// fill, a soft border and light text.
    fn default() -> (n: Self)
        ensures
            node_view(n) == default_node(Seq::empty(), Seq::empty(), None),
    {
        LayoutNode {
            id: String::new(),
            label: String::new(),
            group: None,
            icon: None,
            layer: 0,
            fill: String::from_str("#18181b"),
            stroke: String::from_str("#3f3f46"),
            font_color: String::from_str("#f4f4f5"),
        }
    }
}

fn new_node(id: &String, label: &String, grp: &Option<String>) -> (n: LayoutNode)
    ensures
        node_view(n) == default_node(id@, label@, opt_view(*grp)),
{
    let mut n = LayoutNode::default();
    n.id = id.clone();
    n.label = label.clone();
    n.group = clone_opt(grp);
    n
}

/// The index of the first node with the given id.
fn lookup(g: &LayoutGraph, ids: &Vec<String>, id: &String) -> (r: Option<usize>)
    requires
        ids_match(*g, ids@),
    ensures
        match r {
            Some(k) => find_node(nodes_view(*g), id@) == Some(k as int),
            None => find_node(nodes_view(*g), id@) == None::<int>,
        },
{
    let ghost nodes = nodes_view(*g);
    let n = ids.len();
    let mut i: usize = 0;
    assert(nodes.take(0) =~= Seq::<NodeV>::empty());
    while i < n
        invariant
            i <= n == ids@.len() == nodes.len(),
            nodes == nodes_view(*g),
            ids_match(*g, ids@),
            find_node(nodes.take(i as int), id@) == None::<int>,
        decreases n - i,
    {
        let ghost next = nodes.take(i + 1);
        assert(next.drop_last() =~= nodes.take(i as int));
        assert(next.last() == nodes[i as int]);
        assert(nodes[i as int].id == ids@[i as int]@);
        if ids[i] == *id {
            proof {
                lemma_find_node_prefix(nodes, id@, i + 1);
            }
            return Some(i);
        }
        i += 1;
    }
    assert(nodes.take(n as int) =~= nodes);
    None
}

proof fn lemma_nodes_view_update(g1: LayoutGraph, g2: LayoutGraph, k: int, n: LayoutNode)
    requires
        0 <= k < graph_nodes(g1).len(),
        graph_nodes(g2) == graph_nodes(g1).update(k, n),
    ensures
        nodes_view(g2) == nodes_view(g1).update(k, node_view(n)),
{
    assert(nodes_view(g2) =~= nodes_view(g1).update(k, node_view(n)));
}

proof fn lemma_nodes_view_push(g1: LayoutGraph, g2: LayoutGraph, n: LayoutNode)
    requires
        graph_nodes(g2) == graph_nodes(g1).push(n),
    ensures
        nodes_view(g2) == nodes_view(g1).push(node_view(n)),
{
    assert(nodes_view(g2) =~= nodes_view(g1).push(node_view(n)));
}

fn replace_node(g: &mut LayoutGraph, ids: &Vec<String>, k: usize, n: LayoutNode)
    requires
        ids_match(*old(g), ids@),
        k < graph_nodes(*old(g)).len(),
        n.id@ == graph_nodes(*old(g))[k as int].id@,
    ensures
        ids_match(*final(g), ids@),
        nodes_view(*final(g)) == nodes_view(*old(g)).update(k as int, node_view(n)),
        graph_edges(*final(g)) == graph_edges(*old(g)),
{
    let ghost g0 = *g;
    set_node(g, k, n);
    proof {
        lemma_nodes_view_update(g0, *g, k as int, n);
        assert forall|i: int| 0 <= i < ids@.len() implies #[trigger] ids@[i]@ == graph_nodes(*g)[i].id@ by {
            if i != k {
                assert(graph_nodes(*g)[i] == graph_nodes(g0)[i]);
            }
        }
    }
}


fn touch_exec(g: &mut LayoutGraph, ids: &mut Vec<String>, id: &String, label: Option<&String>, grp: &Option<String>)
    requires
        ids_match(*old(g), old(ids)@),
        graph_nodes(*old(g)).len() + 1 < index_limit(),
    ensures
        ids_match(*final(g), final(ids)@),
        nodes_view(*final(g)) == touch(
            nodes_view(*old(g)),
            id@,
            match label {
                Some(s) => Some(s@),
                None => None,
            },
            opt_view(*grp),
        ),
        graph_edges(*final(g)) == graph_edges(*old(g)),
{
    let ghost g0 = *g;
    match lookup(g, ids, id) {
        None => {
            let lbl = match label {
                Some(l) => l.clone(),
                None => id.clone(),
            };
            let n = new_node(id, &lbl, grp);
            add_node(g, n);
            ids.push(id.clone());
            proof {
                lemma_nodes_view_push(g0, *g, n);
                assert forall|i: int| 0 <= i < ids@.len() implies #[trigger] ids@[i]@ == graph_nodes(*g)[i].id@ by {
                    if i < ids@.len() - 1 {
                        assert(graph_nodes(*g)[i] == graph_nodes(g0)[i]);
                    }
                }
            }
        },
        Some(k) => {
            proof {
                lemma_find_node(nodes_view(g0), id@);
            }
            let mut n = clone_layout_node(node_at(g, k));
            match label {
                Some(l) => {
                    n.label = l.clone();
                },
                None => {},
            }
            match grp {
                Some(gr) => {
                    n.group = Some(gr.clone());
                },
                None => {},
            }
            replace_node(g, ids, k, n);
        },
    }
}

/// `s` without the double quotes at either end, as `str::trim_matches('"')`
/// computes it.
fn trim_quotes_exec(s: &String) -> (r: String)
    ensures
        r@ == trim_quotes(s@),
{
    let v = chars_of(s.as_str());
    let n = v.len();
    let mut lo: usize = 0;
    assert(v@.skip(0) =~= v@);
    while lo < n && v[lo] == '"'
        invariant
            lo <= n == v.len(),
            v@ == s@,
            trim_quotes_start(s@) == trim_quotes_start(v@.skip(lo as int)),
        decreases n - lo,
    {
        assert(v@.skip(lo as int).drop_first() =~= v@.skip(lo + 1));
        lo += 1;
    }
    assert(trim_quotes_start(v@.skip(lo as int)) == v@.skip(lo as int));
    let mut hi: usize = n;
    assert(v@.subrange(lo as int, n as int) =~= v@.skip(lo as int));
    while hi > lo && v[hi - 1] == '"'
        invariant
            lo <= hi <= n == v.len(),
            v@ == s@,
            trim_quotes(s@) == trim_quotes_end(v@.subrange(lo as int, hi as int)),
        decreases hi,
    {
        assert(v@.subrange(lo as int, hi as int).drop_last() =~= v@.subrange(lo as int, hi - 1));
        hi -= 1;
    }
    string_from(&v, lo, hi)
}

fn apply_prop_exec(n: &mut LayoutNode, p: &StyleProp)
    ensures
        node_view(*final(n)) == apply_prop(node_view(*old(n)), prop_view(*p)),
{
    let v = trim_quotes_exec(&p.value);
    let k = p.key.as_str();
    if str_eq(k, "fill") {
        n.fill = v;
    } else if str_eq(k, "stroke") {
        n.stroke = v;
    } else if str_eq(k, "font-color") {
        n.font_color = v;
    } else if str_eq(k, "icon") {
        n.icon = Some(v);
    }
}

fn gather_stmt_exec(g: &mut LayoutGraph, ids: &mut Vec<String>, s: &Stmt, grp: &Option<String>)
    requires
        ids_match(*old(g), old(ids)@),
        graph_nodes(*old(g)).len() + 2 < index_limit(),
    ensures
        ids_match(*final(g), final(ids)@),
        nodes_view(*final(g)) == gather_stmt(nodes_view(*old(g)), stmt_view(*s), opt_view(*grp)),
        graph_edges(*final(g)) == graph_edges(*old(g)),
{
    let ghost g0 = *g;
    match s {
        Stmt::Node(id) => {
            touch_exec(g, ids, &id.0, None, grp);
        },
        Stmt::NodeDecl(id, l) => {
            touch_exec(g, ids, &id.0, Some(l), grp);
        },
        Stmt::Connection(c) => {
            touch_exec(g, ids, &c.from.0, None, grp);
            proof {
                lemma_touch(nodes_view(g0), c.from.0@, None, opt_view(*grp), Seq::empty());
            }
            touch_exec(g, ids, &c.to.0, None, grp);
        },
        Stmt::NodeAttr(a) => {
            match lookup(g, ids, &a.node.0) {
                Some(i) => {
                    proof {
                        lemma_find_node(nodes_view(g0), a.node.0@);
                    }
                    if str_eq(a.key.as_str(), "icon") {
                        let mut n = clone_layout_node(node_at(g, i));
                        n.icon = Some(trim_quotes_exec(&a.value));
                        replace_node(g, ids, i, n);
                    }
                },
                None => {},
            }
        },
        Stmt::Style(st) => {
            match lookup(g, ids, &st.node.0) {
                Some(i) => {
                    proof {
                        lemma_find_node(nodes_view(g0), st.node.0@);
                    }
                    let mut n = clone_layout_node(node_at(g, i));
                    let ghost n0 = node_view(n);
                    let m = st.props.len();
                    for j in 0..m
                        invariant
                            m == st.props@.len(),
                            node_view(n) == apply_props(n0, props_view(st.props@).take(j as int)),
                    {
                        let ghost before = node_view(n);
                        apply_prop_exec(&mut n, &st.props[j]);
                        proof {
                            let all = props_view(st.props@);
                            assert(all.take(j + 1).drop_last() =~= all.take(j as int));
                            assert(all.take(j + 1).last() == prop_view(st.props@[j as int]));
                        }
                    }
                    assert(props_view(st.props@).take(m as int) =~= props_view(st.props@));
                    proof {
                        lemma_apply_props_id(n0, props_view(st.props@));
                    }
                    replace_node(g, ids, i, n);
                },
                None => {},
            }
        },
        Stmt::Group(_) => {},
    }
}

fn gather_group_exec(g: &mut LayoutGraph, ids: &mut Vec<String>, inner: &Vec<Stmt>, label: &String)
    requires
        ids_match(*old(g), old(ids)@),
        graph_nodes(*old(g)).len() + 2 * inner@.len() + 1 < index_limit(),
    ensures
        ids_match(*final(g), final(ids)@),
        nodes_view(*final(g)) == gather_group(nodes_view(*old(g)), stmts_view(inner@), label@),
        graph_edges(*final(g)) == graph_edges(*old(g)),
{
    let ghost n0 = nodes_view(*g);
    let ghost sv = stmts_view(inner@);
    proof {
        lemma_stmts_view_len(inner@);
    }
    let grp = Some(label.clone());
    let m = inner.len();
    assert(sv.take(0) =~= Seq::<StmtV>::empty());
    for j in 0..m
        invariant
            m == inner@.len() == sv.len(),
            sv == stmts_view(inner@),
            forall|i: int| 0 <= i < m ==> #[trigger] sv[i] == stmt_view(inner@[i]),
            opt_view(grp) == Some(label@),
            ids_match(*g, ids@),
            nodes_view(*g) == gather_group(n0, sv.take(j as int), label@),
            graph_nodes(*g).len() <= n0.len() + 2 * j,
            n0.len() + 2 * m + 1 < index_limit(),
            graph_edges(*g) == graph_edges(*old(g)),
    {
        let ghost before = nodes_view(*g);
        gather_stmt_exec(g, ids, &inner[j], &grp);
        proof {
            assert(sv.take(j + 1).drop_last() =~= sv.take(j as int));
            assert(sv.take(j + 1).last() == stmt_view(inner@[j as int]));
            lemma_gather_stmt(before, sv[j as int], Some(label@), Seq::empty());
            assert(nodes_view(*g).len() == graph_nodes(*g).len());
        }
    }
    assert(sv.take(m as int) =~= sv);
}

/// Builds the layout graph of a diagram: a node for every distinct node id
/// (labelled, grouped and styled by the statements that mention it) and an
/// edge for every top-level connection. Also gives the id of each node, by
/// index.
pub fn build_graph(diagram: &Diagram) -> (r: (LayoutGraph, Vec<String>))
    requires
        mentions(stmts_view(diagram.stmts@)) < index_limit(),
    ensures
        nodes_view(r.0) == gather(stmts_view(diagram.stmts@)),
        edges_view(r.0) == edges_of(stmts_view(diagram.stmts@), gather(stmts_view(diagram.stmts@))),
        ids_match(r.0, r.1@),
        edges_in_range(r.0),
        graph_nodes(r.0).len() <= mentions(stmts_view(diagram.stmts@)),
        edges_view(r.0).len() == connections(stmts_view(diagram.stmts@)).len(),
        forall|j: int|
            0 <= j < edges_view(r.0).len() ==> edge_matches(
                nodes_view(r.0),
                #[trigger] edges_view(r.0)[j],
                connections(stmts_view(diagram.stmts@))[j],
            ),
{
    let mut g = new_graph();
    let mut ids: Vec<String> = Vec::new();
    let ghost sv = stmts_view(diagram.stmts@);
    proof {
        lemma_stmts_view_len(diagram.stmts@);
        assert(nodes_view(g) =~= Seq::<NodeV>::empty());
        assert(sv.take(0) =~= Seq::<StmtV>::empty());
    }
    let m = diagram.stmts.len();
    for j in 0..m
        invariant
            m == diagram.stmts@.len() == sv.len(),
            sv == stmts_view(diagram.stmts@),
            forall|i: int| 0 <= i < m ==> #[trigger] sv[i] == stmt_view(diagram.stmts@[i]),
            mentions(sv) < index_limit(),
            ids_match(g, ids@),
            nodes_view(g) == gather(sv.take(j as int)),
            graph_edges(g) == Seq::<(usize, usize, LayoutEdge)>::empty(),
    {
        let ghost before = nodes_view(g);
        let ghost pre = sv.take(j as int);
        let ghost next = sv.take(j + 1);
        proof {
            assert(next.drop_last() =~= pre);
            assert(next.last() == stmt_view(diagram.stmts@[j as int]));
            lemma_gather_len(pre);
            lemma_mentions_prefix(sv, j + 1);
            assert(nodes_view(g).len() == graph_nodes(g).len());
        }
        match &diagram.stmts[j] {
            Stmt::Group(grp) => {
                proof {
                    assert(mentions(next) == mentions(pre) + 2 * grp.stmts@.len() + 1) by {
                        lemma_stmts_view_len(grp.stmts@);
                    }
                }
                gather_group_exec(&mut g, &mut ids, &grp.stmts, &grp.label);
            },
            s => {
                gather_stmt_exec(&mut g, &mut ids, s, &None);
            },
        }
    }
    assert(sv.take(m as int) =~= sv);
    let ghost nodes = nodes_view(g);
    proof {
        lemma_gather_len(sv);
        lemma_mentions_len(sv);
        assert(edges_view(g) =~= Seq::<EdgeV>::empty());
        assert(sv.take(0) =~= Seq::<StmtV>::empty());
    }
    for j in 0..m
        invariant
            m == diagram.stmts@.len() == sv.len(),
            sv == stmts_view(diagram.stmts@),
            forall|i: int| 0 <= i < m ==> #[trigger] sv[i] == stmt_view(diagram.stmts@[i]),
            m <= mentions(sv) < index_limit(),
            ids_match(g, ids@),
            nodes_view(g) == nodes,
            nodes == gather(sv),
            edges_view(g) == edges_of(sv.take(j as int), nodes),
            graph_edges(g).len() <= j,
            edges_in_range(g),
    {
        let ghost pre = sv.take(j as int);
        let ghost next = sv.take(j + 1);
        proof {
            assert(next.drop_last() =~= pre);
            assert(next.last() == stmt_view(diagram.stmts@[j as int]));
        }
        match &diagram.stmts[j] {
            Stmt::Connection(c) => {
                let a = lookup(&g, &ids, &c.from.0);
                let b = lookup(&g, &ids, &c.to.0);
                match (a, b) {
                    (Some(x), Some(y)) => {
                        proof {
                            lemma_find_node(nodes, c.from.0@);
                            lemma_find_node(nodes, c.to.0@);
                        }
                        let label = clone_opt(&c.label);
                        let ghost g0 = g;
                        add_edge(&mut g, x, y, LayoutEdge { source: x, target: y, label, kind: c.arrow });
                        proof {
                            assert(nodes_view(g) =~= nodes_view(g0));
                            assert forall|e: int| 0 <= e < graph_edges(g).len() implies (#[trigger] graph_edges(g)[e]).0 < graph_nodes(g).len()
                                && graph_edges(g)[e].1 < graph_nodes(g).len() by {
                                if e < graph_edges(g0).len() {
                                    assert(graph_edges(g)[e] == graph_edges(g0)[e]);
                                }
                            }
                            assert(edges_view(g) =~= edges_view(g0).push((x, y, x, y, label_opt(&c.label), c.arrow)));
                        }
                    },
                    _ => {},
                }
            },
            _ => {},
        }
    }
    assert(sv.take(m as int) =~= sv);
    proof {
        law_edges_follow_connections(sv);
    }
    (g, ids)
}

spec fn label_opt(l: &Option<String>) -> Option<Seq<char>> {
    opt_view(*l)
}

} // verus!
