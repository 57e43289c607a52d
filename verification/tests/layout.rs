use aerial::ast::Arrow;
use aerial::graph::{build_graph, fits_index_limit, LayoutEdge, LayoutGraph, LayoutNode};
use petgraph::graph::{EdgeIndex, NodeIndex};
use aerial::parser::parse;
use aerial::rows::{layer_rows, RowSlot};
use aerial::sugiyama::{assign_layers, layout};

fn graph_of(source: &str) -> (LayoutGraph, Vec<String>) {
    let d = parse(source).unwrap();
    assert!(fits_index_limit(&d));
    build_graph(&d)
}

fn node_at(g: &LayoutGraph, i: usize) -> &LayoutNode {
    &g[NodeIndex::new(i)]
}

fn node_count(g: &LayoutGraph) -> usize {
    g.node_count()
}

fn edge_count(g: &LayoutGraph) -> usize {
    g.edge_count()
}

fn edge_endpoints(g: &LayoutGraph, e: usize) -> (usize, usize) {
    let (a, b) = g.edge_endpoints(EdgeIndex::new(e)).unwrap();
    (a.index(), b.index())
}

fn index_of(ids: &[String], id: &str) -> usize {
    ids.iter().position(|s| s == id).unwrap()
}

fn layer(g: &LayoutGraph, ids: &[String], id: &str) -> usize {
    node_at(g, index_of(ids, id)).layer
}

fn row_ids(row: &[RowSlot], ids: &[String]) -> Vec<String> {
    row.iter().map(|s| ids[s.node].clone()).collect()
}

const LAYOUT_SAMPLE: &str = r##"
@type: architecture

[user] --> [api_gateway]: HTTPS
[api_gateway] --> [auth_service]: validate
[api_gateway] --> [inference_node]

style [inference_node] {
  fill: "#6366f1"
  font-color: "#ffffff"
}
"##;

#[test]
fn builds_nodes_and_edges_of_layout_sample() {
    let (g, ids) = graph_of(LAYOUT_SAMPLE);
    assert_eq!(ids, vec!["user", "api_gateway", "auth_service", "inference_node"]);
    assert_eq!(node_count(&g), 4);
    assert_eq!(edge_count(&g), 3);
    assert_eq!(edge_endpoints(&g, 0), (0, 1));
    assert_eq!(edge_endpoints(&g, 1), (1, 2));
    assert_eq!(edge_endpoints(&g, 2), (1, 3));
    let inference = node_at(&g, 3);
    assert_eq!(inference.id, "inference_node");
    assert_eq!(inference.label, "inference_node");
    assert_eq!(inference.fill, "#6366f1");
    assert_eq!(inference.font_color, "#ffffff");
    assert_eq!(inference.stroke, "#3f3f46");
    let user = node_at(&g, 0);
    assert_eq!(user.fill, "#18181b");
    assert_eq!(user.font_color, "#f4f4f5");
    assert_eq!(user.group, None);
    assert_eq!(user.icon, None);
}

#[test]
fn edge_weights_keep_label_and_arrow() {
    let (g, _) = graph_of("[a] -..-> [b]: async call\n[b] <-> [c]\n");
    let e0 = &g[EdgeIndex::new(0)];
    assert_eq!(e0.label.as_deref(), Some("async call"));
    assert_eq!(e0.kind, Arrow::Async);
    assert_eq!((e0.source, e0.target), (0, 1));
    let e1 = &g[EdgeIndex::new(1)];
    assert_eq!(e1.label, None);
    assert_eq!(e1.kind, Arrow::Bidirectional);
}

#[test]
fn declarations_groups_and_icons_reach_the_nodes() {
    let src = "[db]: \"Main DB\"\ngroup \"Storage\" {\n  [db]\n  [blob]: \"Blobs\"\n}\n[db].icon: \"database\"\nstyle [blob] {\n  icon: s3\n  stroke: \"#000\"\n}\n";
    let (g, ids) = graph_of(src);
    assert_eq!(ids, vec!["db", "blob"]);
    let db = node_at(&g, 0);
    assert_eq!(db.label, "Main DB");
    assert_eq!(db.group.as_deref(), Some("Storage"));
    assert_eq!(db.icon.as_deref(), Some("database"));
    let blob = node_at(&g, 1);
    assert_eq!(blob.label, "Blobs");
    assert_eq!(blob.icon.as_deref(), Some("s3"));
    assert_eq!(blob.stroke, "#000");
    assert_eq!(edge_count(&g), 0);
}

#[test]
fn connections_inside_groups_add_no_edges() {
    let (g, ids) = graph_of("group \"G\" {\n  [a] --> [b]\n}\n");
    assert_eq!(ids, vec!["a", "b"]);
    assert_eq!(edge_count(&g), 0);
    assert_eq!(node_at(&g, 1).group.as_deref(), Some("G"));
}

#[test]
fn layers_follow_longest_paths() {
    let (mut g, ids) = graph_of(LAYOUT_SAMPLE);
    let extra = assign_layers(&mut g);
    assert_eq!(layer(&g, &ids, "user"), 0);
    assert_eq!(layer(&g, &ids, "api_gateway"), 1);
    assert_eq!(layer(&g, &ids, "auth_service"), 2);
    assert_eq!(layer(&g, &ids, "inference_node"), 2);
    assert_eq!(extra, 3);
}

#[test]
fn longest_path_wins_over_shortcut() {
    let (mut g, ids) = graph_of("[a] --> [b]\n[b] --> [c]\n[a] --> [c]\n[c] --> [d]\n");
    assign_layers(&mut g);
    assert_eq!(layer(&g, &ids, "a"), 0);
    assert_eq!(layer(&g, &ids, "b"), 1);
    assert_eq!(layer(&g, &ids, "c"), 2);
    assert_eq!(layer(&g, &ids, "d"), 3);
}

#[test]
fn nodes_on_a_cycle_go_below_settled_ones() {
    let (mut g, ids) = graph_of("[a] --> [b]\n[b] --> [a]\n[c] --> [a]\n");
    let extra = assign_layers(&mut g);
    assert_eq!(extra, 2);
    assert_eq!(layer(&g, &ids, "c"), 0);
    assert_eq!(layer(&g, &ids, "a"), 2);
    assert_eq!(layer(&g, &ids, "b"), 2);
}

#[test]
fn cycle_reached_from_a_settled_node_goes_to_the_bottom() {
    let mut g = LayoutGraph::new();
    let names = ["a", "b", "c", "d", "e"];
    let idx: Vec<NodeIndex> = names
        .iter()
        .map(|n| {
            let mut node = LayoutNode::default();
            node.id = n.to_string();
            node.label = n.to_string();
            g.add_node(node)
        })
        .collect();
    for (s, t) in [(0, 1), (1, 2), (2, 1), (0, 3), (3, 4)] {
        g.add_edge(idx[s], idx[t], LayoutEdge { source: s, target: t, label: None, kind: Arrow::Directed });
    }
    let rows = layout(&mut g);
    assert_eq!(rows.len(), 4);
    assert_eq!(node_at(&g, 0).layer, 0);
    assert_eq!(node_at(&g, 3).layer, 1);
    assert_eq!(node_at(&g, 4).layer, 2);
    assert_eq!(node_at(&g, 1).layer, 3);
    assert_eq!(node_at(&g, 2).layer, 3);
    let bottom: Vec<usize> = rows[3].iter().map(|s| s.node).collect();
    assert_eq!(bottom, vec![1, 2]);
}

#[test]
fn self_loop_goes_to_extra_layer() {
    let (mut g, ids) = graph_of("[a] --> [a]\n");
    let extra = assign_layers(&mut g);
    assert_eq!(extra, 1);
    assert_eq!(layer(&g, &ids, "a"), 1);
    let rows = layer_rows(&g, extra);
    assert_eq!(rows.len(), 2);
    assert!(rows[0].is_empty());
    assert_eq!(row_ids(&rows[1], &ids), vec!["a"]);
}

#[test]
fn repeated_edges_count_once_each() {
    let (mut g, ids) = graph_of("[a] --> [b]\n[a] --> [b]\n");
    let extra = assign_layers(&mut g);
    assert_eq!(layer(&g, &ids, "b"), 1);
    assert_eq!(extra, 2);
}

#[test]
fn graph_without_edges_is_one_layer() {
    let (mut g, ids) = graph_of("[a]\n[b]\n");
    let rows = layout(&mut g);
    assert_eq!(rows.len(), 2);
    assert_eq!(row_ids(&rows[0], &ids), vec!["a", "b"]);
    assert!(rows[1].is_empty());
}

#[test]
fn empty_graph_gets_no_rows() {
    let (mut g, _) = graph_of("@type: empty\n");
    let rows = layout(&mut g);
    assert!(rows.is_empty());
    assert_eq!(node_count(&g), 0);
}

#[test]
fn rows_cluster_groups_in_name_order() {
    let src = "group \"beta\" {\n  [b1]\n}\n[plain]\ngroup \"alpha\" {\n  [a1]\n  [a2]\n}\ngroup \"beta\" {\n  [b2]\n}\n";
    let (mut g, ids) = graph_of(src);
    let rows = layout(&mut g);
    assert_eq!(rows.len(), 2);
    assert_eq!(row_ids(&rows[0], &ids), vec!["plain", "a1", "a2", "b1", "b2"]);
    let gaps: Vec<bool> = rows[0].iter().map(|s| s.gap_before).collect();
    assert_eq!(gaps, vec![false, false, false, true, false]);
}

#[test]
fn ungrouped_node_after_empty_group_name_is_set_apart() {
    let (mut g, ids) = graph_of("group \"\" {\n  [a]\n}\n[c]\n");
    let rows = layout(&mut g);
    assert_eq!(row_ids(&rows[0], &ids), vec!["a", "c"]);
    assert!(!rows[0][0].gap_before);
    assert!(rows[0][1].gap_before);
}

#[test]
fn layout_rows_of_sample() {
    let (mut g, ids) = graph_of(LAYOUT_SAMPLE);
    let rows = layout(&mut g);
    assert_eq!(rows.len(), 4);
    assert_eq!(row_ids(&rows[0], &ids), vec!["user"]);
    assert_eq!(row_ids(&rows[1], &ids), vec!["api_gateway"]);
    assert_eq!(row_ids(&rows[2], &ids), vec!["auth_service", "inference_node"]);
    assert!(rows[3].is_empty());
    assert!(rows.iter().flatten().all(|s| !s.gap_before));
}

#[test]
fn every_edge_from_a_settled_node_leads_down() {
    let (mut g, _) = graph_of("[a] --> [b]\n[b] --> [c]\n[a] --> [c]\n[c] --> [a]\n[d] --> [b]\n");
    assign_layers(&mut g);
    // d is the only source; everything else sits on the cycle a -> b -> c -> a.
    assert_eq!(node_at(&g, 3).layer, 0);
    let (_, b) = edge_endpoints(&g, 4);
    assert!(node_at(&g, b).layer >= 1);
}

#[test]
fn one_node_per_id_and_one_edge_per_connection() {
    let (g, ids) = graph_of("[a] --> [b]\n[a] --> [b]: again\n[b]: \"Bee\"\n[a]\n[b] -- [a]\n");
    assert_eq!(ids, vec!["a", "b"]);
    assert_eq!(node_count(&g), 2);
    assert_eq!(edge_count(&g), 3);
    assert_eq!(edge_endpoints(&g, 2), (1, 0));
    assert_eq!(node_at(&g, 1).label, "Bee");
}

#[test]
fn default_node_colours() {
    let n = LayoutNode::default();
    assert_eq!(n.id, "");
    assert_eq!(n.label, "");
    assert_eq!(n.group, None);
    assert_eq!(n.icon, None);
    assert_eq!(n.layer, 0);
    assert_eq!(n.fill, "#18181b");
    assert_eq!(n.stroke, "#3f3f46");
    assert_eq!(n.font_color, "#f4f4f5");
}
