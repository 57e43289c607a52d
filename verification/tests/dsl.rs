use aerial::ast::{Arrow, Connection, Diagram, Group, MetaEntry, NodeAttr, NodeId, Stmt, StyleBlock, StyleProp};
use aerial::diagram::{relabel_node, update_diagram_node};
use aerial::error::ArasError;
use aerial::parser::parse;
use aerial::printer::print;

const SAMPLE: &str = r##"
@type: architecture
@theme: midnight

[user] --> [api_gateway]: HTTPS
[api_gateway] --> [auth_service]: validate_token
[api_gateway] --> [inference_node]: forward_request

[inference_node].hardware: Snapdragon X Elite
[inference_node].model: rustama-engine/qwen2.5

group "Edge Cluster" {
  [inference_node]
  [cache]
}

style [inference_node] {
  fill: "#6366f1"
  font-color: "#ffffff"
}
"##;

fn id(s: &str) -> NodeId {
    NodeId(s.to_string())
}

fn conn(a: &str, b: &str, arrow: Arrow, label: Option<&str>) -> Stmt {
    Stmt::Connection(Connection { from: id(a), to: id(b), arrow, label: label.map(|l| l.to_string()) })
}

fn meta(k: &str, v: &str) -> MetaEntry {
    MetaEntry { key: k.to_string(), value: v.to_string() }
}

fn prop(k: &str, v: &str) -> StyleProp {
    StyleProp { key: k.to_string(), value: v.to_string() }
}

fn sample_diagram() -> Diagram {
    Diagram {
        meta: vec![meta("type", "architecture"), meta("theme", "midnight")],
        stmts: vec![
            conn("user", "api_gateway", Arrow::Directed, Some("HTTPS")),
            conn("api_gateway", "auth_service", Arrow::Directed, Some("validate_token")),
            conn("api_gateway", "inference_node", Arrow::Directed, Some("forward_request")),
            Stmt::NodeAttr(NodeAttr { node: id("inference_node"), key: "hardware".to_string(), value: "Snapdragon X Elite".to_string() }),
            Stmt::NodeAttr(NodeAttr { node: id("inference_node"), key: "model".to_string(), value: "rustama-engine/qwen2.5".to_string() }),
            Stmt::Group(Group { label: "Edge Cluster".to_string(), stmts: vec![Stmt::Node(id("inference_node")), Stmt::Node(id("cache"))] }),
            Stmt::Style(StyleBlock { node: id("inference_node"), props: vec![prop("fill", "\"#6366f1\""), prop("font-color", "\"#ffffff\"")] }),
        ],
    }
}

fn detail(e: ArasError) -> String {
    match e {
        ArasError::Parse(m) => m,
    }
}

#[test]
fn parses_sample_architecture() {
    let d = parse(SAMPLE).expect("Failed to parse");
    assert_eq!(d, sample_diagram());
}

#[test]
fn sample_keeps_edge_labels_group_and_style() {
    let d = parse(SAMPLE).unwrap();
    assert!(d.stmts.contains(&conn("user", "api_gateway", Arrow::Directed, Some("HTTPS"))));
    assert!(d.stmts.iter().any(|s| matches!(s, Stmt::Group(g) if g.label == "Edge Cluster")));
    assert!(d.stmts.iter().any(|s| matches!(s, Stmt::Style(st) if st.node == id("inference_node") && st.props[0] == prop("fill", "\"#6366f1\""))));
}

#[test]
fn parses_every_arrow() {
    let d = parse("[a] --> [b]\n[a] <-- [b]\n[a] <-> [b]\n[a] -- [b]\n[a] -..-> [b]: later\n").unwrap();
    assert_eq!(
        d.stmts,
        vec![
            conn("a", "b", Arrow::Directed, None),
            conn("a", "b", Arrow::Reverse, None),
            conn("a", "b", Arrow::Bidirectional, None),
            conn("a", "b", Arrow::Undirected, None),
            conn("a", "b", Arrow::Async, Some("later")),
        ]
    );
}

#[test]
fn parses_declarations_with_and_without_quotes() {
    let d = parse("[db]: \"Main Database\"\n[cache]: Redis\n[solo]\n").unwrap();
    assert_eq!(
        d.stmts,
        vec![
            Stmt::NodeDecl(id("db"), "Main Database".to_string()),
            Stmt::NodeDecl(id("cache"), "Redis".to_string()),
            Stmt::Node(id("solo")),
        ]
    );
    assert!(d.meta.is_empty());
}

#[test]
fn metadata_value_is_unquoted() {
    let d = parse("@title: \"My Board\"\n").unwrap();
    assert_eq!(d.meta, vec![meta("title", "My Board")]);
    assert!(d.stmts.is_empty());
}

#[test]
fn empty_source_is_an_empty_diagram() {
    let d = parse("").unwrap();
    assert!(d.meta.is_empty() && d.stmts.is_empty());
    let d = parse("\n   \n\t\n").unwrap();
    assert!(d.meta.is_empty() && d.stmts.is_empty());
}

#[test]
fn unclosed_group_is_rejected() {
    let e = parse("group \"G\" {\n  [a]\n").unwrap_err();
    assert_eq!(detail(e), "missing '}' at end of block");
}

#[test]
fn unclosed_style_is_rejected() {
    let e = parse("style [a] {\n  fill: red\n").unwrap_err();
    assert_eq!(detail(e), "missing '}' at end of block");
}

#[test]
fn stray_close_is_rejected() {
    let e = parse("[a]\n}\n").unwrap_err();
    assert_eq!(detail(e), "unexpected '}'");
}

#[test]
fn garbage_line_is_rejected() {
    let e = parse("[a] ==> [b]\n").unwrap_err();
    assert_eq!(detail(e), "invalid statement");
    let e = parse("hello world\n").unwrap_err();
    assert_eq!(detail(e), "invalid statement");
}

#[test]
fn error_message_has_prefix() {
    let e = parse("}\n").unwrap_err();
    assert_eq!(e.message(), "Parse Error: unexpected '}'");
}

#[test]
fn prints_sample_diagram() {
    let text = print(&sample_diagram());
    let expected = "@type: architecture\n@theme: midnight\n\n\
[user] --> [api_gateway]: HTTPS\n\
[api_gateway] --> [auth_service]: validate_token\n\
[api_gateway] --> [inference_node]: forward_request\n\
[inference_node].hardware: Snapdragon X Elite\n\
[inference_node].model: rustama-engine/qwen2.5\n\
group \"Edge Cluster\" {\n  [inference_node]\n  [cache]\n}\n\
style [inference_node] {\n  fill: \"#6366f1\"\n  font-color: \"#ffffff\"\n}\n";
    assert_eq!(text, expected);
}

#[test]
fn prints_nested_indentation_and_declarations() {
    let d = Diagram {
        meta: vec![],
        stmts: vec![
            Stmt::Group(Group {
                label: "Outer".to_string(),
                stmts: vec![
                    Stmt::NodeDecl(id("a"), "Alpha".to_string()),
                    Stmt::Style(StyleBlock { node: id("a"), props: vec![prop("fill", "red")] }),
                ],
            }),
            conn("a", "b", Arrow::Async, None),
        ],
    };
    assert_eq!(
        print(&d),
        "group \"Outer\" {\n  [a]: \"Alpha\"\n  style [a] {\n    fill: red\n  }\n}\n[a] -..-> [b]\n"
    );
}

#[test]
fn print_of_empty_diagram_is_empty() {
    assert_eq!(print(&Diagram { meta: vec![], stmts: vec![] }), "");
}

#[test]
fn parse_of_print_gives_back_the_diagram() {
    let d = sample_diagram();
    assert_eq!(parse(&print(&d)).unwrap(), d);
    let d2 = parse("[x]: \"X\"\n[x] <-> [y]: both ways\n").unwrap();
    assert_eq!(parse(&print(&d2)).unwrap(), d2);
}

#[test]
fn relabel_changes_existing_declaration() {
    let mut d = parse("[a]: \"Old\"\n[a] --> [b]\n").unwrap();
    relabel_node(&mut d, &"a".to_string(), &"New".to_string());
    assert_eq!(d.stmts[0], Stmt::NodeDecl(id("a"), "New".to_string()));
    assert_eq!(d.stmts.len(), 2);
}

#[test]
fn update_relabels_declaration_inside_group() {
    let out = update_diagram_node(
        "group \"G\" {\n  [a]: \"Old\"\n}\n".to_string(),
        "a".to_string(),
        "New".to_string(),
    )
    .unwrap();
    assert_eq!(out, "group \"G\" {\n  [a]: \"New\"\n}\n");
}

#[test]
fn update_promotes_bare_node() {
    let out = update_diagram_node("[a]\n[b]\n".to_string(), "b".to_string(), "Bee".to_string()).unwrap();
    assert_eq!(out, "[a]\n[b]: \"Bee\"\n");
}

#[test]
fn update_adds_declaration_on_top() {
    let out = update_diagram_node("@type: flow\n\n[a] --> [b]\n".to_string(), "b".to_string(), "Bee".to_string()).unwrap();
    assert_eq!(out, "@type: flow\n\n[b]: \"Bee\"\n[a] --> [b]\n");
}

#[test]
fn update_twice_is_same_as_once() {
    let once = update_diagram_node("[a] --> [b]\n".to_string(), "b".to_string(), "Bee".to_string()).unwrap();
    let twice = update_diagram_node(once.clone(), "b".to_string(), "Bee".to_string()).unwrap();
    assert_eq!(once, twice);
}

#[test]
fn update_reports_parse_failure() {
    let err = update_diagram_node("}\n".to_string(), "a".to_string(), "A".to_string()).unwrap_err();
    assert_eq!(err, "Failed to parse diagram: Parse Error: unexpected '}'");
}

#[test]
fn printing_distributes_over_statements_and_metadata() {
    let d = sample_diagram();
    let whole = print(&Diagram { meta: vec![], stmts: sample_diagram().stmts });
    let p1 = print(&Diagram { meta: vec![], stmts: sample_diagram().stmts.into_iter().take(3).collect() });
    let p2 = print(&Diagram { meta: vec![], stmts: sample_diagram().stmts.into_iter().skip(3).collect() });
    assert_eq!(whole, p1 + &p2);
    let meta_only = print(&Diagram { meta: d.meta.clone(), stmts: vec![] });
    assert_eq!(meta_only, "@type: architecture\n@theme: midnight\n\n");
    assert_eq!(print(&d), meta_only + &whole);
}

#[test]
fn test_parse_and_transpile() {
    let source = r##"
@type: architecture
@theme: midnight

[user] --> [api_gateway]: HTTPS
[api_gateway] --> [auth_service]: validate_token
[api_gateway] --> [inference_node]: forward_request

[inference_node].hardware: Snapdragon X Elite
[inference_node].model: rustama-engine/qwen2.5

group "Edge Cluster" {
  [inference_node]
  [cache]
}

style [inference_node] {
  fill: "#6366f1"
  font-color: "#ffffff"
}
"##;
    let ast = parse(source).expect("Failed to parse");
    // The same three facts that the transpiled text is checked for, read on
    // the syntax tree: the labelled edge, the group and the fill colour.
    assert!(ast.stmts.contains(&conn("user", "api_gateway", Arrow::Directed, Some("HTTPS"))));
    assert!(ast.stmts.iter().any(|s| matches!(s, Stmt::Group(g) if g.label == "Edge Cluster")));
    assert!(ast.stmts.iter().any(|s| matches!(s, Stmt::Style(st)
        if st.node == id("inference_node") && st.props.contains(&prop("fill", "\"#6366f1\"")))));
}
