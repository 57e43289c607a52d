//! Syntax tree of a parsed `.aras` diagram, with its mathematical view.
use vstd::prelude::*;

verus! {

/// The root of every parsed `.aras` file.
#[derive(Debug, Clone, PartialEq)]
pub struct Diagram {
    /// `@type`, `@theme`, `@direction`, `@title`, ...
    pub meta: Vec<MetaEntry>,
    /// Top-level statements (nodes, edges, groups, style blocks).
    pub stmts: Vec<Stmt>,
}

/// A `@key: value` metadata entry.
#[derive(Debug, Clone, PartialEq)]
pub struct MetaEntry {
    pub key: String,
    pub value: String,
}

/// Every construct that can appear at diagram scope or inside a group.
#[derive(Debug, PartialEq)]
pub enum Stmt {
    /// `[node_id]`, a bare node mention
    Node(NodeId),
    /// `[node_id]: "Display Label"`
    NodeDecl(NodeId, String),
    /// `[node].key: value`
    NodeAttr(NodeAttr),
    /// `[a] --> [b]: label`
    Connection(Connection),
    /// `group "Name" { ... }`
    Group(Group),
    /// `style [node] { fill: "#fff" }`
    Style(StyleBlock),
}

/// A node identifier: the raw text inside `[...]`.
#[derive(Debug, Clone, PartialEq, Eq, Hash)]
pub struct NodeId(pub String);

/// `[node].key: value`
#[derive(Debug, Clone, PartialEq)]
pub struct NodeAttr {
    pub node: NodeId,
    pub key: String,
    pub value: String,
}

/// An edge between two nodes.
#[derive(Debug, Clone, PartialEq)]
pub struct Connection {
    pub from: NodeId,
    pub to: NodeId,
    pub arrow: Arrow,
    /// Optional edge label.
    pub label: Option<String>,
}

/// Arrow direction / style variants.
#[derive(Debug, Clone, Copy, PartialEq, Eq, Structural)]
pub enum Arrow {
    /// `-->`
    Directed,
    /// `<--`
    Reverse,
    /// `<->`
    Bidirectional,
    /// `--`
    Undirected,
    /// `-..->`, async / dashed
    Async,
}

/// `group "Name" { stmts }`
#[derive(Debug, PartialEq)]
pub struct Group {
    pub label: String,
    pub stmts: Vec<Stmt>,
}

/// `style [node] { prop: value }`
#[derive(Debug, Clone, PartialEq)]
pub struct StyleBlock {
    pub node: NodeId,
    pub props: Vec<StyleProp>,
}

/// One `key: value` inside a style block.
#[derive(Debug, Clone, PartialEq)]
pub struct StyleProp {
    pub key: String,
    pub value: String,
}

// ── Mathematical model ───────────────────────────────────────────────────────

/// A key/value pair as text: used for metadata entries and style properties.
pub type PairV = (Seq<char>, Seq<char>);

/// The model of a statement: every string replaced by its characters.
pub enum StmtV {
    Node(Seq<char>),
    NodeDecl(Seq<char>, Seq<char>),
    NodeAttr(Seq<char>, Seq<char>, Seq<char>),
    Connection(Seq<char>, Seq<char>, Arrow, Option<Seq<char>>),
    Group(Seq<char>, Seq<StmtV>),
    Style(Seq<char>, Seq<PairV>),
}

/// The model of a diagram.
pub struct DiagramV {
    pub meta: Seq<PairV>,
    pub stmts: Seq<StmtV>,
}

/// A metadata entry as a key/value pair of texts.
pub open spec fn meta_view(m: MetaEntry) -> PairV {
    (m.key@, m.value@)
}

/// A style property as a key/value pair of texts.
pub open spec fn prop_view(p: StyleProp) -> PairV {
    (p.key@, p.value@)
}

/// Metadata entries as key/value pairs of texts.
pub open spec fn metas_view(ms: Seq<MetaEntry>) -> Seq<PairV> {
    ms.map_values(|m: MetaEntry| meta_view(m))
}

/// Style properties as key/value pairs of texts.
pub open spec fn props_view(ps: Seq<StyleProp>) -> Seq<PairV> {
    ps.map_values(|p: StyleProp| prop_view(p))
}

/// An optional label as optional text.
pub open spec fn label_view(l: Option<String>) -> Option<Seq<char>> {
    match l {
        Some(s) => Some(s@),
        None => None,
    }
}

/// A statement with every string replaced by its characters.
pub open spec fn stmt_view(s: Stmt) -> StmtV
    decreases s,
{
    match s {
        Stmt::Node(id) => StmtV::Node(id.0@),
        Stmt::NodeDecl(id, label) => StmtV::NodeDecl(id.0@, label@),
        Stmt::NodeAttr(a) => StmtV::NodeAttr(a.node.0@, a.key@, a.value@),
        Stmt::Connection(c) => StmtV::Connection(c.from.0@, c.to.0@, c.arrow, label_view(c.label)),
        Stmt::Group(g) => StmtV::Group(g.label@, stmts_view(g.stmts@)),
        Stmt::Style(st) => StmtV::Style(st.node.0@, props_view(st.props@)),
    }
}

/// Statements with every string replaced by its characters.
pub open spec fn stmts_view(ss: Seq<Stmt>) -> Seq<StmtV>
    decreases ss,
{
    if ss.len() == 0 {
        Seq::empty()
    } else {
        stmts_view(ss.subrange(0, ss.len() - 1)).push(stmt_view(ss[ss.len() - 1]))
    }
}

impl View for Stmt {
    type V = StmtV;

    open spec fn view(&self) -> StmtV {
        stmt_view(*self)
    }
}

impl View for Diagram {
    type V = DiagramV;

    open spec fn view(&self) -> DiagramV {
        DiagramV { meta: metas_view(self.meta@), stmts: stmts_view(self.stmts@) }
    }
}

pub(crate) proof fn lemma_stmts_view_len(ss: Seq<Stmt>)
    ensures
        stmts_view(ss).len() == ss.len(),
        forall|i: int| 0 <= i < ss.len() ==> #[trigger] stmts_view(ss)[i] == stmt_view(ss[i]),
    decreases ss.len(),
{
    if ss.len() > 0 {
        lemma_stmts_view_len(ss.subrange(0, ss.len() - 1));
    }
}

/// A deep copy of a node id.
pub fn clone_node_id(id: &NodeId) -> (r: NodeId)
    ensures
        r.0@ == id.0@,
{
    NodeId(id.0.clone())
}

fn clone_props(ps: &Vec<StyleProp>) -> (r: Vec<StyleProp>)
    ensures
        props_view(r@) == props_view(ps@),
{
    let mut r: Vec<StyleProp> = Vec::new();
    for i in 0..ps.len()
        invariant
            r@.len() == i,
            forall|j: int| 0 <= j < i ==> #[trigger] prop_view(r@[j]) == prop_view(ps@[j]),
    {
        r.push(StyleProp { key: ps[i].key.clone(), value: ps[i].value.clone() });
    }
    assert(props_view(r@) =~= props_view(ps@));
    r
}

/// A deep copy of a statement.
pub fn clone_stmt(s: &Stmt) -> (r: Stmt)
    ensures
        r@ == s@,
    decreases s,
{
    match s {
        Stmt::Node(id) => Stmt::Node(clone_node_id(id)),
        Stmt::NodeDecl(id, label) => Stmt::NodeDecl(clone_node_id(id), label.clone()),
        Stmt::NodeAttr(a) => Stmt::NodeAttr(
            NodeAttr { node: clone_node_id(&a.node), key: a.key.clone(), value: a.value.clone() },
        ),
        Stmt::Connection(c) => {
            let label = match &c.label {
                Some(l) => Some(l.clone()),
                None => None,
            };
            Stmt::Connection(
                Connection {
                    from: clone_node_id(&c.from),
                    to: clone_node_id(&c.to),
                    arrow: c.arrow,
                    label,
                },
            )
        },
        Stmt::Group(g) => {
            let stmts = clone_stmts(&g.stmts);
            Stmt::Group(Group { label: g.label.clone(), stmts })
        },
        Stmt::Style(st) => Stmt::Style(
            StyleBlock { node: clone_node_id(&st.node), props: clone_props(&st.props) },
        ),
    }
}

/// A deep copy of a list of statements.
pub fn clone_stmts(ss: &Vec<Stmt>) -> (r: Vec<Stmt>)
    ensures
        stmts_view(r@) == stmts_view(ss@),
    decreases ss,
{
    let mut r: Vec<Stmt> = Vec::new();
    let n = ss.len();
    for i in 0..n
        invariant
            n == ss@.len(),
            r@.len() == i,
            forall|j: int| 0 <= j < i ==> #[trigger] stmt_view(r@[j]) == stmt_view(ss@[j]),
    {
        assert(decreases_to!(ss => ss@[i as int]));
        r.push(clone_stmt(&ss[i]));
    }
    proof {
        lemma_stmts_view_len(r@);
        lemma_stmts_view_len(ss@);
        assert(stmts_view(r@) =~= stmts_view(ss@));
    }
    r
}

impl Clone for Stmt {
    fn clone(&self) -> (r: Self)
        ensures
            r@ == self@,
    {
        clone_stmt(self)
    }
}

impl Clone for Group {
    fn clone(&self) -> (r: Self)
        ensures
            r.label@ == self.label@,
            stmts_view(r.stmts@) == stmts_view(self.stmts@),
    {
        Group { label: self.label.clone(), stmts: clone_stmts(&self.stmts) }
    }
}

} // verus!
