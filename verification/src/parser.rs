//! Parser for `.aras` diagram source text.
//!
//! The format is line based. Each line, without its surrounding blanks, is
//! one of:
//!
//! * nothing: ignored;
//! * `@key: value`: a metadata entry (ignored inside a group);
//! * `[id]`, `[id]: label`, `[id].key: value`, or
//!   `[id] ARROW [id]` with an optional `: label`, where ARROW is one of
//!   `-->`, `-..->`, `--`, `<--`, `<->`;
//! * `group label {`: opens a group whose statements follow, up to a line `}`;
//! * `style [id] {`: opens a style block whose `key: value` lines follow,
//!   up to a line `}`.
//!
//! A label or a metadata value written between double quotes stands for the
//! text inside them.
use vstd::prelude::*;
use vstd::string::*;
use crate::ast::{
    Arrow, Connection, Diagram, DiagramV, Group, MetaEntry, NodeAttr, NodeId, PairV, Stmt,
    StmtV, StyleBlock, StyleProp, lemma_stmts_view_len, meta_view, metas_view, prop_view,
    props_view, stmt_view, stmts_view,
};
use crate::error::ArasError;
use crate::text::{
    chars_of, find, find_char, lemma_find, lines_of, slice, split_lines, starts_with,
    string_from, trim, trim_chars, unquote, unquote_chars,
};

verus! {

// ── Specification ────────────────────────────────────────────────────────────

/// What one line of source text is.
pub enum LineKind {
    Blank,
    Close,
    Meta(PairV),
    GroupOpen(Seq<char>),
    StyleOpen(Seq<char>),
    Simple(StmtV),
    Invalid,
}

/// The error for a group or style block without its closing `}`.
pub open spec fn msg_unclosed() -> Seq<char> {
    "missing '}' at end of block"@
}

/// The error for a `}` outside any block.
pub open spec fn msg_unexpected_close() -> Seq<char> {
    "unexpected '}'"@
}

/// The error for a line that is none of the statements.
pub open spec fn msg_invalid() -> Seq<char> {
    "invalid statement"@
}

/// The keyword that opens a group.
pub open spec fn group_kw() -> Seq<char> {
    seq!['g', 'r', 'o', 'u', 'p']
}

/// The keyword that opens a style block.
pub open spec fn style_kw() -> Seq<char> {
    seq!['s', 't', 'y', 'l', 'e']
}

/// `[id]` at the start of `r`: the id and what follows the closing bracket.
pub open spec fn node_ref(r: Seq<char>) -> Option<(Seq<char>, Seq<char>)> {
    if r.len() > 0 && r[0] == '[' {
        match find(r, ']') {
            Some(k) => if 1 < k < r.len() {
                Some((r.subrange(1, k), r.skip(k + 1)))
            } else {
                None
            },
            None => None,
        }
    } else {
        None
    }
}

/// The arrow that `r` starts with, and its length.
pub open spec fn arrow_prefix(r: Seq<char>) -> Option<(Arrow, int)> {
    if starts_with(r, seq!['-', '-', '>']) {
        Some((Arrow::Directed, 3))
    } else if starts_with(r, seq!['-', '.', '.', '-', '>']) {
        Some((Arrow::Async, 5))
    } else if starts_with(r, seq!['-', '-']) {
        Some((Arrow::Undirected, 2))
    } else if starts_with(r, seq!['<', '-', '-']) {
        Some((Arrow::Reverse, 3))
    } else if starts_with(r, seq!['<', '-', '>']) {
        Some((Arrow::Bidirectional, 3))
    } else {
        None
    }
}

/// A line that starts with `[id]`; `r` is the trimmed rest of it.
pub open spec fn node_line(id: Seq<char>, r: Seq<char>) -> LineKind {
    if r.len() == 0 {
        LineKind::Simple(StmtV::Node(id))
    } else if r[0] == ':' {
        LineKind::Simple(StmtV::NodeDecl(id, unquote(trim(r.drop_first()))))
    } else if r[0] == '.' {
        let a = r.drop_first();
        match find(a, ':') {
            Some(j) => LineKind::Simple(StmtV::NodeAttr(id, trim(a.take(j)), trim(a.skip(j + 1)))),
            None => LineKind::Invalid,
        }
    } else {
        match arrow_prefix(r) {
            Some((arrow, n)) => match node_ref(trim(r.skip(n))) {
                Some((to, rest)) => {
                    let c = trim(rest);
                    if c.len() == 0 {
                        LineKind::Simple(StmtV::Connection(id, to, arrow, None))
                    } else if c[0] == ':' {
                        LineKind::Simple(
                            StmtV::Connection(id, to, arrow, Some(trim(c.drop_first()))),
                        )
                    } else {
                        LineKind::Invalid
                    }
                },
                None => LineKind::Invalid,
            },
            None => LineKind::Invalid,
        }
    }
}

/// What a trimmed line is.
pub open spec fn classify(t: Seq<char>) -> LineKind {
    if t.len() == 0 {
        LineKind::Blank
    } else if t == seq!['}'] {
        LineKind::Close
    } else if t[0] == '@' {
        match find(t, ':') {
            Some(k) => if 1 <= k < t.len() {
                LineKind::Meta((trim(t.subrange(1, k)), unquote(trim(t.skip(k + 1)))))
            } else {
                LineKind::Invalid
            },
            None => LineKind::Invalid,
        }
    } else if starts_with(t, group_kw()) {
        let r = trim(t.skip(5));
        if r.len() > 0 && r.last() == '{' {
            LineKind::GroupOpen(unquote(trim(r.drop_last())))
        } else {
            LineKind::Invalid
        }
    } else if starts_with(t, style_kw()) {
        match node_ref(trim(t.skip(5))) {
            Some((id, rest)) => if trim(rest) == seq!['{'] {
                LineKind::StyleOpen(id)
            } else {
                LineKind::Invalid
            },
            None => LineKind::Invalid,
        }
    } else if t[0] == '[' {
        match node_ref(t) {
            Some((id, rest)) => node_line(id, trim(rest)),
            None => LineKind::Invalid,
        }
    } else {
        LineKind::Invalid
    }
}

/// Metadata, statements, and the index of the line after the block.
pub type BlockResult = Result<(Seq<PairV>, Seq<StmtV>, int), Seq<char>>;

/// Metadata and statements put in front of what a parse gave.
pub open spec fn prefix_with(ms: Seq<PairV>, ss: Seq<StmtV>, r: BlockResult) -> BlockResult {
    match r {
        Ok((m2, s2, j)) => Ok((ms + m2, ss + s2, j)),
        Err(e) => Err(e),
    }
}

/// The statements from line `i` on: up to the end of the text (`top`), or up
/// to the `}` line that closes the block (`!top`).
pub open spec fn parse_items(lines: Seq<Seq<char>>, i: int, top: bool) -> BlockResult
    decreases lines.len() - i,
{
    if i < 0 || i >= lines.len() {
        if top {
            Ok((Seq::empty(), Seq::empty(), lines.len() as int))
        } else {
            Err(msg_unclosed())
        }
    } else {
        match classify(trim(lines[i])) {
            LineKind::Blank => parse_items(lines, i + 1, top),
            LineKind::Close => if top {
                Err(msg_unexpected_close())
            } else {
                Ok((Seq::empty(), Seq::empty(), i + 1))
            },
            LineKind::Meta(m) => prefix_with(
                if top {
                    seq![m]
                } else {
                    Seq::empty()
                },
                Seq::empty(),
                parse_items(lines, i + 1, top),
            ),
            LineKind::Simple(s) => prefix_with(Seq::empty(), seq![s], parse_items(lines, i + 1, top)),
            LineKind::GroupOpen(label) => match parse_items(lines, i + 1, false) {
                Ok((_, inner, j)) => if i < j <= lines.len() {
                    prefix_with(
                        Seq::empty(),
                        seq![StmtV::Group(label, inner)],
                        parse_items(lines, j, top),
                    )
                } else {
                    Err(msg_invalid())
                },
                Err(e) => Err(e),
            },
            LineKind::StyleOpen(n) => match parse_props(lines, i + 1) {
                Ok((ps, j)) => if i < j <= lines.len() {
                    prefix_with(Seq::empty(), seq![StmtV::Style(n, ps)], parse_items(lines, j, top))
                } else {
                    Err(msg_invalid())
                },
                Err(e) => Err(e),
            },
            LineKind::Invalid => Err(msg_invalid()),
        }
    }
}

/// The `key: value` lines of a style block from line `i` on, and the index
/// of the line after its closing `}`.
pub open spec fn parse_props(lines: Seq<Seq<char>>, i: int) -> Result<(Seq<PairV>, int), Seq<char>>
    decreases lines.len() - i,
{
    if i < 0 || i >= lines.len() {
        Err(msg_unclosed())
    } else {
        let t = trim(lines[i]);
        if t.len() == 0 {
            parse_props(lines, i + 1)
        } else if t == seq!['}'] {
            Ok((Seq::empty(), i + 1))
        } else {
            match find(t, ':') {
                Some(k) => match parse_props(lines, i + 1) {
                    Ok((ps, j)) => Ok((seq![(trim(t.take(k)), trim(t.skip(k + 1)))] + ps, j)),
                    Err(e) => Err(e),
                },
                None => Err(msg_invalid()),
            }
        }
    }
}

/// The diagram that a source text describes, or the reason it describes none.
pub open spec fn parse_spec(source: Seq<char>) -> Result<DiagramV, Seq<char>> {
    match parse_items(lines_of(source), 0, true) {
        Ok((ms, ss, _)) => Ok(DiagramV { meta: ms, stmts: ss }),
        Err(e) => Err(e),
    }
}

// ── Executable parser ────────────────────────────────────────────────────────

enum Line {
    Blank,
    Close,
    Meta(MetaEntry),
    GroupOpen(String),
    StyleOpen(NodeId),
    Simple(Stmt),
    Invalid,
}

spec fn line_view(l: Line) -> LineKind {
    match l {
        Line::Blank => LineKind::Blank,
        Line::Close => LineKind::Close,
        Line::Meta(m) => LineKind::Meta(meta_view(m)),
        Line::GroupOpen(label) => LineKind::GroupOpen(label@),
        Line::StyleOpen(n) => LineKind::StyleOpen(n.0@),
        Line::Simple(s) => LineKind::Simple(stmt_view(s)),
        Line::Invalid => LineKind::Invalid,
    }
}

fn to_string(v: &Vec<char>) -> (s: String)
    ensures
        s@ == v@,
{
    let s = string_from(v, 0, v.len());
    assert(v@.subrange(0, v@.len() as int) =~= v@);
    s
}

fn has_prefix(t: &Vec<char>, p: &Vec<char>) -> (b: bool)
    ensures
        b == starts_with(t@, p@),
{
    if p.len() > t.len() {
        return false;
    }
    let n = p.len();
    for i in 0..n
        invariant
            n == p.len() <= t.len(),
            forall|j: int| 0 <= j < i ==> t@[j] == p@[j],
    {
        if t[i] != p[i] {
            assert(t@.take(n as int)[i as int] != p@[i as int]);
            return false;
        }
    }
    assert(t@.take(n as int) =~= p@);
    true
}

fn literal(s: &str) -> (v: Vec<char>)
    ensures
        v@ == s@,
{
    chars_of(s)
}

fn node_ref_exec(r: &Vec<char>) -> (res: Option<(Vec<char>, Vec<char>)>)
    ensures
        match (res, node_ref(r@)) {
            (Some((a, b)), Some((x, y))) => a@ == x && b@ == y,
            (None, None) => true,
            _ => false,
        },
{
    if r.len() > 0 && r[0] == '[' {
        match find_char(r, ']') {
            Some(k) => {
                proof {
                    lemma_find(r@, ']');
                }
                if 1 < k && k < r.len() {
                    Some((slice(r, 1, k), slice(r, k + 1, r.len())))
                } else {
                    None
                }
            },
            None => None,
        }
    } else {
        None
    }
}

fn arrow_prefix_exec(r: &Vec<char>) -> (res: Option<(Arrow, usize)>)
    ensures
        match (res, arrow_prefix(r@)) {
            (Some((a, n)), Some((b, m))) => a == b && n == m,
            (None, None) => true,
            _ => false,
        },
{
    let directed = literal("-->");
    let is_async = literal("-..->");
    let undirected = literal("--");
    let reverse = literal("<--");
    let bidir = literal("<->");
    proof {
        reveal_strlit("-->");
        reveal_strlit("-..->");
        reveal_strlit("--");
        reveal_strlit("<--");
        reveal_strlit("<->");
        assert(directed@ =~= seq!['-', '-', '>']);
        assert(is_async@ =~= seq!['-', '.', '.', '-', '>']);
        assert(undirected@ =~= seq!['-', '-']);
        assert(reverse@ =~= seq!['<', '-', '-']);
        assert(bidir@ =~= seq!['<', '-', '>']);
    }
    if has_prefix(r, &directed) {
        Some((Arrow::Directed, 3))
    } else if has_prefix(r, &is_async) {
        Some((Arrow::Async, 5))
    } else if has_prefix(r, &undirected) {
        Some((Arrow::Undirected, 2))
    } else if has_prefix(r, &reverse) {
        Some((Arrow::Reverse, 3))
    } else if has_prefix(r, &bidir) {
        Some((Arrow::Bidirectional, 3))
    } else {
        None
    }
}

fn node_line_exec(id: Vec<char>, r: &Vec<char>) -> (res: Line)
    ensures
        line_view(res) == node_line(id@, r@),
        !(res matches Line::Simple(Stmt::Group(_))),
        !(res matches Line::Simple(Stmt::Style(_))),
{
    let node = NodeId(to_string(&id));
    if r.len() == 0 {
        Line::Simple(Stmt::Node(node))
    } else if r[0] == ':' {
        let rest = slice(r, 1, r.len());
        assert(rest@ =~= r@.drop_first());
        let label = unquote_chars(&trim_chars(&rest));
        Line::Simple(Stmt::NodeDecl(node, to_string(&label)))
    } else if r[0] == '.' {
        let a = slice(r, 1, r.len());
        assert(a@ =~= r@.drop_first());
        match find_char(&a, ':') {
            Some(j) => {
                proof {
                    lemma_find(a@, ':');
                }
                let key = trim_chars(&slice(&a, 0, j));
                let value = trim_chars(&slice(&a, j + 1, a.len()));
                assert(a@.subrange(0, j as int) =~= a@.take(j as int));
                assert(a@.subrange(j + 1, a@.len() as int) =~= a@.skip(j + 1));
                Line::Simple(
                    Stmt::NodeAttr(
                        NodeAttr { node, key: to_string(&key), value: to_string(&value) },
                    ),
                )
            },
            None => Line::Invalid,
        }
    } else {
        match arrow_prefix_exec(r) {
            Some((arrow, n)) => {
                let after = trim_chars(&slice(r, n, r.len()));
                assert(r@.subrange(n as int, r@.len() as int) =~= r@.skip(n as int));
                match node_ref_exec(&after) {
                    Some((to, rest)) => {
                        let c = trim_chars(&rest);
                        let to_id = NodeId(to_string(&to));
                        if c.len() == 0 {
                            Line::Simple(
                                Stmt::Connection(
                                    Connection { from: node, to: to_id, arrow, label: None },
                                ),
                            )
                        } else if c[0] == ':' {
                            let l = slice(&c, 1, c.len());
                            assert(l@ =~= c@.drop_first());
                            let label = trim_chars(&l);
                            Line::Simple(
                                Stmt::Connection(
                                    Connection {
                                        from: node,
                                        to: to_id,
                                        arrow,
                                        label: Some(to_string(&label)),
                                    },
                                ),
                            )
                        } else {
                            Line::Invalid
                        }
                    },
                    None => Line::Invalid,
                }
            },
            None => Line::Invalid,
        }
    }
}

fn classify_exec(t: &Vec<char>) -> (res: Line)
    ensures
        line_view(res) == classify(t@),
        !(res matches Line::Simple(Stmt::Group(_))),
        !(res matches Line::Simple(Stmt::Style(_))),
{
    let group = literal("group");
    let style = literal("style");
    proof {
        reveal_strlit("group");
        reveal_strlit("style");
        assert(group@ =~= group_kw());
        assert(style@ =~= style_kw());
    }
    if t.len() == 0 {
        Line::Blank
    } else if t.len() == 1 && t[0] == '}' {
        assert(t@ =~= seq!['}']);
        Line::Close
    } else if t[0] == '@' {
        proof {
            if t@ == seq!['}'] {
                assert(t@[0] == '}');
            }
        }
        match find_char(t, ':') {
            Some(k) => {
                proof {
                    lemma_find(t@, ':');
                }
                if 1 <= k && k < t.len() {
                    let key = trim_chars(&slice(t, 1, k));
                    let value = unquote_chars(&trim_chars(&slice(t, k + 1, t.len())));
                    assert(t@.subrange(k + 1, t@.len() as int) =~= t@.skip(k + 1));
                    Line::Meta(MetaEntry { key: to_string(&key), value: to_string(&value) })
                } else {
                    Line::Invalid
                }
            },
            None => Line::Invalid,
        }
    } else if has_prefix(t, &group) {
        proof {
            if t@ == seq!['}'] {
                assert(t@[0] == '}');
            }
        }
        let r = trim_chars(&slice(t, 5, t.len()));
        assert(t@.subrange(5, t@.len() as int) =~= t@.skip(5));
        if r.len() > 0 && r[r.len() - 1] == '{' {
            let body = slice(&r, 0, r.len() - 1);
            assert(body@ =~= r@.drop_last());
            let label = unquote_chars(&trim_chars(&body));
            Line::GroupOpen(to_string(&label))
        } else {
            Line::Invalid
        }
    } else if has_prefix(t, &style) {
        proof {
            if t@ == seq!['}'] {
                assert(t@[0] == '}');
            }
        }
        let r = trim_chars(&slice(t, 5, t.len()));
        assert(t@.subrange(5, t@.len() as int) =~= t@.skip(5));
        match node_ref_exec(&r) {
            Some((id, rest)) => {
                let c = trim_chars(&rest);
                if c.len() == 1 && c[0] == '{' {
                    assert(c@ =~= seq!['{']);
                    Line::StyleOpen(NodeId(to_string(&id)))
                } else {
                    proof {
                        if c@ == seq!['{'] {
                            assert(c@[0] == '{');
                        }
                    }
                    Line::Invalid
                }
            },
            None => Line::Invalid,
        }
    } else if t[0] == '[' {
        proof {
            if t@ == seq!['}'] {
                assert(t@[0] == '}');
            }
        }
        match node_ref_exec(t) {
            Some((id, rest)) => {
                let r = trim_chars(&rest);
                node_line_exec(id, &r)
            },
            None => Line::Invalid,
        }
    } else {
        proof {
            if t@ == seq!['}'] {
                assert(t@[0] == '}');
            }
        }
        Line::Invalid
    }
}

/// The text of each line.
pub open spec fn lines_view(lines: Seq<Vec<char>>) -> Seq<Seq<char>> {
    lines.map_values(|l: Vec<char>| l@)
}

/// Putting two prefixes in front one after the other puts their concatenation.
pub(crate) proof fn lemma_prefix_assoc(ms: Seq<PairV>, ss: Seq<StmtV>, a: Seq<PairV>, b: Seq<StmtV>, r: BlockResult)
    ensures
        prefix_with(ms, ss, prefix_with(a, b, r)) == prefix_with(ms + a, ss + b, r),
{
    match r {
        Ok((m2, s2, j)) => {
            assert(ms + (a + m2) =~= (ms + a) + m2);
            assert(ss + (b + s2) =~= (ss + b) + s2);
        },
        Err(e) => {},
    }
}

/// Empty prefixes change nothing.
pub(crate) proof fn lemma_prefix_empty(r: BlockResult)
    ensures
        prefix_with(Seq::empty(), Seq::empty(), r) == r,
{
    match r {
        Ok((m2, s2, j)) => {
            assert(Seq::<PairV>::empty() + m2 =~= m2);
            assert(Seq::<StmtV>::empty() + s2 =~= s2);
        },
        Err(e) => {},
    }
}

proof fn lemma_stmts_view_push(ss: Seq<Stmt>, s: Stmt)
    ensures
        stmts_view(ss.push(s)) == stmts_view(ss) + seq![stmt_view(s)],
{
    let t = ss.push(s);
    assert(t.subrange(0, t.len() - 1) =~= ss);
    assert(stmts_view(ss).push(stmt_view(s)) =~= stmts_view(ss) + seq![stmt_view(s)]);
}

fn error(msg: &str) -> (e: ArasError)
    ensures
        e.detail() == msg@,
{
    ArasError::Parse(String::from_str(msg))
}

/// Metadata and properties put in front of what a parse of properties gave.
pub open spec fn props_prefix(ps: Seq<PairV>, r: Result<(Seq<PairV>, int), Seq<char>>) -> Result<
    (Seq<PairV>, int),
    Seq<char>,
> {
    match r {
        Ok((p2, j)) => Ok((ps + p2, j)),
        Err(e) => Err(e),
    }
}

fn parse_props_exec(lines: &Vec<Vec<char>>, i0: usize) -> (res: Result<(Vec<StyleProp>, usize), ArasError>)
    requires
        i0 <= lines.len(),
    ensures
        match res {
            Ok((ps, j)) => parse_props(lines_view(lines@), i0 as int) == Ok::<(Seq<PairV>, int), Seq<char>>((props_view(ps@), j as int))
                && i0 < j <= lines.len(),
            Err(e) => parse_props(lines_view(lines@), i0 as int) == Err::<(Seq<PairV>, int), Seq<char>>(e.detail()),
        },
{
    let ghost lv = lines_view(lines@);
    let n = lines.len();
    let mut props: Vec<StyleProp> = Vec::new();
    let mut i = i0;
    assert(props_view(props@) =~= Seq::<PairV>::empty());
    while i < n
        invariant
            i0 <= i <= n == lines.len(),
            lv == lines_view(lines@),
            lv.len() == n,
            parse_props(lv, i0 as int) == props_prefix(props_view(props@), parse_props(lv, i as int)),
        decreases n - i,
    {
        assert(lv[i as int] == lines@[i as int]@);
        let t = trim_chars(&lines[i]);
        if t.len() == 0 {
            i += 1;
        } else if t.len() == 1 && t[0] == '}' {
            assert(t@ =~= seq!['}']);
            assert(props_view(props@) + Seq::<PairV>::empty() =~= props_view(props@));
            return Ok((props, i + 1));
        } else {
            proof {
                if t@ == seq!['}'] {
                    assert(t@[0] == '}');
                }
            }
            match find_char(&t, ':') {
                Some(k) => {
                    proof {
                        lemma_find(t@, ':');
                    }
                    let key = trim_chars(&slice(&t, 0, k));
                    let value = trim_chars(&slice(&t, k + 1, t.len()));
                    assert(t@.subrange(0, k as int) =~= t@.take(k as int));
                    assert(t@.subrange(k + 1, t@.len() as int) =~= t@.skip(k + 1));
                    let p = StyleProp { key: to_string(&key), value: to_string(&value) };
                    let ghost old_view = props_view(props@);
                    props.push(p);
                    proof {
                        assert(props_view(props@) =~= old_view + seq![prop_view(p)]);
                        match parse_props(lv, i + 1) {
                            Ok((ps, j)) => {
                                assert(old_view + (seq![prop_view(p)] + ps) =~= (old_view + seq![prop_view(p)]) + ps);
                            },
                            Err(e) => {},
                        }
                    }
                    i += 1;
                },
                None => {
                    return Err(error("invalid statement"));
                },
            }
        }
    }
    Err(error("missing '}' at end of block"))
}

fn parse_block(lines: &Vec<Vec<char>>, i0: usize, top: bool) -> (res: Result<
    (Vec<MetaEntry>, Vec<Stmt>, usize),
    ArasError,
>)
    requires
        i0 <= lines.len(),
    ensures
        match res {
            Ok((ms, ss, j)) => parse_items(lines_view(lines@), i0 as int, top) == Ok::<(Seq<PairV>, Seq<StmtV>, int), Seq<char>>((metas_view(ms@), stmts_view(ss@), j as int))
                && (top ==> j == lines.len())
                && (!top ==> i0 < j <= lines.len()),
            Err(e) => parse_items(lines_view(lines@), i0 as int, top) == Err::<(Seq<PairV>, Seq<StmtV>, int), Seq<char>>(e.detail()),
        },
    decreases lines.len() - i0,
{
    let ghost lv = lines_view(lines@);
    let n = lines.len();
    let mut metas: Vec<MetaEntry> = Vec::new();
    let mut stmts: Vec<Stmt> = Vec::new();
    let mut i = i0;
    proof {
        assert(metas_view(metas@) =~= Seq::<PairV>::empty());
        assert(stmts_view(stmts@) =~= Seq::<StmtV>::empty());
        lemma_prefix_empty(parse_items(lv, i0 as int, top));
    }
    while i < n
        invariant
            i0 <= i <= n == lines.len(),
            lv == lines_view(lines@),
            lv.len() == n,
            parse_items(lv, i0 as int, top) == prefix_with(
                metas_view(metas@),
                stmts_view(stmts@),
                parse_items(lv, i as int, top),
            ),
        decreases n - i,
    {
        assert(lv[i as int] == lines@[i as int]@);
        let t = trim_chars(&lines[i]);
        let ghost mv = metas_view(metas@);
        let ghost sv = stmts_view(stmts@);
        match classify_exec(&t) {
            Line::Blank => {
                i += 1;
            },
            Line::Close => {
                if top {
                    return Err(error("unexpected '}'"));
                }
                assert(mv + Seq::<PairV>::empty() =~= mv);
                assert(sv + Seq::<StmtV>::empty() =~= sv);
                return Ok((metas, stmts, i + 1));
            },
            Line::Meta(m) => {
                proof {
                    let a: Seq<PairV> = if top {
                        seq![meta_view(m)]
                    } else {
                        Seq::empty()
                    };
                    lemma_prefix_assoc(mv, sv, a, Seq::empty(), parse_items(lv, i + 1, top));
                    assert(sv + Seq::<StmtV>::empty() =~= sv);
                    if !top {
                        assert(mv + a =~= mv);
                    }
                }
                if top {
                    metas.push(m);
                    assert(metas_view(metas@) =~= mv + seq![meta_view(m)]);
                }
                i += 1;
            },
            Line::Simple(s) => {
                proof {
                    lemma_prefix_assoc(mv, sv, Seq::empty(), seq![stmt_view(s)], parse_items(lv, i + 1, top));
                    assert(mv + Seq::<PairV>::empty() =~= mv);
                    lemma_stmts_view_push(stmts@, s);
                }
                stmts.push(s);
                i += 1;
            },
            Line::GroupOpen(label) => {
                match parse_block(lines, i + 1, false) {
                    Ok((_, inner, j)) => {
                        let g = Stmt::Group(Group { label, stmts: inner });
                        proof {
                            lemma_prefix_assoc(mv, sv, Seq::empty(), seq![stmt_view(g)], parse_items(lv, j as int, top));
                            assert(mv + Seq::<PairV>::empty() =~= mv);
                            lemma_stmts_view_push(stmts@, g);
                        }
                        stmts.push(g);
                        i = j;
                    },
                    Err(e) => {
                        return Err(e);
                    },
                }
            },
            Line::StyleOpen(node) => {
                match parse_props_exec(lines, i + 1) {
                    Ok((props, j)) => {
                        let st = Stmt::Style(StyleBlock { node, props });
                        proof {
                            lemma_prefix_assoc(mv, sv, Seq::empty(), seq![stmt_view(st)], parse_items(lv, j as int, top));
                            assert(mv + Seq::<PairV>::empty() =~= mv);
                            lemma_stmts_view_push(stmts@, st);
                        }
                        stmts.push(st);
                        i = j;
                    },
                    Err(e) => {
                        return Err(e);
                    },
                }
            },
            Line::Invalid => {
                return Err(error("invalid statement"));
            },
        }
    }
    if top {
        assert(metas_view(metas@) + Seq::<PairV>::empty() =~= metas_view(metas@));
        assert(stmts_view(stmts@) + Seq::<StmtV>::empty() =~= stmts_view(stmts@));
        Ok((metas, stmts, n))
    } else {
        Err(error("missing '}' at end of block"))
    }
}

/// Parses `.aras` source text into a [`Diagram`].
///
/// Succeeds exactly when the text follows the format described at the top of
/// this module; otherwise the error says what was wrong.
pub fn parse(source: &str) -> (res: Result<Diagram, ArasError>)
    ensures
        match res {
            Ok(d) => parse_spec(source@) == Ok::<DiagramV, Seq<char>>(d@),
            Err(e) => parse_spec(source@) == Err::<DiagramV, Seq<char>>(e.detail()),
        },
{
    let cs = chars_of(source);
    let lines = split_lines(&cs);
    assert(lines_view(lines@) =~= lines_of(cs@));
    match parse_block(&lines, 0, true) {
        Ok((meta, stmts, _)) => Ok(Diagram { meta, stmts }),
        Err(e) => Err(e),
    }
}

} // verus!
