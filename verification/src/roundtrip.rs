//! Printing a well-formed diagram and parsing the text back gives the same
//! diagram.
use vstd::prelude::*;
use crate::ast::{Arrow, DiagramV, PairV, StmtV};
use crate::parser::{
    LineKind, arrow_prefix, classify, group_kw, node_line, node_ref, parse_items, parse_props,
    parse_spec, prefix_with, style_kw,
};
use crate::printer::{
    arrow_text, close_line, diagram_lines, group_open_line, indent_step, join_lines, meta_line,
    meta_lines, node_text, print_spec, prop_line, prop_lines, simple_line, stmt_lines,
    stmts_lines, style_open_line,
};
use crate::text::{
    find, is_ws, lemma_find_at, lemma_trim_end_at, lemma_trim_start_at, lines_of, starts_with,
    trim, unquote,
};

verus! {

// ── Well-formed text ─────────────────────────────────────────────────────────

/// Every character of `s` is a blank.
pub open spec fn all_ws(s: Seq<char>) -> bool {
    forall|j: int| 0 <= j < s.len() ==> is_ws(#[trigger] s[j])
}

/// `s` neither starts nor ends with a blank.
pub open spec fn tidy(s: Seq<char>) -> bool {
    s.len() == 0 || (!is_ws(s[0]) && !is_ws(s.last()))
}

/// `c` does not occur in `s`.
pub open spec fn lacks(s: Seq<char>, c: char) -> bool {
    forall|j: int| 0 <= j < s.len() ==> #[trigger] s[j] != c
}

/// A node id that the printer can write and the parser read back.
pub open spec fn wf_id(id: Seq<char>) -> bool {
    id.len() > 0 && lacks(id, '\n') && lacks(id, ']')
}

/// A key: no colon, no newline, no surrounding blanks.
pub open spec fn wf_key(k: Seq<char>) -> bool {
    tidy(k) && lacks(k, '\n') && lacks(k, ':')
}

/// A value written as is: no newline, no surrounding blanks.
pub open spec fn wf_text(v: Seq<char>) -> bool {
    tidy(v) && lacks(v, '\n')
}

/// A metadata entry that prints and parses back unchanged.
pub open spec fn wf_meta(m: PairV) -> bool {
    wf_key(m.0) && wf_text(m.1) && unquote(m.1) == m.1
}

/// A style property that prints and parses back unchanged.
pub open spec fn wf_prop(p: PairV) -> bool {
    wf_key(p.0) && wf_text(p.1)
}

/// A statement that prints and parses back unchanged.
pub open spec fn wf_stmt(s: StmtV) -> bool
    decreases s,
{
    match s {
        StmtV::Node(id) => wf_id(id),
        StmtV::NodeDecl(id, label) => wf_id(id) && lacks(label, '\n'),
        StmtV::NodeAttr(n, k, v) => wf_id(n) && wf_key(k) && wf_text(v),
        StmtV::Connection(f, t, _, l) => wf_id(f) && wf_id(t) && match l {
            Some(l) => wf_text(l),
            None => true,
        },
        StmtV::Group(label, ss) => lacks(label, '\n') && wf_stmts(ss),
        StmtV::Style(n, ps) => wf_id(n) && forall|i: int| 0 <= i < ps.len() ==> wf_prop(#[trigger] ps[i]),
    }
}

/// Statements that print and parse back unchanged.
pub open spec fn wf_stmts(ss: Seq<StmtV>) -> bool
    decreases ss,
{
    if ss.len() == 0 {
        true
    } else {
        wf_stmts(ss.subrange(0, ss.len() - 1)) && wf_stmt(ss[ss.len() - 1])
    }
}

/// A diagram whose printed text parses back to it.
pub open spec fn wf_diagram(d: DiagramV) -> bool {
    &&& forall|i: int| 0 <= i < d.meta.len() ==> wf_meta(#[trigger] d.meta[i])
    &&& wf_stmts(d.stmts)
}

// ── Text lemmas ──────────────────────────────────────────────────────────────

proof fn lemma_trim_exact(s: Seq<char>, lo: int, hi: int)
    requires
        0 <= lo <= hi <= s.len(),
        forall|j: int| 0 <= j < lo ==> is_ws(#[trigger] s[j]),
        forall|j: int| hi <= j < s.len() ==> is_ws(#[trigger] s[j]),
        lo < hi ==> !is_ws(s[lo]) && !is_ws(s[hi - 1]),
    ensures
        trim(s) == s.subrange(lo, hi),
{
    if lo < hi {
        lemma_trim_start_at(s, lo);
        let t = s.skip(lo);
        assert forall|j: int| hi - lo <= j < t.len() implies is_ws(#[trigger] t[j]) by {
            assert(t[j] == s[j + lo]);
        }
        assert(t[hi - lo - 1] == s[hi - 1]);
        lemma_trim_end_at(t, hi - lo);
        assert(t.take(hi - lo) =~= s.subrange(lo, hi));
    } else {
        assert forall|j: int| 0 <= j < s.len() implies is_ws(#[trigger] s[j]) by {
            if j >= lo {
                assert(j >= hi);
            }
        }
        lemma_trim_start_at(s, s.len() as int);
        let e = s.skip(s.len() as int);
        assert(e.len() == 0);
        assert(trim(s) == e);
        assert(e =~= s.subrange(lo, hi));
    }
}

/// Blanks around a tidy text are what trimming removes.
proof fn lemma_trim_around(w1: Seq<char>, y: Seq<char>, w2: Seq<char>)
    requires
        all_ws(w1),
        all_ws(w2),
        tidy(y),
    ensures
        trim(w1 + y + w2) == y,
{
    let s = w1 + y + w2;
    let lo = w1.len() as int;
    let hi = lo + y.len();
    assert forall|j: int| 0 <= j < lo implies is_ws(#[trigger] s[j]) by {
        assert(s[j] == w1[j]);
    }
    assert forall|j: int| hi <= j < s.len() implies is_ws(#[trigger] s[j]) by {
        assert(s[j] == w2[j - hi]);
    }
    if y.len() > 0 {
        assert(s[lo] == y[0]);
        assert(s[hi - 1] == y[y.len() - 1]);
    }
    lemma_trim_exact(s, lo, hi);
    assert(s.subrange(lo, hi) =~= y);
}

proof fn lemma_trim_tidy(y: Seq<char>)
    requires
        tidy(y),
    ensures
        trim(y) == y,
{
    lemma_trim_around(Seq::empty(), y, Seq::empty());
    assert(Seq::<char>::empty() + y + Seq::<char>::empty() =~= y);
}

/// `trim(" " + v)` is `v`, for a tidy `v`.
proof fn lemma_trim_space_before(v: Seq<char>)
    requires
        tidy(v),
    ensures
        trim(seq![' '] + v) == v,
{
    lemma_trim_around(seq![' '], v, Seq::empty());
    assert(seq![' '] + v + Seq::<char>::empty() =~= seq![' '] + v);
}

proof fn lemma_find_first(a: Seq<char>, b: Seq<char>, c: char)
    requires
        lacks(a, c),
        b.len() > 0,
        b[0] == c,
    ensures
        find(a + b, c) == Some(a.len() as int),
{
    let s = a + b;
    assert forall|j: int| 0 <= j < a.len() implies s[j] != c by {
        assert(s[j] == a[j]);
    }
    lemma_find_at(s, c, a.len() as int);
}

proof fn lemma_not_starts(t: Seq<char>, p: Seq<char>, i: int)
    requires
        0 <= i < p.len(),
        i < t.len(),
        t[i] != p[i],
    ensures
        !starts_with(t, p),
{
    if starts_with(t, p) {
        assert(t.take(p.len() as int)[i] == t[i]);
    }
}

proof fn lemma_starts(t: Seq<char>, p: Seq<char>)
    requires
        p.len() <= t.len(),
        forall|i: int| 0 <= i < p.len() ==> t[i] == p[i],
    ensures
        starts_with(t, p),
{
    assert(t.take(p.len() as int) =~= p);
}

// ── Lines of printed statements ──────────────────────────────────────────────

/// What follows a `:` in a printed `key: value` once the line is trimmed.
pub open spec fn tail_of(v: Seq<char>) -> Seq<char> {
    if v.len() == 0 {
        Seq::empty()
    } else {
        seq![' '] + v
    }
}

/// The blank that trimming removes when the value after `: ` is empty.
pub open spec fn pad_of(v: Seq<char>) -> Seq<char> {
    if v.len() == 0 {
        seq![' ']
    } else {
        Seq::empty()
    }
}

proof fn lemma_colon_value(x: Seq<char>, v: Seq<char>)
    ensures
        x + seq![':', ' '] + v == x + seq![':'] + tail_of(v) + pad_of(v),
{
    if v.len() == 0 {
        assert(x + seq![':', ' '] + v =~= x + seq![':'] + tail_of(v) + pad_of(v));
    } else {
        assert(x + seq![':', ' '] + v =~= x + seq![':'] + tail_of(v) + pad_of(v));
    }
}

proof fn lemma_trim_tail(v: Seq<char>)
    requires
        tidy(v),
    ensures
        trim(tail_of(v)) == v,
{
    if v.len() == 0 {
        lemma_trim_tidy(v);
    } else {
        lemma_trim_space_before(v);
    }
}

/// `x + ":" + tail_of(v)` is tidy when `x` starts with a non-blank.
proof fn lemma_tidy_colon(x: Seq<char>, v: Seq<char>)
    requires
        x.len() > 0,
        !is_ws(x[0]),
        tidy(v),
    ensures
        tidy(x + seq![':'] + tail_of(v)),
        (x + seq![':'] + tail_of(v))[0] == x[0],
{
    let y = x + seq![':'] + tail_of(v);
    assert(y[0] == x[0]);
    if v.len() > 0 {
        assert(y.last() == v.last());
    } else {
        assert(y.last() == ':');
    }
}

pub(crate) proof fn lemma_trim_padded(ind: Seq<char>, y: Seq<char>, w: Seq<char>)
    requires
        all_ws(ind),
        all_ws(w),
        tidy(y),
    ensures
        trim(ind + y + w) == y,
{
    lemma_trim_around(ind, y, w);
}

proof fn lemma_node_ref(id: Seq<char>, rest: Seq<char>)
    requires
        wf_id(id),
    ensures
        node_ref(node_text(id) + rest) == Some((id, rest)),
{
    let r = node_text(id) + rest;
    let a = seq!['['] + id;
    let b = seq![']'] + rest;
    assert(r =~= a + b);
    assert forall|j: int| 0 <= j < a.len() implies #[trigger] a[j] != ']' by {
        if j > 0 {
            assert(a[j] == id[j - 1]);
        }
    }
    lemma_find_first(a, b, ']');
    assert(r.subrange(1, a.len() as int) =~= id);
    assert(r.skip(a.len() as int + 1) =~= rest);
}

/// A trimmed line that starts with `[` is a node line.
proof fn lemma_classify_bracket(t: Seq<char>)
    requires
        t.len() > 0,
        t[0] == '[',
    ensures
        classify(t) == match node_ref(t) {
            Some((id, rest)) => node_line(id, trim(rest)),
            None => LineKind::Invalid,
        },
{
    if t == seq!['}'] {
        assert(t[0] == '}');
    }
    lemma_not_starts(t, group_kw(), 0);
    lemma_not_starts(t, style_kw(), 0);
}

proof fn lemma_arrow_prefix(a: Arrow, rest: Seq<char>)
    requires
        rest.len() > 0,
        rest[0] == ' ',
    ensures
        arrow_prefix(arrow_text(a) + rest) == Some((a, arrow_text(a).len() as int)),
{
    let r = arrow_text(a) + rest;
    let d = seq!['-', '-', '>'];
    let asy = seq!['-', '.', '.', '-', '>'];
    let u = seq!['-', '-'];
    let rv = seq!['<', '-', '-'];
    let bi = seq!['<', '-', '>'];
    assert(r.len() >= arrow_text(a).len() + 1);
    match a {
        Arrow::Directed => {
            lemma_starts(r, d);
        },
        Arrow::Async => {
            lemma_not_starts(r, d, 1);
            lemma_starts(r, asy);
        },
        Arrow::Undirected => {
            lemma_not_starts(r, d, 2);
            lemma_not_starts(r, asy, 1);
            lemma_starts(r, u);
        },
        Arrow::Reverse => {
            lemma_not_starts(r, d, 0);
            lemma_not_starts(r, asy, 0);
            lemma_not_starts(r, u, 0);
            lemma_starts(r, rv);
        },
        Arrow::Bidirectional => {
            lemma_not_starts(r, d, 0);
            lemma_not_starts(r, asy, 0);
            lemma_not_starts(r, u, 0);
            lemma_not_starts(r, rv, 2);
            lemma_starts(r, bi);
        },
    }
}

/// The line of a statement that is not a block reads back as that statement.
pub(crate) proof fn lemma_classify_simple(s: StmtV, ind: Seq<char>)
    requires
        all_ws(ind),
        wf_stmt(s),
        !(s is Group),
        !(s is Style),
    ensures
        classify(trim(simple_line(s, ind))) == LineKind::Simple(s),
{
    match s {
        StmtV::Node(id) => lemma_classify_node(id, ind),
        StmtV::NodeDecl(id, label) => lemma_classify_decl(id, label, ind),
        StmtV::NodeAttr(n, k, v) => lemma_classify_attr(n, k, v, ind),
        StmtV::Connection(f, t, a, l) => lemma_classify_connection(f, t, a, l, ind),
        _ => {},
    }
}

proof fn lemma_classify_node(id: Seq<char>, ind: Seq<char>)
    requires
        all_ws(ind),
        wf_stmt(StmtV::Node(id)),
    ensures
        classify(trim(simple_line(StmtV::Node(id), ind))) == LineKind::Simple(StmtV::Node(id)),
{
    let s = StmtV::Node(id);
            let y = node_text(id);
            assert(simple_line(s, ind) =~= ind + y + Seq::<char>::empty());
            lemma_trim_padded(ind, y, Seq::empty());
            lemma_node_ref(id, Seq::empty());
            assert(node_text(id) + Seq::<char>::empty() =~= y);
            lemma_classify_bracket(y);
            lemma_trim_tidy(Seq::<char>::empty());
        }

proof fn lemma_classify_decl(id: Seq<char>, label: Seq<char>, ind: Seq<char>)
    requires
        all_ws(ind),
        wf_stmt(StmtV::NodeDecl(id, label)),
    ensures
        classify(trim(simple_line(StmtV::NodeDecl(id, label), ind))) == LineKind::Simple(StmtV::NodeDecl(id, label)),
{
    let s = StmtV::NodeDecl(id, label);
            let q = seq!['"'] + label + seq!['"'];
            let rest = seq![':', ' '] + q;
            let y = node_text(id) + rest;
            assert(simple_line(s, ind) =~= ind + y + Seq::<char>::empty());
            assert(y.last() == '"');
            lemma_trim_padded(ind, y, Seq::empty());
            lemma_node_ref(id, rest);
            lemma_classify_bracket(y);
            assert(rest.last() == '"');
            lemma_trim_tidy(rest);
            assert(rest.drop_first() =~= seq![' '] + q);
            assert(q.last() == '"');
            lemma_trim_space_before(q);
            assert(q.subrange(1, q.len() - 1) =~= label);
        }

proof fn lemma_classify_attr(n: Seq<char>, k: Seq<char>, v: Seq<char>, ind: Seq<char>)
    requires
        all_ws(ind),
        wf_stmt(StmtV::NodeAttr(n, k, v)),
    ensures
        classify(trim(simple_line(StmtV::NodeAttr(n, k, v), ind))) == LineKind::Simple(StmtV::NodeAttr(n, k, v)),
{
    let s = StmtV::NodeAttr(n, k, v);
            let rest = seq!['.'] + k + seq![':'] + tail_of(v);
            let y = node_text(n) + rest;
            lemma_colon_value(node_text(n) + seq!['.'] + k, v);
            assert(simple_line(s, ind) =~= ind + y + pad_of(v));
            lemma_tidy_colon(node_text(n) + seq!['.'] + k, v);
            assert(y =~= node_text(n) + seq!['.'] + k + seq![':'] + tail_of(v));
            lemma_trim_padded(ind, y, pad_of(v));
            lemma_node_ref(n, rest);
            lemma_classify_bracket(y);
            lemma_tidy_colon(seq!['.'] + k, v);
            assert(rest =~= seq!['.'] + k + seq![':'] + tail_of(v));
            lemma_trim_tidy(rest);
            let a = rest.drop_first();
            assert(a =~= k + (seq![':'] + tail_of(v)));
            lemma_find_first(k, seq![':'] + tail_of(v), ':');
            assert(a.take(k.len() as int) =~= k);
            assert(a.skip(k.len() as int + 1) =~= tail_of(v));
            lemma_trim_tidy(k);
            lemma_trim_tail(v);
        }

/// What follows the target node in a trimmed connection line.
pub open spec fn conn_label(l: Option<Seq<char>>) -> Seq<char> {
    match l {
        Some(l) => seq![':'] + tail_of(l),
        None => Seq::empty(),
    }
}

/// The blank that trimming removes from the end of a connection line.
pub open spec fn conn_pad(l: Option<Seq<char>>) -> Seq<char> {
    match l {
        Some(l) => pad_of(l),
        None => Seq::empty(),
    }
}

/// The trimmed text of a connection line after the source node and a blank.
pub open spec fn conn_rest(to: Seq<char>, arrow: Arrow, l: Option<Seq<char>>) -> Seq<char> {
    arrow_text(arrow) + (seq![' '] + (node_text(to) + conn_label(l)))
}

proof fn lemma_conn_label_tidy(l: Option<Seq<char>>)
    requires
        l matches Some(x) ==> wf_text(x),
    ensures
        tidy(conn_label(l)),
        trim(conn_label(l)) == conn_label(l),
{
    let lab = conn_label(l);
    match l {
        Some(x) => {
            if x.len() > 0 {
                assert(lab.last() == x.last());
            }
        },
        None => {},
    }
    lemma_trim_tidy(lab);
}

proof fn lemma_conn_trim(f: Seq<char>, to: Seq<char>, arrow: Arrow, l: Option<Seq<char>>, ind: Seq<char>)
    requires
        all_ws(ind),
        wf_stmt(StmtV::Connection(f, to, arrow, l)),
    ensures
        trim(simple_line(StmtV::Connection(f, to, arrow, l), ind)) == node_text(f) + (seq![' '] + conn_rest(to, arrow, l)),
        tidy(conn_rest(to, arrow, l)),
{
    let lab = conn_label(l);
    let tail = node_text(to) + lab;
    let r = conn_rest(to, arrow, l);
    let y = node_text(f) + (seq![' '] + r);
    match l {
        Some(x) => {
            lemma_colon_value(
                ind + node_text(f) + seq![' '] + arrow_text(arrow) + seq![' '] + node_text(to),
                x,
            );
        },
        None => {},
    }
    assert(simple_line(StmtV::Connection(f, to, arrow, l), ind) =~= ind + y + conn_pad(l));
    lemma_conn_label_tidy(l);
    assert(tidy(tail)) by {
        if lab.len() > 0 {
            assert(tail.last() == lab.last());
        } else {
            assert(tail.last() == ']');
        }
    }
    assert(tidy(r)) by {
        assert(r.last() == tail.last());
    }
    assert(tidy(y)) by {
        assert(y.last() == r.last());
    }
    lemma_trim_padded(ind, y, conn_pad(l));
}

proof fn lemma_conn_node_line(f: Seq<char>, to: Seq<char>, arrow: Arrow, l: Option<Seq<char>>)
    requires
        wf_stmt(StmtV::Connection(f, to, arrow, l)),
        tidy(conn_rest(to, arrow, l)),
    ensures
        node_line(f, conn_rest(to, arrow, l)) == LineKind::Simple(StmtV::Connection(f, to, arrow, l)),
{
    let lab = conn_label(l);
    let tail = node_text(to) + lab;
    let r = conn_rest(to, arrow, l);
    assert(r[0] == arrow_text(arrow)[0]);
    lemma_arrow_prefix(arrow, seq![' '] + tail);
    assert(r.skip(arrow_text(arrow).len() as int) =~= seq![' '] + tail);
    lemma_conn_label_tidy(l);
    assert(tidy(tail)) by {
        if lab.len() > 0 {
            assert(tail.last() == lab.last());
        } else {
            assert(tail.last() == ']');
        }
    }
    lemma_trim_space_before(tail);
    lemma_node_ref(to, lab);
    match l {
        Some(x) => {
            assert(lab.drop_first() =~= tail_of(x));
            lemma_trim_tail(x);
        },
        None => {},
    }
}

proof fn lemma_classify_connection(f: Seq<char>, to: Seq<char>, arrow: Arrow, l: Option<Seq<char>>, ind: Seq<char>)
    requires
        all_ws(ind),
        wf_stmt(StmtV::Connection(f, to, arrow, l)),
    ensures
        classify(trim(simple_line(StmtV::Connection(f, to, arrow, l), ind))) == LineKind::Simple(StmtV::Connection(f, to, arrow, l)),
{
    let r = conn_rest(to, arrow, l);
    let y = node_text(f) + (seq![' '] + r);
    lemma_conn_trim(f, to, arrow, l, ind);
    lemma_node_ref(f, seq![' '] + r);
    lemma_classify_bracket(y);
    lemma_trim_around(seq![' '], r, Seq::empty());
    assert(seq![' '] + r + Seq::<char>::empty() =~= seq![' '] + r);
    lemma_conn_node_line(f, to, arrow, l);
}

pub(crate) proof fn lemma_classify_close(ind: Seq<char>)
    requires
        all_ws(ind),
    ensures
        classify(trim(close_line(ind))) == LineKind::Close,
{
    lemma_trim_padded(ind, seq!['}'], Seq::empty());
    assert(close_line(ind) =~= ind + seq!['}'] + Seq::<char>::empty());
}

pub(crate) proof fn lemma_classify_group_open(label: Seq<char>, ind: Seq<char>)
    requires
        all_ws(ind),
    ensures
        classify(trim(group_open_line(label, ind))) == LineKind::GroupOpen(label),
{
    let q = seq!['"'] + label + seq!['"'];
    let q2 = q + seq![' ', '{'];
    let t = group_kw() + (seq![' '] + q2);
    assert(group_open_line(label, ind) =~= ind + t + Seq::<char>::empty());
    assert(t.last() == '{');
    lemma_trim_padded(ind, t, Seq::empty());
    if t == seq!['}'] {
        assert(t[0] == '}');
    }
    lemma_starts(t, group_kw());
    assert(t.skip(5) =~= seq![' '] + q2);
    assert(q2.last() == '{');
    lemma_trim_space_before(q2);
    assert(q2.drop_last() =~= q + seq![' ']);
    assert(q.last() == '"');
    lemma_trim_around(Seq::empty(), q, seq![' ']);
    assert(Seq::<char>::empty() + q + seq![' '] =~= q + seq![' ']);
    assert(q.subrange(1, q.len() - 1) =~= label);
}

pub(crate) proof fn lemma_classify_style_open(n: Seq<char>, ind: Seq<char>)
    requires
        all_ws(ind),
        wf_id(n),
    ensures
        classify(trim(style_open_line(n, ind))) == LineKind::StyleOpen(n),
{
    let r = node_text(n) + seq![' ', '{'];
    let t = style_kw() + (seq![' '] + r);
    assert(style_open_line(n, ind) =~= ind + t + Seq::<char>::empty());
    assert(t.last() == '{');
    lemma_trim_padded(ind, t, Seq::empty());
    if t == seq!['}'] {
        assert(t[0] == '}');
    }
    lemma_not_starts(t, group_kw(), 0);
    lemma_starts(t, style_kw());
    assert(t.skip(5) =~= seq![' '] + r);
    assert(r.last() == '{');
    lemma_trim_space_before(r);
    lemma_node_ref(n, seq![' ', '{']);
    lemma_trim_around(seq![' '], seq!['{'], Seq::empty());
    assert(seq![' '] + seq!['{'] + Seq::<char>::empty() =~= seq![' ', '{']);
}

pub(crate) proof fn lemma_classify_meta(m: PairV)
    requires
        wf_meta(m),
    ensures
        classify(trim(meta_line(m))) == LineKind::Meta(m),
{
    let (k, v) = m;
    let x = seq!['@'] + k;
    let t = x + seq![':'] + tail_of(v);
    lemma_colon_value(x, v);
    assert(meta_line(m) =~= Seq::<char>::empty() + t + pad_of(v));
    lemma_tidy_colon(x, v);
    lemma_trim_padded(Seq::empty(), t, pad_of(v));
    if t == seq!['}'] {
        assert(t[0] == '}');
    }
    assert forall|j: int| 0 <= j < x.len() implies #[trigger] x[j] != ':' by {
        if j > 0 {
            assert(x[j] == k[j - 1]);
        }
    }
    assert(t =~= x + (seq![':'] + tail_of(v)));
    lemma_find_first(x, seq![':'] + tail_of(v), ':');
    assert(t.subrange(1, x.len() as int) =~= k);
    assert(t.skip(x.len() as int + 1) =~= tail_of(v));
    lemma_trim_tidy(k);
    lemma_trim_tail(v);
}

/// A printed `key: value` line: its trimmed text, where the colon stands,
/// and the trimmed key and value on either side of it.
pub(crate) proof fn lemma_prop_line(p: PairV, ind: Seq<char>)
    requires
        all_ws(ind),
        wf_prop(p),
    ensures
        ({
            let t = trim(prop_line(p, ind));
            &&& t.len() > 0
            &&& t != seq!['}']
            &&& find(t, ':') == Some(p.0.len() as int)
            &&& trim(t.take(p.0.len() as int)) == p.0
            &&& trim(t.skip(p.0.len() as int + 1)) == p.1
        }),
{
    let (k, v) = p;
    let t = k + seq![':'] + tail_of(v);
    lemma_colon_value(k, v);
    assert(prop_line(p, ind) =~= (ind + indent_step()) + t + pad_of(v));
    assert(tidy(t)) by {
        if k.len() > 0 {
            assert(t[0] == k[0]);
        } else {
            assert(t[0] == ':');
        }
        if v.len() > 0 {
            assert(t.last() == v.last());
        } else {
            assert(t.last() == ':');
        }
    }
    assert(all_ws(ind + indent_step())) by {
        let w = ind + indent_step();
        assert forall|j: int| 0 <= j < w.len() implies is_ws(#[trigger] w[j]) by {
            if j < ind.len() {
                assert(w[j] == ind[j]);
            }
        }
    }
    lemma_trim_padded(ind + indent_step(), t, pad_of(v));
    assert(t[k.len() as int] == ':');
    if t == seq!['}'] {
        assert(t[0] == '}');
    }
    assert(t =~= k + (seq![':'] + tail_of(v)));
    lemma_find_first(k, seq![':'] + tail_of(v), ':');
    assert(t.take(k.len() as int) =~= k);
    assert(t.skip(k.len() as int + 1) =~= tail_of(v));
    lemma_trim_tidy(k);
    lemma_trim_tail(v);
}

// ── Lines of printed text ────────────────────────────────────────────────────

pub broadcast proof fn lemma_lacks_add(a: Seq<char>, b: Seq<char>, c: char)
    ensures
        #[trigger] lacks(a + b, c) <==> lacks(a, c) && lacks(b, c),
{
    if lacks(a + b, c) {
        assert forall|j: int| 0 <= j < a.len() implies #[trigger] a[j] != c by {
            assert((a + b)[j] == a[j]);
        }
        assert forall|j: int| 0 <= j < b.len() implies #[trigger] b[j] != c by {
            assert((a + b)[j + a.len()] == b[j]);
        }
    }
}

proof fn lemma_ws_lacks_nl(w: Seq<char>)
    requires
        all_ws(w),
    ensures
        lacks(w, '\n'),
{
    assert forall|j: int| 0 <= j < w.len() implies #[trigger] w[j] != '\n' by {
        assert(is_ws(w[j]));
    }
}

/// No line contains a newline.
pub open spec fn lines_ok(ls: Seq<Seq<char>>) -> bool {
    forall|i: int| 0 <= i < ls.len() ==> lacks(#[trigger] ls[i], '\n')
}

pub(crate) proof fn lemma_lines_of_join(ls: Seq<Seq<char>>)
    requires
        lines_ok(ls),
    ensures
        lines_of(join_lines(ls)) == ls.push(Seq::<char>::empty()),
    decreases ls.len(),
{
    if ls.len() == 0 {
        let e = Seq::<char>::empty();
        assert(join_lines(ls) == e);
        assert(find(e, '\n') == None::<int>);
        assert(lines_of(e) == seq![e]);
        assert(seq![e] =~= ls.push(e));
    } else {
        let rest = ls.drop_first();
        assert(lines_ok(rest)) by {
            assert forall|i: int| 0 <= i < rest.len() implies lacks(#[trigger] rest[i], '\n') by {
                assert(rest[i] == ls[i + 1]);
            }
        }
        lemma_lines_of_join(rest);
        let j = join_lines(rest);
        let s = join_lines(ls);
        assert(s =~= ls[0] + (seq!['\n'] + j));
        assert(lacks(ls[0], '\n'));
        lemma_find_first(ls[0], seq!['\n'] + j, '\n');
        let k = ls[0].len() as int;
        assert(s.take(k) =~= ls[0]);
        assert(s.skip(k + 1) =~= j);
        assert(lines_of(s) == seq![ls[0]] + lines_of(j));
        assert(seq![ls[0]] + rest.push(Seq::<char>::empty()) =~= ls.push(Seq::<char>::empty()));
    }
}

proof fn lemma_indent_ws(ind: Seq<char>)
    requires
        all_ws(ind),
    ensures
        all_ws(ind + indent_step()),
{
    let w = ind + indent_step();
    assert forall|j: int| 0 <= j < w.len() implies is_ws(#[trigger] w[j]) by {
        if j < ind.len() {
            assert(w[j] == ind[j]);
        }
    }
}

proof fn lemma_arrow_lacks_nl(a: Arrow)
    ensures
        lacks(arrow_text(a), '\n'),
{
}

pub(crate) proof fn lemma_stmt_lines_ok(s: StmtV, ind: Seq<char>)
    requires
        wf_stmt(s),
        all_ws(ind),
    ensures
        lines_ok(stmt_lines(s, ind)),
    decreases s,
{
    broadcast use lemma_lacks_add;

    lemma_ws_lacks_nl(ind);
    let ls = stmt_lines(s, ind);
    match s {
        StmtV::Group(label, ss) => {
            lemma_indent_ws(ind);
            lemma_stmts_lines_ok(ss, ind + indent_step());
            let inner = stmts_lines(ss, ind + indent_step());
            assert(lacks(group_open_line(label, ind), '\n'));
            assert(lacks(close_line(ind), '\n'));
            assert forall|i: int| 0 <= i < ls.len() implies lacks(#[trigger] ls[i], '\n') by {
                if 1 <= i < 1 + inner.len() {
                    assert(ls[i] == inner[i - 1]);
                }
            }
        },
        StmtV::Style(n, ps) => {
            let pl = prop_lines(ps, ind);
            assert(lacks(style_open_line(n, ind), '\n'));
            assert(lacks(close_line(ind), '\n'));
            assert forall|i: int| 0 <= i < ls.len() implies lacks(#[trigger] ls[i], '\n') by {
                if 1 <= i < 1 + pl.len() {
                    assert(ls[i] == pl[i - 1]);
                    assert(wf_prop(ps[i - 1]));
                    assert(pl[i - 1] == prop_line(ps[i - 1], ind));
                    lemma_ws_lacks_nl(indent_step());
                }
            }
        },
        StmtV::Connection(f, t, a, l) => {
            lemma_arrow_lacks_nl(a);
            assert(lacks(simple_line(s, ind), '\n'));
            assert(ls[0] == simple_line(s, ind));
        },
        _ => {
            assert(lacks(simple_line(s, ind), '\n'));
            assert(ls[0] == simple_line(s, ind));
        },
    }
}

pub(crate) proof fn lemma_stmts_lines_ok(ss: Seq<StmtV>, ind: Seq<char>)
    requires
        wf_stmts(ss),
        all_ws(ind),
    ensures
        lines_ok(stmts_lines(ss, ind)),
    decreases ss,
{
    if ss.len() > 0 {
        let init = ss.subrange(0, ss.len() - 1);
        lemma_stmts_lines_ok(init, ind);
        lemma_stmt_lines_ok(ss[ss.len() - 1], ind);
        let a = stmts_lines(init, ind);
        let b = stmt_lines(ss[ss.len() - 1], ind);
        assert forall|i: int| 0 <= i < (a + b).len() implies lacks(#[trigger] (a + b)[i], '\n') by {
            if i >= a.len() {
                assert((a + b)[i] == b[i - a.len()]);
            }
        }
    }
}

// ── Reading printed lines back ───────────────────────────────────────────────

/// `lines` holds `part` from index `i` on.
pub open spec fn holds_at(lines: Seq<Seq<char>>, i: int, part: Seq<Seq<char>>) -> bool {
    0 <= i && i + part.len() <= lines.len() && lines.subrange(i, i + part.len()) == part
}

proof fn lemma_holds_at_index(lines: Seq<Seq<char>>, i: int, part: Seq<Seq<char>>, j: int)
    requires
        holds_at(lines, i, part),
        0 <= j < part.len(),
    ensures
        lines[i + j] == part[j],
{
    assert(lines.subrange(i, i + part.len())[j] == lines[i + j]);
}

proof fn lemma_holds_at_split(lines: Seq<Seq<char>>, i: int, a: Seq<Seq<char>>, b: Seq<Seq<char>>)
    requires
        holds_at(lines, i, a + b),
    ensures
        holds_at(lines, i, a),
        holds_at(lines, i + a.len(), b),
{
    let ab = a + b;
    assert(lines.subrange(i, i + a.len()) =~= ab.subrange(0, a.len() as int)) by {
        assert forall|j: int| 0 <= j < a.len() implies lines.subrange(i, i + a.len())[j] == ab.subrange(0, a.len() as int)[j] by {
            lemma_holds_at_index(lines, i, ab, j);
        }
    }
    assert(ab.subrange(0, a.len() as int) =~= a);
    assert(lines.subrange(i + a.len(), i + a.len() + b.len()) =~= b) by {
        assert forall|j: int| 0 <= j < b.len() implies lines.subrange(i + a.len(), i + a.len() + b.len())[j] == b[j] by {
            lemma_holds_at_index(lines, i, ab, a.len() + j);
        }
    }
}

pub(crate) proof fn lemma_parse_props_from(lines: Seq<Seq<char>>, i: int, ps: Seq<PairV>, ind: Seq<char>, m: int)
    requires
        all_ws(ind),
        forall|k: int| 0 <= k < ps.len() ==> wf_prop(#[trigger] ps[k]),
        holds_at(lines, i, prop_lines(ps, ind) + seq![close_line(ind)]),
        0 <= m <= ps.len(),
    ensures
        parse_props(lines, i + m) == Ok::<(Seq<PairV>, int), Seq<char>>((ps.skip(m), i + ps.len() + 1)),
    decreases ps.len() - m,
{
    let part = prop_lines(ps, ind) + seq![close_line(ind)];
    lemma_holds_at_index(lines, i, part, m);
    if m == ps.len() {
        assert(lines[i + m] == close_line(ind));
        lemma_classify_close(ind);
        lemma_trim_padded(ind, seq!['}'], Seq::empty());
        assert(close_line(ind) =~= ind + seq!['}'] + Seq::<char>::empty());
        assert(ps.skip(m) =~= Seq::<PairV>::empty());
    } else {
        assert(lines[i + m] == prop_line(ps[m], ind));
        lemma_prop_line(ps[m], ind);
        lemma_parse_props_from(lines, i, ps, ind, m + 1);
        assert(seq![ps[m]] + ps.skip(m + 1) =~= ps.skip(m));
    }
}

pub(crate) proof fn lemma_parse_stmt(lines: Seq<Seq<char>>, i: int, s: StmtV, ind: Seq<char>, top: bool)
    requires
        wf_stmt(s),
        all_ws(ind),
        holds_at(lines, i, stmt_lines(s, ind)),
    ensures
        parse_items(lines, i, top) == prefix_with(
            Seq::empty(),
            seq![s],
            parse_items(lines, i + stmt_lines(s, ind).len(), top),
        ),
    decreases s,
{
    let ls = stmt_lines(s, ind);
    lemma_holds_at_index(lines, i, ls, 0);
    match s {
        StmtV::Group(label, ss) => {
            let inner_ind = ind + indent_step();
            let inner = stmts_lines(ss, inner_ind);
            let k = inner.len() as int;
            lemma_classify_group_open(label, ind);
            lemma_indent_ws(ind);
            assert(ls =~= seq![group_open_line(label, ind)] + (inner + seq![close_line(ind)]));
            lemma_holds_at_split(lines, i, seq![group_open_line(label, ind)], inner + seq![close_line(ind)]);
            lemma_holds_at_split(lines, i + 1, inner, seq![close_line(ind)]);
            lemma_parse_stmts(lines, i + 1, ss, inner_ind, false);
            lemma_holds_at_index(lines, i + 1 + k, seq![close_line(ind)], 0);
            lemma_classify_close(ind);
            assert(parse_items(lines, i + 1 + k, false) == Ok::<(Seq<PairV>, Seq<StmtV>, int), Seq<char>>((Seq::<PairV>::empty(), Seq::<StmtV>::empty(), i + 2 + k)));
            assert(Seq::<PairV>::empty() + Seq::<PairV>::empty() =~= Seq::<PairV>::empty());
            assert(ss + Seq::<StmtV>::empty() =~= ss);
        },
        StmtV::Style(n, ps) => {
            let pl = prop_lines(ps, ind);
            lemma_classify_style_open(n, ind);
            assert(ls =~= seq![style_open_line(n, ind)] + (pl + seq![close_line(ind)]));
            lemma_holds_at_split(lines, i, seq![style_open_line(n, ind)], pl + seq![close_line(ind)]);
            lemma_parse_props_from(lines, i + 1, ps, ind, 0);
            assert(ps.skip(0) =~= ps);
        },
        _ => {
            lemma_classify_simple(s, ind);
            assert(ls[0] == simple_line(s, ind));
        },
    }
}

pub(crate) proof fn lemma_parse_stmts(lines: Seq<Seq<char>>, i: int, ss: Seq<StmtV>, ind: Seq<char>, top: bool)
    requires
        wf_stmts(ss),
        all_ws(ind),
        holds_at(lines, i, stmts_lines(ss, ind)),
    ensures
        parse_items(lines, i, top) == prefix_with(
            Seq::empty(),
            ss,
            parse_items(lines, i + stmts_lines(ss, ind).len(), top),
        ),
    decreases ss,
{
    if ss.len() == 0 {
        crate::parser::lemma_prefix_empty(parse_items(lines, i, top));
    } else {
        let init = ss.subrange(0, ss.len() - 1);
        let last = ss[ss.len() - 1];
        let a = stmts_lines(init, ind);
        let b = stmt_lines(last, ind);
        lemma_holds_at_split(lines, i, a, b);
        lemma_parse_stmts(lines, i, init, ind, top);
        lemma_parse_stmt(lines, i + a.len(), last, ind, top);
        crate::parser::lemma_prefix_assoc(
            Seq::empty(),
            init,
            Seq::empty(),
            seq![last],
            parse_items(lines, i + a.len() + b.len(), top),
        );
        assert(Seq::<PairV>::empty() + Seq::<PairV>::empty() =~= Seq::<PairV>::empty());
        assert(init + seq![last] =~= ss);
    }
}

pub(crate) proof fn lemma_parse_metas_from(lines: Seq<Seq<char>>, ms: Seq<PairV>, m: int)
    requires
        forall|k: int| 0 <= k < ms.len() ==> wf_meta(#[trigger] ms[k]),
        holds_at(lines, 0, meta_lines(ms)),
        0 <= m <= ms.len(),
    ensures
        parse_items(lines, m, true) == prefix_with(ms.skip(m), Seq::empty(), parse_items(lines, ms.len() as int, true)),
    decreases ms.len() - m,
{
    if m == ms.len() {
        assert(ms.skip(m) =~= Seq::<PairV>::empty());
        crate::parser::lemma_prefix_empty(parse_items(lines, m, true));
    } else {
        lemma_holds_at_index(lines, 0, meta_lines(ms), m);
        lemma_classify_meta(ms[m]);
        lemma_parse_metas_from(lines, ms, m + 1);
        crate::parser::lemma_prefix_assoc(
            seq![ms[m]],
            Seq::empty(),
            ms.skip(m + 1),
            Seq::empty(),
            parse_items(lines, ms.len() as int, true),
        );
        assert(seq![ms[m]] + ms.skip(m + 1) =~= ms.skip(m));
        assert(Seq::<StmtV>::empty() + Seq::<StmtV>::empty() =~= Seq::<StmtV>::empty());
    }
}

proof fn lemma_printed_lines(d: DiagramV)
    requires
        wf_diagram(d),
    ensures
        lines_of(print_spec(d)) == diagram_lines(d).push(Seq::<char>::empty()),
{
    let ml = meta_lines(d.meta);
    let blank: Seq<Seq<char>> = if d.meta.len() > 0 {
        seq![Seq::<char>::empty()]
    } else {
        Seq::empty()
    };
    let sl = stmts_lines(d.stmts, Seq::empty());
    let dl = diagram_lines(d);
    assert(all_ws(Seq::<char>::empty()));
    lemma_stmts_lines_ok(d.stmts, Seq::empty());
    assert(lines_ok(dl)) by {
        broadcast use lemma_lacks_add;

        assert forall|i: int| 0 <= i < dl.len() implies lacks(#[trigger] dl[i], '\n') by {
            if i < ml.len() {
                assert(dl[i] == ml[i]);
                assert(wf_meta(d.meta[i]));
                assert(ml[i] == meta_line(d.meta[i]));
            } else if i < ml.len() + blank.len() {
                assert(dl[i] == Seq::<char>::empty());
            } else {
                assert(dl[i] == sl[i - ml.len() - blank.len()]);
            }
        }
    }
    lemma_lines_of_join(dl);
}

proof fn lemma_parse_printed_lines(d: DiagramV)
    requires
        wf_diagram(d),
    ensures
        parse_items(diagram_lines(d).push(Seq::<char>::empty()), 0, true) == Ok::<(Seq<PairV>, Seq<StmtV>, int), Seq<char>>((d.meta, d.stmts, diagram_lines(d).len() as int + 1)),
{
    let ml = meta_lines(d.meta);
    let blank: Seq<Seq<char>> = if d.meta.len() > 0 {
        seq![Seq::<char>::empty()]
    } else {
        Seq::empty()
    };
    let sl = stmts_lines(d.stmts, Seq::empty());
    let lines = diagram_lines(d).push(Seq::<char>::empty());
    let n = lines.len() as int;
    let e0 = Seq::<char>::empty();
    assert(all_ws(e0));
    assert(lines =~= ml + (blank + (sl + seq![e0])));
    assert(lines.subrange(0, n) =~= lines);
    lemma_holds_at_split(lines, 0, ml, blank + (sl + seq![e0]));
    lemma_parse_metas_from(lines, d.meta, 0);
    assert(d.meta.skip(0) =~= d.meta);
    let b = ml.len() as int;
    lemma_holds_at_split(lines, b, blank, sl + seq![e0]);
    let c = b + blank.len();
    lemma_trim_tidy(e0);
    if d.meta.len() > 0 {
        lemma_holds_at_index(lines, b, blank, 0);
        assert(parse_items(lines, b, true) == parse_items(lines, c, true));
    }
    lemma_holds_at_split(lines, c, sl, seq![e0]);
    lemma_parse_stmts(lines, c, d.stmts, e0, true);
    let e = c + sl.len();
    lemma_holds_at_index(lines, e, seq![e0], 0);
    assert(e + 1 == n);
    assert(parse_items(lines, e, true) == parse_items(lines, n, true));
    assert(d.stmts + Seq::<StmtV>::empty() =~= d.stmts);
    assert(Seq::<PairV>::empty() + Seq::<PairV>::empty() =~= Seq::<PairV>::empty());
    assert(d.meta + Seq::<PairV>::empty() =~= d.meta);
    assert(Seq::<StmtV>::empty() + d.stmts =~= d.stmts);
}

/// Printing a well-formed diagram and parsing the text back gives the same
/// diagram.
pub proof fn law_parse_print_roundtrip(d: DiagramV)
    requires
        wf_diagram(d),
    ensures
        parse_spec(print_spec(d)) == Ok::<DiagramV, Seq<char>>(d),
{
    lemma_printed_lines(d);
    lemma_parse_printed_lines(d);
}


// ── Group labels without quotes ──────────────────────────────────────────────

/// The line `group L {` with the label written without quotes.
pub open spec fn bare_group_line(label: Seq<char>) -> Seq<char> {
    group_kw() + seq![' '] + label + seq![' ', '{']
}

/// A label that can stand bare: some text, without surrounding blanks or
/// newlines, that is not itself wrapped in double quotes.
pub open spec fn bare_label(label: Seq<char>) -> bool {
    &&& label.len() > 0
    &&& tidy(label)
    &&& lacks(label, '\n')
    &&& !(label.len() >= 2 && label[0] == '"' && label.last() == '"')
}

/// A group line opens a group whose label is the text between `group` and
/// `{`, written with or without quotes: the bare form, at any indentation,
/// opens the same group as the quoted one.
pub proof fn law_bare_group_line(label: Seq<char>, ind: Seq<char>)
    requires
        bare_label(label),
        all_ws(ind),
    ensures
        classify(trim(ind + bare_group_line(label))) == LineKind::GroupOpen(label),
        classify(trim(ind + bare_group_line(label))) == classify(trim(group_open_line(label, ind))),
{
    let q2 = label + seq![' ', '{'];
    let t = group_kw() + (seq![' '] + q2);
    assert(bare_group_line(label) =~= t);
    assert(t.last() == '{');
    assert(t[0] == 'g');
    assert(tidy(t));
    lemma_trim_padded(ind, t, Seq::empty());
    assert(ind + t + Seq::<char>::empty() =~= ind + t);
    if t == seq!['}'] {
        assert(t[0] == '}');
    }
    lemma_starts(t, group_kw());
    assert(t.skip(5) =~= seq![' '] + q2);
    assert(q2[0] == label[0]);
    assert(q2.last() == '{');
    assert(tidy(q2));
    lemma_trim_space_before(q2);
    assert(q2.drop_last() =~= label + seq![' ']);
    lemma_trim_around(Seq::empty(), label, seq![' ']);
    assert(Seq::<char>::empty() + label + seq![' '] =~= label + seq![' ']);
    lemma_classify_group_open(label, ind);
}

/// A diagram made of one group with a bare label: the text
/// `group L {`, the group's statements one level in, and `}`, parses to
/// that group, labelled `L`, holding those statements.
pub proof fn law_bare_group_parses(label: Seq<char>, ss: Seq<StmtV>)
    requires
        bare_label(label),
        wf_stmts(ss),
    ensures
        parse_spec(join_lines(seq![bare_group_line(label)] + stmts_lines(ss, indent_step()) + seq![seq!['}']]))
            == Ok::<DiagramV, Seq<char>>(DiagramV { meta: Seq::empty(), stmts: seq![StmtV::Group(label, ss)] }),
{
    let e0 = Seq::<char>::empty();
    let ind = indent_step();
    assert(all_ws(e0));
    assert(all_ws(ind));
    let head = bare_group_line(label);
    let inner = stmts_lines(ss, ind);
    let close = seq!['}'];
    let ls = seq![head] + inner + seq![close];
    lemma_stmts_lines_ok(ss, ind);
    assert(lines_ok(ls)) by {
        broadcast use lemma_lacks_add;

        assert(lacks(group_kw() + seq![' '], '\n'));
        assert(lacks(seq![' ', '{'], '\n'));
        assert(lacks(close, '\n'));
        assert forall|i: int| 0 <= i < ls.len() implies lacks(#[trigger] ls[i], '\n') by {
            if i == 0 {
                assert(ls[i] == head);
            } else if i < 1 + inner.len() {
                assert(ls[i] == inner[i - 1]);
            } else {
                assert(ls[i] == close);
            }
        }
    }
    lemma_lines_of_join(ls);
    let lines = ls.push(e0);
    let k = inner.len() as int;
    let n = lines.len() as int;
    assert(n == k + 3);
    // The group line.
    assert(lines[0] == head);
    law_bare_group_line(label, e0);
    assert(e0 + head =~= head);
    // The group's statements, then its closing line.
    assert(lines.subrange(1, 1 + k) =~= inner);
    assert(holds_at(lines, 1, inner));
    lemma_parse_stmts(lines, 1, ss, ind, false);
    assert(lines[1 + k] == close);
    assert(close_line(e0) =~= close);
    lemma_classify_close(e0);
    assert(parse_items(lines, 1 + k, false) == Ok::<(Seq<PairV>, Seq<StmtV>, int), Seq<char>>((Seq::<PairV>::empty(), Seq::<StmtV>::empty(), k + 2)));
    assert(ss + Seq::<StmtV>::empty() =~= ss);
    assert(parse_items(lines, 1, false) == Ok::<(Seq<PairV>, Seq<StmtV>, int), Seq<char>>((Seq::<PairV>::empty(), ss, k + 2)));
    // The empty last line and the end of the text.
    assert(lines[k + 2] == e0);
    lemma_trim_tidy(e0);
    assert(parse_items(lines, k + 3, true) == Ok::<(Seq<PairV>, Seq<StmtV>, int), Seq<char>>((Seq::<PairV>::empty(), Seq::<StmtV>::empty(), n)));
    assert(parse_items(lines, k + 2, true) == parse_items(lines, k + 3, true));
    assert(seq![StmtV::Group(label, ss)] + Seq::<StmtV>::empty() =~= seq![StmtV::Group(label, ss)]);
    assert(Seq::<PairV>::empty() + Seq::<PairV>::empty() =~= Seq::<PairV>::empty());
    assert(parse_items(lines, 0, true) == Ok::<(Seq<PairV>, Seq<StmtV>, int), Seq<char>>((Seq::<PairV>::empty(), seq![StmtV::Group(label, ss)], n)));
}

} // verus!
