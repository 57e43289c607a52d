//! Pretty-printer: turns a [`Diagram`] back into `.aras` source text.
use vstd::prelude::*;
use vstd::string::*;
use crate::ast::{Arrow, Diagram, DiagramV, NodeId, PairV, Stmt, StmtV, lemma_stmts_view_len, meta_view, metas_view, prop_view, props_view, stmt_view, stmts_view};
use crate::text::push_char;

verus! {

// ── Specification ────────────────────────────────────────────────────────────

/// Lines joined into one text, each line followed by a newline.
pub open spec fn join_lines(ls: Seq<Seq<char>>) -> Seq<char>
    decreases ls.len(),
{
    if ls.len() == 0 {
        Seq::empty()
    } else {
        ls[0] + seq!['\n'] + join_lines(ls.drop_first())
    }
}

/// How an arrow is written.
pub open spec fn arrow_text(a: Arrow) -> Seq<char> {
    match a {
        Arrow::Directed => seq!['-', '-', '>'],
        Arrow::Reverse => seq!['<', '-', '-'],
        Arrow::Bidirectional => seq!['<', '-', '>'],
        Arrow::Undirected => seq!['-', '-'],
        Arrow::Async => seq!['-', '.', '.', '-', '>'],
    }
}

/// The two spaces that each level of nesting adds in front of a line.
pub open spec fn indent_step() -> Seq<char> {
    seq![' ', ' ']
}

/// `[id]`
pub open spec fn node_text(id: Seq<char>) -> Seq<char> {
    seq!['['] + id + seq![']']
}

/// `@key: value`
pub open spec fn meta_line(m: PairV) -> Seq<char> {
    seq!['@'] + m.0 + seq![':', ' '] + m.1
}

/// `key: value`, behind the given indentation
pub open spec fn prop_line(p: PairV, ind: Seq<char>) -> Seq<char> {
    ind + indent_step() + p.0 + seq![':', ' '] + p.1
}

/// One line per metadata entry.
pub open spec fn meta_lines(ms: Seq<PairV>) -> Seq<Seq<char>> {
    ms.map_values(|m: PairV| meta_line(m))
}

/// One line per style property, one level deeper than `ind`.
pub open spec fn prop_lines(ps: Seq<PairV>, ind: Seq<char>) -> Seq<Seq<char>> {
    ps.map_values(|p: PairV| prop_line(p, ind))
}

/// The single line of a statement that is not a block.
pub open spec fn simple_line(s: StmtV, ind: Seq<char>) -> Seq<char> {
    match s {
        StmtV::Node(id) => ind + node_text(id),
        StmtV::NodeDecl(id, label) => ind + node_text(id) + seq![':', ' ', '"'] + label + seq!['"'],
        StmtV::NodeAttr(n, k, v) => ind + node_text(n) + seq!['.'] + k + seq![':', ' '] + v,
        StmtV::Connection(f, t, a, l) => {
            let base = ind + node_text(f) + seq![' '] + arrow_text(a) + seq![' '] + node_text(t);
            match l {
                Some(l) => base + seq![':', ' '] + l,
                None => base,
            }
        },
        _ => Seq::empty(),
    }
}

/// `group "label" {`
pub open spec fn group_open_line(label: Seq<char>, ind: Seq<char>) -> Seq<char> {
    ind + seq!['g', 'r', 'o', 'u', 'p', ' ', '"'] + label + seq!['"', ' ', '{']
}

/// `style [node] {`
pub open spec fn style_open_line(n: Seq<char>, ind: Seq<char>) -> Seq<char> {
    ind + seq!['s', 't', 'y', 'l', 'e', ' '] + node_text(n) + seq![' ', '{']
}

/// `}`
pub open spec fn close_line(ind: Seq<char>) -> Seq<char> {
    ind + seq!['}']
}

/// The lines that print a statement at the given indentation.
pub open spec fn stmt_lines(s: StmtV, ind: Seq<char>) -> Seq<Seq<char>>
    decreases s,
{
    match s {
        StmtV::Group(label, ss) => seq![group_open_line(label, ind)] + stmts_lines(
            ss,
            ind + indent_step(),
        ) + seq![close_line(ind)],
        StmtV::Style(n, props) => seq![style_open_line(n, ind)] + prop_lines(props, ind) + seq![
            close_line(ind),
        ],
        _ => seq![simple_line(s, ind)],
    }
}

/// The lines that print a list of statements, one after the other.
pub open spec fn stmts_lines(ss: Seq<StmtV>, ind: Seq<char>) -> Seq<Seq<char>>
    decreases ss,
{
    if ss.len() == 0 {
        Seq::empty()
    } else {
        stmts_lines(ss.subrange(0, ss.len() - 1), ind) + stmt_lines(ss[ss.len() - 1], ind)
    }
}

/// The lines of a printed diagram: metadata, a blank line if there was
/// metadata, then the statements.
pub open spec fn diagram_lines(d: DiagramV) -> Seq<Seq<char>> {
    meta_lines(d.meta) + (if d.meta.len() > 0 {
        seq![Seq::<char>::empty()]
    } else {
        Seq::empty()
    }) + stmts_lines(d.stmts, Seq::empty())
}

/// The text that `print` produces for a diagram.
pub open spec fn print_spec(d: DiagramV) -> Seq<char> {
    join_lines(diagram_lines(d))
}

// ── Lemmas ───────────────────────────────────────────────────────────────────

pub(crate) proof fn lemma_join_lines_append(a: Seq<Seq<char>>, b: Seq<Seq<char>>)
    ensures
        join_lines(a + b) == join_lines(a) + join_lines(b),
    decreases a.len(),
{
    if a.len() == 0 {
        assert(a + b =~= b);
    } else {
        lemma_join_lines_append(a.drop_first(), b);
        assert((a + b).drop_first() =~= a.drop_first() + b);
    }
}

pub(crate) proof fn lemma_join_line(l: Seq<char>)
    ensures
        join_lines(seq![l]) == l + seq!['\n'],
{
    let one = seq![l];
    assert(one.drop_first() =~= Seq::<Seq<char>>::empty());
    assert(join_lines(one.drop_first()) == Seq::<char>::empty());
    assert(one[0] == l);
    assert(join_lines(one) == one[0] + seq!['\n'] + join_lines(one.drop_first()));
    assert(join_lines(one) =~= l + seq!['\n']);
}

/// The lines of two statement lists, one after the other, are the lines of
/// the first followed by those of the second.
proof fn lemma_stmts_lines_append(s1: Seq<StmtV>, s2: Seq<StmtV>, ind: Seq<char>)
    ensures
        stmts_lines(s1 + s2, ind) == stmts_lines(s1, ind) + stmts_lines(s2, ind),
    decreases s2.len(),
{
    if s2.len() == 0 {
        assert(s1 + s2 =~= s1);
        assert(stmts_lines(s2, ind) =~= Seq::<Seq<char>>::empty());
        assert(stmts_lines(s1, ind) + stmts_lines(s2, ind) =~= stmts_lines(s1, ind));
    } else {
        let t = s2.subrange(0, s2.len() - 1);
        lemma_stmts_lines_append(s1, t, ind);
        let j = s1 + s2;
        assert(j.subrange(0, j.len() - 1) =~= s1 + t);
        assert(j[j.len() - 1] == s2[s2.len() - 1]);
        let a = stmts_lines(s1, ind);
        let b = stmts_lines(t, ind);
        let c = stmt_lines(s2[s2.len() - 1], ind);
        assert((a + b) + c =~= a + (b + c));
    }
}

/// Printing distributes over statements and metadata: the text of a
/// diagram whose statements are two lists joined is the text of the first
/// list followed by that of the second, and the text of a diagram is the
/// text of its metadata alone followed by the text of its statements alone.
pub proof fn law_print_distributes(m: Seq<PairV>, s1: Seq<StmtV>, s2: Seq<StmtV>)
    ensures
        print_spec(DiagramV { meta: Seq::empty(), stmts: s1 + s2 }) == print_spec(
            DiagramV { meta: Seq::empty(), stmts: s1 },
        ) + print_spec(DiagramV { meta: Seq::empty(), stmts: s2 }),
        print_spec(DiagramV { meta: m, stmts: s1 }) == print_spec(DiagramV { meta: m, stmts: Seq::empty() })
            + print_spec(DiagramV { meta: Seq::empty(), stmts: s1 }),
{
    let e = Seq::<PairV>::empty();
    let none = Seq::<Seq<char>>::empty();
    assert(meta_lines(e) =~= none);
    lemma_stmts_lines_append(s1, s2, Seq::empty());
    let l1 = stmts_lines(s1, Seq::empty());
    let l2 = stmts_lines(s2, Seq::empty());
    assert(diagram_lines(DiagramV { meta: e, stmts: s1 + s2 }) =~= l1 + l2);
    assert(diagram_lines(DiagramV { meta: e, stmts: s1 }) =~= l1);
    assert(diagram_lines(DiagramV { meta: e, stmts: s2 }) =~= l2);
    lemma_join_lines_append(l1, l2);
    let head = meta_lines(m) + (if m.len() > 0 {
        seq![Seq::<char>::empty()]
    } else {
        none
    });
    assert(stmts_lines(Seq::<StmtV>::empty(), Seq::empty()) =~= none);
    assert(diagram_lines(DiagramV { meta: m, stmts: Seq::empty() }) =~= head);
    assert(diagram_lines(DiagramV { meta: m, stmts: s1 }) =~= head + l1);
    lemma_join_lines_append(head, l1);
}

// ── Executable printer ───────────────────────────────────────────────────────

fn arrow_str(a: Arrow) -> (r: &'static str)
    ensures
        r@ == arrow_text(a),
{
    match a {
        Arrow::Directed => {
            proof { reveal_strlit("-->"); }
            "-->"
        },
        Arrow::Reverse => {
            proof { reveal_strlit("<--"); }
            "<--"
        },
        Arrow::Bidirectional => {
            proof { reveal_strlit("<->"); }
            "<->"
        },
        Arrow::Undirected => {
            proof { reveal_strlit("--"); }
            "--"
        },
        Arrow::Async => {
            proof { reveal_strlit("-..->"); }
            "-..->"
        },
    }
}

/// Appends `text` to `out`.
fn put(out: &mut String, text: &str)
    ensures
        final(out)@ == old(out)@ + text@,
{
    out.append(text);
}

/// Appends `[id]`.
fn put_node(out: &mut String, id: &NodeId)
    ensures
        final(out)@ == old(out)@ + node_text(id.0@),
{
    push_char(out, '[');
    put(out, id.0.as_str());
    push_char(out, ']');
    assert(final(out)@ =~= old(out)@ + node_text(id.0@));
}

/// Appends a newline, closing the line that `out` ends with.
fn end_line(out: &mut String, Ghost(before): Ghost<Seq<char>>, Ghost(line): Ghost<Seq<char>>)
    requires
        old(out)@ == before + line,
    ensures
        final(out)@ == before + join_lines(seq![line]),
{
    push_char(out, '\n');
    proof {
        lemma_join_line(line);
    }
    assert(final(out)@ =~= before + join_lines(seq![line]));
}

fn print_simple(out: &mut String, stmt: &Stmt, ind: &String)
    requires
        !(stmt is Group),
        !(stmt is Style),
    ensures
        final(out)@ == old(out)@ + join_lines(seq![simple_line(stmt@, ind@)]),
{
    let ghost before = old(out)@;
    put(out, ind.as_str());
    match stmt {
        Stmt::Node(id) => {
            put_node(out, id);
        },
        Stmt::NodeDecl(id, label) => {
            put_node(out, id);
            push_char(out, ':');
            push_char(out, ' ');
            push_char(out, '"');
            put(out, label.as_str());
            push_char(out, '"');
        },
        Stmt::NodeAttr(a) => {
            put_node(out, &a.node);
            push_char(out, '.');
            put(out, a.key.as_str());
            push_char(out, ':');
            push_char(out, ' ');
            put(out, a.value.as_str());
        },
        Stmt::Connection(c) => {
            put_node(out, &c.from);
            push_char(out, ' ');
            put(out, arrow_str(c.arrow));
            push_char(out, ' ');
            put_node(out, &c.to);
            match &c.label {
                Some(l) => {
                    push_char(out, ':');
                    push_char(out, ' ');
                    put(out, l.as_str());
                },
                None => {},
            }
        },
        _ => {},
    }
    assert(out@ =~= before + simple_line(stmt@, ind@));
    end_line(out, Ghost(before), Ghost(simple_line(stmt@, ind@)));
}

fn print_stmt(out: &mut String, stmt: &Stmt, ind: &String)
    ensures
        final(out)@ == old(out)@ + join_lines(stmt_lines(stmt@, ind@)),
    decreases stmt,
{
    let ghost before = old(out)@;
    match stmt {
        Stmt::Group(g) => {
            put(out, ind.as_str());
            put(out, "group \"");
            put(out, g.label.as_str());
            put(out, "\" {");
            proof {
                reveal_strlit("group \"");
                reveal_strlit("\" {");
            }
            let ghost open_line = group_open_line(g.label@, ind@);
            assert(out@ =~= before + open_line);
            end_line(out, Ghost(before), Ghost(open_line));
            let ghost mid = out@;
            let mut inner = ind.clone();
            put(&mut inner, "  ");
            proof { reveal_strlit("  "); }
            assert(inner@ =~= ind@ + indent_step());
            print_stmts(out, &g.stmts, &inner);
            let ghost mid2 = out@;
            put(out, ind.as_str());
            push_char(out, '}');
            assert(out@ =~= mid2 + close_line(ind@));
            end_line(out, Ghost(mid2), Ghost(close_line(ind@)));
            proof {
                let a = seq![open_line];
                let b = stmts_lines(stmts_view(g.stmts@), ind@ + indent_step());
                let c = seq![close_line(ind@)];
                lemma_join_lines_append(a, b);
                lemma_join_lines_append(a + b, c);
            }
        },
        Stmt::Style(st) => {
            put(out, ind.as_str());
            put(out, "style ");
            proof { reveal_strlit("style "); }
            put_node(out, &st.node);
            push_char(out, ' ');
            push_char(out, '{');
            let ghost open_line = style_open_line(st.node.0@, ind@);
            assert(out@ =~= before + open_line);
            end_line(out, Ghost(before), Ghost(open_line));
            let ghost mid = out@;
            let n = st.props.len();
            for i in 0..n
                invariant
                    n == st.props@.len(),
                    out@ == mid + join_lines(prop_lines(props_view(st.props@), ind@).take(i as int)),
            {
                let ghost cur = out@;
                put(out, ind.as_str());
                push_char(out, ' ');
                push_char(out, ' ');
                put(out, st.props[i].key.as_str());
                push_char(out, ':');
                push_char(out, ' ');
                put(out, st.props[i].value.as_str());
                let ghost line = prop_line(prop_view(st.props@[i as int]), ind@);
                assert(out@ =~= cur + line);
                end_line(out, Ghost(cur), Ghost(line));
                proof {
                    let all = prop_lines(props_view(st.props@), ind@);
                    assert(all.take(i + 1) =~= all.take(i as int) + seq![line]);
                    lemma_join_lines_append(all.take(i as int), seq![line]);
                }
            }
            let ghost mid2 = out@;
            put(out, ind.as_str());
            push_char(out, '}');
            assert(out@ =~= mid2 + close_line(ind@));
            end_line(out, Ghost(mid2), Ghost(close_line(ind@)));
            proof {
                let all = prop_lines(props_view(st.props@), ind@);
                assert(all.take(n as int) =~= all);
                let a = seq![open_line];
                let c = seq![close_line(ind@)];
                lemma_join_lines_append(a, all);
                lemma_join_lines_append(a + all, c);
            }
        },
        _ => {
            print_simple(out, stmt, ind);
        },
    }
}

fn print_stmts(out: &mut String, stmts: &Vec<Stmt>, ind: &String)
    ensures
        final(out)@ == old(out)@ + join_lines(stmts_lines(stmts_view(stmts@), ind@)),
    decreases stmts,
{
    let ghost before = old(out)@;
    let n = stmts.len();
    proof {
        lemma_stmts_view_len(stmts@);
    }
    for i in 0..n
        invariant
            n == stmts@.len(),
            stmts_view(stmts@).len() == n,
            forall|j: int| 0 <= j < n ==> #[trigger] stmts_view(stmts@)[j] == stmt_view(stmts@[j]),
            out@ == before + join_lines(
                stmts_lines(stmts_view(stmts@).subrange(0, i as int), ind@),
            ),
    {
        assert(decreases_to!(stmts => stmts@[i as int]));
        let ghost cur = out@;
        print_stmt(out, &stmts[i], ind);
        proof {
            let vs = stmts_view(stmts@);
            let pre = vs.subrange(0, i as int);
            let next = vs.subrange(0, i + 1);
            assert(next.subrange(0, next.len() - 1) =~= pre);
            assert(next[next.len() - 1] == stmt_view(stmts@[i as int]));
            lemma_join_lines_append(stmts_lines(pre, ind@), stmt_lines(next[next.len() - 1], ind@));
        }
    }
    assert(stmts_view(stmts@).subrange(0, n as int) =~= stmts_view(stmts@));
}

/// Renders a diagram as `.aras` source text: one `@key: value` line per
/// metadata entry, a blank line if there was any metadata, then the
/// statements, with two spaces of indentation per level of nesting.
pub fn print(diagram: &Diagram) -> (out: String)
    ensures
        out@ == print_spec(diagram@),
{
    let mut out = String::new();
    let n = diagram.meta.len();
    for i in 0..n
        invariant
            n == diagram.meta@.len(),
            out@ == join_lines(meta_lines(metas_view(diagram.meta@)).take(i as int)),
    {
        let ghost cur = out@;
        push_char(&mut out, '@');
        put(&mut out, diagram.meta[i].key.as_str());
        push_char(&mut out, ':');
        push_char(&mut out, ' ');
        put(&mut out, diagram.meta[i].value.as_str());
        let ghost line = meta_line(meta_view(diagram.meta@[i as int]));
        assert(out@ =~= cur + line);
        end_line(&mut out, Ghost(cur), Ghost(line));
        proof {
            let all = meta_lines(metas_view(diagram.meta@));
            assert(all.take(i + 1) =~= all.take(i as int) + seq![line]);
            lemma_join_lines_append(all.take(i as int), seq![line]);
        }
    }
    let ghost metas = meta_lines(metas_view(diagram.meta@));
    assert(metas.take(n as int) =~= metas);
    let ghost after_meta = out@;
    let ghost blank: Seq<Seq<char>> = if n > 0 {
        seq![Seq::<char>::empty()]
    } else {
        Seq::empty()
    };
    if n > 0 {
        push_char(&mut out, '\n');
        proof {
            lemma_join_line(Seq::<char>::empty());
        }
        assert(out@ =~= after_meta + join_lines(blank));
    } else {
        assert(out@ =~= after_meta + join_lines(blank));
    }
    let top = String::new();
    print_stmts(&mut out, &diagram.stmts, &top);
    proof {
        let s = stmts_lines(stmts_view(diagram.stmts@), Seq::empty());
        lemma_join_lines_append(metas, blank);
        lemma_join_lines_append(metas + blank, s);
    }
    out
}

} // verus!
