//! Editing a diagram's source: giving a node a new display label.
use vstd::prelude::*;
use vstd::string::*;
use crate::ast::{
    Diagram, DiagramV, Group, NodeId, Stmt, StmtV, clone_node_id, clone_stmt, lemma_stmts_view_len,
    metas_view, stmt_view, stmts_view,
};
use crate::error::error_message;
use crate::parser::{parse, parse_spec};
use crate::printer::{print, print_spec};

verus! {

// ── Specification ────────────────────────────────────────────────────────────

/// `s` declares the node `id` with a label.
pub open spec fn is_decl_of(s: StmtV, id: Seq<char>) -> bool {
    s matches StmtV::NodeDecl(i, _) && i == id
}

/// A top-level statement that declares `id`, itself or as a direct member
/// of a group.
pub open spec fn declares(s: StmtV, id: Seq<char>) -> bool {
    match s {
        StmtV::NodeDecl(i, _) => i == id,
        StmtV::Group(_, inner) => exists|j: int| 0 <= j < inner.len() && is_decl_of(#[trigger] inner[j], id),
        _ => false,
    }
}

/// Some top-level statement declares `id`.
pub open spec fn has_decl(ss: Seq<StmtV>, id: Seq<char>) -> bool {
    exists|k: int| 0 <= k < ss.len() && declares(#[trigger] ss[k], id)
}

/// A declaration of `id` with its label replaced.
pub open spec fn relabel_inner(s: StmtV, id: Seq<char>, label: Seq<char>) -> StmtV {
    if is_decl_of(s, id) {
        StmtV::NodeDecl(id, label)
    } else {
        s
    }
}

/// A top-level statement with every declaration of `id` in it, or directly
/// in its group, relabelled.
pub open spec fn relabel_top(s: StmtV, id: Seq<char>, label: Seq<char>) -> StmtV {
    match s {
        StmtV::Group(g, inner) => StmtV::Group(
            g,
            inner.map_values(|x: StmtV| relabel_inner(x, id, label)),
        ),
        _ => relabel_inner(s, id, label),
    }
}

/// The position of the first top-level bare mention `[id]`.
pub open spec fn first_mention(ss: Seq<StmtV>, id: Seq<char>) -> Option<int>
    decreases ss.len(),
{
    if ss.len() == 0 {
        None
    } else {
        match first_mention(ss.drop_last(), id) {
            Some(k) => Some(k),
            None => if ss.last() == StmtV::Node(id) {
                Some(ss.len() - 1)
            } else {
                None
            },
        }
    }
}

/// The statements after giving node `id` the display label `label`: every
/// declaration of it at top level or directly in a top-level group is
/// relabelled; if there is none, its first top-level mention becomes a
/// declaration; if there is none either, a declaration is put first.
pub open spec fn relabel_spec(ss: Seq<StmtV>, id: Seq<char>, label: Seq<char>) -> Seq<StmtV> {
    if has_decl(ss, id) {
        ss.map_values(|s: StmtV| relabel_top(s, id, label))
    } else {
        match first_mention(ss, id) {
            Some(k) => ss.update(k, StmtV::NodeDecl(id, label)),
            None => seq![StmtV::NodeDecl(id, label)] + ss,
        }
    }
}

/// What the answer to a text that does not parse starts with.
pub open spec fn msg_failed() -> Seq<char> {
    "Failed to parse diagram: "@
}

/// What `update_diagram_node` answers for a source text.
pub open spec fn update_spec(code: Seq<char>, id: Seq<char>, label: Seq<char>) -> Result<
    Seq<char>,
    Seq<char>,
> {
    match parse_spec(code) {
        Ok(d) => Ok(print_spec(DiagramV { meta: d.meta, stmts: relabel_spec(d.stmts, id, label) })),
        Err(e) => Err(msg_failed() + error_message(e)),
    }
}

// ── Laws ─────────────────────────────────────────────────────────────────────

/// After relabelling, the node is declared (at top level or directly in a
/// top-level group) with the new label.
pub proof fn law_relabel_declares(ss: Seq<StmtV>, id: Seq<char>, label: Seq<char>)
    ensures
        has_decl(relabel_spec(ss, id, label), id),
        exists|k: int|
            0 <= k < relabel_spec(ss, id, label).len() && (#[trigger] relabel_spec(ss, id, label)[k]
                == StmtV::NodeDecl(id, label) || (relabel_spec(ss, id, label)[k] matches StmtV::Group(
                _,
                inner,
            ) && exists|j: int| 0 <= j < inner.len() && #[trigger] inner[j] == StmtV::NodeDecl(id, label))),
{
    let r = relabel_spec(ss, id, label);
    if has_decl(ss, id) {
        let k = choose|k: int| 0 <= k < ss.len() && declares(#[trigger] ss[k], id);
        assert(r[k] == relabel_top(ss[k], id, label));
        if is_decl_of(ss[k], id) {
            assert(r[k] == StmtV::NodeDecl(id, label));
            assert(declares(r[k], id));
        } else {
            match ss[k] {
                StmtV::Group(g, inner) => {
                    let j = choose|j: int| 0 <= j < inner.len() && is_decl_of(#[trigger] inner[j], id);
                    let inner2 = inner.map_values(|x: StmtV| relabel_inner(x, id, label));
                    assert(inner2[j] == StmtV::NodeDecl(id, label));
                    assert(is_decl_of(inner2[j], id));
                    assert(r[k] == StmtV::Group(g, inner2));
                    assert(inner2.len() == inner.len());
                    let gg = StmtV::Group(g, inner2);
                    assert(declares(gg, id)) by {
                        assert(0 <= j < inner2.len());
                        assert(is_decl_of(inner2[j], id));
                        assert(gg->Group_1 == inner2);
                        assert(exists|j2: int| 0 <= j2 < gg->Group_1.len() && is_decl_of(#[trigger] gg->Group_1[j2], id));
                    }
                    assert(declares(r[k], id));
                },
                _ => {},
            }
        }
    } else {
        match first_mention(ss, id) {
            Some(k) => {
                lemma_first_mention_range(ss, id);
                assert(r[k] == StmtV::NodeDecl(id, label));
                assert(declares(r[k], id));
            },
            None => {
                assert(r[0] == StmtV::NodeDecl(id, label));
                assert(declares(r[0], id));
            },
        }
    }
}

proof fn lemma_first_mention_range(ss: Seq<StmtV>, id: Seq<char>)
    ensures
        first_mention(ss, id) matches Some(k) ==> 0 <= k < ss.len() && ss[k] == StmtV::Node(id),
    decreases ss.len(),
{
    if ss.len() > 0 {
        lemma_first_mention_range(ss.drop_last(), id);
    }
}

proof fn lemma_relabel_top_twice(s: StmtV, id: Seq<char>, label: Seq<char>)
    ensures
        relabel_top(relabel_top(s, id, label), id, label) == relabel_top(s, id, label),
{
    match s {
        StmtV::Group(g, inner) => {
            let once = inner.map_values(|x: StmtV| relabel_inner(x, id, label));
            assert(once.map_values(|x: StmtV| relabel_inner(x, id, label)) =~= once);
        },
        _ => {},
    }
}

/// A statement in which `id` is not declared is left as it is.
proof fn lemma_relabel_top_unchanged(s: StmtV, id: Seq<char>, label: Seq<char>)
    requires
        !declares(s, id),
    ensures
        relabel_top(s, id, label) == s,
{
    match s {
        StmtV::Group(g, inner) => {
            let once = inner.map_values(|x: StmtV| relabel_inner(x, id, label));
            assert forall|j: int| 0 <= j < inner.len() implies once[j] == inner[j] by {
                if is_decl_of(inner[j], id) {
                    assert(declares(s, id));
                }
            }
            assert(once =~= inner);
        },
        _ => {},
    }
}

/// Giving a node the same label twice is the same as giving it once.
pub proof fn law_relabel_idempotent(ss: Seq<StmtV>, id: Seq<char>, label: Seq<char>)
    ensures
        relabel_spec(relabel_spec(ss, id, label), id, label) == relabel_spec(ss, id, label),
{
    let r = relabel_spec(ss, id, label);
    law_relabel_declares(ss, id, label);
    assert(has_decl(r, id));
    let r2 = r.map_values(|s: StmtV| relabel_top(s, id, label));
    if has_decl(ss, id) {
        assert forall|k: int| 0 <= k < r.len() implies r2[k] == r[k] by {
            lemma_relabel_top_twice(ss[k], id, label);
        }
    } else {
        assert forall|k: int| 0 <= k < r.len() implies r2[k] == r[k] by {
            if r[k] == StmtV::NodeDecl(id, label) {
            } else {
                let orig: StmtV = match first_mention(ss, id) {
                    Some(m) => ss[k],
                    None => ss[k - 1],
                };
                match first_mention(ss, id) {
                    Some(m) => {
                        lemma_first_mention_range(ss, id);
                        assert(k != m);
                        assert(r[k] == ss[k]);
                    },
                    None => {
                        assert(k != 0);
                        assert(r[k] == ss[k - 1]);
                    },
                }
                if declares(orig, id) {
                    match first_mention(ss, id) {
                        Some(m) => assert(declares(ss[k], id)),
                        None => assert(declares(ss[k - 1], id)),
                    }
                }
                lemma_relabel_top_unchanged(orig, id, label);
            }
        }
    }
    assert(r2 =~= r);
}

// ── Executable code ──────────────────────────────────────────────────────────

fn is_decl_exec(s: &Stmt, id: &String) -> (b: bool)
    ensures
        b == is_decl_of(s@, id@),
{
    match s {
        Stmt::NodeDecl(i, _) => i.0 == *id,
        _ => false,
    }
}

fn relabel_inner_exec(s: &Stmt, id: &String, label: &String) -> (r: (Stmt, bool))
    ensures
        r.0@ == relabel_inner(s@, id@, label@),
        r.1 == is_decl_of(s@, id@),
{
    if is_decl_exec(s, id) {
        (Stmt::NodeDecl(NodeId(id.clone()), label.clone()), true)
    } else {
        (clone_stmt(s), false)
    }
}

fn relabel_top_exec(s: &Stmt, id: &String, label: &String) -> (r: (Stmt, bool))
    ensures
        r.0@ == relabel_top(s@, id@, label@),
        r.1 == declares(s@, id@),
{
    match s {
        Stmt::Group(g) => {
            let n = g.stmts.len();
            let mut inner: Vec<Stmt> = Vec::new();
            let mut found = false;
            let ghost gv = stmts_view(g.stmts@);
            proof {
                lemma_stmts_view_len(g.stmts@);
            }
            for i in 0..n
                invariant
                    n == g.stmts@.len(),
                    gv == stmts_view(g.stmts@),
                    gv.len() == n,
                    forall|j: int| 0 <= j < n ==> #[trigger] gv[j] == stmt_view(g.stmts@[j]),
                    inner@.len() == i,
                    forall|j: int| 0 <= j < i ==> #[trigger] stmt_view(inner@[j]) == relabel_inner(gv[j], id@, label@),
                    found == exists|j: int| 0 <= j < i && is_decl_of(#[trigger] gv[j], id@),
            {
                let (x, hit) = relabel_inner_exec(&g.stmts[i], id, label);
                inner.push(x);
                if hit {
                    found = true;
                }
                assert(gv[i as int] == stmt_view(g.stmts@[i as int]));
            }
            proof {
                lemma_stmts_view_len(inner@);
                assert(stmts_view(inner@) =~= gv.map_values(|x: StmtV| relabel_inner(x, id@, label@)));
            }
            (Stmt::Group(Group { label: g.label.clone(), stmts: inner }), found)
        },
        _ => relabel_inner_exec(s, id, label),
    }
}

proof fn lemma_stmts_view_update(ss: Seq<Stmt>, k: int, s: Stmt)
    requires
        0 <= k < ss.len(),
    ensures
        stmts_view(ss.update(k, s)) == stmts_view(ss).update(k, stmt_view(s)),
{
    lemma_stmts_view_len(ss);
    lemma_stmts_view_len(ss.update(k, s));
    assert(stmts_view(ss.update(k, s)) =~= stmts_view(ss).update(k, stmt_view(s)));
}

proof fn lemma_stmts_view_prepend(ss: Seq<Stmt>, s: Stmt)
    ensures
        stmts_view(seq![s] + ss) == seq![stmt_view(s)] + stmts_view(ss),
{
    lemma_stmts_view_len(ss);
    lemma_stmts_view_len(seq![s] + ss);
    assert(stmts_view(seq![s] + ss) =~= seq![stmt_view(s)] + stmts_view(ss));
}

/// Gives the node `node_id` the display label `new_label`, as
/// [`relabel_spec`] describes.
pub fn relabel_node(diagram: &mut Diagram, node_id: &String, new_label: &String)
    ensures
        final(diagram)@ == (DiagramV {
            meta: old(diagram)@.meta,
            stmts: relabel_spec(old(diagram)@.stmts, node_id@, new_label@),
        }),
{
    let ghost sv = stmts_view(diagram.stmts@);
    proof {
        lemma_stmts_view_len(diagram.stmts@);
    }
    let n = diagram.stmts.len();
    let mut out: Vec<Stmt> = Vec::new();
    let mut found = false;
    for i in 0..n
        invariant
            n == diagram.stmts@.len(),
            sv == stmts_view(diagram.stmts@),
            sv.len() == n,
            forall|j: int| 0 <= j < n ==> #[trigger] sv[j] == stmt_view(diagram.stmts@[j]),
            out@.len() == i,
            forall|j: int| 0 <= j < i ==> #[trigger] stmt_view(out@[j]) == relabel_top(sv[j], node_id@, new_label@),
            found == exists|j: int| 0 <= j < i && declares(#[trigger] sv[j], node_id@),
    {
        let (x, hit) = relabel_top_exec(&diagram.stmts[i], node_id, new_label);
        out.push(x);
        if hit {
            found = true;
        }
        assert(sv[i as int] == stmt_view(diagram.stmts@[i as int]));
    }
    if found {
        proof {
            lemma_stmts_view_len(out@);
            assert(stmts_view(out@) =~= sv.map_values(|s: StmtV| relabel_top(s, node_id@, new_label@)));
        }
        diagram.stmts = out;
        return;
    }
    assert(!has_decl(sv, node_id@));
    let mut k: usize = 0;
    assert(sv.subrange(0, 0) =~= Seq::<StmtV>::empty());
    while k < n
        invariant
            n == diagram.stmts@.len(),
            sv == stmts_view(diagram.stmts@),
            sv.len() == n,
            forall|j: int| 0 <= j < n ==> #[trigger] sv[j] == stmt_view(diagram.stmts@[j]),
            k <= n,
            *diagram == *old(diagram),
            !has_decl(sv, node_id@),
            first_mention(sv.subrange(0, k as int), node_id@) == None::<int>,
        decreases n - k,
    {
        let mention = match &diagram.stmts[k] {
            Stmt::Node(i) => i.0 == *node_id,
            _ => false,
        };
        let ghost pre = sv.subrange(0, k + 1);
        assert(pre.drop_last() =~= sv.subrange(0, k as int));
        assert(pre.last() == sv[k as int]);
        if mention {
            let id = clone_node_id(match &diagram.stmts[k] {
                Stmt::Node(i) => i,
                _ => {
                    proof {
                        assert(false);
                    }
                    return;
                },
            });
            let decl = Stmt::NodeDecl(id, new_label.clone());
            proof {
                lemma_first_mention_prefix(sv, node_id@, k as int + 1);
                lemma_stmts_view_update(diagram.stmts@, k as int, decl);
            }
            diagram.stmts.set(k, decl);
            return;
        }
        k += 1;
    }
    assert(sv.subrange(0, n as int) =~= sv);
    let decl = Stmt::NodeDecl(NodeId(node_id.clone()), new_label.clone());
    proof {
        lemma_stmts_view_prepend(diagram.stmts@, decl);
    }
    let ghost before = diagram.stmts@;
    diagram.stmts.insert(0, decl);
    assert(diagram.stmts@ =~= seq![decl] + before);
}

/// Once a prefix mentions `id`, the whole sequence's first mention is the
/// prefix's.
proof fn lemma_first_mention_prefix(ss: Seq<StmtV>, id: Seq<char>, m: int)
    requires
        0 <= m <= ss.len(),
        first_mention(ss.subrange(0, m), id) is Some,
    ensures
        first_mention(ss, id) == first_mention(ss.subrange(0, m), id),
    decreases ss.len() - m,
{
    if m < ss.len() {
        let next = ss.subrange(0, m + 1);
        assert(next.drop_last() =~= ss.subrange(0, m));
        lemma_first_mention_prefix(ss, id, m + 1);
    } else {
        assert(ss.subrange(0, m) =~= ss);
    }
}

/// Parses `code`, gives node `node_id` the display label `new_label` (see
/// [`relabel_spec`]), and prints the diagram again. A text that does not parse
/// is answered with `Failed to parse diagram: ` and the parser's message.
pub fn update_diagram_node(code: String, node_id: String, new_label: String) -> (res: Result<
    String,
    String,
>)
    ensures
        match res {
            Ok(s) => update_spec(code@, node_id@, new_label@) == Ok::<Seq<char>, Seq<char>>(s@),
            Err(e) => update_spec(code@, node_id@, new_label@) == Err::<Seq<char>, Seq<char>>(e@),
        },
{
    match parse(code.as_str()) {
        Ok(mut ast) => {
            relabel_node(&mut ast, &node_id, &new_label);
            Ok(print(&ast))
        },
        Err(e) => {
            let mut msg = String::from_str("Failed to parse diagram: ");
            let detail = e.message();
            msg.append(detail.as_str());
            Err(msg)
        },
    }
}

} // verus!
