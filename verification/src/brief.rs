//! A node's brief: everything about one node in one piece, for a reader or an AI.

use vstd::prelude::*;
use crate::graph::{Graph, ResolvedEdge, incoming_spec, redges};
use crate::model::{Attr, CheckDef, CheckUse, Edge, Node, RootDef, SetVar, kind_name, check_def_same, clone_vec, group_of, group_of_spec, node_same};
use crate::strset::{views, sorted_strict, set_add_all, set_list, lemma_set_list, lemma_concat_contains};
use crate::table::{entry, find_key};
use crate::text::{dec, dec_string, join, join_strings, push_str, str_eq};
use crate::query::text_or;
use crate::expr::{ident_list, idents};

verus! {

/// Everything about one node.
#[derive(Debug)]
pub struct Brief {
    pub node: Node,
    /// A shortest path from a root, if any.
    pub path_from_root: Option<Vec<String>>,
    pub incoming: Vec<ResolvedEdge>,
    pub outgoing: Vec<ResolvedEdge>,
    /// The variables its guards and checks read, sorted, each once.
    pub reads: Vec<String>,
    pub writes: Vec<SetVar>,
    /// The definitions of the checks it uses (those that are defined), in use order.
    pub checks: Vec<CheckDef>,
    /// The other nodes of its group, in ID order.
    pub group_siblings: Vec<String>,
}

/// The variables the guards of `es` read, edge by edge.
pub open spec fn guard_idents(es: Seq<Edge>) -> Seq<Seq<char>>
    decreases es.len(),
{
    if es.len() == 0 {
        Seq::<Seq<char>>::empty()
    } else {
        guard_idents(es.drop_last()) + match es.last().when {
            Some(w) => ident_list(w@),
            None => Seq::<Seq<char>>::empty(),
        }
    }
}

/// The definitions, in use order, of the used checks that are defined.
pub open spec fn found_defs(cs: Seq<CheckDef>, uses: Seq<CheckUse>) -> Seq<CheckDef>
    decreases uses.len(),
{
    if uses.len() == 0 {
        Seq::<CheckDef>::empty()
    } else {
        let r = found_defs(cs, uses.drop_last());
        match crate::table::entry(cs, uses.last().name@) {
            Some(d) => r.push(d),
            None => r,
        }
    }
}

/// The variables the definitions read, definition by definition.
pub open spec fn defs_reads(ds: Seq<CheckDef>) -> Seq<Seq<char>>
    decreases ds.len(),
{
    if ds.len() == 0 {
        Seq::<Seq<char>>::empty()
    } else {
        defs_reads(ds.drop_last()) + views(ds.last().reads@)
    }
}

/// What node `n` reads: its guards' variables and its checks' `reads`, as a sorted set.
pub open spec fn brief_reads(g: Graph, n: Node) -> Seq<Seq<char>> {
    set_list(guard_idents(n.edges@) + defs_reads(found_defs(g.checks@, n.checks@)))
}

/// The IDs of the other nodes in the group of `id`, in order.
pub open spec fn siblings(ns: Seq<Node>, id: Seq<char>) -> Seq<Seq<char>>
    decreases ns.len(),
{
    if ns.len() == 0 {
        Seq::<Seq<char>>::empty()
    } else {
        let r = siblings(ns.drop_last(), id);
        let k = ns.last().id@;
        if k != id && group_of_spec(k) == group_of_spec(id) { r.push(k) } else { r }
    }
}

/// `b` is the brief of node `id` of `g`.
pub open spec fn brief_ok(g: Graph, id: Seq<char>, b: Brief) -> bool {
    let n = g.nodes@[g.node_index(id)];
    &&& g.has_node(id)
    &&& node_same(b.node, n)
    &&& match b.path_from_root {
        Some(p) => g.is_path(views(p@)) && views(p@).last() == id
            && g.roots@.map_values(|r: RootDef| r.id@).contains(views(p@)[0])
            && (forall|r: int, q: Seq<Seq<char>>| 0 <= r < g.roots@.len()
                && #[trigger] g.path_between(q, g.roots@[r].id@, id) ==> views(p@).len() <= q.len())
            && exists|r: int| #[trigger] g.wins_at(views(p@), id, r),
        None => forall|r: int, q: Seq<Seq<char>>| 0 <= r < g.roots@.len()
            ==> !#[trigger] g.path_between(q, g.roots@[r].id@, id),
    }
    &&& redges(b.incoming@) == incoming_spec(g.outs(), id)
    &&& redges(b.outgoing@) == g.out_edges(id)
    &&& views(b.reads@) == brief_reads(g, n)
    &&& b.writes@ == n.sets@
    &&& b.checks@.len() == found_defs(g.checks@, n.checks@).len()
    &&& forall|i: int| 0 <= i < b.checks@.len() ==> check_def_same(#[trigger] b.checks@[i], found_defs(g.checks@, n.checks@)[i])
    &&& views(b.group_siblings@) == siblings(g.nodes@, id)
}

/// The variables read by the guards of `es`, as a set.
fn guard_reads(es: &Vec<Edge>) -> (res: Vec<String>)
    ensures
        sorted_strict(views(res@)),
        forall|x: Seq<char>| views(res@).contains(x) <==> guard_idents(es@).contains(x),
{
    let mut reads: Vec<String> = Vec::new();
    let mut e: usize = 0;
    while e < es.len()
        invariant
            e <= es@.len(),
            sorted_strict(views(reads@)),
            forall|x: Seq<char>| views(reads@).contains(x) <==> guard_idents(es@.take(e as int)).contains(x),
        decreases es.len() - e,
    {
        proof {
            assert(es@.take(e + 1).drop_last() =~= es@.take(e as int));
            assert(es@.take(e + 1).last() == es@[e as int]);
        }
        let ghost base = guard_idents(es@.take(e as int));
        match &es[e].when {
            Some(w) => {
                let ids = idents(w.as_str());
                let ghost r0 = views(reads@);
                set_add_all(&mut reads, &ids);
                proof {
                    assert(guard_idents(es@.take(e + 1)) == base + ident_list(w@));
                    assert forall|x: Seq<char>| views(reads@).contains(x) <==> guard_idents(es@.take(e + 1)).contains(x) by {
                        lemma_concat_contains(base, ident_list(w@), x);
                        assert(r0.contains(x) <==> base.contains(x));
                        assert(views(reads@).contains(x) <==> (r0.contains(x) || views(ids@).contains(x)));
                    }
                }
            },
            None => {
                proof {
                    assert(guard_idents(es@.take(e + 1)) =~= base);
                }
            },
        }
        e += 1;
    }
    proof {
        assert(es@.take(es@.len() as int) =~= es@);
    }
    reads
}

/// Copies of the edges.
fn clone_edges(es: &[ResolvedEdge]) -> (res: Vec<ResolvedEdge>)
    ensures
        redges(res@) == redges(es@),
{
    let mut out: Vec<ResolvedEdge> = Vec::new();
    let mut i: usize = 0;
    while i < es.len()
        invariant
            i <= es@.len(),
            redges(out@) == redges(es@).take(i as int),
        decreases es.len() - i,
    {
        let ghost before = out@;
        out.push(es[i].clone());
        proof {
            assert(redges(out@) =~= redges(before).push(es@[i as int]@));
            assert(redges(es@).take(i + 1) =~= redges(es@).take(i as int).push(es@[i as int]@));
        }
        i += 1;
    }
    proof {
        assert(redges(es@).take(es@.len() as int) =~= redges(es@));
    }
    out
}

/// Copies of the edges behind the references.
fn clone_edge_refs(es: &Vec<&ResolvedEdge>) -> (res: Vec<ResolvedEdge>)
    ensures
        redges(res@) == es@.map_values(|e: &ResolvedEdge| (*e)@),
{
    let ghost want = es@.map_values(|e: &ResolvedEdge| (*e)@);
    let mut out: Vec<ResolvedEdge> = Vec::new();
    let mut i: usize = 0;
    while i < es.len()
        invariant
            i <= es@.len(),
            want == es@.map_values(|e: &ResolvedEdge| (*e)@),
            redges(out@) == want.take(i as int),
        decreases es.len() - i,
    {
        let ghost before = out@;
        out.push(es[i].clone());
        proof {
            assert(redges(out@) =~= redges(before).push(es@[i as int]@));
            assert(want.take(i + 1) =~= want.take(i as int).push(es@[i as int]@));
        }
        i += 1;
    }
    proof {
        assert(want.take(es@.len() as int) =~= want);
    }
    out
}

/// The other nodes of the group of `id`.
fn group_siblings_of(g: &Graph, id: &str) -> (res: Vec<String>)
    ensures
        views(res@) == siblings(g.nodes@, id@),
{
    let grp = group_of(id);
    let mut out: Vec<String> = Vec::new();
    let mut i: usize = 0;
    while i < g.nodes.len()
        invariant
            i <= g.nodes@.len(),
            grp@ == group_of_spec(id@),
            views(out@) == siblings(g.nodes@.take(i as int), id@),
        decreases g.nodes.len() - i,
    {
        proof {
            assert(g.nodes@.take(i + 1).drop_last() =~= g.nodes@.take(i as int));
            assert(g.nodes@.take(i + 1).last() == g.nodes@[i as int]);
        }
        let k = &g.nodes[i].id;
        if !str_eq(k.as_str(), id) {
            let kg = group_of(k.as_str());
            if str_eq(kg.as_str(), grp.as_str()) {
                let ghost before = views(out@);
                out.push(k.clone());
                proof {
                    assert(views(out@) =~= before.push(k@));
                }
            }
        }
        i += 1;
    }
    proof {
        assert(g.nodes@.take(g.nodes@.len() as int) =~= g.nodes@);
    }
    out
}

/// The brief of node `id`; `None` when there is no such node.
pub fn brief(g: &Graph, id: &str) -> (res: Option<Brief>)
    requires
        g.wf(),
    ensures
        match res {
            Some(b) => brief_ok(*g, id@, b),
            None => !g.has_node(id@),
        },
{
    let ix = match find_key(&g.nodes, id) {
        Some(i) => i,
        None => return None,
    };
    let n = &g.nodes[ix];
    let ghost nv = *n;
    let mut reads = guard_reads(&n.edges);
    let ghost gi = guard_idents(n.edges@);
    let mut checks: Vec<CheckDef> = Vec::new();
    let mut c: usize = 0;
    while c < n.checks.len()
        invariant
            c <= n.checks@.len(),
            nv == *n,
            sorted_strict(views(reads@)),
            forall|x: Seq<char>| views(reads@).contains(x) <==>
                (gi + defs_reads(found_defs(g.checks@, n.checks@.take(c as int)))).contains(x),
            checks@.len() == found_defs(g.checks@, n.checks@.take(c as int)).len(),
            forall|i: int| 0 <= i < checks@.len() ==>
                check_def_same(#[trigger] checks@[i], found_defs(g.checks@, n.checks@.take(c as int))[i]),
        decreases n.checks.len() - c,
    {
        proof {
            assert(n.checks@.take(c + 1).drop_last() =~= n.checks@.take(c as int));
            assert(n.checks@.take(c + 1).last() == n.checks@[c as int]);
        }
        let ghost fd = found_defs(g.checks@, n.checks@.take(c as int));
        match find_key(&g.checks, n.checks[c].name.as_str()) {
            Some(j) => {
                let d = g.checks[j].duplicate();
                let ghost before = views(reads@);
                set_add_all(&mut reads, &d.reads);
                let ghost cb = checks@;
                checks.push(d);
                proof {
                    let fd2 = found_defs(g.checks@, n.checks@.take(c + 1));
                    assert(fd2 == fd.push(g.checks@[j as int]));
                    assert(fd2.drop_last() =~= fd);
                    assert(defs_reads(fd2) =~= defs_reads(fd) + views(g.checks@[j as int].reads@));
                    assert forall|x: Seq<char>| views(reads@).contains(x) <==> (gi + defs_reads(fd2)).contains(x) by {
                        lemma_concat_contains(gi, defs_reads(fd), x);
                        lemma_concat_contains(gi, defs_reads(fd2), x);
                        lemma_concat_contains(defs_reads(fd), views(g.checks@[j as int].reads@), x);
                    }
                    assert forall|i: int| 0 <= i < checks@.len() implies check_def_same(#[trigger] checks@[i], fd2[i]) by {
                        if i < cb.len() {
                            assert(checks@[i] == cb[i]);
                        }
                    }
                }
            },
            None => {
                proof {
                    assert(found_defs(g.checks@, n.checks@.take(c + 1)) == fd);
                }
            },
        }
        c += 1;
    }
    proof {
        assert(n.checks@.take(n.checks@.len() as int) =~= n.checks@);
        lemma_set_list(views(reads@), gi + defs_reads(found_defs(g.checks@, n.checks@)));
    }
    let incoming = clone_edge_refs(&g.incoming_edges(id));
    let outgoing = clone_edges(g.outgoing(id));
    let writes = clone_vec(&n.sets);
    let group_siblings = group_siblings_of(g, id);
    let path_from_root = g.path_from_roots(id);
    let node = n.duplicate();
    Some(Brief { node, path_from_root, incoming, outgoing, reads, writes, checks, group_siblings })
}

/// `[label]`, or nothing for an empty label.
pub open spec fn tag_spec(label: Seq<char>) -> Seq<char> {
    if label.len() == 0 { Seq::<char>::empty() } else { "["@ + label + "]"@ }
}

/// `[label] `, or nothing for an empty label.
pub open spec fn tag_post_spec(label: Seq<char>) -> Seq<char> {
    if label.len() == 0 { Seq::<char>::empty() } else { "["@ + label + "] "@ }
}

fn tag(label: &str) -> (res: String)
    ensures
        res@ == tag_spec(label@),
{
    if label.is_empty() {
        String::new()
    } else {
        let mut s = String::new();
        push_str(&mut s, "[");
        push_str(&mut s, label);
        push_str(&mut s, "]");
        proof { assert(s@ =~= tag_spec(label@)); }
        s
    }
}

fn tag_post(label: &str) -> (res: String)
    ensures
        res@ == tag_post_spec(label@),
{
    if label.is_empty() {
        String::new()
    } else {
        let mut s = String::new();
        push_str(&mut s, "[");
        push_str(&mut s, label);
        push_str(&mut s, "] ");
        proof { assert(s@ =~= tag_post_spec(label@)); }
        s
    }
}

pub open spec fn attr_lines(a: Seq<Attr>) -> Seq<char>
    decreases a.len(),
{
    if a.len() == 0 {
        Seq::<char>::empty()
    } else {
        attr_lines(a.drop_last()) + "- "@ + a.last().key@ + ": "@ + a.last().value@ + "\n"@
    }
}

/// `# id (kind · layer)` on a line.
pub open spec fn head_title(n: Node) -> Seq<char> {
    "# "@ + n.id@ + " ("@ + kind_name(n.kind) + " · "@ + n.layer@ + ")\n"@
}

/// The description on a line, where there is one.
pub open spec fn head_desc(n: Node) -> Seq<char> {
    text_or(n.desc, Seq::<char>::empty()) + (if n.desc is Some { "\n"@ } else { Seq::<char>::empty() })
}

/// `file:line` on a line.
pub open spec fn head_place(n: Node) -> Seq<char> {
    n.file@ + ":"@ + dec(n.line as nat) + "\n"@
}

/// Title, description, place and attributes.
pub open spec fn head_md(n: Node) -> Seq<char> {
    head_title(n) + head_desc(n) + head_place(n) + attr_lines(n.attrs@)
}

pub open spec fn path_md(p: Option<Vec<String>>) -> Seq<char> {
    match p {
        Some(v) => "\n## How to get here ("@ + dec((v@.len() - 1) as nat) + " steps)\n"@ + join(views(v@), " → "@) + "\n"@,
        None => "\n## How to get here\n(not reachable from a root)\n"@,
    }
}

pub open spec fn in_lines(es: Seq<ResolvedEdge>) -> Seq<char>
    decreases es.len(),
{
    if es.len() == 0 {
        Seq::<char>::empty()
    } else {
        in_lines(es.drop_last()) + "- "@ + es.last().from@ + " "@ + tag_spec(es.last().label@) + "\n"@
    }
}

pub open spec fn incoming_md(es: Seq<ResolvedEdge>) -> Seq<char> {
    if es.len() == 0 { Seq::<char>::empty() } else { "\n## Incoming\n"@ + in_lines(es) }
}

/// The description of node `id`, or nothing.
pub open spec fn target_desc(g: Graph, id: Seq<char>) -> Seq<char> {
    match entry(g.nodes@, id) {
        Some(t) => text_or(t.desc, Seq::<char>::empty()),
        None => Seq::<char>::empty(),
    }
}

pub open spec fn out_lines(g: Graph, es: Seq<ResolvedEdge>) -> Seq<char>
    decreases es.len(),
{
    if es.len() == 0 {
        Seq::<char>::empty()
    } else {
        out_lines(g, es.drop_last()) + "- "@ + tag_post_spec(es.last().label@) + "→ "@ + es.last().to@
            + " — "@ + target_desc(g, es.last().to@) + "\n"@
    }
}

pub open spec fn outgoing_md(g: Graph, es: Seq<ResolvedEdge>) -> Seq<char> {
    "\n## Outgoing\n"@ + (if es.len() == 0 { "(none)\n"@ } else { Seq::<char>::empty() }) + out_lines(g, es)
}

/// The first definition called `name`.
pub open spec fn first_def(ds: Seq<CheckDef>, name: Seq<char>) -> Option<CheckDef>
    decreases ds.len(),
{
    if ds.len() == 0 {
        None
    } else if ds[0].id@ == name {
        Some(ds[0])
    } else {
        first_def(ds.drop_first(), name)
    }
}

/// ` ✗ <status>[ <code>]` for a use that names a failure status.
pub open spec fn fail_text(c: CheckUse) -> Seq<char> {
    match (c.fail, c.code) {
        (Some(f), Some(code)) => " ✗ "@ + dec(f as nat) + " "@ + code@,
        (Some(f), None) => " ✗ "@ + dec(f as nat),
        _ => Seq::<char>::empty(),
    }
}

pub open spec fn use_lines(ds: Seq<CheckDef>, us: Seq<CheckUse>) -> Seq<char>
    decreases us.len(),
{
    if us.len() == 0 {
        Seq::<char>::empty()
    } else {
        let c = us.last();
        let desc = match first_def(ds, c.name@) { Some(d) => text_or(d.desc, Seq::<char>::empty()), None => Seq::<char>::empty() };
        use_lines(ds, us.drop_last()) + "- "@ + c.name@ + fail_text(c) + " — "@ + desc + "\n"@
    }
}

pub open spec fn checks_md(b: Brief) -> Seq<char> {
    if b.checks@.len() > 0 || b.node.checks@.len() > 0 {
        "\n## Checks\n"@ + use_lines(b.checks@, b.node.checks@)
    } else {
        Seq::<char>::empty()
    }
}

/// Where a variable comes from: its source, `sets` for a defined one without, `?` else.
pub open spec fn var_src(g: Graph, r: Seq<char>) -> Seq<char> {
    match entry(g.vars@, r) {
        Some(v) => text_or(v.source, "sets"@),
        None => "?"@,
    }
}

pub open spec fn read_lines(g: Graph, rs: Seq<Seq<char>>) -> Seq<char>
    decreases rs.len(),
{
    if rs.len() == 0 {
        Seq::<char>::empty()
    } else {
        read_lines(g, rs.drop_last()) + "- reads "@ + rs.last() + " ("@ + var_src(g, rs.last()) + ")\n"@
    }
}

pub open spec fn write_lines(ws: Seq<SetVar>) -> Seq<char>
    decreases ws.len(),
{
    if ws.len() == 0 {
        Seq::<char>::empty()
    } else {
        write_lines(ws.drop_last()) + "- sets "@ + ws.last().var@ + " "@ + ws.last().value@ + "\n"@
    }
}

pub open spec fn vars_md(g: Graph, b: Brief) -> Seq<char> {
    if b.reads@.len() > 0 || b.writes@.len() > 0 {
        "\n## Variables\n"@ + read_lines(g, views(b.reads@)) + write_lines(b.writes@)
    } else {
        Seq::<char>::empty()
    }
}

pub open spec fn group_md(b: Brief) -> Seq<char> {
    if b.group_siblings@.len() > 0 {
        "\n## Same group\n"@ + join(views(b.group_siblings@), ", "@) + "\n"@
    } else {
        Seq::<char>::empty()
    }
}

/// The Markdown text of a brief.
pub open spec fn brief_md(b: Brief, g: Graph) -> Seq<char> {
    head_md(b.node) + path_md(b.path_from_root) + incoming_md(b.incoming@) + outgoing_md(g, b.outgoing@)
        + checks_md(b) + vars_md(g, b) + group_md(b)
}

fn push_title(s: &mut String, n: &Node)
    ensures
        final(s)@ == old(s)@ + head_title(*n),
{
    push_str(s, "# ");
    push_str(s, n.id.as_str());
    push_str(s, " (");
    push_str(s, n.kind.as_str());
    push_str(s, " · ");
    push_str(s, n.layer.as_str());
    push_str(s, ")\n");
    proof {
        assert(s@ =~= old(s)@ + head_title(*n));
    }
}

fn push_desc(s: &mut String, n: &Node)
    ensures
        final(s)@ == old(s)@ + head_desc(*n),
{
    match &n.desc {
        Some(d) => {
            push_str(s, d.as_str());
            push_str(s, "\n");
            proof {
                assert(s@ =~= old(s)@ + head_desc(*n));
            }
        },
        None => {
            proof {
                assert(s@ =~= old(s)@ + head_desc(*n));
            }
        },
    }
}

fn push_place(s: &mut String, n: &Node)
    ensures
        final(s)@ == old(s)@ + head_place(*n),
{
    push_str(s, n.file.as_str());
    push_str(s, ":");
    let ln = dec_string(n.line as u64);
    push_str(s, ln.as_str());
    push_str(s, "\n");
    proof {
        assert(s@ =~= old(s)@ + head_place(*n));
    }
}

fn push_attr_lines(s: &mut String, attrs: &Vec<Attr>)
    ensures
        final(s)@ == old(s)@ + attr_lines(attrs@),
{
    let ghost mid = s@;
    let mut i: usize = 0;
    proof {
        assert(s@ =~= mid + attr_lines(attrs@.take(0)));
    }
    while i < attrs.len()
        invariant
            i <= attrs@.len(),
            s@ == mid + attr_lines(attrs@.take(i as int)),
        decreases attrs.len() - i,
    {
        proof {
            assert(attrs@.take(i + 1).drop_last() =~= attrs@.take(i as int));
            assert(attrs@.take(i + 1).last() == attrs@[i as int]);
        }
        push_str(s, "- ");
        push_str(s, attrs[i].key.as_str());
        push_str(s, ": ");
        push_str(s, attrs[i].value.as_str());
        push_str(s, "\n");
        proof {
            assert(s@ =~= mid + attr_lines(attrs@.take(i + 1)));
        }
        i += 1;
    }
    proof {
        assert(attrs@.take(attrs@.len() as int) =~= attrs@);
    }
}

fn push_head(s: &mut String, n: &Node)
    ensures
        final(s)@ == old(s)@ + head_md(*n),
{
    push_title(s, n);
    push_desc(s, n);
    push_place(s, n);
    push_attr_lines(s, &n.attrs);
    proof {
        assert(s@ =~= old(s)@ + head_md(*n));
    }
}

fn push_path(s: &mut String, p: &Option<Vec<String>>)
    requires
        p matches Some(v) ==> v@.len() >= 1,
    ensures
        final(s)@ == old(s)@ + path_md(*p),
{
    match p {
        Some(v) => {
            push_str(s, "\n## How to get here (");
            let k = dec_string((v.len() - 1) as u64);
            push_str(s, k.as_str());
            push_str(s, " steps)\n");
            let j = join_strings(v, " → ");
            push_str(s, j.as_str());
            push_str(s, "\n");
            proof { assert(s@ =~= old(s)@ + path_md(*p)); }
        },
        None => {
            push_str(s, "\n## How to get here\n(not reachable from a root)\n");
        },
    }
}

fn push_incoming(s: &mut String, es: &Vec<ResolvedEdge>)
    ensures
        final(s)@ == old(s)@ + incoming_md(es@),
{
    if es.len() == 0 {
        proof { assert(s@ =~= old(s)@ + incoming_md(es@)); }
        return;
    }
    push_str(s, "\n## Incoming\n");
    let ghost mid = s@;
    let mut i: usize = 0;
    while i < es.len()
        invariant
            i <= es@.len(),
            s@ == mid + in_lines(es@.take(i as int)),
        decreases es.len() - i,
    {
        proof {
            assert(es@.take(i + 1).drop_last() =~= es@.take(i as int));
            assert(es@.take(i + 1).last() == es@[i as int]);
        }
        push_str(s, "- ");
        push_str(s, es[i].from.as_str());
        push_str(s, " ");
        let t = tag(es[i].label.as_str());
        push_str(s, t.as_str());
        push_str(s, "\n");
        proof { assert(s@ =~= mid + in_lines(es@.take(i + 1))); }
        i += 1;
    }
    proof {
        assert(es@.take(es@.len() as int) =~= es@);
        assert(s@ =~= old(s)@ + incoming_md(es@));
    }
}

fn push_outgoing(s: &mut String, g: &Graph, es: &Vec<ResolvedEdge>)
    ensures
        final(s)@ == old(s)@ + outgoing_md(*g, es@),
{
    push_str(s, "\n## Outgoing\n");
    if es.len() == 0 {
        push_str(s, "(none)\n");
    }
    let ghost mid = s@;
    let mut i: usize = 0;
    while i < es.len()
        invariant
            i <= es@.len(),
            s@ == mid + out_lines(*g, es@.take(i as int)),
        decreases es.len() - i,
    {
        proof {
            assert(es@.take(i + 1).drop_last() =~= es@.take(i as int));
            assert(es@.take(i + 1).last() == es@[i as int]);
        }
        let e = &es[i];
        push_str(s, "- ");
        let t = tag_post(e.label.as_str());
        push_str(s, t.as_str());
        push_str(s, "→ ");
        push_str(s, e.to.as_str());
        push_str(s, " — ");
        match find_key(&g.nodes, e.to.as_str()) {
            Some(k) => match &g.nodes[k].desc {
                Some(d) => push_str(s, d.as_str()),
                None => {},
            },
            None => {},
        }
        push_str(s, "\n");
        proof { assert(s@ =~= mid + out_lines(*g, es@.take(i + 1))); }
        i += 1;
    }
    proof {
        assert(es@.take(es@.len() as int) =~= es@);
        assert(s@ =~= old(s)@ + outgoing_md(*g, es@));
    }
}

proof fn lemma_first_def(ds: Seq<CheckDef>, name: Seq<char>, k: int)
    requires
        0 <= k <= ds.len(),
        forall|j: int| 0 <= j < k ==> (#[trigger] ds[j]).id@ != name,
    ensures
        first_def(ds, name) == first_def(ds.skip(k), name),
    decreases k,
{
    if k == 0 {
        assert(ds.skip(0) =~= ds);
    } else {
        assert(ds[0].id@ != name);
        lemma_first_def(ds.drop_first(), name, k - 1);
        assert forall|j: int| 0 <= j < k - 1 implies (#[trigger] ds.drop_first()[j]).id@ != name by {
            assert(ds.drop_first()[j] == ds[j + 1]);
        }
        assert(ds.drop_first().skip(k - 1) =~= ds.skip(k));
    }
}

/// The description of the first definition called `name`, or nothing.
fn def_desc<'a>(ds: &'a Vec<CheckDef>, name: &str) -> (res: Option<&'a String>)
    ensures
        match first_def(ds@, name@) {
            Some(d) => match d.desc { Some(x) => res == Some(&x), None => res is None },
            None => res is None,
        },
{
    let mut i: usize = 0;
    while i < ds.len()
        invariant
            i <= ds@.len(),
            forall|j: int| 0 <= j < i ==> (#[trigger] ds@[j]).id@ != name@,
        decreases ds.len() - i,
    {
        if str_eq(ds[i].id.as_str(), name) {
            proof {
                lemma_first_def(ds@, name@, i as int);
                assert(ds@.skip(i as int)[0] == ds@[i as int]);
            }
            return match &ds[i].desc {
                Some(x) => Some(x),
                None => None,
            };
        }
        i += 1;
    }
    proof {
        lemma_first_def(ds@, name@, i as int);
    }
    None
}

/// Appends the line that lists one check use with its description.
fn push_use_line(s: &mut String, ds: &Vec<CheckDef>, c: &CheckUse)
    ensures
        final(s)@ == old(s)@ + "- "@ + c.name@ + fail_text(*c) + " — "@ + (match first_def(ds@, c.name@) {
            Some(d) => text_or(d.desc, Seq::<char>::empty()),
            None => Seq::<char>::empty(),
        }) + "\n"@,
{
    push_str(s, "- ");
    push_str(s, c.name.as_str());
    match (c.fail, &c.code) {
        (Some(f), Some(code)) => {
            push_str(s, " ✗ ");
            let t = dec_string(f as u64);
            push_str(s, t.as_str());
            push_str(s, " ");
            push_str(s, code.as_str());
        },
        (Some(f), None) => {
            push_str(s, " ✗ ");
            let t = dec_string(f as u64);
            push_str(s, t.as_str());
        },
        _ => {},
    }
    push_str(s, " — ");
    match def_desc(ds, c.name.as_str()) {
        Some(d) => push_str(s, d.as_str()),
        None => {},
    }
    push_str(s, "\n");
}

fn push_checks(s: &mut String, b: &Brief)
    ensures
        final(s)@ == old(s)@ + checks_md(*b),
{
    if b.checks.len() == 0 && b.node.checks.len() == 0 {
        proof { assert(s@ =~= old(s)@ + checks_md(*b)); }
        return;
    }
    push_str(s, "\n## Checks\n");
    let us = &b.node.checks;
    let ghost mid = s@;
    let mut i: usize = 0;
    while i < us.len()
        invariant
            i <= us@.len(),
            s@ == mid + use_lines(b.checks@, us@.take(i as int)),
        decreases us.len() - i,
    {
        proof {
            assert(us@.take(i + 1).drop_last() =~= us@.take(i as int));
            assert(us@.take(i + 1).last() == us@[i as int]);
        }
        push_use_line(s, &b.checks, &us[i]);
        proof { assert(s@ =~= mid + use_lines(b.checks@, us@.take(i + 1))); }
        i += 1;
    }
    proof {
        assert(us@.take(us@.len() as int) =~= us@);
        assert(s@ =~= old(s)@ + checks_md(*b));
    }
}

fn push_vars(s: &mut String, g: &Graph, b: &Brief)
    ensures
        final(s)@ == old(s)@ + vars_md(*g, *b),
{
    if b.reads.len() == 0 && b.writes.len() == 0 {
        proof { assert(s@ =~= old(s)@ + vars_md(*g, *b)); }
        return;
    }
    push_str(s, "\n## Variables\n");
    let ghost mid = s@;
    let ghost rv = views(b.reads@);
    let mut i: usize = 0;
    while i < b.reads.len()
        invariant
            i <= b.reads@.len(),
            rv == views(b.reads@),
            s@ == mid + read_lines(*g, rv.take(i as int)),
        decreases b.reads.len() - i,
    {
        proof {
            assert(rv.take(i + 1).drop_last() =~= rv.take(i as int));
            assert(rv.take(i + 1).last() == b.reads@[i as int]@);
        }
        let r = &b.reads[i];
        push_str(s, "- reads ");
        push_str(s, r.as_str());
        push_str(s, " (");
        match find_key(&g.vars, r.as_str()) {
            Some(k) => match &g.vars[k].source {
                Some(x) => push_str(s, x.as_str()),
                None => push_str(s, "sets"),
            },
            None => push_str(s, "?"),
        }
        push_str(s, ")\n");
        proof { assert(s@ =~= mid + read_lines(*g, rv.take(i + 1))); }
        i += 1;
    }
    proof {
        assert(rv.take(rv.len() as int) =~= rv);
    }
    let ghost mid2 = s@;
    let mut j: usize = 0;
    while j < b.writes.len()
        invariant
            j <= b.writes@.len(),
            s@ == mid2 + write_lines(b.writes@.take(j as int)),
        decreases b.writes.len() - j,
    {
        proof {
            assert(b.writes@.take(j + 1).drop_last() =~= b.writes@.take(j as int));
            assert(b.writes@.take(j + 1).last() == b.writes@[j as int]);
        }
        push_str(s, "- sets ");
        push_str(s, b.writes[j].var.as_str());
        push_str(s, " ");
        push_str(s, b.writes[j].value.as_str());
        push_str(s, "\n");
        proof { assert(s@ =~= mid2 + write_lines(b.writes@.take(j + 1))); }
        j += 1;
    }
    proof {
        assert(b.writes@.take(b.writes@.len() as int) =~= b.writes@);
        assert(s@ =~= old(s)@ + vars_md(*g, *b));
    }
}

impl Brief {
    /// The Markdown text (printed when JSON is not asked for).
    pub fn to_markdown(&self, g: &Graph) -> (res: String)
        requires
            self.path_from_root matches Some(p) ==> p@.len() >= 1,
        ensures
            res@ == brief_md(*self, *g),
    {
        let mut s = String::new();
        push_head(&mut s, &self.node);
        push_path(&mut s, &self.path_from_root);
        push_incoming(&mut s, &self.incoming);
        push_outgoing(&mut s, g, &self.outgoing);
        push_checks(&mut s, self);
        push_vars(&mut s, g, self);
        if self.group_siblings.len() > 0 {
            push_str(&mut s, "\n## Same group\n");
            let j = join_strings(&self.group_siblings, ", ");
            push_str(&mut s, j.as_str());
            push_str(&mut s, "\n");
        }
        proof {
            assert(s@ =~= brief_md(*self, *g));
        }
        s
    }
}

/// What the node with ID `id` says of itself (empty when there is no such node or no
/// description).
pub open spec fn own_desc(g: Graph, id: Seq<char>) -> Seq<char> {
    if g.has_node(id) { text_or(g.nodes@[g.node_index(id)].desc, Seq::<char>::empty()) } else { Seq::<char>::empty() }
}

/// The Outgoing line of edge `e`: its label, its target and the target's description.
pub open spec fn outgoing_line(g: Graph, e: ResolvedEdge) -> Seq<char> {
    "- "@ + tag_post_spec(e.label@) + "→ "@ + e.to@ + " — "@ + own_desc(g, e.to@) + "\n"@
}

proof fn lemma_contains_seq_left(a: Seq<char>, b: Seq<char>, w: Seq<char>)
    requires
        crate::text::contains_seq(a, w),
    ensures
        crate::text::contains_seq(a + b, w),
{
    let i = choose|i: int| #[trigger] crate::text::occurs_at(a, w, i);
    assert((a + b).subrange(i, i + w.len()) =~= a.subrange(i, i + w.len()));
    assert(crate::text::occurs_at(a + b, w, i));
}

proof fn lemma_contains_seq_right(a: Seq<char>, b: Seq<char>, w: Seq<char>)
    requires
        crate::text::contains_seq(b, w),
    ensures
        crate::text::contains_seq(a + b, w),
{
    let i = choose|i: int| #[trigger] crate::text::occurs_at(b, w, i);
    assert((a + b).subrange(i + a.len(), i + a.len() + w.len()) =~= b.subrange(i, i + w.len()));
    assert(crate::text::occurs_at(a + b, w, i + a.len()));
}

proof fn lemma_out_lines_has(g: Graph, es: Seq<ResolvedEdge>, k: int)
    requires
        0 <= k < es.len(),
    ensures
        crate::text::contains_seq(out_lines(g, es), outgoing_line(g, es[k])),
    decreases es.len(),
{
    let e = es.last();
    crate::table::lemma_key_index(g.nodes@, e.to@);
    let last = outgoing_line(g, e);
    assert(out_lines(g, es) =~= out_lines(g, es.drop_last()) + last);
    if k < es.len() - 1 {
        assert(es.drop_last()[k] == es[k]);
        lemma_out_lines_has(g, es.drop_last(), k);
        lemma_contains_seq_left(out_lines(g, es.drop_last()), last, outgoing_line(g, es[k]));
    } else {
        assert(last.subrange(0, last.len() as int) =~= last);
        assert(crate::text::occurs_at(last, last, 0));
        lemma_contains_seq_right(out_lines(g, es.drop_last()), last, last);
    }
}

/// Each outgoing edge of a brief has its line in the brief's Markdown, ending with the
/// description of the node the edge leads to.
pub proof fn lemma_outgoing_lines_name_the_target(b: Brief, g: Graph, k: int)
    requires
        0 <= k < b.outgoing@.len(),
    ensures
        crate::text::contains_seq(brief_md(b, g), outgoing_line(g, b.outgoing@[k])),
{
    let w = outgoing_line(g, b.outgoing@[k]);
    lemma_out_lines_has(g, b.outgoing@, k);
    let pre = "\n## Outgoing\n"@ + (if b.outgoing@.len() == 0 { "(none)\n"@ } else { Seq::<char>::empty() });
    lemma_contains_seq_right(pre, out_lines(g, b.outgoing@), w);
    let a1 = head_md(b.node) + path_md(b.path_from_root) + incoming_md(b.incoming@);
    lemma_contains_seq_right(a1, outgoing_md(g, b.outgoing@), w);
    let a2 = a1 + outgoing_md(g, b.outgoing@);
    lemma_contains_seq_left(a2, checks_md(b), w);
    lemma_contains_seq_left(a2 + checks_md(b), vars_md(g, b), w);
    lemma_contains_seq_left(a2 + checks_md(b) + vars_md(g, b), group_md(b), w);
}

/// The Incoming line of edge `e`: the node it comes from and its label.
pub open spec fn incoming_line(e: ResolvedEdge) -> Seq<char> {
    "- "@ + e.from@ + " "@ + tag_spec(e.label@) + "\n"@
}

proof fn lemma_in_lines_has(es: Seq<ResolvedEdge>, k: int)
    requires
        0 <= k < es.len(),
    ensures
        crate::text::contains_seq(in_lines(es), incoming_line(es[k])),
    decreases es.len(),
{
    let last = incoming_line(es.last());
    assert(in_lines(es) =~= in_lines(es.drop_last()) + last);
    if k < es.len() - 1 {
        assert(es.drop_last()[k] == es[k]);
        lemma_in_lines_has(es.drop_last(), k);
        lemma_contains_seq_left(in_lines(es.drop_last()), last, incoming_line(es[k]));
    } else {
        assert(last.subrange(0, last.len() as int) =~= last);
        assert(crate::text::occurs_at(last, last, 0));
        lemma_contains_seq_right(in_lines(es.drop_last()), last, last);
    }
}

/// Each incoming edge of a brief has its line in the brief's Markdown, naming the node the
/// edge comes from.
pub proof fn lemma_incoming_lines_name_the_source(b: Brief, g: Graph, k: int)
    requires
        0 <= k < b.incoming@.len(),
    ensures
        crate::text::contains_seq(brief_md(b, g), incoming_line(b.incoming@[k])),
{
    let w = incoming_line(b.incoming@[k]);
    lemma_in_lines_has(b.incoming@, k);
    lemma_contains_seq_right("\n## Incoming\n"@, in_lines(b.incoming@), w);
    let a0 = head_md(b.node) + path_md(b.path_from_root);
    lemma_contains_seq_right(a0, incoming_md(b.incoming@), w);
    let a1 = a0 + incoming_md(b.incoming@);
    lemma_contains_seq_left(a1, outgoing_md(g, b.outgoing@), w);
    let a2 = a1 + outgoing_md(g, b.outgoing@);
    lemma_contains_seq_left(a2, checks_md(b), w);
    lemma_contains_seq_left(a2 + checks_md(b), vars_md(g, b), w);
    lemma_contains_seq_left(a2 + checks_md(b) + vars_md(g, b), group_md(b), w);
}

} // verus!
