//! The versioned picture of a graph that the UI embeds; the UI knows only this shape.

use vstd::prelude::*;
use crate::diff::{GraphDiff, NodeChange};
use crate::graph::{Graph, REdge, ResolvedEdge, incoming_spec, redges};
use crate::model::{
    Attr, CheckDef, CheckUse, Edge, Kind, Node, Outcome, PermDef, ProjectConfig, RootDef, SetVar,
    VarDef, ViewDef, edge_label, ostr, outcome_label,
};
use crate::query::text_or;
use crate::strset::sorted_strict;
use crate::text::{dec, dec_string, push_str, str_eq};

verus! {

/// The version of the exported shape.
pub const SCHEMA_VERSION: u32 = 2;

/// An outgoing edge as the UI draws it.
#[derive(Debug)]
pub struct ExportEdge<'a> {
    pub to: &'a str,
    pub label: &'a str,
    pub class: &'static str,
    pub when: Option<&'a str>,
}

/// An incoming edge (so that the UI need not invert the graph).
#[derive(Debug)]
pub struct ExportIn<'a> {
    pub from: &'a str,
    pub label: &'a str,
    pub class: &'static str,
}

/// An end without a node: a check's `outcome=` or a `returns ... outcome=`.
#[derive(Debug)]
pub struct ExportOutcome {
    pub label: String,
    pub text: String,
    pub class: &'static str,
}

#[derive(Debug)]
pub struct ExportNode<'a> {
    pub id: &'a str,
    pub kind: Kind,
    pub layer: &'a str,
    pub desc: &'a str,
    pub doc: Option<&'a str>,
    pub attrs: &'a Vec<Attr>,
    pub out: Vec<ExportEdge<'a>>,
    pub incoming: Vec<ExportIn<'a>>,
    pub checks: Vec<&'a CheckUse>,
    pub sets: Vec<&'a SetVar>,
    pub outcomes: Vec<ExportOutcome>,
    /// `<file>:<line>`.
    pub file: String,
}

/// A removed node, with the edges that led to it in the old graph.
#[derive(Debug)]
pub struct RemovedNode {
    pub id: String,
    pub kind: Kind,
    pub layer: String,
    pub desc: String,
    /// `(from, label)` of each old edge into it.
    pub from: Vec<(String, String)>,
}

/// The diff overlay.
#[derive(Debug)]
pub struct ExportDiff {
    pub added: Vec<String>,
    pub removed: Vec<RemovedNode>,
    pub changed: Vec<String>,
    /// `(from, to, label)` of each removed edge.
    pub edges_removed: Vec<(String, String, String)>,
    pub edges_added: Vec<(String, String, String)>,
}

#[derive(Debug)]
pub struct Export<'a> {
    pub schema: u32,
    pub project: &'a ProjectConfig,
    pub nodes: Vec<ExportNode<'a>>,
    pub vars: Vec<&'a VarDef>,
    pub checks: Vec<&'a CheckDef>,
    pub roots: Vec<&'a str>,
    /// Periodic roots: `(id, every)`, by ID, each ID once.
    pub every: Vec<(&'a str, &'a str)>,
    pub perms: Vec<&'a PermDef>,
    pub views: Vec<&'a ViewDef>,
    pub diff: Option<ExportDiff>,
}

pub open spec fn oref(o: Option<&str>) -> Option<Seq<char>> {
    match o {
        Some(s) => Some(s@),
        None => None,
    }
}

/// An exported outgoing edge is the resolved edge without its source and line.
pub open spec fn out_view(e: ExportEdge) -> (Seq<char>, Seq<char>, Seq<char>, Option<Seq<char>>) {
    (e.to@, e.label@, e.class@, oref(e.when))
}

pub open spec fn redge_out(e: REdge) -> (Seq<char>, Seq<char>, Seq<char>, Option<Seq<char>>) {
    (e.to, e.label, e.class, e.when)
}

pub open spec fn in_view(e: ExportIn) -> (Seq<char>, Seq<char>, Seq<char>) {
    (e.from@, e.label@, e.class@)
}

pub open spec fn redge_in(e: REdge) -> (Seq<char>, Seq<char>, Seq<char>) {
    (e.from, e.label, e.class)
}

pub open spec fn outcome_view(o: ExportOutcome) -> (Seq<char>, Seq<char>, Seq<char>) {
    (o.label@, o.text@, o.class@)
}

/// A check use with `outcome=` ends there on failure: `<name> ✗[ <status>]`.
pub open spec fn check_outcomes(cs: Seq<CheckUse>) -> Seq<(Seq<char>, Seq<char>, Seq<char>)>
    decreases cs.len(),
{
    if cs.len() == 0 {
        Seq::empty()
    } else {
        let r = check_outcomes(cs.drop_last());
        let c = cs.last();
        match c.outcome {
            Some(t) => r.push((
                match c.fail { Some(f) => c.name@ + " ✗ "@ + dec(f as nat), None => c.name@ + " ✗"@ },
                t@,
                "fail"@,
            )),
            None => r,
        }
    }
}

/// A `returns` end: its label, its text, `fail` for a status of 400 or more.
pub open spec fn return_outcome(o: Outcome) -> (Seq<char>, Seq<char>, Seq<char>) {
    (outcome_label(o), o.text@, if o.status matches Some(s) && s >= 400 { "fail"@ } else { ""@ })
}

/// Every end of a node without a target: the checks', then the `returns`'.
pub open spec fn node_outcomes(n: Node) -> Seq<(Seq<char>, Seq<char>, Seq<char>)> {
    check_outcomes(n.checks@) + n.outcomes@.map_values(|o: Outcome| return_outcome(o))
}

/// `x` is the export of node `n` of `g`.
pub open spec fn node_export_ok(g: Graph, n: Node, x: ExportNode) -> bool {
    &&& x.id@ == n.id@
    &&& x.kind == n.kind
    &&& x.layer@ == n.layer@
    &&& x.desc@ == text_or(n.desc, Seq::<char>::empty())
    &&& oref(x.doc) == ostr(n.doc)
    &&& x.attrs@ == n.attrs@
    &&& x.out@.map_values(|e: ExportEdge| out_view(e)) == g.out_edges(n.id@).map_values(|e: REdge| redge_out(e))
    &&& x.incoming@.map_values(|e: ExportIn| in_view(e)) == incoming_spec(g.outs(), n.id@).map_values(|e: REdge| redge_in(e))
    &&& x.checks@.map_values(|c: &CheckUse| *c) == n.checks@
    &&& x.sets@.map_values(|c: &SetVar| *c) == n.sets@
    &&& x.outcomes@.map_values(|o: ExportOutcome| outcome_view(o)) == node_outcomes(n)
    &&& x.file@ == n.file@ + ":"@ + dec(n.line as nat)
}

fn export_outs<'a>(es: &'a [ResolvedEdge]) -> (res: Vec<ExportEdge<'a>>)
    ensures
        res@.map_values(|e: ExportEdge| out_view(e)) == redges(es@).map_values(|e: REdge| redge_out(e)),
{
    let ghost want = redges(es@).map_values(|e: REdge| redge_out(e));
    let mut out: Vec<ExportEdge<'a>> = Vec::new();
    let mut i: usize = 0;
    while i < es.len()
        invariant
            i <= es@.len(),
            want == redges(es@).map_values(|e: REdge| redge_out(e)),
            out@.map_values(|e: ExportEdge| out_view(e)) == want.take(i as int),
        decreases es.len() - i,
    {
        let e = &es[i];
        let w = match &e.when {
            Some(x) => Some(x.as_str()),
            None => None,
        };
        let x = ExportEdge { to: e.to.as_str(), label: e.label.as_str(), class: e.class, when: w };
        let ghost before = out@;
        out.push(x);
        proof {
            assert(out@.map_values(|e: ExportEdge| out_view(e)) =~= before.map_values(|e: ExportEdge| out_view(e)).push(out_view(x)));
            assert(want.take(i + 1) =~= want.take(i as int).push(want[i as int]));
        }
        i += 1;
    }
    proof {
        assert(want.take(es@.len() as int) =~= want);
    }
    out
}

fn export_ins<'a>(es: &Vec<&'a ResolvedEdge>) -> (res: Vec<ExportIn<'a>>)
    ensures
        res@.map_values(|e: ExportIn| in_view(e)) == es@.map_values(|e: &ResolvedEdge| (*e)@).map_values(|e: REdge| redge_in(e)),
{
    let ghost want = es@.map_values(|e: &ResolvedEdge| (*e)@).map_values(|e: REdge| redge_in(e));
    let mut out: Vec<ExportIn<'a>> = Vec::new();
    let mut i: usize = 0;
    while i < es.len()
        invariant
            i <= es@.len(),
            want == es@.map_values(|e: &ResolvedEdge| (*e)@).map_values(|e: REdge| redge_in(e)),
            out@.map_values(|e: ExportIn| in_view(e)) == want.take(i as int),
        decreases es.len() - i,
    {
        let e: &'a ResolvedEdge = es[i];
        let x = ExportIn { from: e.from.as_str(), label: e.label.as_str(), class: e.class };
        let ghost before = out@;
        out.push(x);
        proof {
            assert(out@.map_values(|e: ExportIn| in_view(e)) =~= before.map_values(|e: ExportIn| in_view(e)).push(in_view(x)));
            assert(want.take(i + 1) =~= want.take(i as int).push(want[i as int]));
        }
        i += 1;
    }
    proof {
        assert(want.take(es@.len() as int) =~= want);
    }
    out
}

/// References to every element, in order.
fn refs_of<'a, T>(v: &'a Vec<T>) -> (res: Vec<&'a T>)
    ensures
        res@.map_values(|x: &T| *x) == v@,
{
    let mut out: Vec<&'a T> = Vec::new();
    let mut i: usize = 0;
    while i < v.len()
        invariant
            i <= v@.len(),
            out@.map_values(|x: &T| *x) == v@.take(i as int),
        decreases v.len() - i,
    {
        let ghost before = out@;
        out.push(&v[i]);
        proof {
            assert(out@.map_values(|x: &T| *x) =~= before.map_values(|x: &T| *x).push(v@[i as int]));
            assert(v@.take(i + 1) =~= v@.take(i as int).push(v@[i as int]));
        }
        i += 1;
    }
    proof {
        assert(v@.take(v@.len() as int) =~= v@);
    }
    out
}

fn export_outcomes(n: &Node) -> (res: Vec<ExportOutcome>)
    ensures
        res@.map_values(|o: ExportOutcome| outcome_view(o)) == node_outcomes(*n),
{
    let mut out: Vec<ExportOutcome> = Vec::new();
    let mut i: usize = 0;
    while i < n.checks.len()
        invariant
            i <= n.checks@.len(),
            out@.map_values(|o: ExportOutcome| outcome_view(o)) == check_outcomes(n.checks@.take(i as int)),
        decreases n.checks.len() - i,
    {
        proof {
            assert(n.checks@.take(i + 1).drop_last() =~= n.checks@.take(i as int));
            assert(n.checks@.take(i + 1).last() == n.checks@[i as int]);
        }
        let c = &n.checks[i];
        match &c.outcome {
            Some(t) => {
                let mut label = c.name.clone();
                match c.fail {
                    Some(f) => {
                        push_str(&mut label, " ✗ ");
                        let d = dec_string(f as u64);
                        push_str(&mut label, d.as_str());
                    },
                    None => push_str(&mut label, " ✗"),
                }
                let x = ExportOutcome { label, text: t.clone(), class: "fail" };
                let ghost before = out@;
                out.push(x);
                proof {
                    assert(out@.map_values(|o: ExportOutcome| outcome_view(o)) =~= before.map_values(|o: ExportOutcome| outcome_view(o)).push(outcome_view(x)));
                }
            },
            None => {},
        }
        i += 1;
    }
    proof {
        assert(n.checks@.take(n.checks@.len() as int) =~= n.checks@);
    }
    let ghost base = out@.map_values(|o: ExportOutcome| outcome_view(o));
    let ghost rs = n.outcomes@.map_values(|o: Outcome| return_outcome(o));
    let mut j: usize = 0;
    while j < n.outcomes.len()
        invariant
            j <= n.outcomes@.len(),
            rs == n.outcomes@.map_values(|o: Outcome| return_outcome(o)),
            out@.map_values(|o: ExportOutcome| outcome_view(o)) == base + rs.take(j as int),
        decreases n.outcomes.len() - j,
    {
        let o = &n.outcomes[j];
        let fail = match o.status {
            Some(s) => s >= 400,
            None => false,
        };
        let class: &'static str = if fail { "fail" } else { "" };
        let x = ExportOutcome { label: o.label(), text: o.text.clone(), class };
        proof {
            assert(outcome_view(x) == rs[j as int]);
        }
        let ghost before = out@;
        out.push(x);
        proof {
            assert(out@.map_values(|o: ExportOutcome| outcome_view(o)) =~= before.map_values(|o: ExportOutcome| outcome_view(o)).push(outcome_view(x)));
            assert(rs.take(j + 1) =~= rs.take(j as int).push(rs[j as int]));
        }
        j += 1;
    }
    proof {
        assert(rs.take(n.outcomes@.len() as int) =~= rs);
    }
    out
}

fn export_node<'a>(g: &'a Graph, n: &'a Node) -> (res: ExportNode<'a>)
    requires
        g.indexed(),
    ensures
        node_export_ok(*g, *n, res),
{
    let desc: &'a str = match &n.desc {
        Some(d) => d.as_str(),
        None => "",
    };
    proof {
        reveal_strlit("");
        assert(desc@ == text_or(n.desc, Seq::<char>::empty()));
    }
    let doc = match &n.doc {
        Some(d) => Some(d.as_str()),
        None => None,
    };
    let out = export_outs(g.outgoing(n.id.as_str()));
    let ins = g.incoming_edges(n.id.as_str());
    let incoming = export_ins(&ins);
    let mut file = n.file.clone();
    push_str(&mut file, ":");
    let ln = dec_string(n.line as u64);
    push_str(&mut file, ln.as_str());
    ExportNode {
        id: n.id.as_str(),
        kind: n.kind,
        layer: n.layer.as_str(),
        desc,
        doc,
        attrs: &n.attrs,
        out,
        incoming,
        checks: refs_of(&n.checks),
        sets: refs_of(&n.sets),
        outcomes: export_outcomes(n),
        file,
    }
}

/// The `every` of the last root called `k` that has one (later roots win, as in a map).
pub open spec fn every_of(roots: Seq<RootDef>, k: Seq<char>) -> Option<Seq<char>>
    decreases roots.len(),
{
    if roots.len() == 0 {
        None
    } else if roots.last().id@ == k && roots.last().every is Some {
        ostr(roots.last().every)
    } else {
        every_of(roots.drop_last(), k)
    }
}

pub open spec fn every_keys(v: Seq<(&str, &str)>) -> Seq<Seq<char>> {
    v.map_values(|p: (&str, &str)| p.0@)
}

/// `v` is the map from periodic root to its `every`, by ID.
pub open spec fn every_ok(v: Seq<(&str, &str)>, roots: Seq<RootDef>) -> bool {
    &&& sorted_strict(every_keys(v))
    &&& forall|k: Seq<char>| every_keys(v).contains(k) <==> every_of(roots, k) is Some
    &&& forall|i: int| 0 <= i < v.len() ==> every_of(roots, (#[trigger] v[i]).0@) == Some(v[i].1@)
}

proof fn lemma_every_of(roots: Seq<RootDef>, k: Seq<char>)
    ensures
        every_of(roots, k) is Some <==> exists|i: int| 0 <= i < roots.len() && (#[trigger] roots[i]).id@ == k && roots[i].every is Some,
    decreases roots.len(),
{
    if roots.len() > 0 {
        lemma_every_of(roots.drop_last(), k);
        if exists|i: int| 0 <= i < roots.len() && (#[trigger] roots[i]).id@ == k && roots[i].every is Some {
            let i = choose|i: int| 0 <= i < roots.len() && (#[trigger] roots[i]).id@ == k && roots[i].every is Some;
            if i < roots.len() - 1 {
                assert(roots.drop_last()[i] == roots[i]);
            }
        }
        if exists|i: int| 0 <= i < roots.drop_last().len() && (#[trigger] roots.drop_last()[i]).id@ == k && roots.drop_last()[i].every is Some {
            let i = choose|i: int| 0 <= i < roots.drop_last().len() && (#[trigger] roots.drop_last()[i]).id@ == k && roots.drop_last()[i].every is Some;
            assert(roots[i] == roots.drop_last()[i]);
        }
    }
}

/// The index of the last root called `k` that has an `every`.
fn last_every(roots: &Vec<RootDef>, k: &str) -> (res: Option<usize>)
    ensures
        match res {
            Some(j) => j < roots@.len() && roots@[j as int].id@ == k@ && roots@[j as int].every is Some
                && every_of(roots@, k@) == ostr(roots@[j as int].every),
            None => every_of(roots@, k@) is None,
        },
{
    let mut j: usize = roots.len();
    proof {
        assert(roots@.take(j as int) =~= roots@);
    }
    while j > 0
        invariant
            j <= roots@.len(),
            every_of(roots@, k@) == every_of(roots@.take(j as int), k@),
        decreases j,
    {
        proof {
            assert(roots@.take(j as int).drop_last() =~= roots@.take(j - 1));
            assert(roots@.take(j as int).last() == roots@[j - 1]);
        }
        if str_eq(roots[j - 1].id.as_str(), k) && roots[j - 1].every.is_some() {
            return Some(j - 1);
        }
        j -= 1;
    }
    proof {
        assert(roots@.take(0) =~= Seq::<RootDef>::empty());
    }
    None
}

/// The periodic roots with their `every`, by ID, each once.
fn export_every<'a>(roots: &'a Vec<RootDef>) -> (res: Vec<(&'a str, &'a str)>)
    ensures
        every_ok(res@, roots@),
{
    let mut ids: Vec<String> = Vec::new();
    let mut i: usize = 0;
    while i < roots.len()
        invariant
            i <= roots@.len(),
            sorted_strict(crate::strset::views(ids@)),
            forall|x: Seq<char>| crate::strset::views(ids@).contains(x) <==>
                exists|m: int| 0 <= m < i && (#[trigger] roots@[m]).id@ == x && roots@[m].every is Some,
        decreases roots.len() - i,
    {
        if roots[i].every.is_some() {
            crate::strset::set_insert(&mut ids, roots[i].id.clone());
        }
        proof {
            assert forall|x: Seq<char>| crate::strset::views(ids@).contains(x) <==>
                exists|m: int| 0 <= m < i + 1 && (#[trigger] roots@[m]).id@ == x && roots@[m].every is Some by {
                if exists|m: int| 0 <= m < i + 1 && (#[trigger] roots@[m]).id@ == x && roots@[m].every is Some {
                    let m = choose|m: int| 0 <= m < i + 1 && (#[trigger] roots@[m]).id@ == x && roots@[m].every is Some;
                    assert(roots@[m].id@ == x);
                }
            }
        }
        i += 1;
    }
    let mut out: Vec<(&'a str, &'a str)> = Vec::new();
    let mut q: usize = 0;
    while q < ids.len()
        invariant
            q <= ids@.len(),
            sorted_strict(crate::strset::views(ids@)),
            forall|x: Seq<char>| crate::strset::views(ids@).contains(x) <==>
                exists|m: int| 0 <= m < roots@.len() && (#[trigger] roots@[m]).id@ == x && roots@[m].every is Some,
            every_keys(out@) == crate::strset::views(ids@).take(q as int),
            forall|t: int| 0 <= t < out@.len() ==> every_of(roots@, (#[trigger] out@[t]).0@) == Some(out@[t].1@),
        decreases ids.len() - q,
    {
        proof {
            assert(crate::strset::views(ids@).contains(ids@[q as int]@)) by {
                assert(crate::strset::views(ids@)[q as int] == ids@[q as int]@);
            }
            lemma_every_of(roots@, ids@[q as int]@);
        }
        match last_every(roots, ids[q].as_str()) {
            Some(j) => {
                let r: &'a RootDef = &roots[j];
                let e: &'a str = match &r.every {
                    Some(x) => x.as_str(),
                    None => "",
                };
                let ghost before = out@;
                out.push((r.id.as_str(), e));
                proof {
                    assert(every_keys(out@) =~= every_keys(before).push(ids@[q as int]@));
                    assert(crate::strset::views(ids@).take(q + 1) =~= crate::strset::views(ids@).take(q as int).push(ids@[q as int]@));
                    assert forall|t: int| 0 <= t < out@.len() implies every_of(roots@, (#[trigger] out@[t]).0@) == Some(out@[t].1@) by {
                        if t < before.len() {
                            assert(out@[t] == before[t]);
                        }
                    }
                }
            },
            None => {
                proof {
                    assert(false);
                }
            },
        }
        q += 1;
    }
    proof {
        assert(crate::strset::views(ids@).take(ids@.len() as int) =~= crate::strset::views(ids@));
        assert forall|k: Seq<char>| every_keys(out@).contains(k) <==> every_of(roots@, k) is Some by {
            lemma_every_of(roots@, k);
        }
    }
    out
}

pub open spec fn triples(s: Seq<(String, String, String)>) -> Seq<(Seq<char>, Seq<char>, Seq<char>)> {
    s.map_values(|t: (String, String, String)| (t.0@, t.1@, t.2@))
}

pub open spec fn change_edges(c: NodeChange, removed: bool) -> Seq<(Seq<char>, Seq<char>, Seq<char>)> {
    (if removed { c.edges_removed@ } else { c.edges_added@ }).map_values(|e: Edge| (c.id@, e.to@, edge_label(e)))
}

/// `(node, to, label)` of the removed (or added) edges of each changed node, in order.
pub open spec fn edge_triples(cs: Seq<NodeChange>, removed: bool) -> Seq<(Seq<char>, Seq<char>, Seq<char>)>
    decreases cs.len(),
{
    if cs.len() == 0 {
        Seq::empty()
    } else {
        edge_triples(cs.drop_last(), removed) + change_edges(cs.last(), removed)
    }
}

/// `x` is the overlay of diff `d`, before the sources of removed nodes are filled in.
pub open spec fn export_diff_ok(d: GraphDiff, x: ExportDiff) -> bool {
    &&& crate::strset::views(x.added@) == d.added@.map_values(|n: Node| n.id@)
    &&& x.removed@.len() == d.removed@.len()
    &&& forall|i: int| 0 <= i < x.removed@.len() ==> {
        let r = #[trigger] x.removed@[i];
        let n = d.removed@[i];
        r.id@ == n.id@ && r.kind == n.kind && r.layer@ == n.layer@ && r.desc@ == text_or(n.desc, Seq::<char>::empty())
            && r.from@.len() == 0
    }
    &&& crate::strset::views(x.changed@) == d.changed@.map_values(|c: NodeChange| c.id@)
    &&& triples(x.edges_removed@) == edge_triples(d.changed@, true)
    &&& triples(x.edges_added@) == edge_triples(d.changed@, false)
}

fn export_triples(cs: &Vec<NodeChange>, removed: bool) -> (res: Vec<(String, String, String)>)
    ensures
        triples(res@) == edge_triples(cs@, removed),
{
    let mut out: Vec<(String, String, String)> = Vec::new();
    let mut i: usize = 0;
    while i < cs.len()
        invariant
            i <= cs@.len(),
            triples(out@) == edge_triples(cs@.take(i as int), removed),
        decreases cs.len() - i,
    {
        proof {
            assert(cs@.take(i + 1).drop_last() =~= cs@.take(i as int));
            assert(cs@.take(i + 1).last() == cs@[i as int]);
        }
        let c = &cs[i];
        let es = if removed { &c.edges_removed } else { &c.edges_added };
        let ghost base = triples(out@);
        let ghost want = change_edges(*c, removed);
        let mut j: usize = 0;
        while j < es.len()
            invariant
                j <= es@.len(),
                es@ == (if removed { c.edges_removed@ } else { c.edges_added@ }),
                want == change_edges(*c, removed),
                triples(out@) == base + want.take(j as int),
            decreases es.len() - j,
        {
            let t = (c.id.clone(), es[j].to.clone(), es[j].label());
            let ghost before = out@;
            out.push(t);
            proof {
                assert(triples(out@) =~= triples(before).push(want[j as int]));
                assert(want.take(j + 1) =~= want.take(j as int).push(want[j as int]));
            }
            j += 1;
        }
        proof {
            assert(want.take(es@.len() as int) =~= want);
        }
        i += 1;
    }
    proof {
        assert(cs@.take(cs@.len() as int) =~= cs@);
    }
    out
}

fn export_diff(d: &GraphDiff) -> (res: ExportDiff)
    ensures
        export_diff_ok(*d, res),
{
    let mut added: Vec<String> = Vec::new();
    let mut i: usize = 0;
    while i < d.added.len()
        invariant
            i <= d.added@.len(),
            crate::strset::views(added@) == d.added@.map_values(|n: Node| n.id@).take(i as int),
        decreases d.added.len() - i,
    {
        let ghost before = crate::strset::views(added@);
        added.push(d.added[i].id.clone());
        proof {
            assert(crate::strset::views(added@) =~= before.push(d.added@[i as int].id@));
            assert(d.added@.map_values(|n: Node| n.id@).take(i + 1) =~= d.added@.map_values(|n: Node| n.id@).take(i as int).push(d.added@[i as int].id@));
        }
        i += 1;
    }
    proof {
        assert(d.added@.map_values(|n: Node| n.id@).take(d.added@.len() as int) =~= d.added@.map_values(|n: Node| n.id@));
    }
    let mut removed: Vec<RemovedNode> = Vec::new();
    let mut k: usize = 0;
    while k < d.removed.len()
        invariant
            k <= d.removed@.len(),
            removed@.len() == k,
            forall|t: int| 0 <= t < k ==> {
                let r = #[trigger] removed@[t];
                let n = d.removed@[t];
                r.id@ == n.id@ && r.kind == n.kind && r.layer@ == n.layer@ && r.desc@ == text_or(n.desc, Seq::<char>::empty())
                    && r.from@.len() == 0
            },
        decreases d.removed.len() - k,
    {
        let n = &d.removed[k];
        let desc = match &n.desc {
            Some(x) => x.clone(),
            None => String::new(),
        };
        let r = RemovedNode { id: n.id.clone(), kind: n.kind, layer: n.layer.clone(), desc, from: Vec::new() };
        let ghost before = removed@;
        removed.push(r);
        proof {
            assert forall|t: int| 0 <= t < k + 1 implies {
                let r = #[trigger] removed@[t];
                let n = d.removed@[t];
                r.id@ == n.id@ && r.kind == n.kind && r.layer@ == n.layer@ && r.desc@ == text_or(n.desc, Seq::<char>::empty())
                    && r.from@.len() == 0
            } by {
                if t < k {
                    assert(removed@[t] == before[t]);
                }
            }
        }
        k += 1;
    }
    let mut changed: Vec<String> = Vec::new();
    let mut c: usize = 0;
    while c < d.changed.len()
        invariant
            c <= d.changed@.len(),
            crate::strset::views(changed@) == d.changed@.map_values(|x: NodeChange| x.id@).take(c as int),
        decreases d.changed.len() - c,
    {
        let ghost before = crate::strset::views(changed@);
        changed.push(d.changed[c].id.clone());
        proof {
            assert(crate::strset::views(changed@) =~= before.push(d.changed@[c as int].id@));
            assert(d.changed@.map_values(|x: NodeChange| x.id@).take(c + 1) =~= d.changed@.map_values(|x: NodeChange| x.id@).take(c as int).push(d.changed@[c as int].id@));
        }
        c += 1;
    }
    proof {
        assert(d.changed@.map_values(|x: NodeChange| x.id@).take(d.changed@.len() as int) =~= d.changed@.map_values(|x: NodeChange| x.id@));
    }
    let edges_removed = export_triples(&d.changed, true);
    let edges_added = export_triples(&d.changed, false);
    ExportDiff { added, removed, changed, edges_removed, edges_added }
}

/// `x` is the export of `g`, with the overlay of `d` if given.
pub open spec fn export_ok(g: Graph, d: Option<GraphDiff>, x: Export) -> bool {
    &&& x.schema == 2
    &&& *x.project == g.config
    &&& x.nodes@.len() == g.nodes@.len()
    &&& forall|i: int| 0 <= i < x.nodes@.len() ==> node_export_ok(g, g.nodes@[i], #[trigger] x.nodes@[i])
    &&& x.vars@.map_values(|v: &VarDef| *v) == g.vars@
    &&& x.checks@.map_values(|v: &CheckDef| *v) == g.checks@
    &&& x.perms@.map_values(|v: &PermDef| *v) == g.perms@
    &&& x.views@.map_values(|v: &ViewDef| *v) == g.views@
    &&& x.roots@.map_values(|s: &str| s@) == g.roots@.map_values(|r: RootDef| r.id@)
    &&& every_ok(x.every@, g.roots@)
    &&& match (d, x.diff) {
        (Some(dd), Some(xd)) => export_diff_ok(dd, xd),
        (None, None) => true,
        _ => false,
    }
}

/// The export of the graph, with the diff overlay when a diff is given.
pub fn export<'a>(g: &'a Graph, diff: Option<&GraphDiff>) -> (res: Export<'a>)
    requires
        g.wf(),
    ensures
        export_ok(*g, match diff { Some(d) => Some(*d), None => None }, res),
{
    let mut nodes: Vec<ExportNode<'a>> = Vec::new();
    let mut i: usize = 0;
    while i < g.nodes.len()
        invariant
            g.wf(),
            i <= g.nodes@.len(),
            nodes@.len() == i,
            forall|t: int| 0 <= t < i ==> node_export_ok(*g, g.nodes@[t], #[trigger] nodes@[t]),
        decreases g.nodes.len() - i,
    {
        let x = export_node(g, &g.nodes[i]);
        let ghost before = nodes@;
        nodes.push(x);
        proof {
            assert forall|t: int| 0 <= t < i + 1 implies node_export_ok(*g, g.nodes@[t], #[trigger] nodes@[t]) by {
                if t < i {
                    assert(nodes@[t] == before[t]);
                }
            }
        }
        i += 1;
    }
    let d = match diff {
        Some(dd) => Some(export_diff(dd)),
        None => None,
    };
    let mut roots: Vec<&'a str> = Vec::new();
    let mut r: usize = 0;
    while r < g.roots.len()
        invariant
            r <= g.roots@.len(),
            roots@.map_values(|s: &str| s@) == g.roots@.map_values(|x: RootDef| x.id@).take(r as int),
        decreases g.roots.len() - r,
    {
        let ghost before = roots@;
        roots.push(g.roots[r].id.as_str());
        proof {
            assert(roots@.map_values(|s: &str| s@) =~= before.map_values(|s: &str| s@).push(g.roots@[r as int].id@));
            assert(g.roots@.map_values(|x: RootDef| x.id@).take(r + 1) =~= g.roots@.map_values(|x: RootDef| x.id@).take(r as int).push(g.roots@[r as int].id@));
        }
        r += 1;
    }
    proof {
        assert(g.roots@.map_values(|x: RootDef| x.id@).take(g.roots@.len() as int) =~= g.roots@.map_values(|x: RootDef| x.id@));
    }
    Export {
        schema: SCHEMA_VERSION,
        project: &g.config,
        nodes,
        vars: refs_of(&g.vars),
        checks: refs_of(&g.checks),
        roots,
        every: export_every(&g.roots),
        perms: refs_of(&g.perms),
        views: refs_of(&g.views),
        diff: d,
    }
}

/// The old edges into each removed node, `(from, label)`, for the overlay.
pub open spec fn sources_of(prev: Graph, id: Seq<char>) -> Seq<(Seq<char>, Seq<char>)> {
    incoming_spec(prev.outs(), id).map_values(|e: REdge| (e.from, e.label))
}

/// Fills in, for each removed node of the overlay, the edges that led to it in the old
/// graph; nothing else changes.
pub fn fill_removed_sources(exp: &mut Export<'_>, prev: &Graph)
    requires
        prev.indexed(),
    ensures
        final(exp).schema == old(exp).schema,
        final(exp).project == old(exp).project,
        final(exp).nodes == old(exp).nodes,
        final(exp).vars == old(exp).vars,
        final(exp).checks == old(exp).checks,
        final(exp).roots == old(exp).roots,
        final(exp).every == old(exp).every,
        final(exp).perms == old(exp).perms,
        final(exp).views == old(exp).views,
        match old(exp).diff {
            None => final(exp).diff is None,
            Some(od) => final(exp).diff matches Some(nd) && {
                &&& nd.added == od.added
                &&& nd.changed == od.changed
                &&& nd.edges_removed == od.edges_removed
                &&& nd.edges_added == od.edges_added
                &&& nd.removed@.len() == od.removed@.len()
                &&& forall|i: int| 0 <= i < nd.removed@.len() ==> {
                    let r = #[trigger] nd.removed@[i];
                    let o = od.removed@[i];
                    &&& r.id@ == o.id@ && r.kind == o.kind && r.layer@ == o.layer@ && r.desc@ == o.desc@
                    &&& r.from@.map_values(|p: (String, String)| (p.0@, p.1@)) == sources_of(*prev, o.id@)
                }
            },
        },
{
    match exp.diff.take() {
        None => {},
        Some(d) => {
            let ExportDiff { added, removed, changed, edges_removed, edges_added } = d;
            let mut nr: Vec<RemovedNode> = Vec::new();
            let mut i: usize = 0;
            while i < removed.len()
                invariant
                    prev.indexed(),
                    i <= removed@.len(),
                    nr@.len() == i,
                    forall|t: int| 0 <= t < i ==> {
                        let r = #[trigger] nr@[t];
                        let o = removed@[t];
                        &&& r.id@ == o.id@ && r.kind == o.kind && r.layer@ == o.layer@ && r.desc@ == o.desc@
                        &&& r.from@.map_values(|p: (String, String)| (p.0@, p.1@)) == sources_of(*prev, o.id@)
                    },
                decreases removed.len() - i,
            {
                let o = &removed[i];
                let ins = prev.incoming_edges(o.id.as_str());
                let ghost want = sources_of(*prev, o.id@);
                let mut from: Vec<(String, String)> = Vec::new();
                let mut j: usize = 0;
                while j < ins.len()
                    invariant
                        j <= ins@.len(),
                        ins@.map_values(|e: &ResolvedEdge| (*e)@) == incoming_spec(prev.outs(), o.id@),
                        want == sources_of(*prev, o.id@),
                        from@.map_values(|p: (String, String)| (p.0@, p.1@)) == want.take(j as int),
                    decreases ins.len() - j,
                {
                    let e = ins[j];
                    let ghost before = from@;
                    from.push((e.from.clone(), e.label.clone()));
                    proof {
                        assert(ins@.map_values(|e: &ResolvedEdge| (*e)@)[j as int] == e@);
                        assert(from@.map_values(|p: (String, String)| (p.0@, p.1@)) =~= before.map_values(|p: (String, String)| (p.0@, p.1@)).push(want[j as int]));
                        assert(want.take(j + 1) =~= want.take(j as int).push(want[j as int]));
                    }
                    j += 1;
                }
                proof {
                    assert(want.take(ins@.len() as int) =~= want);
                }
                let r = RemovedNode { id: o.id.clone(), kind: o.kind, layer: o.layer.clone(), desc: o.desc.clone(), from };
                let ghost before = nr@;
                nr.push(r);
                proof {
                    assert forall|t: int| 0 <= t < i + 1 implies {
                        let r = #[trigger] nr@[t];
                        let o = removed@[t];
                        &&& r.id@ == o.id@ && r.kind == o.kind && r.layer@ == o.layer@ && r.desc@ == o.desc@
                        &&& r.from@.map_values(|p: (String, String)| (p.0@, p.1@)) == sources_of(*prev, o.id@)
                    } by {
                        if t < i {
                            assert(nr@[t] == before[t]);
                        }
                    }
                }
                i += 1;
            }
            exp.diff = Some(ExportDiff { added, removed: nr, changed, edges_removed, edges_added });
        },
    }
}

} // verus!
