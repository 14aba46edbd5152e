//! Lint rules about one node: placement, layer, description, reachability, edges, guards,
//! checks, `sets`, kind-specific rules and branching.

use vstd::prelude::*;
use crate::expr::{ident_list, idents};
use crate::graph::{Graph, effective_outcome_spec, nodes_where, node_sets, perm_of_check};
use crate::lint::{DSpec, Diagnostic, Level, dg, diag, dviews};
use crate::model::{
    CheckUse, Edge, EdgeKind, Kind, Node, Outcome, SetVar, allowed_files, allowed_files_spec,
    is_entry, is_entry_spec, local_group, local_group_spec, ostr, s_perm_prefix,
};
use crate::strset::{set_contains, views};
use crate::table::{entry, find_key, has_key, contains_key, lemma_key_index};
use crate::text::{chars_of, dec, dec_string, join, join_strings, push_str, starts_with, string_from};

verus! {

/// Appends one diagnostic.
pub fn push_diag(out: &mut Vec<Diagnostic>, d: Diagnostic)
    ensures
        dviews(final(out)@) == dviews(old(out)@).push(d@),
{
    let ghost dv = d@;
    out.push(d);
    proof {
        assert(dviews(out@) =~= dviews(old(out)@).push(dv));
    }
}

/// Whether `s` contains a dot.
pub fn has_dot(s: &str) -> (res: bool)
    ensures
        res == s@.contains('.'),
{
    let cs = chars_of(s);
    let mut k: usize = 0;
    while k < cs.len()
        invariant
            cs@ == s@,
            k <= cs@.len(),
            forall|m: int| 0 <= m < k ==> cs@[m] != '.',
        decreases cs.len() - k,
    {
        if cs[k] == '.' {
            assert(s@[k as int] == '.');
            return true;
        }
        k += 1;
    }
    false
}

pub open spec fn none() -> Seq<DSpec> {
    Seq::<DSpec>::empty()
}

/// `id_path_mismatch`: the node's file is not one its ID may live in.
pub open spec fn path_rule(n: Node) -> Seq<DSpec> {
    let allowed = allowed_files_spec(n.id@);
    if allowed.contains(n.file@) {
        none()
    } else {
        seq![dg(Level::Error, "id_path_mismatch", n.file@, n.line, Some(n.id@),
            "`"@ + n.id@ + "` must live in one of: "@ + join(allowed, " | "@))]
    }
}

/// `unknown_layer`.
pub open spec fn layer_rule(layers: Seq<Seq<char>>, n: Node) -> Seq<DSpec> {
    if layers.contains(n.layer@) {
        none()
    } else {
        seq![dg(Level::Error, "unknown_layer", n.file@, n.line, Some(n.id@),
            "unknown layer `"@ + n.layer@ + "` (defined: "@ + join(layers, ", "@) + ")"@)]
    }
}

/// `missing_desc`.
pub open spec fn desc_rule(n: Node) -> Seq<DSpec> {
    if n.desc is Some {
        none()
    } else {
        seq![dg(Level::Warning, "missing_desc", n.file@, n.line, Some(n.id@), "`"@ + n.id@ + "` has no `desc`"@)]
    }
}

/// The root IDs of a graph.
pub open spec fn root_ids(g: Graph) -> Seq<Seq<char>> {
    g.roots@.map_values(|r: crate::model::RootDef| r.id@)
}

/// The IDs of the entry nodes (`entry=`), in node order.
pub open spec fn entry_ids(ns: Seq<Node>) -> Seq<Seq<char>>
    decreases ns.len(),
{
    if ns.len() == 0 {
        Seq::empty()
    } else if is_entry_spec(ns.last()) {
        entry_ids(ns.drop_last()).push(ns.last().id@)
    } else {
        entry_ids(ns.drop_last())
    }
}

/// Where reachability starts: every root and every entry node.
pub open spec fn reach_starts(g: Graph) -> Seq<Seq<char>> {
    root_ids(g) + entry_ids(g.nodes@)
}

/// The roots followed by the entry nodes, as the walk for `unreachable` starts from them.
pub fn reach_starts_of(g: &Graph) -> (res: Vec<&str>)
    ensures
        res@.map_values(|s: &str| s@) == reach_starts(*g),
{
    let mut res = g.root_ids();
    let ghost r0 = res@.map_values(|s: &str| s@);
    let mut i: usize = 0;
    while i < g.nodes.len()
        invariant
            i <= g.nodes@.len(),
            r0 == root_ids(*g),
            res@.map_values(|s: &str| s@) == r0 + entry_ids(g.nodes@.take(i as int)),
        decreases g.nodes.len() - i,
    {
        proof {
            assert(g.nodes@.take(i + 1).drop_last() =~= g.nodes@.take(i as int));
            assert(g.nodes@.take(i + 1).last() == g.nodes@[i as int]);
        }
        if is_entry(&g.nodes[i]) {
            let ghost before = res@;
            let x = g.nodes[i].id.as_str();
            res.push(x);
            proof {
                assert(res@ =~= before.push(x));
                assert(res@.map_values(|s: &str| s@) =~= before.map_values(|s: &str| s@).push(g.nodes@[i as int].id@));
            }
        }
        i += 1;
    }
    proof {
        assert(g.nodes@.take(g.nodes@.len() as int) =~= g.nodes@);
    }
    res
}

/// `unreachable`: not reached from a root or an entry node, not a root, not an entry.
pub open spec fn reach_rule(g: Graph, n: Node) -> Seq<DSpec> {
    if g.reaches(reach_starts(g), n.id@) || root_ids(g).contains(n.id@) || is_entry_spec(n) {
        none()
    } else {
        seq![dg(Level::Error, "unreachable", n.file@, n.line, Some(n.id@), "`"@ + n.id@ + "` is not reachable from any root"@)]
    }
}

/// The nodes of `g` in `group` that `sets` `v`.
pub open spec fn local_writers(g: Graph, group: Seq<char>, v: Seq<char>) -> Seq<Node> {
    nodes_where(g.nodes@, |m: Node| local_group_spec(m.id@) == group && node_sets(m, v))
}

/// One name read by a guard: defined, a local counter written in the scope, or an error.
pub open spec fn guard_var_rule(g: Graph, n: Node, w: Seq<char>, line: usize, v: Seq<char>) -> Seq<DSpec> {
    if has_key(g.vars@, v) {
        none()
    } else if !v.contains('.') {
        if local_writers(g, local_group_spec(n.id@), v).len() == 0 {
            seq![dg(Level::Error, "local_var_never_set", n.file@, line, Some(n.id@),
                "guard `"@ + w + "`: local `"@ + v + "` is never `sets` in group `"@ + local_group_spec(n.id@)
                    + "` (declare a `var` if it is global)"@)]
        } else {
            none()
        }
    } else {
        seq![dg(Level::Error, "unknown_var", n.file@, line, Some(n.id@), "guard `"@ + w + "`: `"@ + v + "` is not a defined var"@)]
    }
}

pub open spec fn guard_vars_rule(g: Graph, n: Node, w: Seq<char>, line: usize, vs: Seq<Seq<char>>) -> Seq<DSpec>
    decreases vs.len(),
{
    if vs.len() == 0 {
        none()
    } else {
        guard_vars_rule(g, n, w, line, vs.drop_last()) + guard_var_rule(g, n, w, line, vs.last())
    }
}

/// A guard's names: every one must be a var or a local counter set in the scope.
pub open spec fn guard_rule(g: Graph, n: Node, w: Seq<char>, line: usize) -> Seq<DSpec> {
    guard_vars_rule(g, n, w, line, ident_list(w))
}

/// The rules on one edge.
pub open spec fn edge_rule(g: Graph, n: Node, e: Edge) -> Seq<DSpec> {
    let d1 = if g.has_node(e.to@) {
        none()
    } else {
        seq![dg(Level::Error, "dangling_ref", n.file@, e.line, Some(n.id@), "`"@ + n.id@ + "` → `"@ + e.to@ + "`: target not defined"@)]
    };
    let d2 = match e.kind {
        EdgeKind::On { event } => if g.has_node(event@) {
            none()
        } else {
            seq![dg(Level::Warning, "unknown_event", n.file@, e.line, Some(n.id@), "`on "@ + event@ + "`: no such node"@)]
        },
        _ => none(),
    };
    let d3 = match e.kind {
        EdgeKind::Calls => match entry(g.nodes@, e.to@) {
            Some(t) => if t.kind != Kind::Call {
                seq![dg(Level::Error, "calls_non_call", n.file@, e.line, Some(n.id@), "`calls "@ + e.to@ + "`: target is not a `call`"@)]
            } else {
                none()
            },
            None => none(),
        },
        _ => none(),
    };
    let d4 = match e.when {
        Some(w) => guard_rule(g, n, w@, e.line),
        None => none(),
    };
    d1 + d2 + d3 + d4
}

pub open spec fn edges_rule(g: Graph, n: Node, es: Seq<Edge>) -> Seq<DSpec>
    decreases es.len(),
{
    if es.len() == 0 {
        none()
    } else {
        edges_rule(g, n, es.drop_last()) + edge_rule(g, n, es.last())
    }
}

/// Guards on node-less ends are linted like edge guards.
pub open spec fn outcomes_rule(g: Graph, n: Node, os: Seq<Outcome>) -> Seq<DSpec>
    decreases os.len(),
{
    if os.len() == 0 {
        none()
    } else {
        outcomes_rule(g, n, os.drop_last()) + match os.last().when {
            Some(w) => guard_rule(g, n, w@, os.last().line),
            None => none(),
        }
    }
}

/// A check use: defined (as a check, or as a perm for `requires`), and, unless it ends in
/// an outcome, a failure target that exists.
pub open spec fn check_use_rule(g: Graph, n: Node, c: CheckUse) -> Seq<DSpec> {
    let def = entry(g.checks@, c.name@);
    let d1 = if def is Some {
        none()
    } else {
        match perm_of_check(c.name@) {
            Some(p) => seq![dg(Level::Error, "unknown_perm", n.file@, c.line, Some(n.id@), "`requires "@ + p + "`: no such `perm`"@)],
            None => seq![dg(Level::Error, "unknown_check", n.file@, c.line, Some(n.id@), "`check "@ + c.name@ + "`: not defined"@)],
        }
    };
    let d2 = if effective_outcome_spec(g.checks@, c) is Some {
        none()
    } else {
        let target = if c.to is Some {
            ostr(c.to)
        } else {
            match def {
                Some(d) => ostr(d.fail_to),
                None => None,
            }
        };
        match target {
            Some(t) => if g.has_node(t) {
                none()
            } else {
                seq![dg(Level::Error, "dangling_ref", n.file@, c.line, Some(n.id@),
                    "check `"@ + c.name@ + "` fail target `"@ + t + "` not defined"@)]
            },
            None => seq![dg(Level::Warning, "check_no_fail_target", n.file@, c.line, Some(n.id@),
                "check `"@ + c.name@ + "` has no fail target"@)],
        }
    };
    d1 + d2
}

pub open spec fn checks_rule(g: Graph, n: Node, cs: Seq<CheckUse>) -> Seq<DSpec>
    decreases cs.len(),
{
    if cs.len() == 0 {
        none()
    } else {
        checks_rule(g, n, cs.drop_last()) + check_use_rule(g, n, cs.last())
    }
}

/// `sets` of a dotted name that is not a defined var (dotless names are local counters).
pub open spec fn sets_rule(g: Graph, n: Node, ss: Seq<SetVar>) -> Seq<DSpec>
    decreases ss.len(),
{
    if ss.len() == 0 {
        none()
    } else {
        let s = ss.last();
        sets_rule(g, n, ss.drop_last()) + if has_key(g.vars@, s.var@) || !s.var@.contains('.') {
            none()
        } else {
            seq![dg(Level::Error, "unknown_var", n.file@, s.line, Some(n.id@), "`sets "@ + s.var@ + "`: not a defined var"@)]
        }
    }
}

pub open spec fn has_returns(es: Seq<Edge>) -> bool {
    exists|i: int| 0 <= i < es.len() && (#[trigger] es[i]).kind is Returns
}

pub open spec fn has_non_on(es: Seq<Edge>) -> bool {
    exists|i: int| 0 <= i < es.len() && !((#[trigger] es[i]).kind is On)
}

/// A call needs a `returns` (or a node-less end); an action should trigger something; an
/// event is only listened to.
pub open spec fn kind_rule(n: Node) -> Seq<DSpec> {
    match n.kind {
        Kind::Call => if n.outcomes@.len() == 0 && !has_returns(n.edges@) {
            seq![dg(Level::Error, "call_no_returns", n.file@, n.line, Some(n.id@), "`"@ + n.id@ + "` has no `returns`"@)]
        } else {
            none()
        },
        Kind::Action => if n.edges@.len() == 0 {
            seq![dg(Level::Warning, "action_no_effect", n.file@, n.line, Some(n.id@), "`"@ + n.id@ + "` triggers nothing"@)]
        } else {
            none()
        },
        Kind::Event => if has_non_on(n.edges@) {
            seq![dg(Level::Warning, "event_has_transition", n.file@, n.line, Some(n.id@),
                "event `"@ + n.id@ + "` has outgoing transitions; events are consumed via `on`, model delivery once in the infrastructure chain"@)]
        } else {
            none()
        },
        Kind::State => none(),
    }
}

/// A plain `->` with no `when`, `case` or `seq`.
pub open spec fn is_bare(e: Edge) -> bool {
    e.kind is Plain && e.when is None && e.case is None && e.seq is None
}

pub open spec fn bare_count(es: Seq<Edge>) -> nat
    decreases es.len(),
{
    if es.len() == 0 {
        0
    } else {
        bare_count(es.drop_last()) + if is_bare(es.last()) { 1nat } else { 0nat }
    }
}

/// `ambiguous_transition`: more than one bare `->`.
pub open spec fn ambiguous_rule(n: Node) -> Seq<DSpec> {
    let k = bare_count(n.edges@);
    if k > 1 {
        seq![dg(Level::Warning, "ambiguous_transition", n.file@, n.line, Some(n.id@), "`"@ + n.id@ + "` has "@ + dec(k) + " unguarded transitions"@)]
    } else {
        none()
    }
}

/// `(case, line)` of the edges that carry a `case=`, then of the node-less ends.
pub open spec fn edge_cases(es: Seq<Edge>) -> Seq<(Seq<char>, usize)>
    decreases es.len(),
{
    if es.len() == 0 {
        Seq::<(Seq<char>, usize)>::empty()
    } else {
        let r = edge_cases(es.drop_last());
        match es.last().case {
            Some(c) => r.push((c@, es.last().line)),
            None => r,
        }
    }
}

pub open spec fn outcome_cases(os: Seq<Outcome>) -> Seq<(Seq<char>, usize)>
    decreases os.len(),
{
    if os.len() == 0 {
        Seq::<(Seq<char>, usize)>::empty()
    } else {
        let r = outcome_cases(os.drop_last());
        match os.last().case {
            Some(c) => r.push((c@, os.last().line)),
            None => r,
        }
    }
}

pub open spec fn firsts(ms: Seq<(Seq<char>, usize)>) -> Seq<Seq<char>> {
    ms.map_values(|m: (Seq<char>, usize)| m.0)
}

/// `duplicate_case`: every repeat of a case label.
pub open spec fn dup_case_rule(n: Node, ms: Seq<(Seq<char>, usize)>) -> Seq<DSpec>
    decreases ms.len(),
{
    if ms.len() == 0 {
        none()
    } else {
        let m = ms.last();
        dup_case_rule(n, ms.drop_last()) + if firsts(ms.drop_last()).contains(m.0) {
            seq![dg(Level::Warning, "duplicate_case", n.file@, m.1, Some(n.id@), "`"@ + n.id@ + "`: case `"@ + m.0 + "` used more than once"@)]
        } else {
            none()
        }
    }
}

pub open spec fn has_seq(es: Seq<Edge>) -> bool {
    exists|i: int| 0 <= i < es.len() && (#[trigger] es[i]).seq is Some
}

pub open spec fn has_case_branch(es: Seq<Edge>) -> bool {
    exists|i: int| 0 <= i < es.len() && (#[trigger] es[i]).kind is Plain && es[i].case is Some && es[i].seq is None
}

/// `mixed_branching`: seq steps and case branches on one node.
pub open spec fn mixed_rule(n: Node) -> Seq<DSpec> {
    if has_seq(n.edges@) && has_case_branch(n.edges@) {
        seq![dg(Level::Warning, "mixed_branching", n.file@, n.line, Some(n.id@),
            "`"@ + n.id@ + "` mixes seq= steps with case= branches; move the branching to the last step's node"@)]
    } else {
        none()
    }
}

/// `(seq, line)` of the edges that carry a `seq=`.
pub open spec fn edge_seqs(es: Seq<Edge>) -> Seq<(u32, usize)>
    decreases es.len(),
{
    if es.len() == 0 {
        Seq::<(u32, usize)>::empty()
    } else {
        let r = edge_seqs(es.drop_last());
        match es.last().seq {
            Some(q) => r.push((q, es.last().line)),
            None => r,
        }
    }
}

/// `duplicate_seq`: every repeat of a step number.
pub open spec fn dup_seq_rule(n: Node, ms: Seq<(u32, usize)>) -> Seq<DSpec>
    decreases ms.len(),
{
    if ms.len() == 0 {
        none()
    } else {
        let m = ms.last();
        dup_seq_rule(n, ms.drop_last()) + if ms.drop_last().map_values(|x: (u32, usize)| x.0).contains(m.0) {
            seq![dg(Level::Warning, "duplicate_seq", n.file@, m.1, Some(n.id@), "`"@ + n.id@ + "`: seq "@ + dec(m.0 as nat) + " used more than once"@)]
        } else {
            none()
        }
    }
}

/// Every rule about node `n`, in order.
pub open spec fn node_rule(g: Graph, n: Node) -> Seq<DSpec> {
    path_rule(n) + layer_rule(views(g.config.layers@), n) + desc_rule(n) + reach_rule(g, n)
        + edges_rule(g, n, n.edges@) + outcomes_rule(g, n, n.outcomes@) + checks_rule(g, n, n.checks@)
        + sets_rule(g, n, n.sets@) + kind_rule(n) + ambiguous_rule(n)
        + dup_case_rule(n, edge_cases(n.edges@) + outcome_cases(n.outcomes@)) + mixed_rule(n)
        + dup_seq_rule(n, edge_seqs(n.edges@))
}

/// The node rules over a list of nodes.
pub open spec fn nodes_rule(g: Graph, ns: Seq<Node>) -> Seq<DSpec>
    decreases ns.len(),
{
    if ns.len() == 0 {
        none()
    } else {
        nodes_rule(g, ns.drop_last()) + node_rule(g, ns.last())
    }
}

fn path_check(n: &Node, out: &mut Vec<Diagnostic>)
    ensures
        dviews(final(out)@) == dviews(old(out)@) + path_rule(*n),
{
    let ghost o = dviews(out@);
    let allowed = allowed_files(n.id.as_str());
    proof {
        assert(views(allowed@) =~= allowed_files_spec(n.id@));
    }
    if !set_contains(&allowed, n.file.as_str()) {
        let mut m = string_from("`");
        push_str(&mut m, n.id.as_str());
        push_str(&mut m, "` must live in one of: ");
        let j = join_strings(&allowed, " | ");
        push_str(&mut m, j.as_str());
        push_diag(out, diag(Level::Error, "id_path_mismatch", n.file.as_str(), n.line, Some(n.id.as_str()), m));
    }
    proof {
        assert(dviews(out@) =~= o + path_rule(*n));
    }
}

fn layer_check(layers: &Vec<String>, n: &Node, out: &mut Vec<Diagnostic>)
    ensures
        dviews(final(out)@) == dviews(old(out)@) + layer_rule(views(layers@), *n),
{
    let ghost o = dviews(out@);
    if !set_contains(layers, n.layer.as_str()) {
        let mut m = string_from("unknown layer `");
        push_str(&mut m, n.layer.as_str());
        push_str(&mut m, "` (defined: ");
        let j = join_strings(layers, ", ");
        push_str(&mut m, j.as_str());
        push_str(&mut m, ")");
        push_diag(out, diag(Level::Error, "unknown_layer", n.file.as_str(), n.line, Some(n.id.as_str()), m));
    }
    proof {
        assert(dviews(out@) =~= o + layer_rule(views(layers@), *n));
    }
}

fn desc_check(n: &Node, out: &mut Vec<Diagnostic>)
    ensures
        dviews(final(out)@) == dviews(old(out)@) + desc_rule(*n),
{
    let ghost o = dviews(out@);
    if n.desc.is_none() {
        let mut m = string_from("`");
        push_str(&mut m, n.id.as_str());
        push_str(&mut m, "` has no `desc`");
        push_diag(out, diag(Level::Warning, "missing_desc", n.file.as_str(), n.line, Some(n.id.as_str()), m));
    }
    proof {
        assert(dviews(out@) =~= o + desc_rule(*n));
    }
}

fn reach_check(g: &Graph, reach: &Vec<String>, roots: &Vec<&str>, n: &Node, out: &mut Vec<Diagnostic>)
    requires
        forall|x: Seq<char>| views(reach@).contains(x) <==> g.reaches(reach_starts(*g), x),
        roots@.map_values(|s: &str| s@) == root_ids(*g),
    ensures
        dviews(final(out)@) == dviews(old(out)@) + reach_rule(*g, *n),
{
    let ghost o = dviews(out@);
    let mut is_root = false;
    let mut k: usize = 0;
    while k < roots.len()
        invariant
            k <= roots@.len(),
            roots@.map_values(|s: &str| s@) == root_ids(*g),
            is_root == exists|j: int| 0 <= j < k && (#[trigger] roots@[j])@ == n.id@,
        decreases roots.len() - k,
    {
        if crate::text::str_eq(roots[k], n.id.as_str()) {
            is_root = true;
        }
        k += 1;
    }
    proof {
        if is_root {
            let j = choose|j: int| 0 <= j < k && (#[trigger] roots@[j])@ == n.id@;
            assert(root_ids(*g)[j] == n.id@);
        }
        if root_ids(*g).contains(n.id@) {
            let j = choose|j: int| 0 <= j < root_ids(*g).len() && root_ids(*g)[j] == n.id@;
            assert(roots@[j]@ == n.id@);
        }
    }
    if !set_contains(reach, n.id.as_str()) && !is_root && !is_entry(n) {
        let mut m = string_from("`");
        push_str(&mut m, n.id.as_str());
        push_str(&mut m, "` is not reachable from any root");
        push_diag(out, diag(Level::Error, "unreachable", n.file.as_str(), n.line, Some(n.id.as_str()), m));
    }
    proof {
        assert(dviews(out@) =~= o + reach_rule(*g, *n));
    }
}

fn guard_var_check(g: &Graph, n: &Node, w: &str, line: usize, v: &str, out: &mut Vec<Diagnostic>)
    ensures
        dviews(final(out)@) == dviews(old(out)@) + guard_var_rule(*g, *n, w@, line, v@),
{
    let ghost o = dviews(out@);
    if contains_key(&g.vars, v) {
    } else if !has_dot(v) {
        let group = local_group(n.id.as_str());
        let ws = g.local_var_writers(group, v);
        proof {
            assert(ws@.map_values(|m: &Node| *m).len() == ws@.len());
        }
        if ws.len() == 0 {
            let mut m = string_from("guard `");
            push_str(&mut m, w);
            push_str(&mut m, "`: local `");
            push_str(&mut m, v);
            push_str(&mut m, "` is never `sets` in group `");
            push_str(&mut m, group);
            push_str(&mut m, "` (declare a `var` if it is global)");
            push_diag(out, diag(Level::Error, "local_var_never_set", n.file.as_str(), line, Some(n.id.as_str()), m));
        }
    } else {
        let mut m = string_from("guard `");
        push_str(&mut m, w);
        push_str(&mut m, "`: `");
        push_str(&mut m, v);
        push_str(&mut m, "` is not a defined var");
        push_diag(out, diag(Level::Error, "unknown_var", n.file.as_str(), line, Some(n.id.as_str()), m));
    }
    proof {
        assert(dviews(out@) =~= o + guard_var_rule(*g, *n, w@, line, v@));
    }
}

fn guard_check(g: &Graph, n: &Node, w: &str, line: usize, out: &mut Vec<Diagnostic>)
    ensures
        dviews(final(out)@) == dviews(old(out)@) + guard_rule(*g, *n, w@, line),
{
    let ghost o = dviews(out@);
    let vs = idents(w);
    let ghost vv = views(vs@);
    let mut i: usize = 0;
    while i < vs.len()
        invariant
            i <= vs@.len(),
            vv == views(vs@),
            vv == ident_list(w@),
            dviews(out@) == o + guard_vars_rule(*g, *n, w@, line, vv.take(i as int)),
        decreases vs.len() - i,
    {
        proof {
            assert(vv.take(i + 1).drop_last() =~= vv.take(i as int));
            assert(vv.take(i + 1).last() == vs@[i as int]@);
        }
        guard_var_check(g, n, w, line, vs[i].as_str(), out);
        i += 1;
    }
    proof {
        assert(vv.take(vs@.len() as int) =~= vv);
    }
}

fn edge_check(g: &Graph, n: &Node, e: &Edge, out: &mut Vec<Diagnostic>)
    ensures
        dviews(final(out)@) == dviews(old(out)@) + edge_rule(*g, *n, *e),
{
    let ghost o = dviews(out@);
    if !contains_key(&g.nodes, e.to.as_str()) {
        let mut m = string_from("`");
        push_str(&mut m, n.id.as_str());
        push_str(&mut m, "` → `");
        push_str(&mut m, e.to.as_str());
        push_str(&mut m, "`: target not defined");
        push_diag(out, diag(Level::Error, "dangling_ref", n.file.as_str(), e.line, Some(n.id.as_str()), m));
    }
    let ghost o1 = dviews(out@);
    match &e.kind {
        EdgeKind::On { event } => {
            if !contains_key(&g.nodes, event.as_str()) {
                let mut m = string_from("`on ");
                push_str(&mut m, event.as_str());
                push_str(&mut m, "`: no such node");
                push_diag(out, diag(Level::Warning, "unknown_event", n.file.as_str(), e.line, Some(n.id.as_str()), m));
            }
        },
        _ => {},
    }
    let ghost o2 = dviews(out@);
    match &e.kind {
        EdgeKind::Calls => {
            match find_key(&g.nodes, e.to.as_str()) {
                Some(t) => {
                    if g.nodes[t].kind != Kind::Call {
                        let mut m = string_from("`calls ");
                        push_str(&mut m, e.to.as_str());
                        push_str(&mut m, "`: target is not a `call`");
                        push_diag(out, diag(Level::Error, "calls_non_call", n.file.as_str(), e.line, Some(n.id.as_str()), m));
                    }
                },
                None => {},
            }
        },
        _ => {},
    }
    let ghost o3 = dviews(out@);
    match &e.when {
        Some(w) => guard_check(g, n, w.as_str(), e.line, out),
        None => {},
    }
    proof {
        lemma_key_index(g.nodes@, e.to@);
        assert(dviews(out@) =~= o + edge_rule(*g, *n, *e));
    }
}

fn edges_check(g: &Graph, n: &Node, out: &mut Vec<Diagnostic>)
    ensures
        dviews(final(out)@) == dviews(old(out)@) + edges_rule(*g, *n, n.edges@),
{
    let ghost o = dviews(out@);
    let mut i: usize = 0;
    while i < n.edges.len()
        invariant
            i <= n.edges@.len(),
            dviews(out@) == o + edges_rule(*g, *n, n.edges@.take(i as int)),
        decreases n.edges.len() - i,
    {
        proof {
            assert(n.edges@.take(i + 1).drop_last() =~= n.edges@.take(i as int));
            assert(n.edges@.take(i + 1).last() == n.edges@[i as int]);
        }
        edge_check(g, n, &n.edges[i], out);
        i += 1;
    }
    proof {
        assert(n.edges@.take(n.edges@.len() as int) =~= n.edges@);
    }
}

fn outcomes_check(g: &Graph, n: &Node, out: &mut Vec<Diagnostic>)
    ensures
        dviews(final(out)@) == dviews(old(out)@) + outcomes_rule(*g, *n, n.outcomes@),
{
    let ghost o = dviews(out@);
    let mut i: usize = 0;
    while i < n.outcomes.len()
        invariant
            i <= n.outcomes@.len(),
            dviews(out@) == o + outcomes_rule(*g, *n, n.outcomes@.take(i as int)),
        decreases n.outcomes.len() - i,
    {
        proof {
            assert(n.outcomes@.take(i + 1).drop_last() =~= n.outcomes@.take(i as int));
            assert(n.outcomes@.take(i + 1).last() == n.outcomes@[i as int]);
        }
        let ghost before = dviews(out@);
        match &n.outcomes[i].when {
            Some(w) => guard_check(g, n, w.as_str(), n.outcomes[i].line, out),
            None => {
                proof {
                    assert(dviews(out@) =~= before + none());
                }
            },
        }
        i += 1;
    }
    proof {
        assert(n.outcomes@.take(n.outcomes@.len() as int) =~= n.outcomes@);
    }
}

fn check_use_check(g: &Graph, n: &Node, c: &CheckUse, out: &mut Vec<Diagnostic>)
    ensures
        dviews(final(out)@) == dviews(old(out)@) + check_use_rule(*g, *n, *c),
{
    let ghost o = dviews(out@);
    let def = find_key(&g.checks, c.name.as_str());
    proof {
        lemma_key_index(g.checks@, c.name@);
        reveal_strlit("perm:");
        assert("perm:"@ =~= s_perm_prefix());
    }
    if def.is_none() {
        if starts_with(c.name.as_str(), "perm:") {
            let p = c.name.as_str().substring_char(5, c.name.as_str().unicode_len());
            let mut m = string_from("`requires ");
            push_str(&mut m, p);
            push_str(&mut m, "`: no such `perm`");
            push_diag(out, diag(Level::Error, "unknown_perm", n.file.as_str(), c.line, Some(n.id.as_str()), m));
        } else {
            let mut m = string_from("`check ");
            push_str(&mut m, c.name.as_str());
            push_str(&mut m, "`: not defined");
            push_diag(out, diag(Level::Error, "unknown_check", n.file.as_str(), c.line, Some(n.id.as_str()), m));
        }
    }
    let ghost o1 = dviews(out@);
    if g.effective_outcome(c).is_none() {
        let target: Option<String> = match &c.to {
            Some(t) => Some(t.clone()),
            None => match def {
                Some(i) => crate::model::clone_opt_string(&g.checks[i].fail_to),
                None => None,
            },
        };
        match target {
            Some(t) => {
                if !contains_key(&g.nodes, t.as_str()) {
                    let mut m = string_from("check `");
                    push_str(&mut m, c.name.as_str());
                    push_str(&mut m, "` fail target `");
                    push_str(&mut m, t.as_str());
                    push_str(&mut m, "` not defined");
                    push_diag(out, diag(Level::Error, "dangling_ref", n.file.as_str(), c.line, Some(n.id.as_str()), m));
                }
            },
            None => {
                let mut m = string_from("check `");
                push_str(&mut m, c.name.as_str());
                push_str(&mut m, "` has no fail target");
                push_diag(out, diag(Level::Warning, "check_no_fail_target", n.file.as_str(), c.line, Some(n.id.as_str()), m));
            },
        }
    }
    proof {
        assert(dviews(out@) =~= o + check_use_rule(*g, *n, *c));
    }
}

fn checks_check(g: &Graph, n: &Node, out: &mut Vec<Diagnostic>)
    ensures
        dviews(final(out)@) == dviews(old(out)@) + checks_rule(*g, *n, n.checks@),
{
    let ghost o = dviews(out@);
    let mut i: usize = 0;
    while i < n.checks.len()
        invariant
            i <= n.checks@.len(),
            dviews(out@) == o + checks_rule(*g, *n, n.checks@.take(i as int)),
        decreases n.checks.len() - i,
    {
        proof {
            assert(n.checks@.take(i + 1).drop_last() =~= n.checks@.take(i as int));
            assert(n.checks@.take(i + 1).last() == n.checks@[i as int]);
        }
        check_use_check(g, n, &n.checks[i], out);
        i += 1;
    }
    proof {
        assert(n.checks@.take(n.checks@.len() as int) =~= n.checks@);
    }
}

fn sets_check(g: &Graph, n: &Node, out: &mut Vec<Diagnostic>)
    ensures
        dviews(final(out)@) == dviews(old(out)@) + sets_rule(*g, *n, n.sets@),
{
    let ghost o = dviews(out@);
    let mut i: usize = 0;
    while i < n.sets.len()
        invariant
            i <= n.sets@.len(),
            dviews(out@) == o + sets_rule(*g, *n, n.sets@.take(i as int)),
        decreases n.sets.len() - i,
    {
        proof {
            assert(n.sets@.take(i + 1).drop_last() =~= n.sets@.take(i as int));
            assert(n.sets@.take(i + 1).last() == n.sets@[i as int]);
        }
        let s = &n.sets[i];
        let ghost before = dviews(out@);
        if !contains_key(&g.vars, s.var.as_str()) && has_dot(s.var.as_str()) {
            let mut m = string_from("`sets ");
            push_str(&mut m, s.var.as_str());
            push_str(&mut m, "`: not a defined var");
            push_diag(out, diag(Level::Error, "unknown_var", n.file.as_str(), s.line, Some(n.id.as_str()), m));
        } else {
            proof {
                assert(dviews(out@) =~= before + none());
            }
        }
        i += 1;
    }
    proof {
        assert(n.sets@.take(n.sets@.len() as int) =~= n.sets@);
    }
}

fn kind_check(n: &Node, out: &mut Vec<Diagnostic>)
    ensures
        dviews(final(out)@) == dviews(old(out)@) + kind_rule(*n),
{
    let ghost o = dviews(out@);
    let mut has_ret = false;
    let mut non_on = false;
    let mut k: usize = 0;
    while k < n.edges.len()
        invariant
            k <= n.edges@.len(),
            has_ret == exists|i: int| 0 <= i < k && (#[trigger] n.edges@[i]).kind is Returns,
            non_on == exists|i: int| 0 <= i < k && !((#[trigger] n.edges@[i]).kind is On),
        decreases n.edges.len() - k,
    {
        match &n.edges[k].kind {
            EdgeKind::Returns { .. } => { has_ret = true; non_on = true; },
            EdgeKind::On { .. } => {},
            _ => { non_on = true; },
        }
        k += 1;
    }
    match n.kind {
        Kind::Call => {
            if n.outcomes.len() == 0 && !has_ret {
                let mut m = string_from("`");
                push_str(&mut m, n.id.as_str());
                push_str(&mut m, "` has no `returns`");
                push_diag(out, diag(Level::Error, "call_no_returns", n.file.as_str(), n.line, Some(n.id.as_str()), m));
            }
        },
        Kind::Action => {
            if n.edges.len() == 0 {
                let mut m = string_from("`");
                push_str(&mut m, n.id.as_str());
                push_str(&mut m, "` triggers nothing");
                push_diag(out, diag(Level::Warning, "action_no_effect", n.file.as_str(), n.line, Some(n.id.as_str()), m));
            }
        },
        Kind::Event => {
            if non_on {
                let mut m = string_from("event `");
                push_str(&mut m, n.id.as_str());
                push_str(&mut m, "` has outgoing transitions; events are consumed via `on`, model delivery once in the infrastructure chain");
                push_diag(out, diag(Level::Warning, "event_has_transition", n.file.as_str(), n.line, Some(n.id.as_str()), m));
            }
        },
        Kind::State => {},
    }
    proof {
        assert(dviews(out@) =~= o + kind_rule(*n));
    }
}

fn ambiguous_check(n: &Node, out: &mut Vec<Diagnostic>)
    ensures
        dviews(final(out)@) == dviews(old(out)@) + ambiguous_rule(*n),
{
    let ghost o = dviews(out@);
    let mut count: usize = 0;
    let mut k: usize = 0;
    while k < n.edges.len()
        invariant
            k <= n.edges@.len(),
            count == bare_count(n.edges@.take(k as int)),
            count <= k,
        decreases n.edges.len() - k,
    {
        proof {
            assert(n.edges@.take(k + 1).drop_last() =~= n.edges@.take(k as int));
            assert(n.edges@.take(k + 1).last() == n.edges@[k as int]);
        }
        let e = &n.edges[k];
        let bare = match e.kind { EdgeKind::Plain => true, _ => false } && e.when.is_none() && e.case.is_none() && e.seq.is_none();
        if bare {
            count += 1;
        }
        k += 1;
    }
    proof {
        assert(n.edges@.take(n.edges@.len() as int) =~= n.edges@);
    }
    if count > 1 {
        let mut m = string_from("`");
        push_str(&mut m, n.id.as_str());
        push_str(&mut m, "` has ");
        let d = dec_string(count as u64);
        push_str(&mut m, d.as_str());
        push_str(&mut m, " unguarded transitions");
        push_diag(out, diag(Level::Warning, "ambiguous_transition", n.file.as_str(), n.line, Some(n.id.as_str()), m));
    }
    proof {
        assert(dviews(out@) =~= o + ambiguous_rule(*n));
    }
}

/// Records one case mark: warns when the label was seen before.
fn case_mark(n: &Node, c: &String, line: usize, seen: &mut Vec<String>, out: &mut Vec<Diagnostic>, Ghost(ms): Ghost<Seq<(Seq<char>, usize)>>)
    requires
        forall|x: Seq<char>| views(old(seen)@).contains(x) <==> firsts(ms).contains(x),
    ensures
        forall|x: Seq<char>| views(final(seen)@).contains(x) <==> firsts(ms.push((c@, line))).contains(x),
        dviews(final(out)@) == dviews(old(out)@) + (dup_case_rule(*n, ms.push((c@, line))) .subrange(dup_case_rule(*n, ms).len() as int, dup_case_rule(*n, ms.push((c@, line))).len() as int)),
        dup_case_rule(*n, ms.push((c@, line))) == dup_case_rule(*n, ms) + dup_case_rule(*n, ms.push((c@, line))).subrange(dup_case_rule(*n, ms).len() as int, dup_case_rule(*n, ms.push((c@, line))).len() as int),
{
    let ghost o = dviews(out@);
    let ghost m2 = ms.push((c@, line));
    proof {
        assert(m2.drop_last() =~= ms);
        assert(firsts(m2) =~= firsts(ms).push(c@));
    }
    let ghost tail = if firsts(ms).contains(c@) {
        seq![dg(Level::Warning, "duplicate_case", n.file@, line, Some(n.id@), "`"@ + n.id@ + "`: case `"@ + c@ + "` used more than once"@)]
    } else {
        none()
    };
    proof {
        assert(dup_case_rule(*n, m2) == dup_case_rule(*n, ms) + tail);
        assert(dup_case_rule(*n, m2).subrange(dup_case_rule(*n, ms).len() as int, dup_case_rule(*n, m2).len() as int) =~= tail);
    }
    if set_contains(seen, c.as_str()) {
        let mut m = string_from("`");
        push_str(&mut m, n.id.as_str());
        push_str(&mut m, "`: case `");
        push_str(&mut m, c.as_str());
        push_str(&mut m, "` used more than once");
        push_diag(out, diag(Level::Warning, "duplicate_case", n.file.as_str(), line, Some(n.id.as_str()), m));
    } else {
        let ghost sb = seen@;
        seen.push(c.clone());
        proof {
            assert(views(seen@) =~= views(sb).push(c@));
            assert forall|x: Seq<char>| views(seen@).contains(x) <==> firsts(m2).contains(x) by {
                if views(seen@).contains(x) && x != c@ {
                    let k = choose|k: int| 0 <= k < views(seen@).len() && views(seen@)[k] == x;
                    assert(views(sb)[k] == x);
                    assert(views(sb).contains(x));
                    assert(firsts(ms).contains(x));
                    let j = choose|j: int| 0 <= j < firsts(ms).len() && firsts(ms)[j] == x;
                    assert(firsts(m2)[j] == x);
                }
                if firsts(m2).contains(x) && x != c@ {
                    let k = choose|k: int| 0 <= k < firsts(m2).len() && firsts(m2)[k] == x;
                    assert(firsts(ms)[k] == x);
                    assert(firsts(ms).contains(x));
                    assert(views(sb).contains(x));
                    let j = choose|j: int| 0 <= j < views(sb).len() && views(sb)[j] == x;
                    assert(views(seen@)[j] == x);
                }
                if x == c@ {
                    assert(views(seen@)[views(sb).len() as int] == x);
                    assert(firsts(m2)[ms.len() as int] == x);
                }
            }
        }
    }
    proof {
        assert forall|x: Seq<char>| views(seen@).contains(x) <==> firsts(m2).contains(x) by {
            if firsts(m2).contains(x) {
                let k = choose|k: int| 0 <= k < firsts(m2).len() && firsts(m2)[k] == x;
                if k < ms.len() {
                    assert(firsts(ms)[k] == x);
                    assert(firsts(ms).contains(x));
                } else {
                    assert(x == c@);
                }
            }
            if firsts(ms).contains(x) {
                let k = choose|k: int| 0 <= k < firsts(ms).len() && firsts(ms)[k] == x;
                assert(firsts(m2)[k] == x);
            }
        }
    }
    proof {
        assert(dviews(out@) =~= o + tail);
    }
}

fn dup_case_check(n: &Node, out: &mut Vec<Diagnostic>)
    ensures
        dviews(final(out)@) == dviews(old(out)@) + dup_case_rule(*n, edge_cases(n.edges@) + outcome_cases(n.outcomes@)),
{
    let ghost o = dviews(out@);
    let mut seen: Vec<String> = Vec::new();
    let mut k: usize = 0;
    while k < n.edges.len()
        invariant
            k <= n.edges@.len(),
            forall|x: Seq<char>| views(seen@).contains(x) <==> firsts(edge_cases(n.edges@.take(k as int))).contains(x),
            dviews(out@) == o + dup_case_rule(*n, edge_cases(n.edges@.take(k as int))),
        decreases n.edges.len() - k,
    {
        proof {
            assert(n.edges@.take(k + 1).drop_last() =~= n.edges@.take(k as int));
            assert(n.edges@.take(k + 1).last() == n.edges@[k as int]);
        }
        let ghost ms = edge_cases(n.edges@.take(k as int));
        match &n.edges[k].case {
            Some(c) => {
                case_mark(n, c, n.edges[k].line, &mut seen, out, Ghost(ms));
            },
            None => {},
        }
        k += 1;
    }
    proof {
        assert(n.edges@.take(n.edges@.len() as int) =~= n.edges@);
    }
    let ghost ec = edge_cases(n.edges@);
    let mut j: usize = 0;
    while j < n.outcomes.len()
        invariant
            j <= n.outcomes@.len(),
            ec == edge_cases(n.edges@),
            forall|x: Seq<char>| views(seen@).contains(x) <==> firsts(ec + outcome_cases(n.outcomes@.take(j as int))).contains(x),
            dviews(out@) == o + dup_case_rule(*n, ec + outcome_cases(n.outcomes@.take(j as int))),
        decreases n.outcomes.len() - j,
    {
        proof {
            assert(n.outcomes@.take(j + 1).drop_last() =~= n.outcomes@.take(j as int));
            assert(n.outcomes@.take(j + 1).last() == n.outcomes@[j as int]);
        }
        let ghost ms = ec + outcome_cases(n.outcomes@.take(j as int));
        match &n.outcomes[j].case {
            Some(c) => {
                proof {
                    assert(ec + outcome_cases(n.outcomes@.take(j + 1)) =~= ms.push((c@, n.outcomes@[j as int].line)));
                }
                case_mark(n, c, n.outcomes[j].line, &mut seen, out, Ghost(ms));
            },
            None => {
                proof {
                    assert(ec + outcome_cases(n.outcomes@.take(j + 1)) =~= ms);
                }
            },
        }
        j += 1;
    }
    proof {
        assert(n.outcomes@.take(n.outcomes@.len() as int) =~= n.outcomes@);
    }
}

fn mixed_check(n: &Node, out: &mut Vec<Diagnostic>)
    ensures
        dviews(final(out)@) == dviews(old(out)@) + mixed_rule(*n),
{
    let ghost o = dviews(out@);
    let mut sq = false;
    let mut cs = false;
    let mut k: usize = 0;
    while k < n.edges.len()
        invariant
            k <= n.edges@.len(),
            sq == exists|i: int| 0 <= i < k && (#[trigger] n.edges@[i]).seq is Some,
            cs == exists|i: int| 0 <= i < k && (#[trigger] n.edges@[i]).kind is Plain && n.edges@[i].case is Some && n.edges@[i].seq is None,
        decreases n.edges.len() - k,
    {
        let e = &n.edges[k];
        if e.seq.is_some() {
            sq = true;
        }
        if match e.kind { EdgeKind::Plain => true, _ => false } && e.case.is_some() && e.seq.is_none() {
            cs = true;
        }
        k += 1;
    }
    if sq && cs {
        let mut m = string_from("`");
        push_str(&mut m, n.id.as_str());
        push_str(&mut m, "` mixes seq= steps with case= branches; move the branching to the last step's node");
        push_diag(out, diag(Level::Warning, "mixed_branching", n.file.as_str(), n.line, Some(n.id.as_str()), m));
    }
    proof {
        assert(dviews(out@) =~= o + mixed_rule(*n));
    }
}

pub open spec fn seq_firsts(ms: Seq<(u32, usize)>) -> Seq<u32> {
    ms.map_values(|x: (u32, usize)| x.0)
}

fn dup_seq_check(n: &Node, out: &mut Vec<Diagnostic>)
    ensures
        dviews(final(out)@) == dviews(old(out)@) + dup_seq_rule(*n, edge_seqs(n.edges@)),
{
    let ghost o = dviews(out@);
    let mut seen: Vec<u32> = Vec::new();
    let mut k: usize = 0;
    while k < n.edges.len()
        invariant
            k <= n.edges@.len(),
            forall|x: u32| seen@.contains(x) <==> seq_firsts(edge_seqs(n.edges@.take(k as int))).contains(x),
            dviews(out@) == o + dup_seq_rule(*n, edge_seqs(n.edges@.take(k as int))),
        decreases n.edges.len() - k,
    {
        proof {
            assert(n.edges@.take(k + 1).drop_last() =~= n.edges@.take(k as int));
            assert(n.edges@.take(k + 1).last() == n.edges@[k as int]);
        }
        let ghost ms = edge_seqs(n.edges@.take(k as int));
        let e = &n.edges[k];
        match e.seq {
            Some(q) => {
                let ghost m2 = ms.push((q, e.line));
                proof {
                    assert(m2.drop_last() =~= ms);
                    assert(seq_firsts(m2) =~= seq_firsts(ms).push(q));
                    assert(seq_firsts(ms) =~= ms.map_values(|x: (u32, usize)| x.0));
                }
                let mut dup = false;
                let mut j: usize = 0;
                while j < seen.len()
                    invariant
                        j <= seen@.len(),
                        dup == exists|i: int| 0 <= i < j && seen@[i] == q,
                    decreases seen.len() - j,
                {
                    if seen[j] == q {
                        dup = true;
                    }
                    j += 1;
                }
                proof {
                    if dup {
                        let i = choose|i: int| 0 <= i < j && seen@[i] == q;
                        assert(seen@.contains(q));
                    }
                    if seen@.contains(q) {
                        let i = choose|i: int| 0 <= i < seen@.len() && seen@[i] == q;
                        assert(dup);
                    }
                }
                if dup {
                    let mut m = string_from("`");
                    push_str(&mut m, n.id.as_str());
                    push_str(&mut m, "`: seq ");
                    let d = dec_string(q as u64);
                    push_str(&mut m, d.as_str());
                    push_str(&mut m, " used more than once");
                    push_diag(out, diag(Level::Warning, "duplicate_seq", n.file.as_str(), e.line, Some(n.id.as_str()), m));
                } else {
                    let ghost sb = seen@;
                    seen.push(q);
                    proof {
                        assert forall|x: u32| seen@.contains(x) <==> seq_firsts(m2).contains(x) by {
                            if seen@.contains(x) && x != q {
                                let i = choose|i: int| 0 <= i < seen@.len() && seen@[i] == x;
                                assert(sb[i] == x);
                                assert(sb.contains(x));
                                let j2 = choose|j2: int| 0 <= j2 < seq_firsts(ms).len() && seq_firsts(ms)[j2] == x;
                                assert(seq_firsts(m2)[j2] == x);
                            }
                            if seq_firsts(m2).contains(x) && x != q {
                                let i = choose|i: int| 0 <= i < seq_firsts(m2).len() && seq_firsts(m2)[i] == x;
                                assert(seq_firsts(ms)[i] == x);
                                assert(seq_firsts(ms).contains(x));
                                assert(sb.contains(x));
                                let j2 = choose|j2: int| 0 <= j2 < sb.len() && sb[j2] == x;
                                assert(seen@[j2] == x);
                            }
                            if x == q {
                                assert(seen@[sb.len() as int] == q);
                                assert(seq_firsts(m2)[ms.len() as int] == q);
                            }
                        }
                    }
                }
                proof {
                    assert forall|x: u32| seen@.contains(x) <==> seq_firsts(m2).contains(x) by {
                        if seq_firsts(m2).contains(x) {
                            let i = choose|i: int| 0 <= i < seq_firsts(m2).len() && seq_firsts(m2)[i] == x;
                            if i < ms.len() {
                                assert(seq_firsts(ms)[i] == x);
                                assert(seq_firsts(ms).contains(x));
                            }
                        }
                        if seq_firsts(ms).contains(x) {
                            let i = choose|i: int| 0 <= i < seq_firsts(ms).len() && seq_firsts(ms)[i] == x;
                            assert(seq_firsts(m2)[i] == x);
                        }
                    }
                    assert(edge_seqs(n.edges@.take(k + 1)) == m2);
                }
            },
            None => {},
        }
        k += 1;
    }
    proof {
        assert(n.edges@.take(n.edges@.len() as int) =~= n.edges@);
    }
}

/// Every rule about one node, appended in order.
#[verifier::spinoff_prover]
pub fn node_check(g: &Graph, reach: &Vec<String>, roots: &Vec<&str>, n: &Node, out: &mut Vec<Diagnostic>)
    requires
        forall|x: Seq<char>| views(reach@).contains(x) <==> g.reaches(reach_starts(*g), x),
        roots@.map_values(|s: &str| s@) == root_ids(*g),
    ensures
        dviews(final(out)@) == dviews(old(out)@) + node_rule(*g, *n),
{
    let ghost o = dviews(out@);
    path_check(n, out);
    let ghost a1 = path_rule(*n);
    layer_check(&g.config.layers, n, out);
    let ghost a2 = a1 + layer_rule(views(g.config.layers@), *n);
    proof { assert(dviews(out@) =~= o + a2); }
    desc_check(n, out);
    let ghost a3 = a2 + desc_rule(*n);
    proof { assert(dviews(out@) =~= o + a3); }
    reach_check(g, reach, roots, n, out);
    let ghost a4 = a3 + reach_rule(*g, *n);
    proof { assert(dviews(out@) =~= o + a4); }
    edges_check(g, n, out);
    let ghost a5 = a4 + edges_rule(*g, *n, n.edges@);
    proof { assert(dviews(out@) =~= o + a5); }
    outcomes_check(g, n, out);
    let ghost a6 = a5 + outcomes_rule(*g, *n, n.outcomes@);
    proof { assert(dviews(out@) =~= o + a6); }
    checks_check(g, n, out);
    let ghost a7 = a6 + checks_rule(*g, *n, n.checks@);
    proof { assert(dviews(out@) =~= o + a7); }
    sets_check(g, n, out);
    let ghost a8 = a7 + sets_rule(*g, *n, n.sets@);
    proof { assert(dviews(out@) =~= o + a8); }
    kind_check(n, out);
    let ghost a9 = a8 + kind_rule(*n);
    proof { assert(dviews(out@) =~= o + a9); }
    ambiguous_check(n, out);
    let ghost a10 = a9 + ambiguous_rule(*n);
    proof { assert(dviews(out@) =~= o + a10); }
    dup_case_check(n, out);
    let ghost a11 = a10 + dup_case_rule(*n, edge_cases(n.edges@) + outcome_cases(n.outcomes@));
    proof { assert(dviews(out@) =~= o + a11); }
    mixed_check(n, out);
    let ghost a12 = a11 + mixed_rule(*n);
    proof { assert(dviews(out@) =~= o + a12); }
    dup_seq_check(n, out);
    let ghost a13 = a12 + dup_seq_rule(*n, edge_seqs(n.edges@));
    proof {
        assert(dviews(out@) =~= o + a13);
        assert(a13 == node_rule(*g, *n));
    }
}

/// The node rules over all nodes, in ID order.
pub fn nodes_check(g: &Graph, reach: &Vec<String>, roots: &Vec<&str>, out: &mut Vec<Diagnostic>)
    requires
        forall|x: Seq<char>| views(reach@).contains(x) <==> g.reaches(reach_starts(*g), x),
        roots@.map_values(|s: &str| s@) == root_ids(*g),
    ensures
        dviews(final(out)@) == dviews(old(out)@) + nodes_rule(*g, g.nodes@),
{
    let ghost o = dviews(out@);
    let mut i: usize = 0;
    while i < g.nodes.len()
        invariant
            i <= g.nodes@.len(),
            forall|x: Seq<char>| views(reach@).contains(x) <==> g.reaches(reach_starts(*g), x),
            roots@.map_values(|s: &str| s@) == root_ids(*g),
            dviews(out@) == o + nodes_rule(*g, g.nodes@.take(i as int)),
        decreases g.nodes.len() - i,
    {
        proof {
            assert(g.nodes@.take(i + 1).drop_last() =~= g.nodes@.take(i as int));
            assert(g.nodes@.take(i + 1).last() == g.nodes@[i as int]);
        }
        node_check(g, reach, roots, &g.nodes[i], out);
        i += 1;
    }
    proof {
        assert(g.nodes@.take(g.nodes@.len() as int) =~= g.nodes@);
    }
}

/// A diagnostic of one edge's rules is among the node's edge diagnostics.
pub proof fn lemma_edges_rule_has(g: Graph, n: Node, es: Seq<Edge>, k: int, x: DSpec)
    requires
        0 <= k < es.len(),
        edge_rule(g, n, es[k]).contains(x),
    ensures
        edges_rule(g, n, es).contains(x),
    decreases es.len(),
{
    if k < es.len() - 1 {
        assert(es.drop_last()[k] == es[k]);
        lemma_edges_rule_has(g, n, es.drop_last(), k, x);
    }
    crate::strset::lemma_concat_contains(edges_rule(g, n, es.drop_last()), edge_rule(g, n, es.last()), x);
}

/// A diagnostic of a node's placement, layer, description, reachability or edges is among
/// the node's diagnostics.
pub proof fn lemma_node_rule_has_edge(g: Graph, n: Node, x: DSpec)
    requires
        edges_rule(g, n, n.edges@).contains(x)
            || (path_rule(n) + layer_rule(views(g.config.layers@), n) + desc_rule(n) + reach_rule(g, n)).contains(x),
    ensures
        node_rule(g, n).contains(x),
{
    let p = path_rule(n) + layer_rule(views(g.config.layers@), n) + desc_rule(n) + reach_rule(g, n);
    let s1 = p + edges_rule(g, n, n.edges@);
    crate::strset::lemma_concat_contains(p, edges_rule(g, n, n.edges@), x);
    let s2 = s1 + outcomes_rule(g, n, n.outcomes@);
    crate::strset::lemma_concat_contains(s1, outcomes_rule(g, n, n.outcomes@), x);
    let s3 = s2 + checks_rule(g, n, n.checks@);
    crate::strset::lemma_concat_contains(s2, checks_rule(g, n, n.checks@), x);
    let s4 = s3 + sets_rule(g, n, n.sets@);
    crate::strset::lemma_concat_contains(s3, sets_rule(g, n, n.sets@), x);
    let s5 = s4 + kind_rule(n);
    crate::strset::lemma_concat_contains(s4, kind_rule(n), x);
    let s6 = s5 + ambiguous_rule(n);
    crate::strset::lemma_concat_contains(s5, ambiguous_rule(n), x);
    let s7 = s6 + dup_case_rule(n, edge_cases(n.edges@) + outcome_cases(n.outcomes@));
    crate::strset::lemma_concat_contains(s6, dup_case_rule(n, edge_cases(n.edges@) + outcome_cases(n.outcomes@)), x);
    let s8 = s7 + mixed_rule(n);
    crate::strset::lemma_concat_contains(s7, mixed_rule(n), x);
    let s9 = s8 + dup_seq_rule(n, edge_seqs(n.edges@));
    crate::strset::lemma_concat_contains(s8, dup_seq_rule(n, edge_seqs(n.edges@)), x);
    assert(node_rule(g, n) == s9);
}

/// A diagnostic of one node is among the diagnostics of a list holding it.
pub proof fn lemma_nodes_rule_has(g: Graph, ns: Seq<Node>, i: int, x: DSpec)
    requires
        0 <= i < ns.len(),
        node_rule(g, ns[i]).contains(x),
    ensures
        nodes_rule(g, ns).contains(x),
    decreases ns.len(),
{
    if i < ns.len() - 1 {
        assert(ns.drop_last()[i] == ns[i]);
        lemma_nodes_rule_has(g, ns.drop_last(), i, x);
    }
    crate::strset::lemma_concat_contains(nodes_rule(g, ns.drop_last()), node_rule(g, ns.last()), x);
}

} // verus!
