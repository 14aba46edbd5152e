//! Lint rules about definitions: duplicate IDs, vars, checks, perms, roots and views.

use vstd::prelude::*;
use crate::graph::{
    Duplicate, Graph, REdge, check_readers, incoming_spec, node_readers, nodes_where, uses_check, writers_spec,
};
use crate::lint::{DSpec, Diagnostic, Level, dg, diag, dviews};
use crate::lint_node::{none, push_diag};
use crate::model::{CheckDef, Node, PermDef, RootDef, VarDef, ViewDef, s_perm_prefix};
use crate::strset::views;
use crate::table::{contains_key, has_key};
use crate::text::{dec, dec_string, is_prefix, join, join_strings, push_str, starts_with, str_eq, string_from};

verus! {

/// `duplicate_id` for every second definition.
pub open spec fn dup_rule(ds: Seq<Duplicate>) -> Seq<DSpec>
    decreases ds.len(),
{
    if ds.len() == 0 {
        none()
    } else {
        let d = ds.last();
        dup_rule(ds.drop_last()) + seq![dg(Level::Error, "duplicate_id", d.file@, d.line, Some(d.id@), "`"@ + d.id@ + "` defined twice"@)]
    }
}

/// The places that read a var.
pub open spec fn readers_of(g: Graph, v: Seq<char>) -> Seq<(Seq<char>, Seq<char>)> {
    node_readers(g.nodes@, v) + check_readers(g.checks@, v)
}

/// A var must be set (or have a `source`) and should be read.
pub open spec fn var_rule(g: Graph, v: VarDef) -> Seq<DSpec> {
    let readers = readers_of(g, v.id@);
    let d1 = if writers_spec(g.nodes@, v.id@).len() == 0 && v.source is None {
        seq![dg(if readers.len() == 0 { Level::Warning } else { Level::Error }, "var_never_set", v.file@, v.line, Some(v.id@),
            "`"@ + v.id@ + "` is never set and has no `source`"@)]
    } else {
        none()
    };
    let d2 = if readers.len() == 0 {
        seq![dg(Level::Warning, "var_never_read", v.file@, v.line, Some(v.id@), "`"@ + v.id@ + "` is never read by a guard/check"@)]
    } else {
        none()
    };
    d1 + d2
}

pub open spec fn vars_rule(g: Graph, vs: Seq<VarDef>) -> Seq<DSpec>
    decreases vs.len(),
{
    if vs.len() == 0 {
        none()
    } else {
        vars_rule(g, vs.drop_last()) + var_rule(g, vs.last())
    }
}

/// `unknown_var` for each name a check reads that is no var.
pub open spec fn reads_rule(g: Graph, c: CheckDef, rs: Seq<Seq<char>>) -> Seq<DSpec>
    decreases rs.len(),
{
    if rs.len() == 0 {
        none()
    } else {
        let r = rs.last();
        reads_rule(g, c, rs.drop_last()) + if has_key(g.vars@, r) {
            none()
        } else {
            seq![dg(Level::Error, "unknown_var", c.file@, c.line, Some(c.id@), "check `"@ + c.id@ + "` reads `"@ + r + "`: not defined"@)]
        }
    }
}

/// A check definition (not one standing for a perm) should be used, read defined vars and
/// fail towards a node that exists.
pub open spec fn check_def_rule(g: Graph, c: CheckDef) -> Seq<DSpec> {
    if is_prefix(s_perm_prefix(), c.id@) {
        none()
    } else {
        let d1 = if nodes_where(g.nodes@, |n: Node| uses_check(n, c.id@)).len() == 0 {
            seq![dg(Level::Warning, "check_unused", c.file@, c.line, Some(c.id@), "check `"@ + c.id@ + "` is never used"@)]
        } else {
            none()
        };
        let d3 = match c.fail_to {
            Some(t) => if g.has_node(t@) {
                none()
            } else {
                seq![dg(Level::Error, "dangling_ref", c.file@, c.line, Some(c.id@), "check `"@ + c.id@ + "` fail target `"@ + t@ + "` not defined"@)]
            },
            None => none(),
        };
        d1 + reads_rule(g, c, views(c.reads@)) + d3
    }
}

pub open spec fn check_defs_rule(g: Graph, cs: Seq<CheckDef>) -> Seq<DSpec>
    decreases cs.len(),
{
    if cs.len() == 0 {
        none()
    } else {
        check_defs_rule(g, cs.drop_last()) + check_def_rule(g, cs.last())
    }
}

/// A perm should be required somewhere and fail towards a node that exists.
pub open spec fn perm_rule(g: Graph, p: PermDef) -> Seq<DSpec> {
    let d1 = if nodes_where(g.nodes@, |n: Node| uses_check(n, s_perm_prefix() + p.id@)).len() == 0 {
        seq![dg(Level::Warning, "perm_unused", p.file@, p.line, Some(p.id@), "perm `"@ + p.id@ + "` is never required"@)]
    } else {
        none()
    };
    let d2 = match p.fail_to {
        Some(t) => if g.has_node(t@) {
            none()
        } else {
            seq![dg(Level::Error, "dangling_ref", p.file@, p.line, Some(p.id@), "perm `"@ + p.id@ + "` fail target `"@ + t@ + "` not defined"@)]
        },
        None => none(),
    };
    d1 + d2
}

pub open spec fn perms_rule(g: Graph, ps: Seq<PermDef>) -> Seq<DSpec>
    decreases ps.len(),
{
    if ps.len() == 0 {
        none()
    } else {
        perms_rule(g, ps.drop_last()) + perm_rule(g, ps.last())
    }
}

/// The edges of `es` that do not come from `id` itself.
pub open spec fn from_others(es: Seq<REdge>, id: Seq<char>) -> Seq<REdge>
    decreases es.len(),
{
    if es.len() == 0 {
        Seq::<REdge>::empty()
    } else {
        let r = from_others(es.drop_last(), id);
        if es.last().from != id { r.push(es.last()) } else { r }
    }
}

/// The first (at most three) sources of a list of edges.
pub open spec fn first_sources(es: Seq<REdge>) -> Seq<Seq<char>> {
    es.map_values(|e: REdge| e.from).take(if es.len() < 3 { es.len() as int } else { 3 })
}

/// A root must be a node, and should have no incoming edges from other nodes.
pub open spec fn root_rule(g: Graph, r: RootDef) -> Seq<DSpec> {
    if !g.has_node(r.id@) {
        seq![dg(Level::Error, "dangling_ref", r.file@, r.line, Some(r.id@), "root `"@ + r.id@ + "` not defined"@)]
    } else {
        let inc = from_others(incoming_spec(g.outs(), r.id@), r.id@);
        if inc.len() > 0 {
            seq![dg(Level::Warning, "root_has_incoming", r.file@, r.line, Some(r.id@),
                "root `"@ + r.id@ + "` already has incoming edges from "@ + join(first_sources(inc), ", "@)
                    + "; is it really an entry point?"@)]
        } else {
            none()
        }
    }
}

pub open spec fn roots_rule(g: Graph, rs: Seq<RootDef>) -> Seq<DSpec>
    decreases rs.len(),
{
    if rs.len() == 0 {
        none()
    } else {
        roots_rule(g, rs.drop_last()) + root_rule(g, rs.last())
    }
}

/// The roots without `every=`.
pub open spec fn entry_root_count(rs: Seq<RootDef>) -> nat
    decreases rs.len(),
{
    if rs.len() == 0 {
        0
    } else {
        entry_root_count(rs.drop_last()) + if rs.last().every is None { 1nat } else { 0nat }
    }
}

/// `too_many_roots` (periodic roots do not count), then `no_roots`.
pub open spec fn root_count_rule(g: Graph) -> Seq<DSpec> {
    let k = entry_root_count(g.roots@);
    let d1 = if k > g.config.max_roots {
        seq![dg(Level::Warning, "too_many_roots", "flows"@, 0, None, dec(k) + " non-periodic roots (max_roots "@
            + dec(g.config.max_roots as nat) + "); entry points should be few, prefer edges or `entry=` on calls"@)]
    } else {
        none()
    };
    let d2 = if g.roots@.len() == 0 && g.nodes@.len() > 0 {
        seq![dg(Level::Error, "no_roots", "flows"@, 0, None, "no `root` defined"@)]
    } else {
        none()
    };
    d1 + d2
}

/// Both ends of a view must be nodes.
pub open spec fn view_rule(g: Graph, v: ViewDef) -> Seq<DSpec> {
    let end = |x: Seq<char>| if g.has_node(x) {
        none()
    } else {
        seq![dg(Level::Error, "dangling_ref", v.file@, v.line, Some(v.id@), "view `"@ + v.id@ + "`: `"@ + x + "` not defined"@)]
    };
    end(v.from@) + end(v.to@)
}

pub open spec fn views_rule(g: Graph, vs: Seq<ViewDef>) -> Seq<DSpec>
    decreases vs.len(),
{
    if vs.len() == 0 {
        none()
    } else {
        views_rule(g, vs.drop_last()) + view_rule(g, vs.last())
    }
}

pub fn dup_check(ds: &Vec<Duplicate>, out: &mut Vec<Diagnostic>)
    ensures
        dviews(final(out)@) == dviews(old(out)@) + dup_rule(ds@),
{
    let ghost o = dviews(out@);
    let mut i: usize = 0;
    while i < ds.len()
        invariant
            i <= ds@.len(),
            dviews(out@) == o + dup_rule(ds@.take(i as int)),
        decreases ds.len() - i,
    {
        proof {
            assert(ds@.take(i + 1).drop_last() =~= ds@.take(i as int));
            assert(ds@.take(i + 1).last() == ds@[i as int]);
        }
        let d = &ds[i];
        let mut m = string_from("`");
        push_str(&mut m, d.id.as_str());
        push_str(&mut m, "` defined twice");
        push_diag(out, diag(Level::Error, "duplicate_id", d.file.as_str(), d.line, Some(d.id.as_str()), m));
        i += 1;
    }
    proof {
        assert(ds@.take(ds@.len() as int) =~= ds@);
    }
}

fn var_check(g: &Graph, v: &VarDef, out: &mut Vec<Diagnostic>)
    ensures
        dviews(final(out)@) == dviews(old(out)@) + var_rule(*g, *v),
{
    let ghost o = dviews(out@);
    let writers = g.var_writers(v.id.as_str());
    let readers = g.var_readers(v.id.as_str());
    proof {
        assert(writers@.map_values(|p: (&Node, &crate::model::SetVar)| (*p.0, *p.1)).len() == writers@.len());
        assert(readers@.map_values(|p: (String, String)| (p.0@, p.1@)).len() == readers@.len());
    }
    if writers.len() == 0 && v.source.is_none() {
        let lvl = if readers.len() == 0 { Level::Warning } else { Level::Error };
        let mut m = string_from("`");
        push_str(&mut m, v.id.as_str());
        push_str(&mut m, "` is never set and has no `source`");
        push_diag(out, diag(lvl, "var_never_set", v.file.as_str(), v.line, Some(v.id.as_str()), m));
    }
    if readers.len() == 0 {
        let mut m = string_from("`");
        push_str(&mut m, v.id.as_str());
        push_str(&mut m, "` is never read by a guard/check");
        push_diag(out, diag(Level::Warning, "var_never_read", v.file.as_str(), v.line, Some(v.id.as_str()), m));
    }
    proof {
        assert(dviews(out@) =~= o + var_rule(*g, *v));
    }
}

pub fn vars_check(g: &Graph, out: &mut Vec<Diagnostic>)
    ensures
        dviews(final(out)@) == dviews(old(out)@) + vars_rule(*g, g.vars@),
{
    let ghost o = dviews(out@);
    let mut i: usize = 0;
    while i < g.vars.len()
        invariant
            i <= g.vars@.len(),
            dviews(out@) == o + vars_rule(*g, g.vars@.take(i as int)),
        decreases g.vars.len() - i,
    {
        proof {
            assert(g.vars@.take(i + 1).drop_last() =~= g.vars@.take(i as int));
            assert(g.vars@.take(i + 1).last() == g.vars@[i as int]);
        }
        var_check(g, &g.vars[i], out);
        i += 1;
    }
    proof {
        assert(g.vars@.take(g.vars@.len() as int) =~= g.vars@);
    }
}

fn check_def_check(g: &Graph, c: &CheckDef, out: &mut Vec<Diagnostic>)
    ensures
        dviews(final(out)@) == dviews(old(out)@) + check_def_rule(*g, *c),
{
    let ghost o = dviews(out@);
    proof {
        reveal_strlit("perm:");
        assert("perm:"@ =~= s_perm_prefix());
    }
    if starts_with(c.id.as_str(), "perm:") {
        proof {
            assert(dviews(out@) =~= o + check_def_rule(*g, *c));
        }
        return;
    }
    let users = g.check_users(c.id.as_str());
    proof {
        assert(users@.map_values(|n: &Node| *n).len() == users@.len());
    }
    if users.len() == 0 {
        let mut m = string_from("check `");
        push_str(&mut m, c.id.as_str());
        push_str(&mut m, "` is never used");
        push_diag(out, diag(Level::Warning, "check_unused", c.file.as_str(), c.line, Some(c.id.as_str()), m));
    }
    let ghost o1 = dviews(out@);
    let ghost rv = views(c.reads@);
    let mut i: usize = 0;
    while i < c.reads.len()
        invariant
            i <= c.reads@.len(),
            rv == views(c.reads@),
            dviews(out@) == o1 + reads_rule(*g, *c, rv.take(i as int)),
        decreases c.reads.len() - i,
    {
        proof {
            assert(rv.take(i + 1).drop_last() =~= rv.take(i as int));
            assert(rv.take(i + 1).last() == c.reads@[i as int]@);
        }
        let r = &c.reads[i];
        let ghost before = dviews(out@);
        if !contains_key(&g.vars, r.as_str()) {
            let mut m = string_from("check `");
            push_str(&mut m, c.id.as_str());
            push_str(&mut m, "` reads `");
            push_str(&mut m, r.as_str());
            push_str(&mut m, "`: not defined");
            push_diag(out, diag(Level::Error, "unknown_var", c.file.as_str(), c.line, Some(c.id.as_str()), m));
        } else {
            proof {
                assert(dviews(out@) =~= before + none());
            }
        }
        i += 1;
    }
    proof {
        assert(rv.take(c.reads@.len() as int) =~= rv);
    }
    let ghost o2 = dviews(out@);
    match &c.fail_to {
        Some(t) => {
            if !contains_key(&g.nodes, t.as_str()) {
                let mut m = string_from("check `");
                push_str(&mut m, c.id.as_str());
                push_str(&mut m, "` fail target `");
                push_str(&mut m, t.as_str());
                push_str(&mut m, "` not defined");
                push_diag(out, diag(Level::Error, "dangling_ref", c.file.as_str(), c.line, Some(c.id.as_str()), m));
            }
        },
        None => {},
    }
    proof {
        assert(dviews(out@) =~= o + check_def_rule(*g, *c));
    }
}

pub fn check_defs_check(g: &Graph, out: &mut Vec<Diagnostic>)
    ensures
        dviews(final(out)@) == dviews(old(out)@) + check_defs_rule(*g, g.checks@),
{
    let ghost o = dviews(out@);
    let mut i: usize = 0;
    while i < g.checks.len()
        invariant
            i <= g.checks@.len(),
            dviews(out@) == o + check_defs_rule(*g, g.checks@.take(i as int)),
        decreases g.checks.len() - i,
    {
        proof {
            assert(g.checks@.take(i + 1).drop_last() =~= g.checks@.take(i as int));
            assert(g.checks@.take(i + 1).last() == g.checks@[i as int]);
        }
        check_def_check(g, &g.checks[i], out);
        i += 1;
    }
    proof {
        assert(g.checks@.take(g.checks@.len() as int) =~= g.checks@);
    }
}

fn perm_check(g: &Graph, p: &PermDef, out: &mut Vec<Diagnostic>)
    ensures
        dviews(final(out)@) == dviews(old(out)@) + perm_rule(*g, *p),
{
    let ghost o = dviews(out@);
    let users = g.perm_users(p.id.as_str());
    proof {
        assert(users@.map_values(|n: &Node| *n).len() == users@.len());
    }
    if users.len() == 0 {
        let mut m = string_from("perm `");
        push_str(&mut m, p.id.as_str());
        push_str(&mut m, "` is never required");
        push_diag(out, diag(Level::Warning, "perm_unused", p.file.as_str(), p.line, Some(p.id.as_str()), m));
    }
    match &p.fail_to {
        Some(t) => {
            if !contains_key(&g.nodes, t.as_str()) {
                let mut m = string_from("perm `");
                push_str(&mut m, p.id.as_str());
                push_str(&mut m, "` fail target `");
                push_str(&mut m, t.as_str());
                push_str(&mut m, "` not defined");
                push_diag(out, diag(Level::Error, "dangling_ref", p.file.as_str(), p.line, Some(p.id.as_str()), m));
            }
        },
        None => {},
    }
    proof {
        assert(dviews(out@) =~= o + perm_rule(*g, *p));
    }
}

pub fn perms_check(g: &Graph, out: &mut Vec<Diagnostic>)
    ensures
        dviews(final(out)@) == dviews(old(out)@) + perms_rule(*g, g.perms@),
{
    let ghost o = dviews(out@);
    let mut i: usize = 0;
    while i < g.perms.len()
        invariant
            i <= g.perms@.len(),
            dviews(out@) == o + perms_rule(*g, g.perms@.take(i as int)),
        decreases g.perms.len() - i,
    {
        proof {
            assert(g.perms@.take(i + 1).drop_last() =~= g.perms@.take(i as int));
            assert(g.perms@.take(i + 1).last() == g.perms@[i as int]);
        }
        perm_check(g, &g.perms[i], out);
        i += 1;
    }
    proof {
        assert(g.perms@.take(g.perms@.len() as int) =~= g.perms@);
    }
}

proof fn lemma_first_sources_push(s: Seq<REdge>, x: REdge)
    ensures
        first_sources(s.push(x)) == if s.len() < 3 { first_sources(s).push(x.from) } else { first_sources(s) },
{
    let a = s.push(x).map_values(|e: REdge| e.from);
    let b = s.map_values(|e: REdge| e.from);
    assert(a =~= b.push(x.from));
    if s.len() < 3 {
        assert(a.take(s.len() + 1 as int) =~= b.take(s.len() as int).push(x.from));
    } else {
        assert(a.take(3) =~= b.take(3));
    }
}

fn root_check(g: &Graph, r: &RootDef, out: &mut Vec<Diagnostic>)
    requires
        g.indexed(),
    ensures
        dviews(final(out)@) == dviews(old(out)@) + root_rule(*g, *r),
{
    let ghost o = dviews(out@);
    if !contains_key(&g.nodes, r.id.as_str()) {
        let mut m = string_from("root `");
        push_str(&mut m, r.id.as_str());
        push_str(&mut m, "` not defined");
        push_diag(out, diag(Level::Error, "dangling_ref", r.file.as_str(), r.line, Some(r.id.as_str()), m));
        proof {
            assert(dviews(out@) =~= o + root_rule(*g, *r));
        }
        return;
    }
    let inc = g.incoming_edges(r.id.as_str());
    let ghost iv = inc@.map_values(|e: &crate::graph::ResolvedEdge| (*e)@);
    let mut froms: Vec<String> = Vec::new();
    let mut any = false;
    let mut k: usize = 0;
    while k < inc.len()
        invariant
            k <= inc@.len(),
            iv == inc@.map_values(|e: &crate::graph::ResolvedEdge| (*e)@),
            views(froms@) == first_sources(from_others(iv.take(k as int), r.id@)),
            any == (from_others(iv.take(k as int), r.id@).len() > 0),
            froms@.len() <= 3,
        decreases inc.len() - k,
    {
        let ghost before = from_others(iv.take(k as int), r.id@);
        proof {
            assert(iv.take(k + 1).drop_last() =~= iv.take(k as int));
            assert(iv.take(k + 1).last() == inc@[k as int]@);
            lemma_first_sources_push(before, inc@[k as int]@);
        }
        let e = inc[k];
        if !str_eq(e.from.as_str(), r.id.as_str()) {
            any = true;
            if froms.len() < 3 {
                let ghost fb = froms@;
                froms.push(e.from.clone());
                proof {
                    assert(views(froms@) =~= views(fb).push(e.from@));
                }
            }
            proof {
                assert(first_sources(before).len() == if before.len() < 3 { before.len() } else { 3 });
            }
        }
        k += 1;
    }
    proof {
        assert(iv.take(inc@.len() as int) =~= iv);
        assert(iv == incoming_spec(g.outs(), r.id@));
    }
    if any {
        let mut m = string_from("root `");
        push_str(&mut m, r.id.as_str());
        push_str(&mut m, "` already has incoming edges from ");
        let j = join_strings(&froms, ", ");
        push_str(&mut m, j.as_str());
        push_str(&mut m, "; is it really an entry point?");
        push_diag(out, diag(Level::Warning, "root_has_incoming", r.file.as_str(), r.line, Some(r.id.as_str()), m));
    }
    proof {
        assert(dviews(out@) =~= o + root_rule(*g, *r));
    }
}

pub fn roots_check(g: &Graph, out: &mut Vec<Diagnostic>)
    requires
        g.indexed(),
    ensures
        dviews(final(out)@) == dviews(old(out)@) + roots_rule(*g, g.roots@),
{
    let ghost o = dviews(out@);
    let mut i: usize = 0;
    while i < g.roots.len()
        invariant
            g.indexed(),
            i <= g.roots@.len(),
            dviews(out@) == o + roots_rule(*g, g.roots@.take(i as int)),
        decreases g.roots.len() - i,
    {
        proof {
            assert(g.roots@.take(i + 1).drop_last() =~= g.roots@.take(i as int));
            assert(g.roots@.take(i + 1).last() == g.roots@[i as int]);
        }
        root_check(g, &g.roots[i], out);
        i += 1;
    }
    proof {
        assert(g.roots@.take(g.roots@.len() as int) =~= g.roots@);
    }
}

pub fn root_count_check(g: &Graph, out: &mut Vec<Diagnostic>)
    ensures
        dviews(final(out)@) == dviews(old(out)@) + root_count_rule(*g),
{
    let ghost o = dviews(out@);
    let mut k: usize = 0;
    let mut count: usize = 0;
    while k < g.roots.len()
        invariant
            k <= g.roots@.len(),
            count == entry_root_count(g.roots@.take(k as int)),
            count <= k,
        decreases g.roots.len() - k,
    {
        proof {
            assert(g.roots@.take(k + 1).drop_last() =~= g.roots@.take(k as int));
            assert(g.roots@.take(k + 1).last() == g.roots@[k as int]);
        }
        if g.roots[k].every.is_none() {
            count += 1;
        }
        k += 1;
    }
    proof {
        assert(g.roots@.take(g.roots@.len() as int) =~= g.roots@);
    }
    if count > g.config.max_roots {
        let mut m = dec_string(count as u64);
        push_str(&mut m, " non-periodic roots (max_roots ");
        let d = dec_string(g.config.max_roots as u64);
        push_str(&mut m, d.as_str());
        push_str(&mut m, "); entry points should be few, prefer edges or `entry=` on calls");
        push_diag(out, diag(Level::Warning, "too_many_roots", "flows", 0, None, m));
    }
    if g.roots.len() == 0 && g.nodes.len() > 0 {
        push_diag(out, diag(Level::Error, "no_roots", "flows", 0, None, string_from("no `root` defined")));
    }
    proof {
        assert(dviews(out@) =~= o + root_count_rule(*g));
    }
}

fn view_end_check(g: &Graph, v: &ViewDef, x: &String, out: &mut Vec<Diagnostic>)
    ensures
        dviews(final(out)@) == dviews(old(out)@) + if g.has_node(x@) {
            none()
        } else {
            seq![dg(Level::Error, "dangling_ref", v.file@, v.line, Some(v.id@), "view `"@ + v.id@ + "`: `"@ + x@ + "` not defined"@)]
        },
{
    let ghost o = dviews(out@);
    if !contains_key(&g.nodes, x.as_str()) {
        let mut m = string_from("view `");
        push_str(&mut m, v.id.as_str());
        push_str(&mut m, "`: `");
        push_str(&mut m, x.as_str());
        push_str(&mut m, "` not defined");
        push_diag(out, diag(Level::Error, "dangling_ref", v.file.as_str(), v.line, Some(v.id.as_str()), m));
    } else {
        proof {
            assert(dviews(out@) =~= o + none());
        }
    }
}

pub fn views_check(g: &Graph, out: &mut Vec<Diagnostic>)
    ensures
        dviews(final(out)@) == dviews(old(out)@) + views_rule(*g, g.views@),
{
    let ghost o = dviews(out@);
    let mut i: usize = 0;
    while i < g.views.len()
        invariant
            i <= g.views@.len(),
            dviews(out@) == o + views_rule(*g, g.views@.take(i as int)),
        decreases g.views.len() - i,
    {
        proof {
            assert(g.views@.take(i + 1).drop_last() =~= g.views@.take(i as int));
            assert(g.views@.take(i + 1).last() == g.views@[i as int]);
        }
        let v = &g.views[i];
        let ghost before = dviews(out@);
        view_end_check(g, v, &v.from, out);
        view_end_check(g, v, &v.to, out);
        proof {
            assert(dviews(out@) =~= before + view_rule(*g, *v));
        }
        i += 1;
    }
    proof {
        assert(g.views@.take(g.views@.len() as int) =~= g.views@);
    }
}

} // verus!
