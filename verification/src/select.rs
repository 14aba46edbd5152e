//! Selections the command line makes: diagnostics by ID or file prefix (`validate
//! --prefix`), nodes by kind, layer, prefix and attributes (`ls`).

use vstd::prelude::*;
use crate::cli::{attr_matches, attr_matches_spec};
use crate::graph::Graph;
use crate::lint::{dviews, DSpec, Diagnostic};
use crate::model::{kind_name, Node};
use crate::strset::views;
use crate::text::{is_prefix, starts_with, str_eq};

verus! {

/// A diagnostic is about one of the prefixes: its node ID or its file starts with it.
pub open spec fn diag_in(d: DSpec, ps: Seq<Seq<char>>) -> bool {
    exists|k: int| 0 <= k < ps.len() && ((d.id matches Some(i) && is_prefix(ps[k], i)) || is_prefix(#[trigger] ps[k], d.file))
}

/// The diagnostics about one of the prefixes, in order.
pub open spec fn diags_in(ds: Seq<DSpec>, ps: Seq<Seq<char>>) -> Seq<DSpec>
    decreases ds.len(),
{
    if ds.len() == 0 {
        ds
    } else {
        let r = diags_in(ds.drop_last(), ps);
        if diag_in(ds.last(), ps) { r.push(ds.last()) } else { r }
    }
}

/// The diagnostics kept by `--prefix` (all of them when no prefix is given), in order.
pub open spec fn select_spec(ds: Seq<DSpec>, ps: Seq<Seq<char>>) -> Seq<DSpec> {
    if ps.len() == 0 { ds } else { diags_in(ds, ps) }
}

fn diag_in_exec(d: &Diagnostic, ps: &Vec<String>) -> (res: bool)
    ensures
        res == diag_in(d@, views(ps@)),
{
    let ghost pv = views(ps@);
    let mut k: usize = 0;
    while k < ps.len()
        invariant
            pv == views(ps@),
            k <= ps@.len(),
            forall|j: int| 0 <= j < k ==> !((d@.id matches Some(i) && is_prefix(pv[j], i)) || is_prefix(#[trigger] pv[j], d@.file)),
        decreases ps.len() - k,
    {
        proof {
            assert(pv[k as int] == ps@[k as int]@);
        }
        let p = ps[k].as_str();
        let by_id = match &d.id {
            Some(i) => starts_with(i.as_str(), p),
            None => false,
        };
        if by_id || starts_with(d.file.as_str(), p) {
            proof {
                assert((d@.id matches Some(i) && is_prefix(pv[k as int], i)) || is_prefix(pv[k as int], d@.file));
            }
            return true;
        }
        k += 1;
    }
    false
}

/// The diagnostics about one of the prefixes (all of them when none is given), in order.
pub fn select_diagnostics(d: Vec<Diagnostic>, prefixes: &Vec<String>) -> (res: Vec<Diagnostic>)
    ensures
        dviews(res@) == select_spec(dviews(d@), views(prefixes@)),
{
    if prefixes.len() == 0 {
        return d;
    }
    let ghost pv = views(prefixes@);
    let ghost dv = dviews(d@);
    let mut out: Vec<Diagnostic> = Vec::new();
    let mut i: usize = 0;
    while i < d.len()
        invariant
            pv == views(prefixes@),
            dv == dviews(d@),
            pv.len() > 0,
            i <= d@.len(),
            dviews(out@) == diags_in(dv.take(i as int), pv),
        decreases d.len() - i,
    {
        proof {
            assert(dv.take(i + 1).drop_last() =~= dv.take(i as int));
            assert(dv.take(i + 1).last() == d@[i as int]@);
        }
        if diag_in_exec(&d[i], prefixes) {
            let ghost before = dviews(out@);
            out.push(d[i].clone());
            proof {
                assert(dviews(out@) =~= before.push(d@[i as int]@));
            }
        }
        i += 1;
    }
    proof {
        assert(dv.take(dv.len() as int) =~= dv);
    }
    out
}

/// The `ls` filters: kind and layer (where given), one of the ID prefixes (where any is
/// given), every `--attr` and none of the `--no-attr`.
pub open spec fn ls_keeps(n: Node, kind: Option<Seq<char>>, layer: Option<Seq<char>>, ps: Seq<Seq<char>>,
    with: Seq<Seq<char>>, without: Seq<Seq<char>>) -> bool
{
    &&& (kind matches Some(k) ==> kind_name(n.kind) == k)
    &&& (layer matches Some(l) ==> n.layer@ == l)
    &&& (ps.len() == 0 || exists|j: int| 0 <= j < ps.len() && is_prefix(#[trigger] ps[j], n.id@))
    &&& forall|j: int| 0 <= j < with.len() ==> attr_matches_spec(n, #[trigger] with[j])
    &&& forall|j: int| 0 <= j < without.len() ==> !attr_matches_spec(n, #[trigger] without[j])
}

/// The indices of the nodes `ls` keeps, in node order.
pub open spec fn ls_spec(ns: Seq<Node>, kind: Option<Seq<char>>, layer: Option<Seq<char>>, ps: Seq<Seq<char>>,
    with: Seq<Seq<char>>, without: Seq<Seq<char>>) -> Seq<int>
    decreases ns.len(),
{
    if ns.len() == 0 {
        Seq::<int>::empty()
    } else {
        let r = ls_spec(ns.drop_last(), kind, layer, ps, with, without);
        if ls_keeps(ns.last(), kind, layer, ps, with, without) { r.push(ns.len() - 1) } else { r }
    }
}

pub open spec fn opt_v(o: Option<&str>) -> Option<Seq<char>> {
    match o { Some(s) => Some(s@), None => None }
}

fn ls_keeps_exec(n: &Node, kind: Option<&str>, layer: Option<&str>, ps: &Vec<String>, with: &Vec<String>,
    without: &Vec<String>) -> (res: bool)
    ensures
        res == ls_keeps(*n, opt_v(kind), opt_v(layer), views(ps@), views(with@), views(without@)),
{
    match kind {
        Some(k) => if !str_eq(n.kind.as_str(), k) { return false; },
        None => {},
    }
    match layer {
        Some(l) => if !str_eq(n.layer.as_str(), l) { return false; },
        None => {},
    }
    if ps.len() > 0 {
        let mut found = false;
        let mut j: usize = 0;
        while j < ps.len()
            invariant
                j <= ps@.len(),
                found == exists|i: int| 0 <= i < j && is_prefix(#[trigger] views(ps@)[i], n.id@),
            decreases ps.len() - j,
        {
            proof {
                assert(views(ps@)[j as int] == ps@[j as int]@);
            }
            if starts_with(n.id.as_str(), ps[j].as_str()) {
                found = true;
            }
            j += 1;
        }
        if !found {
            return false;
        }
    }
    let mut j: usize = 0;
    while j < with.len()
        invariant
            j <= with@.len(),
            forall|i: int| 0 <= i < j ==> attr_matches_spec(*n, #[trigger] views(with@)[i]),
        decreases with.len() - j,
    {
        proof {
            assert(views(with@)[j as int] == with@[j as int]@);
        }
        if !attr_matches(n, with[j].as_str()) {
            return false;
        }
        j += 1;
    }
    let mut j: usize = 0;
    while j < without.len()
        invariant
            j <= without@.len(),
            forall|i: int| 0 <= i < j ==> !attr_matches_spec(*n, #[trigger] views(without@)[i]),
        decreases without.len() - j,
    {
        proof {
            assert(views(without@)[j as int] == without@[j as int]@);
        }
        if attr_matches(n, without[j].as_str()) {
            return false;
        }
        j += 1;
    }
    true
}

/// The indices of the nodes `ls` lists, in node (ID) order.
pub fn list_nodes(g: &Graph, kind: Option<&str>, layer: Option<&str>, prefixes: &Vec<String>,
    with: &Vec<String>, without: &Vec<String>) -> (res: Vec<usize>)
    ensures
        res@.map_values(|i: usize| i as int) == ls_spec(g.nodes@, opt_v(kind), opt_v(layer), views(prefixes@),
            views(with@), views(without@)),
{
    let mut out: Vec<usize> = Vec::new();
    let mut i: usize = 0;
    while i < g.nodes.len()
        invariant
            i <= g.nodes@.len(),
            out@.map_values(|i: usize| i as int) == ls_spec(g.nodes@.take(i as int), opt_v(kind), opt_v(layer),
                views(prefixes@), views(with@), views(without@)),
        decreases g.nodes.len() - i,
    {
        proof {
            assert(g.nodes@.take(i + 1).drop_last() =~= g.nodes@.take(i as int));
            assert(g.nodes@.take(i + 1).last() == g.nodes@[i as int]);
        }
        if ls_keeps_exec(&g.nodes[i], kind, layer, prefixes, with, without) {
            let ghost before = out@.map_values(|i: usize| i as int);
            out.push(i);
            proof {
                assert(out@.map_values(|i: usize| i as int) =~= before.push(i as int));
            }
        }
        i += 1;
    }
    proof {
        assert(g.nodes@.take(g.nodes@.len() as int) =~= g.nodes@);
    }
    out
}

} // verus!
