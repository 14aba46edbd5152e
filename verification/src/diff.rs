//! The difference between two graphs, by ID; the UI overlay and `duflow diff` use it.

use vstd::prelude::*;
use crate::graph::Graph;
use crate::model::{
    Attr, CheckUse, Edge, Node, SetVar, edge_kind_eq, edge_kind_equal, node_same,
    opt_eq, opt_str_eq, ostr,
};
use crate::strset::views;
use crate::table::{Keyed, entry, find_key, has_key, contains_key, lemma_key_index};
use crate::text::{dec, dec_string, join, join_strings, push_char, push_str, str_eq, string_from};
use crate::model::{edge_label, kind_name};

verus! {

/// What changed in a node that both graphs have.
#[derive(Debug)]
pub struct NodeChange {
    pub id: String,
    pub edges_added: Vec<Edge>,
    pub edges_removed: Vec<Edge>,
    pub fields: Vec<String>,
    pub before: Node,
    pub after: Node,
}

#[derive(Debug)]
pub struct GraphDiff {
    pub added: Vec<Node>,
    pub removed: Vec<Node>,
    pub changed: Vec<NodeChange>,
    pub vars_added: Vec<String>,
    pub vars_removed: Vec<String>,
    pub checks_added: Vec<String>,
    pub checks_removed: Vec<String>,
}

/// Two edges are the same edge: target, kind, guard, case and step.
pub open spec fn edge_same(e: Edge, f: Edge) -> bool {
    &&& e.to@ == f.to@
    &&& edge_kind_eq(e.kind, f.kind)
    &&& opt_eq(e.when, f.when)
    &&& opt_eq(e.case, f.case)
    &&& e.seq == f.seq
}

/// `e` has a same edge in `fs`.
pub open spec fn matched(e: Edge, fs: Seq<Edge>) -> bool {
    exists|j: int| 0 <= j < fs.len() && edge_same(e, #[trigger] fs[j])
}

/// The edges of `es` that have no same edge in `fs`, in order.
pub open spec fn unmatched(es: Seq<Edge>, fs: Seq<Edge>) -> Seq<Edge>
    decreases es.len(),
{
    if es.len() == 0 {
        Seq::<Edge>::empty()
    } else {
        let r = unmatched(es.drop_last(), fs);
        if matched(es.last(), fs) { r } else { r.push(es.last()) }
    }
}

pub open spec fn attr_pairs(a: Seq<Attr>) -> Seq<(Seq<char>, Seq<char>)> {
    a.map_values(|x: Attr| (x.key@, x.value@))
}

/// What a check use is compared by: name, failure status, code and target.
pub open spec fn check_keys(cs: Seq<CheckUse>) -> Seq<(Seq<char>, Option<u16>, Option<Seq<char>>, Option<Seq<char>>)> {
    cs.map_values(|c: CheckUse| (c.name@, c.fail, ostr(c.code), ostr(c.to)))
}

/// What a `sets` is compared by: variable and value.
pub open spec fn set_keys(ss: Seq<SetVar>) -> Seq<(Seq<char>, Seq<char>)> {
    ss.map_values(|s: SetVar| (s.var@, s.value@))
}

/// The names of the fields that differ: `kind`, `layer`, `desc`, `attrs`, `checks`, `sets`.
pub open spec fn changed_fields(x: Node, y: Node) -> Seq<Seq<char>> {
    let f1 = if x.kind != y.kind { seq!["kind"@] } else { Seq::<Seq<char>>::empty() };
    let f2 = if x.layer@ != y.layer@ { f1.push("layer"@) } else { f1 };
    let f3 = if ostr(x.desc) != ostr(y.desc) { f2.push("desc"@) } else { f2 };
    let f4 = if attr_pairs(x.attrs@) != attr_pairs(y.attrs@) { f3.push("attrs"@) } else { f3 };
    let f5 = if check_keys(x.checks@) != check_keys(y.checks@) { f4.push("checks"@) } else { f4 };
    if set_keys(x.sets@) != set_keys(y.sets@) { f5.push("sets"@) } else { f5 }
}

/// A node present in both graphs changed.
pub open spec fn has_change(x: Node, y: Node) -> bool {
    unmatched(y.edges@, x.edges@).len() > 0 || unmatched(x.edges@, y.edges@).len() > 0 || changed_fields(x, y).len() > 0
}

/// `c` records the change from `x` to `y`.
pub open spec fn change_of(c: NodeChange, x: Node, y: Node) -> bool {
    &&& c.id@ == x.id@
    &&& c.edges_added@ == unmatched(y.edges@, x.edges@)
    &&& c.edges_removed@ == unmatched(x.edges@, y.edges@)
    &&& views(c.fields@) == changed_fields(x, y)
    &&& node_same(c.before, x)
    &&& node_same(c.after, y)
}

/// The entries of `xs` whose key `ys` lacks, in order.
pub open spec fn only_in<T: Keyed>(xs: Seq<T>, ys: Seq<T>) -> Seq<T>
    decreases xs.len(),
{
    if xs.len() == 0 {
        Seq::<T>::empty()
    } else {
        let r = only_in(xs.drop_last(), ys);
        if has_key(ys, xs.last().key_view()) { r } else { r.push(xs.last()) }
    }
}

/// The pairs (before, after) of nodes in both graphs that changed, in ID order.
pub open spec fn changed_pairs(xs: Seq<Node>, ys: Seq<Node>) -> Seq<(Node, Node)>
    decreases xs.len(),
{
    if xs.len() == 0 {
        Seq::<(Node, Node)>::empty()
    } else {
        let r = changed_pairs(xs.drop_last(), ys);
        let x = xs.last();
        match entry(ys, x.id@) {
            Some(y) => if has_change(x, y) { r.push((x, y)) } else { r },
            None => r,
        }
    }
}

/// Node lists holding the same values.
pub open spec fn same_nodes(a: Seq<Node>, b: Seq<Node>) -> bool {
    a.len() == b.len() && forall|i: int| 0 <= i < a.len() ==> node_same(#[trigger] a[i], b[i])
}

/// The keys of a table.
pub open spec fn key_views<T: Keyed>(s: Seq<T>) -> Seq<Seq<char>> {
    s.map_values(|x: T| x.key_view())
}

fn edge_same_exec(e: &Edge, f: &Edge) -> (res: bool)
    ensures
        res == edge_same(*e, *f),
{
    str_eq(e.to.as_str(), f.to.as_str()) && edge_kind_equal(&e.kind, &f.kind) && opt_str_eq(&e.when, &f.when)
        && opt_str_eq(&e.case, &f.case) && e.seq == f.seq
}

/// The edges of `es` with no same edge in `fs`.
fn unmatched_edges(es: &Vec<Edge>, fs: &Vec<Edge>) -> (res: Vec<Edge>)
    ensures
        res@ == unmatched(es@, fs@),
{
    let mut out: Vec<Edge> = Vec::new();
    let mut i: usize = 0;
    while i < es.len()
        invariant
            i <= es@.len(),
            out@ == unmatched(es@.take(i as int), fs@),
        decreases es.len() - i,
    {
        proof {
            assert(es@.take(i + 1).drop_last() =~= es@.take(i as int));
            assert(es@.take(i + 1).last() == es@[i as int]);
        }
        let mut found = false;
        let mut j: usize = 0;
        while j < fs.len()
            invariant
                i < es@.len(),
                j <= fs@.len(),
                found == exists|k: int| 0 <= k < j && edge_same(es@[i as int], #[trigger] fs@[k]),
            decreases fs.len() - j,
        {
            if edge_same_exec(&es[i], &fs[j]) {
                found = true;
            }
            j += 1;
        }
        if !found {
            out.push(es[i].clone());
        }
        i += 1;
    }
    proof {
        assert(es@.take(es@.len() as int) =~= es@);
    }
    out
}

fn attrs_equal(a: &Vec<Attr>, b: &Vec<Attr>) -> (res: bool)
    ensures
        res == (attr_pairs(a@) == attr_pairs(b@)),
{
    if a.len() != b.len() {
        proof {
            assert(attr_pairs(a@).len() != attr_pairs(b@).len());
        }
        return false;
    }
    let mut i: usize = 0;
    while i < a.len()
        invariant
            a@.len() == b@.len(),
            i <= a@.len(),
            forall|k: int| 0 <= k < i ==> attr_pairs(a@)[k] == attr_pairs(b@)[k],
        decreases a.len() - i,
    {
        if !str_eq(a[i].key.as_str(), b[i].key.as_str()) || !str_eq(a[i].value.as_str(), b[i].value.as_str()) {
            proof {
                assert(attr_pairs(a@)[i as int] != attr_pairs(b@)[i as int]);
            }
            return false;
        }
        i += 1;
    }
    proof {
        assert(attr_pairs(a@) =~= attr_pairs(b@));
    }
    true
}

fn checks_equal(a: &Vec<CheckUse>, b: &Vec<CheckUse>) -> (res: bool)
    ensures
        res == (check_keys(a@) == check_keys(b@)),
{
    if a.len() != b.len() {
        proof {
            assert(check_keys(a@).len() != check_keys(b@).len());
        }
        return false;
    }
    let mut i: usize = 0;
    while i < a.len()
        invariant
            a@.len() == b@.len(),
            i <= a@.len(),
            forall|k: int| 0 <= k < i ==> check_keys(a@)[k] == check_keys(b@)[k],
        decreases a.len() - i,
    {
        let x = &a[i];
        let y = &b[i];
        if !str_eq(x.name.as_str(), y.name.as_str()) || x.fail != y.fail || !opt_str_eq(&x.code, &y.code)
            || !opt_str_eq(&x.to, &y.to) {
            proof {
                assert(check_keys(a@)[i as int] != check_keys(b@)[i as int]);
            }
            return false;
        }
        proof {
            assert(ostr(x.code) == ostr(y.code));
            assert(ostr(x.to) == ostr(y.to));
        }
        i += 1;
    }
    proof {
        assert(check_keys(a@) =~= check_keys(b@));
    }
    true
}

fn sets_equal(a: &Vec<SetVar>, b: &Vec<SetVar>) -> (res: bool)
    ensures
        res == (set_keys(a@) == set_keys(b@)),
{
    if a.len() != b.len() {
        proof {
            assert(set_keys(a@).len() != set_keys(b@).len());
        }
        return false;
    }
    let mut i: usize = 0;
    while i < a.len()
        invariant
            a@.len() == b@.len(),
            i <= a@.len(),
            forall|k: int| 0 <= k < i ==> set_keys(a@)[k] == set_keys(b@)[k],
        decreases a.len() - i,
    {
        if !str_eq(a[i].var.as_str(), b[i].var.as_str()) || !str_eq(a[i].value.as_str(), b[i].value.as_str()) {
            proof {
                assert(set_keys(a@)[i as int] != set_keys(b@)[i as int]);
            }
            return false;
        }
        i += 1;
    }
    proof {
        assert(set_keys(a@) =~= set_keys(b@));
    }
    true
}

fn field_names(x: &Node, y: &Node) -> (res: Vec<String>)
    ensures
        views(res@) == changed_fields(*x, *y),
{
    let mut f: Vec<String> = Vec::new();
    if x.kind != y.kind {
        f.push(string_from("kind"));
    }
    if !str_eq(x.layer.as_str(), y.layer.as_str()) {
        f.push(string_from("layer"));
    }
    if !opt_str_eq(&x.desc, &y.desc) {
        f.push(string_from("desc"));
    }
    if !attrs_equal(&x.attrs, &y.attrs) {
        f.push(string_from("attrs"));
    }
    if !checks_equal(&x.checks, &y.checks) {
        f.push(string_from("checks"));
    }
    if !sets_equal(&x.sets, &y.sets) {
        f.push(string_from("sets"));
    }
    proof {
        assert(opt_eq(x.desc, y.desc) == (ostr(x.desc) == ostr(y.desc)));
        assert(views(f@) =~= changed_fields(*x, *y));
    }
    f
}

/// The change between two versions of a node, if anything changed.
fn node_change(x: &Node, y: &Node) -> (res: Option<NodeChange>)
    ensures
        res is Some <==> has_change(*x, *y),
        res matches Some(c) ==> change_of(c, *x, *y),
{
    let edges_added = unmatched_edges(&y.edges, &x.edges);
    let edges_removed = unmatched_edges(&x.edges, &y.edges);
    let fields = field_names(x, y);
    proof {
        assert(views(fields@).len() == fields@.len());
    }
    if edges_added.len() > 0 || edges_removed.len() > 0 || fields.len() > 0 {
        Some(NodeChange {
            id: x.id.clone(),
            edges_added,
            edges_removed,
            fields,
            before: x.duplicate(),
            after: y.duplicate(),
        })
    } else {
        None
    }
}

/// The entries of `xs` whose key `ys` lacks.
fn nodes_only_in(xs: &Vec<Node>, ys: &Vec<Node>) -> (res: Vec<Node>)
    ensures
        same_nodes(res@, only_in(xs@, ys@)),
{
    let mut out: Vec<Node> = Vec::new();
    let mut i: usize = 0;
    while i < xs.len()
        invariant
            i <= xs@.len(),
            same_nodes(out@, only_in(xs@.take(i as int), ys@)),
        decreases xs.len() - i,
    {
        proof {
            assert(xs@.take(i + 1).drop_last() =~= xs@.take(i as int));
            assert(xs@.take(i + 1).last() == xs@[i as int]);
        }
        if !contains_key(ys, xs[i].id.as_str()) {
            out.push(xs[i].duplicate());
        }
        i += 1;
    }
    proof {
        assert(xs@.take(xs@.len() as int) =~= xs@);
    }
    out
}

/// The keys of `xs` that `ys` lacks, in order.
fn keys_only_in<T: Keyed>(xs: &Vec<T>, ys: &Vec<T>) -> (res: Vec<String>)
    ensures
        views(res@) == key_views(only_in(xs@, ys@)),
{
    let mut out: Vec<String> = Vec::new();
    let mut i: usize = 0;
    while i < xs.len()
        invariant
            i <= xs@.len(),
            views(out@) == key_views(only_in(xs@.take(i as int), ys@)),
        decreases xs.len() - i,
    {
        proof {
            assert(xs@.take(i + 1).drop_last() =~= xs@.take(i as int));
            assert(xs@.take(i + 1).last() == xs@[i as int]);
        }
        let k = xs[i].key();
        if !contains_key(ys, k) {
            let ghost before = out@;
            out.push(string_from(k));
            proof {
                assert(views(out@) =~= views(before).push(k@));
                assert(key_views(only_in(xs@.take(i + 1), ys@)) =~= key_views(only_in(xs@.take(i as int), ys@)).push(k@));
            }
        }
        i += 1;
    }
    proof {
        assert(xs@.take(xs@.len() as int) =~= xs@);
    }
    out
}

/// What comparing `a` with `b` gives: the nodes only in `b` (added) and only in `a`
/// (removed), the change of each node in both that differs, and the var and check IDs
/// added and removed.
pub open spec fn diff_ok(a: Graph, b: Graph, res: GraphDiff) -> bool {
    &&& same_nodes(res.added@, only_in(b.nodes@, a.nodes@))
    &&& same_nodes(res.removed@, only_in(a.nodes@, b.nodes@))
    &&& res.changed@.len() == changed_pairs(a.nodes@, b.nodes@).len()
    &&& forall|i: int| 0 <= i < res.changed@.len() ==>
        change_of(#[trigger] res.changed@[i], changed_pairs(a.nodes@, b.nodes@)[i].0, changed_pairs(a.nodes@, b.nodes@)[i].1)
    &&& views(res.vars_added@) == key_views(only_in(b.vars@, a.vars@))
    &&& views(res.vars_removed@) == key_views(only_in(a.vars@, b.vars@))
    &&& views(res.checks_added@) == key_views(only_in(b.checks@, a.checks@))
    &&& views(res.checks_removed@) == key_views(only_in(a.checks@, b.checks@))
}

/// The ID-based difference from `a` to `b`: nodes added and removed, nodes whose edges or
/// fields changed (in ID order), vars and checks added and removed.
pub fn diff(a: &Graph, b: &Graph) -> (res: GraphDiff)
    ensures
        diff_ok(*a, *b, res),
{
    let added = nodes_only_in(&b.nodes, &a.nodes);
    let removed = nodes_only_in(&a.nodes, &b.nodes);
    let mut changed: Vec<NodeChange> = Vec::new();
    let mut i: usize = 0;
    while i < a.nodes.len()
        invariant
            i <= a.nodes@.len(),
            changed@.len() == changed_pairs(a.nodes@.take(i as int), b.nodes@).len(),
            forall|k: int| 0 <= k < changed@.len() ==>
                change_of(#[trigger] changed@[k], changed_pairs(a.nodes@.take(i as int), b.nodes@)[k].0,
                    changed_pairs(a.nodes@.take(i as int), b.nodes@)[k].1),
        decreases a.nodes.len() - i,
    {
        proof {
            assert(a.nodes@.take(i + 1).drop_last() =~= a.nodes@.take(i as int));
            assert(a.nodes@.take(i + 1).last() == a.nodes@[i as int]);
        }
        let x = &a.nodes[i];
        match find_key(&b.nodes, x.id.as_str()) {
            Some(j) => {
                match node_change(x, &b.nodes[j]) {
                    Some(c) => {
                        changed.push(c);
                    },
                    None => {},
                }
            },
            None => {},
        }
        i += 1;
    }
    proof {
        assert(a.nodes@.take(a.nodes@.len() as int) =~= a.nodes@);
    }
    GraphDiff {
        added,
        removed,
        changed,
        vars_added: keys_only_in(&b.vars, &a.vars),
        vars_removed: keys_only_in(&a.vars, &b.vars),
        checks_added: keys_only_in(&b.checks, &a.checks),
        checks_removed: keys_only_in(&a.checks, &b.checks),
    }
}

/// Per-namespace counts: nodes added and removed, edges added and removed.
#[derive(Debug)]
pub struct NsCount {
    pub ns: String,
    pub nodes_added: usize,
    pub nodes_removed: usize,
    pub edges_added: usize,
    pub edges_removed: usize,
}

impl Keyed for NsCount {
    open spec fn key_view(&self) -> Seq<char> {
        self.ns@
    }

    fn key(&self) -> (res: &str) {
        self.ns.as_str()
    }
}

/// `duflow diff --stat`: counts, overall and per namespace (first ID segment).
#[derive(Debug)]
pub struct DiffStat {
    pub nodes_added: usize,
    pub nodes_removed: usize,
    pub nodes_changed: usize,
    pub edges_added: usize,
    pub edges_removed: usize,
    /// Ordered by namespace.
    pub by_ns: Vec<NsCount>,
}

/// The namespace of an ID: its first segment.
pub open spec fn ns_of_spec(id: Seq<char>) -> Seq<char> {
    crate::text::split_on(id, '.')[0]
}

/// `ns` matches `k`, or no namespace is asked for.
pub open spec fn in_ns(ns: Option<Seq<char>>, id: Seq<char>) -> bool {
    match ns {
        Some(k) => ns_of_spec(id) == k,
        None => true,
    }
}

/// Nodes of `s` in namespace `ns` (all with `None`).
pub open spec fn count_nodes(ns: Option<Seq<char>>, s: Seq<Node>) -> nat
    decreases s.len(),
{
    if s.len() == 0 {
        0
    } else {
        count_nodes(ns, s.drop_last()) + if in_ns(ns, s.last().id@) { 1nat } else { 0nat }
    }
}

/// Edges of the nodes of `s` in namespace `ns`.
pub open spec fn count_edges(ns: Option<Seq<char>>, s: Seq<Node>) -> nat
    decreases s.len(),
{
    if s.len() == 0 {
        0
    } else {
        count_edges(ns, s.drop_last()) + if in_ns(ns, s.last().id@) { s.last().edges@.len() } else { 0nat }
    }
}

/// Edges added (`added`) or removed in the changes of namespace `ns`.
pub open spec fn count_changed_edges(ns: Option<Seq<char>>, cs: Seq<NodeChange>, added: bool) -> nat
    decreases cs.len(),
{
    if cs.len() == 0 {
        0
    } else {
        let c = cs.last();
        count_changed_edges(ns, cs.drop_last(), added) + if in_ns(ns, c.id@) {
            if added { c.edges_added@.len() } else { c.edges_removed@.len() }
        } else {
            0nat
        }
    }
}

/// Some node added, removed or changed lies in namespace `k`.
pub open spec fn ns_present(a: Seq<Node>, r: Seq<Node>, c: Seq<NodeChange>, k: Seq<char>) -> bool {
    ||| exists|i: int| 0 <= i < a.len() && ns_of_spec((#[trigger] a[i]).id@) == k
    ||| exists|i: int| 0 <= i < r.len() && ns_of_spec((#[trigger] r[i]).id@) == k
    ||| exists|i: int| 0 <= i < c.len() && ns_of_spec((#[trigger] c[i]).id@) == k
}

/// The counts of namespace `k`.
pub open spec fn ns_counts(a: Seq<Node>, r: Seq<Node>, c: Seq<NodeChange>, k: Seq<char>) -> (nat, nat, nat, nat) {
    (
        count_nodes(Some(k), a),
        count_nodes(Some(k), r),
        count_edges(Some(k), a) + count_changed_edges(Some(k), c, true),
        count_edges(Some(k), r) + count_changed_edges(Some(k), c, false),
    )
}

pub open spec fn counts_view(x: NsCount) -> (nat, nat, nat, nat) {
    (x.nodes_added as nat, x.nodes_removed as nat, x.edges_added as nat, x.edges_removed as nat)
}

/// The counts stored under `k` (zeros if none).
pub open spec fn counts_at(t: Seq<NsCount>, k: Seq<char>) -> (nat, nat, nat, nat) {
    match entry(t, k) {
        Some(x) => counts_view(x),
        None => (0, 0, 0, 0),
    }
}

/// The table holds exactly the namespaces present, each with its counts.
pub open spec fn ns_table(t: Seq<NsCount>, a: Seq<Node>, r: Seq<Node>, c: Seq<NodeChange>) -> bool {
    &&& crate::table::keys_sorted(t)
    &&& forall|k: Seq<char>| has_key(t, k) <==> ns_present(a, r, c, k)
    &&& forall|k: Seq<char>| #[trigger] counts_at(t, k) == ns_counts(a, r, c, k)
}

/// Everything counted fits a `usize`.
pub open spec fn stat_fits(d: GraphDiff) -> bool {
    d.added@.len() + d.removed@.len() + d.changed@.len() + count_edges(None, d.added@) + count_edges(None, d.removed@)
        + count_changed_edges(None, d.changed@, true) + count_changed_edges(None, d.changed@, false) <= usize::MAX
}

/// The namespace of an ID: its first segment.
pub fn ns_of(id: &str) -> (res: String)
    ensures
        res@ == ns_of_spec(id@),
{
    let segs = crate::text::split_chars(id, '.');
    proof {
        assert(segs@.map_values(|p: String| p@)[0] == segs@[0]@);
    }
    segs[0].clone()
}

pub open spec fn plus(x: (nat, nat, nat, nat), d: (usize, usize, usize, usize)) -> (nat, nat, nat, nat) {
    (x.0 + d.0 as nat, x.1 + d.1 as nat, x.2 + d.2 as nat, x.3 + d.3 as nat)
}

proof fn lemma_key_index_same_keys(s1: Seq<NsCount>, s2: Seq<NsCount>, k: Seq<char>)
    requires
        s1.len() == s2.len(),
        forall|i: int| 0 <= i < s1.len() ==> (#[trigger] s1[i]).key_view() == s2[i].key_view(),
    ensures
        crate::table::key_index(s1, k) == crate::table::key_index(s2, k),
    decreases s1.len(),
{
    if s1.len() > 0 {
        assert(s1[0].key_view() == s2[0].key_view());
        assert forall|i: int| 0 <= i < s1.drop_first().len() implies (#[trigger] s1.drop_first()[i]).key_view() == s2.drop_first()[i].key_view() by {
            assert(s1.drop_first()[i] == s1[i + 1] && s2.drop_first()[i] == s2[i + 1]);
        }
        lemma_key_index_same_keys(s1.drop_first(), s2.drop_first(), k);
    }
}

/// Adds `d` to the counts of namespace `ns`, creating its row if needed.
fn bump(t: &mut Vec<NsCount>, ns: &str, d: (usize, usize, usize, usize))
    requires
        crate::table::keys_sorted(old(t)@),
        counts_at(old(t)@, ns@).0 + d.0 <= usize::MAX,
        counts_at(old(t)@, ns@).1 + d.1 <= usize::MAX,
        counts_at(old(t)@, ns@).2 + d.2 <= usize::MAX,
        counts_at(old(t)@, ns@).3 + d.3 <= usize::MAX,
    ensures
        crate::table::keys_sorted(final(t)@),
        forall|k: Seq<char>| has_key(final(t)@, k) <==> (has_key(old(t)@, k) || k == ns@),
        forall|k: Seq<char>| #[trigger] counts_at(final(t)@, k) == if k == ns@ { plus(counts_at(old(t)@, k), d) } else { counts_at(old(t)@, k) },
{
    let ghost t0 = t@;
    match find_key(t, ns) {
        Some(i) => {
            let x = NsCount {
                ns: t[i].ns.clone(),
                nodes_added: t[i].nodes_added + d.0,
                nodes_removed: t[i].nodes_removed + d.1,
                edges_added: t[i].edges_added + d.2,
                edges_removed: t[i].edges_removed + d.3,
            };
            t.set(i, x);
            proof {
                let t1 = t@;
                assert forall|j: int| 0 <= j < t1.len() implies (#[trigger] t1[j]).key_view() == t0[j].key_view() by {}
                assert(crate::table::keys(t1) =~= crate::table::keys(t0)) by {
                    assert forall|j: int| 0 <= j < t1.len() implies crate::table::keys(t1)[j] == crate::table::keys(t0)[j] by {
                        assert(t1[j].key_view() == t0[j].key_view());
                    }
                }
                assert forall|k: Seq<char>| has_key(t1, k) <==> (has_key(t0, k) || k == ns@) by {
                    if has_key(t1, k) {
                        let j = choose|j: int| 0 <= j < t1.len() && (#[trigger] t1[j]).key_view() == k;
                        assert(t0[j].key_view() == k);
                    }
                    if has_key(t0, k) {
                        let j = choose|j: int| 0 <= j < t0.len() && (#[trigger] t0[j]).key_view() == k;
                        assert(t1[j].key_view() == k);
                    }
                }
                assert forall|k: Seq<char>| #[trigger] counts_at(t1, k) == if k == ns@ { plus(counts_at(t0, k), d) } else { counts_at(t0, k) } by {
                    lemma_key_index_same_keys(t1, t0, k);
                    lemma_key_index(t0, k);
                }
            }
        },
        None => {
            let x = NsCount { ns: string_from(ns), nodes_added: d.0, nodes_removed: d.1, edges_added: d.2, edges_removed: d.3 };
            let _ = crate::table::insert_new(t, x);
            proof {
                let i = choose|i: int| 0 <= i <= t0.len() && t@ == t0.insert(i, x);
                assert forall|k: Seq<char>| #[trigger] counts_at(t@, k) == if k == ns@ { plus(counts_at(t0, k), d) } else { counts_at(t0, k) } by {
                    crate::table::lemma_entry_insert(t0, i, x, k);
                    lemma_key_index(t0, k);
                }
                assert forall|k: Seq<char>| has_key(t@, k) <==> (has_key(t0, k) || k == ns@) by {
                    crate::table::lemma_entry_insert(t0, i, x, k);
                    lemma_key_index(t0, k);
                    lemma_key_index(t@, k);
                }
            }
        },
    }
}

proof fn lemma_counts_bounded(k: Seq<char>, s: Seq<Node>, cs: Seq<NodeChange>)
    ensures
        count_nodes(Some(k), s) <= count_nodes(None, s),
        count_edges(Some(k), s) <= count_edges(None, s),
        count_changed_edges(Some(k), cs, true) <= count_changed_edges(None, cs, true),
        count_changed_edges(Some(k), cs, false) <= count_changed_edges(None, cs, false),
        count_nodes(None, s) == s.len(),
    decreases s.len() + cs.len(),
{
    if s.len() > 0 {
        lemma_counts_bounded(k, s.drop_last(), cs);
    }
    if cs.len() > 0 {
        lemma_counts_bounded(k, s, cs.drop_last());
    }
}

proof fn lemma_counts_prefix(s: Seq<Node>, cs: Seq<NodeChange>, i: int, j: int)
    requires
        0 <= i <= s.len(),
        0 <= j <= cs.len(),
    ensures
        count_edges(None, s.take(i)) <= count_edges(None, s),
        count_changed_edges(None, cs.take(j), true) <= count_changed_edges(None, cs, true),
        count_changed_edges(None, cs.take(j), false) <= count_changed_edges(None, cs, false),
    decreases s.len() + cs.len(),
{
    if i < s.len() {
        assert(s.drop_last().take(i) =~= s.take(i));
        lemma_counts_prefix(s.drop_last(), cs, i, j);
    } else {
        assert(s.take(i) =~= s);
        if j < cs.len() {
            assert(cs.drop_last().take(j) =~= cs.take(j));
            lemma_counts_prefix(s, cs.drop_last(), i, j);
        } else {
            assert(cs.take(j) =~= cs);
        }
    }
}

proof fn lemma_push_added(a: Seq<Node>, r: Seq<Node>, c: Seq<NodeChange>, n: Node, k: Seq<char>)
    ensures
        ns_counts(a.push(n), r, c, k).0 == ns_counts(a, r, c, k).0 + if ns_of_spec(n.id@) == k { 1nat } else { 0nat },
        ns_counts(a.push(n), r, c, k).1 == ns_counts(a, r, c, k).1,
        ns_counts(a.push(n), r, c, k).2 == ns_counts(a, r, c, k).2 + if ns_of_spec(n.id@) == k { n.edges@.len() } else { 0nat },
        ns_counts(a.push(n), r, c, k).3 == ns_counts(a, r, c, k).3,
        ns_present(a.push(n), r, c, k) == (ns_present(a, r, c, k) || ns_of_spec(n.id@) == k),
{
    let a2 = a.push(n);
    assert(a2.drop_last() =~= a);
    if ns_present(a2, r, c, k) && !ns_present(a, r, c, k) && ns_of_spec(n.id@) != k {
        let i = choose|i: int| 0 <= i < a2.len() && ns_of_spec((#[trigger] a2[i]).id@) == k;
        assert(a2[i] == a[i]);
    }
    if ns_present(a, r, c, k) {
        if exists|i: int| 0 <= i < a.len() && ns_of_spec((#[trigger] a[i]).id@) == k {
            let i = choose|i: int| 0 <= i < a.len() && ns_of_spec((#[trigger] a[i]).id@) == k;
            assert(a2[i] == a[i]);
        }
    }
    if ns_of_spec(n.id@) == k {
        assert(a2[a.len() as int] == n);
    }
}

proof fn lemma_push_removed(a: Seq<Node>, r: Seq<Node>, c: Seq<NodeChange>, n: Node, k: Seq<char>)
    ensures
        ns_counts(a, r.push(n), c, k).0 == ns_counts(a, r, c, k).0,
        ns_counts(a, r.push(n), c, k).1 == ns_counts(a, r, c, k).1 + if ns_of_spec(n.id@) == k { 1nat } else { 0nat },
        ns_counts(a, r.push(n), c, k).2 == ns_counts(a, r, c, k).2,
        ns_counts(a, r.push(n), c, k).3 == ns_counts(a, r, c, k).3 + if ns_of_spec(n.id@) == k { n.edges@.len() } else { 0nat },
        ns_present(a, r.push(n), c, k) == (ns_present(a, r, c, k) || ns_of_spec(n.id@) == k),
{
    let r2 = r.push(n);
    assert(r2.drop_last() =~= r);
    if ns_present(a, r2, c, k) && !ns_present(a, r, c, k) && ns_of_spec(n.id@) != k {
        let i = choose|i: int| 0 <= i < r2.len() && ns_of_spec((#[trigger] r2[i]).id@) == k;
        assert(r2[i] == r[i]);
    }
    if ns_present(a, r, c, k) {
        if exists|i: int| 0 <= i < r.len() && ns_of_spec((#[trigger] r[i]).id@) == k {
            let i = choose|i: int| 0 <= i < r.len() && ns_of_spec((#[trigger] r[i]).id@) == k;
            assert(r2[i] == r[i]);
        }
    }
    if ns_of_spec(n.id@) == k {
        assert(r2[r.len() as int] == n);
    }
}

proof fn lemma_push_changed(a: Seq<Node>, r: Seq<Node>, c: Seq<NodeChange>, x: NodeChange, k: Seq<char>)
    ensures
        ns_counts(a, r, c.push(x), k).0 == ns_counts(a, r, c, k).0,
        ns_counts(a, r, c.push(x), k).1 == ns_counts(a, r, c, k).1,
        ns_counts(a, r, c.push(x), k).2 == ns_counts(a, r, c, k).2 + if ns_of_spec(x.id@) == k { x.edges_added@.len() } else { 0nat },
        ns_counts(a, r, c.push(x), k).3 == ns_counts(a, r, c, k).3 + if ns_of_spec(x.id@) == k { x.edges_removed@.len() } else { 0nat },
        ns_present(a, r, c.push(x), k) == (ns_present(a, r, c, k) || ns_of_spec(x.id@) == k),
{
    let c2 = c.push(x);
    assert(c2.drop_last() =~= c);
    if ns_present(a, r, c2, k) && !ns_present(a, r, c, k) && ns_of_spec(x.id@) != k {
        let i = choose|i: int| 0 <= i < c2.len() && ns_of_spec((#[trigger] c2[i]).id@) == k;
        assert(c2[i] == c[i]);
    }
    if ns_present(a, r, c, k) {
        if exists|i: int| 0 <= i < c.len() && ns_of_spec((#[trigger] c[i]).id@) == k {
            let i = choose|i: int| 0 <= i < c.len() && ns_of_spec((#[trigger] c[i]).id@) == k;
            assert(c2[i] == c[i]);
        }
    }
    if ns_of_spec(x.id@) == k {
        assert(c2[c.len() as int] == x);
    }
}

impl GraphDiff {
    /// Counts, overall and per namespace: nodes added, removed and changed; edges added
    /// (with added nodes, and added to changed nodes) and removed likewise.
    pub fn stat(&self) -> (res: DiffStat)
        requires
            stat_fits(*self),
        ensures
            res.nodes_added == self.added@.len(),
            res.nodes_removed == self.removed@.len(),
            res.nodes_changed == self.changed@.len(),
            res.edges_added == count_edges(None, self.added@) + count_changed_edges(None, self.changed@, true),
            res.edges_removed == count_edges(None, self.removed@) + count_changed_edges(None, self.changed@, false),
            ns_table(res.by_ns@, self.added@, self.removed@, self.changed@),
    {
        let ghost a = self.added@;
        let ghost r = self.removed@;
        let ghost c = self.changed@;
        let ghost e0 = Seq::<Node>::empty();
        let ghost c0 = Seq::<NodeChange>::empty();
        let mut st = DiffStat { nodes_added: 0, nodes_removed: 0, nodes_changed: 0, edges_added: 0, edges_removed: 0, by_ns: Vec::new() };
        proof {
            assert forall|k: Seq<char>| #[trigger] counts_at(st.by_ns@, k) == ns_counts(e0, e0, c0, k) by {
                lemma_key_index(st.by_ns@, k);
            }
            assert forall|k: Seq<char>| has_key(st.by_ns@, k) <==> ns_present(e0, e0, c0, k) by {}
            lemma_counts_bounded(Seq::<char>::empty(), a, c);
            lemma_counts_bounded(Seq::<char>::empty(), r, c);
        }
        let mut i: usize = 0;
        while i < self.added.len()
            invariant
                stat_fits(*self),
                a == self.added@, r == self.removed@, c == self.changed@,
                e0 == Seq::<Node>::empty(), c0 == Seq::<NodeChange>::empty(),
                i <= a.len(),
                st.nodes_added == i, st.nodes_removed == 0, st.nodes_changed == 0,
                st.edges_added == count_edges(None, a.take(i as int)), st.edges_removed == 0,
                ns_table(st.by_ns@, a.take(i as int), e0, c0),
            decreases a.len() - i,
        {
            let n = &self.added[i];
            let ns = ns_of(n.id.as_str());
            let ghost t = a.take(i as int);
            proof {
                assert(a.take(i + 1) =~= t.push(*n));
                assert(a.take(i + 1).drop_last() =~= t);
                assert(a.take(i + 1).last() == *n);
                lemma_counts_prefix(a, c, i + 1, 0);
                lemma_counts_bounded(ns@, a.take(i + 1), c0);
                lemma_push_added(t, e0, c0, *n, ns@);
                assert(count_edges(None, a.take(i + 1)) == count_edges(None, t) + n.edges@.len());
            }
            st.nodes_added += 1;
            st.edges_added += n.edges.len();
            bump(&mut st.by_ns, ns.as_str(), (1, 0, n.edges.len(), 0));
            proof {
                assert forall|k: Seq<char>| #[trigger] counts_at(st.by_ns@, k) == ns_counts(a.take(i + 1), e0, c0, k) by {
                    lemma_push_added(t, e0, c0, *n, k);
                }
                assert forall|k: Seq<char>| has_key(st.by_ns@, k) <==> ns_present(a.take(i + 1), e0, c0, k) by {
                    lemma_push_added(t, e0, c0, *n, k);
                }
            }
            i += 1;
        }
        proof {
            assert(a.take(a.len() as int) =~= a);
        }
        let mut j: usize = 0;
        while j < self.removed.len()
            invariant
                stat_fits(*self),
                a == self.added@, r == self.removed@, c == self.changed@,
                c0 == Seq::<NodeChange>::empty(),
                j <= r.len(),
                st.nodes_added == a.len(), st.nodes_removed == j, st.nodes_changed == 0,
                st.edges_added == count_edges(None, a), st.edges_removed == count_edges(None, r.take(j as int)),
                ns_table(st.by_ns@, a, r.take(j as int), c0),
            decreases r.len() - j,
        {
            let n = &self.removed[j];
            let ns = ns_of(n.id.as_str());
            let ghost t = r.take(j as int);
            proof {
                assert(r.take(j + 1) =~= t.push(*n));
                assert(r.take(j + 1).drop_last() =~= t);
                assert(r.take(j + 1).last() == *n);
                lemma_counts_prefix(r, c, j + 1, 0);
                lemma_counts_bounded(ns@, r.take(j + 1), c0);
                lemma_counts_bounded(ns@, a, c0);
                lemma_push_removed(a, t, c0, *n, ns@);
                assert(count_edges(None, r.take(j + 1)) == count_edges(None, t) + n.edges@.len());
            }
            st.nodes_removed += 1;
            st.edges_removed += n.edges.len();
            bump(&mut st.by_ns, ns.as_str(), (0, 1, 0, n.edges.len()));
            proof {
                assert forall|k: Seq<char>| #[trigger] counts_at(st.by_ns@, k) == ns_counts(a, r.take(j + 1), c0, k) by {
                    lemma_push_removed(a, t, c0, *n, k);
                }
                assert forall|k: Seq<char>| has_key(st.by_ns@, k) <==> ns_present(a, r.take(j + 1), c0, k) by {
                    lemma_push_removed(a, t, c0, *n, k);
                }
            }
            j += 1;
        }
        proof {
            assert(r.take(r.len() as int) =~= r);
        }
        let mut k: usize = 0;
        while k < self.changed.len()
            invariant
                stat_fits(*self),
                a == self.added@, r == self.removed@, c == self.changed@,
                k <= c.len(),
                st.nodes_added == a.len(), st.nodes_removed == r.len(), st.nodes_changed == k,
                st.edges_added == count_edges(None, a) + count_changed_edges(None, c.take(k as int), true),
                st.edges_removed == count_edges(None, r) + count_changed_edges(None, c.take(k as int), false),
                ns_table(st.by_ns@, a, r, c.take(k as int)),
            decreases c.len() - k,
        {
            let x = &self.changed[k];
            let ns = ns_of(x.id.as_str());
            let ghost t = c.take(k as int);
            proof {
                assert(c.take(k + 1) =~= t.push(*x));
                assert(c.take(k + 1).drop_last() =~= t);
                assert(c.take(k + 1).last() == *x);
                lemma_counts_prefix(a, c, 0, k + 1);
                lemma_counts_bounded(ns@, a, c.take(k + 1));
                lemma_counts_bounded(ns@, r, c.take(k + 1));
                lemma_push_changed(a, r, t, *x, ns@);
                assert(count_changed_edges(None, c.take(k + 1), true) == count_changed_edges(None, t, true) + x.edges_added@.len());
                assert(count_changed_edges(None, c.take(k + 1), false) == count_changed_edges(None, t, false) + x.edges_removed@.len());
            }
            st.nodes_changed += 1;
            st.edges_added += x.edges_added.len();
            st.edges_removed += x.edges_removed.len();
            bump(&mut st.by_ns, ns.as_str(), (0, 0, x.edges_added.len(), x.edges_removed.len()));
            proof {
                assert forall|q: Seq<char>| #[trigger] counts_at(st.by_ns@, q) == ns_counts(a, r, c.take(k + 1), q) by {
                    lemma_push_changed(a, r, t, *x, q);
                }
                assert forall|q: Seq<char>| has_key(st.by_ns@, q) <==> ns_present(a, r, c.take(k + 1), q) by {
                    lemma_push_changed(a, r, t, *x, q);
                }
            }
            k += 1;
        }
        proof {
            assert(c.take(c.len() as int) =~= c);
        }
        st
    }

    /// Nothing added, removed or changed.
    pub open spec fn empty_spec(&self) -> bool {
        self.added@.len() == 0 && self.removed@.len() == 0 && self.changed@.len() == 0
            && self.vars_added@.len() == 0 && self.vars_removed@.len() == 0
            && self.checks_added@.len() == 0 && self.checks_removed@.len() == 0
    }

    /// Nothing added, removed or changed.
    pub fn is_empty(&self) -> (res: bool)
        ensures
            res == self.empty_spec(),
    {
        self.added.len() == 0 && self.removed.len() == 0 && self.changed.len() == 0 && self.vars_added.len() == 0
            && self.vars_removed.len() == 0 && self.checks_added.len() == 0 && self.checks_removed.len() == 0
    }
}

/// `n` spaces.
pub open spec fn spaces(n: int) -> Seq<char> {
    Seq::new(if n > 0 { n as nat } else { 0 }, |i: int| ' ')
}

/// `s` padded with spaces on the right to `w` characters (`{:<w}`).
pub open spec fn pad_right(s: Seq<char>, w: int) -> Seq<char> {
    s + spaces(w - s.len())
}

/// `s` padded with spaces on the left to `w` characters (`{:>w}`).
pub open spec fn pad_left(s: Seq<char>, w: int) -> Seq<char> {
    spaces(w - s.len()) + s
}

fn spaces_string(n: usize) -> (res: String)
    ensures
        res@ == spaces(n as int),
{
    let mut s = String::new();
    let mut i: usize = 0;
    while i < n
        invariant
            i <= n,
            s@ == spaces(i as int),
        decreases n - i,
    {
        push_char(&mut s, ' ');
        i += 1;
        proof {
            assert(s@ =~= spaces(i as int));
        }
    }
    s
}

fn pad_right_string(t: &str, w: usize) -> (res: String)
    ensures
        res@ == pad_right(t@, w as int),
{
    let n = t.unicode_len();
    let mut s = string_from(t);
    if n < w {
        let p = spaces_string(w - n);
        push_str(&mut s, p.as_str());
    } else {
        proof {
            assert(spaces(w - t@.len()) =~= Seq::<char>::empty());
        }
        push_str(&mut s, "");
        proof {
            reveal_strlit("");
            assert(s@ =~= t@ + spaces(w - t@.len()));
        }
    }
    s
}

fn pad_left_string(t: &str, w: usize) -> (res: String)
    ensures
        res@ == pad_left(t@, w as int),
{
    let n = t.unicode_len();
    let mut s = if n < w { spaces_string(w - n) } else { String::new() };
    proof {
        assert(spaces(w - t@.len()) =~= s@);
    }
    push_str(&mut s, t);
    s
}

/// One table row: the namespace and its four counts.
pub open spec fn stat_row(x: NsCount) -> Seq<char> {
    pad_right(x.ns@, 16) + " "@ + pad_left(dec(x.nodes_added as nat), 7) + " "@ + pad_left(dec(x.nodes_removed as nat), 7)
        + " "@ + pad_left(dec(x.edges_added as nat), 7) + " "@ + pad_left(dec(x.edges_removed as nat), 7) + "\n"@
}

pub open spec fn stat_rows(t: Seq<NsCount>) -> Seq<char>
    decreases t.len(),
{
    if t.len() == 0 { Seq::<char>::empty() } else { stat_rows(t.drop_last()) + stat_row(t.last()) }
}

/// `nodes +a -r ~c · edges +a -r`, then, if there are namespaces, a table of them.
pub open spec fn stat_text(st: DiffStat) -> Seq<char> {
    let head = "nodes +"@ + dec(st.nodes_added as nat) + " -"@ + dec(st.nodes_removed as nat) + " ~"@ + dec(st.nodes_changed as nat)
        + " · edges +"@ + dec(st.edges_added as nat) + " -"@ + dec(st.edges_removed as nat) + "\n"@;
    if st.by_ns@.len() == 0 {
        head
    } else {
        head + pad_right("ns"@, 16) + " "@ + pad_left("node+"@, 7) + " "@ + pad_left("node-"@, 7) + " "@ + pad_left("edge+"@, 7)
            + " "@ + pad_left("edge-"@, 7) + "\n"@ + stat_rows(st.by_ns@)
    }
}

fn push_num(s: &mut String, n: usize)
    ensures
        final(s)@ == old(s)@ + dec(n as nat),
{
    let d = dec_string(n as u64);
    push_str(s, d.as_str());
}

fn push_cell(s: &mut String, n: usize)
    ensures
        final(s)@ == old(s)@ + " "@ + pad_left(dec(n as nat), 7),
{
    push_str(s, " ");
    let d = dec_string(n as u64);
    let c = pad_left_string(d.as_str(), 7);
    push_str(s, c.as_str());
}

fn push_head_cell(s: &mut String, t: &str)
    ensures
        final(s)@ == old(s)@ + " "@ + pad_left(t@, 7),
{
    push_str(s, " ");
    let c = pad_left_string(t, 7);
    push_str(s, c.as_str());
}

impl DiffStat {
    /// The counts as text: a summary line, then a table by namespace.
    pub fn to_text(&self) -> (res: String)
        ensures
            res@ == stat_text(*self),
    {
        let mut s = string_from("nodes +");
        push_num(&mut s, self.nodes_added);
        push_str(&mut s, " -");
        push_num(&mut s, self.nodes_removed);
        push_str(&mut s, " ~");
        push_num(&mut s, self.nodes_changed);
        push_str(&mut s, " · edges +");
        push_num(&mut s, self.edges_added);
        push_str(&mut s, " -");
        push_num(&mut s, self.edges_removed);
        push_str(&mut s, "\n");
        if self.by_ns.len() > 0 {
            let h = pad_right_string("ns", 16);
            push_str(&mut s, h.as_str());
            push_head_cell(&mut s, "node+");
            push_head_cell(&mut s, "node-");
            push_head_cell(&mut s, "edge+");
            push_head_cell(&mut s, "edge-");
            push_str(&mut s, "\n");
            let ghost base = s@;
            let mut i: usize = 0;
            while i < self.by_ns.len()
                invariant
                    i <= self.by_ns@.len(),
                    s@ == base + stat_rows(self.by_ns@.take(i as int)),
                decreases self.by_ns.len() - i,
            {
                proof {
                    assert(self.by_ns@.take(i + 1).drop_last() =~= self.by_ns@.take(i as int));
                    assert(self.by_ns@.take(i + 1).last() == self.by_ns@[i as int]);
                }
                let x = &self.by_ns[i];
                let ghost before = s@;
                let name = pad_right_string(x.ns.as_str(), 16);
                push_str(&mut s, name.as_str());
                push_cell(&mut s, x.nodes_added);
                push_cell(&mut s, x.nodes_removed);
                push_cell(&mut s, x.edges_added);
                push_cell(&mut s, x.edges_removed);
                push_str(&mut s, "\n");
                proof {
                    assert(s@ =~= before + stat_row(*x));
                }
                i += 1;
            }
            proof {
                assert(self.by_ns@.take(self.by_ns@.len() as int) =~= self.by_ns@);
            }
        }
        s
    }

    /// The counts of one namespace: nodes added and removed, edges added and removed.
    pub fn ns_counts(&self, ns: &str) -> (res: Option<(usize, usize, usize, usize)>)
        ensures
            match res {
                Some(c) => entry(self.by_ns@, ns@) matches Some(x) && c == (x.nodes_added, x.nodes_removed, x.edges_added, x.edges_removed),
                None => entry(self.by_ns@, ns@) is None,
            },
    {
        match find_key(&self.by_ns, ns) {
            Some(i) => {
                let x = &self.by_ns[i];
                Some((x.nodes_added, x.nodes_removed, x.edges_added, x.edges_removed))
            },
            None => None,
        }
    }
}

pub open spec fn desc_text(n: Node) -> Seq<char> {
    match n.desc {
        Some(d) => d@,
        None => Seq::<char>::empty(),
    }
}

pub open spec fn added_lines(ns: Seq<Node>) -> Seq<char>
    decreases ns.len(),
{
    if ns.len() == 0 {
        Seq::<char>::empty()
    } else {
        let n = ns.last();
        added_lines(ns.drop_last()) + "+ "@ + n.id@ + " ("@ + kind_name(n.kind) + ") "@ + desc_text(n) + "\n"@
    }
}

pub open spec fn removed_lines(ns: Seq<Node>) -> Seq<char>
    decreases ns.len(),
{
    if ns.len() == 0 {
        Seq::<char>::empty()
    } else {
        let n = ns.last();
        removed_lines(ns.drop_last()) + "- "@ + n.id@ + " ("@ + kind_name(n.kind) + ")\n"@
    }
}

pub open spec fn edge_lines(prefix: Seq<char>, es: Seq<Edge>) -> Seq<char>
    decreases es.len(),
{
    if es.len() == 0 {
        Seq::<char>::empty()
    } else {
        let e = es.last();
        edge_lines(prefix, es.drop_last()) + prefix + e.to@ + " "@ + edge_label(e) + "\n"@
    }
}

pub open spec fn change_line(c: NodeChange) -> Seq<char> {
    "~ "@ + c.id@ + (if c.fields@.len() > 0 { " ["@ + join(views(c.fields@), ", "@) + "]"@ } else { Seq::<char>::empty() }) + "\n"@
        + edge_lines("    + → "@, c.edges_added@) + edge_lines("    - → "@, c.edges_removed@)
}

pub open spec fn change_lines(cs: Seq<NodeChange>) -> Seq<char>
    decreases cs.len(),
{
    if cs.len() == 0 {
        Seq::<char>::empty()
    } else {
        change_lines(cs.drop_last()) + change_line(cs.last())
    }
}

pub open spec fn name_lines(prefix: Seq<char>, vs: Seq<Seq<char>>) -> Seq<char>
    decreases vs.len(),
{
    if vs.len() == 0 {
        Seq::<char>::empty()
    } else {
        name_lines(prefix, vs.drop_last()) + prefix + vs.last() + "\n"@
    }
}

/// The difference as text, one line per item (`fark yok` when there is none).
pub open spec fn diff_text(d: GraphDiff) -> Seq<char> {
    let t = added_lines(d.added@) + removed_lines(d.removed@) + change_lines(d.changed@)
        + name_lines("+ var "@, views(d.vars_added@)) + name_lines("- var "@, views(d.vars_removed@))
        + name_lines("+ check "@, views(d.checks_added@)) + name_lines("- check "@, views(d.checks_removed@));
    if t.len() == 0 { "fark yok\n"@ } else { t }
}

fn push_edge_lines(s: &mut String, prefix: &str, es: &Vec<Edge>)
    ensures
        final(s)@ == old(s)@ + edge_lines(prefix@, es@),
{
    let mut i: usize = 0;
    while i < es.len()
        invariant
            i <= es@.len(),
            s@ == old(s)@ + edge_lines(prefix@, es@.take(i as int)),
        decreases es.len() - i,
    {
        proof {
            assert(es@.take(i + 1).drop_last() =~= es@.take(i as int));
            assert(es@.take(i + 1).last() == es@[i as int]);
        }
        let ghost before = s@;
        push_str(s, prefix);
        push_str(s, es[i].to.as_str());
        push_str(s, " ");
        let l = es[i].label();
        push_str(s, l.as_str());
        push_str(s, "\n");
        proof {
            assert(s@ =~= before + (prefix@ + es@[i as int].to@ + " "@ + edge_label(es@[i as int]) + "\n"@));
        }
        i += 1;
    }
    proof {
        assert(es@.take(es@.len() as int) =~= es@);
    }
}

fn push_name_lines(s: &mut String, prefix: &str, vs: &Vec<String>)
    ensures
        final(s)@ == old(s)@ + name_lines(prefix@, views(vs@)),
{
    let ghost vv = views(vs@);
    let mut i: usize = 0;
    while i < vs.len()
        invariant
            i <= vs@.len(),
            vv == views(vs@),
            s@ == old(s)@ + name_lines(prefix@, vv.take(i as int)),
        decreases vs.len() - i,
    {
        proof {
            assert(vv.take(i + 1).drop_last() =~= vv.take(i as int));
            assert(vv.take(i + 1).last() == vs@[i as int]@);
        }
        let ghost before = s@;
        push_str(s, prefix);
        push_str(s, vs[i].as_str());
        push_str(s, "\n");
        proof {
            assert(s@ =~= before + (prefix@ + vs@[i as int]@ + "\n"@));
        }
        i += 1;
    }
    proof {
        assert(vv.take(vs@.len() as int) =~= vv);
    }
}

impl GraphDiff {
    /// The difference as text: `+ id (kind) desc`, `- id (kind)`, `~ id [fields]` with the
    /// edges added and removed, then vars and checks; `fark yok` when nothing differs.
    pub fn to_text(&self) -> (res: String)
        ensures
            res@ == diff_text(*self),
    {
        let mut s = String::new();
        let mut i: usize = 0;
        while i < self.added.len()
            invariant
                i <= self.added@.len(),
                s@ == added_lines(self.added@.take(i as int)),
            decreases self.added.len() - i,
        {
            proof {
                assert(self.added@.take(i + 1).drop_last() =~= self.added@.take(i as int));
                assert(self.added@.take(i + 1).last() == self.added@[i as int]);
            }
            let n = &self.added[i];
            let ghost before = s@;
            push_str(&mut s, "+ ");
            push_str(&mut s, n.id.as_str());
            push_str(&mut s, " (");
            push_str(&mut s, n.kind.as_str());
            push_str(&mut s, ") ");
            match &n.desc {
                Some(d) => push_str(&mut s, d.as_str()),
                None => {},
            }
            push_str(&mut s, "\n");
            proof {
                assert(s@ =~= before + "+ "@ + n.id@ + " ("@ + kind_name(n.kind) + ") "@ + desc_text(*n) + "\n"@);
            }
            i += 1;
        }
        proof {
            assert(self.added@.take(self.added@.len() as int) =~= self.added@);
        }
        let ghost a = s@;
        let mut j: usize = 0;
        while j < self.removed.len()
            invariant
                j <= self.removed@.len(),
                s@ == a + removed_lines(self.removed@.take(j as int)),
            decreases self.removed.len() - j,
        {
            proof {
                assert(self.removed@.take(j + 1).drop_last() =~= self.removed@.take(j as int));
                assert(self.removed@.take(j + 1).last() == self.removed@[j as int]);
            }
            let n = &self.removed[j];
            let ghost before = s@;
            push_str(&mut s, "- ");
            push_str(&mut s, n.id.as_str());
            push_str(&mut s, " (");
            push_str(&mut s, n.kind.as_str());
            push_str(&mut s, ")\n");
            proof {
                assert(s@ =~= before + "- "@ + n.id@ + " ("@ + kind_name(n.kind) + ")\n"@);
            }
            j += 1;
        }
        proof {
            assert(self.removed@.take(self.removed@.len() as int) =~= self.removed@);
        }
        let ghost b = s@;
        let mut k: usize = 0;
        while k < self.changed.len()
            invariant
                k <= self.changed@.len(),
                s@ == b + change_lines(self.changed@.take(k as int)),
            decreases self.changed.len() - k,
        {
            proof {
                assert(self.changed@.take(k + 1).drop_last() =~= self.changed@.take(k as int));
                assert(self.changed@.take(k + 1).last() == self.changed@[k as int]);
            }
            let c = &self.changed[k];
            let ghost before = s@;
            push_str(&mut s, "~ ");
            push_str(&mut s, c.id.as_str());
            if c.fields.len() > 0 {
                push_str(&mut s, " [");
                let f = join_strings(&c.fields, ", ");
                push_str(&mut s, f.as_str());
                push_str(&mut s, "]");
            }
            push_str(&mut s, "\n");
            push_edge_lines(&mut s, "    + → ", &c.edges_added);
            push_edge_lines(&mut s, "    - → ", &c.edges_removed);
            proof {
                assert(s@ =~= before + change_line(*c));
            }
            k += 1;
        }
        proof {
            assert(self.changed@.take(self.changed@.len() as int) =~= self.changed@);
        }
        push_name_lines(&mut s, "+ var ", &self.vars_added);
        push_name_lines(&mut s, "- var ", &self.vars_removed);
        push_name_lines(&mut s, "+ check ", &self.checks_added);
        push_name_lines(&mut s, "- check ", &self.checks_removed);
        if s.as_str().unicode_len() == 0 {
            return string_from("fark yok\n");
        }
        s
    }
}

proof fn lemma_only_in_self<T: Keyed>(s: Seq<T>, t: Seq<T>)
    requires
        forall|i: int| 0 <= i < s.len() ==> has_key(t, (#[trigger] s[i]).key_view()),
    ensures
        only_in(s, t).len() == 0,
    decreases s.len(),
{
    if s.len() > 0 {
        assert(s.last() == s[s.len() - 1]);
        assert forall|i: int| 0 <= i < s.drop_last().len() implies has_key(t, (#[trigger] s.drop_last()[i]).key_view()) by {
            assert(s.drop_last()[i] == s[i]);
        }
        lemma_only_in_self(s.drop_last(), t);
    }
}

proof fn lemma_unmatched_self(es: Seq<Edge>, fs: Seq<Edge>)
    requires
        forall|i: int| 0 <= i < es.len() ==> fs.contains(#[trigger] es[i]),
    ensures
        unmatched(es, fs).len() == 0,
    decreases es.len(),
{
    if es.len() > 0 {
        let e = es.last();
        assert(fs.contains(es[es.len() - 1]));
        let j = choose|j: int| 0 <= j < fs.len() && fs[j] == e;
        assert(edge_same(e, fs[j]));
        assert forall|i: int| 0 <= i < es.drop_last().len() implies fs.contains(#[trigger] es.drop_last()[i]) by {
            assert(es.drop_last()[i] == es[i]);
        }
        lemma_unmatched_self(es.drop_last(), fs);
    }
}

proof fn lemma_changed_pairs_self(s: Seq<Node>, all: Seq<Node>)
    requires
        crate::table::keys_sorted(all),
        forall|i: int| 0 <= i < s.len() ==> all.contains(#[trigger] s[i]),
    ensures
        changed_pairs(s, all).len() == 0,
    decreases s.len(),
{
    if s.len() > 0 {
        let x = s.last();
        assert(all.contains(s[s.len() - 1]));
        let j = choose|j: int| 0 <= j < all.len() && all[j] == x;
        crate::table::lemma_key_unique(all, x.id@, j);
        assert(entry(all, x.id@) == Some(x));
        assert forall|i: int| 0 <= i < x.edges@.len() implies x.edges@.contains(#[trigger] x.edges@[i]) by {}
        lemma_unmatched_self(x.edges@, x.edges@);
        assert(!has_change(x, x));
        assert forall|i: int| 0 <= i < s.drop_last().len() implies all.contains(#[trigger] s.drop_last()[i]) by {
            assert(s.drop_last()[i] == s[i]);
        }
        lemma_changed_pairs_self(s.drop_last(), all);
    }
}

/// A graph compared with itself shows no difference: what `diff(g, g)` gives is empty.
pub proof fn lemma_diff_self(g: Graph, d: GraphDiff)
    requires
        g.tables_ok(),
        diff_ok(g, g, d),
    ensures
        d.empty_spec(),
{
    assert forall|i: int| 0 <= i < g.nodes@.len() implies has_key(g.nodes@, (#[trigger] g.nodes@[i]).key_view()) by {}
    assert forall|i: int| 0 <= i < g.vars@.len() implies has_key(g.vars@, (#[trigger] g.vars@[i]).key_view()) by {}
    assert forall|i: int| 0 <= i < g.checks@.len() implies has_key(g.checks@, (#[trigger] g.checks@[i]).key_view()) by {}
    lemma_only_in_self(g.nodes@, g.nodes@);
    lemma_only_in_self(g.vars@, g.vars@);
    lemma_only_in_self(g.checks@, g.checks@);
    assert forall|i: int| 0 <= i < g.nodes@.len() implies g.nodes@.contains(#[trigger] g.nodes@[i]) by {}
    lemma_changed_pairs_self(g.nodes@, g.nodes@);
    assert(views(d.vars_added@).len() == d.vars_added@.len());
    assert(views(d.vars_removed@).len() == d.vars_removed@.len());
    assert(views(d.checks_added@).len() == d.checks_added@.len());
    assert(views(d.checks_removed@).len() == d.checks_removed@.len());
}

/// Each field is named exactly when that part of the node differs.
proof fn lemma_field_names(x: Node, y: Node)
    ensures
        changed_fields(x, y).contains("kind"@) <==> x.kind != y.kind,
        changed_fields(x, y).contains("layer"@) <==> x.layer@ != y.layer@,
        changed_fields(x, y).contains("desc"@) <==> ostr(x.desc) != ostr(y.desc),
        changed_fields(x, y).contains("attrs"@) <==> attr_pairs(x.attrs@) != attr_pairs(y.attrs@),
        changed_fields(x, y).contains("checks"@) <==> check_keys(x.checks@) != check_keys(y.checks@),
        changed_fields(x, y).contains("sets"@) <==> set_keys(x.sets@) != set_keys(y.sets@),
{
    reveal_strlit("kind");
    reveal_strlit("layer");
    reveal_strlit("desc");
    reveal_strlit("attrs");
    reveal_strlit("checks");
    reveal_strlit("sets");
    let k = "kind"@;
    let l = "layer"@;
    let d = "desc"@;
    let a = "attrs"@;
    let c = "checks"@;
    let t = "sets"@;
    assert(k =~= seq!['k', 'i', 'n', 'd']);
    assert(l =~= seq!['l', 'a', 'y', 'e', 'r']);
    assert(d =~= seq!['d', 'e', 's', 'c']);
    assert(a =~= seq!['a', 't', 't', 'r', 's']);
    assert(c =~= seq!['c', 'h', 'e', 'c', 'k', 's']);
    assert(t =~= seq!['s', 'e', 't', 's']);
    assert(k[0] != d[0] && k[0] != t[0] && d[0] != t[0] && l[0] != a[0]);
    let names = seq![k, l, d, a, c, t];
    assert forall|p: int, q: int| 0 <= p < 6 && 0 <= q < 6 && p != q implies names[p] != names[q] by {
        if names[p].len() == names[q].len() {
            assert(names[p][0] != names[q][0]);
        }
    }
    let g1 = if x.kind != y.kind { seq![k] } else { Seq::<Seq<char>>::empty() };
    let g2 = if x.layer@ != y.layer@ { g1.push(l) } else { g1 };
    let g3 = if ostr(x.desc) != ostr(y.desc) { g2.push(d) } else { g2 };
    let g4 = if attr_pairs(x.attrs@) != attr_pairs(y.attrs@) { g3.push(a) } else { g3 };
    let g5 = if check_keys(x.checks@) != check_keys(y.checks@) { g4.push(c) } else { g4 };
    let g6 = if set_keys(x.sets@) != set_keys(y.sets@) { g5.push(t) } else { g5 };
    assert(changed_fields(x, y) == g6);
    assert forall|f: Seq<char>| names.contains(f) implies
        (g6.contains(f) <==> (
            (f == k && x.kind != y.kind) || (f == l && x.layer@ != y.layer@) || (f == d && ostr(x.desc) != ostr(y.desc))
            || (f == a && attr_pairs(x.attrs@) != attr_pairs(y.attrs@))
            || (f == c && check_keys(x.checks@) != check_keys(y.checks@))
            || (f == t && set_keys(x.sets@) != set_keys(y.sets@)))) by {
        assert(g1.contains(f) <==> (f == k && x.kind != y.kind)) by {
            if g1.contains(f) {
                assert(g1[0] == k);
            }
            if f == k && x.kind != y.kind {
                assert(g1[0] == f);
            }
        }
        crate::strset::lemma_push_contains(g1, l, f);
        crate::strset::lemma_push_contains(g2, d, f);
        crate::strset::lemma_push_contains(g3, a, f);
        crate::strset::lemma_push_contains(g4, c, f);
        crate::strset::lemma_push_contains(g5, t, f);
    }
    assert(names[0] == k && names[1] == l && names[2] == d && names[3] == a && names[4] == c && names[5] == t);
    assert(names.contains(k) && names.contains(l) && names.contains(d) && names.contains(a) && names.contains(c)
        && names.contains(t));
}

/// A changed node of `xs` with a counterpart in `ys` is among the changed pairs.
proof fn lemma_changed_pairs_has(xs: Seq<Node>, ys: Seq<Node>, i: int, y: Node)
    requires
        0 <= i < xs.len(),
        entry(ys, xs[i].id@) == Some(y),
        has_change(xs[i], y),
    ensures
        exists|k: int| 0 <= k < changed_pairs(xs, ys).len() && #[trigger] changed_pairs(xs, ys)[k] == (xs[i], y),
    decreases xs.len(),
{
    let r = changed_pairs(xs.drop_last(), ys);
    if i < xs.len() - 1 {
        assert(xs.drop_last()[i] == xs[i]);
        lemma_changed_pairs_has(xs.drop_last(), ys, i, y);
        let k = choose|k: int| 0 <= k < r.len() && #[trigger] r[k] == (xs[i], y);
        assert(changed_pairs(xs, ys)[k] == r[k]);
    } else {
        assert(changed_pairs(xs, ys) == r.push((xs[i], y)));
        assert(changed_pairs(xs, ys)[r.len() as int] == (xs[i], y));
    }
}

/// Each changed pair is a node of `xs` with its counterpart in `ys`.
proof fn lemma_changed_pairs_from(xs: Seq<Node>, ys: Seq<Node>, k: int)
    requires
        0 <= k < changed_pairs(xs, ys).len(),
    ensures
        exists|m: int| 0 <= m < xs.len() && #[trigger] xs[m] == changed_pairs(xs, ys)[k].0
            && entry(ys, xs[m].id@) == Some(changed_pairs(xs, ys)[k].1),
    decreases xs.len(),
{
    let r = changed_pairs(xs.drop_last(), ys);
    if k < r.len() {
        lemma_changed_pairs_from(xs.drop_last(), ys, k);
        let m = choose|m: int| 0 <= m < xs.drop_last().len() && #[trigger] xs.drop_last()[m] == r[k].0
            && entry(ys, xs.drop_last()[m].id@) == Some(r[k].1);
        assert(xs[m] == xs.drop_last()[m]);
        assert(changed_pairs(xs, ys)[k] == r[k]);
    } else {
        assert(xs[xs.len() - 1] == xs.last());
    }
}

/// Comparing two graphs, a node present in both is among the changes with a `desc` field
/// exactly when its description differs (as an optional text); then the comparison is
/// not empty.
pub proof fn lemma_desc_changes_are_seen(a: Graph, b: Graph, d: GraphDiff, i: int, j: int)
    requires
        a.tables_ok(),
        b.tables_ok(),
        diff_ok(a, b, d),
        0 <= i < a.nodes@.len(),
        0 <= j < b.nodes@.len(),
        a.nodes@[i].id@ == b.nodes@[j].id@,
    ensures
        ostr(a.nodes@[i].desc) != ostr(b.nodes@[j].desc) ==> exists|k: int| 0 <= k < d.changed@.len()
            && (#[trigger] d.changed@[k]).id@ == a.nodes@[i].id@ && views(d.changed@[k].fields@).contains("desc"@),
        ostr(a.nodes@[i].desc) != ostr(b.nodes@[j].desc) ==> !d.empty_spec(),
        forall|k: int| 0 <= k < d.changed@.len() && (#[trigger] d.changed@[k]).id@ == a.nodes@[i].id@
            ==> (views(d.changed@[k].fields@).contains("desc"@) <==> ostr(a.nodes@[i].desc) != ostr(b.nodes@[j].desc)),
{
    let x = a.nodes@[i];
    let y = b.nodes@[j];
    let cp = changed_pairs(a.nodes@, b.nodes@);
    crate::table::lemma_key_unique(b.nodes@, x.id@, j);
    assert(entry(b.nodes@, x.id@) == Some(y));
    lemma_field_names(x, y);
    if ostr(x.desc) != ostr(y.desc) {
        assert(has_change(x, y));
        lemma_changed_pairs_has(a.nodes@, b.nodes@, i, y);
        let k = choose|k: int| 0 <= k < cp.len() && #[trigger] cp[k] == (x, y);
        assert(change_of(d.changed@[k], cp[k].0, cp[k].1));
    }
    assert forall|k: int| 0 <= k < d.changed@.len() && (#[trigger] d.changed@[k]).id@ == x.id@
        implies (views(d.changed@[k].fields@).contains("desc"@) <==> ostr(x.desc) != ostr(y.desc)) by {
        lemma_changed_pairs_from(a.nodes@, b.nodes@, k);
        let m = choose|m: int| 0 <= m < a.nodes@.len() && #[trigger] a.nodes@[m] == cp[k].0
            && entry(b.nodes@, a.nodes@[m].id@) == Some(cp[k].1);
        assert(change_of(d.changed@[k], cp[k].0, cp[k].1));
        crate::table::lemma_key_unique(a.nodes@, x.id@, i);
        crate::table::lemma_key_unique(a.nodes@, x.id@, m);
        assert(m == i);
    }
}

/// Comparing two graphs, the change recorded for a node present in both names each field
/// exactly when that part differs (kind, layer, description, attributes, check uses,
/// variables set), and lists the edges only the new node has and only the old one has;
/// a node with any of these differences is among the changes.
pub proof fn lemma_field_changes_are_seen(a: Graph, b: Graph, d: GraphDiff, i: int, j: int)
    requires
        a.tables_ok(),
        b.tables_ok(),
        diff_ok(a, b, d),
        0 <= i < a.nodes@.len(),
        0 <= j < b.nodes@.len(),
        a.nodes@[i].id@ == b.nodes@[j].id@,
    ensures
        forall|k: int| 0 <= k < d.changed@.len() && (#[trigger] d.changed@[k]).id@ == a.nodes@[i].id@ ==> {
            let (x, y, f) = (a.nodes@[i], b.nodes@[j], views(d.changed@[k].fields@));
            &&& f.contains("kind"@) <==> x.kind != y.kind
            &&& f.contains("layer"@) <==> x.layer@ != y.layer@
            &&& f.contains("desc"@) <==> ostr(x.desc) != ostr(y.desc)
            &&& f.contains("attrs"@) <==> attr_pairs(x.attrs@) != attr_pairs(y.attrs@)
            &&& f.contains("checks"@) <==> check_keys(x.checks@) != check_keys(y.checks@)
            &&& f.contains("sets"@) <==> set_keys(x.sets@) != set_keys(y.sets@)
            &&& d.changed@[k].edges_added@ == unmatched(y.edges@, x.edges@)
            &&& d.changed@[k].edges_removed@ == unmatched(x.edges@, y.edges@)
        },
        has_change(a.nodes@[i], b.nodes@[j]) ==> exists|k: int| 0 <= k < d.changed@.len()
            && (#[trigger] d.changed@[k]).id@ == a.nodes@[i].id@,
        (a.nodes@[i].kind != b.nodes@[j].kind || a.nodes@[i].layer@ != b.nodes@[j].layer@
            || ostr(a.nodes@[i].desc) != ostr(b.nodes@[j].desc)) ==> has_change(a.nodes@[i], b.nodes@[j]),
{
    let x = a.nodes@[i];
    let y = b.nodes@[j];
    let cp = changed_pairs(a.nodes@, b.nodes@);
    crate::table::lemma_key_unique(b.nodes@, x.id@, j);
    assert(entry(b.nodes@, x.id@) == Some(y));
    lemma_field_names(x, y);
    if has_change(x, y) {
        lemma_changed_pairs_has(a.nodes@, b.nodes@, i, y);
        let k = choose|k: int| 0 <= k < cp.len() && #[trigger] cp[k] == (x, y);
        assert(change_of(d.changed@[k], cp[k].0, cp[k].1));
    }
    assert forall|k: int| 0 <= k < d.changed@.len() && (#[trigger] d.changed@[k]).id@ == x.id@
        implies (cp[k].0 == x && cp[k].1 == y) by {
        lemma_changed_pairs_from(a.nodes@, b.nodes@, k);
        let m = choose|m: int| 0 <= m < a.nodes@.len() && #[trigger] a.nodes@[m] == cp[k].0
            && entry(b.nodes@, a.nodes@[m].id@) == Some(cp[k].1);
        assert(change_of(d.changed@[k], cp[k].0, cp[k].1));
        crate::table::lemma_key_unique(a.nodes@, x.id@, i);
        crate::table::lemma_key_unique(a.nodes@, x.id@, m);
    }
    assert forall|k: int| 0 <= k < d.changed@.len() && (#[trigger] d.changed@[k]).id@ == x.id@
        implies change_of(d.changed@[k], x, y) by {
        assert(cp[k].0 == x && cp[k].1 == y);
    }
}

} // verus!
