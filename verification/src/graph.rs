//! Loading (from file sources) and the indexed graph.

use vstd::prelude::*;
use crate::model::{
    CheckDef, CheckUse, Edge, EdgeKind, FileItems, Kind, Node, PermDef, ProjectConfig, RootDef, SetVar,
    VarDef, ViewDef, clone_opt_string, edge_class, edge_label, ostr, perm_check_id, s_fail,
    s_fail_mark, s_perm_prefix,
};
use crate::parse::{ParseError, parse_file, parse_outcome, parses, lemma_outcome_ok};
use crate::expr::{idents, idents_from};
use crate::model::{local_group, local_group_spec};
use crate::table::{Keyed, absorb_into, absorbed, contains_key, entry, find_key, has_key, key_index, keys_sorted, lemma_key_index, rejected};
use crate::text::{dec, dec_string, is_prefix, push_char, push_str, starts_with, str_eq, string_from};
use crate::strset::{views, sorted_strict, set_contains, set_insert, lemma_sorted_no_dups, lemma_distinct_within, lemma_push_contains};
use crate::table::{keys, lemma_key_unique};

verus! {

/// Why loading failed.
#[derive(Debug)]
pub enum LoadError {
    Parse(ParseError),
    /// A file or directory that could not be read: its path and the reason.
    Io(String, String),
    /// The flows directory does not exist.
    NoDir(String),
}

/// A resolved edge as a value: where from and to, its label and class, its guard and line.
pub struct REdge {
    pub from: Seq<char>,
    pub to: Seq<char>,
    pub label: Seq<char>,
    pub class: Seq<char>,
    pub when: Option<Seq<char>>,
    pub line: usize,
}

/// The one shape of edge the graph walks on: failing check targets are here too.
#[derive(Debug)]
pub struct ResolvedEdge {
    pub from: String,
    pub to: String,
    pub label: String,
    pub class: &'static str,
    pub when: Option<String>,
    pub line: usize,
}

impl View for ResolvedEdge {
    type V = REdge;

    open spec fn view(&self) -> REdge {
        REdge {
            from: self.from@,
            to: self.to@,
            label: self.label@,
            class: self.class@,
            when: ostr(self.when),
            line: self.line,
        }
    }
}

impl Clone for ResolvedEdge {
    fn clone(&self) -> (res: Self)
        ensures
            res@ == self@,
    {
        ResolvedEdge {
            from: self.from.clone(),
            to: self.to.clone(),
            label: self.label.clone(),
            class: self.class,
            when: clone_opt_string(&self.when),
            line: self.line,
        }
    }
}

/// The views of a list of resolved edges.
pub open spec fn redges(s: Seq<ResolvedEdge>) -> Seq<REdge> {
    s.map_values(|e: ResolvedEdge| e@)
}

/// A second definition of an ID already defined: the ID, and where the second one stands.
#[derive(Debug)]
pub struct Duplicate {
    pub id: String,
    pub file: String,
    pub line: usize,
}

impl View for Duplicate {
    type V = (Seq<char>, Seq<char>, usize);

    open spec fn view(&self) -> (Seq<char>, Seq<char>, usize) {
        (self.id@, self.file@, self.line)
    }
}

/// Where a definition stands: its ID, file and line.
pub trait Placed: Keyed {
    spec fn place(&self) -> (Seq<char>, Seq<char>, usize);

    fn duplicate_record(&self) -> (res: Duplicate)
        ensures
            res@ == self.place(),
    ;
}

impl Placed for Node {
    open spec fn place(&self) -> (Seq<char>, Seq<char>, usize) {
        (self.id@, self.file@, self.line)
    }

    fn duplicate_record(&self) -> (res: Duplicate) {
        Duplicate { id: self.id.clone(), file: self.file.clone(), line: self.line }
    }
}

impl Placed for VarDef {
    open spec fn place(&self) -> (Seq<char>, Seq<char>, usize) {
        (self.id@, self.file@, self.line)
    }

    fn duplicate_record(&self) -> (res: Duplicate) {
        Duplicate { id: self.id.clone(), file: self.file.clone(), line: self.line }
    }
}

impl Placed for CheckDef {
    open spec fn place(&self) -> (Seq<char>, Seq<char>, usize) {
        (self.id@, self.file@, self.line)
    }

    fn duplicate_record(&self) -> (res: Duplicate) {
        Duplicate { id: self.id.clone(), file: self.file.clone(), line: self.line }
    }
}

impl Placed for PermDef {
    open spec fn place(&self) -> (Seq<char>, Seq<char>, usize) {
        (self.id@, self.file@, self.line)
    }

    fn duplicate_record(&self) -> (res: Duplicate) {
        Duplicate { id: self.id.clone(), file: self.file.clone(), line: self.line }
    }
}

/// The places of a list of definitions.
pub open spec fn places<T: Placed>(s: Seq<T>) -> Seq<(Seq<char>, Seq<char>, usize)> {
    s.map_values(|x: T| x.place())
}

/// The views of the duplicate records.
pub open spec fn dup_views(s: Seq<Duplicate>) -> Seq<(Seq<char>, Seq<char>, usize)> {
    s.map_values(|d: Duplicate| d@)
}

/// Appends a duplicate record for each item.
fn push_duplicates<T: Placed>(dups: &mut Vec<Duplicate>, items: &Vec<T>)
    ensures
        dup_views(final(dups)@) == dup_views(old(dups)@) + places(items@),
{
    let mut i: usize = 0;
    while i < items.len()
        invariant
            i <= items@.len(),
            dup_views(dups@) == dup_views(old(dups)@) + places(items@.take(i as int)),
        decreases items.len() - i,
    {
        let d = items[i].duplicate_record();
        let ghost before = dups@;
        dups.push(d);
        proof {
            assert(dups@ =~= before.push(d));
            assert(dup_views(dups@) =~= dup_views(before).push(d@));
            assert(places(items@.take(i + 1)) =~= places(items@.take(i as int)).push(items@[i as int].place()));
        }
        i += 1;
    }
    proof {
        assert(items@.take(items@.len() as int) =~= items@);
    }
}

/// `c` is the check a perm stands for: `perm:<id>`, with the perm's description, failure
/// target, outcome and place, reading nothing.
pub open spec fn is_perm_check(c: CheckDef, p: PermDef) -> bool {
    &&& c.id@ == s_perm_prefix() + p.id@
    &&& c.desc == p.desc
    &&& c.reads@.len() == 0
    &&& c.fail_to == p.fail_to
    &&& c.outcome == p.outcome
    &&& c.file == p.file
    &&& c.line == p.line
}

/// `synth` holds, in order, the check each perm stands for.
pub open spec fn perm_checks(synth: Seq<CheckDef>, perms: Seq<PermDef>) -> bool {
    &&& synth.len() == perms.len()
    &&& forall|i: int| 0 <= i < synth.len() ==> is_perm_check(#[trigger] synth[i], perms[i])
}


/// The project settings a graph has when no file sets them.
pub open spec fn is_default_config(c: ProjectConfig) -> bool {
    &&& c.name@ == seq!['f', 'l', 'o', 'w', 's']
    &&& c.layers@.map_values(|l: String| l@) == crate::model::default_layers()
    &&& c.watch@.len() == 0
    &&& c.max_roots == 10
}

/// The first of `items` with key `k`.
pub open spec fn first_with<T: Keyed>(items: Seq<T>, k: Seq<char>) -> Option<T>
    decreases items.len(),
{
    if items.len() == 0 {
        None
    } else {
        let r = first_with(items.drop_last(), k);
        if r is Some { r } else if items.last().key_view() == k { Some(items.last()) } else { None }
    }
}

/// Adding items to a table keeps what it held under `k`, else takes the first item with
/// that key.
pub proof fn lemma_absorbed_first<T: Keyed>(t: Seq<T>, items: Seq<T>, k: Seq<char>)
    ensures
        absorbed(t, items, k) == (match entry(t, k) { Some(x) => Some(x), None => first_with(items, k) }),
    decreases items.len(),
{
    if items.len() > 0 {
        lemma_absorbed_first(t, items.drop_last(), k);
    }
}

pub proof fn lemma_first_with_concat<T: Keyed>(a: Seq<T>, b: Seq<T>, k: Seq<char>)
    ensures
        first_with(a + b, k) == (match first_with(a, k) { Some(x) => Some(x), None => first_with(b, k) }),
    decreases b.len(),
{
    if b.len() == 0 {
        assert(a + b =~= a);
    } else {
        assert((a + b).drop_last() =~= a + b.drop_last());
        lemma_first_with_concat(a, b.drop_last(), k);
    }
}

/// The items that come after another with the same key, counting `before` first, in order.
pub open spec fn repeats<T: Keyed>(before: Seq<T>, items: Seq<T>) -> Seq<T>
    decreases items.len(),
{
    if items.len() == 0 {
        Seq::<T>::empty()
    } else {
        let r = repeats(before, items.drop_last());
        if first_with(before + items.drop_last(), items.last().key_view()) is Some {
            r.push(items.last())
        } else {
            r
        }
    }
}

/// What a table whose entries are the first of `before` leaves out of `items` is what
/// repeats a key of `before` or of an earlier item.
pub proof fn lemma_rejected_repeats<T: Keyed>(t: Seq<T>, before: Seq<T>, items: Seq<T>)
    requires
        forall|k: Seq<char>| #[trigger] entry(t, k) == first_with(before, k),
    ensures
        rejected(t, items) == repeats(before, items),
    decreases items.len(),
{
    if items.len() > 0 {
        let k = items.last().key_view();
        lemma_rejected_repeats(t, before, items.drop_last());
        lemma_absorbed_first(t, items.drop_last(), k);
        lemma_first_with_concat(before, items.drop_last(), k);
        assert(entry(t, k) == first_with(before, k));
    }
}

pub open spec fn all_nodes(its: Seq<FileItems>) -> Seq<Node>
    decreases its.len(),
{
    if its.len() == 0 { Seq::<Node>::empty() } else { all_nodes(its.drop_last()) + its.last().nodes@ }
}

pub open spec fn all_vars(its: Seq<FileItems>) -> Seq<VarDef>
    decreases its.len(),
{
    if its.len() == 0 { Seq::<VarDef>::empty() } else { all_vars(its.drop_last()) + its.last().vars@ }
}

pub open spec fn all_checks(its: Seq<FileItems>) -> Seq<CheckDef>
    decreases its.len(),
{
    if its.len() == 0 { Seq::<CheckDef>::empty() } else { all_checks(its.drop_last()) + its.last().checks@ }
}

pub open spec fn all_perms(its: Seq<FileItems>) -> Seq<PermDef>
    decreases its.len(),
{
    if its.len() == 0 { Seq::<PermDef>::empty() } else { all_perms(its.drop_last()) + its.last().perms@ }
}

pub open spec fn all_roots(its: Seq<FileItems>) -> Seq<RootDef>
    decreases its.len(),
{
    if its.len() == 0 { Seq::<RootDef>::empty() } else { all_roots(its.drop_last()) + its.last().roots@ }
}

pub open spec fn all_views(its: Seq<FileItems>) -> Seq<ViewDef>
    decreases its.len(),
{
    if its.len() == 0 { Seq::<ViewDef>::empty() } else { all_views(its.drop_last()) + its.last().views@ }
}

/// The second definitions met while reading `its` in order: per file, its nodes, vars,
/// checks and perms that repeat an ID read before.
pub open spec fn dups_from(its: Seq<FileItems>) -> Seq<(Seq<char>, Seq<char>, usize)>
    decreases its.len(),
{
    if its.len() == 0 {
        Seq::empty()
    } else {
        let p = its.drop_last();
        let l = its.last();
        dups_from(p)
            + places(repeats(all_nodes(p), l.nodes@))
            + places(repeats(all_vars(p), l.vars@))
            + places(repeats(all_checks(p), l.checks@))
            + places(repeats(all_perms(p), l.perms@))
    }
}

/// The settings of the last file that has a `project` node.
pub open spec fn last_config(its: Seq<FileItems>) -> Option<ProjectConfig>
    decreases its.len(),
{
    if its.len() == 0 {
        None
    } else {
        match its.last().config {
            Some(c) => Some(c),
            None => last_config(its.drop_last()),
        }
    }
}

/// The tables hold, under each ID, the first definition in file order; roots and views are
/// all of them in file order; the settings are the last file's.
pub open spec fn tables_from(g: Graph, its: Seq<FileItems>) -> bool {
    &&& forall|k: Seq<char>| #[trigger] entry(g.nodes@, k) == first_with(all_nodes(its), k)
    &&& forall|k: Seq<char>| #[trigger] entry(g.vars@, k) == first_with(all_vars(its), k)
    &&& forall|k: Seq<char>| #[trigger] entry(g.perms@, k) == first_with(all_perms(its), k)
    &&& g.roots@ == all_roots(its)
    &&& g.views@ == all_views(its)
    &&& match last_config(its) { Some(c) => g.config == c, None => is_default_config(g.config) }
}

/// The graph built from the files read as `its`: `tables_from`, the second definitions are
/// recorded in reading order, and the checks are the files' checks followed by one `perm:x`
/// check per perm (a defined check keeps its name).
pub open spec fn built_from(g: Graph, its: Seq<FileItems>) -> bool {
    &&& tables_from(g, its)
    &&& dup_views(g.duplicates@) == dups_from(its)
    &&& exists|synth: Seq<CheckDef>| #[trigger] perm_checks(synth, g.perms@)
        && forall|k: Seq<char>| #[trigger] entry(g.checks@, k) == first_with(all_checks(its) + synth, k)
}

/// The files before `i` read without error.
pub open spec fn parse_ok_upto(sources: Seq<(String, String)>, i: int) -> bool {
    forall|j: int| 0 <= j < i ==> parses((#[trigger] sources[j]).1@)
}

/// The resolved, indexed graph. Nodes and definitions are kept ordered by ID (deterministic
/// output); `out` holds, parallel to `nodes`, each node's resolved outgoing edges.
pub struct Graph {
    pub config: ProjectConfig,
    pub nodes: Vec<Node>,
    pub vars: Vec<VarDef>,
    pub checks: Vec<CheckDef>,
    pub perms: Vec<PermDef>,
    pub roots: Vec<RootDef>,
    pub views: Vec<ViewDef>,
    /// Second definitions of an ID (for lint).
    pub duplicates: Vec<Duplicate>,
    /// Outgoing edges, failing check targets included, parallel to `nodes`.
    pub out: Vec<Vec<ResolvedEdge>>,
}

/// The edge a graph edge resolves to.
pub open spec fn edge_r(from: Seq<char>, e: Edge) -> REdge {
    REdge { from, to: e.to@, label: edge_label(e), class: edge_class(e), when: ostr(e.when), line: e.line }
}

/// The perm a check name `perm:x` stands for: `x`.
pub open spec fn perm_of_check(name: Seq<char>) -> Option<Seq<char>> {
    if is_prefix(s_perm_prefix(), name) {
        Some(name.subrange(s_perm_prefix().len() as int, name.len() as int))
    } else {
        None
    }
}

/// The failure status of a check use: its own `fail=`, else, for `requires`, the perm's `deny`.
pub open spec fn effective_fail(perms: Seq<PermDef>, c: CheckUse) -> Option<u16> {
    match c.fail {
        Some(f) => Some(f),
        None => match perm_of_check(c.name@) {
            Some(p) => match entry(perms, p) {
                Some(d) => d.deny,
                None => None,
            },
            None => None,
        },
    }
}

/// The node-less end of a failing check: the use's `outcome=`, else, when the use names no
/// target, the definition's.
pub open spec fn effective_outcome_spec(checks: Seq<CheckDef>, c: CheckUse) -> Option<Seq<char>> {
    if c.outcome is Some {
        ostr(c.outcome)
    } else if c.to is None {
        match entry(checks, c.name@) {
            Some(d) => ostr(d.outcome),
            None => None,
        }
    } else {
        None
    }
}

/// Where a failing check leads: nowhere if it ends in an outcome, else the use's target,
/// else the definition's `fail_to`.
pub open spec fn check_target(checks: Seq<CheckDef>, c: CheckUse) -> Option<Seq<char>> {
    if effective_outcome_spec(checks, c) is Some {
        None
    } else if c.to is Some {
        ostr(c.to)
    } else {
        match entry(checks, c.name@) {
            Some(d) => ostr(d.fail_to),
            None => None,
        }
    }
}

/// `name ✗ status code`, `name ✗ status` or `name ✗`.
pub open spec fn check_label(perms: Seq<PermDef>, c: CheckUse) -> Seq<char> {
    c.name@ + s_fail_mark() + match (effective_fail(perms, c), c.code) {
        (Some(s), Some(code)) => seq![' '] + dec(s as nat) + seq![' '] + code@,
        (Some(s), None) => seq![' '] + dec(s as nat),
        _ => Seq::<char>::empty(),
    }
}

/// The failure edges of a node's check uses, in order.
pub open spec fn check_edges(checks: Seq<CheckDef>, perms: Seq<PermDef>, from: Seq<char>, cs: Seq<CheckUse>) -> Seq<REdge>
    decreases cs.len(),
{
    if cs.len() == 0 {
        Seq::<REdge>::empty()
    } else {
        let r = check_edges(checks, perms, from, cs.drop_last());
        let c = cs.last();
        match check_target(checks, c) {
            Some(t) => r.push(REdge { from, to: t, label: check_label(perms, c), class: s_fail(), when: None, line: c.line }),
            None => r,
        }
    }
}

/// A node's outgoing edges: its own edges, then the targets of its failing checks.
pub open spec fn resolved_spec(checks: Seq<CheckDef>, perms: Seq<PermDef>, n: Node) -> Seq<REdge> {
    n.edges@.map_values(|e: Edge| edge_r(n.id@, e)) + check_edges(checks, perms, n.id@, n.checks@)
}

impl Graph {
    /// Tables ordered by ID, each ID once.
    pub open spec fn tables_ok(&self) -> bool {
        &&& keys_sorted(self.nodes@)
        &&& keys_sorted(self.vars@)
        &&& keys_sorted(self.checks@)
        &&& keys_sorted(self.perms@)
    }

    /// The index: `out` lists each node's resolved edges.
    pub open spec fn indexed(&self) -> bool {
        &&& self.out@.len() == self.nodes@.len()
        &&& forall|i: int| 0 <= i < self.nodes@.len() ==>
            redges(#[trigger] self.out@[i]@) == resolved_spec(self.checks@, self.perms@, self.nodes@[i])
    }

    pub open spec fn wf(&self) -> bool {
        self.tables_ok() && self.indexed()
    }

    /// The resolved edges of node `i`.
    pub open spec fn out_of(&self, i: int) -> Seq<REdge> {
        redges(self.out@[i]@)
    }

    /// Whether a node has this ID.
    pub open spec fn has_node(&self, id: Seq<char>) -> bool {
        has_key(self.nodes@, id)
    }

    /// The index of the node with this ID (-1 if none).
    pub open spec fn node_index(&self, id: Seq<char>) -> int {
        key_index(self.nodes@, id)
    }

    /// An empty graph with the default project settings.
    pub fn new() -> (res: Graph)
        ensures
            res.wf(),
            res.nodes@.len() == 0,
            res.vars@.len() == 0,
            res.checks@.len() == 0,
            res.perms@.len() == 0,
            res.roots@.len() == 0,
            res.views@.len() == 0,
            res.duplicates@.len() == 0,
            is_default_config(res.config),
    {
        Graph {
            config: ProjectConfig::default(),
            nodes: Vec::new(),
            vars: Vec::new(),
            checks: Vec::new(),
            perms: Vec::new(),
            roots: Vec::new(),
            views: Vec::new(),
            duplicates: Vec::new(),
            out: Vec::new(),
        }
    }

    /// The failure status of a check use (see `effective_fail`).
    pub fn effective_fail(&self, c: &CheckUse) -> (res: Option<u16>)
        ensures
            res == effective_fail(self.perms@, *c),
    {
        match c.fail {
            Some(f) => Some(f),
            None => {
                proof {
                    reveal_strlit("perm:");
                    assert("perm:"@ =~= s_perm_prefix());
                }
                if starts_with(c.name.as_str(), "perm:") {
                    let p = c.name.as_str().substring_char(5, c.name.as_str().unicode_len());
                    match find_key(&self.perms, p) {
                        Some(i) => {
                            proof {
                                lemma_key_index(self.perms@, p@);
                            }
                            self.perms[i].deny
                        },
                        None => None,
                    }
                } else {
                    None
                }
            },
        }
    }

    /// The node-less end of a failing check use, if it has one: the use's `outcome=`, else,
    /// when the use names no target, the definition's.
    pub fn effective_outcome(&self, c: &CheckUse) -> (res: Option<String>)
        ensures
            ostr(res) == effective_outcome_spec(self.checks@, *c),
    {
        match &c.outcome {
            Some(o) => Some(o.clone()),
            None => {
                if c.to.is_some() {
                    return None;
                }
                match find_key(&self.checks, c.name.as_str()) {
                    Some(i) => clone_opt_string(&self.checks[i].outcome),
                    None => None,
                }
            },
        }
    }

    /// Where a failing check use leads, if to a node.
    fn check_target(&self, c: &CheckUse) -> (res: Option<String>)
        ensures
            ostr(res) == check_target(self.checks@, *c),
    {
        if self.effective_outcome(c).is_some() {
            return None;
        }
        match &c.to {
            Some(t) => Some(t.clone()),
            None => match find_key(&self.checks, c.name.as_str()) {
                Some(i) => clone_opt_string(&self.checks[i].fail_to),
                None => None,
            },
        }
    }

    fn check_label(&self, c: &CheckUse) -> (res: String)
        ensures
            res@ == check_label(self.perms@, *c),
    {
        proof {
            reveal_strlit(" ✗");
            assert(" ✗"@ =~= s_fail_mark());
        }
        let mut s = c.name.clone();
        push_str(&mut s, " ✗");
        let ghost s0 = s@;
        match (self.effective_fail(c), &c.code) {
            (Some(f), Some(code)) => {
                push_char(&mut s, ' ');
                let d = dec_string(f as u64);
                push_str(&mut s, d.as_str());
                push_char(&mut s, ' ');
                push_str(&mut s, code.as_str());
                proof {
                    assert(s@ =~= s0 + (seq![' '] + dec(f as nat) + seq![' '] + code@));
                }
            },
            (Some(f), None) => {
                push_char(&mut s, ' ');
                let d = dec_string(f as u64);
                push_str(&mut s, d.as_str());
                proof {
                    assert(s@ =~= s0 + (seq![' '] + dec(f as nat)));
                }
            },
            _ => {
                proof {
                    assert(s@ =~= s0 + Seq::<char>::empty());
                }
            },
        }
        s
    }

    /// Node `i`'s outgoing edges: its own edges, then its failing checks' targets.
    fn resolved_edges(&self, i: usize) -> (res: Vec<ResolvedEdge>)
        requires
            i < self.nodes@.len(),
        ensures
            redges(res@) == resolved_spec(self.checks@, self.perms@, self.nodes@[i as int]),
    {
        let n = &self.nodes[i];
        let ghost own = n.edges@.map_values(|e: Edge| edge_r(n.id@, e));
        let mut out: Vec<ResolvedEdge> = Vec::new();
        let mut k: usize = 0;
        while k < n.edges.len()
            invariant
                k <= n.edges@.len(),
                own == n.edges@.map_values(|e: Edge| edge_r(n.id@, e)),
                redges(out@) == own.take(k as int),
            decreases n.edges.len() - k,
        {
            let e = &n.edges[k];
            let r = ResolvedEdge {
                from: n.id.clone(),
                to: e.to.clone(),
                label: e.label(),
                class: e.class(),
                when: clone_opt_string(&e.when),
                line: e.line,
            };
            let ghost before = out@;
            out.push(r);
            proof {
                assert(out@ =~= before.push(r));
                assert(own.take(k + 1) =~= own.take(k as int).push(own[k as int]));
                assert(redges(out@) =~= redges(before).push(r@));
            }
            k += 1;
        }
        proof {
            assert(own.take(n.edges@.len() as int) =~= own);
        }
        let mut j: usize = 0;
        while j < n.checks.len()
            invariant
                j <= n.checks@.len(),
                redges(out@) == own + check_edges(self.checks@, self.perms@, n.id@, n.checks@.take(j as int)),
            decreases n.checks.len() - j,
        {
            let c = &n.checks[j];
            proof {
                assert(n.checks@.take(j + 1).drop_last() =~= n.checks@.take(j as int));
                assert(n.checks@.take(j + 1).last() == n.checks@[j as int]);
            }
            match self.check_target(c) {
                Some(to) => {
                    let r = ResolvedEdge {
                        from: n.id.clone(),
                        to,
                        label: self.check_label(c),
                        class: "fail",
                        when: None,
                        line: c.line,
                    };
                    proof {
                        reveal_strlit("fail");
                        assert("fail"@ =~= s_fail());
                    }
                    let ghost before = out@;
                    out.push(r);
                    proof {
                        assert(out@ =~= before.push(r));
                        assert(redges(out@) =~= redges(before).push(r@));
                    }
                },
                None => {},
            }
            j += 1;
        }
        proof {
            assert(n.checks@.take(n.checks@.len() as int) =~= n.checks@);
        }
        out
    }

    /// Rebuilds the index of outgoing edges.
    pub fn reindex(&mut self)
        ensures
            final(self).indexed(),
            final(self).nodes@ == old(self).nodes@,
            final(self).vars@ == old(self).vars@,
            final(self).checks@ == old(self).checks@,
            final(self).perms@ == old(self).perms@,
            final(self).roots@ == old(self).roots@,
            final(self).views@ == old(self).views@,
            final(self).duplicates@ == old(self).duplicates@,
            final(self).config == old(self).config,
    {
        let mut out: Vec<Vec<ResolvedEdge>> = Vec::new();
        let mut i: usize = 0;
        while i < self.nodes.len()
            invariant
                i <= self.nodes@.len(),
                out@.len() == i,
                forall|k: int| 0 <= k < i ==>
                    redges(#[trigger] out@[k]@) == resolved_spec(self.checks@, self.perms@, self.nodes@[k]),
            decreases self.nodes.len() - i,
        {
            let r = self.resolved_edges(i);
            out.push(r);
            i += 1;
        }
        self.out = out;
    }

    /// Adds one file's items: settings replace the current ones, a second definition of an
    /// ID is recorded in `duplicates` (the first one stays), roots and views are appended.
    pub fn absorb(&mut self, items: FileItems)
        requires
            old(self).tables_ok(),
        ensures
            final(self).tables_ok(),
            forall|k: Seq<char>| entry(final(self).nodes@, k) == absorbed(old(self).nodes@, items.nodes@, k),
            forall|k: Seq<char>| entry(final(self).vars@, k) == absorbed(old(self).vars@, items.vars@, k),
            forall|k: Seq<char>| entry(final(self).checks@, k) == absorbed(old(self).checks@, items.checks@, k),
            forall|k: Seq<char>| entry(final(self).perms@, k) == absorbed(old(self).perms@, items.perms@, k),
            dup_views(final(self).duplicates@) == dup_views(old(self).duplicates@)
                + places(rejected(old(self).nodes@, items.nodes@))
                + places(rejected(old(self).vars@, items.vars@))
                + places(rejected(old(self).checks@, items.checks@))
                + places(rejected(old(self).perms@, items.perms@)),
            final(self).roots@ == old(self).roots@ + items.roots@,
            final(self).views@ == old(self).views@ + items.views@,
            final(self).config == match items.config { Some(c) => c, None => old(self).config },
    {
        let FileItems { nodes, vars, checks, perms, mut roots, mut views, config } = items;
        match config {
            Some(c) => { self.config = c; },
            None => {},
        }
        let dn = absorb_into(&mut self.nodes, nodes);
        push_duplicates(&mut self.duplicates, &dn);
        let dv = absorb_into(&mut self.vars, vars);
        push_duplicates(&mut self.duplicates, &dv);
        let dc = absorb_into(&mut self.checks, checks);
        push_duplicates(&mut self.duplicates, &dc);
        let dp = absorb_into(&mut self.perms, perms);
        push_duplicates(&mut self.duplicates, &dp);
        self.roots.append(&mut roots);
        self.views.append(&mut views);
    }

    /// Each perm `x` answers to a check `perm:x` (unless a check of that name is defined):
    /// `requires "x"` uses resolve to it.
    fn add_perm_checks(&mut self)
        requires
            old(self).tables_ok(),
        ensures
            final(self).tables_ok(),
            final(self).nodes@ == old(self).nodes@,
            final(self).vars@ == old(self).vars@,
            final(self).perms@ == old(self).perms@,
            final(self).roots@ == old(self).roots@,
            final(self).views@ == old(self).views@,
            final(self).duplicates@ == old(self).duplicates@,
            final(self).config == old(self).config,
            exists|synth: Seq<CheckDef>| #[trigger] perm_checks(synth, old(self).perms@)
                && forall|k: Seq<char>| entry(final(self).checks@, k) == absorbed(old(self).checks@, synth, k),
    {
        let mut synth: Vec<CheckDef> = Vec::new();
        let mut i: usize = 0;
        while i < self.perms.len()
            invariant
                i <= self.perms@.len(),
                synth@.len() == i,
                forall|j: int| 0 <= j < i ==> is_perm_check(#[trigger] synth@[j], self.perms@[j]),
            decreases self.perms.len() - i,
        {
            let p = &self.perms[i];
            let c = CheckDef {
                id: perm_check_id(p.id.as_str()),
                desc: clone_opt_string(&p.desc),
                reads: Vec::new(),
                fail_to: clone_opt_string(&p.fail_to),
                outcome: clone_opt_string(&p.outcome),
                file: p.file.clone(),
                line: p.line,
            };
            synth.push(c);
            i += 1;
        }
        let ghost sv = synth@;
        let _ = absorb_into(&mut self.checks, synth);
        proof {
            assert(perm_checks(sv, self.perms@));
        }
    }

    /// Builds the graph from in-memory sources `(path under flows/, text)`: each file is
    /// parsed and absorbed in order, perms get their checks, and the index is built. The
    /// first file that does not read stops it with that file's error.
    pub fn from_sources(sources: &Vec<(String, String)>) -> (res: Result<Graph, LoadError>)
        requires
            forall|i: int| 0 <= i < sources@.len() ==> vstd::utf8::encode_utf8((#[trigger] sources@[i]).1@).len() < usize::MAX,
        ensures
            res is Ok <==> parse_ok_upto(sources@, sources@.len() as int),
            res matches Err(e) ==> exists|i: int| 0 <= i < sources@.len() && parse_ok_upto(sources@, i)
                && (e matches LoadError::Parse(pe)
                && parse_outcome((#[trigger] sources@[i]).0@, sources@[i].1@, Err(pe))),
            res matches Ok(g) ==> g.wf() && exists|its: Seq<FileItems>| its.len() == sources@.len()
                && (forall|i: int| 0 <= i < its.len() ==> parse_outcome(sources@[i].0@, sources@[i].1@, Ok(#[trigger] its[i])))
                && built_from(g, its),
    {
        let mut g = Graph::new();
        let ghost mut its: Seq<FileItems> = Seq::empty();
        let mut i: usize = 0;
        proof {
            assert forall|k: Seq<char>| #[trigger] entry(g.nodes@, k) == first_with(all_nodes(its), k) by {}
            assert forall|k: Seq<char>| #[trigger] entry(g.vars@, k) == first_with(all_vars(its), k) by {}
            assert forall|k: Seq<char>| #[trigger] entry(g.perms@, k) == first_with(all_perms(its), k) by {}
            assert forall|k: Seq<char>| #[trigger] entry(g.checks@, k) == first_with(all_checks(its), k) by {}
            assert(g.roots@ =~= all_roots(its));
            assert(g.views@ =~= all_views(its));
            assert(dup_views(g.duplicates@) =~= dups_from(its));
        }
        while i < sources.len()
            invariant
                i <= sources@.len(),
                g.tables_ok(),
                forall|j: int| 0 <= j < sources@.len() ==> vstd::utf8::encode_utf8((#[trigger] sources@[j]).1@).len() < usize::MAX,
                its.len() == i,
                forall|j: int| 0 <= j < i ==> parse_outcome(sources@[j].0@, sources@[j].1@, Ok(#[trigger] its[j])),
                parse_ok_upto(sources@, i as int),
                tables_from(g, its),
                forall|k: Seq<char>| #[trigger] entry(g.checks@, k) == first_with(all_checks(its), k),
                dup_views(g.duplicates@) == dups_from(its),
            decreases sources.len() - i,
        {
            let (rel, src) = &sources[i];
            let r = parse_file(rel.as_str(), src.as_str());
            proof {
                lemma_outcome_ok(rel@, src@, r);
            }
            match r {
                Ok(items) => {
                    let ghost old_g = g;
                    let ghost next = its.push(items);
                    proof {
                        assert(next.drop_last() =~= its);
                    }
                    g.absorb(items);
                    proof {
                        lemma_rejected_repeats(old_g.nodes@, all_nodes(its), items.nodes@);
                        lemma_rejected_repeats(old_g.vars@, all_vars(its), items.vars@);
                        lemma_rejected_repeats(old_g.checks@, all_checks(its), items.checks@);
                        lemma_rejected_repeats(old_g.perms@, all_perms(its), items.perms@);
                        assert(next.last() == items);
                        assert(dup_views(g.duplicates@) == dups_from(next));
                        assert forall|k: Seq<char>| #[trigger] entry(g.nodes@, k) == first_with(all_nodes(next), k) by {
                            lemma_absorbed_first(old_g.nodes@, items.nodes@, k);
                            lemma_first_with_concat(all_nodes(its), items.nodes@, k);
                        }
                        assert forall|k: Seq<char>| #[trigger] entry(g.vars@, k) == first_with(all_vars(next), k) by {
                            lemma_absorbed_first(old_g.vars@, items.vars@, k);
                            lemma_first_with_concat(all_vars(its), items.vars@, k);
                        }
                        assert forall|k: Seq<char>| #[trigger] entry(g.perms@, k) == first_with(all_perms(next), k) by {
                            lemma_absorbed_first(old_g.perms@, items.perms@, k);
                            lemma_first_with_concat(all_perms(its), items.perms@, k);
                        }
                        assert forall|k: Seq<char>| #[trigger] entry(g.checks@, k) == first_with(all_checks(next), k) by {
                            lemma_absorbed_first(old_g.checks@, items.checks@, k);
                            lemma_first_with_concat(all_checks(its), items.checks@, k);
                        }
                        assert(g.roots@ == all_roots(next));
                        assert(g.views@ == all_views(next));
                        its = next;
                        assert(its[i as int] == items);
                    }
                },
                Err(e) => {
                    proof {
                        assert(sources@[i as int].0@ == rel@ && sources@[i as int].1@ == src@);
                        assert(!parses(sources@[i as int].1@));
                    }
                    return Err(LoadError::Parse(e));
                },
            }
            i += 1;
        }
        let ghost before = g;
        g.add_perm_checks();
        let ghost synth = choose|synth: Seq<CheckDef>| #[trigger] perm_checks(synth, before.perms@)
            && forall|k: Seq<char>| entry(g.checks@, k) == absorbed(before.checks@, synth, k);
        proof {
            assert forall|k: Seq<char>| #[trigger] entry(g.checks@, k) == first_with(all_checks(its) + synth, k) by {
                lemma_absorbed_first(before.checks@, synth, k);
                lemma_first_with_concat(all_checks(its), synth, k);
            }
            assert(perm_checks(synth, g.perms@));
        }
        g.reindex();
        proof {
            assert(its.len() == sources@.len());
            assert(tables_from(g, its));
            assert(dup_views(g.duplicates@) == dups_from(its));
            assert(perm_checks(synth, g.perms@));
            assert(forall|k: Seq<char>| #[trigger] entry(g.checks@, k) == first_with(all_checks(its) + synth, k));
            assert(built_from(g, its));
        }
        Ok(g)
    }
}

/// The events a node's `on "ev" -> ...` edges listen to, in order.
pub open spec fn listened_spec(es: Seq<Edge>) -> Seq<Seq<char>>
    decreases es.len(),
{
    if es.len() == 0 {
        Seq::<Seq<char>>::empty()
    } else {
        let r = listened_spec(es.drop_last());
        match es.last().kind {
            EdgeKind::On { event } => r.push(event@),
            _ => r,
        }
    }
}

/// The edges of `es` that lead to `id`, in order.
pub open spec fn edges_into(es: Seq<REdge>, id: Seq<char>) -> Seq<REdge>
    decreases es.len(),
{
    if es.len() == 0 {
        Seq::<REdge>::empty()
    } else {
        let r = edges_into(es.drop_last(), id);
        if es.last().to == id { r.push(es.last()) } else { r }
    }
}

/// The edges into `id`, by source node in ID order, each node's edges in order.
pub open spec fn incoming_spec(outs: Seq<Seq<REdge>>, id: Seq<char>) -> Seq<REdge>
    decreases outs.len(),
{
    if outs.len() == 0 {
        Seq::<REdge>::empty()
    } else {
        incoming_spec(outs.drop_last(), id) + edges_into(outs.last(), id)
    }
}

impl Graph {
    /// Every node's resolved edges, in node order.
    pub open spec fn outs(&self) -> Seq<Seq<REdge>> {
        self.out@.map_values(|v: Vec<ResolvedEdge>| redges(v@))
    }

    /// The resolved edges leaving `id` (none if there is no such node).
    pub open spec fn out_edges(&self, id: Seq<char>) -> Seq<REdge> {
        if self.has_node(id) { self.out_of(self.node_index(id)) } else { Seq::<REdge>::empty() }
    }

    /// Node `i` has an edge to `b`.
    pub open spec fn edge_to(&self, i: int, b: Seq<char>) -> bool {
        exists|j: int| 0 <= j < self.out_of(i).len() && (#[trigger] self.out_of(i)[j]).to == b
    }

    /// `b` is a node of kind event.
    pub open spec fn is_event_node(&self, b: Seq<char>) -> bool {
        self.has_node(b) && self.nodes@[self.node_index(b)].kind == Kind::Event
    }

    /// Node `i` leads to `b`: an edge to `b`, or `b` is an event node it listens to
    /// (listening to a state does not make the state reachable).
    #[verifier::opaque]
    pub open spec fn leads_to(&self, i: int, b: Seq<char>) -> bool {
        self.edge_to(i, b) || (listened_spec(self.nodes@[i].edges@).contains(b) && self.is_event_node(b))
    }

    /// `p` (node indices) is a walk that begins at one of `starts` and goes from each node
    /// to one it leads to.
    #[verifier::opaque]
    pub open spec fn is_walk(&self, starts: Seq<Seq<char>>, p: Seq<int>) -> bool {
        &&& p.len() > 0
        &&& forall|k: int| 0 <= k < p.len() ==> 0 <= #[trigger] p[k] < self.nodes@.len()
        &&& starts.contains(self.nodes@[p[0]].id@)
        &&& forall|k: int| 0 <= k < p.len() - 1 ==> #[trigger] self.leads_to(p[k], self.nodes@[p[k + 1]].id@)
    }

    /// `x` is a node reached by a walk from `starts`.
    pub open spec fn reaches(&self, starts: Seq<Seq<char>>, x: Seq<char>) -> bool {
        exists|p: Seq<int>| #[trigger] self.is_walk(starts, p) && self.nodes@[p.last()].id@ == x
    }

    /// The resolved edges leaving `id`.
    pub fn outgoing(&self, id: &str) -> (res: &[ResolvedEdge])
        requires
            self.indexed(),
        ensures
            redges(res@) == self.out_edges(id@),
    {
        match find_key(&self.nodes, id) {
            Some(i) => self.out[i].as_slice(),
            None => {
                proof {
                    assert(redges(Seq::<ResolvedEdge>::empty()) =~= Seq::<REdge>::empty());
                }
                &[]
            },
        }
    }

    /// The resolved edges that lead into `id`.
    pub fn incoming_edges(&self, id: &str) -> (res: Vec<&ResolvedEdge>)
        requires
            self.indexed(),
        ensures
            res@.map_values(|e: &ResolvedEdge| (*e)@) == incoming_spec(self.outs(), id@),
    {
        let mut res: Vec<&ResolvedEdge> = Vec::new();
        let mut i: usize = 0;
        while i < self.out.len()
            invariant
                i <= self.out@.len(),
                res@.map_values(|e: &ResolvedEdge| (*e)@) == incoming_spec(self.outs().take(i as int), id@),
            decreases self.out.len() - i,
        {
            let es = &self.out[i];
            let ghost base = res@.map_values(|e: &ResolvedEdge| (*e)@);
            let mut j: usize = 0;
            while j < es.len()
                invariant
                    i < self.out@.len(),
                    es == &self.out@[i as int],
                    j <= es@.len(),
                    res@.map_values(|e: &ResolvedEdge| (*e)@) == base + edges_into(redges(es@).take(j as int), id@),
                decreases es.len() - j,
            {
                let ghost before = res@;
                proof {
                    assert(redges(es@).take(j + 1).drop_last() =~= redges(es@).take(j as int));
                    assert(redges(es@).take(j + 1).last() == es@[j as int]@);
                }
                if str_eq(es[j].to.as_str(), id) {
                    res.push(&es[j]);
                    proof {
                        assert(res@ =~= before.push(&es@[j as int]));
                        assert(res@.map_values(|e: &ResolvedEdge| (*e)@) =~= before.map_values(|e: &ResolvedEdge| (*e)@).push(es@[j as int]@));
                    }
                }
                j += 1;
            }
            proof {
                assert(redges(es@).take(es@.len() as int) =~= redges(es@));
                assert(self.outs().take(i + 1).drop_last() =~= self.outs().take(i as int));
                assert(self.outs().take(i + 1).last() == redges(es@));
            }
            i += 1;
        }
        proof {
            assert(self.outs().take(self.out@.len() as int) =~= self.outs());
        }
        res
    }

    /// The root IDs, in order.
    pub fn root_ids(&self) -> (res: Vec<&str>)
        ensures
            res@.map_values(|s: &str| s@) == self.roots@.map_values(|r: RootDef| r.id@),
    {
        let mut res: Vec<&str> = Vec::new();
        let mut i: usize = 0;
        while i < self.roots.len()
            invariant
                i <= self.roots@.len(),
                res@.map_values(|s: &str| s@) == self.roots@.map_values(|r: RootDef| r.id@).take(i as int),
            decreases self.roots.len() - i,
        {
            let ghost before = res@;
            let r = self.roots[i].id.as_str();
            res.push(r);
            proof {
                assert(res@ =~= before.push(r));
                assert(res@.map_values(|s: &str| s@) =~= before.map_values(|s: &str| s@).push(r@));
                assert(self.roots@.map_values(|r: RootDef| r.id@).take(i + 1) =~= self.roots@.map_values(|r: RootDef| r.id@).take(i as int).push(self.roots@[i as int].id@));
            }
            i += 1;
        }
        proof {
            assert(self.roots@.map_values(|r: RootDef| r.id@).take(self.roots@.len() as int) =~= self.roots@.map_values(|r: RootDef| r.id@));
        }
        res
    }

    /// The events node `i` listens to.
    fn listened_at(&self, i: usize) -> (res: Vec<String>)
        requires
            i < self.nodes@.len(),
        ensures
            views(res@) == listened_spec(self.nodes@[i as int].edges@),
    {
        let es = &self.nodes[i].edges;
        let mut res: Vec<String> = Vec::new();
        let mut k: usize = 0;
        while k < es.len()
            invariant
                es == &self.nodes@[i as int].edges,
                k <= es@.len(),
                views(res@) == listened_spec(es@.take(k as int)),
            decreases es.len() - k,
        {
            proof {
                assert(es@.take(k + 1).drop_last() =~= es@.take(k as int));
                assert(es@.take(k + 1).last() == es@[k as int]);
            }
            match &es[k].kind {
                EdgeKind::On { event } => {
                    let ghost before = res@;
                    res.push(event.clone());
                    proof {
                        assert(views(res@) =~= views(before).push(event@));
                    }
                },
                _ => {},
            }
            k += 1;
        }
        proof {
            assert(es@.take(es@.len() as int) =~= es@);
        }
        res
    }

    /// Event IDs listened to with `on "ev" -> ...`. When the listener is reachable, so is the event.
    pub fn listened_events(&self, id: &str) -> (res: Vec<String>)
        ensures
            views(res@) == if self.has_node(id@) { listened_spec(self.nodes@[self.node_index(id@)].edges@) } else { Seq::<Seq<char>>::empty() },
    {
        match find_key(&self.nodes, id) {
            Some(i) => self.listened_at(i),
            None => {
                proof {
                    assert(views(Seq::<String>::empty()) =~= Seq::<Seq<char>>::empty());
                }
                Vec::new()
            },
        }
    }

    /// Where node `i` leads: its edge targets, then the events it listens to.
    fn successors(&self, i: usize) -> (res: Vec<String>)
        requires
            self.indexed(),
            i < self.nodes@.len(),
        ensures
            forall|b: Seq<char>| views(res@).contains(b) <==> self.leads_to(i as int, b),
    {
        let es = &self.out[i];
        let mut res: Vec<String> = Vec::new();
        let mut k: usize = 0;
        while k < es.len()
            invariant
                i < self.out@.len(),
                es == &self.out@[i as int],
                k <= es@.len(),
                res@.len() == k,
                forall|j: int| 0 <= j < k ==> (#[trigger] res@[j])@ == es@[j].to@,
            decreases es.len() - k,
        {
            res.push(es[k].to.clone());
            k += 1;
        }
        let ghost r0 = views(res@);
        proof {
            reveal(Graph::leads_to);
            assert forall|b: Seq<char>| r0.contains(b) <==> self.edge_to(i as int, b) by {
                if r0.contains(b) {
                    let m = choose|m: int| 0 <= m < r0.len() && r0[m] == b;
                    assert(res@[m]@ == es@[m].to@);
                    assert(self.out_of(i as int)[m].to == b);
                }
                if self.edge_to(i as int, b) {
                    let j = choose|j: int| 0 <= j < self.out_of(i as int).len() && (#[trigger] self.out_of(i as int)[j]).to == b;
                    assert(res@[j]@ == es@[j].to@);
                    assert(r0[j] == b);
                }
            }
        }
        let all = self.listened_at(i);
        let ghost la = views(all@);
        let mut ev: Vec<String> = Vec::new();
        let mut k: usize = 0;
        while k < all.len()
            invariant
                k <= all@.len(),
                la == views(all@),
                forall|b: Seq<char>|
                    #![trigger views(ev@).contains(b)]
                    #![trigger la.take(k as int).contains(b)]
                    views(ev@).contains(b) <==> (la.take(k as int).contains(b) && self.is_event_node(b)),
            decreases all.len() - k,
        {
            let keep = match find_key(&self.nodes, all[k].as_str()) {
                Some(j) => self.nodes[j].kind == Kind::Event,
                None => false,
            };
            let ghost before = views(ev@);
            proof {
                assert(keep == self.is_event_node(all@[k as int]@));
            }
            if keep {
                ev.push(all[k].clone());
            }
            proof {
                assert(la.take(k + 1) =~= la.take(k as int).push(all@[k as int]@));
                assert forall|b: Seq<char>|
                    #![trigger views(ev@).contains(b)]
                    #![trigger la.take(k + 1).contains(b)]
                    views(ev@).contains(b) <==> (la.take(k + 1).contains(b) && self.is_event_node(b)) by {
                    crate::strset::lemma_push_contains(la.take(k as int), all@[k as int]@, b);
                    if keep {
                        assert(views(ev@) =~= before.push(all@[k as int]@));
                        crate::strset::lemma_push_contains(before, all@[k as int]@, b);
                    } else {
                        assert(views(ev@) =~= before);
                    }
                    assert(before.contains(b) <==> (la.take(k as int).contains(b) && self.is_event_node(b)));
                }
            }
            k += 1;
        }
        proof {
            assert(la.take(all@.len() as int) =~= la);
        }
        let ghost e0 = views(ev@);
        res.append(&mut ev);
        proof {
            assert(views(res@) =~= r0 + e0);
            assert forall|b: Seq<char>| views(res@).contains(b) <==> self.leads_to(i as int, b) by {
                if views(res@).contains(b) {
                    let m = choose|m: int| 0 <= m < views(res@).len() && views(res@)[m] == b;
                    if m < r0.len() {
                        assert(r0[m] == b);
                    } else {
                        assert(e0[m - r0.len()] == b);
                    }
                }
                if r0.contains(b) {
                    let m = choose|m: int| 0 <= m < r0.len() && r0[m] == b;
                    assert(views(res@)[m] == b);
                }
                if e0.contains(b) {
                    let m = choose|m: int| 0 <= m < e0.len() && e0[m] == b;
                    assert(views(res@)[r0.len() + m] == b);
                }
                assert(e0.contains(b) <==> (listened_spec(self.nodes@[i as int].edges@).contains(b) && self.is_event_node(b)));
            }
        }
        res
    }
}

impl Graph {
    pub proof fn lemma_walk_one(&self, starts: Seq<Seq<char>>, i: int)
        requires
            0 <= i < self.nodes@.len(),
            starts.contains(self.nodes@[i].id@),
        ensures
            self.is_walk(starts, seq![i]),
    {
        reveal(Graph::is_walk);
        assert(seq![i][0] == i);
    }

    pub proof fn lemma_walk_push(&self, starts: Seq<Seq<char>>, p: Seq<int>, i: int)
        requires
            self.is_walk(starts, p),
            0 <= i < self.nodes@.len(),
            self.leads_to(p.last(), self.nodes@[i].id@),
        ensures
            self.is_walk(starts, p.push(i)),
            p.push(i).last() == i,
    {
        reveal(Graph::is_walk);
        let p2 = p.push(i);
        assert forall|k: int| 0 <= k < p2.len() implies 0 <= #[trigger] p2[k] < self.nodes@.len() by {
            if k < p.len() { assert(p2[k] == p[k]); }
        }
        assert forall|k: int| 0 <= k < p2.len() - 1 implies #[trigger] self.leads_to(p2[k], self.nodes@[p2[k + 1]].id@) by {
            if k < p.len() - 1 {
                assert(p2[k] == p[k] && p2[k + 1] == p[k + 1]);
                assert(self.leads_to(p[k], self.nodes@[p[k + 1]].id@));
            } else {
                assert(p2[k] == p.last() && p2[k + 1] == i);
            }
        }
        assert(p2[0] == p[0]);
    }

    pub proof fn lemma_walk_facts(&self, starts: Seq<Seq<char>>, p: Seq<int>)
        requires
            self.is_walk(starts, p),
        ensures
            p.len() > 0,
            0 <= p.last() < self.nodes@.len(),
            p.len() == 1 ==> starts.contains(self.nodes@[p.last()].id@),
            p.len() > 1 ==> self.is_walk(starts, p.drop_last()) && p.drop_last().last() == p[p.len() - 2]
                && self.leads_to(p[p.len() - 2], self.nodes@[p.last()].id@),
    {
        reveal(Graph::is_walk);
        assert(0 <= p[p.len() - 1] < self.nodes@.len());
        if p.len() > 1 {
            let p1 = p.drop_last();
            assert forall|k: int| 0 <= k < p1.len() implies 0 <= #[trigger] p1[k] < self.nodes@.len() by {
                assert(p1[k] == p[k]);
            }
            assert forall|k: int| 0 <= k < p1.len() - 1 implies #[trigger] self.leads_to(p1[k], self.nodes@[p1[k + 1]].id@) by {
                assert(p1[k] == p[k] && p1[k + 1] == p[k + 1]);
            }
            let k = p.len() - 2;
            assert(self.leads_to(p[k], self.nodes@[p[k + 1]].id@));
            assert(k + 1 == p.len() - 1);
        }
    }

    /// A node one step from a reachable node is reachable.
    proof fn lemma_reach_step(&self, st: Seq<Seq<char>>, j: int, i: int)
        requires
            keys_sorted(self.nodes@),
            0 <= j < self.nodes@.len(),
            0 <= i < self.nodes@.len(),
            self.reaches(st, self.nodes@[j].id@),
            self.leads_to(j, self.nodes@[i].id@),
        ensures
            self.reaches(st, self.nodes@[i].id@),
    {
        let p = choose|p: Seq<int>| #[trigger] self.is_walk(st, p) && self.nodes@[p.last()].id@ == self.nodes@[j].id@;
        self.lemma_walk_facts(st, p);
        lemma_key_unique(self.nodes@, self.nodes@[j].id@, p.last());
        lemma_key_unique(self.nodes@, self.nodes@[j].id@, j);
        self.lemma_walk_push(st, p, i);
        let p2 = p.push(i);
        assert(self.is_walk(st, p2) && self.nodes@[p2.last()].id@ == self.nodes@[i].id@);
    }

    /// `q` may be visited: a start, or where an already visited node leads.
    pub open spec fn cand(&self, starts: Seq<Seq<char>>, seen: Seq<Seq<char>>, q: Seq<char>) -> bool {
        starts.contains(q) || exists|i: int| 0 <= i < self.nodes@.len() && seen.contains(self.nodes@[i].id@) && #[trigger] self.leads_to(i, q)
    }

    /// Every node of a walk is in a set that holds the starts found in the queue and is
    /// closed under `leads_to` through the queue.
    proof fn lemma_walk_seen(&self, st: Seq<Seq<char>>, sv: Seq<Seq<char>>, qv: Seq<Seq<char>>, p: Seq<int>)
        requires
            self.is_walk(st, p),
            forall|x: Seq<char>| st.contains(x) ==> qv.contains(x),
            forall|i: int| 0 <= i < self.nodes@.len() && sv.contains(self.nodes@[i].id@) ==>
                forall|b: Seq<char>| self.leads_to(i, b) ==> qv.contains(b),
            forall|q: int| 0 <= q < qv.len() && self.has_node(qv[q]) ==> sv.contains(qv[q]),
        ensures
            sv.contains(self.nodes@[p.last()].id@),
        decreases p.len(),
    {
        self.lemma_walk_facts(st, p);
        let last = p.last();
        let x = self.nodes@[last].id@;
        assert(self.has_node(x)) by {
            assert(self.nodes@[last].key_view() == x);
        }
        if p.len() > 1 {
            self.lemma_walk_seen(st, sv, qv, p.drop_last());
            let pi = p[p.len() - 2];
            assert(sv.contains(self.nodes@[pi].id@));
            assert(0 <= pi < self.nodes@.len()) by {
                self.lemma_walk_facts(st, p.drop_last());
            }
            assert(self.leads_to(pi, x));
        }
        assert(qv.contains(x));
        let m = choose|m: int| 0 <= m < qv.len() && qv[m] == x;
        assert(self.has_node(qv[m]));
    }

    /// The nodes reachable from `starts`: a start that is a node, and every node that a
    /// reachable node leads to (an edge, or an event it listens to). Only nodes that exist
    /// are walked through.
    pub fn reach_forward(&self, starts: &[&str]) -> (res: Vec<String>)
        requires
            self.wf(),
        ensures
            sorted_strict(views(res@)),
            forall|x: Seq<char>| views(res@).contains(x) <==> self.reaches(starts@.map_values(|s: &str| s@), x),
    {
        let ghost st = starts@.map_values(|s: &str| s@);
        let mut queue: Vec<String> = Vec::new();
        let mut k: usize = 0;
        while k < starts.len()
            invariant
                st == starts@.map_values(|s: &str| s@),
                k <= starts@.len(),
                queue@.len() == k,
                forall|j: int| 0 <= j < k ==> (#[trigger] queue@[j])@ == st[j],
            decreases starts.len() - k,
        {
            queue.push(string_from(starts[k]));
            k += 1;
        }
        let mut seen: Vec<String> = Vec::new();
        let mut head: usize = 0;
        while head < queue.len()
            invariant
                self.wf(),
                st == starts@.map_values(|s: &str| s@),
                head <= queue@.len(),
                queue@.len() >= st.len(),
                forall|j: int| 0 <= j < st.len() ==> (#[trigger] queue@[j])@ == st[j],
                sorted_strict(views(seen@)),
                seen@.len() <= self.nodes@.len(),
                forall|x: Seq<char>| #[trigger] views(seen@).contains(x) ==> self.has_node(x) && self.reaches(st, x),
                forall|q: int| head <= q < queue@.len() ==> self.cand(st, views(seen@), (#[trigger] queue@[q])@),
                forall|i: int| 0 <= i < self.nodes@.len() && views(seen@).contains(self.nodes@[i].id@) ==>
                    forall|b: Seq<char>| self.leads_to(i, b) ==> views(queue@).contains(b),
                forall|q: int| 0 <= q < head && self.has_node((#[trigger] queue@[q])@) ==> views(seen@).contains(queue@[q]@),
            decreases self.nodes@.len() - seen@.len(), queue@.len() - head,
        {
            let ghost sv0 = views(seen@);
            let ghost q0 = queue@;
            let id = queue[head].clone();
            proof {
                assert(self.cand(st, sv0, id@));
            }
            head += 1;
            match find_key(&self.nodes, id.as_str()) {
                None => {},
                Some(i) => {
                    if !set_contains(&seen, id.as_str()) {
                        proof {
                            // the node is reachable: a start, or one step from a reachable node
                            if st.contains(id@) {
                                self.lemma_walk_one(st, i as int);
                                assert(self.nodes@[seq![i as int].last()].id@ == id@);
                                assert(self.is_walk(st, seq![i as int]));
                            } else {
                                let j = choose|j: int| 0 <= j < self.nodes@.len() && sv0.contains(self.nodes@[j].id@) && #[trigger] self.leads_to(j, id@);
                                assert(views(seen@).contains(self.nodes@[j].id@));
                                assert(self.reaches(st, self.nodes@[j].id@));
                                self.lemma_reach_step(st, j, i as int);
                            }
                        }
                        set_insert(&mut seen, id.clone());
                        proof {
                            let sv1 = views(seen@);
                            assert(self.reaches(st, id@));
                            assert(self.has_node(id@));
                            assert forall|x: Seq<char>| #[trigger] sv1.contains(x) implies self.has_node(x) && self.reaches(st, x) by {
                                if x != id@ {
                                    assert(sv0.contains(x));
                                }
                            }
                            lemma_sorted_no_dups(sv1);
                            assert forall|x: Seq<char>| sv1.contains(x) implies keys(self.nodes@).contains(x) by {
                                assert(self.has_node(x));
                                let m = choose|m: int| 0 <= m < self.nodes@.len() && (#[trigger] self.nodes@[m]).key_view() == x;
                                assert(keys(self.nodes@)[m] == x);
                            }
                            lemma_distinct_within(sv1, keys(self.nodes@));
                        }
                        let mut nxt = self.successors(i);
                        let ghost nv = views(nxt@);
                        let ghost n0 = nxt@;
                        let ghost qb = queue@;
                        queue.append(&mut nxt);
                        proof {
                            let sv1 = views(seen@);
                            assert(queue@ =~= qb + n0);
                            assert(views(queue@) =~= views(qb) + nv);
                            assert forall|q: int| head <= q < queue@.len() implies self.cand(st, sv1, (#[trigger] queue@[q])@) by {
                                if q < qb.len() {
                                    assert(self.cand(st, sv0, qb[q]@));
                                    if !st.contains(qb[q]@) {
                                        let j = choose|j: int| 0 <= j < self.nodes@.len() && sv0.contains(self.nodes@[j].id@) && #[trigger] self.leads_to(j, qb[q]@);
                                        assert(sv1.contains(self.nodes@[j].id@));
                                    }
                                } else {
                                    assert(nv[q - qb.len()] == queue@[q]@);
                                    assert(nv.contains(queue@[q]@));
                                    assert(self.leads_to(i as int, queue@[q]@));
                                    assert(sv1.contains(self.nodes@[i as int].id@));
                                }
                            }
                            assert forall|ii: int| 0 <= ii < self.nodes@.len() && sv1.contains(self.nodes@[ii].id@) implies
                                forall|b: Seq<char>| self.leads_to(ii, b) ==> views(queue@).contains(b) by {
                                assert forall|b: Seq<char>| self.leads_to(ii, b) implies views(queue@).contains(b) by {
                                    if sv0.contains(self.nodes@[ii].id@) {
                                        assert(views(qb).contains(b));
                                        let m = choose|m: int| 0 <= m < views(qb).len() && views(qb)[m] == b;
                                        assert(views(queue@)[m] == b);
                                    } else {
                                        assert(self.nodes@[ii].id@ == id@);
                                        lemma_key_unique(self.nodes@, id@, ii);
                                        lemma_key_unique(self.nodes@, id@, i as int);
                                        assert(nv.contains(b));
                                        let m = choose|m: int| 0 <= m < nv.len() && nv[m] == b;
                                        assert(views(queue@)[qb.len() + m] == b);
                                    }
                                }
                            }
                        }
                    }
                },
            }
            proof {
                let sv1 = views(seen@);
                assert forall|q: int| 0 <= q < head && self.has_node((#[trigger] queue@[q])@) implies sv1.contains(queue@[q]@) by {
                    if q < head - 1 {
                        assert(queue@[q] == q0[q]);
                    } else {
                        assert(queue@[q] == q0[q]);
                        assert(queue@[q]@ == id@);
                    }
                }
            }
        }
        proof {
            let sv = views(seen@);
            let qv = views(queue@);
            assert forall|x: Seq<char>| st.contains(x) implies qv.contains(x) by {
                let m = choose|m: int| 0 <= m < st.len() && st[m] == x;
                assert(queue@[m]@ == st[m]);
                assert(qv[m] == x);
            }
            assert forall|q: int| 0 <= q < qv.len() && self.has_node(qv[q]) implies sv.contains(qv[q]) by {
                assert(qv[q] == queue@[q]@);
            }
            assert forall|x: Seq<char>| sv.contains(x) <==> self.reaches(st, x) by {
                if self.reaches(st, x) {
                    let p = choose|p: Seq<int>| #[trigger] self.is_walk(st, p) && self.nodes@[p.last()].id@ == x;
                    self.lemma_walk_seen(st, sv, qv, p);
                }
            }
        }
        seen
    }

    /// The nodes reachable from the roots.
    pub fn reachable_from_roots(&self) -> (res: Vec<String>)
        requires
            self.wf(),
        ensures
            sorted_strict(views(res@)),
            forall|x: Seq<char>| views(res@).contains(x) <==> self.reaches(self.roots@.map_values(|r: RootDef| r.id@), x),
    {
        let roots = self.root_ids();
        let r = self.reach_forward(roots.as_slice());
        proof {
            assert(roots@.map_values(|s: &str| s@) == self.roots@.map_values(|r: RootDef| r.id@));
        }
        r
    }
}

impl Graph {
    /// `a` is a node with an edge to `b`.
    pub open spec fn step(&self, a: Seq<char>, b: Seq<char>) -> bool {
        self.has_node(a) && self.edge_to(self.node_index(a), b)
    }

    /// `p` follows edges: each element but the last is a node with an edge to the next.
    pub open spec fn is_path(&self, p: Seq<Seq<char>>) -> bool {
        &&& p.len() > 0
        &&& forall|k: int| 0 <= k < p.len() - 1 ==> #[trigger] self.step(p[k], p[k + 1])
    }

    /// A path from `from` to `to`.
    pub open spec fn path_between(&self, p: Seq<Seq<char>>, from: Seq<char>, to: Seq<char>) -> bool {
        self.is_path(p) && p[0] == from && p.last() == to
    }

    proof fn lemma_path_cons(&self, x: Seq<char>, p: Seq<Seq<char>>)
        requires
            self.is_path(p),
            self.step(x, p[0]),
        ensures
            self.is_path(seq![x] + p),
            (seq![x] + p)[0] == x,
            (seq![x] + p).last() == p.last(),
    {
        let q = seq![x] + p;
        assert forall|k: int| 0 <= k < q.len() - 1 implies #[trigger] self.step(q[k], q[k + 1]) by {
            if k == 0 {
                assert(q[0] == x && q[1] == p[0]);
            } else {
                assert(q[k] == p[k - 1] && q[k + 1] == p[k]);
                assert(self.step(p[k - 1], p[(k - 1) + 1]));
            }
        }
    }

    /// Follows parent links back from `order[last]` to `order[0]`.
    fn walk_back(&self, order: &Vec<String>, parent: &Vec<usize>, last: usize, Ghost(lv): Ghost<Seq<int>>) -> (res: Vec<String>)
        requires
            order@.len() == parent@.len(),
            last < order@.len(),
            forall|k: int| 1 <= k < order@.len() ==> (#[trigger] parent@[k]) < k
                && self.step(order@[parent@[k] as int]@, order@[k]@),
            lv.len() == order@.len(),
            lv[0] == 0,
            forall|k: int| 1 <= k < order@.len() ==> lv[k] == lv[#[trigger] parent@[k] as int] + 1,
        ensures
            self.path_between(views(res@), order@[0]@, order@[last as int]@),
            views(res@).len() == lv[last as int] + 1,
    {
        let mut path: Vec<String> = Vec::new();
        path.push(order[last].clone());
        let mut k = last;
        proof {
            assert(views(path@) =~= seq![order@[last as int]@]);
        }
        while k > 0
            invariant
                order@.len() == parent@.len(),
                k <= last < order@.len(),
                forall|m: int| 1 <= m < order@.len() ==> (#[trigger] parent@[m]) < m
                    && self.step(order@[parent@[m] as int]@, order@[m]@),
                self.is_path(views(path@)),
                views(path@)[0] == order@[k as int]@,
                views(path@).last() == order@[last as int]@,
                lv.len() == order@.len(),
                lv[0] == 0,
                forall|m: int| 1 <= m < order@.len() ==> lv[m] == lv[#[trigger] parent@[m] as int] + 1,
                views(path@).len() == lv[last as int] - lv[k as int] + 1,
            decreases k,
        {
            let pk = parent[k];
            assert(parent@[k as int] < k);
            let ghost before = views(path@);
            proof {
                self.lemma_path_cons(order@[pk as int]@, before);
            }
            path.insert(0, order[pk].clone());
            proof {
                assert(views(path@) =~= seq![order@[pk as int]@] + before);
            }
            k = pk;
        }
        path
    }

    /// A path from `from` ends at its last element; if that is never `to`, no path gets there.
    proof fn lemma_no_path(&self, order: Seq<Seq<char>>, from: Seq<char>, to: Seq<char>, q: Seq<Seq<char>>)
        requires
            order.len() > 0,
            order[0] == from,
            from != to,
            self.is_path(q),
            q[0] == from,
            forall|k: int| 0 <= k < order.len() && self.has_node(order[k]) ==>
                forall|b: Seq<char>| #[trigger] self.edge_to(self.node_index(order[k]), b) ==>
                    b != to && (self.has_node(b) ==> order.contains(b)),
        ensures
            q.last() != to,
            self.has_node(q.last()) ==> order.contains(q.last()),
        decreases q.len(),
    {
        if q.len() == 1 {
            assert(order[0] == q.last());
        } else {
            let q1 = q.drop_last();
            assert forall|k: int| 0 <= k < q1.len() - 1 implies #[trigger] self.step(q1[k], q1[k + 1]) by {
                assert(q1[k] == q[k] && q1[k + 1] == q[k + 1]);
            }
            self.lemma_no_path(order, from, to, q1);
            let a = q1.last();
            let m = q.len() - 2;
            assert(self.step(q[m], q[m + 1]));
            assert(a == q[m] && q.last() == q[m + 1]);
            let k = choose|k: int| 0 <= k < order.len() && order[k] == a;
            assert(self.edge_to(self.node_index(order[k]), q.last()));
        }
    }

    /// Appending a node one level below node `qi` keeps the levels in order and what the
    /// finished nodes found.
    proof fn lemma_levels_push(&self, ov: Seq<Seq<char>>, lv: Seq<int>, qi: int, t: Seq<char>)
        requires
            ov.len() == lv.len(),
            0 <= qi < ov.len(),
            forall|a: int, b: int| 0 <= a <= b < ov.len() ==> #[trigger] lv[a] <= #[trigger] lv[b],
            lv[ov.len() - 1] <= lv[qi] + 1,
            forall|k: int| 0 <= k < qi && self.has_node(ov[k]) ==>
                forall|b: Seq<char>| #[trigger] self.edge_to(self.node_index(ov[k]), b) && self.has_node(b)
                    ==> found_within(ov, lv, b, lv[k] + 1),
        ensures
            forall|a: int, b: int| 0 <= a <= b < ov.push(t).len() ==>
                #[trigger] lv.push(lv[qi] + 1)[a] <= #[trigger] lv.push(lv[qi] + 1)[b],
            lv.push(lv[qi] + 1)[ov.len() as int] <= lv.push(lv[qi] + 1)[qi] + 1,
            forall|k: int| 0 <= k < qi && self.has_node(ov.push(t)[k]) ==>
                forall|b: Seq<char>| #[trigger] self.edge_to(self.node_index(ov.push(t)[k]), b) && self.has_node(b)
                    ==> found_within(ov.push(t), lv.push(lv[qi] + 1), b, lv.push(lv[qi] + 1)[k] + 1),
    {
        let ov2 = ov.push(t);
        let lv2 = lv.push(lv[qi] + 1);
        assert forall|a: int, b: int| 0 <= a <= b < ov2.len() implies #[trigger] lv2[a] <= #[trigger] lv2[b] by {
            if b == ov.len() {
                if a < ov.len() {
                    assert(lv[a] <= lv[ov.len() - 1]);
                }
            }
        }
        assert forall|k: int| 0 <= k < qi && self.has_node(ov2[k]) implies
            forall|b: Seq<char>| #[trigger] self.edge_to(self.node_index(ov2[k]), b) && self.has_node(b)
                ==> found_within(ov2, lv2, b, lv2[k] + 1) by {
            assert(ov2[k] == ov[k] && lv2[k] == lv[k]);
            assert forall|b: Seq<char>| #[trigger] self.edge_to(self.node_index(ov2[k]), b) && self.has_node(b)
                implies found_within(ov2, lv2, b, lv2[k] + 1) by {
                lemma_found_push(ov, lv, b, lv[k] + 1, t, lv[qi] + 1);
            }
        }
    }

    /// Breadth-first levels: while the nodes before `qi` are done, a path from the start
    /// reaches no node in fewer steps than its level, and does not reach `to` within
    /// `lv[qi]` steps.
    proof fn lemma_bfs_levels(&self, ov: Seq<Seq<char>>, lv: Seq<int>, qi: int, to: Seq<char>, q: Seq<Seq<char>>, i: int)
        requires
            ov.len() == lv.len(),
            0 <= qi < ov.len(),
            lv[0] == 0,
            forall|a: int, b: int| 0 <= a <= b < ov.len() ==> #[trigger] lv[a] <= #[trigger] lv[b],
            forall|k: int| 0 <= k < qi && self.has_node(ov[k]) ==>
                forall|b: Seq<char>| #[trigger] self.edge_to(self.node_index(ov[k]), b) ==> b != to,
            forall|k: int| 0 <= k < qi && self.has_node(ov[k]) ==>
                forall|b: Seq<char>| #[trigger] self.edge_to(self.node_index(ov[k]), b) && self.has_node(b)
                    ==> found_within(ov, lv, b, lv[k] + 1),
            self.is_path(q),
            q[0] == ov[0],
            0 <= i < q.len(),
            i <= lv[qi],
        ensures
            i >= 1 ==> q[i] != to,
            (i == 0 || self.has_node(q[i])) ==> found_within(ov, lv, q[i], i),
        decreases i,
    {
        if i == 0 {
            assert(ov[0] == q[0]);
        } else {
            assert(self.step(q[i - 1], q[(i - 1) + 1]));
            self.lemma_bfs_levels(ov, lv, qi, to, q, i - 1);
            let idx = choose|idx: int| 0 <= idx < ov.len() && #[trigger] ov[idx] == q[i - 1] && lv[idx] <= i - 1;
            if idx >= qi {
                assert(lv[qi] <= lv[idx]);
            }
            assert(self.edge_to(self.node_index(ov[idx]), q[i]));
            if self.has_node(q[i]) {
                assert(found_within(ov, lv, q[i], lv[idx] + 1));
                let m = choose|m: int| 0 <= m < ov.len() && #[trigger] ov[m] == q[i] && lv[m] <= lv[idx] + 1;
                assert(ov[m] == q[i] && lv[m] <= i);
            }
        }
    }

    /// A shortest path from `from` to `to` (breadth-first over the resolved edges), or
    /// `None` when there is none. `from == to` gives the one-element path.
    pub fn shortest_path(&self, from: &str, to: &str) -> (res: Option<Vec<String>>)
        requires
            self.wf(),
        ensures
            match res {
                Some(p) => self.path_between(views(p@), from@, to@)
                    && forall|q: Seq<Seq<char>>| #[trigger] self.path_between(q, from@, to@) ==> views(p@).len() <= q.len(),
                None => from@ != to@ && !exists|q: Seq<Seq<char>>| #[trigger] self.path_between(q, from@, to@),
            },
            self.shortest_ok(from@, to@, opt_path(res)),
    {
        if str_eq(from, to) {
            let mut v: Vec<String> = Vec::new();
            v.push(string_from(from));
            proof {
                assert(views(v@) =~= seq![from@]);
            }
            return Some(v);
        }
        let mut order: Vec<String> = Vec::new();
        order.push(string_from(from));
        let mut parent: Vec<usize> = Vec::new();
        parent.push(0);
        let mut qi: usize = 0;
        let ghost mut lv: Seq<int> = seq![0int];
        proof {
            assert(views(order@) =~= seq![from@]);
        }
        while qi < order.len()
            invariant
                lv.len() == order@.len(),
                lv[0] == 0,
                forall|k: int| 1 <= k < order@.len() ==> lv[k] == lv[#[trigger] parent@[k] as int] + 1,
                forall|a: int, b: int| 0 <= a <= b < order@.len() ==> #[trigger] lv[a] <= #[trigger] lv[b],
                qi < order@.len() ==> lv[order@.len() - 1] <= lv[qi as int] + 1,
                forall|k: int| 0 <= k < qi && self.has_node(views(order@)[k]) ==>
                    forall|b: Seq<char>| #[trigger] self.edge_to(self.node_index(views(order@)[k]), b) && self.has_node(b)
                        ==> found_within(views(order@), lv, b, lv[k] + 1),
                self.wf(),
                from@ != to@,
                order@.len() == parent@.len(),
                order@.len() >= 1,
                views(order@)[0] == from@,
                views(order@).no_duplicates(),
                !views(order@).contains(to@),
                forall|k: int| 1 <= k < order@.len() ==> (#[trigger] parent@[k]) < k
                    && self.step(order@[parent@[k] as int]@, order@[k]@),
                forall|k: int| 1 <= k < order@.len() ==> self.has_node((#[trigger] order@[k])@),
                forall|k: int| 0 <= k < qi && self.has_node(views(order@)[k]) ==>
                    forall|b: Seq<char>| #[trigger] self.edge_to(self.node_index(views(order@)[k]), b) ==>
                        b != to@ && (self.has_node(b) ==> views(order@).contains(b)),
                qi <= order@.len(),
                order@.len() <= self.nodes@.len() + 1,
            decreases self.nodes@.len() + 1 - qi,
        {
            let cur = order[qi].clone();
            match find_key(&self.nodes, cur.as_str()) {
                None => {},
                Some(i) => {
                    let es = &self.out[i];
                    let mut j: usize = 0;
                    while j < es.len()
                        invariant
                            lv.len() == order@.len(),
                            lv[0] == 0,
                            forall|k: int| 1 <= k < order@.len() ==> lv[k] == lv[#[trigger] parent@[k] as int] + 1,
                            forall|a: int, b: int| 0 <= a <= b < order@.len() ==> #[trigger] lv[a] <= #[trigger] lv[b],
                            lv[order@.len() - 1] <= lv[qi as int] + 1,
                            forall|k: int| 0 <= k < qi && self.has_node(views(order@)[k]) ==>
                                forall|b: Seq<char>| #[trigger] self.edge_to(self.node_index(views(order@)[k]), b) && self.has_node(b)
                                    ==> found_within(views(order@), lv, b, lv[k] + 1),
                            self.wf(),
                            from@ != to@,
                            i < self.nodes@.len(),
                            es == &self.out@[i as int],
                            cur@ == views(order@)[qi as int],
                            i as int == self.node_index(cur@),
                            self.has_node(cur@),
                            j <= es@.len(),
                            qi < order@.len(),
                            order@.len() == parent@.len(),
                            order@.len() >= 1,
                            views(order@)[0] == from@,
                            views(order@).no_duplicates(),
                            !views(order@).contains(to@),
                            forall|k: int| 1 <= k < order@.len() ==> (#[trigger] parent@[k]) < k
                                && self.step(order@[parent@[k] as int]@, order@[k]@),
                            forall|k: int| 1 <= k < order@.len() ==> self.has_node((#[trigger] order@[k])@),
                            forall|k: int| 0 <= k < qi && self.has_node(views(order@)[k]) ==>
                                forall|b: Seq<char>| #[trigger] self.edge_to(self.node_index(views(order@)[k]), b) ==>
                                    b != to@ && (self.has_node(b) ==> views(order@).contains(b)),
                            forall|m: int| 0 <= m < j ==> (#[trigger] es@[m]).to@ != to@
                                && (self.has_node(es@[m].to@) ==> views(order@).contains(es@[m].to@)),
                            order@.len() <= self.nodes@.len() + 1,
                        decreases es.len() - j,
                    {
                        let t = &es[j].to;
                        let ghost ob = order@;
                        let ghost pb = parent@;
                        proof {
                            assert(self.out_of(i as int)[j as int] == es@[j as int]@);
                            assert(self.edge_to(i as int, t@));
                        }
                        if !set_contains(&order, t.as_str()) {
                            if str_eq(t.as_str(), to) {
                                let ghost lvb = lv;
                                order.push(t.clone());
                                parent.push(qi);
                                proof {
                                    lv = lv.push(lvb[qi as int] + 1);
                                    assert(order@ =~= ob.push(order@[ob.len() as int]));
                                    assert forall|k: int| 1 <= k < order@.len() implies (#[trigger] parent@[k]) < k
                                        && self.step(order@[parent@[k] as int]@, order@[k]@) by {
                                        if k < ob.len() {
                                            assert(parent@[k] == pb[k] && order@[k] == ob[k]);
                                            assert(order@[pb[k] as int] == ob[pb[k] as int]);
                                        } else {
                                            assert(order@[qi as int] == ob[qi as int]);
                                        }
                                    }
                                }
                                let p = self.walk_back(&order, &parent, order.len() - 1, Ghost(lv));
                                proof {
                                    assert forall|q: Seq<Seq<char>>| #[trigger] self.path_between(q, from@, to@)
                                        implies views(p@).len() <= q.len() by {
                                        if q.len() < lvb[qi as int] + 2 {
                                            assert(q[0] != q.last());
                                            self.lemma_bfs_levels(views(ob), lvb, qi as int, to@, q, q.len() - 1);
                                        }
                                    }
                                }
                                return Some(p);
                            }
                            if contains_key(&self.nodes, t.as_str()) {
                                let ghost lvb = lv;
                                order.push(t.clone());
                                parent.push(qi);
                                proof {
                                    lv = lv.push(lvb[qi as int] + 1);
                                    assert(views(order@) =~= views(ob).push(t@));
                                    self.lemma_levels_push(views(ob), lvb, qi as int, t@);
                                    let ov = views(order@);
                                    assert(ov =~= views(ob).push(t@));
                                    assert forall|k: int| 1 <= k < order@.len() implies (#[trigger] parent@[k]) < k
                                        && self.step(order@[parent@[k] as int]@, order@[k]@) by {
                                        if k < ob.len() {
                                            assert(parent@[k] == pb[k] && order@[k] == ob[k]);
                                            assert(order@[pb[k] as int] == ob[pb[k] as int]);
                                        } else {
                                            assert(order@[qi as int] == ob[qi as int]);
                                        }
                                    }
                                    assert forall|k: int| 1 <= k < order@.len() implies self.has_node((#[trigger] order@[k])@) by {
                                        if k < ob.len() {
                                            assert(order@[k] == ob[k]);
                                        }
                                    }
                                    assert(ov.no_duplicates());
                                    let rest = ov.drop_first();
                                    assert forall|x: Seq<char>| rest.contains(x) implies keys(self.nodes@).contains(x) by {
                                        let m = choose|m: int| 0 <= m < rest.len() && rest[m] == x;
                                        assert(ov[m + 1] == x);
                                        assert(self.has_node(order@[m + 1]@));
                                        let n = choose|n: int| 0 <= n < self.nodes@.len() && (#[trigger] self.nodes@[n]).key_view() == x;
                                        assert(keys(self.nodes@)[n] == x);
                                    }
                                    assert(rest.no_duplicates()) by {
                                        assert forall|a: int, b: int| 0 <= a < rest.len() && 0 <= b < rest.len() && a != b implies rest[a] != rest[b] by {
                                            assert(rest[a] == ov[a + 1] && rest[b] == ov[b + 1]);
                                        }
                                    }
                                    lemma_distinct_within(rest, keys(self.nodes@));
                                    assert forall|k: int| 0 <= k < qi && self.has_node(ov[k]) implies
                                        forall|b: Seq<char>| #[trigger] self.edge_to(self.node_index(ov[k]), b) ==>
                                            b != to@ && (self.has_node(b) ==> ov.contains(b)) by {
                                        assert(ov[k] == views(ob)[k]);
                                        assert forall|b: Seq<char>| #[trigger] self.edge_to(self.node_index(ov[k]), b) implies
                                            b != to@ && (self.has_node(b) ==> ov.contains(b)) by {
                                            if self.has_node(b) {
                                                assert(views(ob).contains(b));
                                                let m = choose|m: int| 0 <= m < views(ob).len() && views(ob)[m] == b;
                                                assert(ov[m] == b);
                                            }
                                        }
                                    }
                                    assert forall|m: int| 0 <= m < j + 1 implies (#[trigger] es@[m]).to@ != to@
                                        && (self.has_node(es@[m].to@) ==> ov.contains(es@[m].to@)) by {
                                        if m < j {
                                            if self.has_node(es@[m].to@) {
                                                let n = choose|n: int| 0 <= n < views(ob).len() && views(ob)[n] == es@[m].to@;
                                                assert(ov[n] == es@[m].to@);
                                            }
                                        } else {
                                            assert(ov[ov.len() - 1] == t@);
                                        }
                                    }
                                    assert(!ov.contains(to@)) by {
                                        if ov.contains(to@) {
                                            let n = choose|n: int| 0 <= n < ov.len() && ov[n] == to@;
                                            if n < ob.len() {
                                                assert(views(ob)[n] == to@);
                                            }
                                        }
                                    }
                                    assert(ov[0] == from@);
                                }
                            }
                        }
                        j += 1;
                    }
                    proof {
                        let ov = views(order@);
                        assert forall|b: Seq<char>| #[trigger] self.edge_to(self.node_index(ov[qi as int]), b) implies
                            b != to@ && (self.has_node(b) ==> ov.contains(b)) by {
                            let m = choose|m: int| 0 <= m < self.out_of(i as int).len() && (#[trigger] self.out_of(i as int)[m]).to == b;
                            assert(self.out_of(i as int)[m] == es@[m]@);
                        }
                    }
                },
            }
            proof {
                let ov = views(order@);
                assert forall|k: int| 0 <= k < qi + 1 && self.has_node(ov[k]) implies
                    forall|b: Seq<char>| #[trigger] self.edge_to(self.node_index(ov[k]), b) ==>
                        b != to@ && (self.has_node(b) ==> ov.contains(b)) by {
                    if k == qi {
                        lemma_key_index(self.nodes@, cur@);
                    }
                }
                assert forall|idx: int| 0 <= idx < ov.len() implies #[trigger] lv[idx] <= lv[qi as int] + 1 by {
                    assert(lv[idx] <= lv[ov.len() - 1]);
                }
                assert forall|k: int| 0 <= k < qi + 1 && self.has_node(ov[k]) implies
                    forall|b: Seq<char>| #[trigger] self.edge_to(self.node_index(ov[k]), b) && self.has_node(b)
                        ==> found_within(ov, lv, b, lv[k] + 1) by {
                    if k == qi {
                        assert forall|b: Seq<char>| #[trigger] self.edge_to(self.node_index(ov[k]), b) && self.has_node(b)
                            implies found_within(ov, lv, b, lv[k] + 1) by {
                            lemma_found_contains(ov, lv, b, lv[qi as int] + 1);
                        }
                    }
                }
                if qi + 1 < ov.len() {
                    assert(lv[qi as int] <= lv[qi + 1]);
                }
            }
            qi += 1;
        }
        proof {
            let ov = views(order@);
            assert forall|q: Seq<Seq<char>>| #[trigger] self.path_between(q, from@, to@) implies false by {
                self.lemma_no_path(ov, from@, to@, q);
            }
        }
        None
    }
}

impl Graph {
    /// What `shortest_path(from, to)` gives: a shortest path, or `None` when there is none.
    pub open spec fn shortest_ok(&self, from: Seq<char>, to: Seq<char>, res: Option<Seq<Seq<char>>>) -> bool {
        match res {
            Some(p) => self.path_between(p, from, to)
                && forall|q: Seq<Seq<char>>| #[trigger] self.path_between(q, from, to) ==> p.len() <= q.len(),
            None => from != to && !exists|q: Seq<Seq<char>>| #[trigger] self.path_between(q, from, to),
        }
    }

    /// What `path_from_roots(to)` gives: a path from a root no longer than any root's path,
    /// from the first root that has one that short; `None` when no root reaches `to`.
    pub open spec fn roots_path_ok(&self, to: Seq<char>, res: Option<Seq<Seq<char>>>) -> bool {
        match res {
            Some(p) => self.is_path(p) && p.last() == to
                && (forall|r: int, q: Seq<Seq<char>>| 0 <= r < self.roots@.len()
                    && #[trigger] self.path_between(q, self.roots@[r].id@, to) ==> p.len() <= q.len())
                && exists|r: int| #[trigger] self.wins_at(p, to, r),
            None => forall|r: int, q: Seq<Seq<char>>| 0 <= r < self.roots@.len()
                ==> !#[trigger] self.path_between(q, self.roots@[r].id@, to),
        }
    }

    /// The root path has the length of the shortest of the roots' shortest paths, and
    /// there is none exactly when no root has one: given `sps[r]`, what `shortest_path`
    /// gives from root `r`, and `res`, what `path_from_roots` gives.
    pub proof fn lemma_roots_path_is_the_shortest(&self, to: Seq<char>, res: Option<Seq<Seq<char>>>, sps: Seq<Option<Seq<Seq<char>>>>)
        requires
            self.roots_path_ok(to, res),
            sps.len() == self.roots@.len(),
            forall|r: int| 0 <= r < sps.len() ==> self.shortest_ok(self.roots@[r].id@, to, #[trigger] sps[r]),
        ensures
            res is None <==> forall|r: int| 0 <= r < sps.len() ==> (#[trigger] sps[r]) is None,
            res matches Some(p) ==> forall|r: int| 0 <= r < sps.len() ==> (#[trigger] sps[r] matches Some(q) ==> p.len() <= q.len()),
            res matches Some(p) ==> exists|r: int| 0 <= r < sps.len() && (#[trigger] sps[r] matches Some(q) && q.len() == p.len()),
    {
        match res {
            Some(p) => {
                let r = choose|r: int| #[trigger] self.wins_at(p, to, r);
                assert(self.path_between(p, self.roots@[r].id@, to));
                assert(self.shortest_ok(self.roots@[r].id@, to, sps[r]));
                match sps[r] {
                    Some(q) => {
                        assert(q.len() <= p.len());
                        assert(p.len() <= q.len());
                    },
                    None => {},
                }
                assert forall|r2: int| 0 <= r2 < sps.len() implies (#[trigger] sps[r2] matches Some(q) ==> p.len() <= q.len()) by {
                    assert(self.shortest_ok(self.roots@[r2].id@, to, sps[r2]));
                }
            },
            None => {
                assert forall|r: int| 0 <= r < sps.len() implies (#[trigger] sps[r]) is None by {
                    assert(self.shortest_ok(self.roots@[r].id@, to, sps[r]));
                    if let Some(q) = sps[r] {
                        assert(self.path_between(q, self.roots@[r].id@, to));
                    }
                }
            },
        }
    }

    /// Root `r` is where `p` starts, and every earlier root only has longer paths to `to`.
    pub open spec fn wins_at(&self, p: Seq<Seq<char>>, to: Seq<char>, r: int) -> bool {
        &&& 0 <= r < self.roots@.len()
        &&& p[0] == self.roots@[r].id@
        &&& forall|r2: int, q: Seq<Seq<char>>| 0 <= r2 < r
            && #[trigger] self.path_between(q, self.roots@[r2].id@, to) ==> p.len() < q.len()
    }

    /// A shortest path from any root to `to`: the shortest among the roots' shortest paths,
    /// the first root winning a tie. No root has a shorter path to `to`.
    pub fn path_from_roots(&self, to: &str) -> (res: Option<Vec<String>>)
        requires
            self.wf(),
        ensures
            match res {
                Some(p) => self.is_path(views(p@)) && views(p@).last() == to@
                    && self.roots@.map_values(|r: RootDef| r.id@).contains(views(p@)[0])
                    && (forall|r: int, q: Seq<Seq<char>>| 0 <= r < self.roots@.len()
                        && #[trigger] self.path_between(q, self.roots@[r].id@, to@) ==> views(p@).len() <= q.len())
                    && exists|r: int| #[trigger] self.wins_at(views(p@), to@, r),
                None => forall|r: int, q: Seq<Seq<char>>| 0 <= r < self.roots@.len()
                    ==> !#[trigger] self.path_between(q, self.roots@[r].id@, to@),
            },
            self.roots_path_ok(to@, opt_path(res)),
    {
        let mut best: Option<Vec<String>> = None;
        let ghost mut bi: int = 0;
        let mut i: usize = 0;
        let ghost ids = self.roots@.map_values(|r: RootDef| r.id@);
        while i < self.roots.len()
            invariant
                self.wf(),
                i <= self.roots@.len(),
                ids == self.roots@.map_values(|r: RootDef| r.id@),
                match best {
                    Some(p) => self.is_path(views(p@)) && views(p@).last() == to@ && ids.contains(views(p@)[0])
                        && (forall|r: int, q: Seq<Seq<char>>| 0 <= r < i
                            && #[trigger] self.path_between(q, self.roots@[r].id@, to@) ==> views(p@).len() <= q.len())
                        && bi < i && self.wins_at(views(p@), to@, bi),
                    None => forall|r: int, q: Seq<Seq<char>>| 0 <= r < i
                        ==> !#[trigger] self.path_between(q, self.roots@[r].id@, to@),
                },
            decreases self.roots.len() - i,
        {
            match self.shortest_path(self.roots[i].id.as_str(), to) {
                Some(p) => {
                    proof {
                        assert(ids[i as int] == self.roots@[i as int].id@);
                    }
                    let ghost old_best = best;
                    let better = match &best {
                        Some(b) => p.len() < b.len(),
                        None => true,
                    };
                    if better {
                        proof {
                            bi = i as int;
                            let pv = views(p@);
                            assert(pv.len() == p@.len());
                            assert forall|r2: int, q: Seq<Seq<char>>| 0 <= r2 < bi
                                && #[trigger] self.path_between(q, self.roots@[r2].id@, to@) implies pv.len() < q.len() by {
                                match old_best {
                                    Some(b) => {
                                        assert(views(b@).len() == b@.len());
                                        assert(views(b@).len() <= q.len());
                                    },
                                    None => {},
                                }
                            }
                            assert(self.wins_at(pv, to@, bi));
                        }
                        best = Some(p);
                    }
                },
                None => {},
            }
            i += 1;
        }
        best
    }

    /// A good result of `all_paths`: a simple path from `from` to `to` of 2 to `depth` nodes.
    pub open spec fn simple_path(&self, p: Seq<Seq<char>>, from: Seq<char>, to: Seq<char>, depth: nat) -> bool {
        &&& self.path_between(p, from, to)
        &&& p.no_duplicates()
        &&& 2 <= p.len() <= depth
    }

    /// Below the limit `max`, `res` holds every good path that starts with `pre`.
    pub open spec fn finds_all(&self, res: Seq<Vec<String>>, max: nat, pre: Seq<Seq<char>>, to: Seq<char>, depth: nat) -> bool {
        res.len() < max ==> forall|q: Seq<Seq<char>>| #[trigger] self.simple_path(q, pre[0], to, depth)
            && pre.is_prefix_of(q) ==> path_views(res).contains(q)
    }

    /// Up to `max` simple paths between two nodes (depth-first, at most `depth` nodes each);
    /// where fewer than `max` come back, they are all there are.
    pub fn all_paths(&self, from: &str, to: &str, max: usize, depth: usize) -> (res: Vec<Vec<String>>)
        requires
            self.wf(),
        ensures
            res@.len() <= max,
            forall|i: int| 0 <= i < res@.len() ==> self.simple_path(views((#[trigger] res@[i])@), from@, to@, depth as nat),
            res@.len() < max ==> forall|q: Seq<Seq<char>>| #[trigger] self.simple_path(q, from@, to@, depth as nat)
                ==> path_views(res@).contains(q),
            path_views(res@).no_duplicates(),
    {
        let mut res: Vec<Vec<String>> = Vec::new();
        let mut stack: Vec<String> = Vec::new();
        stack.push(string_from(from));
        proof {
            assert(views(stack@) =~= seq![from@]);
        }
        if depth >= 1 {
            self.dfs_paths(from, to, max, depth, &mut stack, &mut res);
            proof {
                assert forall|q: Seq<Seq<char>>| #[trigger] self.simple_path(q, from@, to@, depth as nat)
                    && res@.len() < max implies path_views(res@).contains(q) by {
                    assert(seq![from@] =~= q.subrange(0, 1));
                    assert(seq![from@].is_prefix_of(q));
                    assert(self.simple_path(q, seq![from@][0], to@, depth as nat));
                }
            }
        }
        res
    }

    fn dfs_paths(&self, cur: &str, to: &str, max: usize, depth: usize, stack: &mut Vec<String>, res: &mut Vec<Vec<String>>)
        requires
            self.wf(),
            1 <= old(stack)@.len() <= depth,
            self.is_path(views(old(stack)@)),
            views(old(stack)@).no_duplicates(),
            views(old(stack)@).last() == cur@,
            old(res)@.len() <= max,
            forall|i: int| 0 <= i < old(res)@.len() ==> self.simple_path(views((#[trigger] old(res)@[i])@), views(old(stack)@)[0], to@, depth as nat),
            path_views(old(res)@).no_duplicates(),
            forall|i: int| 0 <= i < old(res)@.len() ==> !views(old(stack)@).is_prefix_of(#[trigger] path_views(old(res)@)[i]),
        ensures
            final(stack)@ == old(stack)@,
            final(res)@.len() <= max,
            forall|i: int| 0 <= i < final(res)@.len() ==> self.simple_path(views((#[trigger] final(res)@[i])@), views(old(stack)@)[0], to@, depth as nat),
            old(res)@.is_prefix_of(final(res)@),
            self.finds_all(final(res)@, max as nat, views(old(stack)@), to@, depth as nat),
            path_views(final(res)@).no_duplicates(),
            forall|i: int| old(res)@.len() <= i < final(res)@.len() ==> views(old(stack)@).is_prefix_of(#[trigger] path_views(final(res)@)[i]),
        decreases depth - old(stack)@.len(),
    {
        if res.len() >= max {
            proof {
                assert(res@ =~= res@.subrange(0, res@.len() as int));
            }
            return;
        }
        if str_eq(cur, to) && stack.len() > 1 {
            let p = stack.clone();
            proof {
                assert(views(p@) == views(stack@));
            }
            let ghost r0 = res@;
            res.push(p);
            proof {
                let sv = views(stack@);
                assert(r0 =~= res@.subrange(0, r0.len() as int));
                assert forall|q: Seq<Seq<char>>| #[trigger] self.simple_path(q, sv[0], to@, depth as nat)
                    && sv.is_prefix_of(q) implies path_views(res@).contains(q) by {
                    if q.len() > sv.len() {
                        assert(q[sv.len() - 1] == sv[sv.len() - 1]);
                        assert(q[sv.len() - 1] == q[q.len() - 1]);
                    }
                    assert(q =~= sv);
                    assert(path_views(res@)[r0.len() as int] == views(p@));
                }
                let pv = path_views(res@);
                assert(pv =~= path_views(r0).push(sv));
                assert(sv.is_prefix_of(sv)) by {
                    assert(sv =~= sv.subrange(0, sv.len() as int));
                }
                assert(pv.no_duplicates()) by {
                    assert forall|a: int, b: int| 0 <= a < pv.len() && 0 <= b < pv.len() && a != b implies pv[a] != pv[b] by {
                        if a < r0.len() && b < r0.len() {
                            assert(pv[a] == path_views(r0)[a] && pv[b] == path_views(r0)[b]);
                        } else if a == r0.len() {
                            assert(pv[b] == path_views(r0)[b]);
                        } else {
                            assert(pv[a] == path_views(r0)[a]);
                        }
                    }
                }
            }
            return;
        }
        // several edges to one target count as one neighbour
        let mut targets: Vec<String> = Vec::new();
        match find_key(&self.nodes, cur) {
            Some(i) => {
                let es = &self.out[i];
                let mut k: usize = 0;
                while k < es.len()
                    invariant
                        self.wf(),
                        i < self.nodes@.len(),
                        i as int == self.node_index(cur@),
                        es == &self.out@[i as int],
                        k <= es@.len(),
                        forall|m: int| 0 <= m < targets@.len() ==> #[trigger] self.step(cur@, targets@[m]@),
                        forall|m: int| 0 <= m < k ==> views(targets@).contains((#[trigger] es@[m]).to@),
                        views(targets@).no_duplicates(),
                    decreases es.len() - k,
                {
                    let t = &es[k].to;
                    proof {
                        assert(self.out_of(i as int)[k as int] == es@[k as int]@);
                        assert(self.edge_to(i as int, t@));
                        lemma_key_index(self.nodes@, cur@);
                    }
                    let ghost tb = targets@;
                    let dup = set_contains(&targets, t.as_str());
                    if !dup {
                        targets.push(t.clone());
                        proof {
                            assert(views(targets@) =~= views(tb).push(t@));
                            assert(views(targets@).no_duplicates()) by {
                                let tv = views(targets@);
                                assert forall|a: int, b: int| 0 <= a < tv.len() && 0 <= b < tv.len() && a != b implies tv[a] != tv[b] by {
                                    if a < tb.len() && b < tb.len() {
                                        assert(tv[a] == views(tb)[a] && tv[b] == views(tb)[b]);
                                    } else if a == tb.len() {
                                        assert(tv[b] == views(tb)[b]);
                                    } else {
                                        assert(tv[a] == views(tb)[a]);
                                    }
                                }
                            }
                            assert forall|m: int| 0 <= m < k + 1 implies views(targets@).contains((#[trigger] es@[m]).to@) by {
                                lemma_push_contains(views(tb), t@, es@[m].to@);
                            }
                        }
                    }
                    k += 1;
                }
                proof {
                    assert forall|b: Seq<char>| #[trigger] self.step(cur@, b) implies views(targets@).contains(b) by {
                        lemma_key_index(self.nodes@, cur@);
                        let m = choose|m: int| 0 <= m < self.out_of(i as int).len() && (#[trigger] self.out_of(i as int)[m]).to == b;
                        assert(self.out_of(i as int)[m] == es@[m]@);
                    }
                }
            },
            None => {
                proof {
                    assert forall|b: Seq<char>| #[trigger] self.step(cur@, b) implies views(targets@).contains(b) by {
                        lemma_key_index(self.nodes@, cur@);
                    }
                }
            },
        }
        let mut j: usize = 0;
        proof {
            assert(res@ =~= res@.subrange(0, res@.len() as int));
        }
        while j < targets.len()
            invariant
                self.wf(),
                1 <= stack@.len() <= depth,
                stack@ == old(stack)@,
                views(stack@).last() == cur@,
                self.is_path(views(stack@)),
                views(stack@).no_duplicates(),
                forall|m: int| 0 <= m < targets@.len() ==> #[trigger] self.step(cur@, targets@[m]@),
                res@.len() <= max,
                forall|i: int| 0 <= i < res@.len() ==> self.simple_path(views((#[trigger] res@[i])@), views(old(stack)@)[0], to@, depth as nat),
                j <= targets@.len(),
                old(res)@.is_prefix_of(res@),
                forall|b: Seq<char>| #[trigger] self.step(cur@, b) ==> views(targets@).contains(b),
                !(cur@ == to@ && stack@.len() > 1),
                res@.len() < max ==> forall|q: Seq<Seq<char>>| #[trigger] self.simple_path(q, views(stack@)[0], to@, depth as nat)
                    && views(stack@).is_prefix_of(q) && q.len() > stack@.len()
                    && views(targets@).take(j as int).contains(q[stack@.len() as int]) ==> path_views(res@).contains(q),
                views(targets@).no_duplicates(),
                path_views(res@).no_duplicates(),
                forall|i: int| 0 <= i < old(res)@.len() ==> !views(old(stack)@).is_prefix_of(#[trigger] path_views(old(res)@)[i]),
                forall|i: int| old(res)@.len() <= i < res@.len() ==> views(stack@).is_prefix_of(#[trigger] path_views(res@)[i])
                    && path_views(res@)[i].len() > stack@.len()
                    && views(targets@).take(j as int).contains(path_views(res@)[i][stack@.len() as int]),
            decreases targets.len() - j,
        {
            let t = &targets[j];
            let ghost r1 = res@;
            let ghost sv = views(stack@);
            proof {
                assert forall|x: Seq<char>| views(targets@).take(j + 1).contains(x) implies
                    views(targets@).take(j as int).contains(x) || x == t@ by {
                    let m = choose|m: int| 0 <= m < j + 1 && #[trigger] views(targets@).take(j + 1)[m] == x;
                    if m < j {
                        assert(views(targets@).take(j as int)[m] == x);
                    }
                }
            }
            if !set_contains(stack, t.as_str()) && stack.len() < depth {
                let ghost sb = stack@;
                stack.push(t.clone());
                proof {
                    let sv = views(stack@);
                    assert(sv =~= views(sb).push(t@));
                    assert(self.step(cur@, t@));
                    assert forall|k: int| 0 <= k < sv.len() - 1 implies #[trigger] self.step(sv[k], sv[k + 1]) by {
                        if k < sv.len() - 2 {
                            assert(sv[k] == views(sb)[k] && sv[k + 1] == views(sb)[k + 1]);
                            assert(self.step(views(sb)[k], views(sb)[k + 1]));
                        } else {
                            assert(sv[k] == views(sb).last() && sv[k + 1] == t@);
                        }
                    }
                    assert(sv.no_duplicates()) by {
                        assert forall|a: int, b: int| 0 <= a < sv.len() && 0 <= b < sv.len() && a != b implies sv[a] != sv[b] by {
                            if a < sv.len() - 1 && b < sv.len() - 1 {
                                assert(sv[a] == views(sb)[a] && sv[b] == views(sb)[b]);
                            } else if a == sv.len() - 1 {
                                assert(sv[b] == views(sb)[b]);
                                assert(!views(sb).contains(t@));
                            } else {
                                assert(sv[a] == views(sb)[a]);
                                assert(!views(sb).contains(t@));
                            }
                        }
                    }
                    assert(sv[0] == views(sb)[0]);
                }
                let ghost pushed = views(stack@);
                proof {
                    assert(pushed =~= sv.push(t@));
                    assert forall|i: int| 0 <= i < r1.len() implies !pushed.is_prefix_of(#[trigger] path_views(r1)[i]) by {
                        if pushed.is_prefix_of(path_views(r1)[i]) {
                            lemma_prefix_push(sv, t@, path_views(r1)[i]);
                            if i < old(res)@.len() {
                                assert(path_views(r1)[i] == path_views(old(res)@)[i]) by {
                                    assert(r1[i] == old(res)@[i]);
                                }
                            } else {
                                let x = path_views(r1)[i][sv.len() as int];
                                let m = choose|m: int| 0 <= m < j && views(targets@).take(j as int)[m] == x;
                                assert(views(targets@)[m] == views(targets@)[j as int]);
                            }
                        }
                    }
                }
                self.dfs_paths(t.as_str(), to, max, depth, stack, res);
                stack.pop();
                proof {
                    assert(stack@ =~= sb);
                    lemma_prefix_trans(old(res)@, r1, res@);
                    assert forall|i: int| old(res)@.len() <= i < res@.len() implies sv.is_prefix_of(#[trigger] path_views(res@)[i])
                        && path_views(res@)[i].len() > sv.len()
                        && views(targets@).take(j + 1).contains(path_views(res@)[i][sv.len() as int]) by {
                        if i < r1.len() {
                            assert(res@[i] == r1[i]) by {
                                assert(res@.subrange(0, r1.len() as int)[i] == res@[i]);
                            }
                            assert(path_views(res@)[i] == path_views(r1)[i]);
                            let x = path_views(r1)[i][sv.len() as int];
                            let m = choose|m: int| 0 <= m < j && views(targets@).take(j as int)[m] == x;
                            assert(views(targets@).take(j + 1)[m] == x);
                        } else {
                            lemma_prefix_push(sv, t@, path_views(res@)[i]);
                            assert(views(targets@).take(j + 1)[j as int] == t@);
                        }
                    }
                    assert(pushed =~= sv.push(t@));
                    assert forall|q: Seq<Seq<char>>| #[trigger] self.simple_path(q, sv[0], to@, depth as nat)
                        && sv.is_prefix_of(q) && q.len() > sv.len()
                        && views(targets@).take(j + 1).contains(q[sv.len() as int])
                        && res@.len() < max implies path_views(res@).contains(q) by {
                        if q[sv.len() as int] == t@ {
                            assert(pushed =~= q.subrange(0, pushed.len() as int));
                            assert(pushed[0] == sv[0]);
                        } else {
                            lemma_grow_contains(r1, res@, q);
                        }
                    }
                }
            } else {
                proof {
                    assert forall|i: int| old(res)@.len() <= i < res@.len() implies
                        views(targets@).take(j + 1).contains(#[trigger] path_views(res@)[i][sv.len() as int]) by {
                        let x = path_views(res@)[i][sv.len() as int];
                        let m = choose|m: int| 0 <= m < j && views(targets@).take(j as int)[m] == x;
                        assert(views(targets@).take(j + 1)[m] == x);
                    }
                    assert forall|q: Seq<Seq<char>>| #[trigger] self.simple_path(q, sv[0], to@, depth as nat)
                        && sv.is_prefix_of(q) && q.len() > sv.len()
                        && views(targets@).take(j + 1).contains(q[sv.len() as int])
                        && res@.len() < max implies path_views(res@).contains(q) by {
                        if q[sv.len() as int] == t@ {
                            if sv.contains(t@) {
                                let m = choose|m: int| 0 <= m < sv.len() && sv[m] == t@;
                                assert(q[m] == sv[m]);
                            }
                        }
                    }
                }
            }
            j += 1;
        }
        proof {
            let sv = views(stack@);
            assert(views(targets@).take(targets@.len() as int) =~= views(targets@));
            assert forall|q: Seq<Seq<char>>| #[trigger] self.simple_path(q, sv[0], to@, depth as nat)
                && sv.is_prefix_of(q) && res@.len() < max implies path_views(res@).contains(q) by {
                if q.len() == sv.len() {
                    assert(q =~= sv);
                } else {
                    let a = sv.len() - 1;
                    assert(q[a] == sv[a]);
                    assert(self.step(q[a], q[a + 1]));
                }
            }
        }
    }
}

/// `b` stands in `ov` at a place whose level is at most `n`.
pub open spec fn found_within(ov: Seq<Seq<char>>, lv: Seq<int>, b: Seq<char>, n: int) -> bool {
    exists|idx: int| 0 <= idx < ov.len() && #[trigger] ov[idx] == b && lv[idx] <= n
}

proof fn lemma_found_push(ov: Seq<Seq<char>>, lv: Seq<int>, b: Seq<char>, n: int, x: Seq<char>, y: int)
    requires
        found_within(ov, lv, b, n),
        ov.len() == lv.len(),
    ensures
        found_within(ov.push(x), lv.push(y), b, n),
{
    let idx = choose|idx: int| 0 <= idx < ov.len() && #[trigger] ov[idx] == b && lv[idx] <= n;
    assert(ov.push(x)[idx] == b && lv.push(y)[idx] == lv[idx]);
}

proof fn lemma_found_contains(ov: Seq<Seq<char>>, lv: Seq<int>, b: Seq<char>, n: int)
    requires
        ov.contains(b),
        ov.len() == lv.len(),
        forall|idx: int| 0 <= idx < ov.len() ==> #[trigger] lv[idx] <= n,
    ensures
        found_within(ov, lv, b, n),
{
    let idx = choose|idx: int| 0 <= idx < ov.len() && ov[idx] == b;
    assert(ov[idx] == b && lv[idx] <= n);
}

/// A path as its sequence of IDs, if any.
pub open spec fn opt_path(p: Option<Vec<String>>) -> Option<Seq<Seq<char>>> {
    match p {
        Some(v) => Some(views(v@)),
        None => None,
    }
}

/// Each path as its sequence of IDs.
pub open spec fn path_views(r: Seq<Vec<String>>) -> Seq<Seq<Seq<char>>> {
    r.map_values(|p: Vec<String>| views(p@))
}

proof fn lemma_prefix_push<A>(s: Seq<A>, t: A, x: Seq<A>)
    requires
        s.push(t).is_prefix_of(x),
    ensures
        s.is_prefix_of(x),
        x.len() > s.len(),
        x[s.len() as int] == t,
{
    assert(s.push(t)[s.len() as int] == x.subrange(0, (s.len() + 1) as int)[s.len() as int]);
    assert forall|i: int| 0 <= i < s.len() implies s[i] == x.subrange(0, s.len() as int)[i] by {
        assert(s.push(t)[i] == x.subrange(0, (s.len() + 1) as int)[i]);
    }
    assert(s =~= x.subrange(0, s.len() as int));
}

proof fn lemma_prefix_trans<A>(a: Seq<A>, b: Seq<A>, c: Seq<A>)
    requires
        a.is_prefix_of(b),
        b.is_prefix_of(c),
    ensures
        a.is_prefix_of(c),
{
    assert forall|i: int| 0 <= i < a.len() implies a[i] == c.subrange(0, a.len() as int)[i] by {
        assert(a[i] == b.subrange(0, a.len() as int)[i]);
        assert(b[i] == c.subrange(0, b.len() as int)[i]);
    }
    assert(a =~= c.subrange(0, a.len() as int));
}

/// A path found before is still there after more are added.
proof fn lemma_grow_contains(a: Seq<Vec<String>>, b: Seq<Vec<String>>, q: Seq<Seq<char>>)
    requires
        a.is_prefix_of(b),
        path_views(a).contains(q),
    ensures
        path_views(b).contains(q),
{
    let m = choose|m: int| 0 <= m < path_views(a).len() && path_views(a)[m] == q;
    assert(a[m] == b.subrange(0, a.len() as int)[m]);
    assert(path_views(b)[m] == q);
}

/// The `sets` of node `n` that write `var`, each with its node.
pub open spec fn sets_writing(n: Node, ss: Seq<SetVar>, var: Seq<char>) -> Seq<(Node, SetVar)>
    decreases ss.len(),
{
    if ss.len() == 0 {
        Seq::<(Node, SetVar)>::empty()
    } else {
        let r = sets_writing(n, ss.drop_last(), var);
        if ss.last().var@ == var { r.push((n, ss.last())) } else { r }
    }
}

/// Every `sets` of `var`, by node in ID order.
pub open spec fn writers_spec(nodes: Seq<Node>, var: Seq<char>) -> Seq<(Node, SetVar)>
    decreases nodes.len(),
{
    if nodes.len() == 0 {
        Seq::<(Node, SetVar)>::empty()
    } else {
        writers_spec(nodes.drop_last(), var) + sets_writing(nodes.last(), nodes.last().sets@, var)
    }
}

/// A guard mentions `var`.
pub open spec fn mentions(w: Seq<char>, var: Seq<char>) -> bool {
    idents_from(w, 0).contains(var)
}

pub open spec fn s_when_prefix() -> Seq<char> { seq!['w', 'h', 'e', 'n', ' '] }
pub open spec fn s_check_prefix() -> Seq<char> { seq!['c', 'h', 'e', 'c', 'k', ':'] }
pub open spec fn s_reads() -> Seq<char> { seq!['r', 'e', 'a', 'd', 's'] }

/// The guards of node `n`'s edges that read `var`: `(node, when <guard>)`.
pub open spec fn guard_readers(id: Seq<char>, es: Seq<Edge>, var: Seq<char>) -> Seq<(Seq<char>, Seq<char>)>
    decreases es.len(),
{
    if es.len() == 0 {
        Seq::<(Seq<char>, Seq<char>)>::empty()
    } else {
        let r = guard_readers(id, es.drop_last(), var);
        match es.last().when {
            Some(w) => if mentions(w@, var) { r.push((id, s_when_prefix() + w@)) } else { r },
            None => r,
        }
    }
}

/// Readers in the nodes, in ID order.
pub open spec fn node_readers(nodes: Seq<Node>, var: Seq<char>) -> Seq<(Seq<char>, Seq<char>)>
    decreases nodes.len(),
{
    if nodes.len() == 0 {
        Seq::<(Seq<char>, Seq<char>)>::empty()
    } else {
        node_readers(nodes.drop_last(), var) + guard_readers(nodes.last().id@, nodes.last().edges@, var)
    }
}

/// Check definitions that read `var`: `(check:<id>, reads)`.
pub open spec fn check_readers(cs: Seq<CheckDef>, var: Seq<char>) -> Seq<(Seq<char>, Seq<char>)>
    decreases cs.len(),
{
    if cs.len() == 0 {
        Seq::<(Seq<char>, Seq<char>)>::empty()
    } else {
        let r = check_readers(cs.drop_last(), var);
        if views(cs.last().reads@).contains(var) { r.push((s_check_prefix() + cs.last().id@, s_reads())) } else { r }
    }
}

/// Whether node `n` uses a check called `name`.
pub open spec fn uses_check(n: Node, name: Seq<char>) -> bool {
    exists|i: int| 0 <= i < n.checks@.len() && (#[trigger] n.checks@[i]).name@ == name
}

/// The nodes that satisfy `pred`, in order.
pub open spec fn nodes_where(nodes: Seq<Node>, pred: spec_fn(Node) -> bool) -> Seq<Node>
    decreases nodes.len(),
{
    if nodes.len() == 0 {
        Seq::<Node>::empty()
    } else {
        let r = nodes_where(nodes.drop_last(), pred);
        if pred(nodes.last()) { r.push(nodes.last()) } else { r }
    }
}

/// Node `n` has a `sets` of `var`.
pub open spec fn node_sets(n: Node, var: Seq<char>) -> bool {
    exists|i: int| 0 <= i < n.sets@.len() && (#[trigger] n.sets@[i]).var@ == var
}

impl Graph {
    /// The nodes that write a variable, with the `sets` line.
    pub fn var_writers(&self, var: &str) -> (res: Vec<(&Node, &SetVar)>)
        ensures
            res@.map_values(|p: (&Node, &SetVar)| (*p.0, *p.1)) == writers_spec(self.nodes@, var@),
    {
        let mut res: Vec<(&Node, &SetVar)> = Vec::new();
        let mut i: usize = 0;
        while i < self.nodes.len()
            invariant
                i <= self.nodes@.len(),
                res@.map_values(|p: (&Node, &SetVar)| (*p.0, *p.1)) == writers_spec(self.nodes@.take(i as int), var@),
            decreases self.nodes.len() - i,
        {
            let n = &self.nodes[i];
            let ghost base = res@.map_values(|p: (&Node, &SetVar)| (*p.0, *p.1));
            let mut k: usize = 0;
            while k < n.sets.len()
                invariant
                    k <= n.sets@.len(),
                    res@.map_values(|p: (&Node, &SetVar)| (*p.0, *p.1)) == base + sets_writing(*n, n.sets@.take(k as int), var@),
                decreases n.sets.len() - k,
            {
                proof {
                    assert(n.sets@.take(k + 1).drop_last() =~= n.sets@.take(k as int));
                    assert(n.sets@.take(k + 1).last() == n.sets@[k as int]);
                }
                if str_eq(n.sets[k].var.as_str(), var) {
                    let ghost before = res@;
                    res.push((n, &n.sets[k]));
                    proof {
                        assert(res@.map_values(|p: (&Node, &SetVar)| (*p.0, *p.1)) =~=
                            before.map_values(|p: (&Node, &SetVar)| (*p.0, *p.1)).push((*n, n.sets@[k as int])));
                    }
                }
                k += 1;
            }
            proof {
                assert(n.sets@.take(n.sets@.len() as int) =~= n.sets@);
                assert(self.nodes@.take(i + 1).drop_last() =~= self.nodes@.take(i as int));
                assert(self.nodes@.take(i + 1).last() == *n);
            }
            i += 1;
        }
        proof {
            assert(self.nodes@.take(self.nodes@.len() as int) =~= self.nodes@);
        }
        res
    }

    /// The places that read a variable: `(node, when <guard>)` for guards, then
    /// `(check:<id>, reads)` for check definitions.
    pub fn var_readers(&self, var: &str) -> (res: Vec<(String, String)>)
        ensures
            res@.map_values(|p: (String, String)| (p.0@, p.1@)) == node_readers(self.nodes@, var@) + check_readers(self.checks@, var@),
    {
        proof {
            reveal_strlit("when ");
            reveal_strlit("check:");
            reveal_strlit("reads");
            assert("when "@ =~= s_when_prefix());
            assert("check:"@ =~= s_check_prefix());
            assert("reads"@ =~= s_reads());
        }
        let mut res: Vec<(String, String)> = Vec::new();
        let mut i: usize = 0;
        while i < self.nodes.len()
            invariant
                i <= self.nodes@.len(),
                "when "@ == s_when_prefix(),
                res@.map_values(|p: (String, String)| (p.0@, p.1@)) == node_readers(self.nodes@.take(i as int), var@),
            decreases self.nodes.len() - i,
        {
            let n = &self.nodes[i];
            let ghost base = res@.map_values(|p: (String, String)| (p.0@, p.1@));
            let mut k: usize = 0;
            while k < n.edges.len()
                invariant
                    k <= n.edges@.len(),
                    "when "@ == s_when_prefix(),
                    res@.map_values(|p: (String, String)| (p.0@, p.1@)) == base + guard_readers(n.id@, n.edges@.take(k as int), var@),
                decreases n.edges.len() - k,
            {
                proof {
                    assert(n.edges@.take(k + 1).drop_last() =~= n.edges@.take(k as int));
                    assert(n.edges@.take(k + 1).last() == n.edges@[k as int]);
                }
                match &n.edges[k].when {
                    Some(w) => {
                        let ids = idents(w.as_str());
                        if set_contains(&ids, var) {
                            let ghost before = res@;
                            let item = (n.id.clone(), crate::model::prefixed("when ", w.as_str()));
                            res.push(item);
                            proof {
                                assert(res@.map_values(|p: (String, String)| (p.0@, p.1@)) =~=
                                    before.map_values(|p: (String, String)| (p.0@, p.1@)).push((n.id@, s_when_prefix() + w@)));
                            }
                        }
                    },
                    None => {},
                }
                k += 1;
            }
            proof {
                assert(n.edges@.take(n.edges@.len() as int) =~= n.edges@);
                assert(self.nodes@.take(i + 1).drop_last() =~= self.nodes@.take(i as int));
                assert(self.nodes@.take(i + 1).last() == *n);
            }
            i += 1;
        }
        proof {
            assert(self.nodes@.take(self.nodes@.len() as int) =~= self.nodes@);
        }
        let ghost nr = res@.map_values(|p: (String, String)| (p.0@, p.1@));
        let mut j: usize = 0;
        while j < self.checks.len()
            invariant
                j <= self.checks@.len(),
                "check:"@ == s_check_prefix(),
                "reads"@ == s_reads(),
                res@.map_values(|p: (String, String)| (p.0@, p.1@)) == nr + check_readers(self.checks@.take(j as int), var@),
            decreases self.checks.len() - j,
        {
            let c = &self.checks[j];
            proof {
                assert(self.checks@.take(j + 1).drop_last() =~= self.checks@.take(j as int));
                assert(self.checks@.take(j + 1).last() == *c);
            }
            if set_contains(&c.reads, var) {
                let ghost before = res@;
                let item = (crate::model::prefixed("check:", c.id.as_str()), string_from("reads"));
                res.push(item);
                proof {
                    assert(res@.map_values(|p: (String, String)| (p.0@, p.1@)) =~=
                        before.map_values(|p: (String, String)| (p.0@, p.1@)).push((s_check_prefix() + c.id@, s_reads())));
                }
            }
            j += 1;
        }
        proof {
            assert(self.checks@.take(self.checks@.len() as int) =~= self.checks@);
        }
        res
    }

    /// The nodes that use a check.
    pub fn check_users(&self, check: &str) -> (res: Vec<&Node>)
        ensures
            res@.map_values(|n: &Node| *n) == nodes_where(self.nodes@, |n: Node| uses_check(n, check@)),
    {
        let ghost pred = |n: Node| uses_check(n, check@);
        let mut res: Vec<&Node> = Vec::new();
        let mut i: usize = 0;
        while i < self.nodes.len()
            invariant
                i <= self.nodes@.len(),
                pred == |n: Node| uses_check(n, check@),
                res@.map_values(|n: &Node| *n) == nodes_where(self.nodes@.take(i as int), pred),
            decreases self.nodes.len() - i,
        {
            let n = &self.nodes[i];
            let mut found = false;
            let mut k: usize = 0;
            while k < n.checks.len()
                invariant
                    k <= n.checks@.len(),
                    found == exists|m: int| 0 <= m < k && (#[trigger] n.checks@[m]).name@ == check@,
                decreases n.checks.len() - k,
            {
                if str_eq(n.checks[k].name.as_str(), check) {
                    found = true;
                }
                k += 1;
            }
            proof {
                assert(self.nodes@.take(i + 1).drop_last() =~= self.nodes@.take(i as int));
                assert(self.nodes@.take(i + 1).last() == *n);
                assert(found == uses_check(*n, check@));
            }
            if found {
                let ghost before = res@;
                res.push(n);
                proof {
                    assert(res@.map_values(|n: &Node| *n) =~= before.map_values(|n: &Node| *n).push(*n));
                }
            }
            i += 1;
        }
        proof {
            assert(self.nodes@.take(self.nodes@.len() as int) =~= self.nodes@);
        }
        res
    }

    /// The nodes that `requires` a perm (use its check `perm:<id>`).
    pub fn perm_users(&self, perm: &str) -> (res: Vec<&Node>)
        ensures
            res@.map_values(|n: &Node| *n) == nodes_where(self.nodes@, |n: Node| uses_check(n, crate::model::s_perm_prefix() + perm@)),
    {
        let c = perm_check_id(perm);
        self.check_users(c.as_str())
    }

    /// A dotless name that is not a defined var is a local counter.
    pub fn is_local_var(&self, v: &str) -> (res: bool)
        ensures
            res == (!v@.contains('.') && !has_key(self.vars@, v@)),
    {
        let cs = crate::text::chars_of(v);
        let mut k: usize = 0;
        while k < cs.len()
            invariant
                cs@ == v@,
                k <= cs@.len(),
                forall|m: int| 0 <= m < k ==> cs@[m] != '.',
            decreases cs.len() - k,
        {
            if cs[k] == '.' {
                assert(v@[k as int] == '.');
                return false;
            }
            k += 1;
        }
        !contains_key(&self.vars, v)
    }

    /// The nodes of a local scope (`local_group`) that `sets` a variable.
    pub fn local_var_writers(&self, group: &str, var: &str) -> (res: Vec<&Node>)
        ensures
            res@.map_values(|n: &Node| *n) == nodes_where(self.nodes@, |n: Node| local_group_spec(n.id@) == group@ && node_sets(n, var@)),
    {
        let ghost pred = |n: Node| local_group_spec(n.id@) == group@ && node_sets(n, var@);
        let mut res: Vec<&Node> = Vec::new();
        let mut i: usize = 0;
        while i < self.nodes.len()
            invariant
                i <= self.nodes@.len(),
                pred == |n: Node| local_group_spec(n.id@) == group@ && node_sets(n, var@),
                res@.map_values(|n: &Node| *n) == nodes_where(self.nodes@.take(i as int), pred),
            decreases self.nodes.len() - i,
        {
            let n = &self.nodes[i];
            let mut found = false;
            let mut k: usize = 0;
            while k < n.sets.len()
                invariant
                    k <= n.sets@.len(),
                    found == exists|m: int| 0 <= m < k && (#[trigger] n.sets@[m]).var@ == var@,
                decreases n.sets.len() - k,
            {
                if str_eq(n.sets[k].var.as_str(), var) {
                    found = true;
                }
                k += 1;
            }
            let same = str_eq(local_group(n.id.as_str()), group);
            proof {
                assert(self.nodes@.take(i + 1).drop_last() =~= self.nodes@.take(i as int));
                assert(self.nodes@.take(i + 1).last() == *n);
                assert(found == node_sets(*n, var@));
            }
            if same && found {
                let ghost before = res@;
                res.push(n);
                proof {
                    assert(res@.map_values(|n: &Node| *n) =~= before.map_values(|n: &Node| *n).push(*n));
                }
            }
            i += 1;
        }
        proof {
            assert(self.nodes@.take(self.nodes@.len() as int) =~= self.nodes@);
        }
        res
    }
}

} // verus!
