//! Lint rules: diagnostics, their order, and the rules over the whole graph.

use vstd::prelude::*;
use crate::text::{dec, dec_string, push_str, seq_lt, str_eq, str_lt, string_from};
use crate::graph::Graph;
use crate::lint_node::{edge_rule, nodes_check, nodes_rule, reach_starts_of};
use crate::lint_defs::{
    check_defs_check, check_defs_rule, dup_check, dup_rule, perms_check, perms_rule, root_count_check,
    root_count_rule, roots_check, roots_rule, vars_check, vars_rule, views_check, views_rule,
};

verus! {

#[derive(Debug, Clone, Copy, PartialEq, Eq, PartialOrd, Ord, Structural)]
pub enum Level {
    Warning,
    Error,
}

/// Errors before warnings.
pub open spec fn rank(l: Level) -> int {
    match l {
        Level::Error => 1,
        Level::Warning => 0,
    }
}

/// A diagnostic as a value.
pub struct DSpec {
    pub level: Level,
    pub code: Seq<char>,
    pub message: Seq<char>,
    pub file: Seq<char>,
    pub line: usize,
    pub id: Option<Seq<char>>,
}

#[derive(Debug)]
pub struct Diagnostic {
    pub level: Level,
    pub code: &'static str,
    pub message: String,
    pub file: String,
    pub line: usize,
    pub id: Option<String>,
}

impl View for Diagnostic {
    type V = DSpec;

    open spec fn view(&self) -> DSpec {
        DSpec {
            level: self.level,
            code: self.code@,
            message: self.message@,
            file: self.file@,
            line: self.line,
            id: crate::model::ostr(self.id),
        }
    }
}

impl Clone for Diagnostic {
    fn clone(&self) -> (res: Self)
        ensures
            res@ == self@,
    {
        Diagnostic {
            level: self.level,
            code: self.code,
            message: self.message.clone(),
            file: self.file.clone(),
            line: self.line,
            id: crate::model::clone_opt_string(&self.id),
        }
    }
}

/// The views of a list of diagnostics.
pub open spec fn dviews(s: Seq<Diagnostic>) -> Seq<DSpec> {
    s.map_values(|d: Diagnostic| d@)
}

/// A diagnostic value.
pub open spec fn dg(level: Level, code: &str, file: Seq<char>, line: usize, id: Option<Seq<char>>, message: Seq<char>) -> DSpec {
    DSpec { level, code: code@, message, file, line, id }
}

/// Builds a diagnostic.
pub fn diag(level: Level, code: &'static str, file: &str, line: usize, id: Option<&str>, message: String) -> (res: Diagnostic)
    ensures
        res@ == dg(level, code, file@, line, match id { Some(i) => Some(i@), None => None }, message@),
{
    Diagnostic {
        level,
        code,
        message,
        file: string_from(file),
        line,
        id: match id {
            Some(i) => Some(string_from(i)),
            None => None,
        },
    }
}

/// `error file:line [code] message`, with `warn ` for warnings.
pub open spec fn diag_text(d: DSpec) -> Seq<char> {
    (if d.level == Level::Error { "error"@ } else { "warn "@ }) + " "@ + d.file + ":"@ + dec(d.line as nat)
        + " ["@ + d.code + "] "@ + d.message
}

impl Diagnostic {
    /// One line: `error file:line [code] message` (`warn ` for warnings).
    pub fn to_text(&self) -> (res: String)
        ensures
            res@ == diag_text(self@),
    {
        let mut s = if self.level == Level::Error { string_from("error") } else { string_from("warn ") };
        push_str(&mut s, " ");
        push_str(&mut s, self.file.as_str());
        push_str(&mut s, ":");
        let d = dec_string(self.line as u64);
        push_str(&mut s, d.as_str());
        push_str(&mut s, " [");
        push_str(&mut s, self.code);
        push_str(&mut s, "] ");
        push_str(&mut s, self.message.as_str());
        s
    }
}

/// Whether any diagnostic is an error.
pub fn has_errors(d: &Vec<Diagnostic>) -> (res: bool)
    ensures
        res == exists|i: int| 0 <= i < d@.len() && (#[trigger] d@[i]).level == Level::Error,
{
    let mut i: usize = 0;
    while i < d.len()
        invariant
            i <= d@.len(),
            forall|j: int| 0 <= j < i ==> (#[trigger] d@[j]).level != Level::Error,
        decreases d.len() - i,
    {
        if d[i].level == Level::Error {
            return true;
        }
        i += 1;
    }
    false
}

/// `a` comes strictly before `b`: errors first, then by file, then by line.
pub open spec fn goes_before(a: DSpec, b: DSpec) -> bool {
    ||| rank(a.level) > rank(b.level)
    ||| rank(a.level) == rank(b.level) && seq_lt(a.file, b.file)
    ||| rank(a.level) == rank(b.level) && a.file == b.file && a.line < b.line
}

/// `x` inserted before the first element it goes before (after all its equals).
pub open spec fn insert_in_order(s: Seq<DSpec>, x: DSpec) -> Seq<DSpec>
    decreases s.len(),
{
    if s.len() == 0 {
        seq![x]
    } else if goes_before(x, s[0]) {
        seq![x] + s
    } else {
        seq![s[0]] + insert_in_order(s.drop_first(), x)
    }
}

/// The stable sort of `s` by level (errors first), file and line.
pub open spec fn sort_diags(s: Seq<DSpec>) -> Seq<DSpec>
    decreases s.len(),
{
    if s.len() == 0 {
        s
    } else {
        insert_in_order(sort_diags(s.drop_last()), s.last())
    }
}

/// Nothing comes after something it goes before.
pub open spec fn diags_sorted(s: Seq<DSpec>) -> bool {
    forall|i: int, j: int| 0 <= i < j < s.len() ==> !goes_before(#[trigger] s[j], #[trigger] s[i])
}

proof fn lemma_gb_asym(a: DSpec, b: DSpec)
    requires
        goes_before(a, b),
    ensures
        !goes_before(b, a),
{
    if rank(a.level) == rank(b.level) && seq_lt(a.file, b.file) {
        crate::text::lemma_seq_lt_asym(a.file, b.file);
    }
    if rank(a.level) == rank(b.level) && a.file == b.file {
        crate::text::lemma_seq_lt_irreflexive(a.file);
    }
}

/// `a` before `b` and `b` not after `c` (b ≤ c): `a` before `c`.
proof fn lemma_gb_mixed(a: DSpec, b: DSpec, c: DSpec)
    requires
        goes_before(a, b),
        !goes_before(c, b),
    ensures
        goes_before(a, c),
{
    crate::text::lemma_seq_lt_total(b.file, c.file);
    crate::text::lemma_seq_lt_total(a.file, c.file);
    if seq_lt(a.file, b.file) && seq_lt(b.file, c.file) {
        crate::text::lemma_seq_lt_trans(a.file, b.file, c.file);
    }
    if seq_lt(a.file, c.file) && seq_lt(c.file, a.file) {
        crate::text::lemma_seq_lt_asym(a.file, c.file);
    }
    if seq_lt(c.file, a.file) && seq_lt(a.file, b.file) {
        crate::text::lemma_seq_lt_trans(c.file, a.file, b.file);
    }
    if seq_lt(b.file, c.file) && seq_lt(c.file, b.file) {
        crate::text::lemma_seq_lt_asym(b.file, c.file);
    }
    if c.file == a.file && seq_lt(a.file, b.file) {
        assert(seq_lt(c.file, b.file));
    }
}

proof fn lemma_insert_sorted(s: Seq<DSpec>, x: DSpec)
    requires
        diags_sorted(s),
    ensures
        diags_sorted(insert_in_order(s, x)),
        insert_in_order(s, x).to_multiset() == s.to_multiset().insert(x),
        forall|y: DSpec| insert_in_order(s, x).contains(y) ==> y == x || s.contains(y),
    decreases s.len(),
{
    broadcast use vstd::seq_lib::lemma_multiset_commutative;
    broadcast use vstd::seq_lib::group_to_multiset_ensures;
    broadcast use vstd::multiset::group_multiset_axioms;
    let t = insert_in_order(s, x);
    if s.len() == 0 {
        assert(t =~= seq![x]);
        assert(seq![x] =~= Seq::<DSpec>::empty().push(x));
        assert(Seq::<DSpec>::empty().to_multiset() =~= vstd::multiset::Multiset::<DSpec>::empty());
    } else if goes_before(x, s[0]) {
        assert forall|i: int, j: int| 0 <= i < j < t.len() implies !goes_before(#[trigger] t[j], #[trigger] t[i]) by {
            if i == 0 {
                assert(t[j] == s[j - 1]);
                if j - 1 > 0 {
                    assert(!goes_before(s[j - 1], s[0]));
                    lemma_gb_mixed(x, s[0], s[j - 1]);
                    lemma_gb_asym(x, s[j - 1]);
                } else {
                    lemma_gb_asym(x, s[0]);
                }
            } else {
                assert(t[i] == s[i - 1] && t[j] == s[j - 1]);
            }
        }
        assert(seq![x].to_multiset() =~= Seq::<DSpec>::empty().push(x).to_multiset()) by {
            assert(seq![x] =~= Seq::<DSpec>::empty().push(x));
        }
        assert(Seq::<DSpec>::empty().to_multiset() =~= vstd::multiset::Multiset::<DSpec>::empty());
        assert(t.to_multiset() =~= s.to_multiset().insert(x));
        assert forall|y: DSpec| t.contains(y) implies y == x || s.contains(y) by {
            let k = choose|k: int| 0 <= k < t.len() && t[k] == y;
            if k > 0 {
                assert(s[k - 1] == y);
            }
        }
    } else {
        let rest = s.drop_first();
        assert(diags_sorted(rest)) by {
            assert forall|i: int, j: int| 0 <= i < j < rest.len() implies !goes_before(#[trigger] rest[j], #[trigger] rest[i]) by {
                assert(rest[i] == s[i + 1] && rest[j] == s[j + 1]);
            }
        }
        lemma_insert_sorted(rest, x);
        let u = insert_in_order(rest, x);
        assert(t == seq![s[0]] + u);
        assert forall|i: int, j: int| 0 <= i < j < t.len() implies !goes_before(#[trigger] t[j], #[trigger] t[i]) by {
            if i == 0 {
                assert(t[j] == u[j - 1]);
                assert(u.contains(u[j - 1]));
                if u[j - 1] != x {
                    assert(rest.contains(u[j - 1]));
                    let k = choose|k: int| 0 <= k < rest.len() && rest[k] == u[j - 1];
                    assert(s[k + 1] == u[j - 1]);
                    assert(!goes_before(s[k + 1], s[0]));
                }
            } else {
                assert(t[i] == u[i - 1] && t[j] == u[j - 1]);
            }
        }
        assert(seq![s[0]].to_multiset() =~= Seq::<DSpec>::empty().push(s[0]).to_multiset()) by {
            assert(seq![s[0]] =~= Seq::<DSpec>::empty().push(s[0]));
        }
        assert(Seq::<DSpec>::empty().to_multiset() =~= vstd::multiset::Multiset::<DSpec>::empty());
        assert(s =~= seq![s[0]] + rest);
        assert(t.to_multiset() =~= s.to_multiset().insert(x));
        assert forall|y: DSpec| t.contains(y) implies y == x || s.contains(y) by {
            let k = choose|k: int| 0 <= k < t.len() && t[k] == y;
            if k > 0 {
                assert(u[k - 1] == y);
                assert(u.contains(y));
                if y != x {
                    assert(rest.contains(y));
                    let m = choose|m: int| 0 <= m < rest.len() && rest[m] == y;
                    assert(s[m + 1] == y);
                }
            } else {
                assert(s[0] == y);
            }
        }
    }
}

/// The sorted diagnostics are in order and are the same diagnostics.
pub proof fn lemma_sort_diags(s: Seq<DSpec>)
    ensures
        diags_sorted(sort_diags(s)),
        sort_diags(s).to_multiset() == s.to_multiset(),
    decreases s.len(),
{
    broadcast use vstd::seq_lib::group_to_multiset_ensures;
    if s.len() == 0 {
    } else {
        lemma_sort_diags(s.drop_last());
        lemma_insert_sorted(sort_diags(s.drop_last()), s.last());
        assert(s =~= s.drop_last().push(s.last()));
    }
}

fn before(a: &Diagnostic, b: &Diagnostic) -> (res: bool)
    ensures
        res == goes_before(a@, b@),
{
    let ra: u8 = if a.level == Level::Error { 1 } else { 0 };
    let rb: u8 = if b.level == Level::Error { 1 } else { 0 };
    if ra != rb {
        return ra > rb;
    }
    if str_lt(a.file.as_str(), b.file.as_str()) {
        return true;
    }
    str_eq(a.file.as_str(), b.file.as_str()) && a.line < b.line
}

proof fn lemma_insert_at(s: Seq<DSpec>, x: DSpec, i: int)
    requires
        0 <= i <= s.len(),
        forall|j: int| 0 <= j < i ==> !goes_before(x, #[trigger] s[j]),
        i < s.len() ==> goes_before(x, s[i]),
    ensures
        insert_in_order(s, x) == s.take(i) + seq![x] + s.skip(i),
    decreases s.len(),
{
    if s.len() == 0 {
        assert(s.take(i) + seq![x] + s.skip(i) =~= seq![x]);
    } else if i == 0 {
        assert(s.take(0) + seq![x] + s.skip(0) =~= seq![x] + s);
    } else {
        let t = s.drop_first();
        assert forall|j: int| 0 <= j < i - 1 implies !goes_before(x, #[trigger] t[j]) by {
            assert(t[j] == s[j + 1]);
        }
        if i - 1 < t.len() {
            assert(t[i - 1] == s[i]);
        }
        lemma_insert_at(t, x, i - 1);
        assert(seq![s[0]] + (t.take(i - 1) + seq![x] + t.skip(i - 1)) =~= s.take(i) + seq![x] + s.skip(i));
    }
}

/// Inserts `x` after everything it does not go before.
fn insert_diag(v: &mut Vec<Diagnostic>, x: Diagnostic)
    ensures
        dviews(final(v)@) == insert_in_order(dviews(old(v)@), x@),
{
    let ghost s = dviews(v@);
    let mut i: usize = 0;
    while i < v.len() && !before(&x, &v[i])
        invariant
            s == dviews(v@),
            v@ == old(v)@,
            i <= v@.len(),
            forall|j: int| 0 <= j < i ==> !goes_before(x@, #[trigger] s[j]),
        decreases v.len() - i,
    {
        assert(s[i as int] == v@[i as int]@);
        i += 1;
    }
    proof {
        if i < s.len() {
            assert(s[i as int] == v@[i as int]@);
        }
        lemma_insert_at(s, x@, i as int);
    }
    let ghost xv = x@;
    v.insert(i as usize, x);
    proof {
        assert(dviews(v@) =~= s.take(i as int) + seq![xv] + s.skip(i as int));
    }
}

/// Stable sort: errors first, then by file, then by line; equal keys keep their order.
pub fn sort_diagnostics(d: Vec<Diagnostic>) -> (res: Vec<Diagnostic>)
    ensures
        dviews(res@) == sort_diags(dviews(d@)),
{
    let ghost all = dviews(d@);
    let mut out: Vec<Diagnostic> = Vec::new();
    let mut rest = d;
    let ghost n = all.len();
    while rest.len() > 0
        invariant
            rest@.len() <= n,
            n == all.len(),
            dviews(rest@) == all.skip(n - rest@.len()),
            dviews(out@) == sort_diags(all.take(n - rest@.len())),
        decreases rest.len(),
    {
        let ghost k = n - rest@.len();
        let ghost rb = rest@;
        let x = rest.remove(0);
        proof {
            assert(rest@ =~= rb.drop_first());
            assert(dviews(rb)[0] == all.skip(k)[0]);
            assert(x@ == all[k]);
            assert(all.take(k + 1).drop_last() =~= all.take(k));
            assert(all.take(k + 1).last() == x@);
            assert forall|j: int| 0 <= j < rest@.len() implies dviews(rest@)[j] == all.skip(k + 1)[j] by {
                assert(rest@[j] == rb[j + 1]);
                assert(dviews(rb)[j + 1] == all.skip(k)[j + 1]);
            }
            assert(dviews(rest@) =~= all.skip(k + 1));
        }
        insert_diag(&mut out, x);
    }
    proof {
        assert(all.take(n as int) =~= all);
    }
    out
}

/// Every rule's diagnostics in rule order: duplicate IDs, the node rules (node by node, in
/// ID order), vars, checks, perms, roots, the root count, views.
pub open spec fn lint_raw(g: Graph) -> Seq<DSpec> {
    dup_rule(g.duplicates@) + nodes_rule(g, g.nodes@) + vars_rule(g, g.vars@) + check_defs_rule(g, g.checks@)
        + perms_rule(g, g.perms@) + roots_rule(g, g.roots@) + root_count_rule(g) + views_rule(g, g.views@)
}

/// Lints the graph: every rule's diagnostics, errors first, then by file and line.
pub fn lint(g: &Graph) -> (res: Vec<Diagnostic>)
    requires
        g.wf(),
    ensures
        dviews(res@) == sort_diags(lint_raw(*g)),
        diags_sorted(dviews(res@)),
        dviews(res@).to_multiset() == lint_raw(*g).to_multiset(),
{
    let mut d: Vec<Diagnostic> = Vec::new();
    dup_check(&g.duplicates, &mut d);
    let ghost a1 = dup_rule(g.duplicates@);
    proof { assert(dviews(d@) =~= a1); }
    let starts = reach_starts_of(g);
    let reach = g.reach_forward(starts.as_slice());
    let roots = g.root_ids();
    nodes_check(g, &reach, &roots, &mut d);
    let ghost a2 = a1 + nodes_rule(*g, g.nodes@);
    vars_check(g, &mut d);
    let ghost a3 = a2 + vars_rule(*g, g.vars@);
    proof { assert(dviews(d@) =~= a3); }
    check_defs_check(g, &mut d);
    let ghost a4 = a3 + check_defs_rule(*g, g.checks@);
    proof { assert(dviews(d@) =~= a4); }
    perms_check(g, &mut d);
    let ghost a5 = a4 + perms_rule(*g, g.perms@);
    proof { assert(dviews(d@) =~= a5); }
    roots_check(g, &mut d);
    let ghost a6 = a5 + roots_rule(*g, g.roots@);
    proof { assert(dviews(d@) =~= a6); }
    root_count_check(g, &mut d);
    let ghost a7 = a6 + root_count_rule(*g);
    proof { assert(dviews(d@) =~= a7); }
    views_check(g, &mut d);
    proof {
        assert(dviews(d@) =~= a7 + views_rule(*g, g.views@));
        assert(a7 + views_rule(*g, g.views@) == lint_raw(*g));
    }
    proof {
        lemma_sort_diags(lint_raw(*g));
    }
    sort_diagnostics(d)
}

/// Every edge to an ID that is not a node is reported, whatever its kind or guard: what
/// `lint` gives (`d`, the diagnostics it returns) holds an `Error` with code `dangling_ref`
/// on the edge's line, for the edge's node.
pub proof fn lemma_dangling_edges_are_reported(g: Graph, d: Seq<DSpec>, i: int, k: int)
    requires
        d.to_multiset() == lint_raw(g).to_multiset(),
        0 <= i < g.nodes@.len(),
        0 <= k < g.nodes@[i].edges@.len(),
        !g.has_node(g.nodes@[i].edges@[k].to@),
    ensures
        exists|j: int| 0 <= j < d.len() && (#[trigger] d[j]).level == Level::Error
            && d[j].code == "dangling_ref"@ && d[j].line == g.nodes@[i].edges@[k].line
            && d[j].id == Some(g.nodes@[i].id@) && d[j].file == g.nodes@[i].file@,
{
    let n = g.nodes@[i];
    let e = n.edges@[k];
    let x = edge_rule(g, n, e)[0];
    assert(x == dg(Level::Error, "dangling_ref", n.file@, e.line, Some(n.id@),
        "`"@ + n.id@ + "` → `"@ + e.to@ + "`: target not defined"@));
    assert(edge_rule(g, n, e).contains(x));
    crate::lint_node::lemma_edges_rule_has(g, n, n.edges@, k, x);
    crate::lint_node::lemma_node_rule_has_edge(g, n, x);
    crate::lint_node::lemma_nodes_rule_has(g, g.nodes@, i, x);
    let a = dup_rule(g.duplicates@);
    let b = nodes_rule(g, g.nodes@);
    crate::strset::lemma_concat_contains(a, b, x);
    let s1 = a + b;
    crate::strset::lemma_concat_contains(s1, vars_rule(g, g.vars@), x);
    let s2 = s1 + vars_rule(g, g.vars@);
    crate::strset::lemma_concat_contains(s2, check_defs_rule(g, g.checks@), x);
    let s3 = s2 + check_defs_rule(g, g.checks@);
    crate::strset::lemma_concat_contains(s3, perms_rule(g, g.perms@), x);
    let s4 = s3 + perms_rule(g, g.perms@);
    crate::strset::lemma_concat_contains(s4, roots_rule(g, g.roots@), x);
    let s5 = s4 + roots_rule(g, g.roots@);
    crate::strset::lemma_concat_contains(s5, root_count_rule(g), x);
    let s6 = s5 + root_count_rule(g);
    crate::strset::lemma_concat_contains(s6, views_rule(g, g.views@), x);
    assert(lint_raw(g) == s6 + views_rule(g, g.views@));
    vstd::seq_lib::to_multiset_contains(lint_raw(g), x);
    vstd::seq_lib::to_multiset_contains(d, x);
    let j = choose|j: int| 0 <= j < d.len() && d[j] == x;
    assert(d[j] == x);
}

/// Every node that no walk from a root or an entry node reaches, and that is neither a root
/// nor an entry itself, is reported: what `lint` gives (`d`) holds an `Error` with code
/// `unreachable` on the node's line, for the node.
pub proof fn lemma_unreached_nodes_are_reported(g: Graph, d: Seq<DSpec>, i: int)
    requires
        d.to_multiset() == lint_raw(g).to_multiset(),
        0 <= i < g.nodes@.len(),
        !g.reaches(crate::lint_node::root_ids(g) + crate::lint_node::entry_ids(g.nodes@), g.nodes@[i].id@),
        !g.roots@.map_values(|r: crate::model::RootDef| r.id@).contains(g.nodes@[i].id@),
        !crate::model::is_entry_spec(g.nodes@[i]),
    ensures
        exists|j: int| 0 <= j < d.len() && (#[trigger] d[j]).level == Level::Error
            && d[j].code == "unreachable"@ && d[j].line == g.nodes@[i].line
            && d[j].id == Some(g.nodes@[i].id@) && d[j].file == g.nodes@[i].file@,
{
    let n = g.nodes@[i];
    let r = crate::lint_node::reach_rule(g, n);
    let x = r[0];
    assert(x == dg(Level::Error, "unreachable", n.file@, n.line, Some(n.id@), "`"@ + n.id@ + "` is not reachable from any root"@));
    let p3 = crate::lint_node::path_rule(n) + crate::lint_node::layer_rule(crate::strset::views(g.config.layers@), n)
        + crate::lint_node::desc_rule(n);
    assert((p3 + r)[p3.len() as int] == x);
    assert((p3 + r).contains(x));
    crate::lint_node::lemma_node_rule_has_edge(g, n, x);
    crate::lint_node::lemma_nodes_rule_has(g, g.nodes@, i, x);
    let a = dup_rule(g.duplicates@);
    let b = nodes_rule(g, g.nodes@);
    crate::strset::lemma_concat_contains(a, b, x);
    let s1 = a + b;
    crate::strset::lemma_concat_contains(s1, vars_rule(g, g.vars@), x);
    let s2 = s1 + vars_rule(g, g.vars@);
    crate::strset::lemma_concat_contains(s2, check_defs_rule(g, g.checks@), x);
    let s3 = s2 + check_defs_rule(g, g.checks@);
    crate::strset::lemma_concat_contains(s3, perms_rule(g, g.perms@), x);
    let s4 = s3 + perms_rule(g, g.perms@);
    crate::strset::lemma_concat_contains(s4, roots_rule(g, g.roots@), x);
    let s5 = s4 + roots_rule(g, g.roots@);
    crate::strset::lemma_concat_contains(s5, root_count_rule(g), x);
    let s6 = s5 + root_count_rule(g);
    crate::strset::lemma_concat_contains(s6, views_rule(g, g.views@), x);
    assert(lint_raw(g) == s6 + views_rule(g, g.views@));
    vstd::seq_lib::to_multiset_contains(lint_raw(g), x);
    vstd::seq_lib::to_multiset_contains(d, x);
    let j = choose|j: int| 0 <= j < d.len() && d[j] == x;
    assert(d[j] == x);
}

} // verus!
