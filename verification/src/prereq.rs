//! Prerequisites of a node: the shortest path from a root, what each step asks, the
//! variables read on the way and who writes them, and the ancestors up to a depth.

use vstd::prelude::*;
use crate::graph::{Graph, REdge, ResolvedEdge, redges, writers_spec};
use crate::model::{CheckUse, Node, RootDef, SetVar, clone_opt_string, ostr};
use crate::strset::{views, sorted_strict, set_add_all, set_contains, set_insert, set_list, lemma_set_list, lemma_concat_contains};
use crate::table::{entry, find_key};
use crate::text::{dec, dec_string, join, join_strings, push_str, str_eq, string_from};
use crate::expr::{ident_list, idents};
use crate::brief::{defs_reads, found_defs};

verus! {

/// One step of the path and what it asks.
#[derive(Debug)]
pub struct PrereqStep {
    pub from: String,
    pub to: String,
    pub label: String,
    pub when: Option<String>,
    /// The checks the step's source node runs.
    pub checks: Vec<String>,
}

pub struct PStepV {
    pub from: Seq<char>,
    pub to: Seq<char>,
    pub label: Seq<char>,
    pub when: Option<Seq<char>>,
    pub checks: Seq<Seq<char>>,
}

impl View for PrereqStep {
    type V = PStepV;

    open spec fn view(&self) -> PStepV {
        PStepV { from: self.from@, to: self.to@, label: self.label@, when: ostr(self.when), checks: views(self.checks@) }
    }
}

/// A variable read on the path: where it comes from, or who writes it.
#[derive(Debug)]
pub struct VarChain {
    pub var: String,
    pub source: Option<String>,
    /// `<node> (<value>)` for each `sets` of it.
    pub writers: Vec<String>,
}

pub struct VChainV {
    pub var: Seq<char>,
    pub source: Option<Seq<char>>,
    pub writers: Seq<Seq<char>>,
}

impl View for VarChain {
    type V = VChainV;

    open spec fn view(&self) -> VChainV {
        VChainV { var: self.var@, source: ostr(self.source), writers: views(self.writers@) }
    }
}

/// Prerequisites of a target node.
#[derive(Debug)]
pub struct Prereq {
    pub target: String,
    /// A shortest path from a root.
    pub path: Option<Vec<String>>,
    /// What each edge of the path asks.
    pub steps: Vec<PrereqStep>,
    /// Every node with a walk of 1 to `depth` edges into the target, sorted.
    pub ancestors: Vec<String>,
    /// The variables read on the path and who writes them.
    pub vars: Vec<VarChain>,
}

/// The first edge to `b` (unguarded ones only, if `free_only`).
pub open spec fn first_edge(es: Seq<REdge>, b: Seq<char>, free_only: bool) -> Option<REdge>
    decreases es.len(),
{
    if es.len() == 0 {
        None
    } else if es[0].to == b && (!free_only || es[0].when is None) {
        Some(es[0])
    } else {
        first_edge(es.drop_first(), b, free_only)
    }
}

/// Of the edges to `b`, the least constrained: the first unguarded one, else the first.
pub open spec fn pick_edge(es: Seq<REdge>, b: Seq<char>) -> Option<REdge> {
    match first_edge(es, b, true) {
        Some(e) => Some(e),
        None => first_edge(es, b, false),
    }
}

/// The node called `a`.
pub open spec fn node_at(g: Graph, a: Seq<char>) -> Node {
    g.nodes@[g.node_index(a)]
}

/// The step from `a` to `b`.
pub open spec fn step_of(g: Graph, a: Seq<char>, b: Seq<char>) -> PStepV {
    let e = pick_edge(g.out_edges(a), b).unwrap();
    PStepV {
        from: a,
        to: b,
        label: e.label,
        when: e.when,
        checks: node_at(g, a).checks@.map_values(|c: CheckUse| c.name@),
    }
}

/// What the step from `a` to `b` reads: its guard's variables and its checks' `reads`.
pub open spec fn step_reads(g: Graph, a: Seq<char>, b: Seq<char>) -> Seq<Seq<char>> {
    let e = pick_edge(g.out_edges(a), b).unwrap();
    (match e.when { Some(w) => ident_list(w), None => Seq::<Seq<char>>::empty() })
        + defs_reads(found_defs(g.checks@, node_at(g, a).checks@))
}

/// What the first `k` steps of `p` read.
pub open spec fn path_reads(g: Graph, p: Seq<Seq<char>>, k: int) -> Seq<Seq<char>>
    decreases k,
{
    if k <= 0 {
        Seq::<Seq<char>>::empty()
    } else {
        path_reads(g, p, k - 1) + step_reads(g, p[k - 1], p[k])
    }
}

/// The edge `j` of node `i`.
pub open spec fn edge_at(g: Graph, i: int, j: int) -> REdge {
    g.outs()[i][j]
}

pub open spec fn is_edge(g: Graph, i: int, j: int) -> bool {
    0 <= i < g.outs().len() && 0 <= j < g.outs()[i].len()
}

/// `x` has a walk of 1 to `k` edges into `id`.
pub open spec fn in_anc(g: Graph, id: Seq<char>, k: nat, x: Seq<char>) -> bool
    decreases k,
{
    if k == 0 {
        false
    } else {
        exists|i: int, j: int| #[trigger] is_edge(g, i, j) && edge_at(g, i, j).from == x
            && (edge_at(g, i, j).to == id || in_anc(g, id, (k - 1) as nat, edge_at(g, i, j).to))
    }
}

/// The writers of `v` as `<node> (<value>)`.
pub open spec fn writer_texts(ws: Seq<(Node, SetVar)>) -> Seq<Seq<char>> {
    ws.map_values(|p: (Node, SetVar)| p.0.id@ + " ("@ + p.1.value@ + ")"@)
}

/// The chain of variable `v`.
pub open spec fn chain_of(g: Graph, v: Seq<char>) -> VChainV {
    VChainV {
        var: v,
        source: match entry(g.vars@, v) { Some(d) => ostr(d.source), None => None },
        writers: writer_texts(writers_spec(g.nodes@, v)),
    }
}

/// The names of the required variables.
pub open spec fn required_vars(vs: Seq<VarChain>) -> Seq<Seq<char>> {
    views(vs.map_values(|c: VarChain| c.var))
}

/// `pr` holds the prerequisites of `id` in `g` with ancestors up to `depth`.
pub open spec fn prereq_ok(g: Graph, id: Seq<char>, depth: usize, pr: Prereq) -> bool {
    &&& g.has_node(id)
    &&& pr.target@ == id
    &&& match pr.path {
        Some(p) => {
            let pv = views(p@);
            &&& g.is_path(pv) && pv.last() == id && g.roots@.map_values(|r: RootDef| r.id@).contains(pv[0])
            &&& forall|r: int, q: Seq<Seq<char>>| 0 <= r < g.roots@.len()
                && #[trigger] g.path_between(q, g.roots@[r].id@, id) ==> pv.len() <= q.len()
            &&& exists|r: int| #[trigger] g.wins_at(pv, id, r)
            &&& pr.steps@.len() == pv.len() - 1
            &&& forall|k: int| 0 <= k < pr.steps@.len() ==> (#[trigger] pr.steps@[k])@ == step_of(g, pv[k], pv[k + 1])
            &&& views(pr.vars@.map_values(|c: VarChain| c.var)) == set_list(path_reads(g, pv, pv.len() - 1))
            &&& forall|w: Seq<char>| #[trigger] required_vars(pr.vars@).contains(w)
                <==> path_reads(g, pv, pv.len() - 1).contains(w)
        },
        None => {
            &&& forall|r: int, q: Seq<Seq<char>>| 0 <= r < g.roots@.len() ==> !#[trigger] g.path_between(q, g.roots@[r].id@, id)
            &&& pr.steps@.len() == 0
            &&& pr.vars@.len() == 0
        },
    }
    &&& forall|k: int| 0 <= k < pr.vars@.len() ==> (#[trigger] pr.vars@[k])@ == chain_of(g, pr.vars@[k].var@)
    &&& sorted_strict(views(pr.ancestors@))
    &&& forall|x: Seq<char>| views(pr.ancestors@).contains(x) <==> in_anc(g, id, depth as nat, x)
}

proof fn lemma_first_edge_skip(es: Seq<REdge>, b: Seq<char>, free_only: bool, k: int)
    requires
        0 <= k <= es.len(),
        forall|j: int| 0 <= j < k ==> !((#[trigger] es[j]).to == b && (!free_only || es[j].when is None)),
    ensures
        first_edge(es, b, free_only) == first_edge(es.skip(k), b, free_only),
    decreases k,
{
    if k == 0 {
        assert(es.skip(0) =~= es);
    } else {
        assert(!(es[0].to == b && (!free_only || es[0].when is None)));
        assert forall|j: int| 0 <= j < k - 1 implies !((#[trigger] es.drop_first()[j]).to == b && (!free_only || es.drop_first()[j].when is None)) by {
            assert(es.drop_first()[j] == es[j + 1]);
        }
        lemma_first_edge_skip(es.drop_first(), b, free_only, k - 1);
        assert(es.drop_first().skip(k - 1) =~= es.skip(k));
    }
}

/// An edge to `b` makes `first_edge(.., false)` find one.
proof fn lemma_first_edge_found(es: Seq<REdge>, b: Seq<char>, j: int)
    requires
        0 <= j < es.len(),
        es[j].to == b,
    ensures
        first_edge(es, b, false) is Some,
    decreases es.len(),
{
    if es[0].to != b {
        assert(es.drop_first()[j - 1] == es[j]);
        lemma_first_edge_found(es.drop_first(), b, j - 1);
    }
}

/// The index of the first edge to `b` (unguarded ones only, if `free_only`).
fn find_edge(es: &[ResolvedEdge], b: &str, free_only: bool) -> (res: Option<usize>)
    ensures
        match res {
            Some(j) => j < es@.len() && first_edge(redges(es@), b@, free_only) == Some(es@[j as int]@),
            None => first_edge(redges(es@), b@, free_only) is None,
        },
{
    let ghost ev = redges(es@);
    let mut j: usize = 0;
    while j < es.len()
        invariant
            j <= es@.len(),
            ev == redges(es@),
            forall|m: int| 0 <= m < j ==> !((#[trigger] ev[m]).to == b@ && (!free_only || ev[m].when is None)),
        decreases es.len() - j,
    {
        let ok = str_eq(es[j].to.as_str(), b) && (!free_only || es[j].when.is_none());
        if ok {
            proof {
                lemma_first_edge_skip(ev, b@, free_only, j as int);
                assert(ev.skip(j as int)[0] == es@[j as int]@);
            }
            return Some(j);
        }
        proof {
            assert(ev[j as int] == es@[j as int]@);
        }
        j += 1;
    }
    proof {
        lemma_first_edge_skip(ev, b@, free_only, j as int);
    }
    None
}

/// The names of the checks a node runs.
fn check_names(cs: &Vec<CheckUse>) -> (res: Vec<String>)
    ensures
        views(res@) == cs@.map_values(|c: CheckUse| c.name@),
{
    let mut out: Vec<String> = Vec::new();
    let mut i: usize = 0;
    while i < cs.len()
        invariant
            i <= cs@.len(),
            views(out@) == cs@.map_values(|c: CheckUse| c.name@).take(i as int),
        decreases cs.len() - i,
    {
        let ghost before = views(out@);
        out.push(cs[i].name.clone());
        proof {
            assert(views(out@) =~= before.push(cs@[i as int].name@));
            assert(cs@.map_values(|c: CheckUse| c.name@).take(i + 1) =~= cs@.map_values(|c: CheckUse| c.name@).take(i as int).push(cs@[i as int].name@));
        }
        i += 1;
    }
    proof {
        assert(cs@.map_values(|c: CheckUse| c.name@).take(cs@.len() as int) =~= cs@.map_values(|c: CheckUse| c.name@));
    }
    out
}

/// Adds the `reads` of the defined checks among `cs` to the set `vars`.
fn add_check_reads(g: &Graph, cs: &Vec<CheckUse>, vars: &mut Vec<String>)
    requires
        sorted_strict(views(old(vars)@)),
    ensures
        sorted_strict(views(final(vars)@)),
        forall|x: Seq<char>| views(final(vars)@).contains(x) <==>
            (views(old(vars)@).contains(x) || defs_reads(found_defs(g.checks@, cs@)).contains(x)),
{
    let mut c: usize = 0;
    while c < cs.len()
        invariant
            c <= cs@.len(),
            sorted_strict(views(vars@)),
            forall|x: Seq<char>| views(vars@).contains(x) <==>
                (views(old(vars)@).contains(x) || defs_reads(found_defs(g.checks@, cs@.take(c as int))).contains(x)),
        decreases cs.len() - c,
    {
        proof {
            assert(cs@.take(c + 1).drop_last() =~= cs@.take(c as int));
            assert(cs@.take(c + 1).last() == cs@[c as int]);
        }
        let ghost fd = found_defs(g.checks@, cs@.take(c as int));
        match find_key(&g.checks, cs[c].name.as_str()) {
            Some(j) => {
                let ghost r0 = views(vars@);
                set_add_all(vars, &g.checks[j].reads);
                proof {
                    let fd2 = found_defs(g.checks@, cs@.take(c + 1));
                    assert(fd2 == fd.push(g.checks@[j as int]));
                    assert(fd2.drop_last() =~= fd);
                    assert(defs_reads(fd2) == defs_reads(fd) + views(g.checks@[j as int].reads@));
                    assert forall|x: Seq<char>| views(vars@).contains(x) <==> (views(old(vars)@).contains(x) || defs_reads(fd2).contains(x)) by {
                        lemma_concat_contains(defs_reads(fd), views(g.checks@[j as int].reads@), x);
                        assert(r0.contains(x) <==> (views(old(vars)@).contains(x) || defs_reads(fd).contains(x)));
                    }
                }
            },
            None => {
                proof {
                    assert(found_defs(g.checks@, cs@.take(c + 1)) == fd);
                }
            },
        }
        c += 1;
    }
    proof {
        assert(cs@.take(cs@.len() as int) =~= cs@);
    }
}

/// The nodes with an edge into `id` or into a member of `anc`.
fn anc_step(g: &Graph, id: &str, anc: &Vec<String>) -> (res: Vec<String>)
    requires
        sorted_strict(views(anc@)),
    ensures
        sorted_strict(views(res@)),
        forall|x: Seq<char>| views(res@).contains(x) <==> exists|i: int, j: int| #[trigger] is_edge(*g, i, j)
            && edge_at(*g, i, j).from == x && (edge_at(*g, i, j).to == id@ || views(anc@).contains(edge_at(*g, i, j).to)),
{
    let mut res: Vec<String> = Vec::new();
    let mut i: usize = 0;
    while i < g.out.len()
        invariant
            i <= g.out@.len(),
            sorted_strict(views(res@)),
            forall|x: Seq<char>| views(res@).contains(x) <==> exists|i2: int, j2: int| #[trigger] is_edge(*g, i2, j2) && i2 < i
                && edge_at(*g, i2, j2).from == x && (edge_at(*g, i2, j2).to == id@ || views(anc@).contains(edge_at(*g, i2, j2).to)),
        decreases g.out.len() - i,
    {
        let es = &g.out[i];
        let mut j: usize = 0;
        while j < es.len()
            invariant
                i < g.out@.len(),
                es == &g.out@[i as int],
                j <= es@.len(),
                sorted_strict(views(res@)),
                forall|x: Seq<char>| views(res@).contains(x) <==> exists|i2: int, j2: int| #[trigger] is_edge(*g, i2, j2)
                    && (i2 < i || (i2 == i && j2 < j))
                    && edge_at(*g, i2, j2).from == x && (edge_at(*g, i2, j2).to == id@ || views(anc@).contains(edge_at(*g, i2, j2).to)),
            decreases es.len() - j,
        {
            let e = &es[j];
            proof {
                assert(g.outs()[i as int] == redges(es@));
                assert(edge_at(*g, i as int, j as int) == e@);
                assert(is_edge(*g, i as int, j as int));
            }
            let hit = str_eq(e.to.as_str(), id) || set_contains(anc, e.to.as_str());
            let ghost r0 = views(res@);
            if hit {
                set_insert(&mut res, e.from.clone());
            }
            proof {
                assert forall|x: Seq<char>| views(res@).contains(x) <==> exists|i2: int, j2: int| #[trigger] is_edge(*g, i2, j2)
                    && (i2 < i || (i2 == i && j2 < j + 1))
                    && edge_at(*g, i2, j2).from == x && (edge_at(*g, i2, j2).to == id@ || views(anc@).contains(edge_at(*g, i2, j2).to)) by {
                    if views(res@).contains(x) {
                        if r0.contains(x) {
                            let (i2, j2) = choose|i2: int, j2: int| #[trigger] is_edge(*g, i2, j2) && (i2 < i || (i2 == i && j2 < j))
                                && edge_at(*g, i2, j2).from == x && (edge_at(*g, i2, j2).to == id@ || views(anc@).contains(edge_at(*g, i2, j2).to));
                            assert(is_edge(*g, i2, j2));
                        } else {
                            assert(hit && x == e.from@);
                            assert(is_edge(*g, i as int, j as int));
                        }
                    }
                    if exists|i2: int, j2: int| #[trigger] is_edge(*g, i2, j2) && (i2 < i || (i2 == i && j2 < j + 1))
                        && edge_at(*g, i2, j2).from == x && (edge_at(*g, i2, j2).to == id@ || views(anc@).contains(edge_at(*g, i2, j2).to)) {
                        let (i2, j2) = choose|i2: int, j2: int| #[trigger] is_edge(*g, i2, j2) && (i2 < i || (i2 == i && j2 < j + 1))
                            && edge_at(*g, i2, j2).from == x && (edge_at(*g, i2, j2).to == id@ || views(anc@).contains(edge_at(*g, i2, j2).to));
                        if i2 == i && j2 == j {
                            assert(hit);
                        } else {
                            assert(is_edge(*g, i2, j2));
                            assert(r0.contains(x));
                        }
                    }
                }
            }
            j += 1;
        }
        proof {
            assert forall|x: Seq<char>| views(res@).contains(x) <==> exists|i2: int, j2: int| #[trigger] is_edge(*g, i2, j2) && i2 < i + 1
                && edge_at(*g, i2, j2).from == x && (edge_at(*g, i2, j2).to == id@ || views(anc@).contains(edge_at(*g, i2, j2).to)) by {
                if exists|i2: int, j2: int| #[trigger] is_edge(*g, i2, j2) && i2 < i + 1
                    && edge_at(*g, i2, j2).from == x && (edge_at(*g, i2, j2).to == id@ || views(anc@).contains(edge_at(*g, i2, j2).to)) {
                    let (i2, j2) = choose|i2: int, j2: int| #[trigger] is_edge(*g, i2, j2) && i2 < i + 1
                        && edge_at(*g, i2, j2).from == x && (edge_at(*g, i2, j2).to == id@ || views(anc@).contains(edge_at(*g, i2, j2).to));
                    assert(is_edge(*g, i2, j2) && (i2 < i || (i2 == i && j2 < es@.len())));
                }
            }
        }
        i += 1;
    }
    proof {
        assert forall|x: Seq<char>| views(res@).contains(x) <==> exists|i2: int, j2: int| #[trigger] is_edge(*g, i2, j2)
            && edge_at(*g, i2, j2).from == x && (edge_at(*g, i2, j2).to == id@ || views(anc@).contains(edge_at(*g, i2, j2).to)) by {
            if exists|i2: int, j2: int| #[trigger] is_edge(*g, i2, j2)
                && edge_at(*g, i2, j2).from == x && (edge_at(*g, i2, j2).to == id@ || views(anc@).contains(edge_at(*g, i2, j2).to)) {
                let (i2, j2) = choose|i2: int, j2: int| #[trigger] is_edge(*g, i2, j2)
                    && edge_at(*g, i2, j2).from == x && (edge_at(*g, i2, j2).to == id@ || views(anc@).contains(edge_at(*g, i2, j2).to));
                assert(is_edge(*g, i2, j2) && i2 < g.out@.len());
            }
        }
    }
    res
}

/// A walk of at most `k` edges is one of at most `k + 1`.
proof fn lemma_anc_mono(g: Graph, id: Seq<char>, k: nat, x: Seq<char>)
    requires
        in_anc(g, id, k, x),
    ensures
        in_anc(g, id, k + 1, x),
    decreases k,
{
    let (i, j) = choose|i: int, j: int| #[trigger] is_edge(g, i, j) && edge_at(g, i, j).from == x
        && (edge_at(g, i, j).to == id || in_anc(g, id, (k - 1) as nat, edge_at(g, i, j).to));
    if edge_at(g, i, j).to != id {
        lemma_anc_mono(g, id, (k - 1) as nat, edge_at(g, i, j).to);
    }
    assert(is_edge(g, i, j));
}

/// Once one more edge adds no ancestor, none ever does.
proof fn lemma_anc_stable(g: Graph, id: Seq<char>, k: nat, m: nat)
    requires
        forall|x: Seq<char>| in_anc(g, id, k, x) <==> #[trigger] in_anc(g, id, k + 1, x),
        k <= m,
    ensures
        forall|x: Seq<char>| in_anc(g, id, m, x) <==> #[trigger] in_anc(g, id, k, x),
    decreases m - k,
{
    if m > k {
        lemma_anc_stable(g, id, k, (m - 1) as nat);
        assert forall|x: Seq<char>| in_anc(g, id, m, x) <==> #[trigger] in_anc(g, id, k + 1, x) by {
            if in_anc(g, id, m, x) {
                let (i, j) = choose|i: int, j: int| #[trigger] is_edge(g, i, j) && edge_at(g, i, j).from == x
                    && (edge_at(g, i, j).to == id || in_anc(g, id, (m - 1) as nat, edge_at(g, i, j).to));
                assert(in_anc(g, id, (m - 1) as nat, edge_at(g, i, j).to) ==> in_anc(g, id, k, edge_at(g, i, j).to));
                assert(is_edge(g, i, j));
            }
            if in_anc(g, id, k + 1, x) {
                let (i, j) = choose|i: int, j: int| #[trigger] is_edge(g, i, j) && edge_at(g, i, j).from == x
                    && (edge_at(g, i, j).to == id || in_anc(g, id, k, edge_at(g, i, j).to));
                assert(in_anc(g, id, k, edge_at(g, i, j).to) ==> in_anc(g, id, (m - 1) as nat, edge_at(g, i, j).to));
                assert(is_edge(g, i, j));
            }
        }
        assert forall|x: Seq<char>| in_anc(g, id, m, x) <==> #[trigger] in_anc(g, id, k, x) by {
            assert(in_anc(g, id, k, x) <==> in_anc(g, id, k + 1, x));
        }
    }
}

/// Every node with a walk of 1 to `depth` edges into `id`, sorted: the breadth-first
/// search backwards from `id`, level by level, ending early once a level adds nothing.
fn ancestors_of(g: &Graph, id: &str, depth: usize) -> (res: Vec<String>)
    ensures
        sorted_strict(views(res@)),
        forall|x: Seq<char>| views(res@).contains(x) <==> in_anc(*g, id@, depth as nat, x),
{
    let mut anc: Vec<String> = Vec::new();
    let mut k: usize = 0;
    let mut changed = true;
    while k < depth && changed
        invariant
            k <= depth,
            sorted_strict(views(anc@)),
            forall|x: Seq<char>| views(anc@).contains(x) <==> in_anc(*g, id@, k as nat, x),
            !changed ==> k > 0 && forall|x: Seq<char>| in_anc(*g, id@, (k - 1) as nat, x) <==> #[trigger] in_anc(*g, id@, k as nat, x),
        decreases depth - k,
    {
        let next = anc_step(g, id, &anc);
        proof {
            assert forall|x: Seq<char>| views(next@).contains(x) <==> in_anc(*g, id@, (k + 1) as nat, x) by {
                if views(next@).contains(x) {
                    let (i, j) = choose|i: int, j: int| #[trigger] is_edge(*g, i, j) && edge_at(*g, i, j).from == x
                        && (edge_at(*g, i, j).to == id@ || views(anc@).contains(edge_at(*g, i, j).to));
                    assert(is_edge(*g, i, j));
                }
                if in_anc(*g, id@, (k + 1) as nat, x) {
                    let (i, j) = choose|i: int, j: int| #[trigger] is_edge(*g, i, j) && edge_at(*g, i, j).from == x
                        && (edge_at(*g, i, j).to == id@ || in_anc(*g, id@, k as nat, edge_at(*g, i, j).to));
                    assert(is_edge(*g, i, j));
                }
            }
        }
        let mut grew = false;
        let mut m: usize = 0;
        while m < next.len()
            invariant
                m <= next@.len(),
                !grew ==> forall|q: int| 0 <= q < m ==> views(anc@).contains(#[trigger] views(next@)[q]),
            decreases next.len() - m,
        {
            if !set_contains(&anc, next[m].as_str()) {
                grew = true;
            }
            m += 1;
        }
        proof {
            if !grew {
                assert forall|x: Seq<char>| in_anc(*g, id@, k as nat, x) <==> #[trigger] in_anc(*g, id@, (k + 1) as nat, x) by {
                    if in_anc(*g, id@, k as nat, x) {
                        lemma_anc_mono(*g, id@, k as nat, x);
                    }
                    if in_anc(*g, id@, (k + 1) as nat, x) {
                        assert(views(next@).contains(x));
                        let q = choose|q: int| 0 <= q < views(next@).len() && views(next@)[q] == x;
                        assert(views(anc@).contains(views(next@)[q]));
                    }
                }
            }
        }
        anc = next;
        changed = grew;
        k += 1;
    }
    proof {
        if k < depth {
            lemma_anc_stable(*g, id@, (k - 1) as nat, depth as nat);
            lemma_anc_stable(*g, id@, (k - 1) as nat, k as nat);
        }
    }
    anc
}

/// The chain of variable `v`: its source and the writers of it.
fn chain_for(g: &Graph, v: &String) -> (res: VarChain)
    ensures
        res@ == chain_of(*g, v@),
{
    let source = match find_key(&g.vars, v.as_str()) {
        Some(d) => clone_opt_string(&g.vars[d].source),
        None => None,
    };
    let ws = g.var_writers(v.as_str());
    let ghost wv = ws@.map_values(|p: (&Node, &SetVar)| (*p.0, *p.1));
    let ghost want = writer_texts(writers_spec(g.nodes@, v@));
    let mut writers: Vec<String> = Vec::new();
    let mut t: usize = 0;
    while t < ws.len()
        invariant
            t <= ws@.len(),
            wv == ws@.map_values(|p: (&Node, &SetVar)| (*p.0, *p.1)),
            wv == writers_spec(g.nodes@, v@),
            want == writer_texts(wv),
            views(writers@) == want.take(t as int),
        decreases ws.len() - t,
    {
        let (n, sv) = ws[t];
        let mut w = n.id.clone();
        push_str(&mut w, " (");
        push_str(&mut w, sv.value.as_str());
        push_str(&mut w, ")");
        let ghost before = views(writers@);
        proof {
            assert(wv[t as int] == (*n, *sv));
            assert(want[t as int] == w@);
        }
        writers.push(w);
        proof {
            assert(views(writers@) =~= before.push(want[t as int]));
            assert(want.take(t + 1) =~= want.take(t as int).push(want[t as int]));
        }
        t += 1;
    }
    proof {
        assert(want.take(ws@.len() as int) =~= want);
    }
    VarChain { var: v.clone(), source, writers }
}

/// The prerequisites of node `id`, with ancestors up to `depth` edges back; `None` when
/// there is no such node.
pub fn prereq(g: &Graph, id: &str, depth: usize) -> (res: Option<Prereq>)
    requires
        g.wf(),
    ensures
        match res {
            Some(pr) => prereq_ok(*g, id@, depth, pr),
            None => !g.has_node(id@),
        },
{
    if find_key(&g.nodes, id).is_none() {
        return None;
    }
    let path = g.path_from_roots(id);
    let mut steps: Vec<PrereqStep> = Vec::new();
    let mut vars: Vec<String> = Vec::new();
    match &path {
        Some(p) => {
            let ghost pv = views(p@);
            let mut k: usize = 0;
            while k < p.len() - 1
                invariant
                    g.wf(),
                    pv == views(p@),
                    g.is_path(pv),
                    k < p@.len(),
                    steps@.len() == k,
                    forall|q: int| 0 <= q < k ==> (#[trigger] steps@[q])@ == step_of(*g, pv[q], pv[q + 1]),
                    sorted_strict(views(vars@)),
                    forall|x: Seq<char>| views(vars@).contains(x) <==> path_reads(*g, pv, k as int).contains(x),
                decreases p.len() - k,
            {
                let a = &p[k];
                let b = &p[k + 1];
                proof {
                    assert(g.step(pv[k as int], pv[k + 1]));
                    assert(pv[k as int] == a@ && pv[k + 1] == b@);
                }
                let es = g.outgoing(a.as_str());
                let j = match find_edge(es, b.as_str(), true) {
                    Some(j) => j,
                    None => match find_edge(es, b.as_str(), false) {
                        Some(j) => j,
                        None => {
                            proof {
                                let i = g.node_index(a@);
                                let w = choose|w: int| 0 <= w < g.out_of(i).len() && (#[trigger] g.out_of(i)[w]).to == b@;
                                lemma_first_edge_found(redges(es@), b@, w);
                            }
                            return None;
                        },
                    },
                };
                let e = &es[j];
                proof {
                    assert(e@ == pick_edge(g.out_edges(a@), b@).unwrap());
                }
                let ai = match find_key(&g.nodes, a.as_str()) {
                    Some(ai) => ai,
                    None => return None,
                };
                let checks = check_names(&g.nodes[ai].checks);
                let ghost r0 = views(vars@);
                let ghost gw: Seq<Seq<char>> = match e@.when { Some(w) => ident_list(w), None => Seq::<Seq<char>>::empty() };
                match &e.when {
                    Some(wh) => {
                        let ids = idents(wh.as_str());
                        set_add_all(&mut vars, &ids);
                    },
                    None => {},
                }
                let ghost r1 = views(vars@);
                proof {
                    assert forall|x: Seq<char>| r1.contains(x) <==> (r0.contains(x) || gw.contains(x)) by {}
                }
                add_check_reads(g, &g.nodes[ai].checks, &mut vars);
                let ghost dr = defs_reads(found_defs(g.checks@, g.nodes@[ai as int].checks@));
                proof {
                    assert(path_reads(*g, pv, k + 1) == path_reads(*g, pv, k as int) + step_reads(*g, pv[k as int], pv[k + 1]));
                    assert(step_reads(*g, pv[k as int], pv[k + 1]) == gw + dr);
                    assert forall|x: Seq<char>| views(vars@).contains(x) <==> path_reads(*g, pv, k + 1).contains(x) by {
                        lemma_concat_contains(path_reads(*g, pv, k as int), gw + dr, x);
                        lemma_concat_contains(gw, dr, x);
                        assert(r0.contains(x) <==> path_reads(*g, pv, k as int).contains(x));
                        assert(views(vars@).contains(x) <==> (r1.contains(x) || dr.contains(x)));
                    }
                }
                let st = PrereqStep {
                    from: a.clone(),
                    to: b.clone(),
                    label: e.label.clone(),
                    when: clone_opt_string(&e.when),
                    checks,
                };
                proof {
                    assert(st@ == step_of(*g, pv[k as int], pv[k + 1]));
                }
                let ghost sb = steps@;
                steps.push(st);
                proof {
                    assert forall|q: int| 0 <= q < k + 1 implies (#[trigger] steps@[q])@ == step_of(*g, pv[q], pv[q + 1]) by {
                        if q < k {
                            assert(steps@[q] == sb[q]);
                        }
                    }
                }
                k += 1;
            }
            proof {
                lemma_set_list(views(vars@), path_reads(*g, pv, pv.len() - 1));
            }
        },
        None => {},
    }
    let ancestors = ancestors_of(g, id, depth);
    let mut chains: Vec<VarChain> = Vec::new();
    let mut q: usize = 0;
    while q < vars.len()
        invariant
            q <= vars@.len(),
            chains@.len() == q,
            forall|t: int| 0 <= t < q ==> (#[trigger] chains@[t])@ == chain_of(*g, vars@[t]@),
        decreases vars.len() - q,
    {
        let c = chain_for(g, &vars[q]);
        let ghost cb = chains@;
        chains.push(c);
        proof {
            assert forall|t: int| 0 <= t < q + 1 implies (#[trigger] chains@[t])@ == chain_of(*g, vars@[t]@) by {
                if t < q {
                    assert(chains@[t] == cb[t]);
                }
            }
        }
        q += 1;
    }
    proof {
        assert(views(chains@.map_values(|c: VarChain| c.var)) =~= views(vars@));
    }
    Some(Prereq { target: string_from(id), path, steps, ancestors, vars: chains })
}

pub open spec fn step_line(k: int, st: PStepV) -> Seq<char> {
    dec((k + 1) as nat) + ". "@ + st.from + " → "@ + st.to
        + (if st.label.len() > 0 { " ["@ + st.label + "]"@ } else { Seq::<char>::empty() })
        + (if st.checks.len() > 0 { " · must pass: "@ + join(st.checks, ", "@) } else { Seq::<char>::empty() })
        + "\n"@
}

pub open spec fn step_lines(sts: Seq<PrereqStep>) -> Seq<char>
    decreases sts.len(),
{
    if sts.len() == 0 {
        Seq::<char>::empty()
    } else {
        step_lines(sts.drop_last()) + step_line(sts.len() - 1, sts.last()@)
    }
}

pub open spec fn var_line(c: VChainV) -> Seq<char> {
    "- "@ + c.var + " — "@ + match c.source {
        Some(x) => "source "@ + x,
        None => "set by: "@ + join(c.writers, ", "@),
    } + "\n"@
}

pub open spec fn var_lines(cs: Seq<VarChain>) -> Seq<char>
    decreases cs.len(),
{
    if cs.len() == 0 {
        Seq::<char>::empty()
    } else {
        var_lines(cs.drop_last()) + var_line(cs.last()@)
    }
}

/// The Markdown text of the prerequisites.
pub open spec fn prereq_path_md(path: Option<Vec<String>>) -> Seq<char> {
    match path {
        Some(p) => "\nPath ("@ + dec((p@.len() - 1) as nat) + " steps): "@ + join(views(p@), " → "@) + "\n"@,
        None => "\nNot reachable from a root.\n"@,
    }
}

pub open spec fn prereq_steps_md(pr: Prereq) -> Seq<char> {
    if pr.steps@.len() > 0 { "\n## Steps\n"@ + step_lines(pr.steps@) } else { Seq::<char>::empty() }
}

pub open spec fn prereq_vars_md(pr: Prereq) -> Seq<char> {
    if pr.vars@.len() > 0 { "\n## Required variables\n"@ + var_lines(pr.vars@) } else { Seq::<char>::empty() }
}

pub open spec fn prereq_ancestors_md(pr: Prereq) -> Seq<char> {
    if pr.ancestors@.len() > 0 { "\n## Ancestors\n"@ + join(views(pr.ancestors@), ", "@) + "\n"@ } else { Seq::<char>::empty() }
}

pub open spec fn prereq_md(pr: Prereq) -> Seq<char> {
    "# Prerequisites: "@ + pr.target@ + "\n"@ + prereq_path_md(pr.path) + prereq_steps_md(pr)
        + prereq_vars_md(pr) + prereq_ancestors_md(pr)
}

fn push_step_line(s: &mut String, i: usize, st: &PrereqStep)
    requires
        i < usize::MAX,
    ensures
        final(s)@ == old(s)@ + step_line(i as int, st@),
{
    let num = dec_string((i + 1) as u64);
    push_str(s, num.as_str());
    push_str(s, ". ");
    push_str(s, st.from.as_str());
    push_str(s, " → ");
    push_str(s, st.to.as_str());
    let ghost a = s@;
    if !st.label.as_str().is_empty() {
        push_str(s, " [");
        push_str(s, st.label.as_str());
        push_str(s, "]");
    }
    proof {
        assert(s@ =~= a + (if st@.label.len() > 0 { " ["@ + st@.label + "]"@ } else { Seq::<char>::empty() }));
    }
    let ghost b = s@;
    if st.checks.len() > 0 {
        push_str(s, " · must pass: ");
        let j = join_strings(&st.checks, ", ");
        push_str(s, j.as_str());
    }
    proof {
        assert(s@ =~= b + (if st@.checks.len() > 0 { " · must pass: "@ + join(st@.checks, ", "@) } else { Seq::<char>::empty() }));
    }
    push_str(s, "\n");
    proof {
        assert(s@ =~= old(s)@ + step_line(i as int, st@));
    }
}

fn push_steps(s: &mut String, sts: &Vec<PrereqStep>)
    ensures
        final(s)@ == old(s)@ + step_lines(sts@),
{
    let mut i: usize = 0;
    while i < sts.len()
        invariant
            i <= sts@.len(),
            s@ == old(s)@ + step_lines(sts@.take(i as int)),
        decreases sts.len() - i,
    {
        proof {
            assert(sts@.take(i + 1).drop_last() =~= sts@.take(i as int));
            assert(sts@.take(i + 1).last() == sts@[i as int]);
        }
        let ghost before = s@;
        push_step_line(s, i, &sts[i]);
        proof {
            assert(s@ =~= old(s)@ + step_lines(sts@.take(i + 1)));
        }
        i += 1;
    }
    proof {
        assert(sts@.take(sts@.len() as int) =~= sts@);
    }
}

fn push_var_lines(s: &mut String, cs: &Vec<VarChain>)
    ensures
        final(s)@ == old(s)@ + var_lines(cs@),
{
    let mut i: usize = 0;
    while i < cs.len()
        invariant
            i <= cs@.len(),
            s@ == old(s)@ + var_lines(cs@.take(i as int)),
        decreases cs.len() - i,
    {
        proof {
            assert(cs@.take(i + 1).drop_last() =~= cs@.take(i as int));
            assert(cs@.take(i + 1).last() == cs@[i as int]);
        }
        let c = &cs[i];
        let ghost before = s@;
        push_str(s, "- ");
        push_str(s, c.var.as_str());
        push_str(s, " — ");
        match &c.source {
            Some(x) => {
                push_str(s, "source ");
                push_str(s, x.as_str());
            },
            None => {
                push_str(s, "set by: ");
                let j = join_strings(&c.writers, ", ");
                push_str(s, j.as_str());
            },
        }
        push_str(s, "\n");
        proof {
            assert(s@ =~= before + var_line(c@));
            assert(s@ =~= old(s)@ + var_lines(cs@.take(i + 1)));
        }
        i += 1;
    }
    proof {
        assert(cs@.take(cs@.len() as int) =~= cs@);
    }
}

fn push_prereq_path(s: &mut String, path: &Option<Vec<String>>)
    requires
        path matches Some(p) ==> p@.len() >= 1,
    ensures
        final(s)@ == old(s)@ + prereq_path_md(*path),
{
    match path {
        Some(p) => {
            push_str(s, "\nPath (");
            let k = dec_string((p.len() - 1) as u64);
            push_str(s, k.as_str());
            push_str(s, " steps): ");
            let j = join_strings(p, " → ");
            push_str(s, j.as_str());
            push_str(s, "\n");
            proof {
                assert(s@ =~= old(s)@ + prereq_path_md(*path));
            }
        },
        None => push_str(s, "\nNot reachable from a root.\n"),
    }
}

impl Prereq {
    fn push_sections(&self, s: &mut String)
        ensures
            final(s)@ == old(s)@ + prereq_steps_md(*self) + prereq_vars_md(*self) + prereq_ancestors_md(*self),
    {
        let ghost a = s@;
        if self.steps.len() > 0 {
            push_str(s, "\n## Steps\n");
            push_steps(s, &self.steps);
        }
        proof {
            assert(s@ =~= a + prereq_steps_md(*self));
        }
        let ghost b = s@;
        if self.vars.len() > 0 {
            push_str(s, "\n## Required variables\n");
            push_var_lines(s, &self.vars);
        }
        proof {
            assert(s@ =~= b + prereq_vars_md(*self));
        }
        let ghost c = s@;
        if self.ancestors.len() > 0 {
            push_str(s, "\n## Ancestors\n");
            let j = join_strings(&self.ancestors, ", ");
            push_str(s, j.as_str());
            push_str(s, "\n");
        }
        proof {
            assert(s@ =~= c + prereq_ancestors_md(*self));
        }
    }

    /// The Markdown text.
    pub fn to_markdown(&self) -> (res: String)
        requires
            self.path matches Some(p) ==> p@.len() >= 1,
        ensures
            res@ == prereq_md(*self),
    {
        let mut s = String::new();
        push_str(&mut s, "# Prerequisites: ");
        push_str(&mut s, self.target.as_str());
        push_str(&mut s, "\n");
        let ghost h = s@;
        proof {
            assert(h =~= "# Prerequisites: "@ + self.target@ + "\n"@);
        }
        push_prereq_path(&mut s, &self.path);
        self.push_sections(&mut s);
        proof {
            assert(s@ =~= h + prereq_path_md(self.path) + prereq_steps_md(*self) + prereq_vars_md(*self)
                + prereq_ancestors_md(*self));
        }
        s
    }
}

/// What a step of the path reads is among what the first `n` steps read, for a later `n`.
proof fn lemma_path_reads_has(g: Graph, p: Seq<Seq<char>>, n: int, k: int, x: Seq<char>)
    requires
        0 <= k < n,
        step_reads(g, p[k], p[k + 1]).contains(x),
    ensures
        path_reads(g, p, n).contains(x),
    decreases n,
{
    if k < n - 1 {
        lemma_path_reads_has(g, p, n - 1, k, x);
    }
    crate::strset::lemma_concat_contains(path_reads(g, p, n - 1), step_reads(g, p[n - 1], p[n]), x);
}

/// Every variable a guard on the path reads is required: for each step of the path taken
/// through an edge with guard `w`, each identifier of `w` is among the required variables.
pub proof fn lemma_step_guards_are_required(g: Graph, id: Seq<char>, depth: usize, pr: Prereq, k: int, x: Seq<char>)
    requires
        prereq_ok(g, id, depth, pr),
        0 <= k < pr.steps@.len(),
        pr.steps@[k]@.when matches Some(w) && ident_list(w).contains(x),
    ensures
        required_vars(pr.vars@).contains(x),
{
    let p = pr.path.unwrap();
    let pv = views(p@);
    assert(pr.steps@[k]@ == step_of(g, pv[k], pv[k + 1]));
    let e = pick_edge(g.out_edges(pv[k]), pv[k + 1]).unwrap();
    let w = e.when.unwrap();
    crate::strset::lemma_concat_contains(ident_list(w), defs_reads(found_defs(g.checks@, node_at(g, pv[k]).checks@)), x);
    assert(step_reads(g, pv[k], pv[k + 1]).contains(x));
    lemma_path_reads_has(g, pv, pv.len() - 1, k, x);
}

proof fn lemma_first_edge(es: Seq<REdge>, b: Seq<char>, free_only: bool)
    ensures
        first_edge(es, b, free_only) matches Some(e) ==> es.contains(e) && e.to == b && (free_only ==> e.when is None),
        (exists|m: int| 0 <= m < es.len() && (#[trigger] es[m]).to == b && (!free_only || es[m].when is None))
            ==> first_edge(es, b, free_only) is Some,
    decreases es.len(),
{
    if es.len() > 0 {
        lemma_first_edge(es.drop_first(), b, free_only);
        if let Some(e) = first_edge(es.drop_first(), b, free_only) {
            if es.drop_first().contains(e) {
                let m = choose|m: int| 0 <= m < es.drop_first().len() && es.drop_first()[m] == e;
                assert(es[m + 1] == e);
            }
        }
        if exists|m: int| 0 <= m < es.len() && (#[trigger] es[m]).to == b && (!free_only || es[m].when is None) {
            let m = choose|m: int| 0 <= m < es.len() && (#[trigger] es[m]).to == b && (!free_only || es[m].when is None);
            if m > 0 {
                assert(es.drop_first()[m - 1] == es[m]);
            }
        }
        if let Some(e) = first_edge(es, b, free_only) {
            if es[0].to == b && (!free_only || es[0].when is None) {
                assert(es[0] == e);
            }
        }
    }
}

/// Each step of the prerequisites goes from one node of the path to the next, through one
/// of the edges between them, with that edge's label and guard; an unguarded edge is taken
/// where there is one.
pub proof fn lemma_steps_follow_the_path(g: Graph, id: Seq<char>, depth: usize, pr: Prereq, k: int)
    requires
        prereq_ok(g, id, depth, pr),
        0 <= k < pr.steps@.len(),
    ensures
        pr.path matches Some(p) && {
            let pv = views(p@);
            let st = pr.steps@[k]@;
            let es = g.out_edges(pv[k]);
            &&& st.from == pv[k] && st.to == pv[k + 1]
            &&& exists|m: int| 0 <= m < es.len() && (#[trigger] es[m]).to == pv[k + 1] && es[m].when == st.when
                && es[m].label == st.label
            &&& (exists|m: int| 0 <= m < es.len() && (#[trigger] es[m]).to == pv[k + 1] && es[m].when is None)
                ==> st.when is None
        },
{
    let p = pr.path.unwrap();
    let pv = views(p@);
    let es = g.out_edges(pv[k]);
    assert(pr.steps@[k]@ == step_of(g, pv[k], pv[k + 1]));
    assert(g.step(pv[k], pv[k + 1]));
    let j = choose|j: int| 0 <= j < g.out_of(g.node_index(pv[k])).len()
        && (#[trigger] g.out_of(g.node_index(pv[k]))[j]).to == pv[k + 1];
    assert(es[j].to == pv[k + 1]);
    lemma_first_edge(es, pv[k + 1], true);
    lemma_first_edge(es, pv[k + 1], false);
    let e = pick_edge(es, pv[k + 1]).unwrap();
    assert(es.contains(e));
    let m = choose|m: int| 0 <= m < es.len() && es[m] == e;
    assert(es[m].to == pv[k + 1]);
}

proof fn lemma_found_defs_has(cs: Seq<crate::model::CheckDef>, uses: Seq<CheckUse>, c: int, d: crate::model::CheckDef)
    requires
        0 <= c < uses.len(),
        crate::table::entry(cs, uses[c].name@) == Some(d),
    ensures
        found_defs(cs, uses).contains(d),
    decreases uses.len(),
{
    let r = found_defs(cs, uses.drop_last());
    if c < uses.len() - 1 {
        assert(uses.drop_last()[c] == uses[c]);
        lemma_found_defs_has(cs, uses.drop_last(), c, d);
        let m = choose|m: int| 0 <= m < r.len() && r[m] == d;
        assert(found_defs(cs, uses)[m] == d);
    } else {
        assert(found_defs(cs, uses) == r.push(d));
        assert(found_defs(cs, uses)[r.len() as int] == d);
    }
}

proof fn lemma_defs_reads_has(ds: Seq<crate::model::CheckDef>, d: crate::model::CheckDef, x: Seq<char>)
    requires
        ds.contains(d),
        views(d.reads@).contains(x),
    ensures
        defs_reads(ds).contains(x),
    decreases ds.len(),
{
    if ds.last() != d {
        let m = choose|m: int| 0 <= m < ds.len() && ds[m] == d;
        assert(ds.drop_last()[m] == d);
        lemma_defs_reads_has(ds.drop_last(), d, x);
    }
    lemma_concat_contains(defs_reads(ds.drop_last()), views(ds.last().reads@), x);
}

/// Every variable read by a defined check that a node on the path uses is required: for
/// each step of the path, each `reads` entry of each check its node uses is among the
/// required variables.
pub proof fn lemma_check_reads_are_required(g: Graph, id: Seq<char>, depth: usize, pr: Prereq, k: int, c: int, x: Seq<char>)
    requires
        prereq_ok(g, id, depth, pr),
        0 <= k < pr.steps@.len(),
        pr.path matches Some(p) && {
            let n = g.nodes@[g.node_index(views(p@)[k])];
            &&& 0 <= c < n.checks@.len()
            &&& crate::table::entry(g.checks@, n.checks@[c].name@) matches Some(d) && views(d.reads@).contains(x)
        },
    ensures
        required_vars(pr.vars@).contains(x),
{
    let p = pr.path.unwrap();
    let pv = views(p@);
    let n = node_at(g, pv[k]);
    let d = crate::table::entry(g.checks@, n.checks@[c].name@).unwrap();
    lemma_found_defs_has(g.checks@, n.checks@, c, d);
    lemma_defs_reads_has(found_defs(g.checks@, n.checks@), d, x);
    let e = pick_edge(g.out_edges(pv[k]), pv[k + 1]).unwrap();
    let gw = match e.when { Some(w) => ident_list(w), None => Seq::<Seq<char>>::empty() };
    lemma_concat_contains(gw, defs_reads(found_defs(g.checks@, n.checks@)), x);
    assert(step_reads(g, pv[k], pv[k + 1]).contains(x));
    lemma_path_reads_has(g, pv, pv.len() - 1, k, x);
}

} // verus!
