//! Queries: fuzzy search, briefs and prerequisite chains.

use vstd::prelude::*;
use crate::graph::{Graph, nodes_where, uses_check, writers_spec};
use crate::model::{CheckDef, Node, kind_name, ostr};
use crate::text::{seq_lt, str_lt, string_from};

verus! {

/// The lowercase form of a text, as `str::to_lowercase` gives it (Unicode, locale-free).
pub uninterp spec fn lowercased(s: Seq<char>) -> Seq<char>;

/// `str::to_lowercase`. Trusted: the result is `lowercased(s@)`, a function of the text alone.
#[verifier::external_body]
fn to_lower(s: &str) -> (res: String)
    ensures
        res@ == lowercased(s@),
{
    s.to_lowercase()
}

/// The first index from `i` on where `h` holds `c`, or -1.
pub open spec fn find_from(h: Seq<char>, c: char, i: int) -> int
    decreases h.len() - i,
{
    if i < 0 || i >= h.len() {
        -1
    } else if h[i] == c {
        i
    } else {
        find_from(h, c, i + 1)
    }
}

/// Subsequence matching of `n[k..]` in `h[i..]`: each character found at its first place
/// after the previous one scores 3 when adjacent to it, else 1, plus 4 at the very start.
pub open spec fn fuzzy_from(h: Seq<char>, n: Seq<char>, k: int, i: int, last: int, score: int) -> Option<int>
    decreases n.len() - k,
{
    if k < 0 || k >= n.len() {
        Some(score * 10 - h.len() / 4)
    } else {
        let j = find_from(h, n[k], i);
        if j < 0 {
            None
        } else {
            let s2 = score + (if j == last + 1 { 3int } else { 1int }) + (if j == 0 { 4int } else { 0int });
            fuzzy_from(h, n, k + 1, j + 1, j, s2)
        }
    }
}

/// The fuzzy score of `needle` in `hay` (both lowercased); `None` when not a subsequence.
/// Contiguous matches and a match at the start score higher; longer texts a little lower.
pub open spec fn fuzzy_spec(hay: Seq<char>, needle: Seq<char>) -> Option<int> {
    fuzzy_from(lowercased(hay), lowercased(needle), 0, 0, -2, 0)
}

proof fn lemma_find_from(h: Seq<char>, c: char, i: int)
    requires
        0 <= i <= h.len(),
    ensures
        -1 <= find_from(h, c, i) < h.len(),
        find_from(h, c, i) >= 0 ==> i <= find_from(h, c, i) && h[find_from(h, c, i)] == c,
    decreases h.len() - i,
{
    if i < h.len() && h[i] != c {
        lemma_find_from(h, c, i + 1);
    }
}

/// Subsequence fuzzy match: adjacent matches and a prefix match score a bonus.
pub fn fuzzy(hay: &str, needle: &str) -> (res: Option<i128>)
    ensures
        match res {
            Some(s) => fuzzy_spec(hay@, needle@) == Some(s as int),
            None => fuzzy_spec(hay@, needle@) is None,
        },
        res matches Some(s) ==> -(usize::MAX as int) <= s <= 80 * (usize::MAX as int),
{
    let hl = to_lower(hay);
    let nl = to_lower(needle);
    let h = crate::text::chars_of(hl.as_str());
    let n = crate::text::chars_of(nl.as_str());
    let mut i: usize = 0;
    let mut score: i128 = 0;
    let mut last: i128 = -2;
    let mut k: usize = 0;
    while k < n.len()
        invariant
            h@ == lowercased(hay@),
            n@ == lowercased(needle@),
            k <= n@.len(),
            k <= i <= h@.len(),
            -2 <= last < h@.len(),
            0 <= score <= 8 * k,
            fuzzy_spec(hay@, needle@) == fuzzy_from(h@, n@, k as int, i as int, last as int, score as int),
        decreases n.len() - k,
    {
        let ch = n[k];
        let mut j = i;
        while j < h.len() && h[j] != ch
            invariant
                i <= j <= h@.len(),
                find_from(h@, ch, i as int) == find_from(h@, ch, j as int),
            decreases h.len() - j,
        {
            j += 1;
        }
        proof {
            lemma_find_from(h@, ch, j as int);
        }
        if j == h.len() {
            return None;
        }
        let jj = j as i128;
        score += if jj == last + 1 { 3 } else { 1 };
        if j == 0 {
            score += 4;
        }
        last = jj;
        i = j + 1;
        k += 1;
    }
    let len = h.len() as i128;
    Some(score * 10 - len / 4)
}

/// A search hit.
#[derive(Debug)]
pub struct Hit {
    pub kind: String,
    pub id: String,
    pub desc: String,
    pub score: i128,
    /// The node to go to (a check: the first node using it; a var: the first node setting it).
    pub go: Option<String>,
}

pub struct HitV {
    pub kind: Seq<char>,
    pub id: Seq<char>,
    pub desc: Seq<char>,
    pub score: int,
    pub go: Option<Seq<char>>,
}

impl View for Hit {
    type V = HitV;

    open spec fn view(&self) -> HitV {
        HitV { kind: self.kind@, id: self.id@, desc: self.desc@, score: self.score as int, go: ostr(self.go) }
    }
}

pub open spec fn hviews(s: Seq<Hit>) -> Seq<HitV> {
    s.map_values(|h: Hit| h@)
}

pub open spec fn text_or(o: Option<String>, d: Seq<char>) -> Seq<char> {
    match o {
        Some(x) => x@,
        None => d,
    }
}

/// The better of two optional scores.
pub open spec fn best(a: Option<int>, b: Option<int>) -> Option<int> {
    match (a, b) {
        (Some(x), Some(y)) => Some(if x >= y { x } else { y }),
        (Some(x), None) => Some(x),
        (None, Some(y)) => Some(y),
        (None, None) => None,
    }
}

/// A node matches by ID (20 points extra) or by description.
pub open spec fn node_hit(n: Node, q: Seq<char>) -> Option<HitV> {
    let a = match fuzzy_spec(n.id@, q) { Some(x) => Some(x + 20), None => None };
    let b = match n.desc { Some(d) => fuzzy_spec(d@, q), None => None };
    match best(a, b) {
        Some(sc) => Some(HitV { kind: kind_name(n.kind), id: n.id@, desc: text_or(n.desc, Seq::<char>::empty()), score: sc, go: Some(n.id@) }),
        None => None,
    }
}

pub open spec fn first_id(ns: Seq<Node>) -> Option<Seq<char>> {
    if ns.len() > 0 { Some(ns[0].id@) } else { None }
}

/// A check matches by ID (10 points extra); it leads to the first node using it.
pub open spec fn check_hit(g: Graph, c: CheckDef, q: Seq<char>) -> Option<HitV> {
    match fuzzy_spec(c.id@, q) {
        Some(x) => Some(HitV { kind: "check"@, id: c.id@, desc: text_or(c.desc, Seq::<char>::empty()), score: x + 10,
            go: first_id(nodes_where(g.nodes@, |n: Node| uses_check(n, c.id@))) }),
        None => None,
    }
}

/// A var matches by ID (10 points extra); it leads to the first node setting it.
pub open spec fn var_hit(g: Graph, v: crate::model::VarDef, q: Seq<char>) -> Option<HitV> {
    match fuzzy_spec(v.id@, q) {
        Some(x) => Some(HitV { kind: "var"@, id: v.id@, desc: text_or(v.source, "sets"@), score: x + 10,
            go: if writers_spec(g.nodes@, v.id@).len() > 0 { Some(writers_spec(g.nodes@, v.id@)[0].0.id@) } else { None } }),
        None => None,
    }
}

pub open spec fn opt_push(s: Seq<HitV>, h: Option<HitV>) -> Seq<HitV> {
    match h {
        Some(x) => s.push(x),
        None => s,
    }
}

pub open spec fn node_hits(ns: Seq<Node>, q: Seq<char>) -> Seq<HitV>
    decreases ns.len(),
{
    if ns.len() == 0 { Seq::<HitV>::empty() } else { opt_push(node_hits(ns.drop_last(), q), node_hit(ns.last(), q)) }
}

pub open spec fn check_hits(g: Graph, cs: Seq<CheckDef>, q: Seq<char>) -> Seq<HitV>
    decreases cs.len(),
{
    if cs.len() == 0 { Seq::<HitV>::empty() } else { opt_push(check_hits(g, cs.drop_last(), q), check_hit(g, cs.last(), q)) }
}

pub open spec fn var_hits(g: Graph, vs: Seq<crate::model::VarDef>, q: Seq<char>) -> Seq<HitV>
    decreases vs.len(),
{
    if vs.len() == 0 { Seq::<HitV>::empty() } else { opt_push(var_hits(g, vs.drop_last(), q), var_hit(g, vs.last(), q)) }
}

/// All hits before ordering: nodes, then checks, then vars.
pub open spec fn hits_raw(g: Graph, q: Seq<char>) -> Seq<HitV> {
    node_hits(g.nodes@, q) + check_hits(g, g.checks@, q) + var_hits(g, g.vars@, q)
}

/// Higher score first, then by ID.
pub open spec fn hit_before(a: HitV, b: HitV) -> bool {
    a.score > b.score || (a.score == b.score && seq_lt(a.id, b.id))
}

pub open spec fn insert_hit(s: Seq<HitV>, x: HitV) -> Seq<HitV>
    decreases s.len(),
{
    if s.len() == 0 {
        seq![x]
    } else if hit_before(x, s[0]) {
        seq![x] + s
    } else {
        seq![s[0]] + insert_hit(s.drop_first(), x)
    }
}

/// The stable sort of the hits (higher score first, then by ID).
pub open spec fn sort_hits(s: Seq<HitV>) -> Seq<HitV>
    decreases s.len(),
{
    if s.len() == 0 { s } else { insert_hit(sort_hits(s.drop_last()), s.last()) }
}

/// The search result: the best `limit` hits in order.
pub open spec fn search_spec(g: Graph, q: Seq<char>, limit: usize) -> Seq<HitV> {
    let s = sort_hits(hits_raw(g, q));
    s.take(if limit < s.len() { limit as int } else { s.len() as int })
}

pub open spec fn hits_sorted(s: Seq<HitV>) -> bool {
    forall|i: int, j: int| 0 <= i < j < s.len() ==> !hit_before(#[trigger] s[j], #[trigger] s[i])
}

proof fn lemma_hb_asym(a: HitV, b: HitV)
    requires
        hit_before(a, b),
    ensures
        !hit_before(b, a),
{
    if a.score == b.score {
        crate::text::lemma_seq_lt_asym(a.id, b.id);
    }
}

/// `a` before `b` and `c` not before `b`: `a` before `c`.
proof fn lemma_hb_mixed(a: HitV, b: HitV, c: HitV)
    requires
        hit_before(a, b),
        !hit_before(c, b),
    ensures
        hit_before(a, c),
{
    crate::text::lemma_seq_lt_total(b.id, c.id);
    crate::text::lemma_seq_lt_total(a.id, c.id);
    if a.score == b.score && b.score == c.score {
        if seq_lt(a.id, b.id) && seq_lt(b.id, c.id) {
            crate::text::lemma_seq_lt_trans(a.id, b.id, c.id);
        }
        if seq_lt(c.id, a.id) && seq_lt(a.id, b.id) {
            crate::text::lemma_seq_lt_trans(c.id, a.id, b.id);
        }
        if seq_lt(a.id, c.id) && seq_lt(c.id, a.id) {
            crate::text::lemma_seq_lt_asym(a.id, c.id);
        }
        if c.id == a.id {
            crate::text::lemma_seq_lt_irreflexive(a.id);
        }
    }
}

proof fn lemma_insert_hit_sorted(s: Seq<HitV>, x: HitV)
    requires
        hits_sorted(s),
    ensures
        hits_sorted(insert_hit(s, x)),
        insert_hit(s, x).to_multiset() == s.to_multiset().insert(x),
        forall|y: HitV| insert_hit(s, x).contains(y) ==> y == x || s.contains(y),
    decreases s.len(),
{
    broadcast use vstd::seq_lib::lemma_multiset_commutative;
    broadcast use vstd::seq_lib::group_to_multiset_ensures;
    broadcast use vstd::multiset::group_multiset_axioms;
    let t = insert_hit(s, x);
    assert(Seq::<HitV>::empty().to_multiset() =~= vstd::multiset::Multiset::<HitV>::empty());
    if s.len() == 0 {
        assert(t =~= Seq::<HitV>::empty().push(x));
    } else if hit_before(x, s[0]) {
        assert forall|i: int, j: int| 0 <= i < j < t.len() implies !hit_before(#[trigger] t[j], #[trigger] t[i]) by {
            if i == 0 {
                assert(t[j] == s[j - 1]);
                if j - 1 > 0 {
                    assert(!hit_before(s[j - 1], s[0]));
                    lemma_hb_mixed(x, s[0], s[j - 1]);
                    lemma_hb_asym(x, s[j - 1]);
                } else {
                    lemma_hb_asym(x, s[0]);
                }
            } else {
                assert(t[i] == s[i - 1] && t[j] == s[j - 1]);
            }
        }
        assert(seq![x] =~= Seq::<HitV>::empty().push(x));
        assert(t.to_multiset() =~= s.to_multiset().insert(x));
        assert forall|y: HitV| t.contains(y) implies y == x || s.contains(y) by {
            let k = choose|k: int| 0 <= k < t.len() && t[k] == y;
            if k > 0 {
                assert(s[k - 1] == y);
            }
        }
    } else {
        let rest = s.drop_first();
        assert(hits_sorted(rest)) by {
            assert forall|i: int, j: int| 0 <= i < j < rest.len() implies !hit_before(#[trigger] rest[j], #[trigger] rest[i]) by {
                assert(rest[i] == s[i + 1] && rest[j] == s[j + 1]);
            }
        }
        lemma_insert_hit_sorted(rest, x);
        let u = insert_hit(rest, x);
        assert(t == seq![s[0]] + u);
        assert forall|i: int, j: int| 0 <= i < j < t.len() implies !hit_before(#[trigger] t[j], #[trigger] t[i]) by {
            if i == 0 {
                assert(t[j] == u[j - 1]);
                assert(u.contains(u[j - 1]));
                if u[j - 1] != x {
                    assert(rest.contains(u[j - 1]));
                    let k = choose|k: int| 0 <= k < rest.len() && rest[k] == u[j - 1];
                    assert(s[k + 1] == u[j - 1]);
                    assert(!hit_before(s[k + 1], s[0]));
                }
            } else {
                assert(t[i] == u[i - 1] && t[j] == u[j - 1]);
            }
        }
        assert(seq![s[0]] =~= Seq::<HitV>::empty().push(s[0]));
        assert(s =~= seq![s[0]] + rest);
        assert(t.to_multiset() =~= s.to_multiset().insert(x));
        assert forall|y: HitV| t.contains(y) implies y == x || s.contains(y) by {
            let k = choose|k: int| 0 <= k < t.len() && t[k] == y;
            if k > 0 {
                assert(u[k - 1] == y);
                assert(u.contains(y));
                if y != x {
                    assert(rest.contains(y));
                    let m = choose|m: int| 0 <= m < rest.len() && rest[m] == y;
                    assert(s[m + 1] == y);
                }
            } else {
                assert(s[0] == y);
            }
        }
    }
}

/// The ordered hits are in order (higher score first, then by ID) and are the same hits.
pub proof fn lemma_sort_hits(s: Seq<HitV>)
    ensures
        hits_sorted(sort_hits(s)),
        sort_hits(s).to_multiset() == s.to_multiset(),
    decreases s.len(),
{
    broadcast use vstd::seq_lib::group_to_multiset_ensures;
    if s.len() > 0 {
        lemma_sort_hits(s.drop_last());
        lemma_insert_hit_sorted(sort_hits(s.drop_last()), s.last());
        assert(s =~= s.drop_last().push(s.last()));
    }
}

fn push_hit(out: &mut Vec<Hit>, h: Option<Hit>)
    ensures
        hviews(final(out)@) == opt_push(hviews(old(out)@), match h { Some(x) => Some(x@), None => None }),
{
    match h {
        Some(x) => {
            let ghost xv = x@;
            out.push(x);
            proof {
                assert(hviews(out@) =~= hviews(old(out)@).push(xv));
            }
        },
        None => {},
    }
}

fn node_hit_exec(n: &Node, q: &str) -> (res: Option<Hit>)
    ensures
        match res { Some(x) => Some(x@), None => None } == node_hit(*n, q@),
{
    let a = match fuzzy(n.id.as_str(), q) {
        Some(x) => Some(x + 20),
        None => None,
    };
    let b = match &n.desc {
        Some(d) => fuzzy(d.as_str(), q),
        None => None,
    };
    let sc = match (a, b) {
        (Some(x), Some(y)) => Some(if x >= y { x } else { y }),
        (Some(x), None) => Some(x),
        (None, Some(y)) => Some(y),
        (None, None) => None,
    };
    match sc {
        Some(v) => Some(Hit {
            kind: string_from(n.kind.as_str()),
            id: n.id.clone(),
            desc: match &n.desc { Some(d) => d.clone(), None => String::new() },
            score: v,
            go: Some(n.id.clone()),
        }),
        None => None,
    }
}

fn check_hit_exec(g: &Graph, c: &CheckDef, q: &str) -> (res: Option<Hit>)
    ensures
        match res { Some(x) => Some(x@), None => None } == check_hit(*g, *c, q@),
{
    match fuzzy(c.id.as_str(), q) {
        Some(x) => {
            let users = g.check_users(c.id.as_str());
            proof {
                assert(users@.map_values(|n: &Node| *n).len() == users@.len());
                if users@.len() > 0 {
                    assert(users@.map_values(|n: &Node| *n)[0] == *users@[0]);
                }
            }
            let go = if users.len() > 0 { Some(users[0].id.clone()) } else { None };
            Some(Hit {
                kind: string_from("check"),
                id: c.id.clone(),
                desc: match &c.desc { Some(d) => d.clone(), None => String::new() },
                score: x + 10,
                go,
            })
        },
        None => None,
    }
}

fn var_hit_exec(g: &Graph, v: &crate::model::VarDef, q: &str) -> (res: Option<Hit>)
    ensures
        match res { Some(x) => Some(x@), None => None } == var_hit(*g, *v, q@),
{
    match fuzzy(v.id.as_str(), q) {
        Some(x) => {
            let ws = g.var_writers(v.id.as_str());
            proof {
                assert(ws@.map_values(|p: (&Node, &crate::model::SetVar)| (*p.0, *p.1)).len() == ws@.len());
                if ws@.len() > 0 {
                    assert(ws@.map_values(|p: (&Node, &crate::model::SetVar)| (*p.0, *p.1))[0].0 == *ws@[0].0);
                }
            }
            let go = if ws.len() > 0 { Some(ws[0].0.id.clone()) } else { None };
            Some(Hit {
                kind: string_from("var"),
                id: v.id.clone(),
                desc: match &v.source { Some(s) => s.clone(), None => string_from("sets") },
                score: x + 10,
                go,
            })
        },
        None => None,
    }
}

fn hit_first(a: &Hit, b: &Hit) -> (res: bool)
    ensures
        res == hit_before(a@, b@),
{
    a.score > b.score || (a.score == b.score && str_lt(a.id.as_str(), b.id.as_str()))
}

proof fn lemma_insert_hit_at(s: Seq<HitV>, x: HitV, i: int)
    requires
        0 <= i <= s.len(),
        forall|j: int| 0 <= j < i ==> !hit_before(x, #[trigger] s[j]),
        i < s.len() ==> hit_before(x, s[i]),
    ensures
        insert_hit(s, x) == s.take(i) + seq![x] + s.skip(i),
    decreases s.len(),
{
    if s.len() == 0 {
        assert(s.take(i) + seq![x] + s.skip(i) =~= seq![x]);
    } else if i == 0 {
        assert(s.take(0) + seq![x] + s.skip(0) =~= seq![x] + s);
    } else {
        let t = s.drop_first();
        assert forall|j: int| 0 <= j < i - 1 implies !hit_before(x, #[trigger] t[j]) by {
            assert(t[j] == s[j + 1]);
        }
        if i - 1 < t.len() {
            assert(t[i - 1] == s[i]);
        }
        lemma_insert_hit_at(t, x, i - 1);
        assert(seq![s[0]] + (t.take(i - 1) + seq![x] + t.skip(i - 1)) =~= s.take(i) + seq![x] + s.skip(i));
    }
}

fn insert_hit_exec(v: &mut Vec<Hit>, x: Hit)
    ensures
        hviews(final(v)@) == insert_hit(hviews(old(v)@), x@),
{
    let ghost s = hviews(v@);
    let mut i: usize = 0;
    while i < v.len() && !hit_first(&x, &v[i])
        invariant
            s == hviews(v@),
            v@ == old(v)@,
            i <= v@.len(),
            forall|j: int| 0 <= j < i ==> !hit_before(x@, #[trigger] s[j]),
        decreases v.len() - i,
    {
        assert(s[i as int] == v@[i as int]@);
        i += 1;
    }
    proof {
        if i < s.len() {
            assert(s[i as int] == v@[i as int]@);
        }
        lemma_insert_hit_at(s, x@, i as int);
    }
    let ghost xv = x@;
    v.insert(i, x);
    proof {
        assert(hviews(v@) =~= s.take(i as int) + seq![xv] + s.skip(i as int));
    }
}

/// Fuzzy search over node IDs and descriptions, check IDs and var IDs: the best `limit`
/// hits, higher score first, then by ID.
pub fn search(g: &Graph, q: &str, limit: usize) -> (res: Vec<Hit>)
    ensures
        hviews(res@) == search_spec(*g, q@, limit),
        hits_sorted(hviews(res@)),
        res@.len() == if limit < hits_raw(*g, q@).len() { limit as int } else { hits_raw(*g, q@).len() as int },
        forall|i: int| 0 <= i < res@.len() ==> hits_raw(*g, q@).contains(#[trigger] res@[i]@),
{
    let mut raw: Vec<Hit> = Vec::new();
    let mut i: usize = 0;
    while i < g.nodes.len()
        invariant
            i <= g.nodes@.len(),
            hviews(raw@) == node_hits(g.nodes@.take(i as int), q@),
        decreases g.nodes.len() - i,
    {
        proof {
            assert(g.nodes@.take(i + 1).drop_last() =~= g.nodes@.take(i as int));
            assert(g.nodes@.take(i + 1).last() == g.nodes@[i as int]);
        }
        let h = node_hit_exec(&g.nodes[i], q);
        push_hit(&mut raw, h);
        i += 1;
    }
    proof {
        assert(g.nodes@.take(g.nodes@.len() as int) =~= g.nodes@);
    }
    let ghost a = hviews(raw@);
    let mut j: usize = 0;
    while j < g.checks.len()
        invariant
            j <= g.checks@.len(),
            hviews(raw@) == a + check_hits(*g, g.checks@.take(j as int), q@),
        decreases g.checks.len() - j,
    {
        proof {
            assert(g.checks@.take(j + 1).drop_last() =~= g.checks@.take(j as int));
            assert(g.checks@.take(j + 1).last() == g.checks@[j as int]);
        }
        let ghost before = hviews(raw@);
        let h = check_hit_exec(g, &g.checks[j], q);
        push_hit(&mut raw, h);
        proof {
            assert(hviews(raw@) =~= a + check_hits(*g, g.checks@.take(j + 1), q@));
        }
        j += 1;
    }
    proof {
        assert(g.checks@.take(g.checks@.len() as int) =~= g.checks@);
    }
    let ghost b = hviews(raw@);
    let mut k: usize = 0;
    while k < g.vars.len()
        invariant
            k <= g.vars@.len(),
            hviews(raw@) == b + var_hits(*g, g.vars@.take(k as int), q@),
        decreases g.vars.len() - k,
    {
        proof {
            assert(g.vars@.take(k + 1).drop_last() =~= g.vars@.take(k as int));
            assert(g.vars@.take(k + 1).last() == g.vars@[k as int]);
        }
        let h = var_hit_exec(g, &g.vars[k], q);
        push_hit(&mut raw, h);
        proof {
            assert(hviews(raw@) =~= b + var_hits(*g, g.vars@.take(k + 1), q@));
        }
        k += 1;
    }
    proof {
        assert(g.vars@.take(g.vars@.len() as int) =~= g.vars@);
        assert(hviews(raw@) =~= hits_raw(*g, q@));
    }
    // stable insertion sort
    let ghost all = hviews(raw@);
    let mut out: Vec<Hit> = Vec::new();
    let mut rest = raw;
    let ghost n = all.len();
    while rest.len() > 0
        invariant
            rest@.len() <= n,
            n == all.len(),
            hviews(rest@) == all.skip(n - rest@.len()),
            hviews(out@) == sort_hits(all.take(n - rest@.len())),
        decreases rest.len(),
    {
        let ghost m = n - rest@.len();
        let ghost rb = rest@;
        let x = rest.remove(0);
        proof {
            assert(rest@ =~= rb.drop_first());
            assert(hviews(rb)[0] == all.skip(m)[0]);
            assert(x@ == all[m]);
            assert(all.take(m + 1).drop_last() =~= all.take(m));
            assert(all.take(m + 1).last() == x@);
            assert forall|q2: int| 0 <= q2 < rest@.len() implies hviews(rest@)[q2] == all.skip(m + 1)[q2] by {
                assert(rest@[q2] == rb[q2 + 1]);
                assert(hviews(rb)[q2 + 1] == all.skip(m)[q2 + 1]);
            }
            assert(hviews(rest@) =~= all.skip(m + 1));
        }
        insert_hit_exec(&mut out, x);
    }
    proof {
        assert(all.take(n as int) =~= all);
    }
    out.truncate(limit);
    proof {
        let s = sort_hits(all);
        assert(hviews(out@) =~= s.take(if limit < s.len() { limit as int } else { s.len() as int }));
        lemma_sort_hits(all);
        broadcast use vstd::seq_lib::group_to_multiset_ensures;
        assert(s.len() == s.to_multiset().len());
        assert(all.len() == all.to_multiset().len());
        assert forall|i: int| 0 <= i < out@.len() implies hits_raw(*g, q@).contains(#[trigger] out@[i]@) by {
            assert(hviews(out@)[i] == s[i]);
            assert(s.contains(s[i]));
            assert(s.to_multiset().count(s[i]) > 0);
        }
        assert forall|i: int, j: int| 0 <= i < j < hviews(out@).len() implies !hit_before(#[trigger] hviews(out@)[j], #[trigger] hviews(out@)[i]) by {
            assert(hviews(out@)[i] == s[i] && hviews(out@)[j] == s[j]);
        }
    }
    out
}

/// A node's hit is among the hits of a list holding the node.
proof fn lemma_node_hits_has(ns: Seq<Node>, q: Seq<char>, i: int, h: HitV)
    requires
        0 <= i < ns.len(),
        node_hit(ns[i], q) == Some(h),
    ensures
        node_hits(ns, q).contains(h),
    decreases ns.len(),
{
    let r = node_hits(ns.drop_last(), q);
    if i < ns.len() - 1 {
        assert(ns.drop_last()[i] == ns[i]);
        lemma_node_hits_has(ns.drop_last(), q, i, h);
        let k = choose|k: int| 0 <= k < r.len() && r[k] == h;
        assert(node_hits(ns, q)[k] == h);
    } else {
        assert(node_hits(ns, q) == r.push(h));
        assert(node_hits(ns, q)[r.len() as int] == h);
    }
}

/// A node is found by its description alone: when its description matches the query with
/// score `sc`, the hits hold one for the node (its kind and ID) scored at least `sc`,
/// whether or not its ID matches; when all the hits fit under `limit`, `search` (`res`)
/// returns it.
pub proof fn lemma_found_by_description(g: Graph, q: Seq<char>, limit: usize, res: Seq<HitV>, i: int, sc: int)
    requires
        res == search_spec(g, q, limit),
        0 <= i < g.nodes@.len(),
        g.nodes@[i].desc matches Some(d) && fuzzy_spec(d@, q) == Some(sc),
    ensures
        exists|h: HitV| #[trigger] hits_raw(g, q).contains(h) && h.id == g.nodes@[i].id@
            && h.kind == kind_name(g.nodes@[i].kind) && h.score >= sc,
        hits_raw(g, q).len() <= limit ==> exists|j: int| 0 <= j < res.len() && (#[trigger] res[j]).id == g.nodes@[i].id@
            && res[j].kind == kind_name(g.nodes@[i].kind) && res[j].score >= sc,
{
    let n = g.nodes@[i];
    let h = node_hit(n, q).unwrap();
    assert(node_hit(n, q) is Some);
    assert(h.id == n.id@ && h.kind == kind_name(n.kind) && h.score >= sc);
    lemma_node_hits_has(g.nodes@, q, i, h);
    let raw = hits_raw(g, q);
    crate::strset::lemma_concat_contains(node_hits(g.nodes@, q), check_hits(g, g.checks@, q), h);
    crate::strset::lemma_concat_contains(node_hits(g.nodes@, q) + check_hits(g, g.checks@, q), var_hits(g, g.vars@, q), h);
    assert(raw.contains(h));
    if raw.len() <= limit {
        lemma_sort_hits(raw);
        let st = sort_hits(raw);
        vstd::seq_lib::to_multiset_len(raw);
        vstd::seq_lib::to_multiset_len(st);
        assert(st.take(st.len() as int) =~= st);
        assert(res == st);
        vstd::seq_lib::to_multiset_contains(raw, h);
        vstd::seq_lib::to_multiset_contains(st, h);
        let j = choose|j: int| 0 <= j < st.len() && st[j] == h;
        assert(res[j] == h);
    }
}

/// How well a node's description matches the query, if it has one that matches.
pub open spec fn desc_score(n: Node, q: Seq<char>) -> Option<int> {
    match n.desc {
        Some(d) => fuzzy_spec(d@, q),
        None => None,
    }
}

/// A node is found by its ID: when its ID matches the query with score `sc`, the hits hold
/// one for the node (its kind, ID and description) scored at least `sc + 20`, and
/// exactly the better of that and its description's score; when all the hits fit under
/// `limit`, `search` (`res`) returns it.
pub proof fn lemma_found_by_id(g: Graph, q: Seq<char>, limit: usize, res: Seq<HitV>, i: int, sc: int)
    requires
        res == search_spec(g, q, limit),
        0 <= i < g.nodes@.len(),
        fuzzy_spec(g.nodes@[i].id@, q) == Some(sc),
    ensures
        exists|h: HitV| #[trigger] hits_raw(g, q).contains(h) && h.id == g.nodes@[i].id@
            && h.kind == kind_name(g.nodes@[i].kind) && h.score >= sc + 20
            && h.desc == text_or(g.nodes@[i].desc, Seq::<char>::empty())
            && (desc_score(g.nodes@[i], q) matches Some(t) ==> h.score >= t)
            && (h.score == sc + 20 || desc_score(g.nodes@[i], q) == Some(h.score)),
        hits_raw(g, q).len() <= limit ==> exists|j: int| 0 <= j < res.len() && (#[trigger] res[j]).id == g.nodes@[i].id@
            && res[j].kind == kind_name(g.nodes@[i].kind) && res[j].score >= sc + 20,
{
    let n = g.nodes@[i];
    let h = node_hit(n, q).unwrap();
    assert(node_hit(n, q) is Some);
    lemma_node_hits_has(g.nodes@, q, i, h);
    let raw = hits_raw(g, q);
    crate::strset::lemma_concat_contains(node_hits(g.nodes@, q), check_hits(g, g.checks@, q), h);
    crate::strset::lemma_concat_contains(node_hits(g.nodes@, q) + check_hits(g, g.checks@, q), var_hits(g, g.vars@, q), h);
    assert(raw.contains(h));
    match n.desc {
        Some(d) => match fuzzy_spec(d@, q) {
            Some(t) => {
                assert(h.score >= t && h.score >= sc + 20);
                assert(h.score == sc + 20 || h.score == t);
            },
            None => {},
        },
        None => {},
    }
    assert(h.id == n.id@ && h.kind == kind_name(n.kind) && h.score >= sc + 20
        && h.desc == text_or(n.desc, Seq::<char>::empty()));
    if raw.len() <= limit {
        lemma_sort_hits(raw);
        let st = sort_hits(raw);
        vstd::seq_lib::to_multiset_len(raw);
        vstd::seq_lib::to_multiset_len(st);
        assert(st.take(st.len() as int) =~= st);
        assert(res == st);
        vstd::seq_lib::to_multiset_contains(raw, h);
        vstd::seq_lib::to_multiset_contains(st, h);
        let j = choose|j: int| 0 <= j < st.len() && st[j] == h;
        assert(res[j] == h);
    }
}

} // verus!
