//! The command line's own logic: turning `duflow edit` arguments into operations, matching
//! `--attr` filters, and comparing release versions.

use vstd::prelude::*;
use crate::edit::{Op, OpV};
use crate::model::{Node, attr_get, attr_lookup};
use crate::query::find_from;
use crate::strset::views;
use crate::text::{chars_of, push_str, string_from, string_of_range, split_chars, split_on};

verus! {

/// The arguments of `duflow edit`.
#[derive(Debug)]
pub struct EditArgs {
    pub id: String,
    /// `key=value`, repeatable.
    pub sets: Vec<String>,
    /// New kind (state|action|call|event); children are kept.
    pub kind: Option<String>,
    /// Raw KDL child lines to add.
    pub children: Vec<String>,
    /// Targets whose edges to remove.
    pub rm_edges: Vec<String>,
    /// `name:arg` child lines to remove, e.g. `check:perm:x` or `sets:deploy.attempts`.
    pub rm_children: Vec<String>,
}

/// `s` split at the first `c` (`str::split_once`).
pub open spec fn split_at_char(s: Seq<char>, c: char) -> Option<(Seq<char>, Seq<char>)> {
    let i = find_from(s, c, 0);
    if i < 0 { None } else { Some((s.take(i), s.skip(i + 1))) }
}

/// The first item of `s` without `c`, if any.
pub open spec fn first_without(s: Seq<Seq<char>>, c: char) -> Option<Seq<char>>
    decreases s.len(),
{
    if s.len() == 0 {
        None
    } else if split_at_char(s[0], c) is None {
        Some(s[0])
    } else {
        first_without(s.drop_first(), c)
    }
}

pub open spec fn rm_edge_ops(id: Seq<char>, ts: Seq<Seq<char>>) -> Seq<OpV> {
    ts.map_values(|t: Seq<char>| OpV::RmEdge { id, to: t })
}

pub open spec fn rm_child_ops(id: Seq<char>, rs: Seq<Seq<char>>) -> Seq<OpV> {
    rs.map_values(|r: Seq<char>| {
        let p = split_at_char(r, ':').unwrap();
        OpV::RmChild { id, name: p.0, arg: p.1 }
    })
}

pub open spec fn set_ops(id: Seq<char>, ss: Seq<Seq<char>>) -> Seq<OpV> {
    ss.map_values(|kv: Seq<char>| {
        let p = split_at_char(kv, '=').unwrap();
        OpV::SetAttr { id, key: p.0, value: p.1 }
    })
}

pub open spec fn child_ops(id: Seq<char>, cs: Seq<Seq<char>>) -> Seq<OpV> {
    cs.map_values(|c: Seq<char>| OpV::AddChild { id, line: c })
}

/// The operations of `duflow edit`: removals first (edges, then children), then the kind,
/// the attributes and the new children, so that one command can remove an edge and add it
/// back changed.
pub open spec fn edit_ops_spec(e: EditArgs) -> Result<Seq<OpV>, Seq<char>> {
    let id = e.id@;
    match first_without(views(e.rm_children@), ':') {
        Some(rc) => Err("--rm-child `"@ + rc + "`: expected name:arg"@),
        None => match first_without(views(e.sets@), '=') {
            Some(kv) => Err("--set `"@ + kv + "`: expected key=value"@),
            None => {
                let ops = rm_edge_ops(id, views(e.rm_edges@)) + rm_child_ops(id, views(e.rm_children@))
                    + (match e.kind { Some(k) => seq![OpV::SetKind { id, kind: k@ }], None => Seq::<OpV>::empty() })
                    + set_ops(id, views(e.sets@)) + child_ops(id, views(e.children@));
                if ops.len() == 0 { Err("no operations given"@) } else { Ok(ops) }
            },
        },
    }
}

proof fn lemma_find_from_range(h: Seq<char>, c: char, i: int)
    requires
        0 <= i <= h.len(),
    ensures
        -1 <= find_from(h, c, i) < h.len(),
        find_from(h, c, i) >= 0 ==> i <= find_from(h, c, i) && h[find_from(h, c, i)] == c,
        find_from(h, c, i) >= 0 ==> forall|j: int| i <= j < find_from(h, c, i) ==> h[j] != c,
        find_from(h, c, i) < 0 ==> forall|j: int| i <= j < h.len() ==> h[j] != c,
    decreases h.len() - i,
{
    if i < h.len() && h[i] != c {
        lemma_find_from_range(h, c, i + 1);
    }
}

/// `s` split at the first `c`.
pub fn split_once_char(s: &str, c: char) -> (res: Option<(String, String)>)
    ensures
        match res {
            Some(p) => split_at_char(s@, c) == Some((p.0@, p.1@)),
            None => split_at_char(s@, c) is None,
        },
{
    let cs = chars_of(s);
    proof {
        lemma_find_from_range(cs@, c, 0);
    }
    let mut i: usize = 0;
    while i < cs.len()
        invariant
            cs@ == s@,
            i <= cs@.len(),
            find_from(cs@, c, 0) == find_from(cs@, c, i as int),
        decreases cs.len() - i,
    {
        if cs[i] == c {
            let a = string_of_range(&cs, 0, i);
            let b = string_of_range(&cs, i + 1, cs.len());
            proof {
                assert(cs@.subrange(0, i as int) =~= cs@.take(i as int));
                assert(cs@.subrange(i + 1, cs@.len() as int) =~= cs@.skip(i + 1));
            }
            return Some((a, b));
        }
        i += 1;
    }
    None
}

fn first_without_exec(v: &Vec<String>, c: char) -> (res: Option<usize>)
    ensures
        match res {
            Some(i) => i < v@.len() && first_without(views(v@), c) == Some(v@[i as int]@),
            None => first_without(views(v@), c) is None,
        },
{
    let ghost vs = views(v@);
    let mut i: usize = 0;
    proof {
        assert(vs.skip(0) =~= vs);
    }
    while i < v.len()
        invariant
            i <= v@.len(),
            vs == views(v@),
            first_without(vs, c) == first_without(vs.skip(i as int), c),
        decreases v.len() - i,
    {
        proof {
            assert(vs.skip(i as int)[0] == v@[i as int]@);
            assert(vs.skip(i as int).drop_first() =~= vs.skip(i + 1));
        }
        if split_once_char(v[i].as_str(), c).is_none() {
            return Some(i);
        }
        i += 1;
    }
    None
}

/// The operations of `duflow edit`, or the message of the first argument that does not parse.
pub fn edit_ops(e: EditArgs) -> (res: Result<Vec<Op>, String>)
    ensures
        match (res, edit_ops_spec(e)) {
            (Ok(ops), Ok(want)) => ops@.map_values(|o: Op| o@) == want,
            (Err(m), Err(want)) => m@ == want,
            _ => false,
        },
{
    let id = &e.id;
    match first_without_exec(&e.rm_children, ':') {
        Some(i) => {
            let mut m = string_from("--rm-child `");
            push_str(&mut m, e.rm_children[i].as_str());
            push_str(&mut m, "`: expected name:arg");
            return Err(m);
        },
        None => {},
    }
    match first_without_exec(&e.sets, '=') {
        Some(i) => {
            let mut m = string_from("--set `");
            push_str(&mut m, e.sets[i].as_str());
            push_str(&mut m, "`: expected key=value");
            return Err(m);
        },
        None => {},
    }
    let ghost idv = id@;
    let mut ops: Vec<Op> = Vec::new();
    let mut i: usize = 0;
    while i < e.rm_edges.len()
        invariant
            i <= e.rm_edges@.len(),
            idv == e.id@,
            ops@.map_values(|o: Op| o@) == rm_edge_ops(idv, views(e.rm_edges@)).take(i as int),
        decreases e.rm_edges.len() - i,
    {
        let ghost before = ops@.map_values(|o: Op| o@);
        let idc = e.id.clone();

        let op = Op::RmEdge { id: idc, to: e.rm_edges[i].clone() };
        let ghost ov = op@;
        ops.push(op);
        proof {
            let want = rm_edge_ops(idv, views(e.rm_edges@));
            assert(ops@.map_values(|o: Op| o@) =~= before.push(ov));
            assert(want[i as int] == ov);
            assert(want.take(i + 1) =~= want.take(i as int).push(want[i as int]));
        }
        i += 1;
    }
    let ghost a = ops@.map_values(|o: Op| o@);
    proof {
        assert(rm_edge_ops(idv, views(e.rm_edges@)).take(e.rm_edges@.len() as int) =~= rm_edge_ops(idv, views(e.rm_edges@)));
    }
    let mut j: usize = 0;
    while j < e.rm_children.len()
        invariant
            j <= e.rm_children@.len(),
            idv == e.id@,
            first_without(views(e.rm_children@), ':') is None,
            ops@.map_values(|o: Op| o@) == a + rm_child_ops(idv, views(e.rm_children@)).take(j as int),
        decreases e.rm_children.len() - j,
    {
        proof {
            lemma_first_without(views(e.rm_children@), ':', j as int);
        }
        match split_once_char(e.rm_children[j].as_str(), ':') {
            Some((name, arg)) => {
                let ghost before = ops@.map_values(|o: Op| o@);
                let idc = e.id.clone();
        
                let op = Op::RmChild { id: idc, name, arg };
                let ghost ov = op@;
                ops.push(op);
                proof {
                    let want = rm_child_ops(idv, views(e.rm_children@));
                    assert(views(e.rm_children@)[j as int] == e.rm_children@[j as int]@);
                    assert(ops@.map_values(|o: Op| o@) =~= before.push(ov));
                    assert(want[j as int] == ov);
                    assert(want.take(j + 1) =~= want.take(j as int).push(want[j as int]));
                }
            },
            None => {
                proof {
                    assert(false);
                }
            },
        }
        j += 1;
    }
    let ghost b = ops@.map_values(|o: Op| o@);
    proof {
        assert(rm_child_ops(idv, views(e.rm_children@)).take(e.rm_children@.len() as int) =~= rm_child_ops(idv, views(e.rm_children@)));
    }
    match &e.kind {
        Some(k) => {
            ops.push(Op::SetKind { id: id.clone(), kind: k.clone() });
        },
        None => {},
    }
    let ghost c = ops@.map_values(|o: Op| o@);
    proof {
        assert(c =~= b + match e.kind { Some(k) => seq![OpV::SetKind { id: idv, kind: k@ }], None => Seq::<OpV>::empty() });
    }
    let mut k: usize = 0;
    while k < e.sets.len()
        invariant
            k <= e.sets@.len(),
            idv == e.id@,
            first_without(views(e.sets@), '=') is None,
            ops@.map_values(|o: Op| o@) == c + set_ops(idv, views(e.sets@)).take(k as int),
        decreases e.sets.len() - k,
    {
        proof {
            lemma_first_without(views(e.sets@), '=', k as int);
        }
        match split_once_char(e.sets[k].as_str(), '=') {
            Some((key, value)) => {
                let ghost before = ops@.map_values(|o: Op| o@);
                let idc = e.id.clone();
        
                let op = Op::SetAttr { id: idc, key, value };
                let ghost ov = op@;
                ops.push(op);
                proof {
                    let want = set_ops(idv, views(e.sets@));
                    assert(views(e.sets@)[k as int] == e.sets@[k as int]@);
                    assert(ops@.map_values(|o: Op| o@) =~= before.push(ov));
                    assert(want[k as int] == ov);
                    assert(want.take(k + 1) =~= want.take(k as int).push(want[k as int]));
                }
            },
            None => {
                proof {
                    assert(false);
                }
            },
        }
        k += 1;
    }
    let ghost d = ops@.map_values(|o: Op| o@);
    proof {
        assert(set_ops(idv, views(e.sets@)).take(e.sets@.len() as int) =~= set_ops(idv, views(e.sets@)));
    }
    let mut m: usize = 0;
    while m < e.children.len()
        invariant
            m <= e.children@.len(),
            idv == e.id@,
            ops@.map_values(|o: Op| o@) == d + child_ops(idv, views(e.children@)).take(m as int),
        decreases e.children.len() - m,
    {
        let ghost before = ops@.map_values(|o: Op| o@);
        let idc = e.id.clone();

        let op = Op::AddChild { id: idc, line: e.children[m].clone() };
        let ghost ov = op@;
        ops.push(op);
        proof {
            let want = child_ops(idv, views(e.children@));
            assert(ops@.map_values(|o: Op| o@) =~= before.push(ov));
            assert(want[m as int] == ov);
            assert(want.take(m + 1) =~= want.take(m as int).push(want[m as int]));
        }
        m += 1;
    }
    proof {
        assert(child_ops(idv, views(e.children@)).take(e.children@.len() as int) =~= child_ops(idv, views(e.children@)));
    }
    if ops.len() == 0 {
        return Err(string_from("no operations given"));
    }
    Ok(ops)
}

/// With no item lacking `c`, item `i` splits at `c`.
proof fn lemma_first_without(s: Seq<Seq<char>>, c: char, i: int)
    requires
        first_without(s, c) is None,
        0 <= i < s.len(),
    ensures
        split_at_char(s[i], c) is Some,
    decreases s.len(),
{
    if i > 0 {
        assert(s.drop_first()[i - 1] == s[i]);
        lemma_first_without(s.drop_first(), c, i - 1);
    }
}

/// The JSON tag of an operation.
pub fn op_name(op: &Op) -> (res: String)
    ensures
        res@ == crate::edit::op_name_spec(*op),
{
    string_from(op.name())
}

/// An `--attr` filter matches: `key` when the node has the attribute, `key=value` when it
/// has it with that value.
pub open spec fn attr_matches_spec(n: Node, spec: Seq<char>) -> bool {
    match split_at_char(spec, '=') {
        Some((k, v)) => attr_lookup(n.attrs@, k) == Some(v),
        None => attr_lookup(n.attrs@, spec) is Some,
    }
}

pub fn attr_matches(n: &Node, spec: &str) -> (res: bool)
    ensures
        res == attr_matches_spec(*n, spec@),
{
    match split_once_char(spec, '=') {
        Some((k, v)) => match attr_get(&n.attrs, k.as_str()) {
            Some(x) => crate::text::str_eq(x.as_str(), v.as_str()),
            None => false,
        },
        None => attr_get(&n.attrs, spec).is_some(),
    }
}

/// `s` without its leading `v`s.
pub open spec fn trim_v(s: Seq<char>) -> Seq<char>
    decreases s.len(),
{
    if s.len() > 0 && s[0] == 'v' { trim_v(s.drop_first()) } else { s }
}

pub open spec fn all_digits(s: Seq<char>) -> bool {
    forall|i: int| 0 <= i < s.len() ==> crate::text::is_ascii_digit(#[trigger] s[i])
}

/// The value of a string of decimal digits.
pub open spec fn digits_value(s: Seq<char>) -> nat
    decreases s.len(),
{
    if s.len() == 0 { 0 } else { digits_value(s.drop_last()) * 10 + ((s.last() as nat) - ('0' as nat)) as nat }
}

/// `u64::from_str` with 0 for what does not parse: an optional `+`, then digits, at most
/// `u64::MAX`.
pub open spec fn part_value(p: Seq<char>) -> nat {
    let d = if p.len() > 0 && p[0] == '+' { p.drop_first() } else { p };
    if d.len() > 0 && all_digits(d) && digits_value(d) <= u64::MAX { digits_value(d) } else { 0 }
}

/// The numeric parts of a version (`v0.5.10` gives 0, 5, 10).
pub open spec fn version_parts(s: Seq<char>) -> Seq<nat> {
    split_on(trim_v(s), '.').map_values(|p: Seq<char>| part_value(p))
}

/// Lexicographic `>` (a proper extension is greater), as `Vec`'s order.
pub open spec fn lex_gt(a: Seq<nat>, b: Seq<nat>) -> bool
    decreases a.len(),
{
    if a.len() == 0 {
        false
    } else if b.len() == 0 {
        true
    } else if a[0] != b[0] {
        a[0] > b[0]
    } else {
        lex_gt(a.drop_first(), b.drop_first())
    }
}

proof fn lemma_digits_grow(s: Seq<char>, i: int)
    requires
        0 <= i <= s.len(),
        all_digits(s),
    ensures
        digits_value(s.take(i)) <= digits_value(s),
    decreases s.len() - i,
{
    if i < s.len() {
        lemma_digits_grow(s, i + 1);
        let t = s.take(i + 1);
        assert(t.drop_last() =~= s.take(i));
        assert(crate::text::is_ascii_digit(s[i]));
    } else {
        assert(s.take(i) =~= s);
    }
}

/// `u64::from_str`: an optional `+`, then at least one digit, the value at most `u64::MAX`.
pub open spec fn u64_value(p: Seq<char>) -> Option<nat> {
    let d = if p.len() > 0 && p[0] == '+' { p.drop_first() } else { p };
    if d.len() > 0 && all_digits(d) && digits_value(d) <= u64::MAX { Some(digits_value(d)) } else { None }
}

/// `p.parse::<u64>().ok()`.
pub fn parse_u64(p: &str) -> (res: Option<u64>)
    ensures
        match u64_value(p@) {
            Some(v) => res == Some(v as u64),
            None => res is None,
        },
{
    let cs = chars_of(p);
    let start: usize = if cs.len() > 0 && cs[0] == '+' { 1 } else { 0 };
    let ghost d = if p@.len() > 0 && p@[0] == '+' { p@.drop_first() } else { p@ };
    proof {
        assert(cs@.skip(start as int) =~= d);
    }
    if start >= cs.len() {
        return None;
    }
    let mut acc: u64 = 0;
    let mut i = start;
    while i < cs.len()
        invariant
            cs@ == p@,
            start <= i <= cs@.len(),
            d == cs@.skip(start as int),
            d == (if p@.len() > 0 && p@[0] == '+' { p@.drop_first() } else { p@ }),
            d.len() > 0,
            all_digits(d.take(i - start)),
            acc as nat == digits_value(d.take(i - start)),
        decreases cs.len() - i,
    {
        let c = cs[i];
        proof {
            assert(d[i - start] == c);
        }
        if !(c >= '0' && c <= '9') {
            proof {
                assert(!crate::text::is_ascii_digit(d[i - start]));
                assert(!all_digits(d));
                assert(u64_value(p@) is None);
            }
            return None;
        }
        let dv = (c as u32 - '0' as u32) as u64;
        proof {
            let t = d.take(i - start + 1);
            assert(t.drop_last() =~= d.take(i - start));
            assert(t.last() == c);
            assert(all_digits(t));
        }
        let m = acc.checked_mul(10);
        match m {
            None => {
                proof {
                    let t = d.take(i - start + 1);
                    assert(digits_value(t) == acc * 10 + dv);
                    assert(acc * 10 > u64::MAX);
                    if all_digits(d) {
                        lemma_digits_grow(d, i - start + 1);
                    }
                    assert(u64_value(p@) is None);
                }
                return None;
            },
            Some(m) => match m.checked_add(dv) {
                None => {
                    proof {
                        let t = d.take(i - start + 1);
                        assert(digits_value(t) == acc * 10 + dv);
                        if all_digits(d) {
                            lemma_digits_grow(d, i - start + 1);
                        }
                        assert(u64_value(p@) is None);
                    }
                    return None;
                },
                Some(v) => {
                    acc = v;
                },
            },
        }
        i += 1;
    }
    proof {
        assert(d.take(cs@.len() - start) =~= d);
    }
    Some(acc)
}

/// The value of one version part.
fn parse_part(p: &str) -> (res: u64)
    ensures
        res as nat == part_value(p@),
{
    match parse_u64(p) {
        Some(v) => v,
        None => 0,
    }
}

/// `s` without its leading `v`s.
fn trim_v_exec(s: &str) -> (res: String)
    ensures
        res@ == trim_v(s@),
{
    let cs = chars_of(s);
    let mut i: usize = 0;
    proof {
        assert(cs@.skip(0) =~= cs@);
    }
    while i < cs.len() && cs[i] == 'v'
        invariant
            cs@ == s@,
            i <= cs@.len(),
            trim_v(s@) == trim_v(cs@.skip(i as int)),
        decreases cs.len() - i,
    {
        proof {
            assert(cs@.skip(i as int).drop_first() =~= cs@.skip(i + 1));
        }
        i += 1;
    }
    let r = string_of_range(&cs, i, cs.len());
    proof {
        assert(cs@.subrange(i as int, cs@.len() as int) =~= cs@.skip(i as int));
    }
    r
}

fn version_parts_exec(s: &str) -> (res: Vec<u64>)
    ensures
        res@.map_values(|x: u64| x as nat) == version_parts(s@),
{
    let t = trim_v_exec(s);
    let ps = split_chars(t.as_str(), '.');
    let ghost pv = ps@.map_values(|p: String| p@);
    let mut out: Vec<u64> = Vec::new();
    let mut i: usize = 0;
    while i < ps.len()
        invariant
            i <= ps@.len(),
            pv == ps@.map_values(|p: String| p@),
            pv == split_on(trim_v(s@), '.'),
            out@.map_values(|x: u64| x as nat) == pv.map_values(|p: Seq<char>| part_value(p)).take(i as int),
        decreases ps.len() - i,
    {
        let v = parse_part(ps[i].as_str());
        let ghost before = out@.map_values(|x: u64| x as nat);
        out.push(v);
        proof {
            assert(out@.map_values(|x: u64| x as nat) =~= before.push(v as nat));
            assert(pv[i as int] == ps@[i as int]@);
            assert(pv.map_values(|p: Seq<char>| part_value(p)).take(i + 1) =~= pv.map_values(|p: Seq<char>| part_value(p)).take(i as int).push(part_value(pv[i as int])));
        }
        i += 1;
    }
    proof {
        assert(pv.map_values(|p: Seq<char>| part_value(p)).take(ps@.len() as int) =~= pv.map_values(|p: Seq<char>| part_value(p)));
    }
    out
}

/// Whether version `a` is newer than `b`: their numeric parts compared in order.
pub fn version_newer(a: &str, b: &str) -> (res: bool)
    ensures
        res == lex_gt(version_parts(a@), version_parts(b@)),
{
    let x = version_parts_exec(a);
    let y = version_parts_exec(b);
    let ghost xs = x@.map_values(|v: u64| v as nat);
    let ghost ys = y@.map_values(|v: u64| v as nat);
    let mut i: usize = 0;
    proof {
        assert(xs.skip(0) =~= xs);
        assert(ys.skip(0) =~= ys);
    }
    while i < x.len() && i < y.len() && x[i] == y[i]
        invariant
            xs == x@.map_values(|v: u64| v as nat),
            ys == y@.map_values(|v: u64| v as nat),
            i <= x@.len(),
            i <= y@.len(),
            lex_gt(xs, ys) == lex_gt(xs.skip(i as int), ys.skip(i as int)),
        decreases x.len() - i,
    {
        proof {
            assert(xs.skip(i as int).drop_first() =~= xs.skip(i + 1));
            assert(ys.skip(i as int).drop_first() =~= ys.skip(i + 1));
        }
        i += 1;
    }
    if i == x.len() {
        false
    } else if i == y.len() {
        true
    } else {
        proof {
            assert(xs.skip(i as int)[0] == x@[i as int] as nat);
            assert(ys.skip(i as int)[0] == y@[i as int] as nat);
        }
        x[i] > y[i]
    }
}

} // verus!
