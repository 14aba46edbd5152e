//! What changed during a session: paths read from `git status --porcelain`, and the files
//! whose content hash differs from the baseline taken when the session started. Hashes are
//! compared as text; the caller computes them.

use vstd::prelude::*;
use crate::strset::{set_add_all, set_insert, sorted_strict, views};
use crate::text::{chars_of, str_eq, string_of_range};
use crate::ws::{trim_exec, trim_ws};

verus! {

/// `s` without `"` at either end (`trim_matches('"')`).
pub open spec fn strip_quotes(s: Seq<char>) -> Seq<char>
    decreases s.len(),
{
    if s.len() > 0 && s[0] == '"' {
        strip_quotes(s.drop_first())
    } else if s.len() > 0 && s.last() == '"' {
        strip_quotes(s.drop_last())
    } else {
        s
    }
}

/// The path of one `git status --porcelain` line (`XY path`): the text after the two
/// status letters and the space, trimmed, without quotes. Shorter lines name no path.
pub open spec fn porcelain_path_spec(line: Seq<char>) -> Option<Seq<char>> {
    if line.len() < 4 { None } else { Some(strip_quotes(trim_ws(line.skip(3)))) }
}

/// The path of one `git status --porcelain` line.
pub fn porcelain_path(line: &str) -> (res: Option<String>)
    ensures
        match res { Some(p) => porcelain_path_spec(line@) == Some(p@), None => porcelain_path_spec(line@) is None },
{
    let cs = chars_of(line);
    if cs.len() < 4 {
        return None;
    }
    let rest = string_of_range(&cs, 3, cs.len());
    proof {
        assert(cs@.subrange(3, cs@.len() as int) =~= line@.skip(3));
    }
    let t = trim_exec(rest.as_str());
    let ts = chars_of(t.as_str());
    let mut a: usize = 0;
    let mut b: usize = ts.len();
    proof {
        assert(ts@.subrange(0, ts@.len() as int) =~= ts@);
    }
    while a < b && ts[a] == '"'
        invariant
            a <= b == ts@.len(),
            strip_quotes(t@) == strip_quotes(ts@.subrange(a as int, b as int)),
            ts@ == t@,
        decreases b - a,
    {
        proof {
            assert(ts@.subrange(a as int, b as int).drop_first() =~= ts@.subrange(a + 1, b as int));
        }
        a += 1;
    }
    while a < b && ts[b - 1] == '"'
        invariant
            a <= b <= ts@.len(),
            a < b ==> ts@[a as int] != '"',
            strip_quotes(t@) == strip_quotes(ts@.subrange(a as int, b as int)),
            ts@ == t@,
        decreases b - a,
    {
        proof {
            let u = ts@.subrange(a as int, b as int);
            assert(u[0] == ts@[a as int]);
            assert(u.drop_last() =~= ts@.subrange(a as int, b - 1));
        }
        b -= 1;
    }
    proof {
        let u = ts@.subrange(a as int, b as int);
        if u.len() > 0 {
            assert(u[0] == ts@[a as int]);
            assert(u.last() == ts@[b - 1]);
        }
    }
    Some(string_of_range(&ts, a, b))
}

/// The value stored under `k` (the first entry with that key).
pub open spec fn lookup(m: Seq<(Seq<char>, Seq<char>)>, k: Seq<char>) -> Option<Seq<char>>
    decreases m.len(),
{
    if m.len() == 0 {
        None
    } else if m[0].0 == k {
        Some(m[0].1)
    } else {
        lookup(m.drop_first(), k)
    }
}

pub open spec fn pairs(v: Seq<(String, String)>) -> Seq<(Seq<char>, Seq<char>)> {
    v.map_values(|p: (String, String)| (p.0@, p.1@))
}

/// A key of `now` whose value is not the one `base` holds.
pub open spec fn differs(now: Seq<(Seq<char>, Seq<char>)>, base: Seq<(Seq<char>, Seq<char>)>, x: Seq<char>) -> bool {
    exists|i: int| 0 <= i < now.len() && (#[trigger] now[i]).0 == x && lookup(base, x) != Some(now[i].1)
}

/// A key of `base` that `now` does not have.
pub open spec fn vanished(now: Seq<(Seq<char>, Seq<char>)>, base: Seq<(Seq<char>, Seq<char>)>, x: Seq<char>) -> bool {
    lookup(base, x) is Some && lookup(now, x) is None
}

proof fn lemma_lookup(m: Seq<(Seq<char>, Seq<char>)>, k: Seq<char>)
    ensures
        lookup(m, k) is Some <==> exists|i: int| 0 <= i < m.len() && (#[trigger] m[i]).0 == k,
    decreases m.len(),
{
    if m.len() > 0 {
        lemma_lookup(m.drop_first(), k);
        if m[0].0 != k && exists|i: int| 0 <= i < m.len() && (#[trigger] m[i]).0 == k {
            let i = choose|i: int| 0 <= i < m.len() && (#[trigger] m[i]).0 == k;
            assert(m.drop_first()[i - 1] == m[i]);
        }
        if lookup(m.drop_first(), k) is Some {
            let i = choose|i: int| 0 <= i < m.drop_first().len() && (#[trigger] m.drop_first()[i]).0 == k;
            assert(m[i + 1] == m.drop_first()[i]);
        }
    }
}

/// The value stored under `k`.
fn lookup_exec<'a>(m: &'a Vec<(String, String)>, k: &str) -> (res: Option<&'a String>)
    ensures
        match res { Some(v) => lookup(pairs(m@), k@) == Some(v@), None => lookup(pairs(m@), k@) is None },
{
    let ghost pm = pairs(m@);
    let mut i: usize = 0;
    proof {
        assert(pm.skip(0) =~= pm);
    }
    while i < m.len()
        invariant
            pm == pairs(m@),
            i <= m@.len(),
            lookup(pm, k@) == lookup(pm.skip(i as int), k@),
        decreases m.len() - i,
    {
        proof {
            assert(pm.skip(i as int)[0] == (m@[i as int].0@, m@[i as int].1@));
            assert(pm.skip(i as int).drop_first() =~= pm.skip(i + 1));
        }
        if str_eq(m[i].0.as_str(), k) {
            return Some(&m[i].1);
        }
        i += 1;
    }
    proof {
        assert(pm.skip(i as int) =~= Seq::<(Seq<char>, Seq<char>)>::empty());
    }
    None
}

/// Adds to the set `out` the keys of `now` whose value differs from `base`'s.
fn add_differing(out: &mut Vec<String>, now: &Vec<(String, String)>, base: &Vec<(String, String)>)
    requires
        sorted_strict(views(old(out)@)),
    ensures
        sorted_strict(views(final(out)@)),
        forall|x: Seq<char>| #[trigger] views(final(out)@).contains(x)
            <==> (views(old(out)@).contains(x) || differs(pairs(now@), pairs(base@), x)),
{
    let ghost o = views(out@);
    let ghost pn = pairs(now@);
    let mut i: usize = 0;
    while i < now.len()
        invariant
            pn == pairs(now@),
            i <= now@.len(),
            sorted_strict(views(out@)),
            forall|x: Seq<char>| #[trigger] views(out@).contains(x)
                <==> (o.contains(x) || differs(pn.take(i as int), pairs(base@), x)),
        decreases now.len() - i,
    {
        let (p, h) = (&now[i].0, &now[i].1);
        let keep = match lookup_exec(base, p.as_str()) {
            Some(v) => !str_eq(v.as_str(), h.as_str()),
            None => true,
        };
        let ghost before = views(out@);
        if keep {
            set_insert(out, p.clone());
        }
        proof {
            assert(pn.take(i + 1) =~= pn.take(i as int).push(pn[i as int]));
            assert(pn[i as int] == (p@, h@));
            assert forall|x: Seq<char>| #[trigger] views(out@).contains(x)
                <==> (o.contains(x) || differs(pn.take(i + 1), pairs(base@), x)) by {
                let t = pn.take(i + 1);
                if differs(t, pairs(base@), x) {
                    let j = choose|j: int| 0 <= j < t.len() && (#[trigger] t[j]).0 == x && lookup(pairs(base@), x) != Some(t[j].1);
                    if j < i {
                        assert(pn.take(i as int)[j] == t[j]);
                    }
                }
                if differs(pn.take(i as int), pairs(base@), x) {
                    let j = choose|j: int| 0 <= j < i && (#[trigger] pn.take(i as int)[j]).0 == x && lookup(pairs(base@), x) != Some(pn.take(i as int)[j].1);
                    assert(t[j] == pn.take(i as int)[j]);
                }
                if keep && x == p@ {
                    assert(t[i as int] == pn[i as int]);
                }
            }
        }
        i += 1;
    }
    proof {
        assert(pn.take(pn.len() as int) =~= pn);
    }
}

/// Files changed during the session: those `git diff` names since the session's `HEAD`,
/// and the dirty files whose content hash is not the one the baseline recorded; each once,
/// sorted.
pub fn changed_since(diff_names: &Vec<String>, dirty: &Vec<(String, String)>, base_dirty: &Vec<(String, String)>)
    -> (res: Vec<String>)
    ensures
        sorted_strict(views(res@)),
        forall|x: Seq<char>| #[trigger] views(res@).contains(x)
            <==> (views(diff_names@).contains(x) || differs(pairs(dirty@), pairs(base_dirty@), x)),
{
    let mut out: Vec<String> = Vec::new();
    set_add_all(&mut out, diff_names);
    add_differing(&mut out, dirty, base_dirty);
    out
}

/// Flow files changed since the baseline: a file whose hash differs (or is new), and a file
/// that is gone; each once, sorted.
pub fn changed_flow_files(now: &Vec<(String, String)>, base: &Vec<(String, String)>) -> (res: Vec<String>)
    ensures
        sorted_strict(views(res@)),
        forall|x: Seq<char>| #[trigger] views(res@).contains(x)
            <==> (differs(pairs(now@), pairs(base@), x) || vanished(pairs(now@), pairs(base@), x)),
{
    let mut out: Vec<String> = Vec::new();
    add_differing(&mut out, now, base);
    let ghost mid = views(out@);
    let ghost pb = pairs(base@);
    let mut i: usize = 0;
    while i < base.len()
        invariant
            pb == pairs(base@),
            i <= base@.len(),
            sorted_strict(views(out@)),
            forall|x: Seq<char>| #[trigger] views(out@).contains(x)
                <==> (mid.contains(x) || (lookup(pairs(now@), x) is None
                    && exists|j: int| 0 <= j < i && (#[trigger] pb[j]).0 == x)),
        decreases base.len() - i,
    {
        let p = &base[i].0;
        let gone = lookup_exec(now, p.as_str()).is_none();
        if gone {
            set_insert(&mut out, p.clone());
        }
        proof {
            assert(pb[i as int].0 == p@);
            assert forall|x: Seq<char>| #[trigger] views(out@).contains(x)
                <==> (mid.contains(x) || (lookup(pairs(now@), x) is None
                    && exists|j: int| 0 <= j < i + 1 && (#[trigger] pb[j]).0 == x)) by {
                if x == p@ && gone {
                    assert(pb[i as int].0 == x);
                }
            }
        }
        i += 1;
    }
    proof {
        assert forall|x: Seq<char>| #[trigger] views(out@).contains(x)
            <==> (differs(pairs(now@), pairs(base@), x) || vanished(pairs(now@), pairs(base@), x)) by {
            lemma_lookup(pb, x);
        }
    }
    out
}

} // verus!
