//! The `validate --summary` table: one row per diagnostic code, one column per namespace
//! (the first `depth` segments of the node ID, or the file's first path segment without
//! `.kdl`), each cell the number of diagnostics, then the row total.

use vstd::prelude::*;
use crate::lint::{dviews, DSpec, Diagnostic};
use crate::strset::{set_insert, set_list, lemma_set_list, sorted_strict, views};
use crate::text::{chars_of, dec, dec_string, join, join_strings, push_char, push_str, split_chars, split_on, string_from, string_of_range};

verus! {

/// The number of bytes of a character in UTF-8 (`char::len_utf8`).
pub open spec fn char_bytes(c: char) -> nat {
    if (c as u32) < 0x80 { 1 } else if (c as u32) < 0x800 { 2 } else if (c as u32) < 0x10000 { 3 } else { 4 }
}

/// The length of a text in UTF-8 bytes (`str::len`).
pub open spec fn utf8_len(s: Seq<char>) -> nat
    decreases s.len(),
{
    if s.len() == 0 { 0 } else { utf8_len(s.drop_last()) + char_bytes(s.last()) }
}

/// The characters that make up the first `w` bytes of `s` (from the `k`-th character on),
/// where `w` falls between two characters; `None` where it falls inside one (slicing there
/// panics).
pub open spec fn byte_prefix(s: Seq<char>, w: nat, k: int) -> Option<Seq<char>>
    decreases s.len() + 1 - k,
{
    if k < 0 || k > s.len() {
        None
    } else if utf8_len(s.take(k)) == w {
        Some(s.take(k))
    } else if utf8_len(s.take(k)) > w {
        None
    } else {
        byte_prefix(s, w, k + 1)
    }
}

/// `s` with `.kdl` taken off its end as often as it ends so (`trim_end_matches(".kdl")`).
pub open spec fn trim_kdl(s: Seq<char>) -> Seq<char>
    decreases s.len(),
{
    if ends_kdl(s) {
        trim_kdl(s.subrange(0, s.len() - 4))
    } else {
        s
    }
}

/// `s` ends with `.kdl`.
pub open spec fn ends_kdl(s: Seq<char>) -> bool {
    s.len() >= 4 && s[s.len() - 4] == '.' && s[s.len() - 3] == 'k' && s[s.len() - 2] == 'd' && s[s.len() - 1] == 'l'
}

/// The namespace of a diagnostic: the first `depth` segments of its node ID, else the first
/// path segment of its file without `.kdl`.
pub open spec fn ns_key(d: DSpec, depth: nat) -> Seq<char> {
    match d.id {
        Some(i) => {
            let p = split_on(i, '.');
            join(p.take(if depth < p.len() { depth as int } else { p.len() as int }), "."@)
        },
        None => trim_kdl(split_on(d.file, '/')[0]),
    }
}

pub open spec fn ns_keys(ds: Seq<DSpec>, depth: nat) -> Seq<Seq<char>> {
    ds.map_values(|d: DSpec| ns_key(d, depth))
}

pub open spec fn codes_of(ds: Seq<DSpec>) -> Seq<Seq<char>> {
    ds.map_values(|d: DSpec| d.code)
}

/// The number of diagnostics with code `c` in namespace `ns`.
pub open spec fn count(ds: Seq<DSpec>, depth: nat, c: Seq<char>, ns: Seq<char>) -> nat
    decreases ds.len(),
{
    if ds.len() == 0 {
        0
    } else {
        count(ds.drop_last(), depth, c, ns) + (if ds.last().code == c && ns_key(ds.last(), depth) == ns { 1nat } else { 0 })
    }
}

/// The number of diagnostics with code `c`.
pub open spec fn count_code(ds: Seq<DSpec>, c: Seq<char>) -> nat
    decreases ds.len(),
{
    if ds.len() == 0 {
        0
    } else {
        count_code(ds.drop_last(), c) + (if ds.last().code == c { 1nat } else { 0 })
    }
}

/// The widest namespace, in bytes.
pub open spec fn max_len(s: Seq<Seq<char>>) -> nat
    decreases s.len(),
{
    if s.len() == 0 {
        0
    } else {
        let m = max_len(s.drop_last());
        if utf8_len(s.last()) > m { utf8_len(s.last()) } else { m }
    }
}

/// The column width: the widest namespace, at least 8 and at most 16 bytes.
pub open spec fn col_width(spaces: Seq<Seq<char>>) -> nat {
    let m = max_len(spaces);
    if m < 8 { 8 } else if m > 16 { 16 } else { m }
}

pub open spec fn blanks(n: nat) -> Seq<char> {
    Seq::new(n, |i: int| ' ')
}

/// Right-aligned in `n` characters (`{:>n}`).
pub open spec fn pad_left(s: Seq<char>, n: nat) -> Seq<char> {
    if s.len() < n { blanks((n - s.len()) as nat) + s } else { s }
}

/// Left-aligned in `n` characters (`{:<n}`).
pub open spec fn pad_right(s: Seq<char>, n: nat) -> Seq<char> {
    if s.len() < n { s + blanks((n - s.len()) as nat) } else { s }
}

/// A namespace as a column head: cut to `w` bytes where longer.
pub open spec fn head_cell(ns: Seq<char>, w: nat) -> Option<Seq<char>> {
    if utf8_len(ns) > w { byte_prefix(ns, w, 0) } else { Some(ns) }
}

/// The column heads.
pub open spec fn heads(sp: Seq<Seq<char>>, w: nat) -> Option<Seq<char>>
    decreases sp.len(),
{
    if sp.len() == 0 {
        Some(Seq::<char>::empty())
    } else {
        match (heads(sp.drop_last(), w), head_cell(sp.last(), w)) {
            (Some(h), Some(c)) => Some(h + " "@ + pad_left(c, w)),
            _ => None,
        }
    }
}

/// The cells of the row of code `c`: the count, or `·` for none.
pub open spec fn cells(ds: Seq<DSpec>, depth: nat, c: Seq<char>, sp: Seq<Seq<char>>, w: nat) -> Seq<char>
    decreases sp.len(),
{
    if sp.len() == 0 {
        Seq::<char>::empty()
    } else {
        let n = count(ds, depth, c, sp.last());
        cells(ds, depth, c, sp.drop_last(), w) + " "@ + pad_left(if n == 0 { "·"@ } else { dec(n) }, w)
    }
}

/// The rows of the codes `cs`.
pub open spec fn rows(ds: Seq<DSpec>, depth: nat, cs: Seq<Seq<char>>, sp: Seq<Seq<char>>, w: nat) -> Seq<char>
    decreases cs.len(),
{
    if cs.len() == 0 {
        Seq::<char>::empty()
    } else {
        let c = cs.last();
        rows(ds, depth, cs.drop_last(), sp, w) + pad_right(c, 22) + cells(ds, depth, c, sp, w) + " "@
            + pad_left(dec(count_code(ds, c)), 8) + "\n"@
    }
}

/// The table; `None` where a column head would be cut inside a character.
pub open spec fn summary_spec(ds: Seq<DSpec>, depth: nat) -> Option<Seq<char>> {
    let sp = set_list(ns_keys(ds, depth));
    let cs = set_list(codes_of(ds));
    let w = col_width(sp);
    match heads(sp, w) {
        Some(h) => Some(pad_right("code"@, 22) + h + "    total\n"@ + rows(ds, depth, cs, sp, w)),
        None => None,
    }
}

fn char_bytes_exec(c: char) -> (res: usize)
    ensures
        res == char_bytes(c),
{
    if (c as u32) < 0x80 { 1 } else if (c as u32) < 0x800 { 2 } else if (c as u32) < 0x10000 { 3 } else { 4 }
}

proof fn lemma_utf8_len_grows(s: Seq<char>, k: int)
    requires
        0 <= k < s.len(),
    ensures
        utf8_len(s.take(k + 1)) == utf8_len(s.take(k)) + char_bytes(s[k]),
{
    assert(s.take(k + 1).drop_last() =~= s.take(k));
}

proof fn lemma_utf8_bound(s: Seq<char>)
    ensures
        utf8_len(s) <= 4 * s.len(),
    decreases s.len(),
{
    if s.len() > 0 {
        lemma_utf8_bound(s.drop_last());
    }
}

/// The byte length of a text, up to `cap` (then `cap`).
fn utf8_len_capped(s: &Vec<char>, cap: usize) -> (res: usize)
    ensures
        res == (if utf8_len(s@) < cap { utf8_len(s@) } else { cap as nat }),
{
    let mut n: usize = 0;
    let mut k: usize = 0;
    while k < s.len()
        invariant
            k <= s@.len(),
            n == (if utf8_len(s@.take(k as int)) < cap { utf8_len(s@.take(k as int)) } else { cap as nat }),
        decreases s.len() - k,
    {
        proof {
            lemma_utf8_len_grows(s@, k as int);
        }
        let b = char_bytes_exec(s[k]);
        if n < cap {
            if b >= cap - n {
                n = cap;
            } else {
                n = n + b;
            }
        }
        k += 1;
    }
    proof {
        assert(s@.take(s@.len() as int) =~= s@);
    }
    n
}

/// The characters of the first `w` bytes of `s`, where `w` falls between characters.
fn byte_prefix_exec(s: &Vec<char>, w: usize) -> (res: Option<String>)
    ensures
        match res { Some(p) => byte_prefix(s@, w as nat, 0) == Some(p@), None => byte_prefix(s@, w as nat, 0) is None },
{
    let mut n: usize = 0;
    let mut k: usize = 0;
    proof {
        assert(s@.take(0) =~= Seq::<char>::empty());
    }
    while k <= s.len()
        invariant
            k <= s@.len() + 1,
            k <= s@.len() ==> n == utf8_len(s@.take(k as int)),
            n <= w,
            byte_prefix(s@, w as nat, 0) == byte_prefix(s@, w as nat, k as int),
        decreases s@.len() + 1 - k,
    {
        if n == w {
            proof {
                assert(s@.subrange(0, k as int) =~= s@.take(k as int));
            }
            return Some(string_of_range(s, 0, k));
        }
        if k == s.len() {
            proof {
                assert(byte_prefix(s@, w as nat, k + 1) is None);
            }
            return None;
        }
        proof {
            lemma_utf8_len_grows(s@, k as int);
        }
        let b = char_bytes_exec(s[k]);
        if b > w - n {
            proof {
                assert(utf8_len(s@.take(k + 1)) > w);
                assert(byte_prefix(s@, w as nat, k + 1) is None);
            }
            return None;
        }
        n = n + b;
        k += 1;
    }
    None
}

/// `s` without its trailing `.kdl`s.
fn trim_kdl_exec(s: &str) -> (res: String)
    ensures
        res@ == trim_kdl(s@),
{
    let cs = chars_of(s);
    let mut e: usize = cs.len();
    proof {
        assert(cs@.subrange(0, e as int) =~= cs@);
    }
    while e >= 4 && cs[e - 4] == '.' && cs[e - 3] == 'k' && cs[e - 2] == 'd' && cs[e - 1] == 'l'
        invariant
            cs@ == s@,
            e <= cs@.len(),
            trim_kdl(s@) == trim_kdl(cs@.subrange(0, e as int)),
        decreases e,
    {
        proof {
            let t = cs@.subrange(0, e as int);
            assert(ends_kdl(t));
            assert(t.subrange(0, t.len() - 4) =~= cs@.subrange(0, e - 4));
        }
        e -= 4;
    }
    proof {
        let t = cs@.subrange(0, e as int);
        assert(!ends_kdl(t));
    }
    string_of_range(&cs, 0, e)
}

/// The namespace of a diagnostic.
pub fn ns_of_diag(d: &Diagnostic, depth: usize) -> (res: String)
    ensures
        res@ == ns_key(d@, depth as nat),
{
    proof {
        reveal_strlit(".");
    }
    match &d.id {
        Some(i) => {
            let parts = split_chars(i.as_str(), '.');
            let ghost pv = parts@.map_values(|p: String| p@);
            let n = if depth < parts.len() { depth } else { parts.len() };
            let mut kept: Vec<String> = Vec::new();
            let mut k: usize = 0;
            while k < n
                invariant
                    pv == parts@.map_values(|p: String| p@),
                    n <= parts@.len(),
                    k <= n,
                    kept@.map_values(|p: String| p@) == pv.take(k as int),
                decreases n - k,
            {
                let ghost before = kept@.map_values(|p: String| p@);
                let x = parts[k].clone();
                proof {
                    assert(x@ == pv[k as int]);
                }
                kept.push(x);
                proof {
                    assert(kept@.map_values(|p: String| p@) =~= before.push(x@));
                    assert(pv.take(k + 1) =~= pv.take(k as int).push(pv[k as int]));
                }
                k += 1;
            }
            join_strings(&kept, ".")
        },
        None => {
            let parts = split_chars(d.file.as_str(), '/');
            proof {
                assert(parts@.map_values(|p: String| p@)[0] == parts@[0]@);
            }
            trim_kdl_exec(parts[0].as_str())
        },
    }
}

fn push_blanks(s: &mut String, n: usize)
    ensures
        final(s)@ == old(s)@ + blanks(n as nat),
{
    let mut k: usize = 0;
    while k < n
        invariant
            k <= n,
            s@ == old(s)@ + blanks(k as nat),
        decreases n - k,
    {
        push_char(s, ' ');
        proof {
            assert(s@ =~= old(s)@ + blanks((k + 1) as nat));
        }
        k += 1;
    }
}

fn char_count(s: &str) -> (res: usize)
    ensures
        res == s@.len(),
{
    chars_of(s).len()
}

/// Appends `t` right-aligned in `n` characters.
fn push_left(s: &mut String, t: &str, n: usize)
    ensures
        final(s)@ == old(s)@ + pad_left(t@, n as nat),
{
    let l = char_count(t);
    if l < n {
        push_blanks(s, n - l);
    }
    push_str(s, t);
    proof {
        assert(s@ =~= old(s)@ + pad_left(t@, n as nat));
    }
}

/// Appends `t` left-aligned in `n` characters.
fn push_right(s: &mut String, t: &str, n: usize)
    ensures
        final(s)@ == old(s)@ + pad_right(t@, n as nat),
{
    push_str(s, t);
    let l = char_count(t);
    if l < n {
        push_blanks(s, n - l);
    }
    proof {
        assert(s@ =~= old(s)@ + pad_right(t@, n as nat));
    }
}

fn count_exec(ds: &Vec<Diagnostic>, keys: &Vec<String>, depth: usize, c: &str, ns: &str) -> (res: usize)
    requires
        views(keys@) == ns_keys(dviews(ds@), depth as nat),
    ensures
        res == count(dviews(ds@), depth as nat, c@, ns@),
        res <= ds@.len(),
{
    let ghost dv = dviews(ds@);
    proof {
        assert(views(keys@).len() == keys@.len());
    }
    let mut n: usize = 0;
    let mut i: usize = 0;
    while i < ds.len()
        invariant
            dv == dviews(ds@),
            views(keys@) == ns_keys(dv, depth as nat),
            keys@.len() == ds@.len(),
            i <= ds@.len(),
            n == count(dv.take(i as int), depth as nat, c@, ns@),
            n <= i,
        decreases ds.len() - i,
    {
        proof {
            assert(dv.take(i + 1).drop_last() =~= dv.take(i as int));
            assert(dv.take(i + 1).last() == ds@[i as int]@);
            assert(views(keys@)[i as int] == keys@[i as int]@);
        }
        if crate::text::str_eq(ds[i].code, c) && crate::text::str_eq(keys[i].as_str(), ns) {
            n += 1;
        }
        i += 1;
    }
    proof {
        assert(dv.take(dv.len() as int) =~= dv);
    }
    n
}

fn count_code_exec(ds: &Vec<Diagnostic>, c: &str) -> (res: usize)
    ensures
        res == count_code(dviews(ds@), c@),
{
    let ghost dv = dviews(ds@);
    let mut n: usize = 0;
    let mut i: usize = 0;
    while i < ds.len()
        invariant
            dv == dviews(ds@),
            i <= ds@.len(),
            n == count_code(dv.take(i as int), c@),
            n <= i,
        decreases ds.len() - i,
    {
        proof {
            assert(dv.take(i + 1).drop_last() =~= dv.take(i as int));
            assert(dv.take(i + 1).last() == ds@[i as int]@);
        }
        if crate::text::str_eq(ds[i].code, c) {
            n += 1;
        }
        i += 1;
    }
    proof {
        assert(dv.take(dv.len() as int) =~= dv);
    }
    n
}

/// The `validate --summary` table of the diagnostics `d`; `None` where a namespace would be
/// cut inside a character (slicing a string there panics).
pub fn lint_summary(d: &Vec<Diagnostic>, depth: usize) -> (res: Option<String>)
    ensures
        match res { Some(s) => summary_spec(dviews(d@), depth as nat) == Some(s@), None => summary_spec(dviews(d@), depth as nat) is None },
{
    let ghost dv = dviews(d@);
    // namespaces and codes, each once, sorted
    let mut keys: Vec<String> = Vec::new();
    let mut spaces: Vec<String> = Vec::new();
    let mut codes: Vec<String> = Vec::new();
    let mut i: usize = 0;
    while i < d.len()
        invariant
            dv == dviews(d@),
            i <= d@.len(),
            views(keys@) == ns_keys(dv.take(i as int), depth as nat),
            sorted_strict(views(spaces@)),
            sorted_strict(views(codes@)),
            forall|x: Seq<char>| views(spaces@).contains(x) <==> ns_keys(dv.take(i as int), depth as nat).contains(x),
            forall|x: Seq<char>| views(codes@).contains(x) <==> codes_of(dv.take(i as int)).contains(x),
        decreases d.len() - i,
    {
        let k = ns_of_diag(&d[i], depth);
        let ghost before_keys = views(keys@);
        keys.push(k.clone());
        set_insert(&mut spaces, k);
        set_insert(&mut codes, string_from(d[i].code));
        proof {
            let t = dv.take(i + 1);
            assert(t =~= dv.take(i as int).push(d@[i as int]@));
            assert(ns_keys(t, depth as nat) =~= ns_keys(dv.take(i as int), depth as nat).push(ns_key(d@[i as int]@, depth as nat)));
            assert(codes_of(t) =~= codes_of(dv.take(i as int)).push(d@[i as int]@.code));
            assert(views(keys@) =~= before_keys.push(ns_key(d@[i as int]@, depth as nat)));
            assert forall|x: Seq<char>| views(spaces@).contains(x) <==> ns_keys(t, depth as nat).contains(x) by {
                crate::strset::lemma_push_contains(ns_keys(dv.take(i as int), depth as nat), ns_key(d@[i as int]@, depth as nat), x);
            }
            assert forall|x: Seq<char>| views(codes@).contains(x) <==> codes_of(t).contains(x) by {
                crate::strset::lemma_push_contains(codes_of(dv.take(i as int)), d@[i as int]@.code, x);
            }
        }
        i += 1;
    }
    proof {
        assert(dv.take(dv.len() as int) =~= dv);
        lemma_set_list(views(spaces@), ns_keys(dv, depth as nat));
        lemma_set_list(views(codes@), codes_of(dv));
    }
    let ghost sp = views(spaces@);
    // the column width
    let mut m: usize = 0;
    let mut j: usize = 0;
    while j < spaces.len()
        invariant
            sp == views(spaces@),
            j <= spaces@.len(),
            m == (if max_len(sp.take(j as int)) < 17 { max_len(sp.take(j as int)) } else { 17 }),
        decreases spaces.len() - j,
    {
        proof {
            assert(sp.take(j + 1).drop_last() =~= sp.take(j as int));
            assert(sp.take(j + 1).last() == spaces@[j as int]@);
        }
        let l = utf8_len_capped(&chars_of(spaces[j].as_str()), 17);
        if l > m {
            m = l;
        }
        j += 1;
    }
    proof {
        assert(sp.take(sp.len() as int) =~= sp);
    }
    let w: usize = if m < 8 { 8 } else if m > 16 { 16 } else { m };
    // the head row
    let mut s = String::new();
    push_right(&mut s, "code", 22);
    let ghost start = s@;
    let mut j: usize = 0;
    while j < spaces.len()
        invariant
            sp == views(spaces@),
            sp == set_list(ns_keys(dviews(d@), depth as nat)),
            w == col_width(sp),
            j <= spaces@.len(),
            heads(sp.take(j as int), w as nat) matches Some(h) && s@ == start + h,
        decreases spaces.len() - j,
    {
        proof {
            assert(sp.take(j + 1).drop_last() =~= sp.take(j as int));
            assert(sp.take(j + 1).last() == spaces@[j as int]@);
            reveal_strlit(" ");
        }
        let cs = chars_of(spaces[j].as_str());
        let long = utf8_len_capped(&cs, w + 1) > w;
        let cell = if long {
            match byte_prefix_exec(&cs, w) {
                Some(p) => p,
                None => {
                    proof {
                        assert(heads(sp.take(j + 1), w as nat) is None);
                        lemma_heads_none(sp, w as nat, j + 1);
                    }
                    return None;
                },
            }
        } else {
            spaces[j].clone()
        };
        push_str(&mut s, " ");
        push_left(&mut s, cell.as_str(), w);
        j += 1;
    }
    proof {
        assert(sp.take(sp.len() as int) =~= sp);
        reveal_strlit("    total\n");
    }
    push_str(&mut s, "    total\n");
    let ghost top = s@;
    let ghost cv = views(codes@);
    // one row per code
    let mut r: usize = 0;
    while r < codes.len()
        invariant
            sp == views(spaces@),
            cv == views(codes@),
            sp == set_list(ns_keys(dviews(d@), depth as nat)),
            cv == set_list(codes_of(dviews(d@))),
            dv == dviews(d@),
            views(keys@) == ns_keys(dv, depth as nat),
            w == col_width(sp),
            r <= codes@.len(),
            s@ == top + rows(dv, depth as nat, cv.take(r as int), sp, w as nat),
        decreases codes.len() - r,
    {
        proof {
            assert(cv.take(r + 1).drop_last() =~= cv.take(r as int));
            assert(cv.take(r + 1).last() == codes@[r as int]@);
            reveal_strlit(" ");
            reveal_strlit("·");
            reveal_strlit("\n");
        }
        let c = codes[r].as_str();
        let ghost row_start = s@;
        push_right(&mut s, c, 22);
        let ghost mid = s@;
        let mut j: usize = 0;
        while j < spaces.len()
            invariant
                sp == views(spaces@),
                dv == dviews(d@),
                views(keys@) == ns_keys(dv, depth as nat),
                j <= spaces@.len(),
                s@ == mid + cells(dv, depth as nat, c@, sp.take(j as int), w as nat),
            decreases spaces.len() - j,
        {
            proof {
                assert(sp.take(j + 1).drop_last() =~= sp.take(j as int));
                assert(sp.take(j + 1).last() == spaces@[j as int]@);
            }
            let n = count_exec(d, &keys, depth, c, spaces[j].as_str());
            push_str(&mut s, " ");
            if n == 0 {
                push_left(&mut s, "·", w);
            } else {
                let t = dec_string(n as u64);
                push_left(&mut s, t.as_str(), w);
            }
            proof {
                assert(s@ =~= mid + cells(dv, depth as nat, c@, sp.take(j + 1), w as nat));
            }
            j += 1;
        }
        proof {
            assert(sp.take(sp.len() as int) =~= sp);
        }
        let total = count_code_exec(d, c);
        push_str(&mut s, " ");
        let t = dec_string(total as u64);
        push_left(&mut s, t.as_str(), 8);
        push_str(&mut s, "\n");
        proof {
            assert(s@ =~= top + rows(dv, depth as nat, cv.take(r + 1), sp, w as nat));
        }
        r += 1;
    }
    proof {
        assert(cv.take(cv.len() as int) =~= cv);
        reveal_strlit("code");
    }
    Some(s)
}

proof fn lemma_heads_none(sp: Seq<Seq<char>>, w: nat, k: int)
    requires
        0 <= k <= sp.len(),
        heads(sp.take(k), w) is None,
    ensures
        heads(sp, w) is None,
    decreases sp.len() - k,
{
    if k < sp.len() {
        assert(sp.take(k + 1).drop_last() =~= sp.take(k));
        lemma_heads_none(sp, w, k + 1);
    } else {
        assert(sp.take(k) =~= sp);
    }
}

} // verus!
