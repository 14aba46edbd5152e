//! The `src` check: a node's `src="path#symbol"` (or `path:line`, or a bare path) must name
//! a file of the repository and, where given, a symbol that stands in it as a whole word.
//! Reading the files is the caller's part: it reads each path of `src_refs` and hands the
//! texts (or `None` where a file could not be read) to `src_lint`.

use vstd::prelude::*;
use crate::cli::{split_at_char, u64_value};
use crate::graph::Graph;
use crate::lint::{diag, dg, dviews, DSpec, Diagnostic, Level};
use crate::model::{attr_get, attr_lookup, ostr, Node};
use crate::text::{chars_of, chars_occur_at, is_ascii_alnum, occurs_at, push_str, str_eq, string_from, string_of_range};

verus! {

/// What `std::path::Path::extension` gives for a path, as text.
pub uninterp spec fn path_extension(p: Seq<char>) -> Option<Seq<char>>;

/// `Path::new(p).extension()`, as text where it is valid UTF-8 (always, for a `&str` path).
/// Trusted: the result is `path_extension(p@)`, a function of the path alone.
#[verifier::external_body]
fn extension_of(p: &str) -> (res: Option<String>)
    ensures
        ostr(res) == path_extension(p@),
{
    std::path::Path::new(p).extension().and_then(|e| e.to_str()).map(|e| e.to_string())
}

/// Where a node's `src` attribute points.
pub struct SrcRef {
    pub id: String,
    pub path: String,
    pub symbol: Option<String>,
    pub line: Option<String>,
    /// The node's file and line, where a diagnostic is reported.
    pub file: String,
    pub at: usize,
}

pub struct SrcRefV {
    pub id: Seq<char>,
    pub path: Seq<char>,
    pub symbol: Option<Seq<char>>,
    pub line: Option<Seq<char>>,
    pub file: Seq<char>,
    pub at: usize,
}

impl View for SrcRef {
    type V = SrcRefV;

    open spec fn view(&self) -> SrcRefV {
        SrcRefV { id: self.id@, path: self.path@, symbol: ostr(self.symbol), line: ostr(self.line), file: self.file@, at: self.at }
    }
}

/// Index of the last `c` in `s`, or -1.
pub open spec fn last_pos(s: Seq<char>, c: char) -> int
    decreases s.len(),
{
    if s.len() == 0 {
        -1
    } else if s.last() == c {
        s.len() - 1
    } else {
        last_pos(s.drop_last(), c)
    }
}

/// `s` split at its last `c`.
pub open spec fn rsplit_at_char(s: Seq<char>, c: char) -> Option<(Seq<char>, Seq<char>)> {
    let i = last_pos(s, c);
    if i < 0 { None } else { Some((s.take(i), s.skip(i + 1))) }
}

/// `usize::from_str`.
pub open spec fn usize_value(s: Seq<char>) -> Option<nat> {
    match u64_value(s) {
        Some(v) => if v <= usize::MAX { Some(v) } else { None },
        None => None,
    }
}

/// The parts of a `src` value: `path#symbol`, else `path:line` where the line is a number,
/// else the whole value as the path.
pub open spec fn src_parts(s: Seq<char>) -> (Seq<char>, Option<Seq<char>>, Option<Seq<char>>) {
    match split_at_char(s, '#') {
        Some(ps) => (ps.0, Some(ps.1), None),
        None => match rsplit_at_char(s, ':') {
            Some(pl) => if usize_value(pl.1) is Some { (pl.0, None, Some(pl.1)) } else { (s, None, None) },
            None => (s, None, None),
        },
    }
}

pub open spec fn s_src() -> Seq<char> { seq!['s', 'r', 'c'] }

/// The `src` references of the nodes, in order.
pub open spec fn refs_of(ns: Seq<Node>) -> Seq<SrcRefV>
    decreases ns.len(),
{
    if ns.len() == 0 {
        Seq::<SrcRefV>::empty()
    } else {
        let n = ns.last();
        match attr_lookup(n.attrs@, s_src()) {
            Some(v) => {
                let p = src_parts(v);
                refs_of(ns.drop_last()).push(SrcRefV { id: n.id@, path: p.0, symbol: p.1, line: p.2, file: n.file@, at: n.line })
            },
            None => refs_of(ns.drop_last()),
        }
    }
}

/// A character that can continue an identifier: ASCII letter or digit, or `_`.
pub open spec fn word_char(c: char) -> bool {
    is_ascii_alnum(c) || c == '_'
}

/// `w` occurs in `t` at `i`, with no identifier character just before or after it.
pub open spec fn word_at(t: Seq<char>, w: Seq<char>, i: int) -> bool {
    &&& occurs_at(t, w, i)
    &&& (i == 0 || !word_char(t[i - 1]))
    &&& (i + w.len() >= t.len() || !word_char(t[i + w.len()]))
}

/// `w` stands in `t` as a whole word.
pub open spec fn has_word(t: Seq<char>, w: Seq<char>) -> bool {
    exists|i: int| word_at(t, w, i)
}

/// File extensions of source code, for which a `src` without a symbol or line is reported.
pub open spec fn code_ext(e: Seq<char>) -> bool {
    e == "rs"@ || e == "ts"@ || e == "tsx"@ || e == "js"@ || e == "jsx"@ || e == "vue"@ || e == "go"@ || e == "py"@
}

/// The diagnostic for one reference, given the text of its file (`None`: not readable).
pub open spec fn src_diag_spec(r: SrcRefV, text: Option<Seq<char>>) -> Option<DSpec> {
    match text {
        None => Some(dg(Level::Warning, "src_missing", r.file, r.at, Some(r.id),
            "`"@ + r.id + "`: src file `"@ + r.path + "` not found"@)),
        Some(t) => match r.symbol {
            Some(sym) => if has_word(t, sym) {
                None
            } else {
                Some(dg(Level::Warning, "src_symbol_missing", r.file, r.at, Some(r.id),
                    "`"@ + r.id + "`: `"@ + sym + "` not found in `"@ + r.path + "`"@))
            },
            None => if r.line is None && (path_extension(r.path) matches Some(e) && code_ext(e)) {
                Some(dg(Level::Warning, "src_symbol_unchecked", r.file, r.at, Some(r.id),
                    "`"@ + r.id + "`: src `"@ + r.path + "` names no `#symbol` (or `:line`), nothing to verify"@))
            } else {
                None
            },
        },
    }
}

/// The diagnostics of all references, in order.
pub open spec fn src_lint_spec(rs: Seq<SrcRefV>, texts: Seq<Option<Seq<char>>>) -> Seq<DSpec>
    decreases rs.len(),
{
    if rs.len() == 0 {
        Seq::<DSpec>::empty()
    } else {
        let rest = src_lint_spec(rs.drop_last(), texts);
        match src_diag_spec(rs.last(), texts[rs.len() - 1]) {
            Some(d) => rest.push(d),
            None => rest,
        }
    }
}

proof fn lemma_last_pos(s: Seq<char>, c: char)
    ensures
        -1 <= last_pos(s, c) < s.len(),
        last_pos(s, c) >= 0 ==> s[last_pos(s, c)] == c,
        forall|j: int| last_pos(s, c) < j < s.len() ==> s[j] != c,
    decreases s.len(),
{
    if s.len() > 0 && s.last() != c {
        let d = s.drop_last();
        lemma_last_pos(d, c);
        assert forall|j: int| last_pos(s, c) < j < s.len() implies s[j] != c by {
            if j < s.len() - 1 {
                assert(d[j] == s[j]);
            }
        }
    }
}

/// `s` split at its last `c`.
pub fn rsplit_once_char(s: &str, c: char) -> (res: Option<(String, String)>)
    ensures
        match res {
            Some(p) => rsplit_at_char(s@, c) == Some((p.0@, p.1@)),
            None => rsplit_at_char(s@, c) is None,
        },
{
    let cs = chars_of(s);
    let mut i: usize = cs.len();
    proof {
        assert(cs@.take(cs@.len() as int) =~= cs@);
    }
    while i > 0
        invariant
            cs@ == s@,
            i <= cs@.len(),
            last_pos(cs@, c) == last_pos(cs@.take(i as int), c),
        decreases i,
    {
        proof {
            assert(cs@.take(i as int).drop_last() =~= cs@.take(i - 1));
        }
        if cs[i - 1] == c {
            let a = string_of_range(&cs, 0, i - 1);
            let b = string_of_range(&cs, i, cs.len());
            proof {
                assert(cs@.subrange(0, i - 1) =~= cs@.take(i - 1));
                assert(cs@.subrange(i as int, cs@.len() as int) =~= cs@.skip(i as int));
            }
            return Some((a, b));
        }
        i -= 1;
    }
    proof {
        assert(cs@.take(0) =~= Seq::<char>::empty());
        assert(cs@.take(cs@.len() as int) =~= cs@);
    }
    None
}

/// The parts of a `src` value (see `src_parts`).
pub fn split_src(src: &str) -> (res: (String, Option<String>, Option<String>))
    ensures
        (res.0@, ostr(res.1), ostr(res.2)) == src_parts(src@),
{
    match crate::cli::split_once_char(src, '#') {
        Some((p, s)) => (p, Some(s), None),
        None => match rsplit_once_char(src, ':') {
            Some((p, l)) => {
                let ok = match crate::cli::parse_u64(l.as_str()) {
                    Some(v) => v as u128 <= usize::MAX as u128,
                    None => false,
                };
                if ok { (p, None, Some(l)) } else { (string_from(src), None, None) }
            },
            None => (string_from(src), None, None),
        },
    }
}

/// The `src` references of the graph's nodes, in node order.
pub fn src_refs(g: &Graph) -> (res: Vec<SrcRef>)
    ensures
        res@.map_values(|r: SrcRef| r@) == refs_of(g.nodes@),
{
    let mut out: Vec<SrcRef> = Vec::new();
    let mut i: usize = 0;
    while i < g.nodes.len()
        invariant
            i <= g.nodes@.len(),
            out@.map_values(|r: SrcRef| r@) == refs_of(g.nodes@.take(i as int)),
        decreases g.nodes.len() - i,
    {
        proof {
            assert(g.nodes@.take(i + 1).drop_last() =~= g.nodes@.take(i as int));
            assert(g.nodes@.take(i + 1).last() == g.nodes@[i as int]);
        }
        let n = &g.nodes[i];
        let key = string_from("src");
        proof {
            reveal_strlit("src");
            assert(key@ =~= s_src());
        }
        match attr_get(&n.attrs, key.as_str()) {
            Some(v) => {
                let (path, symbol, line) = split_src(v.as_str());
                let r = SrcRef { id: n.id.clone(), path, symbol, line, file: n.file.clone(), at: n.line };
                let ghost before = out@.map_values(|r: SrcRef| r@);
                out.push(r);
                proof {
                    assert(out@.map_values(|r: SrcRef| r@) =~= before.push(r@));
                }
            },
            None => {},
        }
        i += 1;
    }
    proof {
        assert(g.nodes@.take(g.nodes@.len() as int) =~= g.nodes@);
    }
    out
}

fn word_char_exec(c: char) -> (res: bool)
    ensures
        res == word_char(c),
{
    (c >= 'a' && c <= 'z') || (c >= 'A' && c <= 'Z') || (c >= '0' && c <= '9') || c == '_'
}

fn word_at_exec(t: &Vec<char>, w: &Vec<char>, i: usize) -> (res: bool)
    requires
        i + w@.len() <= t@.len(),
    ensures
        res == word_at(t@, w@, i as int),
{
    if chars_occur_at(t, w, i) {
        let before_ok = i == 0 || !word_char_exec(t[i - 1]);
        assert(i + w.len() <= t.len());
        let end = i + w.len();
        let after_ok = end >= t.len() || !word_char_exec(t[end]);
        before_ok && after_ok
    } else {
        false
    }
}

/// Whether `word` stands in `text` as a whole word (not inside a longer identifier).
pub fn contains_word(text: &str, word: &str) -> (res: bool)
    ensures
        res == has_word(text@, word@),
{
    let t = chars_of(text);
    let w = chars_of(word);
    if w.len() > t.len() {
        proof {
            assert forall|i: int| !word_at(text@, word@, i) by {}
        }
        return false;
    }
    let last = t.len() - w.len();
    let mut i: usize = 0;
    while i < last
        invariant
            t@ == text@,
            w@ == word@,
            last == t@.len() - w@.len(),
            i <= last,
            forall|j: int| 0 <= j < i ==> !word_at(text@, word@, j),
        decreases last - i,
    {
        if word_at_exec(&t, &w, i) {
            return true;
        }
        i += 1;
    }
    if word_at_exec(&t, &w, last) {
        return true;
    }
    proof {
        assert forall|j: int| !word_at(text@, word@, j) by {
            if 0 <= j && j + word@.len() <= text@.len() {
                assert(j <= last);
            }
        }
    }
    false
}

fn is_code_ext(e: &str) -> (res: bool)
    ensures
        res == code_ext(e@),
{
    proof {
        reveal_strlit("rs");
        reveal_strlit("ts");
        reveal_strlit("tsx");
        reveal_strlit("js");
        reveal_strlit("jsx");
        reveal_strlit("vue");
        reveal_strlit("go");
        reveal_strlit("py");
    }
    str_eq(e, "rs") || str_eq(e, "ts") || str_eq(e, "tsx") || str_eq(e, "js") || str_eq(e, "jsx")
        || str_eq(e, "vue") || str_eq(e, "go") || str_eq(e, "py")
}

/// The diagnostic for one reference, given the text of its file (`None`: not readable).
pub fn src_diag(r: &SrcRef, text: Option<&String>) -> (res: Option<Diagnostic>)
    ensures
        match res {
            Some(d) => src_diag_spec(r@, match text { Some(t) => Some(t@), None => None }) == Some(d@),
            None => src_diag_spec(r@, match text { Some(t) => Some(t@), None => None }) is None,
        },
{
    match text {
        None => {
            let mut m = string_from("`");
            push_str(&mut m, r.id.as_str());
            push_str(&mut m, "`: src file `");
            push_str(&mut m, r.path.as_str());
            push_str(&mut m, "` not found");
            let d = diag(Level::Warning, "src_missing", r.file.as_str(), r.at, Some(r.id.as_str()), m);
            proof {
                assert(d@ == src_diag_spec(r@, None).unwrap());
            }
            Some(d)
        },
        Some(t) => match &r.symbol {
            Some(sym) => {
                if contains_word(t.as_str(), sym.as_str()) {
                    None
                } else {
                    let mut m = string_from("`");
                    push_str(&mut m, r.id.as_str());
                    push_str(&mut m, "`: `");
                    push_str(&mut m, sym.as_str());
                    push_str(&mut m, "` not found in `");
                    push_str(&mut m, r.path.as_str());
                    push_str(&mut m, "`");
                    let d = diag(Level::Warning, "src_symbol_missing", r.file.as_str(), r.at, Some(r.id.as_str()), m);
                    proof {
                        assert(d@ == src_diag_spec(r@, Some(t@)).unwrap());
                    }
                    Some(d)
                }
            },
            None => {
                let code = match &r.line {
                    Some(_) => false,
                    None => match extension_of(r.path.as_str()) {
                        Some(e) => is_code_ext(e.as_str()),
                        None => false,
                    },
                };
                if code {
                    let mut m = string_from("`");
                    push_str(&mut m, r.id.as_str());
                    push_str(&mut m, "`: src `");
                    push_str(&mut m, r.path.as_str());
                    push_str(&mut m, "` names no `#symbol` (or `:line`), nothing to verify");
                    let d = diag(Level::Warning, "src_symbol_unchecked", r.file.as_str(), r.at, Some(r.id.as_str()), m);
                    proof {
                        assert(d@ == src_diag_spec(r@, Some(t@)).unwrap());
                    }
                    Some(d)
                } else {
                    None
                }
            },
        },
    }
}

/// The `src` diagnostics of the graph: `texts[i]` is the content of the file that the
/// `i`-th reference of `src_refs(g)` names, or `None` where it could not be read.
pub fn src_lint(g: &Graph, texts: &Vec<Option<String>>) -> (res: Vec<Diagnostic>)
    requires
        texts@.len() == refs_of(g.nodes@).len(),
    ensures
        dviews(res@) == src_lint_spec(refs_of(g.nodes@), texts@.map_values(|t: Option<String>| ostr(t))),
{
    let rs = src_refs(g);
    let ghost rv = rs@.map_values(|r: SrcRef| r@);
    let ghost tv = texts@.map_values(|t: Option<String>| ostr(t));
    let mut out: Vec<Diagnostic> = Vec::new();
    let mut i: usize = 0;
    while i < rs.len()
        invariant
            rv == rs@.map_values(|r: SrcRef| r@),
            rv == refs_of(g.nodes@),
            tv == texts@.map_values(|t: Option<String>| ostr(t)),
            texts@.len() == rs@.len(),
            i <= rs@.len(),
            dviews(out@) == src_lint_spec(rv.take(i as int), tv),
        decreases rs.len() - i,
    {
        proof {
            assert(rv.take(i + 1).drop_last() =~= rv.take(i as int));
            assert(rv.take(i + 1).last() == rv[i as int]);
            assert(rv[i as int] == rs@[i as int]@);
            assert(tv[i as int] == ostr(texts@[i as int]));
        }
        let d = src_diag(&rs[i], texts[i].as_ref());
        proof {
            assert(match texts@[i as int] { Some(t) => Some(t@), None => None::<Seq<char>> } == tv[i as int]);
        }
        match d {
            Some(d) => {
                let ghost before = dviews(out@);
                out.push(d);
                proof {
                    assert(dviews(out@) =~= before.push(d@));
                }
            },
            None => {},
        }
        i += 1;
    }
    proof {
        assert(rv.take(rv.len() as int) =~= rv);
    }
    out
}

} // verus!
