//! The embedded UI page: the export's JSON goes into the page template in place of its
//! placeholder, escaped so that it cannot close the script element.

use vstd::prelude::*;
use crate::text::{
    chars_of, first_occ, lemma_first_occ, replace_all, replace_first, replace_from, replace_once,
    split_words, string_of_range, words,
};
use crate::strset::views;

verus! {

/// The page: `data_json` with every `</` written `<\/`, put in place of the first
/// `__DUFLOW_DATA__` (the placeholder) of `template`.
pub fn render(template: &str, data_json: &str) -> (res: String)
    ensures
        res@ == replace_first(template@, "__DUFLOW_DATA__"@, replace_from(data_json@, "</"@, "<\\/"@, 0)),
{
    proof {
        reveal_strlit("</");
    }
    let safe = replace_all(data_json, "</", "<\\/");
    replace_once(template, "__DUFLOW_DATA__", safe.as_str())
}


/// The target of an HTTP request line (its second word), `/` without one.
pub open spec fn request_path(line: Seq<char>) -> Seq<char> {
    let w = words(line);
    if w.len() >= 2 { w[1] } else { "/"@ }
}

/// Index of the first `c` in `s` from `i`, or `s.len()`.
pub open spec fn upto(s: Seq<char>, c: char, i: int) -> int
    decreases s.len() - i,
{
    if i < 0 || i >= s.len() { s.len() as int } else if s[i] == c { i } else { upto(s, c, i + 1) }
}

/// The `diff=` value of a request line: what follows the first `diff=` in its target, up
/// to the next `&`; nothing when that is empty.
pub open spec fn diff_param_spec(line: Seq<char>) -> Option<Seq<char>> {
    let p = request_path(line);
    let i = first_occ(p, "diff="@, 0);
    if i < 0 {
        None
    } else {
        let start = i + 5;
        let v = p.subrange(start, upto(p, '&', start));
        if v.len() == 0 { None } else { Some(v) }
    }
}

proof fn lemma_upto(s: Seq<char>, c: char, i: int)
    requires
        0 <= i <= s.len(),
    ensures
        i <= upto(s, c, i) <= s.len(),
    decreases s.len() - i,
{
    if i < s.len() && s[i] != c {
        lemma_upto(s, c, i + 1);
    }
}

/// The `diff=` overlay a UI request asks for.
pub fn diff_param(line: &str) -> (res: Option<String>)
    ensures
        match res { Some(v) => diff_param_spec(line@) == Some(v@), None => diff_param_spec(line@) is None },
{
    proof {
        reveal_strlit("/");
        reveal_strlit("diff=");
    }
    let ws = split_words(line);
    let path = if ws.len() >= 2 {
        proof { assert(views(ws@)[1] == ws@[1]@); }
        ws[1].clone()
    } else {
        crate::text::string_from("/")
    };
    let cs = chars_of(path.as_str());
    let key = chars_of("diff=");
    proof {
        lemma_first_occ(cs@, key@, 0);
    }
    let i = match crate::text::find_chars(&cs, &key, 0) {
        Some(i) => i,
        None => {
            return None;
        },
    };
    let n = cs.len();
    proof {
        assert(key@.len() == 5);
        assert(i + 5 <= n);
    }
    let start = i + 5;
    let mut j = start;
    proof {
        lemma_upto(cs@, '&', start as int);
    }
    while j < cs.len() && cs[j] != '&'
        invariant
            start <= j <= cs@.len(),
            upto(cs@, '&', start as int) == upto(cs@, '&', j as int),
        decreases cs.len() - j,
    {
        j += 1;
    }
    if j == start {
        return None;
    }
    Some(string_of_range(&cs, start, j))
}

} // verus!
