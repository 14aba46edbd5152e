//! Guard expression tokenizer. Expressions are not evaluated; only the variable names in
//! them are extracted. Accepted: identifiers (`a.b_c`), numbers, `"strings"`,
//! `== != < <= > >= && || ! ( )`, `true false null`.

use vstd::prelude::*;
use crate::text::{chars_of, string_of_range, is_ascii_alpha, is_ascii_alnum, is_ascii_digit};
use crate::strset::{views, sorted_strict, set_insert};

verus! {

/// Characters that continue an identifier: `[A-Za-z0-9_.:]`.
pub open spec fn is_word_char(c: char) -> bool {
    is_ascii_alnum(c) || c == '_' || c == '.' || c == ':'
}

/// End of the identifier starting at `i`.
pub open spec fn word_end(cs: Seq<char>, i: int) -> int
    decreases cs.len() - i,
{
    if i < 0 || i >= cs.len() || !is_word_char(cs[i]) { i } else { word_end(cs, i + 1) }
}

/// End of the number starting at `i` (`[A-Za-z0-9.]` continue it).
pub open spec fn number_end(cs: Seq<char>, i: int) -> int
    decreases cs.len() - i,
{
    if i < 0 || i >= cs.len() || !(is_ascii_alnum(cs[i]) || cs[i] == '.') { i } else { number_end(cs, i + 1) }
}

/// Index of the closing quote `q` at or after `i` (or the end).
pub open spec fn quote_end(cs: Seq<char>, i: int, q: char) -> int
    decreases cs.len() - i,
{
    if i < 0 || i >= cs.len() || cs[i] == q { i } else { quote_end(cs, i + 1, q) }
}

pub proof fn lemma_word_end(cs: Seq<char>, i: int)
    requires
        0 <= i,
    ensures
        i <= word_end(cs, i),
        word_end(cs, i) <= cs.len() || word_end(cs, i) == i,
        forall|j: int| i <= j < word_end(cs, i) ==> is_word_char(cs[j]),
    decreases cs.len() - i,
{
    if i < cs.len() && is_word_char(cs[i]) {
        lemma_word_end(cs, i + 1);
    }
}

pub proof fn lemma_number_end(cs: Seq<char>, i: int)
    requires
        0 <= i,
    ensures
        i <= number_end(cs, i),
        i <= cs.len() ==> number_end(cs, i) <= cs.len(),
    decreases cs.len() - i,
{
    if i < cs.len() && (is_ascii_alnum(cs[i]) || cs[i] == '.') {
        lemma_number_end(cs, i + 1);
    }
}

pub proof fn lemma_quote_end(cs: Seq<char>, i: int, q: char)
    requires
        0 <= i,
    ensures
        i <= quote_end(cs, i, q),
        i <= cs.len() ==> quote_end(cs, i, q) <= cs.len(),
    decreases cs.len() - i,
{
    if i < cs.len() && cs[i] != q {
        lemma_quote_end(cs, i + 1, q);
    }
}

/// `true`, `false`, `null`, `and`, `or`, `not` are no variable names.
pub open spec fn is_keyword(w: Seq<char>) -> bool {
    ||| w == seq!['t', 'r', 'u', 'e']
    ||| w == seq!['f', 'a', 'l', 's', 'e']
    ||| w == seq!['n', 'u', 'l', 'l']
    ||| w == seq!['a', 'n', 'd']
    ||| w == seq!['o', 'r']
    ||| w == seq!['n', 'o', 't']
}

/// The identifiers of `cs` from position `i` on, in order, keywords left out. Quoted
/// strings (`"…"` or `'…'`) and numbers are skipped; other characters are separators.
pub open spec fn idents_from(cs: Seq<char>, i: int) -> Seq<Seq<char>>
    decreases cs.len() + 1 - i,
{
    if i < 0 || i >= cs.len() {
        Seq::<Seq<char>>::empty()
    } else {
        let c = cs[i];
        if c == '"' || c == '\'' {
            proof { lemma_quote_end(cs, i + 1, c); }
            idents_from(cs, quote_end(cs, i + 1, c) + 1)
        } else if is_ascii_alpha(c) || c == '_' {
            proof { lemma_word_end(cs, i + 1); }
            let e = word_end(cs, i + 1);
            let w = cs.subrange(i, e);
            if is_keyword(w) { idents_from(cs, e) } else { seq![w] + idents_from(cs, e) }
        } else if is_ascii_digit(c) {
            proof { lemma_number_end(cs, i + 1); }
            idents_from(cs, number_end(cs, i + 1))
        } else {
            idents_from(cs, i + 1)
        }
    }
}

fn is_keyword_exec(w: &Vec<char>, start: usize, end: usize) -> (res: bool)
    requires
        start <= end <= w@.len(),
    ensures
        res == is_keyword(w@.subrange(start as int, end as int)),
{
    let ghost s = w@.subrange(start as int, end as int);
    let n = end - start;
    if n == 4 && w[start] == 't' && w[start + 1] == 'r' && w[start + 2] == 'u' && w[start + 3] == 'e' {
        assert(s =~= seq!['t', 'r', 'u', 'e']);
        return true;
    }
    if n == 5 && w[start] == 'f' && w[start + 1] == 'a' && w[start + 2] == 'l' && w[start + 3] == 's' && w[start + 4] == 'e' {
        assert(s =~= seq!['f', 'a', 'l', 's', 'e']);
        return true;
    }
    if n == 4 && w[start] == 'n' && w[start + 1] == 'u' && w[start + 2] == 'l' && w[start + 3] == 'l' {
        assert(s =~= seq!['n', 'u', 'l', 'l']);
        return true;
    }
    if n == 3 && w[start] == 'a' && w[start + 1] == 'n' && w[start + 2] == 'd' {
        assert(s =~= seq!['a', 'n', 'd']);
        return true;
    }
    if n == 2 && w[start] == 'o' && w[start + 1] == 'r' {
        assert(s =~= seq!['o', 'r']);
        return true;
    }
    if n == 3 && w[start] == 'n' && w[start + 1] == 'o' && w[start + 2] == 't' {
        assert(s =~= seq!['n', 'o', 't']);
        return true;
    }
    proof {
        if s.len() == 4 {
            assert(s[0] == w@[start as int] && s[1] == w@[start + 1] && s[2] == w@[start + 2] && s[3] == w@[start + 3]);
        }
        if s.len() == 5 {
            assert(s[0] == w@[start as int] && s[1] == w@[start + 1] && s[2] == w@[start + 2] && s[3] == w@[start + 3] && s[4] == w@[start + 4]);
        }
        if s.len() == 3 {
            assert(s[0] == w@[start as int] && s[1] == w@[start + 1] && s[2] == w@[start + 2]);
        }
        if s.len() == 2 {
            assert(s[0] == w@[start as int] && s[1] == w@[start + 1]);
        }
    }
    false
}

/// The variable names of a guard, sorted and each once.
pub open spec fn ident_list(e: Seq<char>) -> Seq<Seq<char>> {
    choose|s: Seq<Seq<char>>| sorted_strict(s) && forall|w: Seq<char>| s.contains(w) <==> idents_from(e, 0).contains(w)
}

/// The variable names of a guard expression, sorted and without duplicates.
pub fn idents(expr: &str) -> (res: Vec<String>)
    ensures
        sorted_strict(views(res@)),
        forall|w: Seq<char>| views(res@).contains(w) <==> idents_from(expr@, 0).contains(w),
        views(res@) == ident_list(expr@),
{
    let chars = chars_of(expr);
    let ghost cs = chars@;
    let mut out: Vec<String> = Vec::new();
    let ghost mut seen: Seq<Seq<char>> = Seq::empty();
    let mut i: usize = 0;
    while i < chars.len()
        invariant
            cs == chars@,
            cs == expr@,
            i <= cs.len() + 1,
            seen + idents_from(cs, i as int) == idents_from(cs, 0),
            sorted_strict(views(out@)),
            forall|w: Seq<char>| views(out@).contains(w) <==> seen.contains(w),
        decreases chars.len() + 1 - i,
    {
        let c = chars[i];
        if c == '"' || c == '\'' {
            let ghost i0 = i as int;
            i += 1;
            while i < chars.len() && chars[i] != c
                invariant
                    cs == chars@,
                    i0 < i <= cs.len(),
                    quote_end(cs, i as int, c) == quote_end(cs, i0 + 1, c),
                decreases chars.len() - i,
            {
                i += 1;
            }
            proof {
                lemma_quote_end(cs, i0 + 1, c);
                assert(idents_from(cs, i0) == idents_from(cs, quote_end(cs, i0 + 1, c) + 1));
                assert(quote_end(cs, i as int, c) == i);
                assert(idents_from(cs, cs.len() as int + 1) =~= idents_from(cs, cs.len() as int));
            }
            if i < chars.len() {
                i += 1;
            }
            continue;
        }
        if ('a' <= c && c <= 'z') || ('A' <= c && c <= 'Z') || c == '_' {
            let start = i;
            i += 1;
            while i < chars.len() && (('a' <= chars[i] && chars[i] <= 'z') || ('A' <= chars[i] && chars[i] <= 'Z')
                || ('0' <= chars[i] && chars[i] <= '9') || chars[i] == '_' || chars[i] == '.' || chars[i] == ':')
                invariant
                    cs == chars@,
                    start < i <= cs.len(),
                    word_end(cs, i as int) == word_end(cs, start + 1),
                decreases chars.len() - i,
            {
                i += 1;
            }
            let ghost w = cs.subrange(start as int, i as int);
            proof {
                lemma_word_end(cs, start + 1);
            }
            if !is_keyword_exec(&chars, start, i) {
                let word = string_of_range(&chars, start, i);
                let ghost old_seen = seen;
                set_insert(&mut out, word);
                proof {
                    seen = seen.push(w);
                    assert(seen + idents_from(cs, i as int) =~= old_seen + (seq![w] + idents_from(cs, i as int)));
                    assert forall|x: Seq<char>| seen.contains(x) <==> (old_seen.contains(x) || x == w) by {
                        if seen.contains(x) {
                            let k = choose|k: int| 0 <= k < seen.len() && seen[k] == x;
                            if k < old_seen.len() {
                                assert(old_seen[k] == x);
                            }
                        }
                        if old_seen.contains(x) {
                            let k = choose|k: int| 0 <= k < old_seen.len() && old_seen[k] == x;
                            assert(seen[k] == x);
                        }
                        if x == w {
                            assert(seen[old_seen.len() as int] == x);
                        }
                    }
                }
            }
            continue;
        }
        if '0' <= c && c <= '9' {
            let ghost i0 = i as int;
            i += 1;
            while i < chars.len() && (('a' <= chars[i] && chars[i] <= 'z') || ('A' <= chars[i] && chars[i] <= 'Z')
                || ('0' <= chars[i] && chars[i] <= '9') || chars[i] == '.')
                invariant
                    cs == chars@,
                    i0 < i <= cs.len(),
                    number_end(cs, i as int) == number_end(cs, i0 + 1),
                decreases chars.len() - i,
            {
                i += 1;
            }
            proof {
                lemma_number_end(cs, i0 + 1);
            }
            continue;
        }
        i += 1;
    }
    proof {
        assert(idents_from(cs, i as int) =~= Seq::<Seq<char>>::empty());
        assert(seen =~= idents_from(cs, 0));
        let r = views(out@);
        assert(sorted_strict(r) && forall|w: Seq<char>| r.contains(w) <==> idents_from(expr@, 0).contains(w));
        let c = ident_list(expr@);
        crate::strset::lemma_sorted_same_members(r, c);
    }
    out
}

} // verus!
