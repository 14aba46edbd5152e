//! Character-level helpers shared by the whole library: comparison, splitting,
//! joining and decimal rendering, all stated over `Seq<char>`.

use vstd::prelude::*;
use vstd::string::StringExecFns;
use crate::strset::views;

verus! {

/// `p` is a prefix of `s`.
pub open spec fn is_prefix(p: Seq<char>, s: Seq<char>) -> bool {
    p.len() <= s.len() && s.subrange(0, p.len() as int) == p
}

/// `w` occurs in `s` starting at index `i`.
pub open spec fn occurs_at(s: Seq<char>, w: Seq<char>, i: int) -> bool {
    0 <= i && i + w.len() <= s.len() && s.subrange(i, i + w.len()) == w
}

/// Strict lexicographic order on character sequences (code point order, the order of
/// byte-wise comparison of UTF-8 strings).
pub open spec fn seq_lt(a: Seq<char>, b: Seq<char>) -> bool
    decreases a.len(),
{
    if a.len() == 0 {
        b.len() > 0
    } else if b.len() == 0 {
        false
    } else if a[0] < b[0] {
        true
    } else if a[0] == b[0] {
        seq_lt(a.drop_first(), b.drop_first())
    } else {
        false
    }
}

/// Splits `s` at every `sep`, keeping empty pieces (as `str::split` does).
pub open spec fn split_on(s: Seq<char>, sep: char) -> Seq<Seq<char>>
    decreases s.len(),
{
    if s.len() == 0 {
        seq![Seq::<char>::empty()]
    } else {
        let p = split_on(s.drop_last(), sep);
        if s.last() == sep {
            p.push(Seq::<char>::empty())
        } else {
            p.update(p.len() - 1, p.last().push(s.last()))
        }
    }
}

/// Pieces joined with `sep` between neighbours.
pub open spec fn join(parts: Seq<Seq<char>>, sep: Seq<char>) -> Seq<char>
    decreases parts.len(),
{
    if parts.len() == 0 {
        Seq::<char>::empty()
    } else if parts.len() == 1 {
        parts[0]
    } else {
        join(parts.drop_last(), sep) + sep + parts.last()
    }
}

pub open spec fn digit_char(d: nat) -> char {
    if d == 0 { '0' } else if d == 1 { '1' } else if d == 2 { '2' } else if d == 3 { '3' }
    else if d == 4 { '4' } else if d == 5 { '5' } else if d == 6 { '6' } else if d == 7 { '7' }
    else if d == 8 { '8' } else { '9' }
}

/// Decimal digits of `n`, most significant first, no leading zeros.
pub open spec fn dec(n: nat) -> Seq<char>
    decreases n,
{
    if n < 10 {
        seq![digit_char(n)]
    } else {
        dec(n / 10).push(digit_char(n % 10))
    }
}

/// Decimal rendering of a signed number: a leading `-` for negatives.
pub open spec fn dec_int(n: int) -> Seq<char> {
    if n < 0 { seq!['-'] + dec((-n) as nat) } else { dec(n as nat) }
}

pub open spec fn is_ascii_lower(c: char) -> bool {
    'a' <= c <= 'z'
}

pub open spec fn is_ascii_upper(c: char) -> bool {
    'A' <= c <= 'Z'
}

pub open spec fn is_ascii_digit(c: char) -> bool {
    '0' <= c <= '9'
}

pub open spec fn is_ascii_alpha(c: char) -> bool {
    is_ascii_lower(c) || is_ascii_upper(c)
}

pub open spec fn is_ascii_alnum(c: char) -> bool {
    is_ascii_alpha(c) || is_ascii_digit(c)
}

/// Appends one character: `String::push`. Trusted: the new text is the old one with `c`
/// added at the end, as std documents.
#[verifier::external_body]
pub(crate) fn push_char(s: &mut String, c: char)
    ensures
        final(s)@ == old(s)@.push(c),
{
    s.push(c);
}

/// Appends a string slice (vstd's `String::append`).
pub(crate) fn push_str(s: &mut String, t: &str)
    ensures
        final(s)@ == old(s)@ + t@,
{
    s.append(t);
}

/// A fresh string with the contents of `t`.
pub fn string_from(t: &str) -> (res: String)
    ensures
        res@ == t@,
{
    let mut s = String::new();
    push_str(&mut s, t);
    proof {
        assert(s@ =~= t@);
    }
    s
}

/// The characters of `s`.
pub fn chars_of(s: &str) -> (res: Vec<char>)
    ensures
        res@ == s@,
{
    let mut v: Vec<char> = Vec::new();
    for c in it: s.chars()
        invariant
            v@ == it.seq().take(it.index() as int),
            it.seq() == s@,
    {
        v.push(c);
    }
    v
}

/// A string made of `cs[from..to]`.
pub fn string_of_range(cs: &Vec<char>, from: usize, to: usize) -> (res: String)
    requires
        from <= to <= cs@.len(),
    ensures
        res@ == cs@.subrange(from as int, to as int),
{
    let mut s = String::new();
    let mut i = from;
    while i < to
        invariant
            from <= i <= to <= cs@.len(),
            s@ == cs@.subrange(from as int, i as int),
        decreases to - i,
    {
        push_char(&mut s, cs[i]);
        i += 1;
        proof {
            assert(s@ =~= cs@.subrange(from as int, i as int));
        }
    }
    s
}

/// A string made of all of `cs`.
pub fn string_of(cs: &Vec<char>) -> (res: String)
    ensures
        res@ == cs@,
{
    let s = string_of_range(cs, 0, cs.len());
    proof {
        assert(cs@.subrange(0, cs@.len() as int) =~= cs@);
    }
    s
}

/// Character-wise equality of two strings.
pub fn str_eq(a: &str, b: &str) -> (res: bool)
    ensures
        res == (a@ == b@),
{
    let x = chars_of(a);
    let y = chars_of(b);
    if x.len() != y.len() {
        return false;
    }
    let mut i: usize = 0;
    while i < x.len()
        invariant
            x@ == a@,
            y@ == b@,
            x@.len() == y@.len(),
            i <= x@.len(),
            forall|j: int| 0 <= j < i ==> x@[j] == y@[j],
        decreases x.len() - i,
    {
        if x[i] != y[i] {
            return false;
        }
        i += 1;
    }
    proof {
        assert(a@ =~= b@);
    }
    true
}

/// Whether `p` is a prefix of `s`.
pub fn starts_with(s: &str, p: &str) -> (res: bool)
    ensures
        res == is_prefix(p@, s@),
{
    let x = chars_of(s);
    let y = chars_of(p);
    if y.len() > x.len() {
        return false;
    }
    let mut i: usize = 0;
    while i < y.len()
        invariant
            x@ == s@,
            y@ == p@,
            y@.len() <= x@.len(),
            i <= y@.len(),
            forall|j: int| 0 <= j < i ==> x@[j] == y@[j],
        decreases y.len() - i,
    {
        if x[i] != y[i] {
            assert(s@.subrange(0, p@.len() as int)[i as int] != p@[i as int]);
            return false;
        }
        i += 1;
    }
    proof {
        assert(s@.subrange(0, p@.len() as int) =~= p@);
    }
    true
}

/// Whether `w` occurs in `s` at position `i` (a character index).
pub fn chars_occur_at(s: &Vec<char>, w: &Vec<char>, i: usize) -> (res: bool)
    ensures
        res == occurs_at(s@, w@, i as int),
{
    if i > s.len() || w.len() > s.len() - i {
        return false;
    }
    let mut k: usize = 0;
    while k < w.len()
        invariant
            i + w@.len() <= s@.len(),
            s@.len() == s.len(),
            k <= w@.len(),
            forall|j: int| 0 <= j < k ==> s@[i + j] == w@[j],
        decreases w.len() - k,
    {
        if s[i + k] != w[k] {
            assert(s@.subrange(i as int, i + w@.len())[k as int] != w@[k as int]);
            return false;
        }
        k += 1;
    }
    proof {
        assert(s@.subrange(i as int, i + w@.len()) =~= w@);
    }
    true
}

/// Strict order laws of `seq_lt`.
pub proof fn lemma_seq_lt_trans(a: Seq<char>, b: Seq<char>, c: Seq<char>)
    requires
        seq_lt(a, b),
        seq_lt(b, c),
    ensures
        seq_lt(a, c),
    decreases a.len(),
{
    if a.len() > 0 && b.len() > 0 && c.len() > 0 && a[0] == b[0] && b[0] == c[0] {
        lemma_seq_lt_trans(a.drop_first(), b.drop_first(), c.drop_first());
    }
}

pub proof fn lemma_seq_lt_total(a: Seq<char>, b: Seq<char>)
    ensures
        a == b || seq_lt(a, b) || seq_lt(b, a),
    decreases a.len(),
{
    if a.len() > 0 && b.len() > 0 {
        if a[0] == b[0] {
            lemma_seq_lt_total(a.drop_first(), b.drop_first());
            if a.drop_first() == b.drop_first() {
                assert(a =~= seq![a[0]] + a.drop_first());
                assert(b =~= seq![b[0]] + b.drop_first());
            }
        }
    } else if a.len() == 0 && b.len() == 0 {
        assert(a =~= b);
    }
}

pub proof fn lemma_seq_lt_asym(a: Seq<char>, b: Seq<char>)
    requires
        seq_lt(a, b),
    ensures
        !seq_lt(b, a),
        a != b,
    decreases a.len(),
{
    lemma_seq_lt_irreflexive(a);
    if a.len() > 0 && b.len() > 0 && a[0] == b[0] {
        lemma_seq_lt_asym(a.drop_first(), b.drop_first());
    }
}

pub proof fn lemma_seq_lt_irreflexive(a: Seq<char>)
    ensures
        !seq_lt(a, a),
    decreases a.len(),
{
    if a.len() > 0 {
        lemma_seq_lt_irreflexive(a.drop_first());
    }
}

/// Strict lexicographic comparison of two strings.
pub fn str_lt(a: &str, b: &str) -> (res: bool)
    ensures
        res == seq_lt(a@, b@),
{
    let x = chars_of(a);
    let y = chars_of(b);
    chars_lt(&x, &y)
}

/// Strict lexicographic comparison of two character vectors.
pub fn chars_lt(x: &Vec<char>, y: &Vec<char>) -> (res: bool)
    ensures
        res == seq_lt(x@, y@),
{
    let mut i: usize = 0;
    proof {
        assert(x@.subrange(0, 0) =~= y@.subrange(0, 0));
        assert(x@.subrange(0, x@.len() as int) =~= x@);
        assert(y@.subrange(0, y@.len() as int) =~= y@);
    }
    while i < x.len() && i < y.len()
        invariant
            i <= x@.len(),
            i <= y@.len(),
            x@.subrange(0, i as int) == y@.subrange(0, i as int),
            seq_lt(x@, y@) == seq_lt(x@.subrange(i as int, x@.len() as int), y@.subrange(i as int, y@.len() as int)),
        decreases x.len() - i,
    {
        let cx = x[i];
        let cy = y[i];
        let ghost xs = x@.subrange(i as int, x@.len() as int);
        let ghost ys = y@.subrange(i as int, y@.len() as int);
        if cx < cy {
            assert(xs[0] == cx && ys[0] == cy);
            return true;
        }
        if cx != cy {
            assert(xs[0] == cx && ys[0] == cy);
            return false;
        }
        proof {
            assert(xs.drop_first() =~= x@.subrange(i + 1, x@.len() as int));
            assert(ys.drop_first() =~= y@.subrange(i + 1, y@.len() as int));
            assert(x@.subrange(0, i + 1) =~= x@.subrange(0, i as int).push(cx));
            assert(y@.subrange(0, i + 1) =~= y@.subrange(0, i as int).push(cy));
        }
        i += 1;
    }
    i < y.len()
}

/// Decimal rendering of an unsigned number.
pub fn dec_string(n: u64) -> (res: String)
    ensures
        res@ == dec(n as nat),
    decreases n,
{
    let d = n % 10;
    let c = if d == 0 { '0' } else if d == 1 { '1' } else if d == 2 { '2' } else if d == 3 { '3' }
        else if d == 4 { '4' } else if d == 5 { '5' } else if d == 6 { '6' } else if d == 7 { '7' }
        else if d == 8 { '8' } else { '9' };
    if n < 10 {
        let mut s = String::new();
        push_char(&mut s, c);
        proof {
            assert(s@ =~= seq![digit_char(n as nat)]);
        }
        s
    } else {
        let mut s = dec_string(n / 10);
        push_char(&mut s, c);
        s
    }
}

/// Decimal rendering of a signed number.
pub fn dec_string_i128(n: i128) -> (res: String)
    requires
        n > i128::MIN,
        -n <= u64::MAX,
        n <= u64::MAX,
    ensures
        res@ == dec_int(n as int),
{
    if n < 0 {
        let mut s = String::new();
        push_char(&mut s, '-');
        let t = dec_string((-n) as u64);
        push_str(&mut s, t.as_str());
        proof {
            assert(s@ =~= seq!['-'] + dec((-n) as nat));
        }
        s
    } else {
        dec_string(n as u64)
    }
}

/// Joins the strings with `sep` between neighbours.
pub fn join_strings(parts: &Vec<String>, sep: &str) -> (res: String)
    ensures
        res@ == join(parts@.map_values(|p: String| p@), sep@),
{
    let ghost views = parts@.map_values(|p: String| p@);
    let mut s = String::new();
    let mut i: usize = 0;
    while i < parts.len()
        invariant
            i <= parts@.len(),
            views == parts@.map_values(|p: String| p@),
            s@ == join(views.take(i as int), sep@),
        decreases parts.len() - i,
    {
        proof {
            assert(views.take(i + 1).drop_last() =~= views.take(i as int));
        }
        if i > 0 {
            push_str(&mut s, sep);
        }
        push_str(&mut s, parts[i].as_str());
        proof {
            if i == 0 {
                assert(s@ =~= views.take(1)[0]);
            }
        }
        i += 1;
    }
    proof {
        assert(views.take(parts@.len() as int) =~= views);
    }
    s
}

/// Splits `s` at every `sep` (as `str::split` with a character pattern).
pub fn split_chars(s: &str, sep: char) -> (res: Vec<String>)
    ensures
        res@.map_values(|p: String| p@) == split_on(s@, sep),
        res@.len() >= 1,
{
    let cs = chars_of(s);
    let mut out: Vec<String> = Vec::new();
    let mut cur = String::new();
    let mut i: usize = 0;
    while i < cs.len()
        invariant
            cs@ == s@,
            i <= cs@.len(),
            out@.map_values(|p: String| p@).push(cur@) == split_on(cs@.take(i as int), sep),
        decreases cs.len() - i,
    {
        let c = cs[i];
        let ghost before = out@.map_values(|p: String| p@).push(cur@);
        proof {
            assert(cs@.take(i + 1).drop_last() =~= cs@.take(i as int));
        }
        if c == sep {
            let done = cur;
            out.push(done);
            cur = String::new();
            proof {
                assert(out@.map_values(|p: String| p@).push(cur@) =~= before.push(Seq::<char>::empty()));
            }
        } else {
            push_char(&mut cur, c);
            proof {
                assert(out@.map_values(|p: String| p@).push(cur@) =~= before.update(before.len() - 1, before.last().push(c)));
            }
        }
        i += 1;
    }
    let ghost before = out@.map_values(|p: String| p@).push(cur@);
    out.push(cur);
    proof {
        assert(cs@.take(cs@.len() as int) =~= cs@);
        assert(out@.map_values(|p: String| p@) =~= before);
    }
    out
}

/// The first place at or after `i` where `w` occurs in `s`, or -1.
pub open spec fn first_occ(s: Seq<char>, w: Seq<char>, i: int) -> int
    decreases s.len() + 1 - i,
{
    if i < 0 || i > s.len() || i + w.len() > s.len() {
        -1
    } else if occurs_at(s, w, i) {
        i
    } else {
        first_occ(s, w, i + 1)
    }
}

pub proof fn lemma_first_occ(s: Seq<char>, w: Seq<char>, i: int)
    requires
        0 <= i,
    ensures
        first_occ(s, w, i) == -1 || (i <= first_occ(s, w, i) && first_occ(s, w, i) + w.len() <= s.len()
            && occurs_at(s, w, first_occ(s, w, i))),
        first_occ(s, w, i) == -1 ==> forall|j: int| i <= j ==> !#[trigger] occurs_at(s, w, j),
        first_occ(s, w, i) >= 0 ==> forall|j: int| i <= j < first_occ(s, w, i) ==> !#[trigger] occurs_at(s, w, j),
    decreases s.len() + 1 - i,
{
    if i + w.len() <= s.len() && !occurs_at(s, w, i) {
        assert(w.len() > 0) by {
            if w.len() == 0 {
                assert(s.subrange(i, i) =~= w);
            }
        }
        lemma_first_occ(s, w, i + 1);
    }
}

/// Where `w` first occurs in `s` at or after `from`.
pub fn find_chars(s: &Vec<char>, w: &Vec<char>, from: usize) -> (res: Option<usize>)
    ensures
        match res {
            Some(i) => i as int == first_occ(s@, w@, from as int),
            None => first_occ(s@, w@, from as int) == -1,
        },
{
    proof {
        lemma_first_occ(s@, w@, from as int);
    }
    if w.len() == 0 {
        if from <= s.len() {
            proof {
                assert(s@.subrange(from as int, from as int) =~= w@);
            }
            return Some(from);
        }
        return None;
    }
    let mut i = from;
    while i <= s.len() && w.len() <= s.len() - i
        invariant
            from <= i,
            w@.len() > 0,
            first_occ(s@, w@, from as int) == first_occ(s@, w@, i as int),
        decreases s.len() - i,
    {
        if chars_occur_at(s, w, i) {
            return Some(i);
        }
        i += 1;
    }
    None
}

/// `w` occurs somewhere in `s`.
pub open spec fn contains_seq(s: Seq<char>, w: Seq<char>) -> bool {
    exists|i: int| #[trigger] occurs_at(s, w, i)
}

/// Whether `w` occurs in `s` (`str::contains`).
pub fn contains_str(s: &str, w: &str) -> (res: bool)
    ensures
        res == contains_seq(s@, w@),
{
    let cs = chars_of(s);
    let ws = chars_of(w);
    proof {
        lemma_first_occ(cs@, ws@, 0);
    }
    match find_chars(&cs, &ws, 0) {
        Some(i) => {
            assert(occurs_at(s@, w@, i as int));
            true
        },
        None => {
            assert forall|j: int| !#[trigger] occurs_at(s@, w@, j) by {
                if j >= 0 {
                    assert(!occurs_at(cs@, ws@, j));
                }
            }
            false
        },
    }
}

/// Every occurrence of a non-empty `w` in `s` from `pos` on, left to right and without
/// overlap, replaced by `by` (`str::replace`).
pub open spec fn replace_from(s: Seq<char>, w: Seq<char>, by: Seq<char>, pos: int) -> Seq<char>
    decreases s.len() - pos,
{
    if w.len() == 0 || pos < 0 || pos > s.len() {
        s.skip(pos)
    } else {
        let i = first_occ(s, w, pos);
        if i < 0 {
            s.skip(pos)
        } else {
            proof {
                lemma_first_occ(s, w, pos);
            }
            s.subrange(pos, i) + by + replace_from(s, w, by, i + w.len())
        }
    }
}

/// The first occurrence of `w` in `s` replaced by `by` (`str::replacen` with 1).
pub open spec fn replace_first(s: Seq<char>, w: Seq<char>, by: Seq<char>) -> Seq<char> {
    let i = first_occ(s, w, 0);
    if i < 0 { s } else { s.take(i) + by + s.skip(i + w.len()) }
}

/// Pushes `cs[from..to]`.
pub fn push_range(out: &mut String, cs: &Vec<char>, from: usize, to: usize)
    requires
        from <= to <= cs@.len(),
    ensures
        final(out)@ == old(out)@ + cs@.subrange(from as int, to as int),
{
    let mut i = from;
    while i < to
        invariant
            from <= i <= to <= cs@.len(),
            out@ == old(out)@ + cs@.subrange(from as int, i as int),
        decreases to - i,
    {
        push_char(out, cs[i]);
        proof {
            assert(cs@.subrange(from as int, i + 1) =~= cs@.subrange(from as int, i as int).push(cs@[i as int]));
        }
        i += 1;
    }
}

/// `s` with every occurrence of `w` replaced by `by`.
pub fn replace_all(s: &str, w: &str, by: &str) -> (res: String)
    requires
        w@.len() > 0,
    ensures
        res@ == replace_from(s@, w@, by@, 0),
{
    let cs = chars_of(s);
    let ws = chars_of(w);
    let mut out = String::new();
    let mut pos: usize = 0;
    loop
        invariant
            cs@ == s@,
            ws@ == w@,
            ws@.len() > 0,
            pos <= cs@.len(),
            out@ + replace_from(s@, w@, by@, pos as int) == replace_from(s@, w@, by@, 0),
        decreases cs@.len() - pos,
    {
        proof {
            lemma_first_occ(cs@, ws@, pos as int);
        }
        match find_chars(&cs, &ws, pos) {
            None => {
                let ghost before = out@;
                push_range(&mut out, &cs, pos, cs.len());
                proof {
                    assert(cs@.subrange(pos as int, cs@.len() as int) =~= cs@.skip(pos as int));
                }
                return out;
            },
            Some(i) => {
                let ghost before = out@;
                let n = cs.len();
                push_range(&mut out, &cs, pos, i);
                push_str(&mut out, by);
                proof {
                    assert(before + replace_from(s@, w@, by@, pos as int) ==
                        out@ + replace_from(s@, w@, by@, i + ws@.len()));
                }
                pos = i + ws.len();
            },
        }
    }
}

/// `s` with the first occurrence of `w` replaced by `by`.
pub fn replace_once(s: &str, w: &str, by: &str) -> (res: String)
    ensures
        res@ == replace_first(s@, w@, by@),
{
    let cs = chars_of(s);
    let ws = chars_of(w);
    let mut out = String::new();
    proof {
        lemma_first_occ(cs@, ws@, 0);
    }
    match find_chars(&cs, &ws, 0) {
        None => {
            push_range(&mut out, &cs, 0, cs.len());
            proof {
                assert(cs@.subrange(0, cs@.len() as int) =~= cs@);
            }
        },
        Some(i) => {
            let n = cs.len();
            push_range(&mut out, &cs, 0, i);
            push_str(&mut out, by);
            push_range(&mut out, &cs, i + ws.len(), n);
            proof {
                assert(cs@.subrange(0, i as int) =~= cs@.take(i as int));
                assert(cs@.subrange(i + ws@.len(), cs@.len() as int) =~= cs@.skip(i + ws@.len()));
            }
        },
    }
    out
}

/// Unicode white space (`char::is_whitespace`).
pub open spec fn is_ws(c: char) -> bool {
    ||| ('\u{9}' <= c <= '\u{d}')
    ||| c == ' '
    ||| c == '\u{85}'
    ||| c == '\u{a0}'
    ||| c == '\u{1680}'
    ||| ('\u{2000}' <= c <= '\u{200a}')
    ||| c == '\u{2028}'
    ||| c == '\u{2029}'
    ||| c == '\u{202f}'
    ||| c == '\u{205f}'
    ||| c == '\u{3000}'
}

pub fn is_ws_exec(c: char) -> (res: bool)
    ensures
        res == is_ws(c),
{
    (c >= '\u{9}' && c <= '\u{d}') || c == ' ' || c == '\u{85}' || c == '\u{a0}' || c == '\u{1680}'
        || (c >= '\u{2000}' && c <= '\u{200a}') || c == '\u{2028}' || c == '\u{2029}' || c == '\u{202f}'
        || c == '\u{205f}' || c == '\u{3000}'
}

/// The white-space separated words of `s` (`str::split_whitespace`).
pub open spec fn words(s: Seq<char>) -> Seq<Seq<char>>
    decreases s.len(),
{
    if s.len() == 0 {
        Seq::<Seq<char>>::empty()
    } else {
        let r = words(s.drop_last());
        let c = s.last();
        if is_ws(c) {
            r
        } else if s.len() >= 2 && !is_ws(s[s.len() - 2]) {
            r.update(r.len() - 1, r.last().push(c))
        } else {
            r.push(seq![c])
        }
    }
}

pub proof fn lemma_words_nonempty(s: Seq<char>)
    requires
        s.len() > 0,
        !is_ws(s.last()),
    ensures
        words(s).len() > 0,
    decreases s.len(),
{
    if s.len() >= 2 && !is_ws(s[s.len() - 2]) {
        assert(s.drop_last().last() == s[s.len() - 2]);
        lemma_words_nonempty(s.drop_last());
    }
}

/// The words of `s`.
pub fn split_words(s: &str) -> (res: Vec<String>)
    ensures
        views(res@) == words(s@),
{
    let cs = chars_of(s);
    let mut out: Vec<String> = Vec::new();
    let mut cur = String::new();
    let mut in_word = false;
    let mut i: usize = 0;
    while i < cs.len()
        invariant
            cs@ == s@,
            i <= cs@.len(),
            in_word == (i > 0 && !is_ws(cs@[i - 1])),
            in_word ==> views(out@).push(cur@) == words(cs@.take(i as int)),
            !in_word ==> views(out@) == words(cs@.take(i as int)),
        decreases cs.len() - i,
    {
        let c = cs[i];
        let ghost t = cs@.take(i + 1);
        proof {
            assert(t.drop_last() =~= cs@.take(i as int));
            assert(t.last() == c);
            if i > 0 {
                assert(t[t.len() - 2] == cs@[i - 1]);
            }
        }
        if is_ws_exec(c) {
            if in_word {
                let w = cur;
                let ghost before = views(out@);
                out.push(w);
                cur = String::new();
                proof {
                    assert(views(out@) =~= before.push(w@));
                }
            }
            in_word = false;
        } else {
            if in_word {
                proof {
                    let r = words(cs@.take(i as int));
                    assert(r.last() == cur@);
                    assert(views(out@).push(cur@.push(c)) =~= r.update(r.len() - 1, r.last().push(c)));
                }
                push_char(&mut cur, c);
            } else {
                cur = String::new();
                push_char(&mut cur, c);
                proof {
                    assert(cur@ =~= seq![c]);
                }
            }
            in_word = true;
        }
        i += 1;
    }
    if in_word {
        let ghost before = views(out@);
        out.push(cur);
        proof {
            assert(views(out@) =~= before.push(cur@));
        }
    }
    proof {
        assert(cs@.take(cs@.len() as int) =~= cs@);
    }
    out
}

} // verus!
