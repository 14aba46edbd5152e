//! Ordered sets of strings: a vector kept strictly increasing in `seq_lt` order, the
//! iteration order of a `BTreeSet<String>`.

use vstd::prelude::*;
use crate::text::{seq_lt, str_eq, str_lt, lemma_seq_lt_asym, lemma_seq_lt_trans, lemma_seq_lt_total};

verus! {

/// The character contents of a list of strings.
pub open spec fn views(v: Seq<String>) -> Seq<Seq<char>> {
    v.map_values(|s: String| s@)
}

/// Strictly increasing: sorted, and nothing twice.
pub open spec fn sorted_strict(s: Seq<Seq<char>>) -> bool {
    forall|i: int, j: int| 0 <= i < j < s.len() ==> seq_lt(s[i], s[j])
}

/// Whether `w` is in the set `v`.
pub fn set_contains(v: &Vec<String>, w: &str) -> (res: bool)
    ensures
        res == views(v@).contains(w@),
{
    let mut i: usize = 0;
    while i < v.len()
        invariant
            i <= v@.len(),
            forall|j: int| 0 <= j < i ==> v@[j]@ != w@,
        decreases v.len() - i,
    {
        if str_eq(v[i].as_str(), w) {
            assert(views(v@)[i as int] == w@);
            return true;
        }
        i += 1;
    }
    proof {
        if views(v@).contains(w@) {
            let k = choose|k: int| 0 <= k < views(v@).len() && views(v@)[k] == w@;
            assert(v@[k]@ == w@);
        }
    }
    false
}

/// Inserts `w`; true when it was not there yet (as `BTreeSet::insert`).
pub fn set_insert(v: &mut Vec<String>, w: String) -> (res: bool)
    requires
        sorted_strict(views(old(v)@)),
    ensures
        sorted_strict(views(final(v)@)),
        res == !views(old(v)@).contains(w@),
        forall|x: Seq<char>| views(final(v)@).contains(x) <==> (views(old(v)@).contains(x) || x == w@),
        res ==> final(v)@.len() == old(v)@.len() + 1,
        !res ==> final(v)@ == old(v)@,
{
    let ghost wv = w@;
    let ghost s0 = views(v@);
    let mut i: usize = 0;
    while i < v.len() && str_lt(v[i].as_str(), w.as_str())
        invariant
            v@ == old(v)@,
            w@ == wv,
            s0 == views(v@),
            sorted_strict(s0),
            i <= v@.len(),
            forall|j: int| 0 <= j < i ==> seq_lt(s0[j], wv),
        decreases v.len() - i,
    {
        assert(s0[i as int] == v@[i as int]@);
        i += 1;
    }
    proof {
        if i < v@.len() {
            assert(s0[i as int] == v@[i as int]@);
        }
    }
    if i < v.len() && str_eq(v[i].as_str(), w.as_str()) {
        proof {
            assert(s0[i as int] == wv);
            assert forall|x: Seq<char>| views(v@).contains(x) <==> (s0.contains(x) || x == wv) by {
                if x == wv {
                    assert(s0[i as int] == x);
                }
            }
        }
        return false;
    }
    proof {
        if i < s0.len() {
            lemma_seq_lt_total(s0[i as int], wv);
        }
        assert forall|j: int| 0 <= j < s0.len() implies s0[j] != wv by {
            if j < i {
                lemma_seq_lt_asym(s0[j], wv);
            } else {
                if j > i {
                    lemma_seq_lt_trans(wv, s0[i as int], s0[j]);
                }
                lemma_seq_lt_asym(wv, s0[j]);
            }
        }
    }
    v.insert(i, w);
    proof {
        let s1 = views(v@);
        assert(s1 =~= s0.insert(i as int, wv));
        assert forall|p: int, q: int| 0 <= p < q < s1.len() implies seq_lt(s1[p], s1[q]) by {
            if q > i + 1 {
                lemma_seq_lt_trans(wv, s0[i as int], s0[q - 1]);
            }
            if p < i && q > i {
                lemma_seq_lt_trans(s1[p], wv, s1[q]);
            }
        }
        assert forall|x: Seq<char>| s1.contains(x) <==> (s0.contains(x) || x == wv) by {
            if s1.contains(x) {
                let k = choose|k: int| 0 <= k < s1.len() && s1[k] == x;
                if k < i {
                    assert(s0[k] == x);
                } else if k > i {
                    assert(s0[k - 1] == x);
                }
            }
            if s0.contains(x) {
                let k = choose|k: int| 0 <= k < s0.len() && s0[k] == x;
                if k < i {
                    assert(s1[k] == x);
                } else {
                    assert(s1[k + 1] == x);
                }
            }
            if x == wv {
                assert(s1[i as int] == x);
            }
        }
    }
    true
}

/// Two strictly sorted lists with the same members are the same list.
pub proof fn lemma_sorted_same_members(a: Seq<Seq<char>>, b: Seq<Seq<char>>)
    requires
        sorted_strict(a),
        sorted_strict(b),
        forall|x: Seq<char>| a.contains(x) <==> b.contains(x),
    ensures
        a == b,
    decreases a.len(),
{
    if a.len() == 0 {
        if b.len() > 0 {
            assert(b.contains(b[0]));
        }
        assert(a =~= b);
    } else if b.len() == 0 {
        assert(a.contains(a[0]));
    } else {
        // the smallest members agree
        assert(a.contains(a[0]));
        assert(b.contains(b[0]));
        let ka = choose|k: int| 0 <= k < a.len() && a[k] == b[0];
        let kb = choose|k: int| 0 <= k < b.len() && b[k] == a[0];
        if ka > 0 {
            lemma_seq_lt_asym(a[0], a[ka]);
            if kb > 0 {
                lemma_seq_lt_trans(a[0], b[0], b[kb]);
                lemma_seq_lt_asym(a[0], b[kb]);
            }
        }
        assert(a[0] == b[0]) by {
            if ka > 0 && kb > 0 {
                lemma_seq_lt_trans(b[0], a[0], a[ka]);
                crate::text::lemma_seq_lt_irreflexive(b[0]);
            }
        }
        let a1 = a.drop_first();
        let b1 = b.drop_first();
        assert forall|x: Seq<char>| a1.contains(x) <==> b1.contains(x) by {
            if a1.contains(x) {
                let k = choose|k: int| 0 <= k < a1.len() && a1[k] == x;
                lemma_seq_lt_asym(a[0], a[k + 1]);
                assert(b.contains(x));
                let m = choose|m: int| 0 <= m < b.len() && b[m] == x;
                assert(m != 0);
                assert(b1[m - 1] == x);
            }
            if b1.contains(x) {
                let k = choose|k: int| 0 <= k < b1.len() && b1[k] == x;
                lemma_seq_lt_asym(b[0], b[k + 1]);
                assert(a.contains(x));
                let m = choose|m: int| 0 <= m < a.len() && a[m] == x;
                assert(m != 0);
                assert(a1[m - 1] == x);
            }
        }
        lemma_sorted_same_members(a1, b1);
        assert(a =~= b) by {
            assert(a =~= seq![a[0]] + a1);
            assert(b =~= seq![b[0]] + b1);
        }
    }
}

/// A strictly sorted list has no element twice.
pub proof fn lemma_sorted_no_dups(s: Seq<Seq<char>>)
    requires
        sorted_strict(s),
    ensures
        s.no_duplicates(),
{
    assert forall|i: int, j: int| 0 <= i < s.len() && 0 <= j < s.len() && i != j implies s[i] != s[j] by {
        if i < j {
            crate::text::lemma_seq_lt_asym(s[i], s[j]);
        } else {
            crate::text::lemma_seq_lt_asym(s[j], s[i]);
        }
    }
}

/// A list without repeats whose members all occur in `b` is no longer than `b`.
pub proof fn lemma_distinct_within(a: Seq<Seq<char>>, b: Seq<Seq<char>>)
    requires
        a.no_duplicates(),
        forall|x: Seq<char>| a.contains(x) ==> b.contains(x),
    ensures
        a.len() <= b.len(),
{
    broadcast use vstd::seq_lib::seq_to_set_is_finite;
    a.unique_seq_to_set();
    b.lemma_cardinality_of_set();
    assert(a.to_set().subset_of(b.to_set()));
    vstd::set_lib::lemma_len_subset(a.to_set(), b.to_set());
}

/// The sorted list, each once, of the members of `s` (a `BTreeSet` collected from `s`).
pub open spec fn set_list(s: Seq<Seq<char>>) -> Seq<Seq<char>> {
    choose|t: Seq<Seq<char>>| sorted_strict(t) && forall|w: Seq<char>| t.contains(w) <==> s.contains(w)
}

/// A sorted list with the members of `s` is `set_list(s)`.
pub proof fn lemma_set_list(t: Seq<Seq<char>>, s: Seq<Seq<char>>)
    requires
        sorted_strict(t),
        forall|w: Seq<char>| t.contains(w) <==> s.contains(w),
    ensures
        set_list(s) == t,
{
    let c = set_list(s);
    assert(sorted_strict(c) && forall|w: Seq<char>| c.contains(w) <==> s.contains(w));
    lemma_sorted_same_members(c, t);
}

/// Membership in a concatenation.
pub proof fn lemma_concat_contains<A>(a: Seq<A>, b: Seq<A>, x: A)
    ensures
        (a + b).contains(x) <==> (a.contains(x) || b.contains(x)),
{
    if (a + b).contains(x) {
        let k = choose|k: int| 0 <= k < (a + b).len() && (a + b)[k] == x;
        if k >= a.len() {
            assert(b[k - a.len()] == x);
        }
    }
    if a.contains(x) {
        let k = choose|k: int| 0 <= k < a.len() && a[k] == x;
        assert((a + b)[k] == x);
    }
    if b.contains(x) {
        let k = choose|k: int| 0 <= k < b.len() && b[k] == x;
        assert((a + b)[k + a.len()] == x);
    }
}

/// Membership after a push.
pub proof fn lemma_push_contains<A>(s: Seq<A>, y: A, x: A)
    ensures
        s.push(y).contains(x) <==> (s.contains(x) || x == y),
{
    if s.push(y).contains(x) {
        let k = choose|k: int| 0 <= k < s.push(y).len() && s.push(y)[k] == x;
        if k < s.len() {
            assert(s[k] == x);
        }
    }
    if s.contains(x) {
        let k = choose|k: int| 0 <= k < s.len() && s[k] == x;
        assert(s.push(y)[k] == x);
    }
    if x == y {
        assert(s.push(y)[s.len() as int] == x);
    }
}

/// Adds every string of `items` to the set `set`.
pub fn set_add_all(set: &mut Vec<String>, items: &Vec<String>)
    requires
        sorted_strict(views(old(set)@)),
    ensures
        sorted_strict(views(final(set)@)),
        forall|x: Seq<char>|
            #![trigger views(final(set)@).contains(x)]
            #![trigger views(old(set)@).contains(x)]
            #![trigger views(items@).contains(x)]
            views(final(set)@).contains(x) <==> (views(old(set)@).contains(x) || views(items@).contains(x)),
{
    let mut k: usize = 0;
    while k < items.len()
        invariant
            k <= items@.len(),
            sorted_strict(views(set@)),
            forall|x: Seq<char>| views(set@).contains(x) <==> (views(old(set)@).contains(x) || views(items@).take(k as int).contains(x)),
        decreases items.len() - k,
    {
        let ghost before = views(set@);
        set_insert(set, items[k].clone());
        proof {
            assert(views(items@).take(k + 1) =~= views(items@).take(k as int).push(items@[k as int]@));
            assert forall|x: Seq<char>| views(set@).contains(x) <==> (views(old(set)@).contains(x) || views(items@).take(k + 1).contains(x)) by {
                lemma_push_contains(views(items@).take(k as int), items@[k as int]@, x);
            }
        }
        k += 1;
    }
    proof {
        assert(views(items@).take(items@.len() as int) =~= views(items@));
    }
}

} // verus!
