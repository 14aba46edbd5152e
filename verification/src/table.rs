//! Tables keyed by an ID: a vector kept strictly increasing by key, which is how the
//! graph holds its nodes and definitions (the iteration order of a `BTreeMap<String, _>`).

use vstd::prelude::*;
use crate::strset::sorted_strict;
use crate::text::{seq_lt, str_eq, str_lt, lemma_seq_lt_asym, lemma_seq_lt_trans, lemma_seq_lt_total};

verus! {

/// A value stored under a string key.
pub trait Keyed {
    spec fn key_view(&self) -> Seq<char>;

    fn key(&self) -> (res: &str)
        ensures
            res@ == self.key_view(),
    ;
}

/// The keys of a table, in order.
pub open spec fn keys<T: Keyed>(s: Seq<T>) -> Seq<Seq<char>> {
    s.map_values(|x: T| x.key_view())
}

/// Strictly increasing keys: sorted, and no key twice.
pub open spec fn keys_sorted<T: Keyed>(s: Seq<T>) -> bool {
    sorted_strict(keys(s))
}

/// Index of the first entry with key `k`, or -1.
pub open spec fn key_index<T: Keyed>(s: Seq<T>, k: Seq<char>) -> int
    decreases s.len(),
{
    if s.len() == 0 {
        -1
    } else if s[0].key_view() == k {
        0
    } else {
        let r = key_index(s.drop_first(), k);
        if r < 0 { -1 } else { r + 1 }
    }
}

/// Whether some entry has key `k`.
pub open spec fn has_key<T: Keyed>(s: Seq<T>, k: Seq<char>) -> bool {
    exists|i: int| 0 <= i < s.len() && (#[trigger] s[i]).key_view() == k
}

/// The entry stored under `k`, if any.
pub open spec fn entry<T: Keyed>(s: Seq<T>, k: Seq<char>) -> Option<T> {
    let i = key_index(s, k);
    if i < 0 { None } else { Some(s[i]) }
}

pub proof fn lemma_key_index<T: Keyed>(s: Seq<T>, k: Seq<char>)
    ensures
        -1 <= key_index(s, k) < s.len(),
        key_index(s, k) >= 0 ==> s[key_index(s, k)].key_view() == k,
        key_index(s, k) >= 0 ==> forall|j: int| 0 <= j < key_index(s, k) ==> (#[trigger] s[j]).key_view() != k,
        key_index(s, k) < 0 <==> !has_key(s, k),
    decreases s.len(),
{
    if s.len() > 0 {
        lemma_key_index(s.drop_first(), k);
        if key_index(s, k) < 0 {
            assert forall|i: int| 0 <= i < s.len() implies (#[trigger] s[i]).key_view() != k by {
                if i > 0 {
                    assert(s.drop_first()[i - 1] == s[i]);
                }
            }
        } else if s[0].key_view() != k {
            let r = key_index(s.drop_first(), k);
            assert(s.drop_first()[r] == s[r + 1]);
            assert forall|j: int| 0 <= j < key_index(s, k) implies (#[trigger] s[j]).key_view() != k by {
                if j > 0 {
                    assert(s.drop_first()[j - 1] == s[j]);
                }
            }
        }
    }
}

/// In a table with strictly increasing keys, the entry with key `k` is the only one.
pub proof fn lemma_key_unique<T: Keyed>(s: Seq<T>, k: Seq<char>, i: int)
    requires
        keys_sorted(s),
        0 <= i < s.len(),
        s[i].key_view() == k,
    ensures
        key_index(s, k) == i,
{
    lemma_key_index(s, k);
    let f = key_index(s, k);
    assert(has_key(s, k));
    if f != i {
        assert(keys(s)[f] == s[f].key_view() && keys(s)[i] == s[i].key_view());
        if f < i {
            lemma_seq_lt_asym(keys(s)[f], keys(s)[i]);
        }
    }
}

/// Looks `k` up.
pub fn find_key<T: Keyed>(v: &Vec<T>, k: &str) -> (res: Option<usize>)
    ensures
        match res {
            Some(i) => i as int == key_index(v@, k@) && i < v@.len() && v@[i as int].key_view() == k@,
            None => key_index(v@, k@) < 0 && !has_key(v@, k@),
        },
{
    let mut i: usize = 0;
    while i < v.len()
        invariant
            i <= v@.len(),
            forall|j: int| 0 <= j < i ==> (#[trigger] v@[j]).key_view() != k@,
        decreases v.len() - i,
    {
        if str_eq(v[i].key(), k) {
            proof {
                lemma_key_index(v@, k@);
                let f = key_index(v@, k@);
                assert(has_key(v@, k@));
                if f != i {
                    assert(f < i ==> v@[f].key_view() != k@);
                    assert(f > i ==> v@[i as int].key_view() != k@);
                }
            }
            return Some(i);
        }
        i += 1;
    }
    proof {
        lemma_key_index(v@, k@);
    }
    None
}

/// Whether the table has an entry under `k`.
pub fn contains_key<T: Keyed>(v: &Vec<T>, k: &str) -> (res: bool)
    ensures
        res == has_key(v@, k@),
{
    find_key(v, k).is_some()
}

/// Inserts `x` under its key unless the key is taken: then the table is unchanged and `x`
/// comes back (as `BTreeMap` use with `contains_key` before `insert`).
pub fn insert_new<T: Keyed>(v: &mut Vec<T>, x: T) -> (res: Option<T>)
    requires
        keys_sorted(old(v)@),
    ensures
        keys_sorted(final(v)@),
        has_key(old(v)@, x.key_view()) ==> final(v)@ == old(v)@ && res == Some(x),
        !has_key(old(v)@, x.key_view()) ==> res is None && exists|i: int| 0 <= i <= old(v)@.len() && final(v)@ == old(v)@.insert(i, x),
{
    let ghost kv = x.key_view();
    let ghost s0 = keys(v@);
    let mut i: usize = 0;
    while i < v.len() && str_lt(v[i].key(), x.key())
        invariant
            v@ == old(v)@,
            s0 == keys(v@),
            sorted_strict(s0),
            x.key_view() == kv,
            i <= v@.len(),
            forall|j: int| 0 <= j < i ==> seq_lt(s0[j], kv),
        decreases v.len() - i,
    {
        assert(s0[i as int] == v@[i as int].key_view());
        i += 1;
    }
    if i < v.len() && str_eq(v[i].key(), x.key()) {
        proof {
            assert(v@[i as int].key_view() == kv);
        }
        return Some(x);
    }
    proof {
        if i < s0.len() {
            assert(s0[i as int] == v@[i as int].key_view());
            lemma_seq_lt_total(s0[i as int], kv);
        }
        assert forall|j: int| 0 <= j < v@.len() implies (#[trigger] v@[j]).key_view() != kv by {
            assert(s0[j] == v@[j].key_view());
            if j < i {
                lemma_seq_lt_asym(s0[j], kv);
            } else {
                if j > i {
                    lemma_seq_lt_trans(kv, s0[i as int], s0[j]);
                }
                lemma_seq_lt_asym(kv, s0[j]);
            }
        }
    }
    v.insert(i, x);
    proof {
        let s1 = keys(v@);
        assert(s1 =~= s0.insert(i as int, kv));
        assert forall|p: int, q: int| 0 <= p < q < s1.len() implies seq_lt(s1[p], s1[q]) by {
            if q > i + 1 {
                lemma_seq_lt_trans(kv, s0[i as int], s0[q - 1]);
            }
            if p < i && q > i {
                lemma_seq_lt_trans(s1[p], kv, s1[q]);
            }
        }
    }
    None
}

/// The entry under `k` after adding `items` one by one to `t`, an item whose key is
/// already present being left out: the first definition wins.
pub open spec fn absorbed<T: Keyed>(t: Seq<T>, items: Seq<T>, k: Seq<char>) -> Option<T>
    decreases items.len(),
{
    if items.len() == 0 {
        entry(t, k)
    } else {
        let r = absorbed(t, items.drop_last(), k);
        if r is None && items.last().key_view() == k { Some(items.last()) } else { r }
    }
}

/// The items left out when adding `items` one by one to `t`, in order.
pub open spec fn rejected<T: Keyed>(t: Seq<T>, items: Seq<T>) -> Seq<T>
    decreases items.len(),
{
    if items.len() == 0 {
        Seq::<T>::empty()
    } else {
        let r = rejected(t, items.drop_last());
        if absorbed(t, items.drop_last(), items.last().key_view()) is Some { r.push(items.last()) } else { r }
    }
}

/// After inserting `x` (its key absent) into a sorted table, the entries are the old ones plus `x`.
pub proof fn lemma_entry_insert<T: Keyed>(t: Seq<T>, i: int, x: T, k: Seq<char>)
    requires
        0 <= i <= t.len(),
        keys_sorted(t),
        keys_sorted(t.insert(i, x)),
        !has_key(t, x.key_view()),
    ensures
        entry(t.insert(i, x), k) == if k == x.key_view() { Some(x) } else { entry(t, k) },
{
    let u = t.insert(i, x);
    lemma_key_index(t, k);
    lemma_key_index(u, k);
    if k == x.key_view() {
        assert(u[i] == x);
        lemma_key_unique(u, k, i);
    } else if has_key(t, k) {
        let m = key_index(t, k);
        let m2 = if m < i { m } else { m + 1 };
        assert(u[m2] == t[m]);
        lemma_key_unique(u, k, m2);
    } else {
        assert forall|j: int| 0 <= j < u.len() implies (#[trigger] u[j]).key_view() != k by {
            if j < i {
                assert(u[j] == t[j]);
            } else if j > i {
                assert(u[j] == t[j - 1]);
            }
        }
    }
}

/// Adds every item whose key is new; returns the others, in order.
pub fn absorb_into<T: Keyed>(t: &mut Vec<T>, items: Vec<T>) -> (res: Vec<T>)
    requires
        keys_sorted(old(t)@),
    ensures
        keys_sorted(final(t)@),
        forall|k: Seq<char>| entry(final(t)@, k) == absorbed(old(t)@, items@, k),
        res@ == rejected(old(t)@, items@),
{
    let ghost t0 = t@;
    let ghost all = items@;
    let mut rest = items;
    let mut out: Vec<T> = Vec::new();
    while rest.len() > 0
        invariant
            keys_sorted(t@),
            rest@.len() <= all.len(),
            rest@ == all.skip(all.len() - rest@.len()),
            forall|k: Seq<char>| entry(t@, k) == absorbed(t0, all.take(all.len() - rest@.len()), k),
            out@ == rejected(t0, all.take(all.len() - rest@.len())),
        decreases rest.len(),
    {
        let ghost j = all.len() - rest@.len();
        let x = rest.remove(0);
        let ghost tb = t@;
        proof {
            assert(x == all[j]);
            assert(all.take(j + 1).drop_last() =~= all.take(j));
            assert(all.take(j + 1).last() == x);
            assert(rest@ =~= all.skip(j + 1));
            lemma_key_index(tb, x.key_view());
        }
        let back = insert_new(t, x);
        match back {
            Some(y) => {
                proof {
                    assert(entry(tb, x.key_view()) is Some);
                }
                out.push(y);
            },
            None => {
                proof {
                    let i = choose|i: int| 0 <= i <= tb.len() && t@ == tb.insert(i, x);
                    assert forall|k: Seq<char>| entry(t@, k) == absorbed(t0, all.take(j + 1), k) by {
                        lemma_entry_insert(tb, i, x, k);
                    }
                    assert(entry(tb, x.key_view()) is None);
                }
            },
        }
    }
    proof {
        assert(all.take(all.len() as int) =~= all);
    }
    out
}

} // verus!
