//! Entries kept in order of a two-part text key, each key at most once.
use vstd::prelude::*;
use crate::text::{chars_eq, lemma_lex_irreflexive, lemma_lex_transitive, lemma_lex_trichotomy, lex_less, lex_lt};

verus! {

/// A two-part text key.
pub type Key = (Vec<char>, Vec<char>);

/// A key as plain values.
pub open spec fn key_view(k: Key) -> (Seq<char>, Seq<char>) {
    (k.0@, k.1@)
}

/// Keys ordered by their first part, then their second.
pub open spec fn key_lt(a: (Seq<char>, Seq<char>), b: (Seq<char>, Seq<char>)) -> bool {
    lex_lt(a.0, b.0) || (a.0 == b.0 && lex_lt(a.1, b.1))
}

/// Entries in strictly increasing key order.
pub open spec fn sorted<T>(v: Seq<(Key, T)>) -> bool {
    forall|i: int, j: int| 0 <= i < j < v.len() ==> key_lt(key_view(#[trigger] v[i].0), key_view(#[trigger] v[j].0))
}

/// The keys of entries, in order.
pub open spec fn keys_of<T>(v: Seq<(Key, T)>) -> Seq<(Seq<char>, Seq<char>)> {
    v.map_values(|e: (Key, T)| key_view(e.0))
}

proof fn lemma_key_order(a: (Seq<char>, Seq<char>), b: (Seq<char>, Seq<char>), c: (Seq<char>, Seq<char>))
    ensures
        key_lt(a, b) && key_lt(b, c) ==> key_lt(a, c),
        !key_lt(a, a),
        a == b || key_lt(a, b) || key_lt(b, a),
{
    lemma_lex_irreflexive(a.0);
    lemma_lex_irreflexive(a.1);
    lemma_lex_trichotomy(a.0, b.0);
    lemma_lex_trichotomy(a.1, b.1);
    if key_lt(a, b) && key_lt(b, c) {
        if lex_lt(a.0, b.0) && lex_lt(b.0, c.0) {
            lemma_lex_transitive(a.0, b.0, c.0);
        }
        if lex_lt(a.1, b.1) && lex_lt(b.1, c.1) {
            lemma_lex_transitive(a.1, b.1, c.1);
        }
    }
}

/// In sorted entries a key names at most one entry.
pub proof fn lemma_sorted_unique<T>(v: Seq<(Key, T)>, i: int, j: int)
    requires
        sorted(v),
        0 <= i < v.len(),
        0 <= j < v.len(),
        key_view(v[i].0) == key_view(v[j].0),
    ensures
        i == j,
{
    lemma_key_order(key_view(v[i].0), key_view(v[i].0), key_view(v[i].0));
    if i < j {
        assert(key_lt(key_view(v[i].0), key_view(v[j].0)));
    } else if j < i {
        assert(key_lt(key_view(v[j].0), key_view(v[i].0)));
    }
}

/// Whether one key orders before another.
pub fn key_less(a: &Key, b: &Key) -> (r: bool)
    ensures
        r == key_lt(key_view(*a), key_view(*b)),
{
    if lex_less(a.0.as_slice(), b.0.as_slice()) {
        true
    } else if chars_eq(a.0.as_slice(), b.0.as_slice()) {
        lex_less(a.1.as_slice(), b.1.as_slice())
    } else {
        false
    }
}

/// Whether two keys are equal.
pub fn key_eq(a: &Key, b: &Key) -> (r: bool)
    ensures
        r == (key_view(*a) == key_view(*b)),
{
    chars_eq(a.0.as_slice(), b.0.as_slice()) && chars_eq(a.1.as_slice(), b.1.as_slice())
}

/// The position of a key, if present.
pub fn find<T>(v: &Vec<(Key, T)>, k: &Key) -> (r: Option<usize>)
    ensures
        r matches Some(i) ==> i < v@.len() && key_view(v@[i as int].0) == key_view(*k),
        r is None ==> forall|i: int| 0 <= i < v@.len() ==> key_view(#[trigger] v@[i].0) != key_view(*k),
{
    let mut i: usize = 0;
    while i < v.len()
        invariant
            i <= v@.len(),
            forall|j: int| 0 <= j < i ==> key_view(#[trigger] v@[j].0) != key_view(*k),
        decreases v.len() - i,
    {
        if key_eq(&v[i].0, k) {
            return Some(i);
        }
        i = i + 1;
    }
    None
}

/// `new` is `old` with the entry of key `k` set to `x`: that entry is
/// there, every other entry of `new` was in `old`, and every entry of `old`
/// under another key stays.
pub open spec fn sets_entry<T>(old: Seq<(Key, T)>, new: Seq<(Key, T)>, k: (Seq<char>, Seq<char>), x: T) -> bool {
    &&& exists|i: int| 0 <= i < new.len() && key_view(new[i].0) == k && new[i].1 == x
    &&& forall|i: int|
        0 <= i < new.len() ==> (key_view(new[i].0) == k && new[i].1 == x) || old.contains(#[trigger] new[i])
    &&& forall|j: int| 0 <= j < old.len() && key_view(old[j].0) != k ==> new.contains(#[trigger] old[j])
}

/// Sets the entry of a key: replaces the value of a present key, else adds
/// the entry in order.
pub fn insert<T>(v: &mut Vec<(Key, T)>, k: Key, x: T)
    requires
        sorted(old(v)@),
    ensures
        sorted(final(v)@),
        final(v)@.len() <= old(v)@.len() + 1,
        exists|i: int| 0 <= i < final(v)@.len() && key_view(final(v)@[i].0) == key_view(k),
        forall|i: int|
            0 <= i < final(v)@.len() ==> (key_view(final(v)@[i].0) == key_view(k) && final(v)@[i].1 == x)
                || old(v)@.contains(#[trigger] final(v)@[i]),
        sets_entry(old(v)@, final(v)@, key_view(k), x),
{
    let mut p: usize = 0;
    while p < v.len() && key_less(&v[p].0, &k)
        invariant
            p <= v@.len(),
            forall|j: int| 0 <= j < p ==> key_lt(key_view(#[trigger] v@[j].0), key_view(k)),
        decreases v.len() - p,
    {
        p = p + 1;
    }
    let ghost old_v = v@;
    if p < v.len() && key_eq(&v[p].0, &k) {
        let ghost kx = key_view(k);
        let ghost xv = x;
        v.set(p, (k, x));
        proof {
            assert forall|i: int| 0 <= i < v@.len() implies (key_view(v@[i].0) == kx && v@[i].1 == xv) || old_v.contains(#[trigger] v@[i]) by {
                if i != p {
                    assert(v@[i] == old_v[i]);
                }
            }
            assert forall|i: int, j: int| 0 <= i < j < v@.len() implies key_lt(key_view(#[trigger] v@[i].0), key_view(#[trigger] v@[j].0)) by {
                assert(key_view(v@[i].0) == key_view(old_v[i].0));
                assert(key_view(v@[j].0) == key_view(old_v[j].0));
            }
            assert(key_view(v@[p as int].0) == key_view(old_v[p as int].0));
            assert(key_view(v@[p as int].0) == kx && v@[p as int].1 == xv);
            assert forall|j: int| 0 <= j < old_v.len() && key_view(old_v[j].0) != kx implies v@.contains(#[trigger] old_v[j]) by {
                assert(j != p);
                assert(v@[j] == old_v[j]);
            }
        }
    } else {
        let kv = Ghost(key_view(k));
        let ghost xv = x;
        v.insert(p, (k, x));
        proof {
            assert forall|i: int| 0 <= i < v@.len() implies (key_view(v@[i].0) == kv@ && v@[i].1 == xv) || old_v.contains(#[trigger] v@[i]) by {
                if i < p {
                    assert(v@[i] == old_v[i]);
                } else if i > p {
                    assert(v@[i] == old_v[i - 1]);
                }
            }
            assert(key_view(v@[p as int].0) == kv@);
            assert(v@[p as int].1 == xv);
            assert forall|j: int| 0 <= j < old_v.len() && key_view(old_v[j].0) != kv@ implies v@.contains(#[trigger] old_v[j]) by {
                if j < p {
                    assert(v@[j] == old_v[j]);
                } else {
                    assert(v@[j + 1] == old_v[j]);
                }
            }
            if p < old_v.len() {
                lemma_key_order(key_view(old_v[p as int].0), kv@, kv@);
            }
            assert forall|i: int, j: int| 0 <= i < j < v@.len() implies key_lt(key_view(#[trigger] v@[i].0), key_view(#[trigger] v@[j].0)) by {
                if j < p {
                    assert(v@[i] == old_v[i] && v@[j] == old_v[j]);
                } else if j == p {
                    assert(v@[i] == old_v[i]);
                } else if i < p {
                    assert(v@[i] == old_v[i] && v@[j] == old_v[j - 1]);
                    lemma_key_order(key_view(old_v[i].0), kv@, key_view(old_v[p as int].0));
                    if j - 1 > p {
                        lemma_key_order(kv@, key_view(old_v[p as int].0), key_view(old_v[j - 1].0));
                        lemma_key_order(key_view(old_v[i].0), kv@, key_view(old_v[j - 1].0));
                    }
                } else if i == p {
                    assert(v@[j] == old_v[j - 1]);
                    lemma_key_order(key_view(old_v[p as int].0), kv@, kv@);
                    if j - 1 > p {
                        lemma_key_order(kv@, key_view(old_v[p as int].0), key_view(old_v[j - 1].0));
                    }
                } else {
                    assert(v@[i] == old_v[i - 1] && v@[j] == old_v[j - 1]);
                }
            }
        }
    }
}

/// The values of entries, in order.
pub fn values<T>(v: Vec<(Key, T)>) -> (out: Vec<T>)
    ensures
        out@.len() == v@.len(),
        forall|i: int| 0 <= i < v@.len() ==> #[trigger] out@[i] == v@[i].1,
{
    let ghost orig = v@;
    let mut v = v;
    let mut rev: Vec<T> = Vec::new();
    while v.len() > 0
        invariant
            v@.len() + rev@.len() == orig.len(),
            v@ == orig.take(v@.len() as int),
            forall|i: int| 0 <= i < rev@.len() ==> #[trigger] rev@[i] == orig[orig.len() - 1 - i].1,
        decreases v.len(),
    {
        let ghost before = v@;
        let (_, x) = v.pop().unwrap();
        assert(v@ =~= orig.take(v@.len() as int));
        rev.push(x);
    }
    let mut out: Vec<T> = Vec::new();
    while rev.len() > 0
        invariant
            out@.len() + rev@.len() == orig.len(),
            forall|i: int| 0 <= i < rev@.len() ==> #[trigger] rev@[i] == orig[orig.len() - 1 - i].1,
            forall|i: int| 0 <= i < out@.len() ==> #[trigger] out@[i] == orig[i].1,
        decreases rev.len(),
    {
        let x = rev.pop().unwrap();
        out.push(x);
    }
    out
}


/// Whether some entry has key `k`.
pub open spec fn has_key<T>(v: Seq<(Key, T)>, k: (Seq<char>, Seq<char>)) -> bool {
    exists|i: int| 0 <= i < v.len() && key_view(#[trigger] v[i].0) == k
}

/// Entries as a map from key to value.
pub open spec fn entry_map<T>(v: Seq<(Key, T)>) -> Map<(Seq<char>, Seq<char>), T> {
    Map::new(
        |k: (Seq<char>, Seq<char>)| has_key(v, k),
        |k: (Seq<char>, Seq<char>)| v[choose|i: int| 0 <= i < v.len() && key_view(#[trigger] v[i].0) == k].1,
    )
}

/// In sorted entries, the map gives the value of the entry at a position.
pub proof fn lemma_entry_map_at<T>(v: Seq<(Key, T)>, i: int)
    requires
        sorted(v),
        0 <= i < v.len(),
    ensures
        entry_map(v).contains_key(key_view(v[i].0)),
        entry_map(v)[key_view(v[i].0)] == v[i].1,
{
    let k = key_view(v[i].0);
    assert(has_key(v, k));
    let j = choose|j: int| 0 <= j < v.len() && key_view(#[trigger] v[j].0) == k;
    lemma_sorted_unique(v, i, j);
}

/// Setting an entry sets it in the map.
pub proof fn lemma_sets_entry_map<T>(old: Seq<(Key, T)>, new: Seq<(Key, T)>, k: (Seq<char>, Seq<char>), x: T)
    requires
        sorted(old),
        sorted(new),
        sets_entry(old, new, k, x),
    ensures
        entry_map(new) == entry_map(old).insert(k, x),
{
    let a = entry_map(new);
    let b = entry_map(old).insert(k, x);
    assert forall|kk: (Seq<char>, Seq<char>)| a.contains_key(kk) <==> b.contains_key(kk) by {
        if kk == k {
            let i = choose|i: int| 0 <= i < new.len() && key_view(new[i].0) == k && new[i].1 == x;
            assert(has_key(new, kk));
        } else {
            if has_key(new, kk) {
                let i = choose|i: int| 0 <= i < new.len() && key_view(#[trigger] new[i].0) == kk;
                let j = choose|j: int| 0 <= j < old.len() && old[j] == new[i];
                assert(has_key(old, kk));
            }
            if has_key(old, kk) {
                let j = choose|j: int| 0 <= j < old.len() && key_view(#[trigger] old[j].0) == kk;
                assert(new.contains(old[j]));
                let i = choose|i: int| 0 <= i < new.len() && new[i] == old[j];
                assert(has_key(new, kk));
            }
        }
    }
    assert forall|kk: (Seq<char>, Seq<char>)| a.contains_key(kk) implies a[kk] == b[kk] by {
        let i = choose|i: int| 0 <= i < new.len() && key_view(#[trigger] new[i].0) == kk;
        lemma_entry_map_at(new, i);
        if kk == k {
            let i2 = choose|i2: int| 0 <= i2 < new.len() && key_view(new[i2].0) == k && new[i2].1 == x;
            lemma_sorted_unique(new, i, i2);
        } else {
            let j = choose|j: int| 0 <= j < old.len() && old[j] == new[i];
            lemma_entry_map_at(old, j);
        }
    }
    assert(a =~= b);
}


/// Sorted entries have as many keys as entries.
pub proof fn lemma_entry_map_len<T>(v: Seq<(Key, T)>)
    requires
        sorted(v),
    ensures
        entry_map(v).dom().finite(),
        entry_map(v).dom().len() == v.len(),
    decreases v.len(),
{
    if v.len() == 0 {
        assert(entry_map(v).dom() =~= Set::<(Seq<char>, Seq<char>)>::empty());
    } else {
        let w = v.drop_last();
        assert(sorted(w)) by {
            assert forall|i: int, j: int| 0 <= i < j < w.len() implies key_lt(key_view(#[trigger] w[i].0), key_view(#[trigger] w[j].0)) by {
                assert(w[i] == v[i] && w[j] == v[j]);
            }
        }
        lemma_entry_map_len(w);
        let k = key_view(v.last().0);
        assert forall|kk: (Seq<char>, Seq<char>)| entry_map(v).dom().contains(kk) <==> entry_map(w).dom().insert(k).contains(kk) by {
            if has_key(v, kk) && kk != k {
                let i = choose|i: int| 0 <= i < v.len() && key_view(#[trigger] v[i].0) == kk;
                assert(i < w.len());
                assert(w[i] == v[i]);
                assert(has_key(w, kk));
            }
            if has_key(w, kk) {
                let i = choose|i: int| 0 <= i < w.len() && key_view(#[trigger] w[i].0) == kk;
                assert(v[i] == w[i]);
                assert(has_key(v, kk));
            }
            if kk == k {
                assert(key_view(v[v.len() - 1].0) == k);
                assert(has_key(v, kk));
            }
        }
        assert(entry_map(v).dom() =~= entry_map(w).dom().insert(k));
        if has_key(w, k) {
            let i = choose|i: int| 0 <= i < w.len() && key_view(#[trigger] w[i].0) == k;
            assert(w[i] == v[i]);
            assert(key_lt(key_view(v[i].0), key_view(v[v.len() - 1].0)));
            lemma_key_order(k, k, k);
        }
        assert(!entry_map(w).dom().contains(k));
    }
}

} // verus!
