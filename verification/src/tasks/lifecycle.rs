//! The life of an occurrence: the order occurrences are considered in, which
//! earlier occurrence covers a new one when a single instance is retained,
//! and when an after-completion occurrence is first checked.
use vstd::prelude::*;
use crate::text::{lex_lt, str_eq, str_less};

verus! {

/// An occurrence by its saved local schedule and its identity.
pub struct SlotRow {
    pub date: Option<String>,
    pub time: Option<String>,
    pub key: String,
    pub id: String,
}

/// An optional text, as compared: none sorts first.
pub open spec fn opt_lt(a: Option<Seq<char>>, b: Option<Seq<char>>) -> bool {
    match (a, b) {
        (None, Some(_)) => true,
        (Some(x), Some(y)) => lex_lt(x, y),
        _ => false,
    }
}

/// The text of an optional string.
pub open spec fn opt_seq(o: Option<String>) -> Option<Seq<char>> {
    match o {
        Some(s) => Some(s@),
        None => None,
    }
}

/// A row by the values it is ordered by.
pub open spec fn row_key(r: SlotRow) -> (Option<Seq<char>>, Option<Seq<char>>, Seq<char>, Seq<char>) {
    (opt_seq(r.date), opt_seq(r.time), r.key@, r.id@)
}

/// Occurrences run in order of date, then intended time, then slot key,
/// then identity: `row_lt(a, b)` when `a` comes strictly first.
pub open spec fn row_lt(
    a: (Option<Seq<char>>, Option<Seq<char>>, Seq<char>, Seq<char>),
    b: (Option<Seq<char>>, Option<Seq<char>>, Seq<char>, Seq<char>),
) -> bool {
    opt_lt(a.0, b.0) || (a.0 == b.0 && (opt_lt(a.1, b.1) || (a.1 == b.1 && (lex_lt(a.2, b.2) || (
    a.2 == b.2 && lex_lt(a.3, b.3))))))
}

/// Rows in chronological order.
pub open spec fn chronological(s: Seq<SlotRow>) -> bool {
    forall|i: int, j: int|
        0 <= i < j < s.len() ==> !row_lt(row_key(#[trigger] s[j]), row_key(#[trigger] s[i]))
}

proof fn lemma_opt_trichotomy(a: Option<Seq<char>>, b: Option<Seq<char>>)
    ensures
        a == b || opt_lt(a, b) || opt_lt(b, a),
        !(opt_lt(a, b) && opt_lt(b, a)),
        !opt_lt(a, a),
{
    match (a, b) {
        (Some(x), Some(y)) => {
            crate::text::lemma_lex_trichotomy(x, y);
            crate::text::lemma_lex_irreflexive(x);
            if x =~= y {
                assert(a == b);
            }
        },
        (Some(x), None) => {
            crate::text::lemma_lex_irreflexive(x);
        },
        _ => {},
    }
}

proof fn lemma_opt_transitive(a: Option<Seq<char>>, b: Option<Seq<char>>, c: Option<Seq<char>>)
    requires
        opt_lt(a, b),
        opt_lt(b, c),
    ensures
        opt_lt(a, c),
{
    match (a, b, c) {
        (Some(x), Some(y), Some(z)) => crate::text::lemma_lex_transitive(x, y, z),
        _ => {},
    }
}

proof fn lemma_row_order(
    a: (Option<Seq<char>>, Option<Seq<char>>, Seq<char>, Seq<char>),
    b: (Option<Seq<char>>, Option<Seq<char>>, Seq<char>, Seq<char>),
    c: (Option<Seq<char>>, Option<Seq<char>>, Seq<char>, Seq<char>),
)
    ensures
        a == b || row_lt(a, b) || row_lt(b, a),
        !(row_lt(a, b) && row_lt(b, a)),
        row_lt(a, b) && row_lt(b, c) ==> row_lt(a, c),
        !row_lt(b, a) && !row_lt(c, b) ==> !row_lt(c, a),
{
    lemma_opt_trichotomy(a.0, b.0);
    lemma_opt_trichotomy(a.1, b.1);
    lemma_opt_trichotomy(b.0, c.0);
    lemma_opt_trichotomy(b.1, c.1);
    lemma_opt_trichotomy(a.0, c.0);
    lemma_opt_trichotomy(a.1, c.1);
    crate::text::lemma_lex_trichotomy(a.2, b.2);
    crate::text::lemma_lex_trichotomy(a.3, b.3);
    crate::text::lemma_lex_trichotomy(b.2, c.2);
    crate::text::lemma_lex_trichotomy(b.3, c.3);
    crate::text::lemma_lex_trichotomy(a.2, c.2);
    crate::text::lemma_lex_trichotomy(a.3, c.3);
    crate::text::lemma_lex_irreflexive(a.2);
    crate::text::lemma_lex_irreflexive(a.3);
    if opt_lt(a.0, b.0) && opt_lt(b.0, c.0) {
        lemma_opt_transitive(a.0, b.0, c.0);
    }
    if opt_lt(a.1, b.1) && opt_lt(b.1, c.1) {
        lemma_opt_transitive(a.1, b.1, c.1);
    }
    if lex_lt(a.2, b.2) && lex_lt(b.2, c.2) {
        crate::text::lemma_lex_transitive(a.2, b.2, c.2);
    }
    if lex_lt(a.3, b.3) && lex_lt(b.3, c.3) {
        crate::text::lemma_lex_transitive(a.3, b.3, c.3);
    }
    if a.2 =~= b.2 && a.3 =~= b.3 && a.0 == b.0 && a.1 == b.1 {
        assert(a == b);
    }
    if c.0 == a.0 && c.1 == a.1 && c.2 =~= a.2 && c.3 =~= a.3 {
        assert(c == a);
    }
    if row_lt(c, a) && !row_lt(b, a) && !row_lt(c, b) {
        if b == a {
        } else if b == c {
        } else {
            assert(row_lt(a, b));
            assert(row_lt(b, c));
            assert(row_lt(a, c));
        }
    }
}

fn opt_less(a: &Option<String>, b: &Option<String>) -> (r: bool)
    ensures
        r == opt_lt(opt_seq(*a), opt_seq(*b)),
{
    match (a, b) {
        (None, Some(_)) => true,
        (Some(x), Some(y)) => str_less(x.as_str(), y.as_str()),
        _ => false,
    }
}

fn opt_same(a: &Option<String>, b: &Option<String>) -> (r: bool)
    ensures
        r == (opt_seq(*a) == opt_seq(*b)),
{
    match (a, b) {
        (None, None) => true,
        (Some(x), Some(y)) => str_eq(x.as_str(), y.as_str()),
        _ => false,
    }
}

/// Whether row `a` runs strictly before row `b`.
fn row_less(a: &SlotRow, b: &SlotRow) -> (r: bool)
    ensures
        r == row_lt(row_key(*a), row_key(*b)),
{
    opt_less(&a.date, &b.date) || (opt_same(&a.date, &b.date) && (opt_less(&a.time, &b.time) || (
    opt_same(&a.time, &b.time) && (str_less(a.key.as_str(), b.key.as_str()) || (str_eq(
        a.key.as_str(),
        b.key.as_str(),
    ) && str_less(a.id.as_str(), b.id.as_str()))))))
}

proof fn lemma_empty_multiset<A>(s: Seq<A>)
    requires
        s.len() == 0,
    ensures
        s.to_multiset() =~= vstd::multiset::Multiset::empty(),
{
    assert forall|a: A| s.to_multiset().count(a) == 0 by {
        vstd::seq_lib::to_multiset_contains(s, a);
    }
}

/// Puts occurrences in chronological order: by saved local date and
/// intended time (undated and untimed first), then by slot key, then by
/// identity, never by an opaque anchor identity alone.
pub fn order_chronologically(rows: Vec<SlotRow>) -> (out: Vec<SlotRow>)
    ensures
        out@.to_multiset() == rows@.to_multiset(),
        chronological(out@),
{
    let ghost all = rows@.to_multiset();
    let mut rest = rows;
    let mut out: Vec<SlotRow> = Vec::new();
    proof {
        lemma_empty_multiset(out@);
    }
    assert(out@.to_multiset().add(rest@.to_multiset()) =~= all);
    while rest.len() > 0
        invariant
            out@.to_multiset().add(rest@.to_multiset()) == all,
            chronological(out@),
            forall|i: int, j: int|
                0 <= i < out@.len() && 0 <= j < rest@.len() ==> !row_lt(
                    row_key(#[trigger] rest@[j]),
                    row_key(#[trigger] out@[i]),
                ),
        decreases rest.len(),
    {
        let mut m: usize = 0;
        let mut k: usize = 1;
        proof {
            lemma_row_order(row_key(rest@[0]), row_key(rest@[0]), row_key(rest@[0]));
        }
        while k < rest.len()
            invariant
                0 < rest@.len(),
                m < k <= rest@.len(),
                forall|j: int| 0 <= j < k ==> !row_lt(row_key(#[trigger] rest@[j]), row_key(rest@[m as int])),
            decreases rest.len() - k,
        {
            if row_less(&rest[k], &rest[m]) {
                proof {
                    assert forall|j: int| 0 <= j < k + 1 implies !row_lt(
                        row_key(#[trigger] rest@[j]),
                        row_key(rest@[k as int]),
                    ) by {
                        lemma_row_order(row_key(rest@[j]), row_key(rest@[m as int]), row_key(rest@[k as int]));
                        lemma_row_order(row_key(rest@[k as int]), row_key(rest@[m as int]), row_key(rest@[j]));
                        lemma_row_order(row_key(rest@[k as int]), row_key(rest@[k as int]), row_key(rest@[j]));
                    }
                }
                m = k;
            }
            k = k + 1;
        }
        let ghost before_rest = rest@;
        let ghost before_out = out@;
        let x = rest.remove(m);
        proof {
            vstd::seq_lib::to_multiset_remove(before_rest, m as int);
            assert(before_rest.contains(x)) by {
                assert(before_rest[m as int] == x);
            }
            vstd::seq_lib::to_multiset_contains(before_rest, x);
        }
        out.push(x);
        proof {
            vstd::seq_lib::to_multiset_build(before_out, x);
            assert(out@.to_multiset().add(rest@.to_multiset()) =~= all);
            assert forall|i: int, j: int| 0 <= i < j < out@.len() implies !row_lt(
                row_key(#[trigger] out@[j]),
                row_key(#[trigger] out@[i]),
            ) by {
                if j == out@.len() - 1 {
                    assert(out@[j] == before_rest[m as int]);
                    assert(out@[i] == before_out[i]);
                } else {
                    assert(out@[i] == before_out[i]);
                    assert(out@[j] == before_out[j]);
                }
            }
            assert forall|i: int, j: int|
                0 <= i < out@.len() && 0 <= j < rest@.len() implies !row_lt(
                row_key(#[trigger] rest@[j]),
                row_key(#[trigger] out@[i]),
            ) by {
                let jj = if j < m { j } else { j + 1 };
                assert(rest@[j] == before_rest[jj]);
                if i == out@.len() - 1 {
                    assert(out@[i] == before_rest[m as int]);
                } else {
                    assert(out@[i] == before_out[i]);
                }
            }
        }
    }
    proof {
        lemma_empty_multiset(rest@);
    }
    assert(out@.to_multiset() =~= all);
    out
}

/// What a retained-instance schedule knows of an earlier occurrence: whether
/// it is itself covered or resolved, and whether every reader of the task
/// sees it complete.
pub struct CoverCandidate {
    pub covered: bool,
    pub resolved: bool,
    pub publicly_complete: bool,
}

/// Whether an earlier occurrence still stands open for a retained-instance
/// schedule: neither covered nor resolved, and not complete for every reader.
pub open spec fn still_open(c: CoverCandidate) -> bool {
    !c.covered && !c.resolved && !c.publicly_complete
}

/// Which earlier occurrence, taken in chronological order, covers a new one
/// when a schedule retains one instance: the first that still stands open.
pub fn covering(candidates: &[CoverCandidate]) -> (r: Option<usize>)
    ensures
        r matches Some(i) ==> i < candidates@.len() && still_open(candidates@[i as int]) && forall|
            j: int,
        | 0 <= j < i ==> !still_open(#[trigger] candidates@[j]),
        r is None ==> forall|j: int| 0 <= j < candidates@.len() ==> !still_open(
            #[trigger] candidates@[j],
        ),
{
    let mut i: usize = 0;
    while i < candidates.len()
        invariant
            i <= candidates@.len(),
            forall|j: int| 0 <= j < i ==> !still_open(#[trigger] candidates@[j]),
        decreases candidates.len() - i,
    {
        let c = &candidates[i];
        if !c.covered && !c.resolved && !c.publicly_complete {
            return Some(i);
        }
        i = i + 1;
    }
    None
}

/// When a new after-completion occurrence is first checked for completion:
/// when it opens, but not before now.
pub fn first_check(opens_at: Option<i64>, now: i64) -> (r: i64)
    ensures
        r == match opens_at {
            Some(v) => if v > now {
                v
            } else {
                now
            },
            None => now,
        },
{
    match opens_at {
        Some(v) => if v > now {
            v
        } else {
            now
        },
        None => now,
    }
}

} // verus!
