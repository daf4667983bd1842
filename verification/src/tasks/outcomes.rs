//! The outcome of an occurrence as one reader sees it: only evidence the
//! reader may use counts, a covered occurrence waits on the one covering it,
//! and excluded periods neither break nor extend a streak.
use vstd::prelude::*;
use crate::error::ErrorCode;
use crate::tasks::goals::{
    Evidence, Goal, Outcome, Participation, aggregate, aggregate_outcome, anyone_outcome, entries_ok,
    evaluate, outcome_of, pooled_entries, progress_matches, stream_entries, stream_outcome,
};
use crate::tasks::service::Entry;

verus! {

/// Whether an instant falls inside an occurrence's window: not before it
/// opens, and before it closes.
pub open spec fn in_window(t: i64, opens_at: Option<i64>, closes_at: Option<i64>) -> bool {
    (opens_at matches Some(v) ==> t >= v) && (closes_at matches Some(v) ==> t < v)
}

/// The evidence of some entries that counts: all of it, or for a period
/// outcome only what falls inside the window, in order.
pub open spec fn counted(es: Seq<Entry>, period: bool, opens_at: Option<i64>, closes_at: Option<i64>) -> Seq<Evidence>
    decreases es.len(),
{
    if es.len() == 0 {
        Seq::<Evidence>::empty()
    } else {
        counted(es.drop_last(), period, opens_at, closes_at) + if !period || in_window(
            es.last().happened_at,
            opens_at,
            closes_at,
        ) {
            seq![es.last().evidence]
        } else {
            Seq::<Evidence>::empty()
        }
    }
}

/// Keeps the evidence that counts (see `counted`).
pub fn counted_evidence(entries: Vec<Entry>, period: bool, opens_at: Option<i64>, closes_at: Option<i64>) -> (r: Vec<Evidence>)
    ensures
        r@ == counted(entries@, period, opens_at, closes_at),
{
    let ghost es = entries@;
    let mut out: Vec<Evidence> = Vec::new();
    let mut rest = entries;
    let mut taken: usize = 0;
    let n = rest.len();
    assert(rest@ =~= es.skip(0));
    while rest.len() > 0
        invariant
            n == es.len(),
            taken + rest@.len() == n,
            rest@ =~= es.skip(taken as int),
            out@ == counted(es.take(taken as int), period, opens_at, closes_at),
        decreases rest.len(),
    {
        let ghost before = rest@;
        let e = rest.remove(0);
        assert(e == es[taken as int]);
        let keep = if !period {
            true
        } else {
            let after_open = match opens_at {
                Some(v) => e.happened_at >= v,
                None => true,
            };
            let before_close = match closes_at {
                Some(v) => e.happened_at < v,
                None => true,
            };
            after_open && before_close
        };
        assert(es.take(taken + 1).drop_last() =~= es.take(taken as int));
        if keep {
            out.push(e.evidence);
        }
        taken = taken + 1;
        assert(out@ =~= counted(es.take(taken as int), period, opens_at, closes_at));
        assert(rest@ =~= es.skip(taken as int));
    }
    assert(es.take(n as int) =~= es);
    out
}

/// A participant's stream as one reader sees it.
pub struct StreamView {
    /// The reader may use it: the stream is visible to them, and its
    /// subject is the reader or consented to aggregation.
    pub usable: bool,
    pub excluded: bool,
    pub entries: Vec<Entry>,
}

/// The streams' evidence by value: `None` for a stream left out.
pub open spec fn stream_views(ss: Seq<Option<Vec<Evidence>>>) -> Seq<Option<Seq<Evidence>>> {
    ss.map_values(|s: Option<Vec<Evidence>>| match s {
        Some(v) => Some(v@),
        None => None,
    })
}

/// The evidence an occurrence's outcome counts from each participant: none
/// from a stream the reader may not use, nor from an excluded stream of an
/// `Anyone` task (neither may prove a shared skipped period).
pub open spec fn outcome_inputs(views: Seq<StreamView>, participation: Participation, period: bool, opens_at: Option<i64>, closes_at: Option<i64>) -> Seq<Option<Seq<Evidence>>> {
    views.map_values(
        |v: StreamView|
            if !v.usable || (participation == Participation::Anyone && v.excluded) {
                None
            } else {
                Some(counted(v.entries@, period, opens_at, closes_at))
            },
    )
}

/// Whether every participant of a task with a fixed roster excluded the
/// period, with every stream usable and exclusions allowed.
pub open spec fn all_excluded(views: Seq<StreamView>, participation: Participation, allowed: bool) -> bool {
    &&& participation != Participation::Anyone
    &&& views.len() > 0
    &&& forall|i: int| 0 <= i < views.len() ==> (#[trigger] views[i]).usable && views[i].excluded
    &&& allowed
}

/// The aggregate outcome depends on the streams' evidence by value only.
pub proof fn lemma_aggregate_by_value(
    g: Goal,
    participation: Participation,
    a: Seq<Option<Vec<Evidence>>>,
    b: Seq<Option<Vec<Evidence>>>,
    closed: bool,
)
    requires
        stream_views(a) == stream_views(b),
    ensures
        aggregate_outcome(g, participation, a, closed) == aggregate_outcome(g, participation, b, closed),
    decreases a.len(),
{
    assert(a.len() == stream_views(a).len());
    assert(b.len() == stream_views(b).len());
    assert forall|i: int| 0 <= i < a.len() implies (#[trigger] a[i] is None) == (b[i] is None)
        && stream_entries(a[i]) == stream_entries(b[i]) by {
        assert(stream_views(a)[i] == stream_views(b)[i]);
    }
    lemma_anyone_by_value(g, a, b, closed);
    lemma_pooled_by_value(a, b);
    assert forall|i: int| 0 <= i < a.len() implies #[trigger] stream_outcome(g, a[i], closed) == stream_outcome(g, b[i], closed) by {
        assert(stream_entries(a[i]) == stream_entries(b[i]));
    }
    assert forall|i: int| 0 <= i < a.len() implies entries_ok(g, #[trigger] stream_entries(a[i])) == entries_ok(g, stream_entries(b[i])) by {
        assert(stream_entries(a[i]) == stream_entries(b[i]));
    }
    assert((forall|i: int| 0 <= i < a.len() ==> entries_ok(g, #[trigger] stream_entries(a[i]))) == (
    forall|i: int| 0 <= i < b.len() ==> entries_ok(g, #[trigger] stream_entries(b[i])))) by {
        if forall|i: int| 0 <= i < a.len() ==> entries_ok(g, #[trigger] stream_entries(a[i])) {
            assert forall|i: int| 0 <= i < b.len() implies entries_ok(g, #[trigger] stream_entries(b[i])) by {
                assert(entries_ok(g, stream_entries(a[i])));
            }
        }
        if forall|i: int| 0 <= i < b.len() ==> entries_ok(g, #[trigger] stream_entries(b[i])) {
            assert forall|i: int| 0 <= i < a.len() implies entries_ok(g, #[trigger] stream_entries(a[i])) by {
                assert(entries_ok(g, stream_entries(b[i])));
            }
        }
    }
    assert((forall|i: int| 0 <= i < a.len() ==> #[trigger] stream_outcome(g, a[i], closed) == Outcome::Complete) == (
    forall|i: int| 0 <= i < b.len() ==> #[trigger] stream_outcome(g, b[i], closed) == Outcome::Complete)) by {
        if forall|i: int| 0 <= i < a.len() ==> #[trigger] stream_outcome(g, a[i], closed) == Outcome::Complete {
            assert forall|i: int| 0 <= i < b.len() implies #[trigger] stream_outcome(g, b[i], closed) == Outcome::Complete by {
                assert(stream_outcome(g, a[i], closed) == Outcome::Complete);
            }
        }
        if forall|i: int| 0 <= i < b.len() ==> #[trigger] stream_outcome(g, b[i], closed) == Outcome::Complete {
            assert forall|i: int| 0 <= i < a.len() implies #[trigger] stream_outcome(g, a[i], closed) == Outcome::Complete by {
                assert(stream_outcome(g, b[i], closed) == Outcome::Complete);
            }
        }
    }
    if exists|i: int| 0 <= i < a.len() && #[trigger] stream_entries(a[i]).len() == 0 {
        let i = choose|i: int| 0 <= i < a.len() && #[trigger] stream_entries(a[i]).len() == 0;
        assert(stream_entries(b[i]).len() == 0);
    }
    if exists|i: int| 0 <= i < b.len() && #[trigger] stream_entries(b[i]).len() == 0 {
        let i = choose|i: int| 0 <= i < b.len() && #[trigger] stream_entries(b[i]).len() == 0;
        assert(stream_entries(a[i]).len() == 0);
    }
    if exists|i: int| 0 <= i < a.len() && #[trigger] a[i] is None {
        let i = choose|i: int| 0 <= i < a.len() && #[trigger] a[i] is None;
        assert(b[i] is None);
    }
    if exists|i: int| 0 <= i < b.len() && #[trigger] b[i] is None {
        let i = choose|i: int| 0 <= i < b.len() && #[trigger] b[i] is None;
        assert(a[i] is None);
    }
    if exists|i: int| 0 <= i < a.len() && #[trigger] stream_outcome(g, a[i], closed) == Outcome::Unknown {
        let i = choose|i: int| 0 <= i < a.len() && #[trigger] stream_outcome(g, a[i], closed) == Outcome::Unknown;
        assert(stream_outcome(g, b[i], closed) == Outcome::Unknown);
    }
    if exists|i: int| 0 <= i < b.len() && #[trigger] stream_outcome(g, b[i], closed) == Outcome::Unknown {
        let i = choose|i: int| 0 <= i < b.len() && #[trigger] stream_outcome(g, b[i], closed) == Outcome::Unknown;
        assert(stream_outcome(g, a[i], closed) == Outcome::Unknown);
    }
    if exists|i: int| 0 <= i < a.len() && #[trigger] stream_outcome(g, a[i], closed) == Outcome::Provisional {
        let i = choose|i: int| 0 <= i < a.len() && #[trigger] stream_outcome(g, a[i], closed) == Outcome::Provisional;
        assert(stream_outcome(g, b[i], closed) == Outcome::Provisional);
    }
    if exists|i: int| 0 <= i < b.len() && #[trigger] stream_outcome(g, b[i], closed) == Outcome::Provisional {
        let i = choose|i: int| 0 <= i < b.len() && #[trigger] stream_outcome(g, b[i], closed) == Outcome::Provisional;
        assert(stream_outcome(g, a[i], closed) == Outcome::Provisional);
    }
}

proof fn lemma_anyone_by_value(g: Goal, a: Seq<Option<Vec<Evidence>>>, b: Seq<Option<Vec<Evidence>>>, closed: bool)
    requires
        stream_views(a) == stream_views(b),
    ensures
        anyone_outcome(g, a, closed) == anyone_outcome(g, b, closed),
    decreases a.len(),
{
    assert(a.len() == stream_views(a).len());
    assert(b.len() == stream_views(b).len());
    if a.len() > 0 {
        assert(stream_views(a)[0] == stream_views(b)[0]);
        assert(stream_views(a.drop_first()) =~= stream_views(a).drop_first());
        assert(stream_views(b.drop_first()) =~= stream_views(b).drop_first());
        lemma_anyone_by_value(g, a.drop_first(), b.drop_first(), closed);
    }
}

proof fn lemma_pooled_by_value(a: Seq<Option<Vec<Evidence>>>, b: Seq<Option<Vec<Evidence>>>)
    requires
        stream_views(a) == stream_views(b),
    ensures
        pooled_entries(a) == pooled_entries(b),
    decreases a.len(),
{
    assert(a.len() == stream_views(a).len());
    assert(b.len() == stream_views(b).len());
    if a.len() > 0 {
        assert(stream_views(a)[a.len() - 1] == stream_views(b)[b.len() - 1]);
        assert(stream_views(a.drop_last()) =~= stream_views(a).drop_last());
        assert(stream_views(b.drop_last()) =~= stream_views(b).drop_last());
        lemma_pooled_by_value(a.drop_last(), b.drop_last());
    }
}

/// What an occurrence needs for its outcome: its goal and participation,
/// whether exclusions are allowed, its window and whether a chore covers it.
pub struct OutcomeContext {
    pub goal: Goal,
    pub participation: Participation,
    pub allow_exclusions: bool,
    pub opens_at: Option<i64>,
    pub closes_at: Option<i64>,
    pub covered: bool,
}

/// The outcome of an occurrence for one reader, from the participants'
/// streams as that reader sees them, at `now`; `period` limits evidence to
/// the window. A covered occurrence is missed once it closes and incomplete
/// before; where every participant of a fixed roster excluded the period it
/// is excluded; otherwise the streams are aggregated.
pub fn occurrence_outcome(c: &OutcomeContext, views: Vec<StreamView>, now: i64, period: bool) -> (r: Result<Outcome, ErrorCode>)
    ensures
        c.covered ==> r == Ok::<Outcome, ErrorCode>(
            if c.closes_at matches Some(v) && now >= v {
                Outcome::Missed
            } else {
                Outcome::Incomplete
            },
        ),
        !c.covered && all_excluded(views@, c.participation, c.allow_exclusions) ==> r == Ok::<
            Outcome,
            ErrorCode,
        >(Outcome::Excluded),
        !c.covered && !all_excluded(views@, c.participation, c.allow_exclusions) ==> exists|
            ss: Seq<Option<Vec<Evidence>>>,
        |
            stream_views(ss) == outcome_inputs(
                views@,
                c.participation,
                period,
                c.opens_at,
                c.closes_at,
            ) && r == aggregate_outcome(
                c.goal,
                c.participation,
                ss,
                c.closes_at matches Some(v) && now >= v,
            ),
{
    let closed = match c.closes_at {
        Some(v) => now >= v,
        None => false,
    };
    if c.covered {
        return Ok(
            if closed {
                Outcome::Missed
            } else {
                Outcome::Incomplete
            },
        );
    }
    let ghost vs = views@;
    let n = views.len();
    let mut streams: Vec<Option<Vec<Evidence>>> = Vec::new();
    let mut every_excluded = true;
    let mut rest = views;
    let mut k: usize = 0;
    assert(rest@ =~= vs.skip(0));
    while rest.len() > 0
        invariant
            n == vs.len(),
            k + rest@.len() == n,
            rest@ =~= vs.skip(k as int),
            streams@.len() == k,
            stream_views(streams@) =~= outcome_inputs(
                vs.take(k as int),
                c.participation,
                period,
                c.opens_at,
                c.closes_at,
            ),
            every_excluded == forall|i: int| 0 <= i < k ==> (#[trigger] vs[i]).usable && vs[i].excluded,
        decreases rest.len(),
    {
        let v = rest.remove(0);
        assert(v == vs[k as int]);
        let ghost prior = streams@;
        every_excluded = every_excluded && v.usable && v.excluded;
        if !v.usable || (c.participation == Participation::Anyone && v.excluded) {
            streams.push(None);
        } else {
            let kept = counted_evidence(v.entries, period, c.opens_at, c.closes_at);
            streams.push(Some(kept));
        }
        k = k + 1;
        assert(streams@ == prior.push(streams@[k - 1]));
        assert(stream_views(streams@) =~= outcome_inputs(
            vs.take(k as int),
            c.participation,
            period,
            c.opens_at,
            c.closes_at,
        )) by {
            assert forall|i: int| 0 <= i < k implies stream_views(streams@)[i] == outcome_inputs(
                vs.take(k as int),
                c.participation,
                period,
                c.opens_at,
                c.closes_at,
            )[i] by {
                if i < k - 1 {
                    assert(streams@[i] == prior[i]);
                    assert(stream_views(prior)[i] == outcome_inputs(
                        vs.take(k - 1),
                        c.participation,
                        period,
                        c.opens_at,
                        c.closes_at,
                    )[i]);
                    assert(vs.take(k - 1)[i] == vs.take(k as int)[i]);
                }
            }
        }
        assert(rest@ =~= vs.skip(k as int));
    }
    assert(vs.take(n as int) =~= vs);
    if c.participation != Participation::Anyone && n > 0 && every_excluded && c.allow_exclusions {
        return Ok(Outcome::Excluded);
    }
    aggregate(&c.goal, c.participation, streams.as_slice(), closed)
}

/// The caller's own outcome of an occurrence: for a participant of a
/// covered occurrence, missed once it closes and incomplete before; none
/// without a stream of their own; excluded where they excluded the period
/// and exclusions are allowed; otherwise their stream's evaluation.
pub fn personal_outcome(c: &OutcomeContext, participant: bool, stream: Option<(bool, Vec<Entry>)>, now: i64, period: bool) -> (r: Result<Option<Outcome>, ErrorCode>)
    ensures
        c.covered && participant ==> r == Ok::<Option<Outcome>, ErrorCode>(
            Some(
                if c.closes_at matches Some(v) && now >= v {
                    Outcome::Missed
                } else {
                    Outcome::Incomplete
                },
            ),
        ),
        !(c.covered && participant) ==> match stream {
            None => r == Ok::<Option<Outcome>, ErrorCode>(None),
            Some((excluded, entries)) => if excluded && c.allow_exclusions {
                r == Ok::<Option<Outcome>, ErrorCode>(Some(Outcome::Excluded))
            } else {
                let es = counted(entries@, period, c.opens_at, c.closes_at);
                &&& r is Ok <==> entries_ok(c.goal, es)
                &&& r matches Ok(o) ==> o == Some(
                    outcome_of(c.goal, es, c.closes_at matches Some(v) && now >= v),
                )
                &&& r matches Err(e) ==> e == ErrorCode::InvalidValue
            },
        },
{
    let closed = match c.closes_at {
        Some(v) => now >= v,
        None => false,
    };
    if c.covered && participant {
        return Ok(
            Some(
                if closed {
                    Outcome::Missed
                } else {
                    Outcome::Incomplete
                },
            ),
        );
    }
    match stream {
        None => Ok(None),
        Some((excluded, entries)) => {
            if excluded && c.allow_exclusions {
                return Ok(Some(Outcome::Excluded));
            }
            let kept = counted_evidence(entries, period, c.opens_at, c.closes_at);
            match evaluate(&c.goal, kept.as_slice(), closed) {
                Ok(p) => Ok(Some(p.outcome)),
                Err(e) => Err(e),
            }
        },
    }
}

} // verus!
