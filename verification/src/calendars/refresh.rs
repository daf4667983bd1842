//! Refreshing a calendar source: the lease a refresh holds, and how an
//! imported window is merged into the stored events. Imported events are
//! evidence: a newer sequence wins, and an event the feed no longer carries
//! is marked missing or cancelled, never deleted.
use vstd::prelude::*;
use crate::calendars::ics::{Event, EventStatus, Feed, event_time_view};
use crate::error::ErrorCode;
use crate::is_canonical_uuid;
use crate::receipts::replay_plain_of;
use crate::tasks::decimal::{render_nat, render_nat_exec};
use crate::tasks::service::{uuid_v5, uuid_v5_text};
use crate::text::{byte_len, lex_lt, push_str, str_eq, str_less, string_from_chars};

verus! {

/// The most events one import may carry.
pub const MAX_IMPORTED: usize = 2048;

/// How long a refresh holds its source, in seconds.
pub const LEASE_SECONDS: i64 = 60;

/// How long after a refresh the next one is due, in seconds.
pub const REFRESH_SECONDS: i64 = 900;

/// The failures a refresh may report.
pub open spec fn failure_ok(f: Seq<char>) -> bool {
    f == "fetch_failed"@ || f == "invalid_ics"@ || f == "unsupported_calendar_rule"@ || f
        == "unsupported_calendar_timezone"@ || f == "calendar_limit"@
}

/// Accepts a reported failure, if any, from the known ones.
pub fn check_failure(failure: Option<&str>) -> (r: Result<(), ErrorCode>)
    ensures
        r is Ok <==> (failure matches Some(f) ==> failure_ok(f@)),
        r matches Err(e) ==> e == ErrorCode::InvalidValue,
{
    match failure {
        None => Ok(()),
        Some(f) => {
            if str_eq(f, "fetch_failed") || str_eq(f, "invalid_ics") || str_eq(
                f,
                "unsupported_calendar_rule",
            ) || str_eq(f, "unsupported_calendar_timezone") || str_eq(f, "calendar_limit") {
                Ok(())
            } else {
                Err(ErrorCode::InvalidValue)
            }
        },
    }
}

/// A refresh starts only when no other refresh holds the source: it takes
/// the next generation and holds the source for a minute.
pub fn begin_lease(generation: i64, lease_until: i64, now: i64) -> (r: Result<(i64, i64), ErrorCode>)
    requires
        generation < i64::MAX,
        now <= i64::MAX - LEASE_SECONDS,
    ensures
        lease_until <= now ==> r == Ok::<(i64, i64), ErrorCode>(
            ((generation + 1) as i64, (now + LEASE_SECONDS) as i64),
        ),
        lease_until > now ==> r == Err::<(i64, i64), ErrorCode>(ErrorCode::RefreshInProgress),
{
    if lease_until <= now {
        Ok((generation + 1, now + LEASE_SECONDS))
    } else {
        Err(ErrorCode::RefreshInProgress)
    }
}

/// A refresh finishes only under the generation it began with, while its
/// lease still holds.
pub fn check_lease(current: i64, generation: i64, lease_until: i64, now: i64) -> (r: Result<
    (),
    ErrorCode,
>)
    ensures
        r is Ok <==> current == generation && lease_until > now,
        r matches Err(e) ==> e == ErrorCode::StaleRefresh,
{
    if current == generation && lease_until > now {
        Ok(())
    } else {
        Err(ErrorCode::StaleRefresh)
    }
}

/// An imported window comes with no failure and at most 2048 events.
pub fn check_import(failed: bool, events: usize) -> (r: Result<(), ErrorCode>)
    ensures
        r is Ok <==> !failed && events <= MAX_IMPORTED,
        r matches Err(e) ==> e == ErrorCode::InvalidValue,
{
    if !failed && events <= MAX_IMPORTED {
        Ok(())
    } else {
        Err(ErrorCode::InvalidValue)
    }
}

/// When the next refresh of a source is due.
pub fn next_refresh(now: i64) -> (r: i64)
    requires
        now <= i64::MAX - REFRESH_SECONDS,
    ensures
        r == now + REFRESH_SECONDS,
{
    now + REFRESH_SECONDS
}

/// The name an imported event's identity is derived from: its UID's length
/// in bytes, its UID and its instance key.
pub open spec fn event_name(uid: Seq<char>, original: Seq<char>) -> Seq<char> {
    "atlas-event-v1:"@ + render_nat(byte_len(uid)) + ":"@ + uid + ":"@ + original
}

/// The identity of an imported event: a version-5 UUID in its source's
/// namespace, so that every import of one instance finds the same
/// resource. The source must be a canonical UUID.
pub fn event_id(source: &str, uid: &str, original: &str) -> (r: Result<String, ErrorCode>)
    ensures
        r is Ok <==> is_canonical_uuid(source@),
        r matches Ok(id) ==> id@ == uuid_v5(source@, event_name(uid@, original@)),
        r matches Err(e) ==> e == ErrorCode::InvalidValue,
{
    if crate::identifier(source).is_err() {
        return Err(ErrorCode::InvalidValue);
    }
    let mut name: Vec<char> = Vec::new();
    push_str(&mut name, "atlas-event-v1:");
    let digits = render_nat_exec(uid.len() as u64);
    let mut i: usize = 0;
    let ghost head = name@;
    while i < digits.len()
        invariant
            i <= digits@.len(),
            name@ == head + digits@.take(i as int),
        decreases digits.len() - i,
    {
        name.push(digits[i]);
        i = i + 1;
        assert(name@ =~= head + digits@.take(i as int));
    }
    assert(digits@.take(i as int) =~= digits@);
    push_str(&mut name, ":");
    push_str(&mut name, uid);
    push_str(&mut name, ":");
    push_str(&mut name, original);
    assert(name@ =~= event_name(uid@, original@));
    let text = string_from_chars(name.as_slice());
    Ok(uuid_v5_text(source, text.as_str()))
}

/// An event by the values it holds.
pub open spec fn event_view(e: Event) -> (
    Seq<char>,
    Seq<char>,
    Seq<char>,
    (Seq<char>, Option<Seq<char>>, Seq<char>, Option<int>),
    Option<(Seq<char>, Option<Seq<char>>, Seq<char>, Option<int>)>,
    EventStatus,
    i64,
) {
    (
        e.uid@,
        e.original@,
        e.title@,
        event_time_view(e.start),
        match e.end {
            Some(t) => Some(event_time_view(t)),
            None => None,
        },
        e.status,
        e.sequence,
    )
}

fn same_opt_text(a: &Option<String>, b: &Option<String>) -> (r: bool)
    ensures
        r == (match (*a, *b) {
            (Some(x), Some(y)) => x@ == y@,
            (None, None) => true,
            _ => false,
        }),
{
    match (a, b) {
        (Some(x), Some(y)) => str_eq(x.as_str(), y.as_str()),
        (None, None) => true,
        _ => false,
    }
}

fn same_time(a: &crate::calendars::ics::EventTime, b: &crate::calendars::ics::EventTime) -> (r: bool)
    ensures
        r == (event_time_view(*a) == event_time_view(*b)),
{
    str_eq(a.date.as_str(), b.date.as_str()) && same_opt_text(&a.time, &b.time) && str_eq(
        a.timezone.as_str(),
        b.timezone.as_str(),
    ) && a.instant == b.instant
}

/// Whether two events hold the same values.
pub fn same_event(a: &Event, b: &Event) -> (r: bool)
    ensures
        r == (event_view(*a) == event_view(*b)),
{
    let ends = match (&a.end, &b.end) {
        (Some(x), Some(y)) => same_time(x, y),
        (None, None) => true,
        _ => false,
    };
    str_eq(a.uid.as_str(), b.uid.as_str()) && str_eq(a.original.as_str(), b.original.as_str())
        && str_eq(a.title.as_str(), b.title.as_str()) && same_time(&a.start, &b.start) && ends
        && a.status == b.status && a.sequence == b.sequence
}

/// What an import does with an event it carries.
#[derive(Clone, Copy, Debug, PartialEq, Eq, Structural)]
pub enum ImportStep {
    /// A new instance: store it.
    Insert,
    /// A changed instance at the same or a newer sequence: store the change.
    Update,
    /// An older sequence, or no change: keep what is stored.
    Keep,
}

/// A stored instance only yields to the same or a newer sequence, and only
/// when something changed.
pub open spec fn import_step_of(stored: Option<Event>, event: Event) -> ImportStep {
    match stored {
        None => ImportStep::Insert,
        Some(p) => if event.sequence < p.sequence || event_view(p) == event_view(event) {
            ImportStep::Keep
        } else {
            ImportStep::Update
        },
    }
}

/// Decides what an import does with an event it carries.
pub fn import_step(stored: Option<&Event>, event: &Event) -> (r: ImportStep)
    ensures
        r == import_step_of(
            match stored {
                Some(p) => Some(*p),
                None => None,
            },
            *event,
        ),
{
    match stored {
        None => ImportStep::Insert,
        Some(p) => {
            if event.sequence < p.sequence || same_event(p, event) {
                ImportStep::Keep
            } else {
                ImportStep::Update
            }
        },
    }
}

/// The sequence recorded for the first entry under a key.
pub open spec fn first_under<K>(v: Seq<(K, i64)>, key: K) -> Option<i64>
    decreases v.len(),
{
    if v.len() == 0 {
        None
    } else if v[0].0 == key {
        Some(v[0].1)
    } else {
        first_under(v.drop_first(), key)
    }
}

/// The cancellation a feed records for an instance: the higher of its
/// series' and its own cancelled sequence.
pub open spec fn cancellation_of(f: Feed, uid: Seq<char>, original: Seq<char>) -> Option<i64> {
    let series = first_under(f.cancelled_series@.map_values(|e: (String, i64)| (e.0@, e.1)), uid);
    let instance = first_under(
        f.cancelled_instances@.map_values(|e: ((String, String), i64)| ((e.0.0@, e.0.1@), e.1)),
        (uid, original),
    );
    match (series, instance) {
        (Some(a), Some(b)) => Some(if a > b {
            a
        } else {
            b
        }),
        (Some(a), None) => Some(a),
        (None, b) => b,
    }
}

fn series_lookup(v: &Vec<(String, i64)>, uid: &str) -> (r: Option<i64>)
    ensures
        r == first_under(v@.map_values(|e: (String, i64)| (e.0@, e.1)), uid@),
{
    let ghost m = v@.map_values(|e: (String, i64)| (e.0@, e.1));
    assert(m.skip(0) =~= m);
    let mut i: usize = 0;
    while i < v.len()
        invariant
            m == v@.map_values(|e: (String, i64)| (e.0@, e.1)),
            i <= v@.len(),
            first_under(m, uid@) == first_under(m.skip(i as int), uid@),
        decreases v.len() - i,
    {
        assert(m.skip(i as int)[0] == m[i as int]);
        assert(m.skip(i as int).drop_first() =~= m.skip(i + 1));
        if str_eq(v[i].0.as_str(), uid) {
            return Some(v[i].1);
        }
        i = i + 1;
    }
    None
}

fn instance_lookup(v: &Vec<((String, String), i64)>, uid: &str, original: &str) -> (r: Option<i64>)
    ensures
        r == first_under(
            v@.map_values(|e: ((String, String), i64)| ((e.0.0@, e.0.1@), e.1)),
            (uid@, original@),
        ),
{
    let ghost m = v@.map_values(|e: ((String, String), i64)| ((e.0.0@, e.0.1@), e.1));
    assert(m.skip(0) =~= m);
    let mut i: usize = 0;
    while i < v.len()
        invariant
            m == v@.map_values(|e: ((String, String), i64)| ((e.0.0@, e.0.1@), e.1)),
            i <= v@.len(),
            first_under(m, (uid@, original@)) == first_under(m.skip(i as int), (uid@, original@)),
        decreases v.len() - i,
    {
        assert(m.skip(i as int)[0] == m[i as int]);
        assert(m.skip(i as int).drop_first() =~= m.skip(i + 1));
        if str_eq(v[i].0.0.as_str(), uid) && str_eq(v[i].0.1.as_str(), original) {
            return Some(v[i].1);
        }
        i = i + 1;
    }
    None
}

/// What becomes of a stored event after an import.
#[derive(Clone, Copy, Debug, PartialEq, Eq, Structural)]
pub enum StoredStep {
    /// Nothing changes.
    Keep,
    /// The event is cancelled at this sequence.
    Cancel(i64),
    /// The event is missing from a window that should carry it.
    Missing,
}

/// A recorded cancellation at the event's sequence or later cancels it
/// (unless it already is, at that sequence); otherwise a full import that
/// covers the event's date but no longer carries it marks it missing
/// (unless cancelled or already missing).
pub open spec fn stored_step_of(e: Event, f: Feed, carried: bool) -> StoredStep {
    match cancellation_of(f, e.uid@, e.original@) {
        Some(s) => if s < e.sequence || (e.status == EventStatus::Cancelled && s == e.sequence) {
            StoredStep::Keep
        } else {
            StoredStep::Cancel(s)
        },
        None => if !f.cancellations_only && !carried && !lex_lt(e.start.date@, f.from@) && !lex_lt(
            f.through@,
            e.start.date@,
        ) && e.status != EventStatus::Cancelled && e.status != EventStatus::Missing {
            StoredStep::Missing
        } else {
            StoredStep::Keep
        },
    }
}

/// Decides what becomes of a stored event after an import; `carried` tells
/// whether the import carried it.
pub fn stored_step(e: &Event, f: &Feed, carried: bool) -> (r: StoredStep)
    ensures
        r == stored_step_of(*e, *f, carried),
{
    let series = series_lookup(&f.cancelled_series, e.uid.as_str());
    let instance = instance_lookup(&f.cancelled_instances, e.uid.as_str(), e.original.as_str());
    let cancellation = match (series, instance) {
        (Some(a), Some(b)) => Some(if a > b {
            a
        } else {
            b
        }),
        (Some(a), None) => Some(a),
        (None, b) => b,
    };
    match cancellation {
        Some(s) => {
            if s < e.sequence || (e.status == EventStatus::Cancelled && s == e.sequence) {
                StoredStep::Keep
            } else {
                StoredStep::Cancel(s)
            }
        },
        None => {
            if !f.cancellations_only && !carried && !str_less(e.start.date.as_str(), f.from.as_str())
                && !str_less(f.through.as_str(), e.start.date.as_str()) && e.status
                != EventStatus::Cancelled && e.status != EventStatus::Missing {
                StoredStep::Missing
            } else {
                StoredStep::Keep
            }
        },
    }
}

/// Imports never delete: a stored event the feed does not carry is only
/// ever kept, cancelled at a sequence no older than its own, or marked
/// missing, and it is marked missing only by an import that is not limited
/// to cancellations and whose window covers its date.
pub proof fn law_import_never_deletes(e: Event, f: Feed, carried: bool)
    ensures
        stored_step_of(e, f, carried) matches StoredStep::Cancel(s) ==> s >= e.sequence,
        stored_step_of(e, f, carried) is Missing ==> !f.cancellations_only && !carried && !lex_lt(
            e.start.date@,
            f.from@,
        ) && !lex_lt(f.through@, e.start.date@),
{
}


/// The identity under which an import files one of its events.
pub open spec fn imported_id(source: Seq<char>, e: Event) -> Seq<char> {
    uuid_v5(source, event_name(e.uid@, e.original@))
}

/// One write an import makes for an event it carries: the event's identity,
/// its position in the feed, and whether it is new.
pub struct EventWrite {
    pub id: String,
    pub index: usize,
    pub insert: bool,
}

/// A write as plain values.
pub open spec fn write_view(w: EventWrite) -> (Seq<char>, int, bool) {
    (w.id@, w.index as int, w.insert)
}

/// The feed position of the latest write under an identity, if any.
pub open spec fn last_written(ws: Seq<(Seq<char>, int, bool)>, id: Seq<char>) -> Option<int>
    decreases ws.len(),
{
    if ws.len() == 0 {
        None
    } else if ws.last().0 == id {
        Some(ws.last().1)
    } else {
        last_written(ws.drop_last(), id)
    }
}

/// The writes an import makes for the first `n` events it carries, in
/// order. Each event is weighed (see `import_step_of`) against what its
/// identity holds by then: an earlier write of this import, else what was
/// stored (`stored`, one entry per event).
pub open spec fn import_plan(
    source: Seq<char>,
    events: Seq<Event>,
    stored: Seq<Option<Event>>,
    n: int,
) -> Seq<(Seq<char>, int, bool)>
    decreases n,
{
    if n <= 0 {
        Seq::empty()
    } else {
        let ws = import_plan(source, events, stored, n - 1);
        let i = n - 1;
        let id = imported_id(source, events[i]);
        let prev = match last_written(ws, id) {
            Some(j) => Some(events[j]),
            None => stored[i],
        };
        match import_step_of(prev, events[i]) {
            ImportStep::Keep => ws,
            ImportStep::Update => ws.push((id, i, false)),
            ImportStep::Insert => ws.push((id, i, true)),
        }
    }
}

proof fn lemma_import_plan_bounds(source: Seq<char>, events: Seq<Event>, stored: Seq<Option<Event>>, n: int)
    requires
        0 <= n,
    ensures
        forall|k: int| 0 <= k < import_plan(source, events, stored, n).len() ==> 0 <= (#[trigger] import_plan(source, events, stored, n)[k]).1 < n,
    decreases n,
{
    if n > 0 {
        lemma_import_plan_bounds(source, events, stored, n - 1);
        let ws = import_plan(source, events, stored, n - 1);
        let now = import_plan(source, events, stored, n);
        assert forall|k: int| 0 <= k < now.len() implies 0 <= (#[trigger] now[k]).1 < n by {
            if k < ws.len() {
                assert(now[k] == ws[k]);
            }
        }
    }
}

proof fn lemma_last_written_bound(ws: Seq<(Seq<char>, int, bool)>, id: Seq<char>, n: int)
    requires
        forall|k: int| 0 <= k < ws.len() ==> 0 <= (#[trigger] ws[k]).1 < n,
    ensures
        last_written(ws, id) matches Some(j) ==> 0 <= j < n,
    decreases ws.len(),
{
    if ws.len() > 0 {
        assert(ws.last() == ws[ws.len() - 1]);
        lemma_last_written_bound(ws.drop_last(), id, n);
    }
}

/// Finds the latest write under an identity.
fn latest_write(ws: &Vec<EventWrite>, id: &str) -> (r: Option<usize>)
    ensures
        r matches Some(j) ==> last_written(ws@.map_values(|w: EventWrite| write_view(w)), id@) == Some(j as int),
        r is None ==> last_written(ws@.map_values(|w: EventWrite| write_view(w)), id@) is None,
{
    let ghost all = ws@.map_values(|w: EventWrite| write_view(w));
    let mut k: usize = ws.len();
    assert(all.take(k as int) =~= all);
    while k > 0
        invariant
            k <= ws@.len(),
            all == ws@.map_values(|w: EventWrite| write_view(w)),
            last_written(all, id@) == last_written(all.take(k as int), id@),
        decreases k,
    {
        let ghost t = all.take(k as int);
        assert(t.last() == all[k - 1]);
        assert(t.drop_last() =~= all.take(k - 1));
        if str_eq(ws[k - 1].id.as_str(), id) {
            return Some(ws[k - 1].index);
        }
        k = k - 1;
    }
    assert(all.take(0) =~= Seq::<(Seq<char>, int, bool)>::empty());
    None
}

/// Plans the writes an import makes for the events it carries, in feed
/// order; `stored` holds, for each of them, what its identity held before
/// the import. The identities of all carried events come with the plan.
/// The source must be a canonical UUID when the feed carries any event.
pub fn import_writes(source: &str, feed: &Feed, stored: &[Option<Event>]) -> (r: Result<
    (Vec<EventWrite>, Vec<String>),
    ErrorCode,
>)
    requires
        stored@.len() == feed.events@.len(),
    ensures
        r is Err <==> feed.events@.len() > 0 && !is_canonical_uuid(source@),
        r matches Err(e) ==> e == ErrorCode::InvalidValue,
        r matches Ok((ws, ids)) ==> {
            &&& ws@.map_values(|w: EventWrite| write_view(w)) == import_plan(
                source@,
                feed.events@,
                stored@,
                feed.events@.len() as int,
            )
            &&& ids@.len() == feed.events@.len()
            &&& forall|i: int| 0 <= i < ids@.len() ==> (#[trigger] ids@[i])@ == imported_id(source@, feed.events@[i])
        },
{
    let n = feed.events.len();
    let mut ws: Vec<EventWrite> = Vec::new();
    let mut ids: Vec<String> = Vec::new();
    let mut i: usize = 0;
    while i < n
        invariant
            n == feed.events@.len(),
            stored@.len() == n,
            i <= n,
            i > 0 ==> is_canonical_uuid(source@),
            ws@.map_values(|w: EventWrite| write_view(w)) == import_plan(source@, feed.events@, stored@, i as int),
            ids@.len() == i,
            forall|k: int| 0 <= k < i ==> (#[trigger] ids@[k])@ == imported_id(source@, feed.events@[k]),
        decreases n - i,
    {
        let e = &feed.events[i];
        let id = match event_id(source, e.uid.as_str(), e.original.as_str()) {
            Ok(id) => id,
            Err(err) => return Err(err),
        };
        let ghost before = ws@.map_values(|w: EventWrite| write_view(w));
        proof {
            lemma_import_plan_bounds(source@, feed.events@, stored@, i as int);
            lemma_last_written_bound(before, id@, i as int);
        }
        let prev: Option<&Event> = match latest_write(&ws, id.as_str()) {
            Some(j) => Some(&feed.events[j]),
            None => match &stored[i] {
                Some(p) => Some(p),
                None => None,
            },
        };
        let step = import_step(prev, e);
        match step {
            ImportStep::Keep => {},
            ImportStep::Update => {
                ws.push(EventWrite { id: id.clone(), index: i, insert: false });
            },
            ImportStep::Insert => {
                ws.push(EventWrite { id: id.clone(), index: i, insert: true });
            },
        }
        proof {
            assert(ws@.map_values(|w: EventWrite| write_view(w)) =~= import_plan(source@, feed.events@, stored@, i + 1));
        }
        ids.push(id);
        i = i + 1;
    }
    Ok((ws, ids))
}


/// Whether `ids` holds the identity `id`.
pub open spec fn holds_id(ids: Seq<String>, id: Seq<char>) -> bool {
    exists|i: int| 0 <= i < ids.len() && (#[trigger] ids[i])@ == id
}

/// The stored events, among the first `n` of `existing`, that an import
/// settles, each with what becomes of it (see `stored_step_of`), in order;
/// `carried` holds the identities of the events the import carries.
pub open spec fn settle_plan(f: Feed, carried: Seq<String>, existing: Seq<(String, Event)>, n: int) -> Seq<
    (int, StoredStep),
>
    decreases n,
{
    if n <= 0 {
        Seq::empty()
    } else {
        let ps = settle_plan(f, carried, existing, n - 1);
        let k = n - 1;
        let step = stored_step_of(existing[k].1, f, holds_id(carried, existing[k].0@));
        if step is Keep {
            ps
        } else {
            ps.push((k, step))
        }
    }
}

fn holds_id_exec(ids: &[String], id: &str) -> (r: bool)
    ensures
        r == holds_id(ids@, id@),
{
    let mut i: usize = 0;
    while i < ids.len()
        invariant
            i <= ids@.len(),
            forall|k: int| 0 <= k < i ==> (#[trigger] ids@[k])@ != id@,
        decreases ids.len() - i,
    {
        if str_eq(ids[i].as_str(), id) {
            return true;
        }
        i = i + 1;
    }
    false
}

/// Plans what an import does to the events its source held before it
/// (`existing`, by identity), given the identities of the events it
/// carries: the positions of those that change, with their steps, in order.
pub fn settle_writes(feed: &Feed, carried: &[String], existing: &[(String, Event)]) -> (r: Vec<(usize, StoredStep)>)
    ensures
        r@.map_values(|p: (usize, StoredStep)| (p.0 as int, p.1)) == settle_plan(
            *feed,
            carried@,
            existing@,
            existing@.len() as int,
        ),
{
    let mut out: Vec<(usize, StoredStep)> = Vec::new();
    let mut k: usize = 0;
    while k < existing.len()
        invariant
            k <= existing@.len(),
            out@.map_values(|p: (usize, StoredStep)| (p.0 as int, p.1)) == settle_plan(*feed, carried@, existing@, k as int),
        decreases existing.len() - k,
    {
        let carried_now = holds_id_exec(carried, existing[k].0.as_str());
        let step = stored_step(&existing[k].1, feed, carried_now);
        match step {
            StoredStep::Keep => {},
            _ => {
                out.push((k, step));
            },
        }
        proof {
            assert(out@.map_values(|p: (usize, StoredStep)| (p.0 as int, p.1)) =~= settle_plan(*feed, carried@, existing@, k + 1));
        }
        k = k + 1;
    }
    out
}

/// What a step makes of a stored event: a cancellation sets its status and
/// sequence, a missing mark its status; keeping leaves it as it is.
pub open spec fn settled(e: Event, step: StoredStep) -> Event {
    match step {
        StoredStep::Keep => e,
        StoredStep::Cancel(s) => Event { status: EventStatus::Cancelled, sequence: s, ..e },
        StoredStep::Missing => Event { status: EventStatus::Missing, ..e },
    }
}

/// Applies a step to a stored event.
pub fn settle(e: &mut Event, step: StoredStep)
    ensures
        *final(e) == settled(*old(e), step),
{
    match step {
        StoredStep::Keep => {},
        StoredStep::Cancel(s) => {
            e.status = EventStatus::Cancelled;
            e.sequence = s;
        },
        StoredStep::Missing => {
            e.status = EventStatus::Missing;
        },
    }
}


/// What a commit finds of its source: whether it is archived, the
/// generation last begun and until when its lease holds.
pub struct SourceRow {
    pub archived: bool,
    pub generation: i64,
    pub lease_until: i64,
}

/// How a refresh's commit goes on.
#[derive(Clone, Copy, Debug, PartialEq, Eq, Structural)]
pub enum RefreshStart {
    /// The receipt was stored already: answer with its revision.
    Replayed(i64),
    /// Write the import and the source's new health.
    Commit,
}

/// How a refresh's commit begins. A receipt, if given, names its operation
/// by a canonical UUID and replays the stored revision when its digest
/// matches (any other digest conflicts). Otherwise the source, as read by
/// the caller (`source`, or the error its reading met), must not be
/// archived; the commit must hold the generation it began with while its
/// lease lasts, else the refresh is stale; a reported failure must be a
/// known one; and an imported window (of `imported` events) comes with no
/// failure and at most 2048 events.
pub open spec fn refresh_start_of(
    receipt: Option<(Seq<char>, Seq<char>)>,
    stored: Option<(Seq<char>, i64)>,
    source: Result<SourceRow, ErrorCode>,
    generation: i64,
    now: i64,
    failure: Option<Seq<char>>,
    imported: Option<int>,
) -> Result<RefreshStart, ErrorCode> {
    let replayed = match receipt {
        None => Ok(None),
        Some((op, hash)) => if !is_canonical_uuid(op) {
            Err(ErrorCode::InvalidValue)
        } else {
            replay_plain_of(stored, hash)
        },
    };
    match replayed {
        Err(e) => Err(e),
        Ok(Some(revision)) => Ok(RefreshStart::Replayed(revision)),
        Ok(None) => match source {
            Err(e) => Err(e),
            Ok(row) => if row.archived {
                Err(ErrorCode::InvalidValue)
            } else if !(row.generation == generation && row.lease_until > now) {
                Err(ErrorCode::StaleRefresh)
            } else if failure matches Some(f) && !failure_ok(f) {
                Err(ErrorCode::InvalidValue)
            } else if imported matches Some(n) && (failure is Some || n > MAX_IMPORTED) {
                Err(ErrorCode::InvalidValue)
            } else {
                Ok(RefreshStart::Commit)
            },
        },
    }
}

/// Decides how a refresh's commit begins (see `refresh_start_of`); `stored`
/// is the receipt stored under the given operation, if any.
pub fn refresh_commit_step(
    receipt: Option<(&str, &str)>,
    stored: Option<(String, i64)>,
    source: Result<SourceRow, ErrorCode>,
    generation: i64,
    now: i64,
    failure: Option<&str>,
    feed: Option<&Feed>,
) -> (r: Result<RefreshStart, ErrorCode>)
    ensures
        r == refresh_start_of(
            match receipt {
                Some((op, hash)) => Some((op@, hash@)),
                None => None,
            },
            match stored {
                Some((p, v)) => Some((p@, v)),
                None => None,
            },
            source,
            generation,
            now,
            match failure {
                Some(f) => Some(f@),
                None => None,
            },
            match feed {
                Some(f) => Some(f.events@.len() as int),
                None => None,
            },
        ),
{
    if let Some((operation, hash)) = receipt {
        if crate::identifier(operation).is_err() {
            return Err(ErrorCode::InvalidValue);
        }
        match crate::receipts::replay_plain(stored, hash) {
            Err(e) => return Err(e),
            Ok(Some(revision)) => return Ok(RefreshStart::Replayed(revision)),
            Ok(None) => {},
        }
    }
    let row = match source {
        Ok(row) => row,
        Err(e) => return Err(e),
    };
    if row.archived {
        return Err(ErrorCode::InvalidValue);
    }
    if let Err(e) = check_lease(row.generation, generation, row.lease_until, now) {
        return Err(e);
    }
    if let Err(e) = check_failure(failure) {
        return Err(e);
    }
    if let Some(f) = feed {
        if let Err(e) = check_import(failure.is_some(), f.events.len()) {
            return Err(e);
        }
    }
    Ok(RefreshStart::Commit)
}

/// A stale refresh writes nothing: once past its receipt, a commit whose
/// source has begun another generation, or whose lease has run out, is
/// refused as stale, whatever it carries.
pub proof fn law_stale_refresh_writes_nothing(
    source: SourceRow,
    generation: i64,
    now: i64,
    failure: Option<Seq<char>>,
    imported: Option<int>,
)
    requires
        !source.archived,
        source.generation != generation || source.lease_until <= now,
    ensures
        refresh_start_of(None, None, Ok(source), generation, now, failure, imported) == Err::<RefreshStart, ErrorCode>(
            ErrorCode::StaleRefresh,
        ),
{
}

} // verus!
