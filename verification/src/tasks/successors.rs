//! After-completion cadences: completion creates one durable successor,
//! dated a fixed number of days after the local date of completion.
use vstd::prelude::*;
use crate::error::ErrorCode;
use crate::tasks::definition::Carry;
use crate::tasks::goals::{Evidence, Goal, Outcome, Participation, aggregate, aggregate_outcome};
use crate::tasks::schedule::{Cadence, Frequency, Schedule, Slot, copy_opt, opt_text, schedule_valid};
use crate::text::{push_str, string_from_chars};
use crate::time::{
    local_day,
    CivilDate, MAX_DAY, MAX_SECOND, MIN_DAY, MIN_SECOND, clock_of_text, date_from_day_number,
    day_number, iso_date, iso_date_exec, parse_clock, resolve, resolve_wall, tz_wall_time,
    valid_date, zone_wall_time,
};

verus! {

/// What a pending after-completion occurrence leads to once its progress is
/// aggregated.
#[derive(Clone, Copy, Debug, PartialEq, Eq, Structural)]
pub enum SuccessorStep {
    /// Not complete yet: check again later.
    Wait,
    /// Missed for good: stop waiting, and issue no successor.
    Abandon,
    /// Complete: issue the successor, counting from this completion time.
    Issue(i64),
}

/// A missed completion-relative period waits for explicit evidence or a
/// correction, unless unfinished work closes (then nothing follows); a
/// complete one is counted from its latest shared evidence, if any.
pub open spec fn successor_step_of(outcome: Outcome, carry: Carry, latest: Option<i64>) -> SuccessorStep {
    if outcome != Outcome::Complete {
        if outcome == Outcome::Missed && carry == Carry::CloseIncomplete {
            SuccessorStep::Abandon
        } else {
            SuccessorStep::Wait
        }
    } else {
        match latest {
            Some(t) => SuccessorStep::Issue(t),
            None => SuccessorStep::Wait,
        }
    }
}

/// Decides what a pending after-completion occurrence leads to.
pub fn successor_step(outcome: Outcome, carry: Carry, latest: Option<i64>) -> (r: SuccessorStep)
    ensures
        r == successor_step_of(outcome, carry, latest),
{
    if outcome != Outcome::Complete {
        if outcome == Outcome::Missed && carry == Carry::CloseIncomplete {
            SuccessorStep::Abandon
        } else {
            SuccessorStep::Wait
        }
    } else {
        match latest {
            Some(t) => SuccessorStep::Issue(t),
            None => SuccessorStep::Wait,
        }
    }
}

/// Whether a goal has an upper bound, so that completion is only known when
/// its period closes.
pub open spec fn bounded_above(goal: Goal) -> bool {
    goal matches Goal::Numeric { maximum: Some(_), .. }
}

/// The instant a completion counts from: for a goal with an upper bound, no
/// earlier than the period's close.
pub open spec fn counted_completion(goal: Goal, completion: i64, closes_at: Option<i64>) -> i64 {
    if bounded_above(goal) {
        match closes_at {
            Some(c) => if c > completion {
                c
            } else {
                completion
            },
            None => completion,
        }
    } else {
        completion
    }
}

/// The instant a completion counts from.
pub fn completion_counted(goal: &Goal, completion: i64, closes_at: Option<i64>) -> (r: i64)
    ensures
        r == counted_completion(*goal, completion, closes_at),
{
    match goal {
        Goal::Numeric { maximum: Some(_), .. } => match closes_at {
            Some(c) => if c > completion {
                c
            } else {
                completion
            },
            None => completion,
        },
        _ => completion,
    }
}

/// The successor's date: `interval` days after the local date of the
/// completion, whose wall time chrono must be able to give, giving a date in the
/// calendar with a year from 1900 to 9999.
pub open spec fn successor_date(zone: Seq<char>, completion: int, interval: int) -> Option<CivilDate> {
    if !crate::time::wall_in_range(zone, completion) {
        None
    } else {
        let day = local_day(zone, completion) + interval;
        if !(MIN_DAY <= day <= MAX_DAY) {
            None
        } else {
            let d = choose|d: CivilDate| valid_date(d) && day_number(d) == day;
            if 1900 <= d.year <= 9999 {
                Some(d)
            } else {
                None
            }
        }
    }
}

/// The slot of the successor of `predecessor`: keyed `after:` and the
/// predecessor's identifier, dated by `successor_date`, at the schedule's
/// time of day (resolved in its zone) if it has one.
pub open spec fn successor_slot_of(s: Schedule, predecessor: Seq<char>, completion: int, interval: int, slot: Slot) -> bool {
    match successor_date(s.timezone@, completion, interval) {
        None => false,
        Some(d) => {
            &&& slot.key@ == "after:"@ + predecessor
            &&& slot.date is Some && slot.date->Some_0@ == iso_date(d)
            &&& opt_text(slot.intended_time) == opt_text(s.time)
            &&& slot.timezone@ == s.timezone@
            &&& slot.instant == if s.time is Some {
                Some(
                    resolve_wall(
                        s.timezone@,
                        day_number(d) * 86400 + clock_of_text(s.time->Some_0@)->Some_0,
                    )->Some_0 as i64,
                )
            } else {
                None::<i64>
            }
        },
    }
}

/// Whether the successor can be placed: its date exists and, for a timed
/// schedule, its wall time resolves in the zone.
pub open spec fn successor_placeable(s: Schedule, completion: int, interval: int) -> bool {
    match successor_date(s.timezone@, completion, interval) {
        None => false,
        Some(d) => s.time is Some ==> resolve_wall(
            s.timezone@,
            day_number(d) * 86400 + clock_of_text(s.time->Some_0@)->Some_0,
        ) is Some,
    }
}

/// The slot of the occurrence that follows `predecessor`, completed at
/// `completion` (see `counted_completion`), on a schedule repeating
/// `interval` days after completion. Refused with `InvalidValue` when the
/// successor cannot be placed.
pub fn successor_slot(s: &Schedule, predecessor: &str, completion: i64, interval: u16) -> (r: Result<
    Slot,
    ErrorCode,
>)
    requires
        schedule_valid(*s),
    ensures
        r is Ok <==> successor_placeable(*s, completion as int, interval as int),
        r matches Ok(slot) ==> successor_slot_of(
            *s,
            predecessor@,
            completion as int,
            interval as int,
            slot,
        ),
        r matches Err(e) ==> e == ErrorCode::InvalidValue,
{
    let zone = s.timezone.as_str();
    let wall = match zone_wall_time(zone, completion) {
        Some(w) => w,
        None => return Err(ErrorCode::InvalidValue),
    };
    let shifted: i64 = wall + 100_000_000 * 86400;
    let day: i64 = shifted / 86400 - 100_000_000 + interval as i64;
    assert(day == local_day(s.timezone@, completion as int) + interval);
    if day < MIN_DAY || day > MAX_DAY {
        return Err(ErrorCode::InvalidValue);
    }
    let d = match date_from_day_number(day) {
        Some(d) => d,
        None => return Err(ErrorCode::InvalidValue),
    };
    let ghost chosen = choose|c: CivilDate| valid_date(c) && day_number(c) == day;
    proof {
        crate::time::lemma_day_number_injective(d, chosen);
    }
    if d.year < 1900 || d.year > 9999 {
        return Err(ErrorCode::InvalidValue);
    }
    let instant = match &s.time {
        Some(t) => {
            let c = match parse_clock(t.as_str()) {
                Ok(c) => c,
                Err(e) => return Err(e),
            };
            match resolve(zone, day * 86400 + c as i64) {
                Ok(x) => Some(x),
                Err(e) => return Err(e),
            }
        },
        None => None,
    };
    let mut key: Vec<char> = Vec::new();
    push_str(&mut key, "after:");
    push_str(&mut key, predecessor);
    Ok(
        Slot {
            key: string_from_chars(key.as_slice()),
            date: Some(iso_date_exec(d)),
            intended_time: copy_opt(&s.time),
            timezone: s.timezone.clone(),
            instant,
        },
    )
}


/// The latest of the evidence times in the streams every reader shares
/// (`None` for a stream not shared), if any.
pub open spec fn latest_stamp(streams: Seq<Option<Vec<i64>>>) -> Option<i64>
    decreases streams.len(),
{
    if streams.len() == 0 {
        None
    } else {
        let rest = latest_stamp(streams.drop_last());
        match streams.last() {
            None => rest,
            Some(v) => later(rest, latest_in(v@)),
        }
    }
}

/// The latest of some times, if any.
pub open spec fn latest_in(v: Seq<i64>) -> Option<i64>
    decreases v.len(),
{
    if v.len() == 0 {
        None
    } else {
        later(latest_in(v.drop_last()), Some(v.last()))
    }
}

/// The later of two optional times.
pub open spec fn later(a: Option<i64>, b: Option<i64>) -> Option<i64> {
    match (a, b) {
        (Some(x), Some(y)) => Some(if x >= y { x } else { y }),
        (Some(x), None) => Some(x),
        (None, y) => y,
    }
}

/// The latest evidence time among the shared streams.
pub fn latest_evidence(streams: &[Option<Vec<i64>>]) -> (r: Option<i64>)
    ensures
        r == latest_stamp(streams@),
{
    let mut best: Option<i64> = None;
    let mut i: usize = 0;
    while i < streams.len()
        invariant
            i <= streams@.len(),
            best == latest_stamp(streams@.take(i as int)),
        decreases streams.len() - i,
    {
        assert(streams@.take(i + 1).drop_last() =~= streams@.take(i as int));
        assert(streams@.take(i + 1).last() == streams@[i as int]);
        match &streams[i] {
            None => {},
            Some(v) => {
                let ghost before = best;
                let mut inner: Option<i64> = None;
                let mut k: usize = 0;
                while k < v.len()
                    invariant
                        k <= v@.len(),
                        inner == latest_in(v@.take(k as int)),
                    decreases v.len() - k,
                {
                    assert(v@.take(k + 1).drop_last() =~= v@.take(k as int));
                    inner = match inner {
                        Some(x) => Some(if x >= v[k] { x } else { v[k] }),
                        None => Some(v[k]),
                    };
                    k = k + 1;
                }
                assert(v@.take(k as int) =~= v@);
                best = match (best, inner) {
                    (Some(x), Some(y)) => Some(if x >= y { x } else { y }),
                    (Some(x), None) => Some(x),
                    (None, y) => y,
                };
            },
        }
        i = i + 1;
    }
    assert(streams@.take(i as int) =~= streams@);
    best
}

/// What a touched occurrence leads to after its completion is weighed.
pub enum SuccessorPlan {
    /// Not an after-completion occurrence waiting for a successor: nothing.
    Skip,
    /// No successor will follow: stop waiting.
    Drop,
    /// Not complete yet: keep waiting.
    Wait,
    /// Issue the successor in this slot and stop waiting.
    Issue(Slot),
}

/// Whether a plan is what an occurrence leads to. Only an occurrence
/// without a successor, repeating after completion and not covered by
/// another, waits for one; an archived task stops the wait. Otherwise its
/// streams are aggregated (closed once `now` reaches the close), and the
/// step (see `successor_step_of`) decides; a successor is placed (see
/// `successor_slot_of`) `interval` days after the counted completion, or the
/// plan fails with `InvalidValue` where it cannot be placed.
pub open spec fn successor_plan_ok(
    has_successor: bool,
    repeat: Option<(Frequency, u16)>,
    covered: bool,
    archived: bool,
    goal: Goal,
    participation: Participation,
    carry: Carry,
    streams: Seq<Option<Vec<Evidence>>>,
    latest: Option<i64>,
    closes_at: Option<i64>,
    now: i64,
    s: Schedule,
    predecessor: Seq<char>,
    r: Result<SuccessorPlan, ErrorCode>,
) -> bool {
    if has_successor || !(repeat matches Some((f, _)) && f == Frequency::AfterCompletion) || covered {
        r matches Ok(p) && p is Skip
    } else if archived {
        r matches Ok(p) && p is Drop
    } else {
        let closed = closes_at matches Some(c) && now >= c;
        match aggregate_outcome(goal, participation, streams, closed) {
            Err(e) => r == Err::<SuccessorPlan, ErrorCode>(e),
            Ok(o) => match successor_step_of(o, carry, latest) {
                SuccessorStep::Wait => r matches Ok(p) && p is Wait,
                SuccessorStep::Abandon => r matches Ok(p) && p is Drop,
                SuccessorStep::Issue(t) => {
                    let c = counted_completion(goal, t, closes_at);
                    let interval = repeat->Some_0.1;
                    if successor_placeable(s, c as int, interval as int) {
                        r matches Ok(SuccessorPlan::Issue(slot)) && successor_slot_of(
                            s,
                            predecessor,
                            c as int,
                            interval as int,
                            slot,
                        )
                    } else {
                        r == Err::<SuccessorPlan, ErrorCode>(ErrorCode::InvalidValue)
                    }
                },
            },
        }
    }
}

/// Decides what a touched occurrence leads to (see `successor_plan_ok`):
/// `repeat` is its own cadence, `streams` the evidence every reader shares
/// (with `latest` its latest time, see `latest_evidence`), and `s` the
/// task's current schedule.
pub fn successor_plan(
    has_successor: bool,
    repeat: Option<&Cadence>,
    covered: bool,
    archived: bool,
    goal: &Goal,
    participation: Participation,
    carry: Carry,
    streams: &[Option<Vec<Evidence>>],
    latest: Option<i64>,
    closes_at: Option<i64>,
    now: i64,
    s: &Schedule,
    predecessor: &str,
) -> (r: Result<SuccessorPlan, ErrorCode>)
    requires
        schedule_valid(*s),
    ensures
        successor_plan_ok(
            has_successor,
            match repeat {
                Some(c) => Some((c.frequency, c.interval)),
                None => None,
            },
            covered,
            archived,
            *goal,
            participation,
            carry,
            streams@,
            latest,
            closes_at,
            now,
            *s,
            predecessor@,
            r,
        ),
{
    if has_successor {
        return Ok(SuccessorPlan::Skip);
    }
    let interval = match repeat {
        Some(c) => if c.frequency == Frequency::AfterCompletion {
            c.interval
        } else {
            return Ok(SuccessorPlan::Skip);
        },
        None => return Ok(SuccessorPlan::Skip),
    };
    if covered {
        return Ok(SuccessorPlan::Skip);
    }
    if archived {
        return Ok(SuccessorPlan::Drop);
    }
    let closed = match closes_at {
        Some(c) => now >= c,
        None => false,
    };
    let outcome = match aggregate(goal, participation, streams, closed) {
        Ok(o) => o,
        Err(e) => return Err(e),
    };
    match successor_step(outcome, carry, latest) {
        SuccessorStep::Wait => Ok(SuccessorPlan::Wait),
        SuccessorStep::Abandon => Ok(SuccessorPlan::Drop),
        SuccessorStep::Issue(t) => {
            let c = completion_counted(goal, t, closes_at);
            match successor_slot(s, predecessor, c, interval) {
                Ok(slot) => Ok(SuccessorPlan::Issue(slot)),
                Err(e) => Err(e),
            }
        },
    }
}

} // verus!
