//! Timed work: sessions that measure seconds towards a goal. An account has
//! at most one running session, across all tasks and devices.
use vstd::prelude::*;
use crate::error::ErrorCode;
use crate::tasks::decimal::{Decimal, render_nat, render_nat_exec};
use crate::tasks::goals::{Evidence, Goal};
use crate::tasks::service::{TaskCommand, uuid_v5, uuid_v5_text};
use crate::text::{str_eq, string_from_chars};
use crate::time::{MAX_SECOND, MIN_SECOND};
use crate::is_canonical_uuid;

verus! {

/// The longest session, in seconds: a week.
pub const MAX_SESSION: i64 = 604800;

/// Timers measure goals counted in seconds, on occurrences no chore covers.
pub open spec fn timer_goal(goal: Goal, covered: bool) -> bool {
    &&& goal matches Goal::Numeric { unit, .. } && unit@ == "seconds"@
    &&& !covered
}

/// Accepts an occurrence for timing.
pub fn check_timer_goal(goal: &Goal, covered: bool) -> (r: Result<(), ErrorCode>)
    ensures
        r is Ok <==> timer_goal(*goal, covered),
        r matches Err(e) ==> e == ErrorCode::InvalidValue,
{
    let seconds = match goal {
        Goal::Numeric { unit, .. } => str_eq(unit.as_str(), "seconds"),
        _ => false,
    };
    if seconds && !covered {
        Ok(())
    } else {
        Err(ErrorCode::InvalidValue)
    }
}

/// A session starts at a representable instant at most five minutes ahead
/// of the server clock, and not before the occurrence opens.
pub fn check_start(started_at: i64, now: i64, opens_at: Option<i64>) -> (r: Result<(), ErrorCode>)
    requires
        now <= i64::MAX - 300,
    ensures
        r is Ok <==> started_at <= now + 300 && MIN_SECOND <= started_at <= MAX_SECOND && (
        opens_at matches Some(v) ==> started_at >= v),
        r matches Err(e) ==> e == ErrorCode::InvalidValue,
{
    let opened = match opens_at {
        Some(v) => started_at >= v,
        None => true,
    };
    if started_at <= now + 300 && MIN_SECOND <= started_at && started_at <= MAX_SECOND && opened {
        Ok(())
    } else {
        Err(ErrorCode::InvalidValue)
    }
}

/// A running session is stopped at the version its owner saw (else
/// `Conflict`), after it started, at most five minutes ahead of the server
/// clock and at most a week after it started (else `InvalidValue`).
pub fn check_stop(version: i64, expected: i64, stopped: bool, started_at: i64, stopped_at: i64, now: i64) -> (r: Result<(), ErrorCode>)
    requires
        now <= i64::MAX - 300,
    ensures
        !(version == expected && !stopped) ==> r == Err::<(), ErrorCode>(ErrorCode::Conflict),
        version == expected && !stopped ==> (r is Ok <==> started_at < stopped_at <= now + 300
            && stopped_at - started_at <= MAX_SESSION),
        version == expected && !stopped ==> (r matches Err(e) ==> e == ErrorCode::InvalidValue),
{
    if !(version == expected && !stopped) {
        return Err(ErrorCode::Conflict);
    }
    if stopped_at > started_at && stopped_at <= now + 300 && (stopped_at as i128 - started_at as i128) <= MAX_SESSION as i128 {
        Ok(())
    } else {
        Err(ErrorCode::InvalidValue)
    }
}

/// A session as stored: when it started and, once stopped, when it stopped.
pub struct SessionSpan {
    pub started_at: i64,
    pub stopped_at: Option<i64>,
}

/// A session that is still running, or that was running at `at`.
pub open spec fn active_at(s: SessionSpan, at: i64) -> bool {
    match s.stopped_at {
        None => true,
        Some(stop) => s.started_at <= at && stop > at,
    }
}

/// How many sessions are running, or were running at `at`.
pub open spec fn active_count(ss: Seq<SessionSpan>, at: i64) -> nat
    decreases ss.len(),
{
    if ss.len() == 0 {
        0
    } else {
        active_count(ss.drop_last(), at) + if active_at(ss.last(), at) {
            1nat
        } else {
            0nat
        }
    }
}

/// How many sessions are running.
pub open spec fn running_count(ss: Seq<SessionSpan>) -> nat
    decreases ss.len(),
{
    if ss.len() == 0 {
        0
    } else {
        running_count(ss.drop_last()) + if ss.last().stopped_at is None {
            1nat
        } else {
            0nat
        }
    }
}

/// Counts an account's sessions that would overlap a session starting at
/// `at` (see `active_at`).
pub fn overlapping(ss: &[SessionSpan], at: i64) -> (n: usize)
    ensures
        n == active_count(ss@, at),
{
    let mut n: usize = 0;
    let mut i: usize = 0;
    while i < ss.len()
        invariant
            i <= ss@.len(),
            n == active_count(ss@.take(i as int), at),
            n <= i,
        decreases ss.len() - i,
    {
        assert(ss@.take(i + 1).drop_last() =~= ss@.take(i as int));
        let active = match ss[i].stopped_at {
            None => true,
            Some(stop) => ss[i].started_at <= at && stop > at,
        };
        if active {
            n = n + 1;
        }
        i = i + 1;
    }
    assert(ss@.take(i as int) =~= ss@);
    n
}

/// A session starts only when none overlaps it (else `Conflict`).
pub fn check_no_overlap(count: usize) -> (r: Result<(), ErrorCode>)
    ensures
        r is Ok <==> count == 0,
        r matches Err(e) ==> e == ErrorCode::Conflict,
{
    if count == 0 {
        Ok(())
    } else {
        Err(ErrorCode::Conflict)
    }
}

proof fn lemma_running_within_active(ss: Seq<SessionSpan>, at: i64)
    ensures
        running_count(ss) <= active_count(ss, at),
    decreases ss.len(),
{
    if ss.len() > 0 {
        lemma_running_within_active(ss.drop_last(), at);
    }
}

/// One running session per account: a session that starts only when no
/// session overlaps its start leaves exactly one session running.
pub proof fn law_one_running_session(ss: Seq<SessionSpan>, at: i64)
    requires
        active_count(ss, at) == 0,
    ensures
        running_count(ss.push(SessionSpan { started_at: at, stopped_at: None })) == 1,
{
    lemma_running_within_active(ss, at);
    assert(ss.push(SessionSpan { started_at: at, stopped_at: None }).drop_last() =~= ss);
}

/// The record a stopped session leaves: the seconds it measured, as
/// evidence identified by a version-5 UUID in the session's namespace,
/// dated when it stopped, by and for the timing account.
pub open spec fn timer_record_of(occurrence: String, actor: String, session: Seq<char>, started_at: i64, stopped_at: i64, c: TaskCommand) -> bool {
    match c {
        TaskCommand::Record {
            occurrence_id,
            subject_account_id,
            entry_id,
            evidence,
            replaces,
            expected_version,
            happened_at,
        } => {
            &&& occurrence_id == occurrence
            &&& subject_account_id == actor
            &&& entry_id@ == uuid_v5(session, "timer-duration-v1"@)
            &&& (evidence matches Evidence::Quantity { amount } && amount.0@ == render_nat(
                (stopped_at - started_at) as nat,
            ))
            &&& replaces is None
            &&& expected_version is None
            &&& happened_at == stopped_at
        },
        _ => false,
    }
}

/// Builds the record a stopped session leaves (see `timer_record_of`).
pub fn timer_record(occurrence: String, actor: String, session: &str, started_at: i64, stopped_at: i64) -> (r: TaskCommand)
    requires
        is_canonical_uuid(session@),
        started_at < stopped_at,
    ensures
        timer_record_of(occurrence, actor, session@, started_at, stopped_at, r),
{
    let seconds: u64 = (stopped_at as i128 - started_at as i128) as u64;
    let digits = render_nat_exec(seconds);
    let entry_id = uuid_v5_text(session, "timer-duration-v1");
    proof {
        reveal_strlit("timer-duration-v1");
    }
    TaskCommand::Record {
        occurrence_id: occurrence,
        subject_account_id: actor,
        entry_id,
        evidence: Evidence::Quantity { amount: Decimal(string_from_chars(digits.as_slice())) },
        replaces: None,
        expected_version: None,
        happened_at: stopped_at,
    }
}

} // verus!
