//! Reading occurrences: which requests for a page are accepted, which
//! occurrences are actionable, which a page shows, and which periods a
//! streak counts.
use vstd::prelude::*;
use crate::error::ErrorCode;
use crate::tasks::definition::Carry;
use crate::tasks::goals::{Outcome, Participation};
use crate::tasks::service::ViewFilter;
use crate::text::str_eq;
use crate::time::{
    CivilDate, MAX_DAY, MAX_SECOND, MIN_SECOND, date_of_text, day_number, day_number_exec,
    iso_date, iso_date_exec, local_day, parse_date, resolve, resolve_wall, tz_known, valid_date,
    zone_known, zone_wall_time,
};

verus! {

/// The page size when a request names none.
pub const DEFAULT_PAGE: u16 = 50;

/// The optional text of a filter field.
pub open spec fn opt_text(o: Option<String>) -> Option<Seq<char>> {
    match o {
        Some(s) => Some(s@),
        None => None,
    }
}

/// The states a page may be filtered by.
pub open spec fn view_state_ok(s: Seq<char>) -> bool {
    s == "actionable"@ || s == "complete"@ || s == "missed"@ || s == "unknown"@ || s == "all"@
}

/// A page request the server accepts: a page of 1 to 200 (50 when unset),
/// a known state and scope, and a continuation only together with the
/// revision it continues.
pub open spec fn view_filter_ok(f: ViewFilter) -> bool {
    &&& 1 <= (match f.limit {
        Some(l) => l,
        None => DEFAULT_PAGE,
    }) <= 200
    &&& (opt_text(f.state) matches Some(s) ==> view_state_ok(s))
    &&& (f.after is Some ==> f.revision is Some)
    &&& (opt_text(f.scope) matches Some(s) ==> (s == "personal"@ || s == "joint"@))
}

/// Checks a page request; the page size it asks for on success.
pub fn check_view_filter(f: &ViewFilter) -> (r: Result<u16, ErrorCode>)
    ensures
        r is Ok <==> view_filter_ok(*f),
        r matches Ok(l) ==> l == (match f.limit {
            Some(l) => l,
            None => DEFAULT_PAGE,
        }),
        r matches Err(e) ==> e == ErrorCode::InvalidValue,
{
    let limit = match f.limit {
        Some(l) => l,
        None => DEFAULT_PAGE,
    };
    if limit < 1 || limit > 200 {
        return Err(ErrorCode::InvalidValue);
    }
    let state_ok = match &f.state {
        Some(s) => {
            let s = s.as_str();
            str_eq(s, "actionable") || str_eq(s, "complete") || str_eq(s, "missed") || str_eq(
                s,
                "unknown",
            ) || str_eq(s, "all")
        },
        None => true,
    };
    if !state_ok {
        return Err(ErrorCode::InvalidValue);
    }
    if f.after.is_some() && f.revision.is_none() {
        return Err(ErrorCode::InvalidValue);
    }
    let scope_ok = match &f.scope {
        Some(s) => str_eq(s.as_str(), "personal") || str_eq(s.as_str(), "joint"),
        None => true,
    };
    if !scope_ok {
        return Err(ErrorCode::InvalidValue);
    }
    Ok(limit)
}

/// What decides whether an occurrence is actionable for a reader.
pub struct ActionContext {
    /// The reader participates, or may join an occurrence anyone may help with.
    pub participant: bool,
    pub participation: Participation,
    pub can_edit: bool,
    pub resolved: bool,
    pub covered: bool,
    pub opens_at: Option<i64>,
    pub closes_at: Option<i64>,
    pub carry: Carry,
}

/// An occurrence is actionable for a reader who takes part in it (or may
/// join one anyone may help with) while it is unresolved, uncovered, open,
/// not closed where unfinished work closes, and neither complete nor
/// excluded.
pub open spec fn actionable_for(c: ActionContext, outcome: Outcome, now: i64) -> bool {
    &&& (c.participant || (c.participation == Participation::Anyone && c.can_edit))
    &&& !c.resolved
    &&& !c.covered
    &&& (c.opens_at matches Some(v) ==> v <= now)
    &&& (c.carry == Carry::CloseIncomplete ==> (c.closes_at matches Some(v) ==> now < v))
    &&& outcome != Outcome::Complete
    &&& outcome != Outcome::Excluded
}

/// Decides whether an occurrence is actionable for a reader.
pub fn actionable(c: &ActionContext, outcome: Outcome, now: i64) -> (r: bool)
    ensures
        r == actionable_for(*c, outcome, now),
{
    let opened = match c.opens_at {
        Some(v) => v <= now,
        None => true,
    };
    let still_open = match c.closes_at {
        Some(v) => now < v,
        None => true,
    };
    (c.participant || (c.participation == Participation::Anyone && c.can_edit)) && !c.resolved
        && !c.covered && opened && (c.carry != Carry::CloseIncomplete || still_open) && outcome
        != Outcome::Complete && outcome != Outcome::Excluded
}

/// Whether an occurrence matches a page's state filter (all when unset).
pub open spec fn state_matches(state: Option<Seq<char>>, actionable: bool, outcome: Outcome, period_outcome: Outcome) -> bool {
    match state {
        Some(s) => if s == "actionable"@ {
            actionable
        } else if s == "complete"@ {
            outcome == Outcome::Complete
        } else if s == "missed"@ {
            period_outcome == Outcome::Missed
        } else if s == "unknown"@ {
            outcome == Outcome::Unknown
        } else {
            true
        },
        None => true,
    }
}

/// Decides whether an occurrence matches a page's state filter.
pub fn matches_state(state: Option<&str>, actionable: bool, outcome: Outcome, period_outcome: Outcome) -> (r: bool)
    ensures
        r == state_matches(
            match state {
                Some(s) => Some(s@),
                None => None,
            },
            actionable,
            outcome,
            period_outcome,
        ),
{
    match state {
        Some(s) => if str_eq(s, "actionable") {
            actionable
        } else if str_eq(s, "complete") {
            outcome == Outcome::Complete
        } else if str_eq(s, "missed") {
            period_outcome == Outcome::Missed
        } else if str_eq(s, "unknown") {
            outcome == Outcome::Unknown
        } else {
            true
        },
        None => true,
    }
}

/// Whether a period counts towards a streak: it has opened, and it is
/// either closed or already observed (an open period that is still unknown,
/// incomplete or provisional cannot erase an established streak).
pub open spec fn streak_counts(opens_at: Option<i64>, closes_at: Option<i64>, now: i64, outcome: Outcome) -> bool {
    &&& !(opens_at matches Some(v) && v > now)
    &&& !((closes_at matches Some(v) ==> now < v) && (outcome == Outcome::Unknown || outcome
        == Outcome::Incomplete || outcome == Outcome::Provisional))
}

/// Decides whether a period counts towards a streak.
pub fn counts_for_streak(opens_at: Option<i64>, closes_at: Option<i64>, now: i64, outcome: Outcome) -> (r: bool)
    ensures
        r == streak_counts(opens_at, closes_at, now, outcome),
{
    let future = match opens_at {
        Some(v) => v > now,
        None => false,
    };
    let open = match closes_at {
        Some(v) => now < v,
        None => true,
    };
    !future && !(open && (outcome == Outcome::Unknown || outcome == Outcome::Incomplete || outcome
        == Outcome::Provisional))
}

/// Whether an occurrence belongs on a page for one day in a zone: it is
/// scheduled that day (its instant falls on that local date, or, untimed,
/// its date is that day), or it is actionable and opens before the day ends.
/// The zone must be known, the day an accepted date, and the end of the day
/// must resolve in the zone (else `InvalidValue`).
pub open spec fn day_view(instant: Option<i64>, date: Option<Seq<char>>, opens_at: Option<i64>, actionable: bool, day: Seq<char>, zone: Seq<char>) -> Result<bool, ErrorCode> {
    if !tz_known(zone) || date_of_text(day) is None {
        Err(ErrorCode::InvalidValue)
    } else {
        let d = date_of_text(day)->Some_0;
        let scheduled = match instant {
            Some(v) => crate::time::wall_in_range(zone, v as int) && local_day(zone, v as int) == day_number(d),
            None => date == Some(iso_date(d)),
        };
        match resolve_wall(zone, (day_number(d) + 1) * 86400) {
            None => Err(ErrorCode::InvalidValue),
            Some(end) => Ok(scheduled || ((opens_at matches Some(v) ==> v < end) && actionable)),
        }
    }
}

/// Decides whether an occurrence belongs on a page for one day (see
/// `day_view`).
pub fn on_day(instant: Option<i64>, date: Option<&str>, opens_at: Option<i64>, actionable: bool, day: &str, zone: &str) -> (r: Result<bool, ErrorCode>)
    ensures
        r == day_view(
            instant,
            match date {
                Some(t) => Some(t@),
                None => None,
            },
            opens_at,
            actionable,
            day@,
            zone@,
        ),
{
    let d = match parse_date(day) {
        Ok(d) => d,
        Err(e) => {
            return Err(e);
        },
    };
    if !zone_known(zone) {
        return Err(ErrorCode::InvalidValue);
    }
    proof {
        crate::time::lemma_day_number_bounds(d);
    }
    let n = day_number_exec(d);
    let scheduled = match instant {
        Some(v) => match zone_wall_time(zone, v) {
            Some(w) => {
                let local: i64 = (w + 100_000_000 * 86400) / 86400 - 100_000_000;
                assert(local == local_day(zone@, v as int));
                local == n
            },
            None => false,
        },
        None => match date {
            Some(t) => {
                let text = iso_date_exec(d);
                str_eq(t, text.as_str())
            },
            None => false,
        },
    };
    let end = match resolve(zone, (n + 1) * 86400) {
        Ok(end) => end,
        Err(e) => {
            return Err(e);
        },
    };
    let opened = match opens_at {
        Some(v) => v < end,
        None => true,
    };
    Ok(scheduled || (opened && actionable))
}

} // verus!
