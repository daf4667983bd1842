//! Anchors: tasks whose slots follow calendar events or dates of people.
use vstd::prelude::*;
use crate::calendars::ics::EventTime;
use crate::error::ErrorCode;
use crate::tasks::definition::Definition;
use crate::tasks::schedule::Slot;
use crate::text::byte_len;
use crate::time::{
    CivilDate, MAX_DAY, MAX_SECOND, MIN_DAY, MIN_SECOND, chrono_hms, chrono_ymd, date_from_day_number,
    day_number, day_number_exec, iso_clock, iso_clock_exec, iso_date, iso_date_exec, parse_hms,
    parse_ymd, resolve, resolve_wall, tz_known, tz_wall_time, valid_date, zone_known, zone_name,
    zone_wall_time,
};

verus! {

/// What an anchored task follows.
pub enum Reference {
    EventSeries { source_id: String, uid: String },
    PersonDate { field_id: String, annual: bool },
}

/// How far an anchored slot lies from its reference.
pub enum Offset {
    CalendarDays { days: i32, time: Option<String> },
    ElapsedSeconds { seconds: i64 },
}

/// The binding of a task to a reference.
pub struct Anchor {
    pub reference: Reference,
    pub offset: Offset,
    pub weekdays: Vec<u32>,
    pub title_contains: Option<String>,
}

/// The identity of the referenced resource.
pub open spec fn reference_id_of(a: Anchor) -> Seq<char> {
    match a.reference {
        Reference::EventSeries { source_id, .. } => source_id@,
        Reference::PersonDate { field_id, .. } => field_id@,
    }
}

/// An anchor the rules accept: a canonical reference identity, at most seven
/// weekdays from 1 to 7, a title filter of 1 to 100 bytes, a day offset of
/// at most a year with an exact `HH:MM:SS` time, an elapsed offset of at
/// most 366 days, and an event UID of 1 to 512 bytes.
pub open spec fn anchor_valid(a: Anchor) -> bool {
    &&& crate::is_canonical_uuid(reference_id_of(a))
    &&& a.weekdays@.len() <= 7
    &&& forall|i: int| 0 <= i < a.weekdays@.len() ==> 1 <= #[trigger] a.weekdays@[i] <= 7
    &&& (a.title_contains is Some ==> 0 < byte_len(a.title_contains->Some_0@) <= 100)
    &&& match a.offset {
        Offset::CalendarDays { days, time } => -366 <= days <= 366 && (time is Some ==> chrono_hms(
            time->Some_0@,
        ) is Some && byte_len(time->Some_0@) == 8),
        Offset::ElapsedSeconds { seconds } => -31622400 <= seconds <= 31622400,
    }
    &&& (a.reference matches Reference::EventSeries { uid, .. } ==> 0 < byte_len(uid@)
        <= 512)
}

impl Anchor {
    /// The identity of the referenced resource.
    pub fn reference_id(&self) -> (r: &str)
        ensures
            r@ == reference_id_of(*self),
    {
        match &self.reference {
            Reference::EventSeries { source_id, .. } => source_id.as_str(),
            Reference::PersonDate { field_id, .. } => field_id.as_str(),
        }
    }

    /// Accepts the anchors described by `anchor_valid`.
    pub fn validate(&self) -> (r: Result<(), ErrorCode>)
        ensures
            r is Ok <==> anchor_valid(*self),
            r matches Err(e) ==> e == ErrorCode::InvalidValue,
    {
        if crate::identifier(self.reference_id()).is_err() {
            return Err(ErrorCode::InvalidValue);
        }
        if self.weekdays.len() > 7 {
            return Err(ErrorCode::InvalidValue);
        }
        let mut i: usize = 0;
        while i < self.weekdays.len()
            invariant
                i <= self.weekdays@.len(),
                forall|k: int| 0 <= k < i ==> 1 <= #[trigger] self.weekdays@[k] <= 7,
            decreases self.weekdays.len() - i,
        {
            if self.weekdays[i] < 1 || self.weekdays[i] > 7 {
                return Err(ErrorCode::InvalidValue);
            }
            i = i + 1;
        }
        if let Some(v) = &self.title_contains {
            if v.as_str().len() == 0 || v.as_str().len() > 100 {
                return Err(ErrorCode::InvalidValue);
            }
        }
        match &self.offset {
            Offset::CalendarDays { days, time } => {
                if *days < -366 || *days > 366 {
                    return Err(ErrorCode::InvalidValue);
                }
                if let Some(t) = time {
                    if parse_hms(t.as_str()).is_none() || t.as_str().len() != 8 {
                        return Err(ErrorCode::InvalidValue);
                    }
                }
            },
            Offset::ElapsedSeconds { seconds } => {
                if *seconds < -31622400 || *seconds > 31622400 {
                    return Err(ErrorCode::InvalidValue);
                }
            },
        }
        if let Reference::EventSeries { uid, .. } = &self.reference {
            if uid.as_str().len() == 0 || uid.as_str().len() > 512 {
                return Err(ErrorCode::InvalidValue);
            }
        }
        Ok(())
    }
}

/// The day and second of the day of a wall time.
pub open spec fn wall_day(w: int) -> int {
    w / 86400
}

/// Where an anchored slot lands: its day number, its wall-clock time and,
/// when it has a time, its instant. A day offset moves the reference's day
/// (in the task's zone when the reference has an instant) and keeps the
/// anchor's time, else the reference's wall time; an elapsed offset moves
/// the reference's instant. Times outside chrono's range are invalid values.
pub open spec fn shifted_plan(time: EventTime, offset: Offset, zone: Seq<char>) -> Result<
    (int, Option<Seq<char>>, Option<int>),
    ErrorCode,
> {
    let moved: Result<(int, Option<Seq<char>>), ErrorCode> = match offset {
        Offset::CalendarDays { days, time: clock } => {
            if time.instant is Some && !crate::time::wall_in_range(zone, time.instant->Some_0 as int) {
                Err(ErrorCode::InvalidValue)
            } else {
                let base: Option<int> = if time.instant is Some {
                    Some(wall_day(tz_wall_time(zone, time.instant->Some_0 as int)))
                } else if chrono_ymd(time.date@) is Some {
                    Some(day_number(chrono_ymd(time.date@)->Some_0))
                } else {
                    None
                };
                if base is None || !(MIN_DAY <= base->Some_0 + days <= MAX_DAY) {
                    Err(ErrorCode::InvalidValue)
                } else {
                    Ok(
                        (
                            base->Some_0 + days,
                            if clock is Some {
                                Some(clock->Some_0@)
                            } else if time.instant is Some {
                                Some(
                                    iso_clock(
                                        tz_wall_time(zone, time.instant->Some_0 as int) % 86400,
                                    ),
                                )
                            } else {
                                None
                            },
                        ),
                    )
                }
            }
        },
        Offset::ElapsedSeconds { seconds } => {
            if time.instant is None {
                Err(ErrorCode::InvalidValue)
            } else {
                let t = time.instant->Some_0 + seconds;
                if !(i64::MIN <= t <= i64::MAX) || !crate::time::wall_in_range(zone, t) {
                    Err(ErrorCode::InvalidValue)
                } else {
                    let w = tz_wall_time(zone, t);
                    if !(MIN_DAY <= wall_day(w) <= MAX_DAY) {
                        Err(ErrorCode::InvalidValue)
                    } else {
                        Ok((wall_day(w), Some(iso_clock(w % 86400))))
                    }
                }
            }
        },
    };
    match moved {
        Err(e) => Err(e),
        Ok((day, clock)) => if clock is None {
            Ok((day, clock, None))
        } else {
            match chrono_hms(clock->Some_0) {
                None => Err(ErrorCode::InvalidValue),
                Some((s, _)) => match resolve_wall(zone, day * 86400 + s) {
                    Some(i) => Ok((day, clock, Some(i))),
                    None => Err(ErrorCode::InvalidValue),
                },
            }
        },
    }
}

/// Day and second of the day of a wall time in chrono's range.
fn split_wall(w: i64) -> (r: (i64, u32))
    requires
        MIN_SECOND - 86400 * 400 <= w <= MAX_SECOND + 86400 * 400,
    ensures
        r.0 == wall_day(w as int),
        r.1 == w % 86400,
        MIN_DAY - 401 <= r.0 <= MAX_DAY + 401,
{
    let shifted: i64 = w + 100_000_000 * 86400;
    let day = shifted / 86400 - 100_000_000;
    let second = (shifted % 86400) as u32;
    assert(day == wall_day(w as int) && second == w % 86400) by (nonlinear_arith)
        requires
            shifted == w + 100_000_000 * 86400,
            shifted >= 0,
            day == shifted / 86400 - 100_000_000,
            second == shifted % 86400,
    ;
    (day, second)
}

/// The slot an anchored reference yields (see `shifted_plan`).
pub fn shifted(time: &EventTime, anchor: &Anchor, definition: &Definition, key: &str) -> (r: Result<
    Slot,
    ErrorCode,
>)
    ensures
        !tz_known(definition.schedule.timezone@) ==> r == Err::<Slot, ErrorCode>(ErrorCode::InvalidValue),
        tz_known(definition.schedule.timezone@) ==> match (
            shifted_plan(*time, anchor.offset, definition.schedule.timezone@),
            r,
        ) {
            (Ok((day, clock, instant)), Ok(slot)) => {
                &&& slot.key@ == key@
                &&& slot.date is Some
                &&& (exists|d: CivilDate|
                    valid_date(d) && day_number(d) == day && #[trigger] iso_date(d)
                        == slot.date->Some_0@)
                &&& crate::tasks::schedule::opt_text(slot.intended_time) == clock
                &&& slot.timezone@ == definition.schedule.timezone@
                &&& match (instant, slot.instant) {
                    (Some(a), Some(b)) => a == b,
                    (None, None) => true,
                    _ => false,
                }
            },
            (Err(a), Err(b)) => a == b,
            _ => false,
        },
{
    let zone = definition.schedule.timezone.as_str();
    if !zone_known(zone) {
        return Err(ErrorCode::InvalidValue);
    }
    let (day, clock): (i64, Option<String>) = match &anchor.offset {
        Offset::CalendarDays { days, time: clock } => {
            let local: Option<i64> = match time.instant {
                Some(v) => match zone_wall_time(zone, v) {
                    Some(w) => Some(w),
                    None => return Err(ErrorCode::InvalidValue),
                },
                None => None,
            };
            let base: i64 = match local {
                Some(w) => split_wall(w).0,
                None => match parse_ymd(time.date.as_str()) {
                    Some(d) => {
                        proof {
                            crate::time::lemma_day_number_range(d);
                        }
                        day_number_exec(d)
                    },
                    None => return Err(ErrorCode::InvalidValue),
                },
            };
            let n = base + *days as i64;
            if n < MIN_DAY || n > MAX_DAY {
                return Err(ErrorCode::InvalidValue);
            }
            let c: Option<String> = match clock {
                Some(c) => Some(c.clone()),
                None => match local {
                    Some(w) => Some(iso_clock_exec(split_wall(w).1)),
                    None => None,
                },
            };
            (n, c)
        },
        Offset::ElapsedSeconds { seconds } => {
            let v = match time.instant {
                Some(v) => v,
                None => return Err(ErrorCode::InvalidValue),
            };
            let t = match v.checked_add(*seconds) {
                Some(t) => t,
                None => return Err(ErrorCode::InvalidValue),
            };
            let w = match zone_wall_time(zone, t) {
                Some(w) => w,
                None => return Err(ErrorCode::InvalidValue),
            };
            let (d, s) = split_wall(w);
            if d < MIN_DAY || d > MAX_DAY {
                return Err(ErrorCode::InvalidValue);
            }
            (d, Some(iso_clock_exec(s)))
        },
    };
    let date = match date_from_day_number(day) {
        Some(d) => d,
        None => return Err(ErrorCode::InvalidValue),
    };
    let instant: Option<i64> = match &clock {
        Some(c) => match parse_hms(c.as_str()) {
            Some((s, _)) => match resolve(zone, day * 86400 + s as i64) {
                Ok(i) => Some(i),
                Err(e) => return Err(e),
            },
            None => return Err(ErrorCode::InvalidValue),
        },
        None => None,
    };
    let date_text = iso_date_exec(date);
    let slot = Slot {
        key: key.to_owned(),
        date: Some(date_text),
        intended_time: clock,
        timezone: zone_name(zone),
        instant,
    };
    proof {
        assert(iso_date(date) == slot.date->Some_0@);
    }
    Ok(slot)
}

} // verus!
