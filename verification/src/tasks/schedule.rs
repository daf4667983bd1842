//! Schedules: when a task is intended, and the bounded expansion of its slots.
use vstd::prelude::*;
use crate::error::ErrorCode;
use crate::text::string_from_chars;
use crate::time::{
    CivilDate, MAX_DAY, MIN_DAY, accepted_clock, accepted_date, clock_of_text, lemma_day_number_range, date_from_day_number,
    date_from_ymd, date_of_text, day_number, day_number_exec, iso_clock, iso_date, iso_date_exec,
    parse_clock, parse_date, resolve, resolve_wall, tz_known, valid_date, zone_known,
};

verus! {

/// How a schedule repeats.
#[derive(Clone, Copy, Debug, PartialEq, Eq, Structural)]
pub enum Frequency {
    Daily,
    Weekly,
    Monthly,
    Yearly,
    AfterCompletion,
}

/// A repetition every `interval` periods of a frequency.
#[derive(Clone, Copy, Debug, PartialEq, Eq, Structural)]
pub struct Cadence {
    pub frequency: Frequency,
    pub interval: u16,
}

/// When a task is intended.
pub struct Schedule {
    /// None denotes a one-off undated inbox item.
    pub start_date: Option<String>,
    /// None is a date-only task; time is never inferred from the client.
    pub time: Option<String>,
    pub timezone: String,
    pub repeat: Option<Cadence>,
}

/// One intended slot of a schedule.
pub struct Slot {
    pub key: String,
    pub date: Option<String>,
    pub intended_time: Option<String>,
    pub timezone: String,
    pub instant: Option<i64>,
}

/// The text of an optional string.
pub open spec fn opt_text(o: Option<String>) -> Option<Seq<char>> {
    match o {
        Some(s) => Some(s@),
        None => None,
    }
}

/// A schedule the rules accept: a known zone, an accepted start date, a time
/// only with a start date, and a repetition only with a start date and an
/// interval from 1 to 366.
pub open spec fn schedule_valid(s: Schedule) -> bool {
    &&& tz_known(s.timezone@)
    &&& (s.start_date is Some ==> date_of_text(s.start_date->Some_0@) is Some)
    &&& (s.time is Some ==> s.start_date is Some && clock_of_text(s.time->Some_0@) is Some)
    &&& (s.repeat is Some ==> s.start_date is Some && 1 <= s.repeat->Some_0.interval <= 366)
}

/// The candidate a cadence yields at one index.
pub enum Candidate {
    /// No further candidates exist.
    Stop,
    /// The index arithmetic overflows.
    Overflow,
    /// This index has no date (a short month, or outside the calendar).
    Skip,
    /// The candidate's day number.
    Day(int),
}

/// A day number as a candidate, when the calendar has that day.
pub open spec fn day_candidate(n: int) -> Candidate {
    if MIN_DAY <= n <= MAX_DAY {
        Candidate::Day(n)
    } else {
        Candidate::Skip
    }
}

/// The candidate `months` after `start`, on the same day of the month;
/// candidates stop after the year 9999.
pub open spec fn month_candidate(start: CivilDate, months: int) -> Candidate {
    let absolute = start.year * 12 + (start.month - 1) + months;
    let d = CivilDate { year: (absolute / 12) as i32, month: (absolute % 12 + 1) as u32, day: start.day };
    if absolute / 12 > 9999 {
        Candidate::Stop
    } else if valid_date(d) {
        Candidate::Day(day_number(d))
    } else {
        Candidate::Skip
    }
}

/// The candidate at `index`. Calendar arithmetic always starts from the
/// start date, avoiding cumulative month-end clamping.
pub open spec fn candidate_at(repeat: Option<Cadence>, start: CivilDate, index: int) -> Candidate {
    match repeat {
        None => if index == 0 {
            Candidate::Day(day_number(start))
        } else {
            Candidate::Stop
        },
        Some(c) => {
            let n = index * c.interval;
            if n > u32::MAX {
                Candidate::Overflow
            } else {
                match c.frequency {
                    Frequency::Daily => day_candidate(day_number(start) + n),
                    Frequency::Weekly => day_candidate(day_number(start) + 7 * n),
                    Frequency::Monthly => month_candidate(start, n),
                    Frequency::Yearly => if n * 12 > u32::MAX {
                        Candidate::Overflow
                    } else {
                        month_candidate(start, n * 12)
                    },
                    Frequency::AfterCompletion => Candidate::Stop,
                }
            }
        },
    }
}

/// Whether the slot on a day can be given an instant.
pub open spec fn instant_ok(zone: Seq<char>, clock: Option<int>, day: int) -> bool {
    match clock {
        None => true,
        Some(c) => resolve_wall(zone, day * 86400 + c) is Some,
    }
}

/// The expansion loop: candidates after `after` and up to `through`, at most
/// `limit` of them, reporting `true` when more remain; at most 4096 probes.
#[verifier::opaque]
pub open spec fn expand(
    repeat: Option<Cadence>,
    start: CivilDate,
    after: Option<int>,
    through: int,
    limit: int,
    zone: Seq<char>,
    clock: Option<int>,
    index: int,
    probes: int,
    acc: Seq<int>,
) -> Result<(Seq<int>, bool), ErrorCode>
    decreases 4096 - probes,
{
    if probes >= 4096 {
        Err(ErrorCode::ExpansionLimit)
    } else {
        match candidate_at(repeat, start, index) {
            Candidate::Stop => Ok((acc, false)),
            Candidate::Overflow => Err(ErrorCode::InvalidValue),
            Candidate::Skip => expand(
                repeat,
                start,
                after,
                through,
                limit,
                zone,
                clock,
                index + 1,
                probes + 1,
                acc,
            ),
            Candidate::Day(d) => if d > through {
                Ok((acc, false))
            } else if after is Some && d <= after->Some_0 {
                expand(repeat, start, after, through, limit, zone, clock, index + 1, probes + 1, acc)
            } else if acc.len() == limit {
                Ok((acc, true))
            } else if !instant_ok(zone, clock, d) {
                Err(ErrorCode::InvalidValue)
            } else {
                expand(
                    repeat,
                    start,
                    after,
                    through,
                    limit,
                    zone,
                    clock,
                    index + 1,
                    probes + 1,
                    acc.push(d),
                )
            },
        }
    }
}

/// One step of the expansion loop.
proof fn lemma_expand_unfold(
    repeat: Option<Cadence>,
    start: CivilDate,
    after: Option<int>,
    through: int,
    limit: int,
    zone: Seq<char>,
    clock: Option<int>,
    index: int,
    probes: int,
    acc: Seq<int>,
)
    ensures
        expand(repeat, start, after, through, limit, zone, clock, index, probes, acc) == if probes
            >= 4096 {
            Err(ErrorCode::ExpansionLimit)
        } else {
            match candidate_at(repeat, start, index) {
                Candidate::Stop => Ok((acc, false)),
                Candidate::Overflow => Err(ErrorCode::InvalidValue),
                Candidate::Skip => expand(
                    repeat,
                    start,
                    after,
                    through,
                    limit,
                    zone,
                    clock,
                    index + 1,
                    probes + 1,
                    acc,
                ),
                Candidate::Day(d) => if d > through {
                    Ok((acc, false))
                } else if after is Some && d <= after->Some_0 {
                    expand(repeat, start, after, through, limit, zone, clock, index + 1, probes + 1, acc)
                } else if acc.len() == limit {
                    Ok((acc, true))
                } else if !instant_ok(zone, clock, d) {
                    Err(ErrorCode::InvalidValue)
                } else {
                    expand(
                        repeat,
                        start,
                        after,
                        through,
                        limit,
                        zone,
                        clock,
                        index + 1,
                        probes + 1,
                        acc.push(d),
                    )
                },
            }
        },
{
    reveal_with_fuel(expand, 1);
}

/// The first index worth probing after the last persisted slot.
pub open spec fn initial_index(repeat: Option<Cadence>, start: CivilDate, after: Option<CivilDate>) -> int {
    match (repeat, after) {
        (Some(c), Some(a)) => if day_number(a) > day_number(start) {
            let distance = match c.frequency {
                Frequency::Daily => day_number(a) - day_number(start),
                Frequency::Weekly => (day_number(a) - day_number(start)) / 7,
                Frequency::Monthly => (a.year - start.year) * 12 + a.month - start.month,
                Frequency::Yearly => a.year - start.year,
                Frequency::AfterCompletion => 0,
            };
            distance / (c.interval as int)
        } else {
            0
        },
        _ => 0,
    }
}

/// What `slots` yields: the undated one-off slot, or the day numbers of the
/// dated slots with whether more remain.
pub enum SlotPlan {
    Once,
    Dated(Seq<int>, bool),
}

/// The slot plan of a schedule for a page (see `Schedule::slots`).
#[verifier::opaque]
pub open spec fn slot_plan(s: Schedule, after: Option<Seq<char>>, through: Seq<char>, limit: int) -> Result<
    SlotPlan,
    ErrorCode,
> {
    if !schedule_valid(s) || !(1 <= limit <= 200) || date_of_text(through) is None || (after is Some
        && date_of_text(after->Some_0) is None) {
        Err(ErrorCode::InvalidValue)
    } else if s.repeat is Some && s.repeat->Some_0.frequency == Frequency::AfterCompletion && after
        is Some {
        Ok(SlotPlan::Dated(Seq::<int>::empty(), false))
    } else if s.start_date is None {
        Ok(SlotPlan::Once)
    } else {
        let repeat = if s.repeat is Some && s.repeat->Some_0.frequency == Frequency::AfterCompletion {
            None
        } else {
            s.repeat
        };
        let start = date_of_text(s.start_date->Some_0@)->Some_0;
        let after_date = if after is Some {
            date_of_text(after->Some_0)
        } else {
            None
        };
        let clock = if s.time is Some {
            clock_of_text(s.time->Some_0@)
        } else {
            None
        };
        match expand(
            repeat,
            start,
            if after_date is Some {
                Some(day_number(after_date->Some_0))
            } else {
                None
            },
            day_number(date_of_text(through)->Some_0),
            limit,
            s.timezone@,
            clock,
            initial_index(repeat, start, after_date),
            0,
            Seq::<int>::empty(),
        ) {
            Ok((days, more)) => Ok(SlotPlan::Dated(days, more)),
            Err(e) => Err(e),
        }
    }
}

/// The slot plan of a dated schedule, once its texts are read.
proof fn lemma_slot_plan_dated(
    s: Schedule,
    after: Option<Seq<char>>,
    through: Seq<char>,
    limit: int,
    start: CivilDate,
    after_date: Option<CivilDate>,
    through_date: CivilDate,
)
    requires
        schedule_valid(s),
        1 <= limit <= 200,
        date_of_text(through) == Some(through_date),
        after is Some ==> date_of_text(after->Some_0) == after_date && after_date is Some,
        after is None ==> after_date is None,
        s.start_date is Some,
        date_of_text(s.start_date->Some_0@) == Some(start),
        !(s.repeat is Some && s.repeat->Some_0.frequency == Frequency::AfterCompletion && after
            is Some),
    ensures
        ({
            let repeat = if s.repeat is Some && s.repeat->Some_0.frequency
                == Frequency::AfterCompletion {
                None
            } else {
                s.repeat
            };
            slot_plan(s, after, through, limit) == plan_of(expand(
                repeat,
                start,
                if after_date is Some {
                    Some(day_number(after_date->Some_0))
                } else {
                    None
                },
                day_number(through_date),
                limit,
                s.timezone@,
                if s.time is Some {
                    clock_of_text(s.time->Some_0@)
                } else {
                    None
                },
                initial_index(repeat, start, after_date),
                0,
                Seq::<int>::empty(),
            ))
        }),
{
    reveal(slot_plan);
}

/// The slot plan of a page that is refused, empty, or undated.
proof fn lemma_slot_plan_early(s: Schedule, after: Option<Seq<char>>, through: Seq<char>, limit: int)
    ensures
        !schedule_valid(s) || !(1 <= limit <= 200) || date_of_text(through) is None || (after
            is Some && date_of_text(after->Some_0) is None) ==> slot_plan(s, after, through, limit)
            == Err::<SlotPlan, ErrorCode>(ErrorCode::InvalidValue),
        schedule_valid(s) && 1 <= limit <= 200 && date_of_text(through) is Some && (after is Some
            ==> date_of_text(after->Some_0) is Some) ==> {
            &&& (s.repeat is Some && s.repeat->Some_0.frequency == Frequency::AfterCompletion
                && after is Some ==> slot_plan(s, after, through, limit) == Ok::<
                SlotPlan,
                ErrorCode,
            >(SlotPlan::Dated(Seq::<int>::empty(), false)))
            &&& (!(s.repeat is Some && s.repeat->Some_0.frequency == Frequency::AfterCompletion
                && after is Some) && s.start_date is None ==> slot_plan(s, after, through, limit)
                == Ok::<SlotPlan, ErrorCode>(SlotPlan::Once))
        },
{
    reveal(slot_plan);
}

/// The one-off slot of an undated item.
pub open spec fn once_slot(s: Schedule, slot: Slot) -> bool {
    &&& slot.key@ == seq!['o', 'n', 'c', 'e']
    &&& slot.date is None
    &&& slot.intended_time is None
    &&& slot.timezone@ == s.timezone@
    &&& slot.instant is None
}

/// The slot a (valid) schedule intends on a day: its key (`once` for a
/// one-off, else the date, `T`, and the time or `date`), date, time, zone and
/// instant.
#[verifier::opaque]
pub open spec fn dated_slot(s: Schedule, day: int, slot: Slot) -> bool {
    let one_off = s.repeat is None || s.repeat->Some_0.frequency == Frequency::AfterCompletion;
    &&& slot.date is Some
    &&& (exists|d: CivilDate|
        valid_date(d) && day_number(d) == day && #[trigger] iso_date(d) == slot.date->Some_0@
            && slot.key@ == if one_off {
            seq!['o', 'n', 'c', 'e']
        } else {
            iso_date(d) + seq!['T'] + if s.time is Some {
                s.time->Some_0@
            } else {
                seq!['d', 'a', 't', 'e']
            }
        })
    &&& opt_text(slot.intended_time) == opt_text(s.time)
    &&& slot.timezone@ == s.timezone@
    &&& slot.instant == if s.time is Some {
        Some(resolve_wall(s.timezone@, day * 86400 + clock_of_text(s.time->Some_0@)->Some_0)->Some_0 as i64)
    } else {
        None::<i64>
    }
}

/// A page of slots matches an expansion: the same days in order, each with
/// the slot the schedule intends on it, and the same answer about more.
pub open spec fn page_of(s: Schedule, e: Result<(Seq<int>, bool), ErrorCode>, r: Result<(Vec<Slot>, bool), ErrorCode>) -> bool {
    match (e, r) {
        (Ok((days, m)), Ok((v, more))) => more == m && v@.len() == days.len() && forall|i: int|
            0 <= i < days.len() ==> dated_slot(s, #[trigger] days[i], v@[i]),
        (Err(a), Err(b)) => a == b,
        _ => false,
    }
}

/// The slot plan of an expansion.
pub open spec fn plan_of(e: Result<(Seq<int>, bool), ErrorCode>) -> Result<SlotPlan, ErrorCode> {
    match e {
        Ok((days, more)) => Ok(SlotPlan::Dated(days, more)),
        Err(x) => Err(x),
    }
}

/// A page of slots matches a slot plan.
pub open spec fn page_of_plan(s: Schedule, p: Result<SlotPlan, ErrorCode>, r: Result<(Vec<Slot>, bool), ErrorCode>) -> bool {
    match (p, r) {
        (Ok(SlotPlan::Once), Ok((v, more))) => !more && v@.len() == 1 && once_slot(s, v@[0]),
        (Ok(SlotPlan::Dated(days, m)), Ok((v, more))) => more == m && v@.len() == days.len()
            && forall|i: int| 0 <= i < days.len() ==> dated_slot(s, #[trigger] days[i], v@[i]),
        (Err(a), Err(b)) => a == b,
        _ => false,
    }
}

proof fn lemma_page_of_plan(s: Schedule, e: Result<(Seq<int>, bool), ErrorCode>, r: Result<(Vec<Slot>, bool), ErrorCode>)
    requires
        page_of(s, e, r),
    ensures
        page_of_plan(s, plan_of(e), r),
{
}

/// A copy of an optional string.
pub fn copy_opt(o: &Option<String>) -> (r: Option<String>)
    ensures
        opt_text(r) == opt_text(*o),
{
    match o {
        Some(s) => Some(s.clone()),
        None => None,
    }
}

impl Schedule {
    /// Accepts schedules with a known zone, an accepted start date, a time
    /// only on a dated schedule, and repetition only from a start date every
    /// 1 to 366 periods.
    pub fn validate(&self) -> (r: Result<(), ErrorCode>)
        ensures
            r is Ok <==> schedule_valid(*self),
            r matches Err(e) ==> e == ErrorCode::InvalidValue,
    {
        if !zone_known(self.timezone.as_str()) {
            return Err(ErrorCode::InvalidValue);
        }
        if let Some(start) = &self.start_date {
            if parse_date(start.as_str()).is_err() {
                return Err(ErrorCode::InvalidValue);
            }
        }
        if let Some(time) = &self.time {
            if self.start_date.is_none() {
                return Err(ErrorCode::InvalidValue);
            }
            if parse_clock(time.as_str()).is_err() {
                return Err(ErrorCode::InvalidValue);
            }
        }
        if let Some(repeat) = &self.repeat {
            if self.start_date.is_none() || repeat.interval < 1 || repeat.interval > 366 {
                return Err(ErrorCode::InvalidValue);
            }
        }
        Ok(())
    }
}

/// The chars of `once`.
fn once_key() -> (s: String)
    ensures
        s@ == seq!['o', 'n', 'c', 'e'],
{
    let v: Vec<char> = vec!['o', 'n', 'c', 'e'];
    assert(v@ =~= seq!['o', 'n', 'c', 'e']);
    string_from_chars(v.as_slice())
}

/// The text of an optional time after a slot date.
fn slot_key(date: &String, time: &Option<String>) -> (s: String)
    ensures
        s@ == date@ + seq!['T'] + if time is Some {
            time->Some_0@
        } else {
            seq!['d', 'a', 't', 'e']
        },
{
    let mut v = crate::text::chars_of(date.as_str());
    v.push('T');
    let tail: Vec<char> = match time {
        Some(t) => crate::text::chars_of(t.as_str()),
        None => {
            let w: Vec<char> = vec!['d', 'a', 't', 'e'];
            assert(w@ =~= seq!['d', 'a', 't', 'e']);
            w
        },
    };
    let ghost base = v@;
    let mut i: usize = 0;
    while i < tail.len()
        invariant
            i <= tail@.len(),
            v@ == base + tail@.take(i as int),
        decreases tail.len() - i,
    {
        v.push(tail[i]);
        i = i + 1;
        assert(v@ =~= base + tail@.take(i as int));
    }
    assert(tail@.take(tail@.len() as int) =~= tail@);
    string_from_chars(v.as_slice())
}

impl Schedule {
    /// The slot for a candidate date.
    fn make_slot(&self, d: CivilDate, one_off: bool, clock: Option<u32>) -> (r: Result<Slot, ErrorCode>)
        requires
            schedule_valid(*self),
            valid_date(d),
            one_off == (self.repeat is None || self.repeat->Some_0.frequency == Frequency::AfterCompletion),
            clock == (if self.time is Some { Some(clock_of_text(self.time->Some_0@)->Some_0 as u32) } else { None::<u32> }),
            self.time is Some ==> 0 <= clock_of_text(self.time->Some_0@)->Some_0 < 86400,
        ensures
            r is Ok <==> instant_ok(self.timezone@, if self.time is Some { clock_of_text(self.time->Some_0@) } else { None }, day_number(d)),
            r matches Ok(slot) ==> dated_slot(*self, day_number(d), slot),
            r matches Err(e) ==> e == ErrorCode::InvalidValue,
    {
        let date = iso_date_exec(d);
        let key = if one_off {
            once_key()
        } else {
            slot_key(&date, &self.time)
        };
        let instant = match clock {
            Some(c) => {
                let n = day_number_exec(d);
                proof {
                    crate::time::lemma_day_number_bounds(d);
                }
                match resolve(self.timezone.as_str(), n * 86400 + c as i64) {
                    Ok(t) => Some(t),
                    Err(_) => return Err(ErrorCode::InvalidValue),
                }
            },
            None => None,
        };
        let slot = Slot {
            key,
            date: Some(date),
            intended_time: copy_opt(&self.time),
            timezone: self.timezone.clone(),
            instant,
        };
        proof {
            reveal(dated_slot);
            assert(iso_date(d) == slot.date->Some_0@);
        }
        Ok(slot)
    }
}

/// A candidate as computed: no more, none here, or a date.
enum Found {
    Stop,
    Skip,
    Date(CivilDate),
}

/// The candidate at one index (see `candidate_at`); an overflowing index is
/// refused.
fn candidate(repeat: Option<Cadence>, start: CivilDate, start_dn: i64, index: u64) -> (r: Result<Found, ErrorCode>)
    requires
        valid_date(start),
        1900 <= start.year <= 9999,
        start_dn == day_number(start),
        repeat is Some ==> 1 <= repeat->Some_0.interval <= 366,
        index <= 700_000_000,
    ensures
        match (candidate_at(repeat, start, index as int), r) {
            (Candidate::Stop, Ok(Found::Stop)) => true,
            (Candidate::Skip, Ok(Found::Skip)) => true,
            (Candidate::Overflow, Err(e)) => e == ErrorCode::InvalidValue,
            (Candidate::Day(n), Ok(Found::Date(d))) => valid_date(d) && day_number(d) == n,
            _ => false,
        },
{
    proof {
        crate::time::lemma_day_number_bounds(start);
    }
    match repeat {
        None => if index == 0 {
            Ok(Found::Date(start))
        } else {
            Ok(Found::Stop)
        },
        Some(c) => {
            assert(index * c.interval <= 700_000_000 * 366) by (nonlinear_arith)
                requires index <= 700_000_000, c.interval <= 366;
            let n: u64 = index * c.interval as u64;
            if n > u32::MAX as u64 {
                return Err(ErrorCode::InvalidValue);
            }
            match c.frequency {
                Frequency::Daily => match date_from_day_number(start_dn + n as i64) {
                    Some(d) => Ok(Found::Date(d)),
                    None => Ok(Found::Skip),
                },
                Frequency::Weekly => match date_from_day_number(start_dn + 7 * n as i64) {
                    Some(d) => Ok(Found::Date(d)),
                    None => Ok(Found::Skip),
                },
                Frequency::Monthly | Frequency::Yearly => {
                    let months: u64 = if c.frequency == Frequency::Yearly {
                        if n * 12 > u32::MAX as u64 {
                            return Err(ErrorCode::InvalidValue);
                        }
                        n * 12
                    } else {
                        n
                    };
                    let absolute: u64 = start.year as u64 * 12 + (start.month - 1) as u64 + months;
                    if absolute / 12 > 9999 {
                        Ok(Found::Stop)
                    } else {
                        match date_from_ymd((absolute / 12) as i32, (absolute % 12 + 1) as u32, start.day) {
                            Some(d) => Ok(Found::Date(d)),
                            None => Ok(Found::Skip),
                        }
                    }
                },
                Frequency::AfterCompletion => Ok(Found::Stop),
            }
        },
    }
}

impl Schedule {
    /// The dated expansion loop (see `expand`).
    #[verifier::rlimit(100)]
    fn expand_dated(
        &self,
        repeat: Option<Cadence>,
        start: CivilDate,
        after: Option<CivilDate>,
        through: CivilDate,
        limit: usize,
        clock: Option<u32>,
    ) -> (r: Result<(Vec<Slot>, bool), ErrorCode>)
        requires
            schedule_valid(*self),
            valid_date(start),
            1900 <= start.year <= 9999,
            valid_date(through),
            after is Some ==> valid_date(after->Some_0),
            1 <= limit <= 200,
            repeat is None <==> (self.repeat is None || self.repeat->Some_0.frequency
                == Frequency::AfterCompletion),
            repeat is Some ==> repeat == self.repeat && 1 <= repeat->Some_0.interval <= 366,
            clock == (if self.time is Some {
                Some(clock_of_text(self.time->Some_0@)->Some_0 as u32)
            } else {
                None::<u32>
            }),
            self.time is Some ==> 0 <= clock_of_text(self.time->Some_0@)->Some_0 < 86400,
        ensures
            page_of(
                *self,
                expand(
                    repeat,
                    start,
                    if after is Some {
                        Some(day_number(after->Some_0))
                    } else {
                        None
                    },
                    day_number(through),
                    limit as int,
                    self.timezone@,
                    if self.time is Some {
                        clock_of_text(self.time->Some_0@)
                    } else {
                        None
                    },
                    initial_index(repeat, start, after),
                    0,
                    Seq::<int>::empty(),
                ),
                r,
            ),
    {
        let ghost clock_spec = if self.time is Some {
            clock_of_text(self.time->Some_0@)
        } else {
            None
        };
        let ghost after_spec = if after is Some {
            Some(day_number(after->Some_0))
        } else {
            None
        };
        let ghost zone = self.timezone@;
        let start_dn = day_number_exec(start);
        let through_dn = day_number_exec(through);
        proof {
            crate::time::lemma_day_number_bounds(start);
            crate::time::lemma_day_number_bounds(through);
        }
        let after_dn: Option<i64> = match after {
            Some(a) => {
                proof {
                    crate::time::lemma_day_number_bounds(a);
                }
                Some(day_number_exec(a))
            },
            None => None,
        };
        let one_off = repeat.is_none();
        // The first index worth probing.
        let index0: u64 = match (repeat, after) {
            (Some(c), Some(a)) => {
                let adn = day_number_exec(a);
                if adn > start_dn {
                    proof {
                        crate::time::lemma_day_number_order(start, a);
                    }
                    let distance: i64 = match c.frequency {
                        Frequency::Daily => adn - start_dn,
                        Frequency::Weekly => (adn - start_dn) / 7,
                        Frequency::Monthly => (a.year as i64 - start.year as i64) * 12
                            + a.month as i64 - start.month as i64,
                        Frequency::Yearly => a.year as i64 - start.year as i64,
                        Frequency::AfterCompletion => 0,
                    };
                    (distance / c.interval as i64) as u64
                } else {
                    0
                }
            },
            _ => 0,
        };
        assert(index0 == initial_index(repeat, start, after));
        assert(index0 <= 600_000_000);
        let mut index: u64 = index0;
        let mut probes: u64 = 0;
        let mut out: Vec<Slot> = Vec::new();
        let ghost mut acc: Seq<int> = Seq::empty();
        loop
            invariant
                schedule_valid(*self),
                valid_date(start),
                1900 <= start.year <= 9999,
                start_dn == day_number(start),
                through_dn == day_number(through),
                after_spec == (if after_dn is Some { Some(after_dn->Some_0 as int) } else { None::<int> }),
                -250_000_000 <= start_dn <= 250_000_000,
                1 <= limit <= 200,
                one_off == (repeat is None),
                repeat is None <==> (self.repeat is None || self.repeat->Some_0.frequency
                    == Frequency::AfterCompletion),
                repeat is Some ==> repeat == self.repeat && 1 <= repeat->Some_0.interval <= 366,
                clock == (if self.time is Some {
                    Some(clock_of_text(self.time->Some_0@)->Some_0 as u32)
                } else {
                    None::<u32>
                }),
                self.time is Some ==> 0 <= clock_of_text(self.time->Some_0@)->Some_0 < 86400,
                clock_spec == (if self.time is Some { clock_of_text(self.time->Some_0@) } else { None }),
                zone == self.timezone@,
                probes <= 4096,
                index <= index0 + probes,
                index0 <= 600_000_000,
                index0 == initial_index(repeat, start, after),
                after_spec == (if after is Some { Some(day_number(after->Some_0)) } else { None::<int> }),
                out@.len() == acc.len(),
                acc.len() <= limit,
                forall|i: int| 0 <= i < acc.len() ==> dated_slot(*self, #[trigger] acc[i], out@[i]),
                expand(repeat, start, after_spec, through_dn as int, limit as int, zone, clock_spec, index0 as int, 0, Seq::<int>::empty())
                    == expand(repeat, start, after_spec, through_dn as int, limit as int, zone, clock_spec, index as int, probes as int, acc),
            decreases 4096 - probes,
        {
            proof {
                lemma_expand_unfold(repeat, start, after_spec, through_dn as int, limit as int, zone, clock_spec, index as int, probes as int, acc);
            }
            if probes >= 4096 {
                return Err(ErrorCode::ExpansionLimit);
            }
            let found = match candidate(repeat, start, start_dn, index) {
                Ok(f) => f,
                Err(e) => {
                    return Err(e);
                },
            };
            proof {
                if let Found::Date(d) = found {
                    crate::time::lemma_day_number_range(d);
                }
            }
            index = index + 1;
            probes = probes + 1;
            match found {
                Found::Stop => {
                    return Ok((out, false));
                },
                Found::Skip => {
                },
                Found::Date(d) => {
                    let dn = day_number_exec(d);
                    if dn > through_dn {
                        return Ok((out, false));
                    }
                    let passed = match after_dn {
                        Some(a) => dn <= a,
                        None => false,
                    };
                    if passed {
                    } else {
                        if out.len() == limit {
                            return Ok((out, true));
                        }
                        match self.make_slot(d, one_off, clock) {
                            Ok(slot) => {
                                out.push(slot);
                                proof {
                                    let old_acc = acc;
                                    acc = acc.push(dn as int);
                                    assert forall|i: int| 0 <= i < acc.len() implies dated_slot(*self, #[trigger] acc[i], out@[i]) by {
                                        if i < old_acc.len() {
                                            assert(acc[i] == old_acc[i]);
                                        }
                                    }
                                }
                            },
                            Err(e) => {
                                return Err(e);
                            },
                        }
                    }
                },
            }
        }
    }

    /// The dated slots of a schedule whose texts were accepted.
    fn dated_slots(
        &self,
        after: Ghost<Option<Seq<char>>>,
        through: Ghost<Seq<char>>,
        limit: usize,
        after_date: Option<CivilDate>,
        through_date: CivilDate,
    ) -> (r: Result<(Vec<Slot>, bool), ErrorCode>)
        requires
            schedule_valid(*self),
            1 <= limit <= 200,
            date_of_text(through@) == Some(through_date),
            after@ is Some ==> date_of_text(after@->Some_0) == after_date && after_date is Some,
            after@ is None ==> after_date is None,
            self.start_date is Some,
            !(self.repeat is Some && self.repeat->Some_0.frequency == Frequency::AfterCompletion
                && after@ is Some),
        ensures
            page_of_plan(*self, slot_plan(*self, after@, through@, limit as int), r),
    {
        let start = match &self.start_date {
            Some(t) => match parse_date(t.as_str()) {
                Ok(d) => d,
                Err(e) => return Err(e),
            },
            None => return Err(ErrorCode::InvalidValue),
        };
        let after_completion = match self.repeat {
            Some(c) => c.frequency == Frequency::AfterCompletion,
            None => false,
        };
        let repeat = if after_completion {
            None
        } else {
            self.repeat
        };
        let clock: Option<u32> = match &self.time {
            Some(t) => match parse_clock(t.as_str()) {
                Ok(c) => Some(c),
                Err(e) => return Err(e),
            },
            None => None,
        };
        let r = self.expand_dated(repeat, start, after_date, through_date, limit, clock);
        proof {
            lemma_slot_plan_dated(*self, after@, through@, limit as int, start, after_date, through_date);
            lemma_page_of_plan(
                *self,
                expand(
                    repeat,
                    start,
                    if after_date is Some {
                        Some(day_number(after_date->Some_0))
                    } else {
                        None
                    },
                    day_number(through_date),
                    limit as int,
                    self.timezone@,
                    if self.time is Some {
                        clock_of_text(self.time->Some_0@)
                    } else {
                        None
                    },
                    initial_index(repeat, start, after_date),
                    0,
                    Seq::<int>::empty(),
                ),
                r,
            );
        }
        r
    }

    /// A bounded page of intended slots. `after` is the last persisted slot
    /// date; callers persist every returned slot, including periods covered
    /// by a chore. `true` reports an incomplete expansion, never silent
    /// truncation.
    pub fn slots(&self, after: Option<&str>, through: &str, limit: usize) -> (r: Result<
        (Vec<Slot>, bool),
        ErrorCode,
    >)
        ensures
            page_of_plan(
                *self,
                slot_plan(
                    *self,
                    if after is Some {
                        Some(after->Some_0@)
                    } else {
                        None
                    },
                    through@,
                    limit as int,
                ),
                r,
            ),
    {
        let ghost after_text: Option<Seq<char>> = if after is Some {
            Some(after->Some_0@)
        } else {
            None
        };
        proof {
            lemma_slot_plan_early(*self, after_text, through@, limit as int);
        }
        if self.validate().is_err() {
            return Err(ErrorCode::InvalidValue);
        }
        if limit < 1 || limit > 200 {
            return Err(ErrorCode::InvalidValue);
        }
        let through_date = match parse_date(through) {
            Ok(d) => d,
            Err(e) => return Err(e),
        };
        let after_date = match after {
            Some(a) => match parse_date(a) {
                Ok(d) => Some(d),
                Err(e) => return Err(e),
            },
            None => None,
        };
        let after_completion = match self.repeat {
            Some(c) => c.frequency == Frequency::AfterCompletion,
            None => false,
        };
        if after_completion && after_date.is_some() {
            return Ok((Vec::new(), false));
        }
        if self.start_date.is_none() {
            let slot = Slot {
                key: once_key(),
                date: None,
                intended_time: None,
                timezone: self.timezone.clone(),
                instant: None,
            };
            let mut v = Vec::new();
            v.push(slot);
            return Ok((v, false));
        }
        self.dated_slots(Ghost(after_text), Ghost(through@), limit, after_date, through_date)
    }
}

/// Days strictly increase along a page.
pub open spec fn increasing(days: Seq<int>) -> bool {
    forall|i: int, j: int| 0 <= i < j < days.len() ==> days[i] < days[j]
}

/// Every day of a page lies after `after` and no later than `through`.
pub open spec fn within(days: Seq<int>, after: Option<int>, through: int) -> bool {
    forall|i: int|
        0 <= i < days.len() ==> (after is Some ==> after->Some_0 < #[trigger] days[i]) && days[i]
            <= through
}

/// Later indices give later candidate days.
proof fn lemma_candidate_increasing(repeat: Option<Cadence>, start: CivilDate, k1: int, k2: int)
    requires
        valid_date(start),
        0 <= start.year,
        repeat is Some ==> 1 <= repeat->Some_0.interval,
        0 <= k1 < k2,
        candidate_at(repeat, start, k1) is Day,
        candidate_at(repeat, start, k2) is Day,
    ensures
        candidate_at(repeat, start, k1)->Day_0 < candidate_at(repeat, start, k2)->Day_0,
{
    if let Some(c) = repeat {
        let iv = c.interval as int;
        let n1 = k1 * iv;
        let n2 = k2 * iv;
        assert(0 <= n1 < n2) by (nonlinear_arith)
            requires 0 <= k1 < k2, 1 <= iv, n1 == k1 * iv, n2 == k2 * iv;
        match c.frequency {
            Frequency::Monthly | Frequency::Yearly => {
                let m1 = if c.frequency == Frequency::Yearly { n1 * 12 } else { n1 };
                let m2 = if c.frequency == Frequency::Yearly { n2 * 12 } else { n2 };
                assert(m1 < m2);
                let a1 = start.year * 12 + (start.month - 1) + m1;
                let a2 = start.year * 12 + (start.month - 1) + m2;
                let d1 = CivilDate { year: (a1 / 12) as i32, month: (a1 % 12 + 1) as u32, day: start.day };
                let d2 = CivilDate { year: (a2 / 12) as i32, month: (a2 % 12 + 1) as u32, day: start.day };
                assert(month_candidate(start, m1) == Candidate::Day(day_number(d1)));
                assert(month_candidate(start, m2) == Candidate::Day(day_number(d2)));
                assert(a1 / 12 < a2 / 12 || (a1 / 12 == a2 / 12 && a1 % 12 < a2 % 12)) by (nonlinear_arith)
                    requires 0 <= a1 < a2;
                crate::time::lemma_day_number_monotone(d1, d2);
            },
            _ => {},
        }
    }
}

/// The first index probed is never negative.
proof fn lemma_initial_index_nonnegative(repeat: Option<Cadence>, start: CivilDate, after: Option<CivilDate>)
    requires
        valid_date(start),
        after is Some ==> valid_date(after->Some_0),
        repeat is Some ==> 1 <= repeat->Some_0.interval,
    ensures
        0 <= initial_index(repeat, start, after),
{
    if let (Some(c), Some(a)) = (repeat, after) {
        if day_number(a) > day_number(start) {
            crate::time::lemma_day_number_order(start, a);
            let distance = match c.frequency {
                Frequency::Daily => day_number(a) - day_number(start),
                Frequency::Weekly => (day_number(a) - day_number(start)) / 7,
                Frequency::Monthly => (a.year - start.year) * 12 + a.month - start.month,
                Frequency::Yearly => a.year - start.year,
                Frequency::AfterCompletion => 0,
            };
            assert(distance >= 0);
            assert(distance / (c.interval as int) >= 0) by (nonlinear_arith)
                requires distance >= 0, c.interval >= 1;
        }
    }
}

/// Every page an expansion yields stays increasing, within its window and
/// no longer than the limit.
proof fn lemma_expand_page(
    repeat: Option<Cadence>,
    start: CivilDate,
    after: Option<int>,
    through: int,
    limit: int,
    zone: Seq<char>,
    clock: Option<int>,
    index: int,
    probes: int,
    acc: Seq<int>,
)
    requires
        valid_date(start),
        0 <= start.year,
        repeat is Some ==> 1 <= repeat->Some_0.interval,
        0 <= index,
        acc.len() <= limit,
        increasing(acc),
        within(acc, after, through),
        acc.len() > 0 ==> forall|k: int|
            index <= k && #[trigger] candidate_at(repeat, start, k) is Day ==> acc.last()
                < candidate_at(repeat, start, k)->Day_0,
    ensures
        expand(repeat, start, after, through, limit, zone, clock, index, probes, acc) matches Ok(
            (days, more),
        ) ==> days.len() <= limit && increasing(days) && within(days, after, through),
    decreases 4096 - probes,
{
    lemma_expand_unfold(repeat, start, after, through, limit, zone, clock, index, probes, acc);
    if probes < 4096 {
        match candidate_at(repeat, start, index) {
            Candidate::Skip => {
                lemma_expand_page(repeat, start, after, through, limit, zone, clock, index + 1, probes + 1, acc);
            },
            Candidate::Day(d) => {
                if d > through {
                } else if after is Some && d <= after->Some_0 {
                    lemma_expand_page(repeat, start, after, through, limit, zone, clock, index + 1, probes + 1, acc);
                } else if acc.len() == limit {
                } else if !instant_ok(zone, clock, d) {
                } else {
                    let next = acc.push(d);
                    assert(increasing(next)) by {
                        assert forall|i: int, j: int| 0 <= i < j < next.len() implies next[i] < next[j] by {
                            if j == acc.len() && i < acc.len() {
                                assert(acc[i] <= acc.last());
                            }
                        }
                    }
                    assert forall|k: int|
                        index + 1 <= k && #[trigger] candidate_at(repeat, start, k) is Day implies next.last()
                            < candidate_at(repeat, start, k)->Day_0 by {
                        lemma_candidate_increasing(repeat, start, index, k);
                    }
                    lemma_expand_page(repeat, start, after, through, limit, zone, clock, index + 1, probes + 1, next);
                }
            },
            _ => {},
        }
    }
}

/// A page of dated slots never exceeds the limit, holds each date once in
/// increasing order, and holds only dates after the last persisted slot and
/// no later than `through`: what a page leaves out is reported by its `more`
/// flag, never silently dropped.
pub proof fn law_slot_page(s: Schedule, after: Option<Seq<char>>, through: Seq<char>, limit: int)
    ensures
        slot_plan(s, after, through, limit) matches Ok(SlotPlan::Dated(days, more)) ==> {
            &&& days.len() <= limit
            &&& increasing(days)
            &&& within(
                days,
                if after is Some {
                    Some(day_number(date_of_text(after->Some_0)->Some_0))
                } else {
                    None
                },
                day_number(date_of_text(through)->Some_0),
            )
        },
{
    reveal(slot_plan);
    if schedule_valid(s) && 1 <= limit <= 200 && date_of_text(through) is Some && (after is Some ==> date_of_text(after->Some_0) is Some) && !(s.repeat is Some && s.repeat->Some_0.frequency == Frequency::AfterCompletion && after is Some) && s.start_date is Some {
        let repeat = if s.repeat is Some && s.repeat->Some_0.frequency == Frequency::AfterCompletion {
            None
        } else {
            s.repeat
        };
        let start = date_of_text(s.start_date->Some_0@)->Some_0;
        let after_date = if after is Some {
            date_of_text(after->Some_0)
        } else {
            None
        };
        let clock = if s.time is Some {
            clock_of_text(s.time->Some_0@)
        } else {
            None
        };
        let after_day = if after_date is Some {
            Some(day_number(after_date->Some_0))
        } else {
            None
        };
        let through_day = day_number(date_of_text(through)->Some_0);
        lemma_initial_index_nonnegative(repeat, start, after_date);
        assert(within(Seq::<int>::empty(), after_day, through_day));
        lemma_expand_page(repeat, start, after_day, through_day, limit, s.timezone@, clock, initial_index(repeat, start, after_date), 0, Seq::<int>::empty());
    }
}


/// The day `j` steps of `step` days after `start`.
pub open spec fn cadence_day(start: int, step: int, j: int) -> int {
    start + step * j
}

/// Whether a day lies a whole number of steps on from `start`.
pub open spec fn on_cadence(d: int, start: int, step: int) -> bool {
    d >= start && (d - start) % step == 0
}

/// Whether a day lies in a page's window.
pub open spec fn in_window(d: int, after: Option<int>, through: int) -> bool {
    (after is None || d > after->Some_0) && d <= through
}

proof fn lemma_expand_steps(
    c: Cadence,
    unit: int,
    start: CivilDate,
    after: Option<int>,
    through: int,
    limit: int,
    zone: Seq<char>,
    clock: Option<int>,
    index: int,
    probes: int,
    acc: Seq<int>,
)
    requires
        (c.frequency == Frequency::Weekly && unit == 7) || (c.frequency == Frequency::Daily && unit == 1),
        1 <= c.interval,
        0 <= index,
        1 <= limit,
        MIN_DAY <= day_number(start),
        through <= MAX_DAY,
        forall|i: int| 0 <= i < acc.len() ==> on_cadence(#[trigger] acc[i], day_number(start), unit * c.interval),
        forall|i: int| 0 <= i < acc.len() ==> #[trigger] acc[i] < cadence_day(day_number(start), unit * c.interval, index),
        forall|j: int|
            0 <= j < index && in_window(#[trigger] cadence_day(day_number(start), unit * c.interval, j), after, through)
                ==> acc.contains(cadence_day(day_number(start), unit * c.interval, j)),
    ensures
        expand(Some(c), start, after, through, limit, zone, clock, index, probes, acc) matches Ok((days, more)) ==> {
            &&& forall|i: int| 0 <= i < days.len() ==> on_cadence(#[trigger] days[i], day_number(start), unit * c.interval)
            &&& forall|j: int|
                0 <= j && in_window(#[trigger] cadence_day(day_number(start), unit * c.interval, j), after, through) && (!more
                    || cadence_day(day_number(start), unit * c.interval, j) <= days.last()) ==> days.contains(
                    cadence_day(day_number(start), unit * c.interval, j),
                )
        },
    decreases 4096 - probes,
{
    let st = day_number(start);
    let step = unit * c.interval;
    assert(step >= 1) by (nonlinear_arith)
        requires
            unit >= 1,
            c.interval >= 1,
            step == unit * c.interval,
    ;
    lemma_expand_unfold(Some(c), start, after, through, limit, zone, clock, index, probes, acc);
    if probes >= 4096 {
        return;
    }
    let n = index * c.interval;
    if n > u32::MAX {
        return;
    }
    let d = cadence_day(st, step, index);
    assert(st + unit * n == d) by (nonlinear_arith)
        requires
            n == index * c.interval,
            d == st + step * index,
            step == unit * c.interval,
    ;
    assert(candidate_at(Some(c), start, index) == day_candidate(d));
    assert forall|j: int| index <= j implies d <= #[trigger] cadence_day(st, step, j) by {
        assert(step * index <= step * j) by (nonlinear_arith)
            requires
                index <= j,
                step >= 1,
        ;
    }
    assert(on_cadence(d, st, step)) by {
        assert(d - st == step * index);
        assert((step * index) % step == 0) by (nonlinear_arith)
            requires
                step >= 1,
                index >= 0,
        ;
        assert(step * index >= 0) by (nonlinear_arith)
            requires
                step >= 1,
                index >= 0,
        ;
    }
    assert(d < cadence_day(st, step, index + 1)) by (nonlinear_arith)
        requires
            d == st + step * index,
            step >= 1,
    ;
    let skip_or_early = !(MIN_DAY <= d <= MAX_DAY) || (after is Some && d <= after->Some_0);
    if MIN_DAY <= d <= MAX_DAY && d > through {
        return;
    }
    if skip_or_early {
        assert(!in_window(d, after, through));
        assert forall|i: int| 0 <= i < acc.len() implies #[trigger] acc[i] < cadence_day(st, step, index + 1) by {
        }
        assert forall|j: int|
            0 <= j < index + 1 && in_window(#[trigger] cadence_day(st, step, j), after, through) implies acc.contains(
                cadence_day(st, step, j),
            ) by {
            if j == index {
                assert(cadence_day(st, step, j) == d);
            }
        }
        lemma_expand_steps(c, unit, start, after, through, limit, zone, clock, index + 1, probes + 1, acc);
        return;
    }
    if acc.len() == limit {
        assert forall|j: int|
            0 <= j && in_window(#[trigger] cadence_day(st, step, j), after, through) && cadence_day(st, step, j)
                <= acc.last() implies acc.contains(cadence_day(st, step, j)) by {
            assert(acc.last() == acc[acc.len() - 1]);
            if j >= index {
                assert(d <= cadence_day(st, step, j));
            }
        }
        return;
    }
    if !instant_ok(zone, clock, d) {
        return;
    }
    let next = acc.push(d);
    assert forall|i: int| 0 <= i < next.len() implies on_cadence(#[trigger] next[i], st, step) by {
        if i < acc.len() {
            assert(next[i] == acc[i]);
        }
    }
    assert forall|i: int| 0 <= i < next.len() implies #[trigger] next[i] < cadence_day(st, step, index + 1) by {
        if i < acc.len() {
            assert(next[i] == acc[i]);
        }
    }
    assert forall|j: int|
        0 <= j < index + 1 && in_window(#[trigger] cadence_day(st, step, j), after, through) implies next.contains(
            cadence_day(st, step, j),
        ) by {
        if j == index {
            assert(next[acc.len() as int] == d);
        } else {
            let k = choose|k: int| 0 <= k < acc.len() && acc[k] == cadence_day(st, step, j);
            assert(next[k] == acc[k]);
        }
    }
    lemma_expand_steps(c, unit, start, after, through, limit, zone, clock, index + 1, probes + 1, next);
}

proof fn lemma_slots_follow_steps(s: Schedule, after: Option<Seq<char>>, through: Seq<char>, limit: int, unit: int)
    requires
        s.repeat is Some,
        (s.repeat->Some_0.frequency == Frequency::Weekly && unit == 7) || (s.repeat->Some_0.frequency
            == Frequency::Daily && unit == 1),
    ensures
        slot_plan(s, after, through, limit) matches Ok(SlotPlan::Dated(days, more)) ==> {
            let st = day_number(date_of_text(s.start_date->Some_0@)->Some_0);
            let step = unit * s.repeat->Some_0.interval;
            let window_after = if after is Some {
                Some(day_number(date_of_text(after->Some_0)->Some_0))
            } else {
                None
            };
            let window_through = day_number(date_of_text(through)->Some_0);
            &&& forall|i: int| 0 <= i < days.len() ==> on_cadence(#[trigger] days[i], st, step)
            &&& forall|j: int|
                0 <= j && in_window(#[trigger] cadence_day(st, step, j), window_after, window_through) && (!more
                    || cadence_day(st, step, j) <= days.last()) ==> days.contains(cadence_day(st, step, j))
        },
{
    reveal(slot_plan);
    if schedule_valid(s) && 1 <= limit <= 200 && date_of_text(through) is Some && (after is Some ==> date_of_text(after->Some_0) is Some) && s.start_date is Some {
        let c = s.repeat->Some_0;
        let start = date_of_text(s.start_date->Some_0@)->Some_0;
        let after_date = if after is Some {
            date_of_text(after->Some_0)
        } else {
            None
        };
        let clock = if s.time is Some {
            clock_of_text(s.time->Some_0@)
        } else {
            None
        };
        let after_day = if after_date is Some {
            Some(day_number(after_date->Some_0))
        } else {
            None
        };
        let through_date = date_of_text(through)->Some_0;
        let through_day = day_number(through_date);
        assert(accepted_date(s.start_date->Some_0@, start));
        assert(accepted_date(through, through_date));
        if after is Some {
            assert(accepted_date(after->Some_0, after_date->Some_0));
        }
        lemma_day_number_range(start);
        lemma_day_number_range(through_date);
        let st = day_number(start);
        let step = unit * c.interval;
        let i0 = initial_index(Some(c), start, after_date);
        lemma_initial_index_nonnegative(Some(c), start, after_date);
        assert forall|j: int|
            0 <= j < i0 && in_window(#[trigger] cadence_day(st, step, j), after_day, through_day) implies Seq::<int>::empty().contains(
                cadence_day(st, step, j),
            ) by {
            let a = day_number(after_date->Some_0);
            let dist = (a - st) / unit;
            assert(i0 == dist / (c.interval as int));
            assert(cadence_day(st, step, j) <= a) by (nonlinear_arith)
                requires
                    0 <= j < i0,
                    i0 == dist / (c.interval as int),
                    dist == (a - st) / unit,
                    unit == 1 || unit == 7,
                    a > st,
                    c.interval >= 1,
                    step == unit * c.interval,
                    cadence_day(st, step, j) == st + step * j,
            ;
        }
        lemma_expand_steps(c, unit, start, after_day, through_day, limit, s.timezone@, clock, i0, 0, Seq::<int>::empty());
    }
}


/// A weekly schedule repeating every `k` weeks intends exactly the days a
/// whole number of `7 * k`-day steps on from its start: every day of a page
/// is one of them, and every one of them after the last persisted slot and
/// no later than `through` is on the page, up to its last day when more
/// remain.
pub proof fn law_weekly_slots_follow_interval(s: Schedule, after: Option<Seq<char>>, through: Seq<char>, limit: int)
    requires
        s.repeat is Some,
        s.repeat->Some_0.frequency == Frequency::Weekly,
    ensures
        slot_plan(s, after, through, limit) matches Ok(SlotPlan::Dated(days, more)) ==> {
            let st = day_number(date_of_text(s.start_date->Some_0@)->Some_0);
            let step = 7 * s.repeat->Some_0.interval;
            let window_after = if after is Some {
                Some(day_number(date_of_text(after->Some_0)->Some_0))
            } else {
                None
            };
            let window_through = day_number(date_of_text(through)->Some_0);
            &&& forall|i: int| 0 <= i < days.len() ==> on_cadence(#[trigger] days[i], st, step)
            &&& forall|j: int|
                0 <= j && in_window(#[trigger] cadence_day(st, step, j), window_after, window_through) && (!more
                    || cadence_day(st, step, j) <= days.last()) ==> days.contains(cadence_day(st, step, j))
        },
{
    lemma_slots_follow_steps(s, after, through, limit, 7);
}

/// A daily schedule repeating every `k` days intends exactly the days a
/// whole number of `k`-day steps on from its start, in the same sense.
pub proof fn law_daily_slots_follow_interval(s: Schedule, after: Option<Seq<char>>, through: Seq<char>, limit: int)
    requires
        s.repeat is Some,
        s.repeat->Some_0.frequency == Frequency::Daily,
    ensures
        slot_plan(s, after, through, limit) matches Ok(SlotPlan::Dated(days, more)) ==> {
            let st = day_number(date_of_text(s.start_date->Some_0@)->Some_0);
            let step = 1 * s.repeat->Some_0.interval;
            let window_after = if after is Some {
                Some(day_number(date_of_text(after->Some_0)->Some_0))
            } else {
                None
            };
            let window_through = day_number(date_of_text(through)->Some_0);
            &&& forall|i: int| 0 <= i < days.len() ==> on_cadence(#[trigger] days[i], st, step)
            &&& forall|j: int|
                0 <= j && in_window(#[trigger] cadence_day(st, step, j), window_after, window_through) && (!more
                    || cadence_day(st, step, j) <= days.last()) ==> days.contains(cadence_day(st, step, j))
        },
{
    lemma_slots_follow_steps(s, after, through, limit, 1);
}


/// How many months separate the month of `d` from that of `s`.
pub open spec fn month_distance(d: CivilDate, s: CivilDate) -> int {
    (d.year - s.year) * 12 + d.month - s.month
}

/// Whether a day is the start's day of the month a whole number of
/// `k`-month steps on from the start.
pub open spec fn on_month_cadence(dn: int, start: CivilDate, k: int) -> bool {
    exists|d: CivilDate|
        valid_date(d) && day_number(d) == dn && d.day == start.day && #[trigger] month_distance(d, start) >= 0
            && month_distance(d, start) % k == 0
}

/// Whether a day is the start's month and day a whole number of `k`-year
/// steps on from the start.
pub open spec fn on_year_cadence(dn: int, start: CivilDate, k: int) -> bool {
    exists|d: CivilDate|
        valid_date(d) && #[trigger] day_number(d) == dn && d.month == start.month && d.day == start.day && d.year
            >= start.year && (d.year - start.year) % k == 0
}

proof fn lemma_expand_months(
    c: Cadence,
    start: CivilDate,
    after: Option<int>,
    through: int,
    limit: int,
    zone: Seq<char>,
    clock: Option<int>,
    index: int,
    probes: int,
    acc: Seq<int>,
)
    requires
        c.frequency == Frequency::Monthly || c.frequency == Frequency::Yearly,
        1 <= c.interval,
        0 <= index,
        1 <= start.month <= 12,
        c.frequency == Frequency::Monthly ==> forall|i: int|
            0 <= i < acc.len() ==> on_month_cadence(#[trigger] acc[i], start, c.interval as int),
        c.frequency == Frequency::Yearly ==> forall|i: int|
            0 <= i < acc.len() ==> on_year_cadence(#[trigger] acc[i], start, c.interval as int),
    ensures
        expand(Some(c), start, after, through, limit, zone, clock, index, probes, acc) matches Ok((days, _)) ==> {
            &&& c.frequency == Frequency::Monthly ==> forall|i: int|
                0 <= i < days.len() ==> on_month_cadence(#[trigger] days[i], start, c.interval as int)
            &&& c.frequency == Frequency::Yearly ==> forall|i: int|
                0 <= i < days.len() ==> on_year_cadence(#[trigger] days[i], start, c.interval as int)
        },
    decreases 4096 - probes,
{
    lemma_expand_unfold(Some(c), start, after, through, limit, zone, clock, index, probes, acc);
    if probes >= 4096 {
        return;
    }
    let k = c.interval as int;
    let n = index * k;
    if n > u32::MAX {
        return;
    }
    if c.frequency == Frequency::Yearly && n * 12 > u32::MAX {
        return;
    }
    let m = if c.frequency == Frequency::Monthly {
        n
    } else {
        n * 12
    };
    assert(candidate_at(Some(c), start, index) == month_candidate(start, m));
    let absolute = start.year * 12 + (start.month - 1) + m;
    let d = CivilDate { year: (absolute / 12) as i32, month: (absolute % 12 + 1) as u32, day: start.day };
    match month_candidate(start, m) {
        Candidate::Day(dn) => {
            assert(valid_date(d) && dn == day_number(d));
            assert(n >= 0 && n % k == 0) by (nonlinear_arith)
                requires
                    n == index * k,
                    index >= 0,
                    k >= 1,
            ;
            if c.frequency == Frequency::Monthly {
                assert(month_distance(d, start) == m);
                assert(on_month_cadence(dn, start, k));
            } else {
                assert(absolute == 12 * (start.year + n) + (start.month - 1));
                assert(absolute / 12 == start.year + n);
                assert(absolute % 12 == start.month - 1);
                assert(d.year - start.year == n);
                assert(on_year_cadence(dn, start, k));
            }
            let grows = !(dn > through) && !(after is Some && dn <= after->Some_0) && acc.len() != limit
                && instant_ok(zone, clock, dn);
            if grows {
                let next = acc.push(dn);
                assert forall|i: int| 0 <= i < next.len() implies (c.frequency == Frequency::Monthly ==> on_month_cadence(
                    #[trigger] next[i],
                    start,
                    k,
                )) && (c.frequency == Frequency::Yearly ==> on_year_cadence(next[i], start, k)) by {
                    if i < acc.len() {
                        assert(next[i] == acc[i]);
                    }
                }
                lemma_expand_months(c, start, after, through, limit, zone, clock, index + 1, probes + 1, next);
            } else if !(dn > through) && after is Some && dn <= after->Some_0 {
                lemma_expand_months(c, start, after, through, limit, zone, clock, index + 1, probes + 1, acc);
            }
        },
        Candidate::Skip => {
            lemma_expand_months(c, start, after, through, limit, zone, clock, index + 1, probes + 1, acc);
        },
        _ => {},
    }
}

/// A monthly schedule repeating every `k` months intends only the start's
/// day of the month, a whole number of `k`-month steps on from the start.
pub proof fn law_monthly_slots_follow_interval(s: Schedule, after: Option<Seq<char>>, through: Seq<char>, limit: int)
    requires
        s.repeat is Some,
        s.repeat->Some_0.frequency == Frequency::Monthly,
    ensures
        slot_plan(s, after, through, limit) matches Ok(SlotPlan::Dated(days, _)) ==> forall|i: int|
            0 <= i < days.len() ==> on_month_cadence(
                #[trigger] days[i],
                date_of_text(s.start_date->Some_0@)->Some_0,
                s.repeat->Some_0.interval as int,
            ),
{
    lemma_slots_follow_months(s, after, through, limit);
}

/// A yearly schedule repeating every `k` years intends only the start's
/// month and day, a whole number of `k`-year steps on from the start.
pub proof fn law_yearly_slots_follow_interval(s: Schedule, after: Option<Seq<char>>, through: Seq<char>, limit: int)
    requires
        s.repeat is Some,
        s.repeat->Some_0.frequency == Frequency::Yearly,
    ensures
        slot_plan(s, after, through, limit) matches Ok(SlotPlan::Dated(days, _)) ==> forall|i: int|
            0 <= i < days.len() ==> on_year_cadence(
                #[trigger] days[i],
                date_of_text(s.start_date->Some_0@)->Some_0,
                s.repeat->Some_0.interval as int,
            ),
{
    lemma_slots_follow_months(s, after, through, limit);
}

proof fn lemma_slots_follow_months(s: Schedule, after: Option<Seq<char>>, through: Seq<char>, limit: int)
    requires
        s.repeat is Some,
        s.repeat->Some_0.frequency == Frequency::Monthly || s.repeat->Some_0.frequency == Frequency::Yearly,
    ensures
        slot_plan(s, after, through, limit) matches Ok(SlotPlan::Dated(days, _)) ==> {
            let start = date_of_text(s.start_date->Some_0@)->Some_0;
            let k = s.repeat->Some_0.interval as int;
            &&& s.repeat->Some_0.frequency == Frequency::Monthly ==> forall|i: int|
                0 <= i < days.len() ==> on_month_cadence(#[trigger] days[i], start, k)
            &&& s.repeat->Some_0.frequency == Frequency::Yearly ==> forall|i: int|
                0 <= i < days.len() ==> on_year_cadence(#[trigger] days[i], start, k)
        },
{
    reveal(slot_plan);
    if schedule_valid(s) && 1 <= limit <= 200 && date_of_text(through) is Some && (after is Some ==> date_of_text(after->Some_0) is Some) && s.start_date is Some {
        let c = s.repeat->Some_0;
        let start = date_of_text(s.start_date->Some_0@)->Some_0;
        let after_date = if after is Some {
            date_of_text(after->Some_0)
        } else {
            None
        };
        let clock = if s.time is Some {
            clock_of_text(s.time->Some_0@)
        } else {
            None
        };
        let after_day = if after_date is Some {
            Some(day_number(after_date->Some_0))
        } else {
            None
        };
        let through_day = day_number(date_of_text(through)->Some_0);
        assert(accepted_date(s.start_date->Some_0@, start));
        if after is Some {
            assert(accepted_date(after->Some_0, after_date->Some_0));
        }
        lemma_initial_index_nonnegative(Some(c), start, after_date);
        lemma_expand_months(c, start, after_day, through_day, limit, s.timezone@, clock, initial_index(Some(c), start, after_date), 0, Seq::<int>::empty());
    }
}

} // verus!
