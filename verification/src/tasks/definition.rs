//! Task definitions and the starting templates built from them.
use vstd::prelude::*;
use crate::error::ErrorCode;
use crate::tasks::decimal::Decimal;
use crate::tasks::goals::{Goal, Participation, goal_valid};
use crate::tasks::schedule::{Cadence, Frequency, Schedule, schedule_valid};
use crate::time::{date_of_text, tz_known};

verus! {

/// What happens to an unfinished occurrence when the next one opens.
#[derive(Clone, Copy, Debug, PartialEq, Eq, Structural)]
pub enum Carry {
    CloseIncomplete,
    RetainOne,
    Accumulate,
}

/// Everything that defines a task; persisted occurrences snapshot it.
pub struct Definition {
    pub schedule: Schedule,
    pub goal: Goal,
    pub carry: Carry,
    pub participation: Participation,
    /// Calendar days before/after the intended date; the end is exclusive.
    pub open_days_before: u16,
    pub close_days_after: u16,
    pub allow_streak_exclusions: bool,
}

/// The largest encoded definition, in bytes.
pub const MAX_ENCODED_DEFINITION: usize = 8192;

/// A definition the rules accept, given the length of its wire encoding: a
/// valid schedule and goal, an encoding of at most 8192 bytes, a window
/// opening at most 366 days early and closing 1 to 366 days after, and
/// pooled participation only for numeric goals.
pub open spec fn definition_valid(d: Definition, encoded_len: int) -> bool {
    &&& schedule_valid(d.schedule)
    &&& goal_valid(d.goal)
    &&& encoded_len <= MAX_ENCODED_DEFINITION
    &&& d.open_days_before <= 366
    &&& 1 <= d.close_days_after <= 366
    &&& (d.participation == Participation::Pooled ==> d.goal is Numeric)
}

impl Definition {
    /// Checks a definition whose wire encoding is `encoded_len` bytes long.
    pub fn validate(&self, encoded_len: usize) -> (r: Result<(), ErrorCode>)
        ensures
            r is Ok <==> definition_valid(*self, encoded_len as int),
            r matches Err(e) ==> e == ErrorCode::InvalidValue,
    {
        if self.schedule.validate().is_err() {
            return Err(ErrorCode::InvalidValue);
        }
        if self.goal.validate().is_err() {
            return Err(ErrorCode::InvalidValue);
        }
        if encoded_len > MAX_ENCODED_DEFINITION {
            return Err(ErrorCode::InvalidValue);
        }
        if !(self.open_days_before <= 366 && 1 <= self.close_days_after
            && self.close_days_after <= 366) {
            return Err(ErrorCode::InvalidValue);
        }
        let numeric = match &self.goal {
            Goal::Numeric { .. } => true,
            _ => false,
        };
        if self.participation == Participation::Pooled && !numeric {
            return Err(ErrorCode::InvalidValue);
        }
        Ok(())
    }
}

/// A named starting definition.
pub struct Preset {
    pub id: String,
    pub title: String,
    pub definition: Definition,
}

/// A template schedule: from `start` in zone `tz`, without a time, repeating
/// by `repeat`.
pub open spec fn preset_schedule(s: Schedule, start: Seq<char>, tz: Seq<char>, repeat: Cadence) -> bool {
    &&& s.start_date is Some
    &&& s.start_date->Some_0@ == start
    &&& s.time is None
    &&& s.timezone@ == tz
    &&& s.repeat == Some(repeat)
}

/// A numeric goal with only a minimum.
pub open spec fn minimum_goal(g: Goal, minimum: Seq<char>, unit: Seq<char>) -> bool {
    match g {
        Goal::Numeric { minimum: Some(m), maximum: None, unit: u } => m.0@ == minimum && u@ == unit,
        _ => false,
    }
}

/// A template definition: the daily, personal checkbox routine that closes
/// one day after, with the given changes.
pub open spec fn preset_definition(
    d: Definition,
    start: Seq<char>,
    tz: Seq<char>,
    repeat: Cadence,
    goal_ok: bool,
    carry: Carry,
    participation: Participation,
    close_days_after: int,
) -> bool {
    &&& preset_schedule(d.schedule, start, tz, repeat)
    &&& goal_ok
    &&& d.carry == carry
    &&& d.participation == participation
    &&& d.open_days_before == 0
    &&& d.close_days_after == close_days_after
    &&& !d.allow_streak_exclusions
}

/// The `k`-th template for a start date and zone.
pub open spec fn preset_at(k: int, p: Preset, start: Seq<char>, tz: Seq<char>) -> bool {
    let daily = Cadence { frequency: Frequency::Daily, interval: 1 };
    let d = p.definition;
    if k == 0 {
        p.id@ == "daily"@ && p.title@ == "Daily routine"@ && preset_definition(d, start, tz, daily,
            d.goal is Checkbox, Carry::CloseIncomplete, Participation::Personal, 1)
    } else if k == 1 {
        p.id@ == "chore"@ && p.title@ == "Shared persistent chore"@ && preset_definition(d, start,
            tz, daily, d.goal is Checkbox, Carry::RetainOne, Participation::Anyone, 1)
    } else if k == 2 {
        p.id@ == "weekly_quota"@ && p.title@ == "Three times a week"@ && preset_definition(d,
            start, tz, Cadence { frequency: Frequency::Weekly, interval: 1 }, minimum_goal(d.goal,
            "3"@, "times"@), Carry::CloseIncomplete, Participation::Personal, 7)
    } else if k == 3 {
        p.id@ == "joint"@ && p.title@ == "Joint daily routine"@ && preset_definition(d, start,
            tz, daily, d.goal is Checkbox, Carry::CloseIncomplete, Participation::Everyone, 1)
    } else if k == 4 {
        p.id@ == "focus_timer"@ && p.title@ == "25 minutes of focus"@ && preset_definition(d,
            start, tz, daily, minimum_goal(d.goal, "1500"@, "seconds"@), Carry::CloseIncomplete,
            Participation::Personal, 1)
    } else {
        p.id@ == "after_completion"@ && p.title@ == "Seven days after completion"@
            && preset_definition(d, start, tz, Cadence {
            frequency: Frequency::AfterCompletion,
            interval: 7,
        }, d.goal is Checkbox, Carry::RetainOne, Participation::Personal, 1)
    }
}

/// A template definition built from its parts (see `preset_definition`).
fn template(
    start_date: &str,
    timezone: &str,
    repeat: Cadence,
    goal: Goal,
    carry: Carry,
    participation: Participation,
    close_days_after: u16,
) -> (d: Definition)
    ensures
        preset_schedule(d.schedule, start_date@, timezone@, repeat),
        d.goal == goal,
        d.carry == carry,
        d.participation == participation,
        d.open_days_before == 0,
        d.close_days_after == close_days_after,
        !d.allow_streak_exclusions,
{
    Definition {
        schedule: Schedule {
            start_date: Some(start_date.to_owned()),
            time: None,
            timezone: timezone.to_owned(),
            repeat: Some(repeat),
        },
        goal,
        carry,
        participation,
        open_days_before: 0,
        close_days_after,
        allow_streak_exclusions: false,
    }
}

/// A numeric goal with only a minimum.
fn minimum(amount: &str, unit: &str) -> (g: Goal)
    ensures
        minimum_goal(g, amount@, unit@),
{
    Goal::Numeric { minimum: Some(Decimal(amount.to_owned())), maximum: None, unit: unit.to_owned() }
}

/// A named template.
fn preset(id: &str, title: &str, definition: Definition) -> (p: Preset)
    ensures
        p.id@ == id@,
        p.title@ == title@,
        p.definition == definition,
{
    Preset { id: id.to_owned(), title: title.to_owned(), definition }
}

/// Templates are ordinary definitions. Applying one adds no hidden behaviour
/// or policy; callers can customise the result before the usual create
/// command. They are offered for an accepted start date in a known zone.
pub fn presets(start_date: &str, timezone: &str) -> (r: Result<Vec<Preset>, ErrorCode>)
    ensures
        r is Ok <==> tz_known(timezone@) && date_of_text(start_date@) is Some,
        r matches Err(e) ==> e == ErrorCode::InvalidValue,
        r matches Ok(v) ==> v@.len() == 6 && forall|k: int|
            0 <= k < 6 ==> preset_at(k, #[trigger] v@[k], start_date@, timezone@),
{
    let daily = Cadence { frequency: Frequency::Daily, interval: 1 };
    let base = template(
        start_date,
        timezone,
        daily,
        Goal::Checkbox,
        Carry::CloseIncomplete,
        Participation::Personal,
        1,
    );
    if base.schedule.validate().is_err() {
        return Err(ErrorCode::InvalidValue);
    }
    let chore = template(
        start_date,
        timezone,
        daily,
        Goal::Checkbox,
        Carry::RetainOne,
        Participation::Anyone,
        1,
    );
    let quota = template(
        start_date,
        timezone,
        Cadence { frequency: Frequency::Weekly, interval: 1 },
        minimum("3", "times"),
        Carry::CloseIncomplete,
        Participation::Personal,
        7,
    );
    let joint = template(
        start_date,
        timezone,
        daily,
        Goal::Checkbox,
        Carry::CloseIncomplete,
        Participation::Everyone,
        1,
    );
    let timer = template(
        start_date,
        timezone,
        daily,
        minimum("1500", "seconds"),
        Carry::CloseIncomplete,
        Participation::Personal,
        1,
    );
    let relative = template(
        start_date,
        timezone,
        Cadence { frequency: Frequency::AfterCompletion, interval: 7 },
        Goal::Checkbox,
        Carry::RetainOne,
        Participation::Personal,
        1,
    );
    let mut v: Vec<Preset> = Vec::new();
    v.push(preset("daily", "Daily routine", base));
    v.push(preset("chore", "Shared persistent chore", chore));
    v.push(preset("weekly_quota", "Three times a week", quota));
    v.push(preset("joint", "Joint daily routine", joint));
    v.push(preset("focus_timer", "25 minutes of focus", timer));
    v.push(preset("after_completion", "Seven days after completion", relative));
    Ok(v)
}

} // verus!
