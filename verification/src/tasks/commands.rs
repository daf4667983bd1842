//! The rules a task command is held to before it changes anything: which
//! resource it concerns, which definition changes are compatible, and when
//! evidence may be recorded.
use vstd::prelude::*;
use crate::error::ErrorCode;
use crate::tasks::definition::{Carry, Definition};
use crate::tasks::goals::{Evidence, Participation};
use crate::tasks::schedule::{Frequency, Schedule, SlotPlan, slot_plan};
use crate::tasks::service::TaskCommand;
use crate::text::str_eq;
use crate::time::{
    local_day,
    CivilDate, MAX_DAY, MAX_SECOND, MIN_DAY, MIN_SECOND, date_from_day_number, day_number, iso_date, iso_date_exec,
    parse_date, date_of_text, tz_known, tz_wall_time, valid_date, zone_wall_time,
};

verus! {

/// The resource a task command concerns: the task, list, field or
/// occurrence whose readers learn of the change.
pub open spec fn command_root(c: TaskCommand) -> String {
    match c {
        TaskCommand::CreateTask { id, .. } => id,
        TaskCommand::ReviseTask { id, .. } => id,
        TaskCommand::CreateList { id, .. } => id,
        TaskCommand::EditList { id, .. } => id,
        TaskCommand::Archive { id, .. } => id,
        TaskCommand::PutField { id, .. } => id,
        TaskCommand::ReviseOccurrence { id, .. } => id,
        TaskCommand::SetRota { task_id, .. } => task_id,
        TaskCommand::RotaConsent { task_id, .. } => task_id,
        TaskCommand::Enrol { task_id, .. } => task_id,
        TaskCommand::Materialise { task_id, .. } => task_id,
        TaskCommand::Record { occurrence_id, .. } => occurrence_id,
        TaskCommand::Exclude { occurrence_id, .. } => occurrence_id,
        TaskCommand::Resolve { occurrence_id, .. } => occurrence_id,
        TaskCommand::CancelTimer { occurrence_id, .. } => occurrence_id,
        TaskCommand::StartTimer { occurrence_id, .. } => occurrence_id,
        TaskCommand::StopTimer { occurrence_id, .. } => occurrence_id,
        TaskCommand::SetDependencies { occurrence_id, .. } => occurrence_id,
        TaskCommand::CompleteDependencies { occurrence_id, .. } => occurrence_id,
        TaskCommand::ListItem { list_id, .. } => list_id,
    }
}

/// Commands after which completed after-completion occurrences are given
/// their successors.
pub open spec fn issues_successors(c: TaskCommand) -> bool {
    c is Record || c is CompleteDependencies || c is StopTimer || c is Materialise
        || c is ReviseOccurrence || c is Archive
}

impl TaskCommand {
    /// The resource the command concerns (see `command_root`).
    pub fn root(&self) -> (r: &String)
        ensures
            *r == command_root(*self),
    {
        match self {
            TaskCommand::CreateTask { id, .. } | TaskCommand::ReviseTask { id, .. }
            | TaskCommand::CreateList { id, .. } | TaskCommand::EditList { id, .. }
            | TaskCommand::Archive { id, .. } | TaskCommand::PutField { id, .. }
            | TaskCommand::ReviseOccurrence { id, .. } => id,
            TaskCommand::SetRota { task_id, .. } | TaskCommand::RotaConsent { task_id, .. }
            | TaskCommand::Enrol { task_id, .. } | TaskCommand::Materialise { task_id, .. } => task_id,
            TaskCommand::Record { occurrence_id, .. } | TaskCommand::Exclude { occurrence_id, .. }
            | TaskCommand::Resolve { occurrence_id, .. } | TaskCommand::CancelTimer {
                occurrence_id,
                ..
            } | TaskCommand::StartTimer { occurrence_id, .. } | TaskCommand::StopTimer {
                occurrence_id,
                ..
            } | TaskCommand::SetDependencies { occurrence_id, .. }
            | TaskCommand::CompleteDependencies { occurrence_id, .. } => occurrence_id,
            TaskCommand::ListItem { list_id, .. } => list_id,
        }
    }

    /// Whether successors are issued after the command (see
    /// `issues_successors`).
    pub fn completes_successors(&self) -> (b: bool)
        ensures
            b == issues_successors(*self),
    {
        match self {
            TaskCommand::Record { .. } | TaskCommand::CompleteDependencies { .. }
            | TaskCommand::StopTimer { .. } | TaskCommand::Materialise { .. }
            | TaskCommand::ReviseOccurrence { .. } | TaskCommand::Archive { .. } => true,
            _ => false,
        }
    }
}

/// Whether a schedule repeats after each completion.
pub open spec fn after_completion(s: Schedule) -> bool {
    s.repeat matches Some(c) && c.frequency == Frequency::AfterCompletion
}

/// A revised definition keeps the participation model of the task: whether
/// it repeats, whether it repeats after completion, and who participates.
/// Reinterpreting accepted enrolment would be unsafe; such a change needs a
/// new task.
pub open spec fn revision_compatible(old: Definition, new: Definition) -> bool {
    &&& (old.schedule.repeat is Some) == (new.schedule.repeat is Some)
    &&& after_completion(old.schedule) == after_completion(new.schedule)
    &&& old.participation == new.participation
}

fn repeats_after_completion(s: &Schedule) -> (b: bool)
    ensures
        b == after_completion(*s),
{
    match &s.repeat {
        Some(c) => c.frequency == Frequency::AfterCompletion,
        None => false,
    }
}

/// Refuses a definition revision that changes the participation model.
pub fn check_revision(old: &Definition, new: &Definition) -> (r: Result<(), ErrorCode>)
    ensures
        r is Ok <==> revision_compatible(*old, *new),
        r matches Err(e) ==> e == ErrorCode::InvalidValue,
{
    if old.schedule.repeat.is_some() != new.schedule.repeat.is_some() {
        return Err(ErrorCode::InvalidValue);
    }
    if repeats_after_completion(&old.schedule) != repeats_after_completion(&new.schedule) {
        return Err(ErrorCode::InvalidValue);
    }
    if old.participation != new.participation {
        return Err(ErrorCode::InvalidValue);
    }
    Ok(())
}

/// A personal task can only be joined by its owner.
pub fn check_enrolment(participation: Participation, actor: &str, owner: &str) -> (r: Result<
    (),
    ErrorCode,
>)
    ensures
        r is Ok <==> (participation != Participation::Personal || actor@ == owner@),
        r matches Err(e) ==> e == ErrorCode::Forbidden,
{
    if participation != Participation::Personal || str_eq(actor, owner) {
        Ok(())
    } else {
        Err(ErrorCode::Forbidden)
    }
}

/// Occurrences are materialised in batches of 1 to 16, at most 31 days past
/// the current date in the schedule's zone: the zone must be known,
/// `through` an accepted date, and `now` an instant whose wall time there chrono can give (see
/// `wall_in_range`).
pub open spec fn materialise_ok(limit: int, through: Seq<char>, zone: Seq<char>, now: int) -> bool {
    &&& 1 <= limit <= 16
    &&& tz_known(zone)
    &&& crate::time::wall_in_range(zone, now)
    &&& (date_of_text(through) matches Some(d) && day_number(d) <= local_day(zone, now) + 31)
}

/// Checks a request to materialise occurrences.
pub fn check_materialise(limit: u16, through: &str, zone: &str, now: i64) -> (r: Result<
    (),
    ErrorCode,
>)
    ensures
        r is Ok <==> materialise_ok(limit as int, through@, zone@, now as int),
        r matches Err(e) ==> e == ErrorCode::InvalidValue,
{
    if limit < 1 || limit > 16 {
        return Err(ErrorCode::InvalidValue);
    }
    if !crate::time::zone_known(zone) {
        return Err(ErrorCode::InvalidValue);
    }
    let wall = match zone_wall_time(zone, now) {
        Some(w) => w,
        None => return Err(ErrorCode::InvalidValue),
    };
    let today: i64 = (wall + 100_000_000 * 86400) / 86400 - 100_000_000;
    assert(today == local_day(zone@, now as int));
    let d = match parse_date(through) {
        Ok(d) => d,
        Err(e) => return Err(e),
    };
    proof {
        crate::time::lemma_day_number_bounds(d);
    }
    if crate::time::day_number_exec(d) <= today + 31 {
        Ok(())
    } else {
        Err(ErrorCode::InvalidValue)
    }
}

/// The date an enrolment created with a task starts from: the schedule's
/// start date, or else the UTC date of creation, reaching 30 days back for
/// an anchored task so that its bounded initial backlog counts.
pub open spec fn enrolment_start_of(start: Option<Seq<char>>, now: int, anchored: bool) -> Seq<char> {
    match start {
        Some(s) => s,
        None => {
            let day = now / 86400 - if anchored {
                30int
            } else {
                0int
            };
            iso_date(choose|d: CivilDate| valid_date(d) && day_number(d) == day)
        },
    }
}

/// Computes the start date of the creator's enrolment in a new task;
/// `InvalidValue` when `now` is not a representable instant.
pub fn enrolment_start(start: &Option<String>, now: i64, anchored: bool) -> (r: Result<
    String,
    ErrorCode,
>)
    requires
        now < MIN_SECOND || now > MAX_SECOND || MIN_SECOND + 30 * 86400 <= now,
    ensures
        MIN_SECOND <= now <= MAX_SECOND ==> (r matches Ok(s) && s@ == enrolment_start_of(
            match start {
                Some(s) => Some(s@),
                None => None,
            },
            now as int,
            anchored,
        )),
        !(MIN_SECOND <= now <= MAX_SECOND) ==> r == Err::<String, ErrorCode>(
            ErrorCode::InvalidValue,
        ),
{
    if now < MIN_SECOND || now > MAX_SECOND {
        return Err(ErrorCode::InvalidValue);
    }
    let back: i64 = if anchored {
        30
    } else {
        0
    };
    let day: i64 = (now - MIN_SECOND) / 86400 + MIN_SECOND / 86400 - back;
    assert(day == now / 86400 - back);
    let d = match date_from_day_number(day) {
        Some(d) => d,
        None => return Err(ErrorCode::InvalidValue),
    };
    let ghost chosen = choose|c: CivilDate| valid_date(c) && day_number(c) == day;
    proof {
        crate::time::lemma_day_number_injective(d, chosen);
    }
    let fallback = iso_date_exec(d);
    match start {
        Some(s) => Ok(s.clone()),
        None => Ok(fallback),
    }
}

/// Evidence may be dated at most five minutes ahead of the server clock,
/// at a representable instant.
pub fn check_entry_time(happened_at: i64, now: i64) -> (r: Result<(), ErrorCode>)
    requires
        now <= i64::MAX - 300,
    ensures
        r is Ok <==> happened_at <= now + 300 && MIN_SECOND <= happened_at <= MAX_SECOND,
        r matches Err(e) ==> e == ErrorCode::InvalidValue,
{
    if happened_at <= now + 300 && MIN_SECOND <= happened_at && happened_at <= MAX_SECOND {
        Ok(())
    } else {
        Err(ErrorCode::InvalidValue)
    }
}

/// An entry that is neither a quantity nor an observation, and replaces
/// nothing, must name the stream version it was made against (else
/// `InvalidValue`); a named version must be the current one (else
/// `Conflict`).
pub fn check_entry_version(evidence: &Evidence, replaces: bool, expected: Option<i64>, current: i64) -> (r:
    Result<(), ErrorCode>)
    ensures
        !(*evidence is Quantity || *evidence is Observe) && !replaces && expected is None ==> r
            == Err::<(), ErrorCode>(ErrorCode::InvalidValue),
        !(!(*evidence is Quantity || *evidence is Observe) && !replaces && expected is None) ==> (r
            is Ok <==> (expected matches Some(v) ==> v == current)),
        !(!(*evidence is Quantity || *evidence is Observe) && !replaces && expected is None) ==> (r
            matches Err(e) ==> e == ErrorCode::Conflict),
{
    let loose = match evidence {
        Evidence::Quantity { .. } | Evidence::Observe => true,
        _ => false,
    };
    if !loose && !replaces && expected.is_none() {
        return Err(ErrorCode::InvalidValue);
    }
    match expected {
        Some(v) => if v == current {
            Ok(())
        } else {
            Err(ErrorCode::Conflict)
        },
        None => Ok(()),
    }
}

/// Evidence falls inside the occurrence's window: not before it opens, and,
/// where unfinished work closes, before it closes.
pub open spec fn entry_in_window(happened_at: i64, opens_at: Option<i64>, closes_at: Option<i64>, carry: Carry) -> bool {
    &&& (opens_at matches Some(v) ==> happened_at >= v)
    &&& (carry == Carry::CloseIncomplete ==> (closes_at matches Some(v) ==> happened_at < v))
}

/// Refuses evidence outside the occurrence's window.
pub fn check_entry_window(happened_at: i64, opens_at: Option<i64>, closes_at: Option<i64>, carry: Carry) -> (r:
    Result<(), ErrorCode>)
    ensures
        r is Ok <==> entry_in_window(happened_at, opens_at, closes_at, carry),
        r matches Err(e) ==> e == ErrorCode::InvalidValue,
{
    if let Some(v) = opens_at {
        if happened_at < v {
            return Err(ErrorCode::InvalidValue);
        }
    }
    if carry == Carry::CloseIncomplete {
        if let Some(v) = closes_at {
            if happened_at >= v {
                return Err(ErrorCode::InvalidValue);
            }
        }
    }
    Ok(())
}

/// Streak exclusions are allowed where the definition permits them, on an
/// occurrence no chore covers.
pub fn check_exclusion(definition: &Definition, covered: bool) -> (r: Result<(), ErrorCode>)
    ensures
        r is Ok <==> definition.allow_streak_exclusions && !covered,
        r matches Err(e) ==> e == ErrorCode::InvalidValue,
{
    if definition.allow_streak_exclusions && !covered {
        Ok(())
    } else {
        Err(ErrorCode::InvalidValue)
    }
}

/// The kinds of resource the archive command applies to.
pub open spec fn archivable(kind: Seq<char>) -> bool {
    kind == "person"@ || kind == "field"@ || kind == "task"@ || kind == "list"@
}

/// Accepts a kind of resource that can be archived.
pub fn check_archivable(kind: &str) -> (r: Result<(), ErrorCode>)
    ensures
        r is Ok <==> archivable(kind@),
        r matches Err(e) ==> e == ErrorCode::InvalidValue,
{
    if str_eq(kind, "person") || str_eq(kind, "field") || str_eq(kind, "task") || str_eq(kind, "list") {
        Ok(())
    } else {
        Err(ErrorCode::InvalidValue)
    }
}

/// Accepts a kind of resource a field can be attached to: a person or a
/// task.
pub fn check_field_parent(kind: &str) -> (r: Result<(), ErrorCode>)
    ensures
        r is Ok <==> (kind@ == "person"@ || kind@ == "task"@),
        r matches Err(e) ==> e == ErrorCode::InvalidValue,
{
    if str_eq(kind, "person") || str_eq(kind, "task") {
        Ok(())
    } else {
        Err(ErrorCode::InvalidValue)
    }
}

/// The most active participants of one task.
pub const MAX_ENROLLED: i64 = 8;

/// The most tasks on one list.
pub const MAX_LIST_ITEMS: i64 = 100;

/// A count stays within its limit (else `SliceCapacity`).
pub fn within_capacity(count: i64, limit: i64) -> (r: Result<(), ErrorCode>)
    ensures
        r is Ok <==> count <= limit,
        r matches Err(e) ==> e == ErrorCode::SliceCapacity,
{
    if count <= limit {
        Ok(())
    } else {
        Err(ErrorCode::SliceCapacity)
    }
}


/// Whether a page of slots holds any slot.
pub open spec fn plan_has_slot(p: Result<SlotPlan, ErrorCode>) -> Result<bool, ErrorCode> {
    match p {
        Ok(SlotPlan::Once) => Ok(true),
        Ok(SlotPlan::Dated(days, _)) => Ok(days.len() > 0),
        Err(e) => Err(e),
    }
}

/// The date with a day number, where there is one.
pub open spec fn date_of_day(n: int) -> CivilDate {
    choose|d: CivilDate| valid_date(d) && day_number(d) == n
}

/// Whether a task has occurrences left to materialise by now: never for an
/// archived task or a one-off already created; otherwise whether its
/// schedule has a slot after the last one created, up to today in its
/// zone. A zone chrono-tz does not know, an instant outside chrono's range
/// or a local date outside it is `InvalidValue`.
pub open spec fn materialisation_due(
    archived: bool,
    s: Schedule,
    last_date: Option<Seq<char>>,
    once_created: bool,
    now: int,
) -> Result<bool, ErrorCode> {
    if archived {
        Ok(false)
    } else if s.repeat is None && once_created {
        Ok(false)
    } else if !tz_known(s.timezone@) || !crate::time::wall_in_range(s.timezone@, now) || !(MIN_DAY <= local_day(
        s.timezone@,
        now,
    ) <= MAX_DAY) {
        Err(ErrorCode::InvalidValue)
    } else {
        plan_has_slot(
            slot_plan(s, last_date, iso_date(date_of_day(local_day(s.timezone@, now))), 1),
        )
    }
}

/// Decides whether a task needs more occurrences (see `materialisation_due`).
pub fn due_for_materialisation(
    archived: bool,
    schedule: &Schedule,
    last_date: Option<&str>,
    once_created: bool,
    now: i64,
) -> (r: Result<bool, ErrorCode>)
    ensures
        r == materialisation_due(
            archived,
            *schedule,
            match last_date {
                Some(t) => Some(t@),
                None => None,
            },
            once_created,
            now as int,
        ),
{
    if archived {
        return Ok(false);
    }
    if schedule.repeat.is_none() && once_created {
        return Ok(false);
    }
    let zone = schedule.timezone.as_str();
    if !crate::time::zone_known(zone) {
        return Err(ErrorCode::InvalidValue);
    }
    let wall = match zone_wall_time(zone, now) {
        Some(w) => w,
        None => return Err(ErrorCode::InvalidValue),
    };
    let today: i64 = (wall + 100_000_000 * 86400) / 86400 - 100_000_000;
    assert(today == local_day(zone@, now as int));
    if today < MIN_DAY || today > MAX_DAY {
        return Err(ErrorCode::InvalidValue);
    }
    let d = match date_from_day_number(today) {
        Some(d) => d,
        None => return Err(ErrorCode::InvalidValue),
    };
    proof {
        crate::time::lemma_day_number_injective(d, date_of_day(today as int));
    }
    let text = iso_date_exec(d);
    match schedule.slots(last_date, text.as_str(), 1) {
        Ok((v, _)) => {
            Ok(v.len() > 0)
        },
        Err(e) => Err(e),
    }
}


/// How a task command goes on once its receipt and defaults are weighed.
#[derive(Clone, Copy, Debug, PartialEq, Eq, Structural)]
pub enum CommandStart {
    /// The operation ran already: answer with its stored revision.
    Replayed(i64),
    /// Run the command.
    Run,
}

/// How a task command begins. Its operation is named by a canonical UUID;
/// a stored receipt replays or conflicts (see `replay_of`, over the
/// command's `payload`); otherwise the command's references must resolve
/// (`resolved`: the person it names, as the caller found it), and a
/// command made against a revision of the defaults only runs while that
/// revision is still the current one.
pub open spec fn command_start_of(
    operation: Seq<char>,
    stored: Option<crate::receipts::StoredReceipt>,
    payload: Seq<char>,
    resolved: Result<(), ErrorCode>,
    expected_defaults: Option<Seq<char>>,
    current_defaults: Seq<char>,
) -> Result<CommandStart, ErrorCode> {
    if !crate::is_canonical_uuid(operation) {
        Err(ErrorCode::InvalidValue)
    } else {
        match crate::receipts::replay_of(stored, payload) {
            Err(e) => Err(e),
            Ok(Some(revision)) => Ok(CommandStart::Replayed(revision)),
            Ok(None) => match resolved {
                Err(e) => Err(e),
                Ok(_) => if expected_defaults matches Some(x) && x != current_defaults {
                    Err(ErrorCode::DefaultsChanged)
                } else {
                    Ok(CommandStart::Run)
                },
            },
        }
    }
}

/// Decides how a task command begins (see `command_start_of`).
pub fn command_start(
    operation: &str,
    stored: Option<crate::receipts::StoredReceipt>,
    payload: &str,
    resolved: Result<(), ErrorCode>,
    expected_defaults: Option<&str>,
    current_defaults: &str,
) -> (r: Result<CommandStart, ErrorCode>)
    ensures
        r == command_start_of(
            operation@,
            stored,
            payload@,
            resolved,
            match expected_defaults {
                Some(x) => Some(x@),
                None => None,
            },
            current_defaults@,
        ),
{
    if crate::identifier(operation).is_err() {
        return Err(ErrorCode::InvalidValue);
    }
    match crate::receipts::replay(stored, payload) {
        Err(e) => Err(e),
        Ok(Some(revision)) => Ok(CommandStart::Replayed(revision)),
        Ok(None) => match resolved {
            Err(e) => Err(e),
            Ok(()) => match expected_defaults {
                Some(x) => if str_eq(x, current_defaults) {
                    Ok(CommandStart::Run)
                } else {
                    Err(ErrorCode::DefaultsChanged)
                },
                None => Ok(CommandStart::Run),
            },
        },
    }
}

} // verus!
