use atlas_core::calendars::anchors::{Anchor, Offset, Reference};
use atlas_core::calendars::ics::{Event, EventStatus, EventTime, Feed};
use atlas_core::calendars::reconcile::{
    admits_new, anchored_step, candidate_date, candidate_years, eligible, key_year, text_contains,
    unavailable, AnchoredState, AnchoredStep, ReviewReason,
};
use atlas_core::calendars::refresh::{
    begin_lease, check_failure, check_import, check_lease, event_id, import_step, import_writes,
    next_refresh, refresh_commit_step, same_event, settle, settle_writes, stored_step, ImportStep,
    RefreshStart, SourceRow, StoredStep,
};
use atlas_core::calendars::reminders::{
    check_delivery, check_rule_change, check_subscription, check_subscription_change,
    delivery_id, delivery_revision, delivery_window, finish_attempt, reminder_active,
    DeliveryMode, DeliveryState, ReminderRule,
};
use atlas_core::calendars::service::{check_source, check_source_owner};
use atlas_core::error::ErrorCode;
use atlas_core::tasks::commands::{
    check_archivable, check_entry_time, check_entry_version, check_entry_window, check_enrolment,
    check_exclusion, check_field_parent, check_materialise, check_revision, due_for_materialisation,
    enrolment_start,
    within_capacity,
};
use atlas_core::tasks::decimal::Decimal;
use atlas_core::tasks::definition::{Carry, Definition};
use atlas_core::tasks::dependencies::{
    check_completable, check_completion, check_prerequisite, check_prerequisites,
    completion_entry_id, completion_evidence, item_recorded, offer,
};
use atlas_core::tasks::goals::{Evidence, Goal, Outcome, Participation};
use atlas_core::tasks::lifecycle::{covering, first_check, order_chronologically, CoverCandidate, SlotRow};
use atlas_core::tasks::outcomes::{
    counted_evidence, occurrence_outcome, personal_outcome, OutcomeContext, StreamView,
};
use atlas_core::tasks::rotas::{assignment, check_consent, check_rota_people, check_rota_task, rota_turn};
use atlas_core::tasks::schedule::{Cadence, Frequency, Schedule};
use atlas_core::tasks::service::{CompletionMode, DependencyItem, Entry, TaskCommand, ViewFilter};
use atlas_core::tasks::successors::{
    completion_counted, latest_evidence, successor_plan, successor_slot, successor_step, SuccessorPlan,
    SuccessorStep,
};
use atlas_core::tasks::timers::{
    check_no_overlap, check_start, check_stop, check_timer_goal, overlapping, timer_record, SessionSpan,
};
use atlas_core::tasks::views::{actionable, check_view_filter, counts_for_streak, matches_state, on_day, ActionContext};
use atlas_core::time::CivilDate;

const TASK: &str = "6f9619ff-8b86-4d01-b42d-00cf4fc964ff";
const REMINDER: &str = "0f8fad5b-d9cb-469f-a165-70867728950e";
/// 2024-01-10 12:00:00 UTC, a Wednesday.
const NOON: i64 = 1704888000;

fn s(v: &str) -> String {
    v.to_string()
}

fn schedule(time: Option<&str>, zone: &str, repeat: Option<Cadence>) -> Schedule {
    Schedule { start_date: Some(s("2024-01-01")), time: time.map(s), timezone: s(zone), repeat }
}

fn definition(repeat: Option<Cadence>, participation: Participation) -> Definition {
    Definition {
        schedule: schedule(None, "UTC", repeat),
        goal: Goal::Checkbox,
        carry: Carry::RetainOne,
        participation,
        open_days_before: 0,
        close_days_after: 1,
        allow_streak_exclusions: true,
    }
}

fn after_completion(interval: u16) -> Option<Cadence> {
    Some(Cadence { frequency: Frequency::AfterCompletion, interval })
}

#[test]
fn successors_follow_completion() {
    assert_eq!(successor_step(Outcome::Complete, Carry::RetainOne, Some(5)), SuccessorStep::Issue(5));
    assert_eq!(successor_step(Outcome::Complete, Carry::RetainOne, None), SuccessorStep::Wait);
    assert_eq!(successor_step(Outcome::Missed, Carry::CloseIncomplete, Some(5)), SuccessorStep::Abandon);
    assert_eq!(successor_step(Outcome::Missed, Carry::RetainOne, Some(5)), SuccessorStep::Wait);
    assert_eq!(successor_step(Outcome::Incomplete, Carry::CloseIncomplete, None), SuccessorStep::Wait);
    let bounded = Goal::Numeric { minimum: None, maximum: Some(Decimal(s("3"))), unit: s("times") };
    assert_eq!(completion_counted(&bounded, 100, Some(200)), 200);
    assert_eq!(completion_counted(&bounded, 300, Some(200)), 300);
    assert_eq!(completion_counted(&Goal::Checkbox, 100, Some(200)), 100);
}

#[test]
fn a_successor_is_dated_after_the_local_completion_date() {
    let untimed = schedule(None, "UTC", after_completion(3));
    let slot = successor_slot(&untimed, "occ", NOON, 3).unwrap();
    assert_eq!(slot.key, "after:occ");
    assert_eq!(slot.date.as_deref(), Some("2024-01-13"));
    assert_eq!(slot.instant, None);
    let timed = schedule(Some("09:30:00"), "Europe/London", after_completion(3));
    let slot = successor_slot(&timed, "occ", NOON, 3).unwrap();
    assert_eq!(slot.instant, Some(1705138200));
    assert_eq!(slot.intended_time.as_deref(), Some("09:30:00"));
    // 23:30 UTC is already the next day in Tokyo.
    let tokyo = schedule(None, "Asia/Tokyo", after_completion(3));
    let slot = successor_slot(&tokyo, "occ", 1704929400, 3).unwrap();
    assert_eq!(slot.date.as_deref(), Some("2024-01-14"));
    assert!(matches!(successor_slot(&untimed, "occ", i64::MAX, 3), Err(ErrorCode::InvalidValue)));
}

#[test]
fn task_command_roots() {
    let record = TaskCommand::Record {
        occurrence_id: s("occ"),
        subject_account_id: s("me"),
        entry_id: s("e"),
        evidence: Evidence::Checkbox { complete: true },
        replaces: None,
        expected_version: None,
        happened_at: 0,
    };
    assert_eq!(record.root(), "occ");
    assert!(record.completes_successors());
    let list = TaskCommand::ListItem { list_id: s("l"), expected_version: 1, task_id: s("t"), included: true };
    assert_eq!(list.root(), "l");
    assert!(!list.completes_successors());
}

#[test]
fn revisions_keep_the_participation_model() {
    let daily = Some(Cadence { frequency: Frequency::Daily, interval: 1 });
    let old = definition(daily, Participation::Everyone);
    assert_eq!(check_revision(&old, &definition(Some(Cadence { frequency: Frequency::Weekly, interval: 2 }), Participation::Everyone)), Ok(()));
    assert_eq!(check_revision(&old, &definition(None, Participation::Everyone)), Err(ErrorCode::InvalidValue));
    assert_eq!(check_revision(&old, &definition(after_completion(2), Participation::Everyone)), Err(ErrorCode::InvalidValue));
    assert_eq!(check_revision(&old, &definition(daily, Participation::Pooled)), Err(ErrorCode::InvalidValue));
}

#[test]
fn enrolment_rules() {
    assert_eq!(check_enrolment(Participation::Personal, "a", "b"), Err(ErrorCode::Forbidden));
    assert_eq!(check_enrolment(Participation::Personal, "a", "a"), Ok(()));
    assert_eq!(check_enrolment(Participation::Anyone, "a", "b"), Ok(()));
    assert_eq!(enrolment_start(&None, NOON, false).unwrap(), "2024-01-10");
    assert_eq!(enrolment_start(&None, NOON, true).unwrap(), "2023-12-11");
    assert_eq!(enrolment_start(&Some(s("2024-05-01")), NOON, true).unwrap(), "2024-05-01");
    assert_eq!(within_capacity(8, 8), Ok(()));
    assert_eq!(within_capacity(9, 8), Err(ErrorCode::SliceCapacity));
}

#[test]
fn materialisation_reaches_a_month_ahead() {
    assert_eq!(check_materialise(5, "2024-02-10", "UTC", NOON), Ok(()));
    assert_eq!(check_materialise(5, "2024-02-11", "UTC", NOON), Err(ErrorCode::InvalidValue));
    assert_eq!(check_materialise(0, "2024-02-10", "UTC", NOON), Err(ErrorCode::InvalidValue));
    assert_eq!(check_materialise(17, "2024-02-10", "UTC", NOON), Err(ErrorCode::InvalidValue));
    assert_eq!(check_materialise(5, "2024-02-10", "Nowhere/City", NOON), Err(ErrorCode::InvalidValue));
    assert_eq!(check_materialise(5, "2024-2-10", "UTC", NOON), Err(ErrorCode::InvalidValue));
}

#[test]
fn evidence_rules() {
    assert_eq!(check_entry_time(NOON + 300, NOON), Ok(()));
    assert_eq!(check_entry_time(NOON + 301, NOON), Err(ErrorCode::InvalidValue));
    let tick = Evidence::Checkbox { complete: true };
    let amount = Evidence::Quantity { amount: Decimal(s("1")) };
    assert_eq!(check_entry_version(&tick, false, None, 3), Err(ErrorCode::InvalidValue));
    assert_eq!(check_entry_version(&amount, false, None, 3), Ok(()));
    assert_eq!(check_entry_version(&tick, true, None, 3), Ok(()));
    assert_eq!(check_entry_version(&tick, false, Some(2), 3), Err(ErrorCode::Conflict));
    assert_eq!(check_entry_version(&tick, false, Some(3), 3), Ok(()));
    assert_eq!(check_entry_window(99, Some(100), None, Carry::RetainOne), Err(ErrorCode::InvalidValue));
    assert_eq!(check_entry_window(200, Some(100), Some(200), Carry::CloseIncomplete), Err(ErrorCode::InvalidValue));
    assert_eq!(check_entry_window(200, Some(100), Some(200), Carry::RetainOne), Ok(()));
    assert_eq!(check_exclusion(&definition(None, Participation::Everyone), false), Ok(()));
    assert_eq!(check_exclusion(&definition(None, Participation::Everyone), true), Err(ErrorCode::InvalidValue));
    assert_eq!(check_archivable("list"), Ok(()));
    assert_eq!(check_archivable("event"), Err(ErrorCode::InvalidValue));
    assert_eq!(check_field_parent("task"), Ok(()));
    assert_eq!(check_field_parent("list"), Err(ErrorCode::InvalidValue));
}

#[test]
fn timers() {
    let seconds = Goal::Numeric { minimum: None, maximum: None, unit: s("seconds") };
    assert_eq!(check_timer_goal(&seconds, false), Ok(()));
    assert_eq!(check_timer_goal(&seconds, true), Err(ErrorCode::InvalidValue));
    assert_eq!(check_timer_goal(&Goal::Checkbox, false), Err(ErrorCode::InvalidValue));
    assert_eq!(check_start(NOON + 300, NOON, None), Ok(()));
    assert_eq!(check_start(NOON, NOON, Some(NOON + 1)), Err(ErrorCode::InvalidValue));
    assert_eq!(check_stop(1, 1, false, 100, 200, 1000), Ok(()));
    assert_eq!(check_stop(1, 1, true, 100, 200, 1000), Err(ErrorCode::Conflict));
    assert_eq!(check_stop(1, 2, false, 100, 200, 1000), Err(ErrorCode::Conflict));
    assert_eq!(check_stop(1, 1, false, 100, 100, 1000), Err(ErrorCode::InvalidValue));
    assert_eq!(check_stop(1, 1, false, 0, 604801, 700000), Err(ErrorCode::InvalidValue));
}

#[test]
fn one_running_session_per_account() {
    let sessions = vec![
        SessionSpan { started_at: 10, stopped_at: Some(20) },
        SessionSpan { started_at: 30, stopped_at: None },
    ];
    assert_eq!(overlapping(&sessions, 15), 2);
    assert_eq!(overlapping(&sessions, 25), 1);
    assert_eq!(check_no_overlap(overlapping(&sessions, 25)), Err(ErrorCode::Conflict));
    let stopped = vec![SessionSpan { started_at: 10, stopped_at: Some(20) }];
    assert_eq!(check_no_overlap(overlapping(&stopped, 20)), Ok(()));
}

#[test]
fn a_stopped_session_records_its_seconds() {
    match timer_record(s("occ"), s("me"), TASK, 100, 190) {
        TaskCommand::Record { occurrence_id, subject_account_id, entry_id, evidence, replaces, expected_version, happened_at } => {
            assert_eq!(occurrence_id, "occ");
            assert_eq!(subject_account_id, "me");
            assert_eq!(entry_id, "fdeaa8f6-96a8-54ea-a61f-929d6d306e36");
            assert!(matches!(evidence, Evidence::Quantity { amount } if amount.0 == "90"));
            assert!(replaces.is_none() && expected_version.is_none());
            assert_eq!(happened_at, 190);
        },
        _ => panic!("expected a record"),
    }
}

#[test]
fn rotas_take_turns() {
    assert_eq!(check_rota_task(Participation::Anyone), Ok(()));
    assert_eq!(check_rota_task(Participation::Everyone), Err(ErrorCode::InvalidValue));
    assert_eq!(check_rota_people(&[s("a"), s("b")]), Ok(()));
    assert_eq!(check_rota_people(&[s("a"), s("a")]), Err(ErrorCode::InvalidValue));
    let nine: Vec<String> = (0..9).map(|i| i.to_string()).collect();
    assert_eq!(check_rota_people(&nine), Err(ErrorCode::InvalidValue));
    assert_eq!(check_consent(2, 2, true, true), Ok(()));
    assert_eq!(check_consent(2, 2, true, false), Err(ErrorCode::Conflict));
    assert_eq!(check_consent(1, 2, false, false), Err(ErrorCode::Conflict));
    assert_eq!(rota_turn(0, 5), Ok(None));
    assert_eq!(rota_turn(3, -1), Err(ErrorCode::InvalidValue));
    assert_eq!(rota_turn(3, i64::MAX), Err(ErrorCode::InvalidValue));
    let turns: Vec<usize> = (10..13).map(|o| rota_turn(3, o).unwrap().unwrap()).collect();
    assert_eq!(turns, vec![1, 2, 0]);
    let eligible = [s("a"), s("b")];
    assert_eq!(assignment(5, 7, &s("b"), true, &eligible).account_id.as_deref(), Some("b"));
    assert_eq!(assignment(5, 7, &s("b"), false, &eligible).account_id, None);
    assert_eq!(assignment(5, 7, &s("c"), true, &eligible).account_id, None);
}

#[test]
fn dependency_rules() {
    let many: Vec<String> = (0..33).map(|i| i.to_string()).collect();
    assert_eq!(check_prerequisites(&many), Err(ErrorCode::InvalidValue));
    assert_eq!(check_prerequisites(&[s("a"), s("a")]), Err(ErrorCode::InvalidValue));
    assert_eq!(check_prerequisites(&[s("a"), s("b")]), Ok(()));
    assert_eq!(check_prerequisite("a", "a", false), Err(ErrorCode::InvalidValue));
    assert_eq!(check_prerequisite("a", "b", true), Err(ErrorCode::Conflict));
    assert_eq!(check_prerequisite("a", "b", false), Ok(()));
    assert_eq!(offer(&Goal::Checkbox, false, Some((true, 4)), false, Participation::Everyone), (true, Some(4)));
    assert_eq!(offer(&Goal::Checkbox, false, None, true, Participation::Anyone), (true, Some(1)));
    assert_eq!(offer(&Goal::Checkbox, false, None, true, Participation::Everyone), (false, None));
    assert_eq!(offer(&Goal::Checkbox, true, Some((true, 4)), false, Participation::Everyone), (false, Some(4)));
    assert_eq!(check_completion("t", "t", CompletionMode::AdvisoryOverride, true, false), Err(ErrorCode::Conflict));
    assert_eq!(check_completion("t", "u", CompletionMode::RequireSatisfied, false, false), Err(ErrorCode::Conflict));
    assert_eq!(check_completion("t", "t", CompletionMode::CompletePrerequisites, false, true), Err(ErrorCode::Conflict));
    assert_eq!(check_completion("t", "t", CompletionMode::AdvisoryOverride, false, true), Ok(()));
    let item = |id: &str, complete: bool| DependencyItem {
        occurrence_id: s(id),
        task_id: s("t"),
        complete,
        can_complete: true,
        progress_version: None,
    };
    assert!(item_recorded(&item("root", true), "root", CompletionMode::RequireSatisfied));
    assert!(!item_recorded(&item("pre", false), "root", CompletionMode::RequireSatisfied));
    assert!(item_recorded(&item("pre", false), "root", CompletionMode::CompletePrerequisites));
    assert!(!item_recorded(&item("pre", true), "root", CompletionMode::CompletePrerequisites));
    assert_eq!(check_completable(true, true, false), Ok(()));
    assert_eq!(check_completable(false, true, false), Err(ErrorCode::Conflict));
    assert!(matches!(
        completion_evidence(true, Some(Evidence::Quantity { amount: Decimal(s("2")) })),
        Evidence::Quantity { .. }
    ));
    assert!(matches!(
        completion_evidence(false, Some(Evidence::Quantity { amount: Decimal(s("2")) })),
        Evidence::Checkbox { complete: true }
    ));
    assert_eq!(completion_entry_id(TASK, "occ", REMINDER).unwrap(), "8f3fab90-f2b6-56bd-8c6f-b41352976ed7");
    assert!(matches!(completion_entry_id("op", "occ", REMINDER), Err(ErrorCode::InvalidValue)));
}

fn row(date: Option<&str>, time: Option<&str>, key: &str, id: &str) -> SlotRow {
    SlotRow { date: date.map(s), time: time.map(s), key: s(key), id: s(id) }
}

#[test]
fn occurrences_run_in_chronological_order() {
    let rows = vec![
        row(Some("2024-01-02"), None, "k", "b"),
        row(None, None, "once", "z"),
        row(Some("2024-01-01"), Some("09:00:00"), "k", "c"),
        row(Some("2024-01-01"), None, "k", "d"),
    ];
    let ids: Vec<String> = order_chronologically(rows).into_iter().map(|r| r.id).collect();
    assert_eq!(ids, vec!["z", "d", "c", "b"]);
    let c = |covered, resolved, publicly_complete| CoverCandidate { covered, resolved, publicly_complete };
    assert_eq!(covering(&[c(true, false, false), c(false, false, true), c(false, false, false)]), Some(2));
    assert_eq!(covering(&[c(false, true, false)]), None);
    assert_eq!(first_check(Some(200), 100), 200);
    assert_eq!(first_check(Some(50), 100), 100);
    assert_eq!(first_check(None, 100), 100);
}

fn tick(at: i64) -> Entry {
    Entry { id: s("e"), evidence: Evidence::Checkbox { complete: true }, happened_at: at, recorded_by: s("me") }
}

fn context(participation: Participation, covered: bool) -> OutcomeContext {
    OutcomeContext {
        goal: Goal::Checkbox,
        participation,
        allow_exclusions: true,
        opens_at: Some(100),
        closes_at: Some(200),
        covered,
    }
}

#[test]
fn periods_count_only_evidence_in_their_window() {
    assert_eq!(counted_evidence(vec![tick(50), tick(150), tick(250)], false, Some(100), Some(200)).len(), 3);
    assert_eq!(counted_evidence(vec![tick(50), tick(150), tick(250)], true, Some(100), Some(200)).len(), 1);
}

#[test]
fn occurrence_outcomes() {
    let view = |usable, excluded, entries: Vec<Entry>| StreamView { usable, excluded, entries };
    assert_eq!(occurrence_outcome(&context(Participation::Everyone, true), vec![], 250, false), Ok(Outcome::Missed));
    assert_eq!(occurrence_outcome(&context(Participation::Everyone, true), vec![], 150, false), Ok(Outcome::Incomplete));
    assert_eq!(
        occurrence_outcome(&context(Participation::Everyone, false), vec![view(true, true, vec![]), view(true, true, vec![])], 150, false),
        Ok(Outcome::Excluded)
    );
    assert_eq!(
        occurrence_outcome(&context(Participation::Everyone, false), vec![view(true, false, vec![tick(150)]), view(true, false, vec![tick(160)])], 150, false),
        Ok(Outcome::Complete)
    );
    assert_eq!(
        occurrence_outcome(&context(Participation::Everyone, false), vec![view(true, false, vec![tick(150)]), view(false, false, vec![tick(160)])], 150, false),
        Ok(Outcome::Unknown)
    );
    // An excluded stream of an Anyone task proves nothing.
    assert_eq!(
        occurrence_outcome(&context(Participation::Anyone, false), vec![view(true, true, vec![tick(150)])], 150, false),
        Ok(Outcome::Unknown)
    );
    // Late evidence does not count for the period.
    assert_eq!(
        occurrence_outcome(&context(Participation::Everyone, false), vec![view(true, false, vec![tick(250)])], 300, true),
        Ok(Outcome::Missed)
    );
}

#[test]
fn personal_outcomes() {
    assert_eq!(personal_outcome(&context(Participation::Everyone, true), true, None, 150, false), Ok(Some(Outcome::Incomplete)));
    assert_eq!(personal_outcome(&context(Participation::Everyone, false), true, None, 150, false), Ok(None));
    assert_eq!(personal_outcome(&context(Participation::Everyone, false), true, Some((true, vec![])), 150, false), Ok(Some(Outcome::Excluded)));
    assert_eq!(personal_outcome(&context(Participation::Everyone, false), true, Some((false, vec![tick(150)])), 150, false), Ok(Some(Outcome::Complete)));
}

fn filter() -> ViewFilter {
    ViewFilter {
        task_id: None,
        list_id: None,
        day: None,
        timezone: None,
        state: None,
        after: None,
        limit: None,
        revision: None,
        scope: None,
    }
}

#[test]
fn view_requests() {
    assert_eq!(check_view_filter(&filter()), Ok(50));
    assert_eq!(check_view_filter(&ViewFilter { limit: Some(200), ..filter() }), Ok(200));
    assert_eq!(check_view_filter(&ViewFilter { limit: Some(0), ..filter() }), Err(ErrorCode::InvalidValue));
    assert_eq!(check_view_filter(&ViewFilter { state: Some(s("weird")), ..filter() }), Err(ErrorCode::InvalidValue));
    assert_eq!(check_view_filter(&ViewFilter { after: Some(s("x")), ..filter() }), Err(ErrorCode::InvalidValue));
    assert_eq!(check_view_filter(&ViewFilter { after: Some(s("x")), revision: Some(3), ..filter() }), Ok(50));
    assert_eq!(check_view_filter(&ViewFilter { scope: Some(s("team")), ..filter() }), Err(ErrorCode::InvalidValue));
}

#[test]
fn actionable_occurrences() {
    let c = ActionContext {
        participant: true,
        participation: Participation::Everyone,
        can_edit: false,
        resolved: false,
        covered: false,
        opens_at: Some(100),
        closes_at: Some(200),
        carry: Carry::CloseIncomplete,
    };
    assert!(actionable(&c, Outcome::Incomplete, 150));
    assert!(!actionable(&c, Outcome::Incomplete, 99));
    assert!(!actionable(&c, Outcome::Incomplete, 200));
    assert!(actionable(&ActionContext { carry: Carry::RetainOne, ..c }, Outcome::Incomplete, 200));
    assert!(!actionable(&c, Outcome::Complete, 150));
    assert!(!actionable(&ActionContext { participant: false, ..c }, Outcome::Incomplete, 150));
    assert!(actionable(&ActionContext { participant: false, participation: Participation::Anyone, can_edit: true, ..c }, Outcome::Incomplete, 150));
    assert!(matches_state(Some("missed"), false, Outcome::Incomplete, Outcome::Missed));
    assert!(!matches_state(Some("complete"), false, Outcome::Incomplete, Outcome::Missed));
    assert!(matches_state(None, false, Outcome::Incomplete, Outcome::Missed));
    assert!(counts_for_streak(Some(100), Some(200), 250, Outcome::Missed));
    assert!(!counts_for_streak(Some(100), Some(200), 150, Outcome::Incomplete));
    assert!(counts_for_streak(Some(100), Some(200), 150, Outcome::Complete));
    assert!(!counts_for_streak(Some(300), Some(400), 150, Outcome::Complete));
}

#[test]
fn day_pages() {
    assert_eq!(on_day(Some(NOON), None, None, false, "2024-01-10", "UTC"), Ok(true));
    assert_eq!(on_day(Some(NOON), None, None, false, "2024-01-11", "UTC"), Ok(false));
    assert_eq!(on_day(Some(NOON), None, None, true, "2024-01-11", "UTC"), Ok(true));
    assert_eq!(on_day(Some(NOON), None, Some(NOON + 2 * 86400), true, "2024-01-11", "UTC"), Ok(false));
    assert_eq!(on_day(None, Some("2024-01-11"), None, false, "2024-01-11", "UTC"), Ok(true));
    assert_eq!(on_day(None, None, None, false, "2024-01-11", "Nowhere"), Err(ErrorCode::InvalidValue));
    assert_eq!(on_day(None, None, None, false, "11/01/2024", "UTC"), Err(ErrorCode::InvalidValue));
}

fn anchor(weekdays: Vec<u32>, title: Option<&str>) -> Anchor {
    Anchor {
        reference: Reference::PersonDate { field_id: s("f"), annual: true },
        offset: Offset::CalendarDays { days: 0, time: None },
        weekdays,
        title_contains: title.map(s),
    }
}

#[test]
fn anchor_eligibility() {
    let wednesday = CivilDate { year: 2024, month: 1, day: 10 };
    assert!(eligible(&anchor(vec![3], Some("Gym")), wednesday, "Morning GYM class"));
    assert!(!eligible(&anchor(vec![1], None), wednesday, "Anything"));
    assert!(!eligible(&anchor(vec![], Some("gym")), wednesday, "Swim"));
    assert!(eligible(&anchor(vec![], None), wednesday, ""));
    let h: Vec<char> = "abcabd".chars().collect();
    assert!(text_contains(&h, &['a', 'b', 'd']));
    assert!(!text_contains(&h, &['a', 'b', 'e']));
    assert!(text_contains(&h, &[]));
}

#[test]
fn person_dates_and_their_years() {
    assert_eq!(candidate_date(2023, 2, 29, true), Some(CivilDate { year: 2023, month: 2, day: 28 }));
    assert_eq!(candidate_date(2023, 2, 29, false), None);
    assert_eq!(candidate_date(2024, 2, 29, false), Some(CivilDate { year: 2024, month: 2, day: 29 }));
    assert_eq!(key_year("field:2023"), Ok(Some(2023)));
    assert_eq!(key_year("a:b:+12"), Ok(Some(12)));
    assert_eq!(key_year("plain"), Ok(None));
    assert_eq!(key_year("f:abc"), Err(ErrorCode::InvalidValue));
    assert_eq!(key_year("x:"), Err(ErrorCode::InvalidValue));
    assert_eq!(key_year("x:99999999999"), Err(ErrorCode::InvalidValue));
    let keys = [s("f:2020"), s("f:2024"), s("legacy")];
    assert_eq!(candidate_years(true, None, 2024, &keys), Ok(vec![2020, 2023, 2024, 2025]));
    assert_eq!(candidate_years(true, None, 2024, &[s("f:x")]), Err(ErrorCode::InvalidValue));
    assert_eq!(candidate_years(false, Some(1990), 2024, &keys), Ok(vec![1990]));
    assert_eq!(candidate_years(false, None, 2024, &keys), Err(ErrorCode::InvalidValue));
}

fn state(resolved: bool, common: bool, completed: bool, has_work: bool) -> AnchoredState {
    AnchoredState { resolved, carry: Carry::RetainOne, closes_at: None, common, completed, has_work }
}

#[test]
fn anchored_occurrences_are_kept_moved_or_reviewed() {
    let present = EventStatus::Present;
    assert_eq!(anchored_step(&state(true, true, false, false), 0, EventStatus::Cancelled, true, false), AnchoredStep::Keep);
    assert_eq!(
        anchored_step(&state(false, false, false, false), 0, present, true, false),
        AnchoredStep::Review(ReviewReason::ContextUnavailable)
    );
    assert_eq!(anchored_step(&state(false, true, true, false), 0, EventStatus::Missing, true, false), AnchoredStep::Keep);
    assert_eq!(
        anchored_step(&state(false, true, false, false), 0, EventStatus::Cancelled, true, false),
        AnchoredStep::Review(ReviewReason::Cancelled)
    );
    assert_eq!(
        anchored_step(&state(false, true, false, false), 0, EventStatus::Missing, true, false),
        AnchoredStep::Review(ReviewReason::Missing)
    );
    assert_eq!(
        anchored_step(&state(false, true, false, false), 0, present, false, false),
        AnchoredStep::Review(ReviewReason::NoLongerEligible)
    );
    assert_eq!(anchored_step(&state(false, true, false, false), 0, present, true, true), AnchoredStep::Keep);
    assert_eq!(
        anchored_step(&state(false, true, false, true), 0, present, true, false),
        AnchoredStep::Review(ReviewReason::WorkStarted)
    );
    assert_eq!(anchored_step(&state(false, true, false, false), 0, present, true, false), AnchoredStep::Move);
    let closed = AnchoredState { carry: Carry::CloseIncomplete, closes_at: Some(10), ..state(false, true, false, false) };
    assert_eq!(anchored_step(&closed, 10, present, true, false), AnchoredStep::Keep);
    assert_eq!(ReviewReason::NoLongerEligible.name(), "no_longer_eligible");
}

#[test]
fn new_anchored_occurrences_are_bounded_in_time() {
    let today = NOON / 86400;
    assert_eq!(admits_new(EventStatus::Present, true, today - 30, NOON), Ok(true));
    assert_eq!(admits_new(EventStatus::Present, true, today - 31, NOON), Ok(false));
    assert_eq!(admits_new(EventStatus::Present, true, today + 400, NOON), Ok(true));
    assert_eq!(admits_new(EventStatus::Present, true, today + 401, NOON), Ok(false));
    assert_eq!(admits_new(EventStatus::Missing, true, today, NOON), Ok(false));
    assert_eq!(admits_new(EventStatus::Present, false, today, NOON), Ok(false));
    assert_eq!(admits_new(EventStatus::Present, true, today, i64::MAX), Err(ErrorCode::InvalidValue));
}

#[test]
fn refresh_leases() {
    assert_eq!(check_failure(None), Ok(()));
    assert_eq!(check_failure(Some("invalid_ics")), Ok(()));
    assert_eq!(check_failure(Some("boom")), Err(ErrorCode::InvalidValue));
    assert_eq!(begin_lease(3, 50, 100), Ok((4, 160)));
    assert_eq!(begin_lease(3, 101, 100), Err(ErrorCode::RefreshInProgress));
    assert_eq!(check_lease(4, 4, 160, 100), Ok(()));
    assert_eq!(check_lease(5, 4, 160, 100), Err(ErrorCode::StaleRefresh));
    assert_eq!(check_lease(4, 4, 100, 100), Err(ErrorCode::StaleRefresh));
    assert_eq!(check_import(false, 2048), Ok(()));
    assert_eq!(check_import(false, 2049), Err(ErrorCode::InvalidValue));
    assert_eq!(check_import(true, 0), Err(ErrorCode::InvalidValue));
    assert_eq!(next_refresh(100), 1000);
    assert_eq!(check_source("Europe/Paris", Some("https://example.org/cal.ics")), Ok(()));
    assert_eq!(check_source("Mars/Base", None), Err(ErrorCode::InvalidValue));
    assert_eq!(check_source("UTC", Some(&"x".repeat(8193))), Err(ErrorCode::InvalidValue));
    assert_eq!(check_source_owner("a", "a"), Ok(()));
    assert_eq!(check_source_owner("a", "b"), Err(ErrorCode::Forbidden));
}

#[test]
fn imported_event_identities() {
    assert_eq!(event_id(TASK, "uid@x", "2024-01-01").unwrap(), "15292232-81b4-595f-a40b-1e032f117ab9");
    assert_eq!(event_id(TASK, "é", "x").unwrap(), "dec80511-7022-5b8b-a5c4-aea4ea872c09");
    assert!(matches!(event_id("source", "u", "x"), Err(ErrorCode::InvalidValue)));
}

fn event(title: &str, date: &str, status: EventStatus, sequence: i64) -> Event {
    Event {
        uid: s("u"),
        original: s("2024-01-10"),
        title: s(title),
        start: EventTime { date: s(date), time: None, timezone: s("UTC"), instant: None },
        end: None,
        status,
        sequence,
    }
}

fn feed(series: Vec<(String, i64)>, instances: Vec<((String, String), i64)>, only: bool) -> Feed {
    Feed {
        events: vec![],
        cancelled_series: series,
        cancelled_instances: instances,
        cancellations_only: only,
        from: s("2024-01-01"),
        through: s("2024-01-31"),
    }
}

#[test]
fn imports_keep_newer_sequences() {
    let stored = event("Gym", "2024-01-10", EventStatus::Present, 2);
    assert_eq!(import_step(None, &stored), ImportStep::Insert);
    assert_eq!(import_step(Some(&stored), &event("Gym", "2024-01-10", EventStatus::Present, 2)), ImportStep::Keep);
    assert_eq!(import_step(Some(&stored), &event("Swim", "2024-01-10", EventStatus::Present, 1)), ImportStep::Keep);
    assert_eq!(import_step(Some(&stored), &event("Swim", "2024-01-10", EventStatus::Present, 2)), ImportStep::Update);
    assert!(same_event(&stored, &event("Gym", "2024-01-10", EventStatus::Present, 2)));
    assert!(!same_event(&stored, &event("Gym", "2024-01-11", EventStatus::Present, 2)));
}

#[test]
fn imports_never_delete_stored_events() {
    let e = event("Gym", "2024-01-10", EventStatus::Present, 2);
    assert_eq!(stored_step(&e, &feed(vec![(s("u"), 3)], vec![], false), false), StoredStep::Cancel(3));
    assert_eq!(stored_step(&e, &feed(vec![(s("u"), 1)], vec![], false), false), StoredStep::Keep);
    assert_eq!(
        stored_step(&e, &feed(vec![(s("u"), 3)], vec![((s("u"), s("2024-01-10")), 5)], false), false),
        StoredStep::Cancel(5)
    );
    let cancelled = event("Gym", "2024-01-10", EventStatus::Cancelled, 3);
    assert_eq!(stored_step(&cancelled, &feed(vec![(s("u"), 3)], vec![], false), false), StoredStep::Keep);
    assert_eq!(stored_step(&e, &feed(vec![], vec![], false), false), StoredStep::Missing);
    assert_eq!(stored_step(&e, &feed(vec![], vec![], false), true), StoredStep::Keep);
    assert_eq!(stored_step(&e, &feed(vec![], vec![], true), false), StoredStep::Keep);
    let outside = event("Gym", "2024-02-10", EventStatus::Present, 2);
    assert_eq!(stored_step(&outside, &feed(vec![], vec![], false), false), StoredStep::Keep);
}

fn rule(enabled: bool, delivery: DeliveryMode) -> ReminderRule {
    ReminderRule { offset_seconds: 0, time: None, late_seconds: 60, enabled, delivery }
}

#[test]
fn reminder_settings() {
    assert_eq!(check_delivery(&DeliveryMode::Server), Ok(()));
    assert_eq!(check_delivery(&DeliveryMode::Device { device_id: s("phone") }), Ok(()));
    assert_eq!(check_delivery(&DeliveryMode::Device { device_id: s("") }), Err(ErrorCode::InvalidValue));
    assert_eq!(check_rule_change(2, 2, Some("o"), "o", "a", "a"), Ok(()));
    assert_eq!(check_rule_change(2, 2, Some("o"), "o", "a", "b"), Err(ErrorCode::Forbidden));
    assert_eq!(check_rule_change(2, 1, Some("o"), "o", "a", "a"), Err(ErrorCode::Conflict));
    assert_eq!(check_rule_change(2, 2, None, "o", "a", "a"), Err(ErrorCode::Conflict));
    assert_eq!(check_subscription("ntfy", "secret", "phone"), Ok(()));
    assert_eq!(check_subscription("sms", "secret", "phone"), Err(ErrorCode::InvalidValue));
    assert_eq!(check_subscription("web_push", &"s".repeat(16385), "phone"), Err(ErrorCode::InvalidValue));
    assert_eq!(check_subscription_change(None, "a", 0), Ok(()));
    assert_eq!(check_subscription_change(None, "a", 1), Err(ErrorCode::Conflict));
    assert_eq!(check_subscription_change(Some(("b", 1)), "a", 1), Err(ErrorCode::NotFound));
    assert_eq!(check_subscription_change(Some(("a", 2)), "a", 1), Err(ErrorCode::Conflict));
    assert_eq!(check_subscription_change(Some(("a", 1)), "a", 1), Ok(()));
}

#[test]
fn reminder_deliveries() {
    assert_eq!(delivery_revision(3, 7, 1), "26df8f0cdcaa1903d059298d1ab2a1c6e9fa5ede8d6f1070c4dbf471f4f7292c");
    assert_eq!(delivery_revision(-2, 0, 9), "d3715226b14f5e79f5c3f008c655b19fe27865faf72f1ca2c8ecf3417a95b6d8");
    assert_eq!(delivery_id(REMINDER, "sub", "rev").unwrap(), "b5e4fed0-0ee2-5e58-b42a-44488896d44a");
    assert!(matches!(delivery_id("r", "sub", "rev"), Err(ErrorCode::InvalidValue)));
    assert!(reminder_active(&rule(true, DeliveryMode::Server), true, false, false, false, Outcome::Incomplete));
    assert!(!reminder_active(&rule(true, DeliveryMode::Server), true, false, false, false, Outcome::Complete));
    assert!(!reminder_active(&rule(true, DeliveryMode::Device { device_id: s("p") }), true, false, false, false, Outcome::Incomplete));
    assert!(!reminder_active(&rule(false, DeliveryMode::Server), true, false, false, false, Outcome::Incomplete));
    assert_eq!(delivery_window(100, 50, 151), Ok((150, true)));
    assert_eq!(delivery_window(100, 50, 150), Ok((150, false)));
    assert_eq!(delivery_window(i64::MAX - 10, 50, 0), Err(ErrorCode::InvalidValue));
}

#[test]
fn delivery_attempts_back_off() {
    assert_eq!(finish_attempt(true, false, 3), (DeliveryState::Delivered, 120));
    assert_eq!(finish_attempt(false, false, 2), (DeliveryState::Pending, 60));
    assert_eq!(finish_attempt(false, false, 7), (DeliveryState::Pending, 1920));
    assert_eq!(finish_attempt(false, false, 8), (DeliveryState::Failed, 3600));
    assert_eq!(finish_attempt(false, true, 0), (DeliveryState::Failed, 15));
}

#[test]
fn tasks_need_materialising_until_today_in_their_zone() {
    let daily = Some(Cadence { frequency: Frequency::Daily, interval: 1 });
    let utc = schedule(None, "UTC", daily);
    let noon = 1704283200; // 2024-01-03T12:00:00Z
    assert_eq!(due_for_materialisation(false, &utc, Some("2024-01-03"), false, noon), Ok(false));
    assert_eq!(due_for_materialisation(false, &utc, Some("2024-01-02"), false, noon), Ok(true));
    assert_eq!(due_for_materialisation(false, &utc, None, false, noon), Ok(true));
    assert_eq!(due_for_materialisation(true, &utc, None, false, noon), Ok(false));
    let late = 1704238200; // 2024-01-02T23:30:00Z, already 3 January in Auckland
    assert_eq!(due_for_materialisation(false, &utc, Some("2024-01-02"), false, late), Ok(false));
    let auckland = schedule(None, "Pacific/Auckland", daily);
    assert_eq!(due_for_materialisation(false, &auckland, Some("2024-01-02"), false, late), Ok(true));
    let once = schedule(None, "UTC", None);
    assert_eq!(due_for_materialisation(false, &once, None, true, noon), Ok(false));
    assert_eq!(due_for_materialisation(false, &once, None, false, noon), Ok(true));
    let nowhere = schedule(None, "Mars/Base", daily);
    assert_eq!(due_for_materialisation(false, &nowhere, None, false, noon), Err(ErrorCode::InvalidValue));
}

fn source_row(archived: bool, generation: i64, lease_until: i64) -> SourceRow {
    SourceRow { archived, generation, lease_until }
}

#[test]
fn refresh_commits_only_under_its_generation() {
    let ok = || Ok(source_row(false, 4, 200));
    assert_eq!(refresh_commit_step(None, None, ok(), 4, 100, None, None), Ok(RefreshStart::Commit));
    assert_eq!(
        refresh_commit_step(None, None, Ok(source_row(false, 5, 200)), 4, 100, None, None),
        Err(ErrorCode::StaleRefresh)
    );
    assert_eq!(
        refresh_commit_step(None, None, Ok(source_row(false, 4, 100)), 4, 100, None, None),
        Err(ErrorCode::StaleRefresh)
    );
    assert_eq!(
        refresh_commit_step(None, None, Ok(source_row(true, 5, 0)), 4, 100, None, None),
        Err(ErrorCode::InvalidValue)
    );
    assert_eq!(
        refresh_commit_step(None, None, Err(ErrorCode::Forbidden), 4, 100, None, None),
        Err(ErrorCode::Forbidden)
    );
    assert_eq!(refresh_commit_step(None, None, ok(), 4, 100, Some("boom"), None), Err(ErrorCode::InvalidValue));
    assert_eq!(refresh_commit_step(None, None, ok(), 4, 100, Some("fetch_failed"), None), Ok(RefreshStart::Commit));
    let f = feed(vec![], vec![], false);
    assert_eq!(refresh_commit_step(None, None, ok(), 4, 100, None, Some(&f)), Ok(RefreshStart::Commit));
    assert_eq!(
        refresh_commit_step(None, None, ok(), 4, 100, Some("invalid_ics"), Some(&f)),
        Err(ErrorCode::InvalidValue)
    );
    let receipt = Some((TASK, "digest"));
    assert_eq!(
        refresh_commit_step(receipt, Some((s("digest"), 9)), Err(ErrorCode::Forbidden), 4, 100, None, None),
        Ok(RefreshStart::Replayed(9))
    );
    assert_eq!(
        refresh_commit_step(receipt, Some((s("other"), 9)), ok(), 4, 100, None, None),
        Err(ErrorCode::OperationConflict)
    );
    assert_eq!(refresh_commit_step(receipt, None, ok(), 4, 100, None, None), Ok(RefreshStart::Commit));
    assert_eq!(
        refresh_commit_step(Some(("op", "digest")), None, ok(), 4, 100, None, None),
        Err(ErrorCode::InvalidValue)
    );
}

#[test]
fn import_writes_follow_the_stored_events() {
    let gym = event("Gym", "2024-01-10", EventStatus::Present, 2);
    let mut swim = event("Swim", "2024-01-12", EventStatus::Present, 1);
    swim.uid = s("v");
    let mut f = feed(vec![], vec![], false);
    f.events = vec![gym, swim];
    let mut same_swim = event("Swim", "2024-01-12", EventStatus::Present, 1);
    same_swim.uid = s("v");
    let stored = vec![None, Some(same_swim)];
    let (writes, ids) = import_writes(TASK, &f, &stored).unwrap();
    assert_eq!(ids.len(), 2);
    assert_eq!(ids[0], event_id(TASK, "u", "2024-01-10").unwrap());
    assert_eq!(ids[1], event_id(TASK, "v", "2024-01-10").unwrap());
    assert_eq!(writes.len(), 1);
    assert_eq!((writes[0].id.as_str(), writes[0].index, writes[0].insert), (ids[0].as_str(), 0, true));

    let mut again = feed(vec![], vec![], false);
    again.events = vec![
        event("Gym", "2024-01-10", EventStatus::Present, 1),
        event("Run", "2024-01-10", EventStatus::Present, 2),
        event("Old", "2024-01-10", EventStatus::Present, 0),
    ];
    let (writes, _) = import_writes(TASK, &again, &[None, None, None]).unwrap();
    assert_eq!(writes.len(), 2);
    assert_eq!((writes[0].index, writes[0].insert), (0, true));
    assert_eq!((writes[1].index, writes[1].insert), (1, false));

    assert_eq!(import_writes("source", &f, &[None, None]).err(), Some(ErrorCode::InvalidValue));
    assert!(import_writes("source", &feed(vec![], vec![], false), &[]).is_ok());
}

#[test]
fn settling_marks_uncarried_events() {
    let carried_id = event_id(TASK, "u", "2024-01-10").unwrap();
    let f = feed(vec![], vec![((s("w"), s("2024-01-10")), 4)], false);
    let mut cancelled = event("Yoga", "2024-01-10", EventStatus::Present, 3);
    cancelled.uid = s("w");
    let existing = vec![
        (s("elsewhere"), event("Gym", "2024-01-15", EventStatus::Present, 1)),
        (carried_id.clone(), event("Gym", "2024-01-10", EventStatus::Present, 1)),
        (s("later"), event("Gym", "2024-03-15", EventStatus::Present, 1)),
        (s("yoga"), cancelled),
    ];
    let plan = settle_writes(&f, &[carried_id], &existing);
    assert_eq!(plan, vec![(0, StoredStep::Missing), (3, StoredStep::Cancel(4))]);
    let mut e = event("Yoga", "2024-01-10", EventStatus::Present, 3);
    settle(&mut e, StoredStep::Cancel(4));
    assert_eq!((e.status, e.sequence, e.title.as_str()), (EventStatus::Cancelled, 4, "Yoga"));
    let mut m = event("Gym", "2024-01-15", EventStatus::Present, 1);
    settle(&mut m, StoredStep::Missing);
    assert_eq!((m.status, m.sequence), (EventStatus::Missing, 1));
    settle(&mut m, StoredStep::Keep);
    assert_eq!(m.status, EventStatus::Missing);
}

#[test]
fn latest_shared_evidence_counts() {
    assert_eq!(latest_evidence(&[]), None);
    assert_eq!(latest_evidence(&[None, Some(vec![])]), None);
    assert_eq!(latest_evidence(&[Some(vec![5, 9, 7]), None, Some(vec![8])]), Some(9));
    assert_eq!(latest_evidence(&[Some(vec![-3]), Some(vec![-5])]), Some(-3));
}

fn plan_label(r: &Result<SuccessorPlan, ErrorCode>) -> String {
    match r {
        Ok(SuccessorPlan::Skip) => s("skip"),
        Ok(SuccessorPlan::Drop) => s("drop"),
        Ok(SuccessorPlan::Wait) => s("wait"),
        Ok(SuccessorPlan::Issue(slot)) => format!("issue {}", slot.date.clone().unwrap_or_default()),
        Err(e) => format!("{e:?}"),
    }
}

#[test]
fn completion_leads_to_one_successor() {
    let sched = schedule(None, "UTC", after_completion(3));
    let cadence = Cadence { frequency: Frequency::AfterCompletion, interval: 3 };
    let daily = Cadence { frequency: Frequency::Daily, interval: 1 };
    let done = vec![Some(vec![Evidence::Checkbox { complete: true }])];
    let open = vec![Some(vec![Evidence::Checkbox { complete: false }])];
    let run = |has: bool, repeat: Option<&Cadence>, covered: bool, archived: bool, streams: &[Option<Vec<Evidence>>], latest: Option<i64>, carry: Carry, closes: Option<i64>| {
        plan_label(&successor_plan(
            has, repeat, covered, archived, &Goal::Checkbox, Participation::Everyone, carry, streams, latest, closes,
            NOON, &sched, "occ",
        ))
    };
    assert_eq!(run(false, Some(&cadence), false, false, &done, Some(NOON), Carry::RetainOne, None), "issue 2024-01-13");
    assert_eq!(run(true, Some(&cadence), false, false, &done, Some(NOON), Carry::RetainOne, None), "skip");
    assert_eq!(run(false, Some(&daily), false, false, &done, Some(NOON), Carry::RetainOne, None), "skip");
    assert_eq!(run(false, None, false, false, &done, Some(NOON), Carry::RetainOne, None), "skip");
    assert_eq!(run(false, Some(&cadence), true, false, &done, Some(NOON), Carry::RetainOne, None), "skip");
    assert_eq!(run(false, Some(&cadence), false, true, &done, Some(NOON), Carry::RetainOne, None), "drop");
    assert_eq!(run(false, Some(&cadence), false, false, &open, Some(NOON), Carry::RetainOne, None), "wait");
    assert_eq!(run(false, Some(&cadence), false, false, &done, None, Carry::RetainOne, None), "wait");
    assert_eq!(run(false, Some(&cadence), false, false, &open, Some(NOON), Carry::CloseIncomplete, Some(NOON)), "drop");
    assert_eq!(run(false, Some(&cadence), false, false, &open, Some(NOON), Carry::RetainOne, Some(NOON)), "wait");
    assert_eq!(run(false, Some(&cadence), false, false, &done, Some(i64::MAX), Carry::RetainOne, None), "InvalidValue");
}

#[test]
fn anchors_without_their_context_are_reviewed() {
    let existing = vec![(s("f:2023"), 1), (s("f:2024"), 4), (s("f:2025"), 0)];
    assert_eq!(unavailable(&existing, &[s("f:2024")]), vec![(0, 2), (2, 1)]);
    assert_eq!(unavailable(&existing, &[s("f:2023"), s("f:2024"), s("f:2025")]), vec![]);
    assert_eq!(unavailable(&[], &[s("f:2024")]), vec![]);
    assert_eq!(ReviewReason::ContextUnavailable.name(), "context_unavailable");
}
