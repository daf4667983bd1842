use atlas_core::calendars::anchors::{shifted, Anchor, Offset, Reference};
use atlas_core::calendars::ics::{parse, rule_dates, unescape, EventStatus, EventTime, Stamp};
use atlas_core::calendars::reminders::{due, DeliveryMode, ReminderRule};
use atlas_core::calendars::secret_identity;
use atlas_core::error::ErrorCode;
use atlas_core::tasks::definition::{Carry, Definition};
use atlas_core::tasks::goals::{Goal, Participation};
use atlas_core::tasks::schedule::{Schedule, Slot};
use atlas_core::tasks::service::OccurrenceData;
use atlas_core::time::{day_number_exec, CivilDate};

const UID: &str = "6f9619ff-8b86-4d01-b42d-00cf4fc964ff";

fn day(y: i32, m: u32, d: u32) -> i64 {
    day_number_exec(CivilDate { year: y, month: m, day: d })
}

fn utc_stamp(y: i32, m: u32, d: u32, second: u32) -> Stamp {
    Stamp { date: CivilDate { year: y, month: m, day: d }, second, zone: "UTC".to_string(), date_only: false }
}

fn dates(v: &[Stamp]) -> Vec<(i32, u32, u32)> {
    v.iter().map(|s| (s.date.year, s.date.month, s.date.day)).collect()
}

#[test]
fn secret_identity_keeps_the_fingerprint_and_is_idempotent() {
    assert_eq!(secret_identity("v1:abc:ciphertext:more"), "v1:abc");
    assert_eq!(secret_identity("v1:abc"), "v1:abc");
    assert_eq!(secret_identity("plain"), "plain");
    for s in ["v1:abc:xyz", "v1::x", "v2:a:b", ""] {
        assert_eq!(secret_identity(&secret_identity(s)), secret_identity(s));
    }
}

#[test]
fn unescape_resolves_escapes() {
    assert_eq!(unescape("a\\, b\\; c\\\\d\\ne").unwrap(), "a, b; c\\d\ne");
    assert_eq!(unescape("a\\x"), Err(ErrorCode::InvalidIcs));
    assert_eq!(unescape("trailing\\"), Err(ErrorCode::InvalidIcs));
}

#[test]
fn weekly_rule_with_weekdays_and_count() {
    let start = utc_stamp(2024, 1, 1, 9 * 3600);
    let mut budget = 1000usize;
    let v = rule_dates(&start, "FREQ=WEEKLY;BYDAY=MO,WE;COUNT=4", day(2024, 1, 31), &mut budget).unwrap();
    assert_eq!(dates(&v), vec![(2024, 1, 1), (2024, 1, 3), (2024, 1, 8), (2024, 1, 10)]);
    assert!(v.iter().all(|s| s.second == 9 * 3600 && !s.date_only));
    assert_eq!(budget, 990);
}

#[test]
fn monthly_rule_counts_from_the_end_of_the_month() {
    let start = utc_stamp(2024, 1, 26, 0);
    let mut budget = 1000usize;
    let v = rule_dates(&start, "FREQ=MONTHLY;BYDAY=-1FR;COUNT=3", day(2024, 12, 31), &mut budget).unwrap();
    assert_eq!(dates(&v), vec![(2024, 1, 26), (2024, 2, 23), (2024, 3, 29)]);
    let v = rule_dates(&start, "FREQ=MONTHLY;BYMONTHDAY=-1;UNTIL=20240430T000000Z", day(2024, 12, 31), &mut budget)
        .unwrap();
    assert_eq!(dates(&v), vec![(2024, 1, 31), (2024, 2, 29), (2024, 3, 31), (2024, 4, 30)]);
}

#[test]
fn rule_refusals() {
    let start = utc_stamp(2024, 1, 1, 0);
    let through = day(2024, 2, 1);
    let mut budget = 1000usize;
    assert!(matches!(rule_dates(&start, "FREQ=HOURLY", through, &mut budget), Err(ErrorCode::UnsupportedCalendarRule)));
    assert!(matches!(rule_dates(&start, "INTERVAL=2", through, &mut budget), Err(ErrorCode::InvalidIcs)));
    assert!(matches!(rule_dates(&start, "FREQ=DAILY;X", through, &mut budget), Err(ErrorCode::InvalidIcs)));
    assert!(matches!(rule_dates(&start, "FREQ=DAILY;FOO=1", through, &mut budget), Err(ErrorCode::UnsupportedCalendarRule)));
    assert!(matches!(
        rule_dates(&start, "FREQ=DAILY;COUNT=2;UNTIL=20240105T000000Z", through, &mut budget),
        Err(ErrorCode::CalendarLimit)
    ));
    assert!(matches!(rule_dates(&start, "FREQ=DAILY;INTERVAL=400", through, &mut budget), Err(ErrorCode::CalendarLimit)));
    let mut small = 3usize;
    assert!(matches!(rule_dates(&start, "FREQ=DAILY", through, &mut small), Err(ErrorCode::CalendarLimit)));
}

const FEED: &str = "BEGIN:VCALENDAR\nVERSION:2.0\nPRODID:-//test//EN\nBEGIN:VEVENT\nUID:abc\nDTSTART:20240101T090000Z\nDTEND:20240101T100000Z\nRRULE:FREQ=DAILY;COUNT=3\nEXDATE:20240102T090000Z\nSUMMARY:Stand\\, up\nEND:VEVENT\nEND:VCALENDAR\n";

#[test]
fn parse_expands_rules_and_records_exclusions() {
    let feed = parse(FEED, "Europe/London", "2024-01-01", "2024-01-31").unwrap();
    assert!(!feed.cancellations_only);
    assert_eq!(feed.from, "2024-01-01");
    let originals: Vec<_> = feed.events.iter().map(|e| e.original.as_str()).collect();
    assert_eq!(originals, vec!["20240101T090000", "20240103T090000"]);
    let first = &feed.events[0];
    assert_eq!(first.uid, "abc");
    assert_eq!(first.title, "Stand, up");
    assert_eq!(first.status, EventStatus::Present);
    assert_eq!(first.start.instant, Some(1_704_099_600));
    assert_eq!(first.start.timezone, "UTC");
    assert_eq!(first.end.as_ref().unwrap().time.as_deref(), Some("10:00:00"));
    assert_eq!(feed.cancelled_instances.len(), 1);
    assert_eq!(feed.cancelled_instances[0].0 .1, "20240102T090000");
}

#[test]
fn parse_checks_its_window_first() {
    assert!(matches!(parse(FEED, "Nowhere/Land", "2024-01-01", "2024-01-31"), Err(ErrorCode::InvalidValue)));
    assert!(matches!(parse(FEED, "UTC", "2024-01-31", "2024-01-01"), Err(ErrorCode::CalendarLimit)));
    assert!(matches!(parse(FEED, "UTC", "2024-01-01", "2026-01-01"), Err(ErrorCode::CalendarLimit)));
    assert!(matches!(parse(FEED, "UTC", "2024-1-1", "2024-01-31"), Err(ErrorCode::InvalidValue)));
    assert!(matches!(parse("not a calendar", "UTC", "2024-01-01", "2024-01-31"), Err(ErrorCode::InvalidIcs)));
}

#[test]
fn cancelling_feed_cancels_series() {
    let input = "BEGIN:VCALENDAR\nVERSION:2.0\nMETHOD:CANCEL\nBEGIN:VEVENT\nUID:abc\nSEQUENCE:2\nDTSTART:20240101T090000Z\nEND:VEVENT\nEND:VCALENDAR\n";
    let feed = parse(input, "UTC", "2024-01-01", "2024-01-31").unwrap();
    assert!(feed.cancellations_only);
    assert!(feed.events.is_empty());
    assert_eq!(feed.cancelled_series.len(), 1);
    assert_eq!(feed.cancelled_series[0].0, "abc");
    assert_eq!(feed.cancelled_series[0].1, 2);
}

fn anchor(offset: Offset) -> Anchor {
    Anchor {
        reference: Reference::EventSeries { source_id: UID.to_string(), uid: "abc".to_string() },
        offset,
        weekdays: vec![],
        title_contains: None,
    }
}

#[test]
fn anchor_validation() {
    assert_eq!(anchor(Offset::CalendarDays { days: 1, time: Some("08:00:00".to_string()) }).validate(), Ok(()));
    assert_eq!(anchor(Offset::CalendarDays { days: 400, time: None }).validate(), Err(ErrorCode::InvalidValue));
    assert_eq!(anchor(Offset::CalendarDays { days: 1, time: Some("8:00".to_string()) }).validate(), Err(ErrorCode::InvalidValue));
    assert_eq!(anchor(Offset::ElapsedSeconds { seconds: 40_000_000 }).validate(), Err(ErrorCode::InvalidValue));
    let mut a = anchor(Offset::ElapsedSeconds { seconds: 60 });
    a.weekdays = vec![0];
    assert_eq!(a.validate(), Err(ErrorCode::InvalidValue));
    let mut b = anchor(Offset::ElapsedSeconds { seconds: 60 });
    b.reference = Reference::PersonDate { field_id: "nope".to_string(), annual: true };
    assert_eq!(b.validate(), Err(ErrorCode::InvalidValue));
    assert_eq!(anchor(Offset::ElapsedSeconds { seconds: 60 }).reference_id(), UID);
}

fn definition() -> Definition {
    Definition {
        schedule: Schedule {
            start_date: None,
            time: None,
            timezone: "Europe/London".to_string(),
            repeat: None,
        },
        goal: Goal::Checkbox,
        carry: Carry::CloseIncomplete,
        participation: Participation::Personal,
        open_days_before: 0,
        close_days_after: 1,
        allow_streak_exclusions: false,
    }
}

#[test]
fn shifted_moves_dates_and_instants() {
    let time = EventTime { date: "2024-01-01".to_string(), time: None, timezone: "UTC".to_string(), instant: None };
    let slot = shifted(&time, &anchor(Offset::CalendarDays { days: 1, time: Some("08:00:00".to_string()) }), &definition(), "k")
        .unwrap();
    assert_eq!(slot.key, "k");
    assert_eq!(slot.date.as_deref(), Some("2024-01-02"));
    assert_eq!(slot.intended_time.as_deref(), Some("08:00:00"));
    assert_eq!(slot.instant, Some(1_704_182_400));
    let timed = EventTime {
        date: "2024-07-01".to_string(),
        time: Some("12:00:00".to_string()),
        timezone: "UTC".to_string(),
        instant: Some(1_719_835_200),
    };
    let slot = shifted(&timed, &anchor(Offset::ElapsedSeconds { seconds: -3600 }), &definition(), "k").unwrap();
    // 11:00 UTC is 12:00 in London in summer.
    assert_eq!(slot.date.as_deref(), Some("2024-07-01"));
    assert_eq!(slot.intended_time.as_deref(), Some("12:00:00"));
    assert_eq!(slot.instant, Some(1_719_831_600));
    let untimed = anchor(Offset::ElapsedSeconds { seconds: 1 });
    assert!(matches!(shifted(&time, &untimed, &definition(), "k"), Err(ErrorCode::InvalidValue)));
}

fn occurrence(date: Option<&str>, instant: Option<i64>) -> OccurrenceData {
    OccurrenceData {
        rota: None,
        task_id: UID.to_string(),
        definition: definition(),
        slot: Slot {
            key: "once".to_string(),
            date: date.map(|d| d.to_string()),
            intended_time: None,
            timezone: "Europe/London".to_string(),
            instant,
        },
        opens_at: None,
        closes_at: None,
        participants: vec![],
        covered_by: None,
        resolved: false,
    }
}

fn rule(offset: i64, time: Option<&str>) -> ReminderRule {
    ReminderRule {
        offset_seconds: offset,
        time: time.map(|t| t.to_string()),
        late_seconds: 60,
        enabled: true,
        delivery: DeliveryMode::Server,
    }
}

#[test]
fn reminders_fall_due_relative_to_the_slot() {
    assert_eq!(due(&occurrence(None, Some(1_000_000)), &rule(-600, None)), Ok(999_400));
    assert_eq!(due(&occurrence(Some("2024-07-01"), None), &rule(0, Some("09:00:00"))), Ok(1_719_820_800));
    assert_eq!(due(&occurrence(Some("2024-07-01"), None), &rule(0, None)), Err(ErrorCode::ReminderTimeRequired));
    assert_eq!(due(&occurrence(None, Some(0)), &rule(40_000_000, None)), Err(ErrorCode::InvalidValue));
    assert_eq!(due(&occurrence(None, Some(0)), &rule(0, Some("9:00"))), Err(ErrorCode::InvalidValue));
}
