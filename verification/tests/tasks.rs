use atlas_core::error::ErrorCode;
use atlas_core::tasks::decimal::Decimal;
use atlas_core::tasks::definition::{presets, Carry, Definition};
use atlas_core::tasks::goals::{
    aggregate, evaluate, streak, ChecklistItem, Evidence, Goal, Outcome, Participation,
};
use atlas_core::tasks::schedule::{Cadence, Frequency, Schedule};

fn dec(s: &str) -> Decimal {
    Decimal(s.to_string())
}

fn numeric(min: Option<&str>, max: Option<&str>) -> Goal {
    Goal::Numeric { minimum: min.map(dec), maximum: max.map(dec), unit: "times".to_string() }
}

#[test]
fn decimal_units_reads_exact_amounts() {
    assert_eq!(dec("12.5").units(), Ok(12_500_000));
    assert_eq!(dec("0").units(), Ok(0));
    assert_eq!(dec("0.000001").units(), Ok(1));
    assert_eq!(dec("1000000000000").units(), Ok(1_000_000_000_000_000_000));
}

#[test]
fn decimal_units_refuses_malformed_amounts() {
    for bad in ["", "01", "1.", ".5", "1.0000001", "-1", "1e3", "10000000000000", "1000000000000.1"] {
        assert_eq!(dec(bad).units(), Err(ErrorCode::InvalidValue), "{bad}");
    }
}

#[test]
fn decimal_rendering_reads_back() {
    for v in [0i128, 1, 10, 1_500_000, 12_500_000, 999_999_999_999_999_999] {
        let d = Decimal::from_units(v);
        assert_eq!(d.units(), Ok(v));
    }
    assert_eq!(Decimal::from_units(12_500_000).0, "12.5");
    assert_eq!(Decimal::from_units(3_000_000).0, "3");
}

#[test]
fn checkbox_goal_follows_last_entry() {
    let goal = Goal::Checkbox;
    let p = evaluate(&goal, &[Evidence::Checkbox { complete: true }], false).unwrap();
    assert_eq!(p.outcome, Outcome::Complete);
    let p = evaluate(
        &goal,
        &[Evidence::Checkbox { complete: true }, Evidence::Checkbox { complete: false }],
        true,
    )
    .unwrap();
    assert_eq!(p.outcome, Outcome::Missed);
    assert!(p.amount.is_none());
}

#[test]
fn absent_stream_is_unknown_unless_closed_and_missable() {
    assert_eq!(evaluate(&Goal::Checkbox, &[], false).unwrap().outcome, Outcome::Unknown);
    assert_eq!(evaluate(&Goal::Checkbox, &[], true).unwrap().outcome, Outcome::Missed);
    assert_eq!(evaluate(&numeric(None, Some("5")), &[], true).unwrap().outcome, Outcome::Unknown);
}

#[test]
fn numeric_goal_with_ceiling_is_provisional_while_open() {
    let goal = numeric(Some("1"), Some("5"));
    let entries = [Evidence::Quantity { amount: dec("2.5") }];
    let open = evaluate(&goal, &entries, false).unwrap();
    assert_eq!(open.outcome, Outcome::Provisional);
    assert_eq!(open.amount.unwrap().0, "2.5");
    assert_eq!(evaluate(&goal, &entries, true).unwrap().outcome, Outcome::Complete);
    let over = [Evidence::Quantity { amount: dec("6") }];
    assert_eq!(evaluate(&goal, &over, true).unwrap().outcome, Outcome::Missed);
    assert_eq!(evaluate(&goal, &[Evidence::Observe], false).unwrap().outcome, Outcome::Incomplete);
}

#[test]
fn evaluate_refuses_mismatched_evidence() {
    let r = evaluate(&Goal::Checkbox, &[Evidence::Observe], false);
    assert!(matches!(r, Err(ErrorCode::InvalidValue)));
    let r = evaluate(&numeric(None, None), &[], false);
    assert!(matches!(r, Err(ErrorCode::InvalidValue)));
}

#[test]
fn checklist_goal_needs_every_item() {
    let a = "6f9619ff-8b86-4d01-b42d-00cf4fc964ff".to_string();
    let b = "0f8fad5b-d9cb-469f-a165-70867728950e".to_string();
    let goal = Goal::Checklist {
        items: vec![
            ChecklistItem { id: a.clone(), label: "One".to_string() },
            ChecklistItem { id: b.clone(), label: "Two".to_string() },
        ],
    };
    let one = [Evidence::Checklist { item_id: a.clone(), complete: true }];
    let p = evaluate(&goal, &one, false).unwrap();
    assert_eq!(p.outcome, Outcome::Incomplete);
    assert_eq!(p.checked, vec![a.clone()]);
    let both = [
        Evidence::Checklist { item_id: a.clone(), complete: true },
        Evidence::Checklist { item_id: b.clone(), complete: true },
    ];
    let p = evaluate(&goal, &both, false).unwrap();
    assert_eq!(p.outcome, Outcome::Complete);
    assert_eq!(p.checked, vec![b, a]);
}

#[test]
fn anyone_aggregate_needs_a_visible_completion() {
    let done = Some(vec![Evidence::Checkbox { complete: true }]);
    let hidden: Option<Vec<Evidence>> = None;
    assert_eq!(
        aggregate(&Goal::Checkbox, Participation::Anyone, &[hidden.clone(), done.clone()], false),
        Ok(Outcome::Complete)
    );
    assert_eq!(aggregate(&Goal::Checkbox, Participation::Anyone, &[hidden.clone()], false), Ok(Outcome::Unknown));
}

#[test]
fn required_aggregates_need_every_stream() {
    let done = Some(vec![Evidence::Checkbox { complete: true }]);
    let not_done = Some(vec![Evidence::Checkbox { complete: false }]);
    assert_eq!(
        aggregate(&Goal::Checkbox, Participation::Everyone, &[done.clone(), None], true),
        Ok(Outcome::Unknown)
    );
    assert_eq!(
        aggregate(&Goal::Checkbox, Participation::Everyone, &[done.clone(), not_done.clone()], true),
        Ok(Outcome::Missed)
    );
    assert_eq!(
        aggregate(&Goal::Checkbox, Participation::Everyone, &[done.clone(), done.clone()], false),
        Ok(Outcome::Complete)
    );
    assert_eq!(aggregate(&Goal::Checkbox, Participation::Everyone, &[], false), Ok(Outcome::Unknown));
}

#[test]
fn pooled_aggregate_sums_streams() {
    let goal = numeric(Some("3"), None);
    let a = Some(vec![Evidence::Quantity { amount: dec("1") }]);
    let b = Some(vec![Evidence::Quantity { amount: dec("2") }]);
    assert_eq!(aggregate(&goal, Participation::Pooled, &[a.clone(), b], false), Ok(Outcome::Complete));
    assert_eq!(aggregate(&goal, Participation::Pooled, &[a, Some(vec![])], false), Ok(Outcome::Unknown));
    assert_eq!(
        aggregate(&Goal::Checkbox, Participation::Pooled, &[Some(vec![Evidence::Checkbox { complete: true }])], false),
        Err(ErrorCode::InvalidValue)
    );
}

#[test]
fn streak_counts_runs_and_unknown_breaks_everything() {
    let s = streak(&[
        (Outcome::Complete, false),
        (Outcome::Complete, false),
        (Outcome::Missed, false),
        (Outcome::Complete, false),
    ]);
    assert_eq!((s.current, s.longest), (Some(1), Some(2)));
    let s = streak(&[(Outcome::Complete, false), (Outcome::Unknown, false)]);
    assert_eq!((s.current, s.longest), (None, None));
}

#[test]
fn exclusions_bridge_only_when_allowed() {
    let allowed = streak(&[(Outcome::Complete, true), (Outcome::Excluded, true), (Outcome::Complete, true)]);
    assert_eq!((allowed.current, allowed.longest), (Some(2), Some(2)));
    let refused = streak(&[(Outcome::Complete, false), (Outcome::Excluded, false), (Outcome::Complete, false)]);
    assert_eq!((refused.current, refused.longest), (Some(1), Some(1)));
    let open = streak(&[(Outcome::Complete, false), (Outcome::Provisional, false)]);
    assert_eq!(open.current, Some(1));
}

fn schedule(start: Option<&str>, time: Option<&str>, repeat: Option<Cadence>) -> Schedule {
    Schedule {
        start_date: start.map(|s| s.to_string()),
        time: time.map(|s| s.to_string()),
        timezone: "Europe/London".to_string(),
        repeat,
    }
}

#[test]
fn schedule_validation() {
    let daily = Some(Cadence { frequency: Frequency::Daily, interval: 1 });
    assert_eq!(schedule(Some("2024-01-31"), Some("07:30:00"), daily).validate(), Ok(()));
    assert_eq!(schedule(None, None, None).validate(), Ok(()));
    assert_eq!(schedule(None, Some("07:30:00"), None).validate(), Err(ErrorCode::InvalidValue));
    assert_eq!(schedule(Some("2024-02-30"), None, None).validate(), Err(ErrorCode::InvalidValue));
    assert_eq!(schedule(Some("1899-12-31"), None, None).validate(), Err(ErrorCode::InvalidValue));
    assert_eq!(
        schedule(Some("2024-01-01"), None, Some(Cadence { frequency: Frequency::Weekly, interval: 0 })).validate(),
        Err(ErrorCode::InvalidValue)
    );
    let mut bad_zone = schedule(Some("2024-01-01"), None, None);
    bad_zone.timezone = "Mars/Base".to_string();
    assert_eq!(bad_zone.validate(), Err(ErrorCode::InvalidValue));
}

#[test]
fn undated_item_has_one_slot() {
    let (slots, more) = schedule(None, None, None).slots(None, "2024-01-10", 10).unwrap();
    assert!(!more);
    assert_eq!(slots.len(), 1);
    assert_eq!(slots[0].key, "once");
    assert!(slots[0].date.is_none());
}

#[test]
fn daily_slots_page_and_resume() {
    let s = schedule(Some("2024-01-01"), None, Some(Cadence { frequency: Frequency::Daily, interval: 2 }));
    let (slots, more) = s.slots(None, "2024-01-10", 3).unwrap();
    let dates: Vec<_> = slots.iter().map(|s| s.date.clone().unwrap()).collect();
    assert_eq!(dates, vec!["2024-01-01", "2024-01-03", "2024-01-05"]);
    assert!(more);
    assert_eq!(slots[0].key, "2024-01-01Tdate");
    let (rest, more) = s.slots(Some("2024-01-05"), "2024-01-10", 3).unwrap();
    let dates: Vec<_> = rest.iter().map(|s| s.date.clone().unwrap()).collect();
    assert_eq!(dates, vec!["2024-01-07", "2024-01-09"]);
    assert!(!more);
}

#[test]
fn monthly_slots_skip_short_months() {
    let s = schedule(Some("2024-01-31"), Some("09:00:00"), Some(Cadence { frequency: Frequency::Monthly, interval: 1 }));
    let (slots, _) = s.slots(None, "2024-06-30", 10).unwrap();
    let dates: Vec<_> = slots.iter().map(|s| s.date.clone().unwrap()).collect();
    assert_eq!(dates, vec!["2024-01-31", "2024-03-31", "2024-05-31"]);
    assert_eq!(slots[0].key, "2024-01-31T09:00:00");
    // 09:00 in London in January is 09:00 UTC.
    assert_eq!(slots[0].instant, Some(1_706_691_600));
}

#[test]
fn after_completion_yields_only_the_first_slot() {
    let s = schedule(Some("2024-01-01"), None, Some(Cadence { frequency: Frequency::AfterCompletion, interval: 7 }));
    let (slots, more) = s.slots(None, "2024-02-01", 10).unwrap();
    assert_eq!(slots.len(), 1);
    assert_eq!(slots[0].key, "once");
    assert!(!more);
    let (later, more) = s.slots(Some("2024-01-01"), "2024-02-01", 10).unwrap();
    assert!(later.is_empty() && !more);
}

#[test]
fn slots_refuse_bad_pages() {
    let s = schedule(Some("2024-01-01"), None, None);
    assert!(matches!(s.slots(None, "2024-01-10", 0), Err(ErrorCode::InvalidValue)));
    assert!(matches!(s.slots(None, "2024-1-10", 1), Err(ErrorCode::InvalidValue)));
    assert!(matches!(s.slots(Some("x"), "2024-01-10", 1), Err(ErrorCode::InvalidValue)));
}

#[test]
fn skipped_wall_time_keeps_its_place_in_the_gap() {
    // 2024-03-31 01:30 does not exist in London; it resolves as 02:30 BST.
    let wall = 1_711_848_600; // 2024-03-31T01:30:00 as wall seconds
    assert_eq!(atlas_core::time::resolve("Europe/London", wall), Ok(1_711_848_600));
    // A repeated hour takes its first occurrence (BST, UTC+1).
    let repeated = 1_729_992_600; // 2024-10-27T01:30:00 as wall seconds
    assert_eq!(atlas_core::time::resolve("Europe/London", repeated), Ok(repeated - 3600));
}

fn definition(goal: Goal, participation: Participation) -> Definition {
    Definition {
        schedule: schedule(Some("2024-01-01"), None, None),
        goal,
        carry: Carry::CloseIncomplete,
        participation,
        open_days_before: 0,
        close_days_after: 1,
        allow_streak_exclusions: false,
    }
}

#[test]
fn definition_validation() {
    assert_eq!(definition(Goal::Checkbox, Participation::Personal).validate(200), Ok(()));
    assert_eq!(definition(Goal::Checkbox, Participation::Pooled).validate(200), Err(ErrorCode::InvalidValue));
    assert_eq!(definition(numeric(Some("1"), None), Participation::Pooled).validate(200), Ok(()));
    assert_eq!(definition(Goal::Checkbox, Participation::Personal).validate(8193), Err(ErrorCode::InvalidValue));
    let mut d = definition(Goal::Checkbox, Participation::Personal);
    d.close_days_after = 0;
    assert_eq!(d.validate(200), Err(ErrorCode::InvalidValue));
}

#[test]
fn presets_are_ordinary_definitions() {
    let all = presets("2024-01-01", "Europe/London").unwrap();
    let ids: Vec<_> = all.iter().map(|p| p.id.as_str()).collect();
    assert_eq!(ids, vec!["daily", "chore", "weekly_quota", "joint", "focus_timer", "after_completion"]);
    assert_eq!(all[2].definition.close_days_after, 7);
    assert_eq!(all[1].definition.participation, Participation::Anyone);
    assert!(matches!(presets("2024-13-01", "Europe/London"), Err(ErrorCode::InvalidValue)));
    assert!(matches!(presets("2024-01-01", "Nowhere"), Err(ErrorCode::InvalidValue)));
}

#[test]
fn numeric_totals_do_not_depend_on_order() {
    let goal = numeric(Some("5"), None);
    let entries = [
        Evidence::Quantity { amount: dec("2.5") },
        Evidence::Observe,
        Evidence::Quantity { amount: dec("3") },
    ];
    let reordered = [
        Evidence::Quantity { amount: dec("3") },
        Evidence::Quantity { amount: dec("2.5") },
        Evidence::Observe,
    ];
    for closed in [false, true] {
        let a = evaluate(&goal, &entries, closed).unwrap();
        let b = evaluate(&goal, &reordered, closed).unwrap();
        assert_eq!(a.outcome, Outcome::Complete);
        assert_eq!(a.outcome, b.outcome);
        assert_eq!(a.amount.as_ref().unwrap().0, "5.5");
        assert_eq!(b.amount.as_ref().unwrap().0, "5.5");
        assert!(a.checked.is_empty() && b.checked.is_empty());
    }
    let bad = [Evidence::Quantity { amount: dec("1") }, Evidence::Checkbox { complete: true }];
    let bad_reordered = [Evidence::Checkbox { complete: true }, Evidence::Quantity { amount: dec("1") }];
    assert_eq!(evaluate(&goal, &bad, false).err(), Some(ErrorCode::InvalidValue));
    assert_eq!(evaluate(&goal, &bad_reordered, false).err(), Some(ErrorCode::InvalidValue));
}

const A: &str = "6f9619ff-8b86-4d01-b42d-00cf4fc964ff";
const B: &str = "0f8fad5b-d9cb-469f-a165-70867728950e";

#[test]
fn closing_a_period_settles_its_outcome() {
    let goal = numeric(Some("2"), Some("4"));
    let met = [Evidence::Quantity { amount: dec("3") }];
    let open = evaluate(&goal, &met, false).unwrap();
    let closed = evaluate(&goal, &met, true).unwrap();
    assert_eq!(open.outcome, Outcome::Provisional);
    assert_eq!(closed.outcome, Outcome::Complete);
    assert_eq!(open.amount.unwrap().0, closed.amount.unwrap().0);
    let short = [Evidence::Quantity { amount: dec("1") }];
    assert_eq!(evaluate(&goal, &short, false).unwrap().outcome, Outcome::Incomplete);
    assert_eq!(evaluate(&goal, &short, true).unwrap().outcome, Outcome::Missed);
    let list = Goal::Checklist {
        items: vec![
            ChecklistItem { id: A.to_string(), label: "A".to_string() },
            ChecklistItem { id: B.to_string(), label: "B".to_string() },
        ],
    };
    let ticks = [Evidence::Checklist { item_id: A.to_string(), complete: true }];
    let open = evaluate(&list, &ticks, false).unwrap();
    let closed = evaluate(&list, &ticks, true).unwrap();
    assert_eq!(open.outcome, Outcome::Incomplete);
    assert_eq!(closed.outcome, Outcome::Missed);
    assert_eq!(open.checked, vec![A.to_string()]);
    assert_eq!(closed.checked, open.checked);
}
