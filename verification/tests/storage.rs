use atlas_core::calendars::{unix_now, unix_seconds};
use atlas_core::devices::check_device;
use atlas_core::error::ErrorCode;
use atlas_core::policy::{default_households, defaults_revision, policy_audience, DefaultTemplate, Policy, PrincipalGrant};
use atlas_core::storage::{retention_seconds, schema_supported, DEFAULT_RETENTION_SECONDS};
use atlas_core::sync::{batch_floors, retryable_code};
use atlas_core::tasks::expansion::Expansion;

#[test]
fn retention_accepts_one_to_ten_years_of_days() {
    assert_eq!(retention_seconds(1), Some(86400));
    assert_eq!(retention_seconds(90), Some(DEFAULT_RETENTION_SECONDS));
    assert_eq!(retention_seconds(3650), Some(315360000));
    assert_eq!(retention_seconds(0), None);
    assert_eq!(retention_seconds(3651), None);
    assert_eq!(retention_seconds(-5), None);
}

#[test]
fn only_the_current_baseline_is_supported() {
    assert!(schema_supported(&vec![1000]));
    assert!(!schema_supported(&vec![]));
    assert!(!schema_supported(&vec![999]));
    assert!(!schema_supported(&vec![1000, 1001]));
}

#[test]
fn transient_database_codes_are_retried() {
    for code in ["5", "517", "40001", "40P01"] {
        assert!(retryable_code(code));
    }
    for code in ["", "19", "23505", "40P0"] {
        assert!(!retryable_code(code));
    }
}

#[test]
fn error_codes_are_named_in_snake_case() {
    assert_eq!(ErrorCode::LastManager.name(), "last_manager");
    assert_eq!(ErrorCode::UnsupportedCalendarTimezone.name(), "unsupported_calendar_timezone");
    assert_eq!(ErrorCode::InvalidIcs.name(), "invalid_ics");
}

#[test]
fn preview_walk_lists_prerequisites_first_and_meets_each_once() {
    let mut walk = Expansion::start("a");
    let mut listed: Vec<String> = Vec::new();
    let graph = |id: &str| -> Vec<String> {
        match id {
            "a" => vec!["b".to_string(), "c".to_string()],
            "b" => vec!["c".to_string()],
            _ => vec![],
        }
    };
    let mut met = 0;
    while let Some((id, expanded)) = walk.next().unwrap() {
        if expanded {
            listed.push(id);
        } else {
            met += 1;
            let prerequisites = graph(&id);
            walk.expand(id, prerequisites);
        }
    }
    assert_eq!(listed, vec!["c".to_string(), "b".to_string(), "a".to_string()]);
    assert_eq!(met, 3);
    assert_eq!(walk.visited, vec!["a".to_string(), "c".to_string(), "b".to_string()]);
}

#[test]
fn preview_walk_refuses_more_than_two_hundred_occurrences() {
    let mut walk = Expansion::start("n0");
    let mut n = 0;
    let mut outcome: Result<(), ErrorCode> = Ok(());
    loop {
        match walk.next() {
            Ok(Some((id, false))) => {
                n += 1;
                walk.expand(id, vec![format!("n{n}")]);
            }
            Ok(Some(_)) => {}
            Ok(None) => break,
            Err(e) => {
                outcome = Err(e);
                break;
            }
        }
    }
    assert_eq!(outcome, Err(ErrorCode::ExpansionLimit));
    assert_eq!(n, 200);
    assert_eq!(walk.visited.len(), 201);
}

#[test]
fn policy_audience_is_grantees_and_members_less_exclusions() {
    let policy = Policy {
        grants: vec![
            PrincipalGrant::Account { id: "a1".to_string(), edit: true },
            PrincipalGrant::Household { id: "h1".to_string(), edit: false },
            PrincipalGrant::Account { id: "a4".to_string(), edit: false },
        ],
        exclude_accounts: vec!["a3".to_string(), "a4".to_string()],
    };
    let members = vec!["a2".to_string(), "a3".to_string(), "a1".to_string(), "a2".to_string()];
    assert_eq!(policy_audience(&policy, &members), vec!["a1".to_string(), "a2".to_string()]);
    let private = Policy { grants: vec![], exclude_accounts: vec![] };
    assert!(policy_audience(&private, &vec![]).is_empty());
}

#[test]
fn discarded_batches_raise_each_account_floor_to_its_highest_revision() {
    let rows = vec![
        ("b".to_string(), 3),
        ("a".to_string(), 5),
        ("b".to_string(), 7),
        ("a".to_string(), 2),
        ("c".to_string(), 1),
    ];
    assert_eq!(
        batch_floors(&rows),
        vec![("b".to_string(), 7), ("a".to_string(), 5), ("c".to_string(), 1)]
    );
    assert!(batch_floors(&vec![]).is_empty());
}

#[test]
fn defaults_revision_households_are_primary_and_granted_in_order() {
    let explicit = |grants: Vec<PrincipalGrant>| DefaultTemplate::Explicit {
        policy: Policy { grants, exclude_accounts: vec![] },
    };
    let templates = vec![
        DefaultTemplate::PrimaryHousehold { edit: true },
        explicit(vec![
            PrincipalGrant::Household { id: "h2".to_string(), edit: false },
            PrincipalGrant::Account { id: "a1".to_string(), edit: true },
            PrincipalGrant::Household { id: "h0".to_string(), edit: true },
        ]),
        DefaultTemplate::Private,
        explicit(vec![PrincipalGrant::Household { id: "h2".to_string(), edit: true }]),
    ];
    assert_eq!(
        default_households(&Some("h1".to_string()), &templates),
        vec!["h0".to_string(), "h1".to_string(), "h2".to_string()]
    );
    assert!(default_households(&None, &vec![DefaultTemplate::Private]).is_empty());
}

#[test]
fn defaults_revision_digests_account_kind_and_household_lines() {
    let selected = [
        Some((2, "{\"kind\":\"private\"}".to_string())),
        None,
        None,
        Some((5, "x".to_string())),
        None,
    ];
    let households = vec![("h1".to_string(), Some(4)), ("h2".to_string(), None)];
    assert_eq!(
        defaults_revision("acct", 3, Some("h1"), &selected, &households),
        "a8a1ab9c5e082763d1919cba9ae84b47784a591d8c676a39226e5c0eb491fc82"
    );
    let none: [Option<(i64, String)>; 5] = [None, None, None, None, None];
    assert_eq!(
        defaults_revision("acct", -1, None, &none, &vec![]),
        "1815783501a905b156912e5f528720168b7933caba1c7017e7efdd991e6c7deb"
    );
}

#[test]
fn devices_are_named_by_one_to_a_hundred_bytes() {
    assert_eq!(check_device("phone"), Ok(()));
    assert_eq!(check_device(""), Err(ErrorCode::InvalidValue));
    assert_eq!(check_device(&"x".repeat(100)), Ok(()));
    assert_eq!(check_device(&"é".repeat(51)), Err(ErrorCode::InvalidValue));
}

#[test]
fn clock_readings_become_unix_seconds() {
    assert_eq!(unix_seconds(Some(1_700_000_000)), 1_700_000_000);
    assert_eq!(unix_seconds(Some(i64::MAX as u64)), i64::MAX);
    assert_eq!(unix_seconds(Some(i64::MAX as u64 + 1)), i64::MIN);
    assert_eq!(unix_seconds(None), 0);
    assert!(unix_now() > 1_600_000_000);
}
