use atlas_core::error::ErrorCode;
use atlas_core::people::normalise_name;
use atlas_core::policy::{resolved_policy, DefaultTemplate, Defaults, Policy, PrincipalGrant};
use atlas_core::resources::FieldValue;
use atlas_core::sync_cursor::{new_key, sign, verify};
use atlas_core::tasks::goals::{Evidence, Goal, Outcome};
use atlas_core::tasks::service::{occurrence_id, progress_id, progress_state, Entry, Stream, TaskCommand};
use atlas_core::{content, identifier, receipt_digest};

const TASK: &str = "6f9619ff-8b86-4d01-b42d-00cf4fc964ff";
const ACCOUNT: &str = "0f8fad5b-d9cb-469f-a165-70867728950e";
const KEY: &str = "0123456789abcdef0123456789abcdef0123456789abcdef0123456789abcdef";

#[test]
fn identifiers_are_canonical_uuids() {
    assert_eq!(identifier(TASK), Ok(()));
    assert_eq!(identifier("6F9619FF-8B86-4D01-B42D-00CF4FC964FF"), Err(ErrorCode::InvalidValue));
    assert_eq!(identifier("6f9619ff8b864d01b42d00cf4fc964ff"), Err(ErrorCode::InvalidValue));
    assert_eq!(identifier(""), Err(ErrorCode::InvalidValue));
}

#[test]
fn content_limits() {
    assert_eq!(content("Label", "value"), Ok(()));
    assert_eq!(content("  \t", ""), Err(ErrorCode::InvalidValue));
    assert_eq!(content(&"x".repeat(301), ""), Err(ErrorCode::InvalidValue));
    assert_eq!(content("ok", &"v".repeat(8193)), Err(ErrorCode::InvalidValue));
}

#[test]
fn receipt_digest_is_the_labelled_sha256() {
    assert_eq!(receipt_digest("hello"), "a2b9f2c52a9e27852ba7d79469ff9c916f22aaa8602c41232c06e65b539f48f8");
}

#[test]
fn occurrence_and_progress_identities_are_deterministic() {
    assert_eq!(occurrence_id(TASK, "2024-01-01Tdate").unwrap(), "feded9ee-d408-5a48-b990-26413a7670f9");
    assert_eq!(progress_id(TASK, ACCOUNT).unwrap(), "66db8dc1-2c46-538a-9cda-3f50baf4a932");
    assert!(matches!(occurrence_id("x", "k"), Err(ErrorCode::InvalidValue)));
    assert!(matches!(occurrence_id(TASK, ""), Err(ErrorCode::InvalidValue)));
    assert!(matches!(progress_id(TASK, "nope"), Err(ErrorCode::InvalidValue)));
}

#[test]
fn names_are_normalised_for_hints() {
    assert_eq!(normalise_name("  Ada \t LOVELACE\n"), "ada lovelace");
    assert_eq!(normalise_name(""), "");
}

#[test]
fn signed_cursor_reads_back() {
    let token = sign(KEY, "actor", "device", 5, 100).unwrap();
    assert_eq!(
        token,
        "d1.0000000000000005.0000000000000064.a5548e7d5f9d586738a17dfffa13889db8ffcf35fc31a2ddd82bd90b75b19230"
    );
    assert_eq!(verify(KEY, "actor", "device", &token), Ok((5, 100)));
    assert_eq!(verify(KEY, "actor", "other", &token), Err(ErrorCode::ResyncRequired));
    let upper = format!("{}{}", &token[..37], token[37..].to_uppercase());
    assert_eq!(verify(KEY, "actor", "device", &upper), Ok((5, 100)));
    let tampered = token.replacen("0000000000000005", "0000000000000006", 1);
    assert_eq!(verify(KEY, "actor", "device", &tampered), Err(ErrorCode::ResyncRequired));
    assert_eq!(verify(KEY, "actor", "device", "d1.x"), Err(ErrorCode::ResyncRequired));
}

#[test]
fn cursor_refusals() {
    assert_eq!(sign(KEY, "a", "d", -1, 0), Err(ErrorCode::InvalidValue));
    assert_eq!(sign(&KEY[..63], "a", "d", 1, 0), Err(ErrorCode::ResyncRequired));
    let k = new_key();
    assert_eq!(k.len(), 64);
    assert!(k.chars().all(|c| c.is_ascii_hexdigit() && !c.is_ascii_uppercase()));
    let t = sign(&k, "a", "d", 0, 0).unwrap();
    assert_eq!(verify(&k, "a", "d", &t), Ok((0, 0)));
}

#[test]
fn field_values() {
    let url = |u: &str| FieldValue::Url { url: u.to_string() };
    assert_eq!(url("https://example.com/a").validate(40), Ok(()));
    assert_eq!(url("ftp://example.com").validate(40), Err(ErrorCode::InvalidValue));
    assert_eq!(url("https://user:pw@example.com").validate(40), Err(ErrorCode::InvalidValue));
    assert_eq!(url("not a url").validate(40), Err(ErrorCode::InvalidValue));
    let date = |y: Option<i32>, m: u32, d: u32| FieldValue::Date { year: y, month: m, day: d };
    assert_eq!(date(None, 2, 29).validate(40), Ok(()));
    assert_eq!(date(Some(2023), 2, 29).validate(40), Err(ErrorCode::InvalidValue));
    assert_eq!(date(Some(1800), 1, 1).validate(40), Err(ErrorCode::InvalidValue));
    let choices = FieldValue::Choices {
        options: vec!["a".to_string(), "b".to_string()],
        selected: vec!["b".to_string()],
    };
    assert_eq!(choices.validate(40), Ok(()));
    let dup = FieldValue::Choices { options: vec!["a".to_string(), "a".to_string()], selected: vec![] };
    assert_eq!(dup.validate(40), Err(ErrorCode::InvalidValue));
    let stray = FieldValue::Choices { options: vec!["a".to_string()], selected: vec!["z".to_string()] };
    assert_eq!(stray.validate(40), Err(ErrorCode::InvalidValue));
    assert_eq!(FieldValue::Boolean { value: true }.validate(9000), Err(ErrorCode::InvalidValue));
}

fn defaults(task: DefaultTemplate) -> Defaults {
    Defaults {
        revision: "r".to_string(),
        preferences_version: 1,
        primary_household_id: Some(TASK.to_string()),
        person: DefaultTemplate::Private,
        field: DefaultTemplate::Private,
        task,
        list: DefaultTemplate::Private,
        progress: DefaultTemplate::Private,
    }
}

#[test]
fn default_templates_resolve_to_policies() {
    let p = resolved_policy(&defaults(DefaultTemplate::PrimaryHousehold { edit: true }), "task");
    assert_eq!(p.grants.len(), 1);
    assert!(matches!(&p.grants[0], PrincipalGrant::Household { id, edit: true } if id == TASK));
    let p = resolved_policy(&defaults(DefaultTemplate::PrimaryHousehold { edit: true }), "person");
    assert!(p.grants.is_empty() && p.exclude_accounts.is_empty());
    let explicit = Policy { grants: vec![], exclude_accounts: vec![ACCOUNT.to_string()] };
    let p = resolved_policy(&defaults(DefaultTemplate::Explicit { policy: explicit }), "task");
    assert_eq!(p.exclude_accounts, vec![ACCOUNT.to_string()]);
}

#[test]
fn online_commands() {
    let enrol = TaskCommand::Enrol {
        task_id: TASK.to_string(),
        expected_version: 1,
        active: true,
        aggregate_consent: false,
        initial_policy: None,
    };
    assert!(enrol.online());
    let private = TaskCommand::CreateList { id: TASK.to_string(), name: "L".to_string(), initial_policy: None };
    assert!(!private.online());
    let shared = TaskCommand::CreateList {
        id: TASK.to_string(),
        name: "L".to_string(),
        initial_policy: Some(Policy { grants: vec![PrincipalGrant::Account { id: ACCOUNT.to_string(), edit: false }], exclude_accounts: vec![] }),
    };
    assert!(shared.online());
    let archive = TaskCommand::Archive { id: TASK.to_string(), expected_version: 1, archived: true };
    assert!(!archive.online());
}

#[test]
fn progress_state_evaluates_all_and_windowed_entries() {
    let entry = |at: i64, complete: bool| Entry {
        id: format!("e{at}"),
        evidence: Evidence::Checkbox { complete },
        happened_at: at,
        recorded_by: ACCOUNT.to_string(),
    };
    let stream = Stream {
        subject_account_id: ACCOUNT.to_string(),
        entries: (0..10).map(|i| entry(i, i == 2)).collect(),
        excluded: false,
        aggregate_consent: true,
    };
    let p = progress_state(&stream, &Goal::Checkbox, Some(2), Some(3)).unwrap();
    assert_eq!(p.entry_count, 10);
    assert_eq!(p.recent_entries.len(), 8);
    assert_eq!(p.recent_entries[0].happened_at, 2);
    assert_eq!(p.action.outcome, Outcome::Incomplete);
    assert_eq!(p.period.outcome, Outcome::Complete);
    assert!(p.aggregate_consent);
}

#[test]
fn device_punctuation_cannot_move_a_cursor_between_devices() {
    let token = sign(KEY, "actor", "2:dev\nd1", 5, 100).unwrap();
    assert_eq!(verify(KEY, "actor", "2:dev\nd1", &token), Ok((5, 100)));
    assert_eq!(verify(KEY, "actor", "2:dev", &token), Err(ErrorCode::ResyncRequired));
    assert_eq!(verify(KEY, "actor\n8", "dev\nd1", &token), Err(ErrorCode::ResyncRequired));
}
