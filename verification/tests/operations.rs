use atlas_core::error::ErrorCode;
use atlas_core::tasks::commands::{command_start, CommandStart};
use atlas_core::households::{
    answer_status, check_answer, check_invite, check_role, check_version, count_managers_besides,
    defaults_kind, household_capacity, invitation_expiry, membership_step, retain_manager, Membership,
};
use atlas_core::people::{
    check_link_acceptance, check_link_request, check_merge, check_merge_links, check_merge_owners,
    check_merge_pair, check_rename, check_unlink, identity_grants, merge_recipient, people_payload,
    people_replay, PeopleReceipt,
};
use atlas_core::policy::{check_policy_shape, fallback_template, DefaultTemplate, Policy, PrincipalGrant};
use atlas_core::receipts::{
    batch_size, calendar_payload, guarded_payload, management_payload, reminder_payload, replay,
    replay_plain, task_payload, StoredReceipt,
};
use atlas_core::sync::{
    check_boundary, check_request, cursor_kind, device_capacity, kind_rank, order_changes,
    publication, resume_signed, resume_stored, retry_delay, reuse_cursor, signed_expiry,
    snapshot_expiry, snapshot_step, sync_finish, sync_start, touch_due, CursorKind, CursorPlan,
    CursorRead, DeviceWrite, Diff, Publication, StoredCursor, batch_changes, delta_reach, BatchChange,
};
use atlas_core::sync_cursor::sign;
use atlas_core::{apply_start, check_edit, creations, needs_defaults, receipt_digest, Command};

const ACTOR: &str = "0f8fad5b-d9cb-469f-a165-70867728950e";
const OTHER: &str = "6f9619ff-8b86-4d01-b42d-00cf4fc964ff";
const KEY: &str = "0123456789abcdef0123456789abcdef0123456789abcdef0123456789abcdef";

fn stored(payload: &str, revision: i64, version: i64) -> StoredReceipt {
    StoredReceipt { payload: payload.to_string(), revision, digest_version: version }
}

#[test]
fn a_retried_operation_replays_its_revision() {
    let digest = receipt_digest("payload");
    assert_eq!(replay(Some(stored(&digest, 42, 1)), &digest), Ok(Some(42)));
    assert_eq!(replay(None, &digest), Ok(None));
}

#[test]
fn another_payload_under_the_same_operation_conflicts() {
    let digest = receipt_digest("payload");
    let other = receipt_digest("other payload");
    assert_eq!(replay(Some(stored(&digest, 42, 1)), &other), Err(ErrorCode::OperationConflict));
    assert_eq!(replay(Some(stored(&digest, 42, 2)), &digest), Err(ErrorCode::UnsupportedReceipt));
}

#[test]
fn plain_receipts_replay_or_conflict() {
    assert_eq!(replay_plain(Some(("abc".to_string(), 7)), "abc"), Ok(Some(7)));
    assert_eq!(replay_plain(Some(("abc".to_string(), 7)), "abd"), Err(ErrorCode::OperationConflict));
    assert_eq!(replay_plain(None, "abc"), Ok(None));
}

#[test]
fn batches_carry_one_to_twenty_commands() {
    assert_eq!(batch_size(0), Err(ErrorCode::InvalidValue));
    assert_eq!(batch_size(1), Ok(()));
    assert_eq!(batch_size(20), Ok(()));
    assert_eq!(batch_size(21), Err(ErrorCode::InvalidValue));
}

#[test]
fn payload_texts() {
    assert_eq!(guarded_payload(None, "[1]"), "[1]");
    assert_eq!(guarded_payload(Some("rev"), "[1]"), "guarded-defaults-v1\nrev\n[1]");
    assert_eq!(management_payload("[]"), "management-v1\n[]");
    assert_eq!(calendar_payload("{}"), "calendar-command-v1:{}");
    assert_eq!(reminder_payload("{}"), "reminder-command-v1:{}");
    assert_eq!(people_payload("{}"), "people-command-v1:{}");
    assert_eq!(task_payload(None, "{}"), "task-command-v1\nNone\n{}");
    assert_eq!(task_payload(Some("abc"), "{}"), "task-command-v1\nSome(\"abc\")\n{}");
}

#[test]
fn sync_requests_are_bounded() {
    assert_eq!(check_request(1, "phone", None), Ok(()));
    assert_eq!(check_request(200, "phone", Some("c")), Ok(()));
    assert_eq!(check_request(0, "phone", None), Err(ErrorCode::InvalidValue));
    assert_eq!(check_request(201, "phone", None), Err(ErrorCode::InvalidValue));
    assert_eq!(check_request(10, "", None), Err(ErrorCode::InvalidValue));
    assert_eq!(check_request(10, &"d".repeat(101), None), Err(ErrorCode::InvalidValue));
    assert_eq!(check_request(10, "phone", Some(&"c".repeat(513))), Err(ErrorCode::InvalidValue));
}

#[test]
fn retries_back_off_with_jitter() {
    // "ab" sums to 195; the jitter is (195 + 7 * attempt) % 17.
    assert_eq!(retry_delay("ab", 0), 5 + 195 % 17);
    assert_eq!(retry_delay("ab", 1), 10 + (195 + 7) % 17);
    assert_eq!(retry_delay("ab", 3), 40 + (195 + 21) % 17);
    assert_eq!(retry_delay("ab", 4), 50 + (195 + 28) % 17);
    assert_eq!(retry_delay("ab", 15), 50 + (195 + 105) % 17);
}

#[test]
fn cursor_kinds() {
    assert_eq!(cursor_kind(None), CursorKind::Fresh);
    assert_eq!(cursor_kind(Some("d1.0000")), CursorKind::Signed);
    assert_eq!(cursor_kind(Some("d2.0000")), CursorKind::Stored);
    assert_eq!(cursor_kind(Some("d1")), CursorKind::Stored);
}

fn cursor_row(account: &str, device: &str, epoch: i64, expires_at: i64) -> StoredCursor {
    StoredCursor {
        account_id: account.to_string(),
        device_id: device.to_string(),
        epoch,
        boundary: 17,
        snapshot_id: "snap".to_string(),
        position: 40,
        expires_at,
    }
}

#[test]
fn stored_cursors_resume_only_for_their_device() {
    let r = resume_stored(cursor_row(ACTOR, "phone", 3, 1000), ACTOR, "phone", 3, 999).unwrap();
    assert_eq!((r.boundary, r.snapshot.as_deref(), r.position, r.expires), (17, Some("snap"), 40, 1000));
    assert!(matches!(
        resume_stored(cursor_row(ACTOR, "tablet", 3, 1000), ACTOR, "phone", 3, 999),
        Err(ErrorCode::ResyncRequired)
    ));
    assert!(matches!(
        resume_stored(cursor_row(ACTOR, "phone", 3, 1000), ACTOR, "phone", 3, 1000),
        Err(ErrorCode::ResyncRequired)
    ));
    assert!(matches!(
        resume_stored(cursor_row(ACTOR, "phone", 2, 1000), ACTOR, "phone", 3, 999),
        Err(ErrorCode::AccessChanged)
    ));
}

#[test]
fn signed_cursors_resume_until_they_expire() {
    let token = sign(KEY, ACTOR, "phone", 5, 100).unwrap();
    let r = resume_signed(KEY, ACTOR, "phone", &token, 99).unwrap();
    assert_eq!((r.boundary, r.snapshot.is_none(), r.position, r.expires), (5, true, 0, 100));
    assert!(matches!(resume_signed(KEY, ACTOR, "phone", &token, 100), Err(ErrorCode::ResyncRequired)));
    assert!(matches!(resume_signed(KEY, ACTOR, "tablet", &token, 99), Err(ErrorCode::ResyncRequired)));
}

#[test]
fn snapshot_and_cursor_lifetimes() {
    assert_eq!(snapshot_expiry(1000), Ok(4600));
    assert_eq!(snapshot_expiry(i64::MAX), Err(ErrorCode::InvalidValue));
    assert_eq!(signed_expiry(1000, 86400), Ok(87400));
    assert_eq!(signed_expiry(i64::MAX - 10, 86400), Err(ErrorCode::InvalidValue));
    assert_eq!(check_boundary(5, 3, 9), Ok(()));
    assert_eq!(check_boundary(2, 3, 9), Err(ErrorCode::ResyncRequired));
    assert_eq!(check_boundary(10, 3, 9), Err(ErrorCode::ResyncRequired));
}

#[test]
fn snapshot_pages_fetch_one_more_row() {
    let s = snapshot_step(11, 10, 20);
    assert_eq!((s.taken, s.more, s.next_position), (10, true, 30));
    let s = snapshot_step(4, 10, 20);
    assert_eq!((s.taken, s.more, s.next_position), (4, false, 0));
}

#[test]
fn devices_and_their_last_seen_time() {
    assert_eq!(device_capacity(31), Ok(()));
    assert_eq!(device_capacity(32), Err(ErrorCode::DeviceCapacity));
    let retention = 90 * 86400;
    assert!(!touch_due(1000, 1000 + 86399, retention));
    assert!(touch_due(1000, 1000 + 86400, retention));
    assert!(touch_due(0, 100, 900));
    assert!(!touch_due(0, 89, 900));
    assert!(touch_due(i64::MIN, i64::MAX, retention));
}

#[test]
fn empty_deltas_reuse_a_long_lived_cursor() {
    let retention = 90 * 86400;
    assert!(reuse_cursor(true, true, 1000 + 864001, 1000, retention));
    assert!(!reuse_cursor(true, true, 1000 + 864000, 1000, retention));
    assert!(!reuse_cursor(false, true, 1000 + 900000, 1000, retention));
    assert!(!reuse_cursor(true, false, 1000 + 900000, 1000, retention));
    assert!(reuse_cursor(true, true, 1000 + 10001, 1000, 90000));
    assert!(!reuse_cursor(true, true, 1000 + 10000, 1000, 90000));
}

#[test]
fn kind_ranks_follow_the_resource_order() {
    assert_eq!(kind_rank("calendar_source"), 0);
    assert_eq!(kind_rank("person"), 2);
    assert_eq!(kind_rank("field"), 5);
    assert_eq!(kind_rank("reminder"), 10);
    assert_eq!(kind_rank("unknown"), 0);
}

fn entry(rank: usize, id: &str) -> (usize, String) {
    (rank, id.to_string())
}

#[test]
fn removals_reach_children_first() {
    let out = order_changes(vec![entry(2, "b"), entry(5, "z"), entry(2, "a"), entry(5, "c")], true);
    assert_eq!(out, vec![entry(5, "c"), entry(5, "z"), entry(2, "a"), entry(2, "b")]);
    let out = order_changes(vec![entry(5, "z"), entry(2, "b"), entry(2, "a")], false);
    assert_eq!(out, vec![entry(2, "a"), entry(2, "b"), entry(5, "z")]);
}

fn diff(id: &str, kind: &str, before: Option<bool>, after: Option<bool>, changed: bool) -> Diff {
    Diff { id: id.to_string(), kind: kind.to_string(), before, after, changed }
}

#[test]
fn publication_sends_identities_before_fields() {
    let diffs = vec![
        diff("f1", "field", None, Some(false), false),
        diff("p1", "person", None, Some(true), false),
        diff("p2", "person", Some(true), Some(true), false),
        diff("f2", "field", Some(false), None, false),
        diff("p3", "person", Some(true), None, false),
        diff("x", "mystery", None, Some(true), false),
    ];
    match publication(diffs, false) {
        Ok(Publication::Batch { upserts, removals, bump_epoch }) => {
            assert_eq!(upserts, vec![entry(2, "p1"), entry(5, "f1")]);
            assert_eq!(removals, vec![entry(5, "f2"), entry(2, "p3")]);
            assert!(!bump_epoch);
        },
        _ => panic!("expected a batch"),
    }
}

#[test]
fn publication_moves_the_epoch_when_access_is_lost() {
    let diffs = vec![diff("p1", "person", Some(true), Some(false), true)];
    match publication(diffs, true) {
        Ok(Publication::Batch { upserts, bump_epoch, .. }) => {
            assert_eq!(upserts, vec![entry(2, "p1")]);
            assert!(bump_epoch);
        },
        _ => panic!("expected a batch"),
    }
}

#[test]
fn oversized_publications_resync_or_fail() {
    let many = || (0..201).map(|i| diff(&format!("p{i:03}"), "person", None, Some(true), false)).collect::<Vec<_>>();
    assert!(matches!(publication(many(), true), Ok(Publication::Resync)));
    assert!(matches!(publication(many(), false), Err(ErrorCode::BatchTooLarge)));
}

#[test]
fn household_roles() {
    assert_eq!(check_role(None, false), Err(ErrorCode::NotFound));
    assert_eq!(check_role(Some("member"), true), Err(ErrorCode::Forbidden));
    assert_eq!(check_role(Some("member"), false), Ok(()));
    assert_eq!(check_role(Some("manager"), true), Ok(()));
    assert_eq!(check_version(3, 3), Ok(()));
    assert_eq!(check_version(3, 2), Err(ErrorCode::Conflict));
    assert_eq!(household_capacity(31), Ok(()));
    assert_eq!(household_capacity(32), Err(ErrorCode::SliceCapacity));
}

fn member(id: &str, manager: bool) -> Membership {
    Membership { account_id: id.to_string(), manager }
}

#[test]
fn a_household_keeps_a_manager() {
    let ms = vec![member("a", true), member("b", false), member("c", true)];
    assert_eq!(count_managers_besides(&ms, "a"), 1);
    assert_eq!(retain_manager(count_managers_besides(&ms, "a")), Ok(()));
    let alone = vec![member("a", true), member("b", false)];
    assert_eq!(count_managers_besides(&alone, "a"), 0);
    assert_eq!(retain_manager(count_managers_besides(&alone, "a")), Err(ErrorCode::LastManager));
    assert_eq!(retain_manager(count_managers_besides(&alone, "b")), Ok(()));
}

#[test]
fn invitations() {
    assert_eq!(check_answer(2, "pending", 100, 2, 99), Ok(()));
    assert_eq!(check_answer(2, "pending", 100, 2, 100), Err(ErrorCode::InvitationExpired));
    assert_eq!(check_answer(2, "accepted", 100, 2, 99), Err(ErrorCode::Conflict));
    assert_eq!(check_answer(3, "pending", 100, 2, 99), Err(ErrorCode::Conflict));
    assert_eq!(answer_status(true), "accepted");
    assert_eq!(answer_status(false), "declined");
    assert_eq!(check_invite(1, 0, 0, 199), Ok(()));
    assert_eq!(check_invite(0, 0, 0, 0), Err(ErrorCode::NotFound));
    assert_eq!(check_invite(1, 1, 0, 0), Err(ErrorCode::Conflict));
    assert_eq!(check_invite(1, 0, 1, 0), Err(ErrorCode::Conflict));
    assert_eq!(check_invite(1, 0, 0, 200), Err(ErrorCode::SliceCapacity));
    assert_eq!(invitation_expiry(0), Ok(604800));
    assert_eq!(invitation_expiry(i64::MAX), Err(ErrorCode::InvalidValue));
    assert_eq!(defaults_kind("progress"), Ok(()));
    assert_eq!(defaults_kind("event"), Err(ErrorCode::InvalidValue));
}

#[test]
fn people_receipts_replay_their_person() {
    let receipt = |p: Option<&str>| PeopleReceipt {
        payload: "d".to_string(),
        revision: 9,
        person_id: p.map(|s| s.to_string()),
    };
    let r = people_replay(Some(receipt(Some("p"))), "d").unwrap().unwrap();
    assert_eq!((r.revision, r.person_id.as_str()), (9, "p"));
    assert!(matches!(people_replay(Some(receipt(None)), "d"), Err(ErrorCode::OperationConflict)));
    assert!(matches!(people_replay(Some(receipt(Some("p"))), "e"), Err(ErrorCode::OperationConflict)));
    assert!(matches!(people_replay(None, "d"), Ok(None)));
}

#[test]
fn links_and_merges() {
    assert_eq!(check_link_request(true, 2, 2, false, 0), Ok(()));
    assert_eq!(check_link_request(false, 2, 2, false, 0), Err(ErrorCode::Conflict));
    assert_eq!(check_link_request(true, 2, 2, false, 1), Err(ErrorCode::Conflict));
    assert_eq!(check_link_acceptance("a", "a", "s", "s", 1, 1, Some(4), 4), Ok(()));
    assert_eq!(check_link_acceptance("a", "b", "s", "s", 1, 1, Some(4), 4), Err(ErrorCode::Forbidden));
    assert_eq!(check_link_acceptance("a", "a", "s", "s", 1, 1, None, 4), Err(ErrorCode::Conflict));
    assert_eq!(merge_recipient("a", "a", "b"), "b");
    assert_eq!(merge_recipient("a", "b", "a"), "b");
    assert_eq!(check_merge_owners("s", "a", "s", "a"), Ok(()));
    assert_eq!(check_merge_owners("a", "s", "s", "a"), Ok(()));
    assert_eq!(check_merge_owners("s", "s", "s", "a"), Err(ErrorCode::Forbidden));
    assert_eq!(check_merge_owners("s", "x", "s", "a"), Err(ErrorCode::Forbidden));
    assert_eq!(check_merge("t", "t", true, true), Ok(()));
    assert_eq!(check_merge("t", "t", false, true), Err(ErrorCode::InvalidValue));
    assert_eq!(check_merge("t", "t", true, false), Err(ErrorCode::Forbidden));
    assert_eq!(check_merge("t", "u", false, false), Err(ErrorCode::Conflict));
    assert_eq!(check_merge_pair("a", "a", false, true, true), Err(ErrorCode::InvalidValue));
    assert_eq!(check_merge_pair("a", "b", true, true, true), Err(ErrorCode::InvalidValue));
    assert_eq!(check_merge_pair("a", "b", false, false, false), Err(ErrorCode::Forbidden));
    assert_eq!(check_merge_pair("a", "b", false, true, false), Ok(true));
    assert_eq!(check_merge_pair("a", "b", false, true, true), Ok(false));
    assert_eq!(check_merge_links(2, None, "n"), Err(ErrorCode::Conflict));
    assert_eq!(check_merge_links(1, Some("n"), "m"), Err(ErrorCode::Conflict));
    assert_eq!(check_merge_links(1, Some("n"), "n"), Ok(()));
    assert_eq!(check_rename(Some("a"), "a", 3, 3), Ok(()));
    assert_eq!(check_rename(None, "a", 3, 3), Err(ErrorCode::Forbidden));
    assert_eq!(check_rename(Some("a"), "a", 3, 2), Err(ErrorCode::Conflict));
    assert_eq!(check_unlink(Some("a"), "o", "o", 1, 1), Ok(()));
    assert_eq!(check_unlink(None, "o", "o", 1, 1), Err(ErrorCode::Conflict));
    assert_eq!(check_unlink(Some("a"), "o", "x", 1, 1), Err(ErrorCode::Forbidden));
}

#[test]
fn merged_identities_keep_every_earlier_reader() {
    let seen = vec![
        ("c".to_string(), false),
        ("owner".to_string(), true),
        ("a".to_string(), false),
        ("c".to_string(), true),
        ("b".to_string(), false),
    ];
    assert_eq!(
        identity_grants(&seen, "owner"),
        vec![("a".to_string(), false), ("b".to_string(), false), ("c".to_string(), true)]
    );
}

#[test]
fn edits_of_people_and_fields() {
    assert_eq!(check_edit(true, 2, 2, "person", "", false), Ok(()));
    assert_eq!(check_edit(false, 2, 2, "person", "", false), Err(ErrorCode::Forbidden));
    assert_eq!(check_edit(true, 2, 1, "person", "", false), Err(ErrorCode::Conflict));
    assert_eq!(check_edit(true, 2, 2, "task", "", false), Err(ErrorCode::InvalidValue));
    assert_eq!(check_edit(true, 2, 2, "person", "x", false), Err(ErrorCode::InvalidValue));
    assert_eq!(check_edit(true, 2, 2, "field", "x", false), Err(ErrorCode::InvalidValue));
    assert_eq!(check_edit(true, 2, 2, "field", "x", true), Ok(()));
}

#[test]
fn creations_and_defaults() {
    let commands = vec![
        Command::CreatePerson { id: ACTOR.to_string(), name: "Ann".to_string(), initial_policy: Some(Policy::default()) },
        Command::Edit { id: OTHER.to_string(), expected_version: 1, label: "l".to_string(), value: String::new() },
        Command::CreateField {
            id: OTHER.to_string(),
            person_id: ACTOR.to_string(),
            label: "l".to_string(),
            value: "v".to_string(),
            initial_policy: None,
        },
    ];
    assert_eq!(creations(&commands), 2);
    assert!(needs_defaults(&commands));
    assert!(!needs_defaults(&commands[..2]));
    assert_eq!(commands[1].target(), OTHER);
}

#[test]
fn policy_shapes() {
    let grant = |id: &str, household: bool| {
        if household {
            PrincipalGrant::Household { id: id.to_string(), edit: false }
        } else {
            PrincipalGrant::Account { id: id.to_string(), edit: true }
        }
    };
    let ok = Policy { grants: vec![grant(ACTOR, false), grant(ACTOR, true)], exclude_accounts: vec![OTHER.to_string()] };
    assert_eq!(check_policy_shape(&ok), Ok(()));
    let twice = Policy { grants: vec![grant(ACTOR, false), grant(ACTOR, false)], exclude_accounts: vec![] };
    assert_eq!(check_policy_shape(&twice), Err(ErrorCode::InvalidValue));
    let bad_id = Policy { grants: vec![grant("x", false)], exclude_accounts: vec![] };
    assert_eq!(check_policy_shape(&bad_id), Err(ErrorCode::InvalidValue));
    let excluded_twice = Policy { grants: vec![], exclude_accounts: vec![OTHER.to_string(), OTHER.to_string()] };
    assert_eq!(check_policy_shape(&excluded_twice), Err(ErrorCode::InvalidValue));
    assert!(matches!(fallback_template("person"), DefaultTemplate::PrimaryHousehold { edit: true }));
    assert!(matches!(fallback_template("progress"), DefaultTemplate::PrimaryHousehold { edit: false }));
    assert!(matches!(fallback_template("task"), DefaultTemplate::Private));
}

#[test]
fn pages_resume_where_their_cursor_points() {
    let fresh = sync_start(None, CursorRead::Fresh("snap".to_string()), ACTOR, "phone", 1, 50, 10, 1000).unwrap();
    assert_eq!((fresh.boundary, fresh.snapshot.as_deref(), fresh.position, fresh.expires), (50, Some("snap"), 0, 4600));
    assert!(matches!(
        sync_start(None, CursorRead::Fresh("snap".to_string()), ACTOR, "phone", 1, 50, 60, 1000),
        Err(ErrorCode::ResyncRequired)
    ));
    assert!(matches!(
        sync_start(None, CursorRead::Fresh("snap".to_string()), ACTOR, "phone", 1, 50, 10, i64::MAX - 10),
        Err(ErrorCode::InvalidValue)
    ));
    let c = Some("stored-token");
    assert!(matches!(sync_start(c, CursorRead::Stored(None), ACTOR, "phone", 1, 50, 10, 1000), Err(ErrorCode::ResyncRequired)));
    let r = sync_start(c, CursorRead::Stored(Some(cursor_row(ACTOR, "phone", 1, 2000))), ACTOR, "phone", 1, 50, 10, 1000)
        .unwrap();
    assert_eq!((r.boundary, r.snapshot.as_deref(), r.position, r.expires), (17, Some("snap"), 40, 2000));
    assert!(matches!(
        sync_start(c, CursorRead::Stored(Some(cursor_row(ACTOR, "phone", 1, 2000))), ACTOR, "phone", 2, 50, 10, 1000),
        Err(ErrorCode::AccessChanged)
    ));
    assert!(matches!(
        sync_start(c, CursorRead::Stored(Some(cursor_row(ACTOR, "phone", 1, 2000))), ACTOR, "phone", 1, 50, 20, 1000),
        Err(ErrorCode::ResyncRequired)
    ));
    let token = sign(KEY, ACTOR, "phone", 30, 5000).unwrap();
    let t = Some(token.as_str());
    let r = sync_start(t, CursorRead::Signed(Some(KEY.to_string())), ACTOR, "phone", 1, 50, 10, 1000).unwrap();
    assert_eq!((r.boundary, r.snapshot, r.position, r.expires), (30, None, 0, 5000));
    assert!(matches!(sync_start(t, CursorRead::Signed(None), ACTOR, "phone", 1, 50, 10, 1000), Err(ErrorCode::ResyncRequired)));
    assert!(matches!(
        sync_start(t, CursorRead::Signed(Some(KEY.to_string())), ACTOR, "phone", 1, 20, 10, 1000),
        Err(ErrorCode::ResyncRequired)
    ));
    assert!(matches!(
        sync_start(t, CursorRead::Signed(Some(KEY.to_string())), ACTOR, "phone", 1, 50, 10, 5000),
        Err(ErrorCode::ResyncRequired)
    ));
}

#[test]
fn pages_end_with_a_device_write_and_a_cursor() {
    let day = 86_400;
    let retention = 30 * day;
    assert_eq!(sync_finish(None, 3, 1000, retention, true, false, false, 0), Ok((DeviceWrite::Register, CursorPlan::Sign(1000 + retention))));
    assert_eq!(sync_finish(None, 32, 1000, retention, true, false, false, 0), Err(ErrorCode::DeviceCapacity));
    assert_eq!(sync_finish(Some(1000), 40, 1000 + day, retention, false, false, true, 0), Ok((DeviceWrite::Touch, CursorPlan::Store)));
    assert_eq!(sync_finish(Some(1000), 40, 1000 + 10, retention, false, false, true, 0), Ok((DeviceWrite::Nothing, CursorPlan::Store)));
    assert_eq!(sync_finish(Some(1000), 40, 1010, retention, true, true, false, 1010 + 10 * day), Ok((DeviceWrite::Nothing, CursorPlan::Reuse)));
    assert_eq!(
        sync_finish(Some(1000), 40, 1010, retention, true, true, false, 1010 + day),
        Ok((DeviceWrite::Nothing, CursorPlan::Sign(1010 + retention)))
    );
    assert_eq!(sync_finish(Some(0), 0, i64::MAX - 1, retention, true, false, false, 0), Err(ErrorCode::InvalidValue));
}

fn members(list: &[(&str, bool)]) -> Vec<Membership> {
    list.iter().map(|(a, m)| Membership { account_id: a.to_string(), manager: *m }).collect()
}

fn roles(ms: &[Membership]) -> Vec<(String, bool)> {
    ms.iter().map(|m| (m.account_id.clone(), m.manager)).collect()
}

#[test]
fn membership_changes_keep_a_manager() {
    let ms = members(&[("ann", true), ("bob", false), ("cat", true)]);
    let out = membership_step(&ms, "ann", "bob", 3, 3, None).unwrap();
    assert_eq!(roles(&out), vec![("ann".to_string(), true), ("cat".to_string(), true)]);
    let out = membership_step(&ms, "bob", "bob", 3, 3, None).unwrap();
    assert_eq!(out.len(), 2);
    assert!(matches!(membership_step(&ms, "bob", "ann", 3, 3, None), Err(ErrorCode::Forbidden)));
    assert!(matches!(membership_step(&ms, "dan", "bob", 3, 3, None), Err(ErrorCode::NotFound)));
    assert!(matches!(membership_step(&ms, "ann", "dan", 3, 3, None), Err(ErrorCode::NotFound)));
    assert!(matches!(membership_step(&ms, "ann", "bob", 3, 2, None), Err(ErrorCode::Conflict)));
    let out = membership_step(&ms, "ann", "cat", 3, 3, Some(false)).unwrap();
    assert_eq!(roles(&out)[2], ("cat".to_string(), false));
    let out = membership_step(&ms, "cat", "bob", 3, 3, Some(true)).unwrap();
    assert_eq!(roles(&out)[1], ("bob".to_string(), true));
    let lone = members(&[("ann", true), ("bob", false)]);
    assert!(matches!(membership_step(&lone, "ann", "ann", 1, 1, None), Err(ErrorCode::LastManager)));
    assert!(matches!(membership_step(&lone, "ann", "ann", 1, 1, Some(false)), Err(ErrorCode::LastManager)));
    assert!(matches!(membership_step(&lone, "bob", "bob", 1, 1, Some(true)), Err(ErrorCode::Forbidden)));
}

#[test]
fn task_commands_start_after_receipt_and_defaults() {
    let op = "6f9619ff-8b86-4d01-b42d-00cf4fc964ff";
    assert_eq!(command_start(op, None, "p", Ok(()), None, "r1"), Ok(CommandStart::Run));
    assert_eq!(command_start(op, None, "p", Ok(()), Some("r1"), "r1"), Ok(CommandStart::Run));
    assert_eq!(command_start(op, None, "p", Ok(()), Some("r0"), "r1"), Err(ErrorCode::DefaultsChanged));
    assert_eq!(command_start(op, Some(stored("p", 7, 1)), "p", Ok(()), Some("r0"), "r1"), Ok(CommandStart::Replayed(7)));
    assert_eq!(command_start(op, Some(stored("q", 7, 1)), "p", Ok(()), None, "r1"), Err(ErrorCode::OperationConflict));
    assert_eq!(command_start(op, Some(stored("p", 7, 2)), "p", Ok(()), None, "r1"), Err(ErrorCode::UnsupportedReceipt));
    assert_eq!(command_start(op, None, "p", Err(ErrorCode::NotFound), Some("r0"), "r1"), Err(ErrorCode::NotFound));
    assert_eq!(command_start("op", None, "p", Ok(()), None, "r1"), Err(ErrorCode::InvalidValue));
}

fn kind_id(kind: &str, id: &str) -> (String, String) {
    (kind.to_string(), id.to_string())
}

fn change_text(c: &BatchChange) -> String {
    match c {
        BatchChange::Upsert(r, id) => format!("+{r}:{id}"),
        BatchChange::Remove(r, id) => format!("-{r}:{id}"),
    }
}

#[test]
fn batches_send_upserts_before_removals() {
    let visible = vec![kind_id("task", "b"), kind_id("event", "z"), kind_id("mystery", "m"), kind_id("task", "a")];
    let removed = vec![kind_id("event", "y"), kind_id("reminder", "r"), kind_id("mystery", "q"), kind_id("reminder", "p")];
    let out: Vec<String> = batch_changes(&visible, &removed).iter().map(change_text).collect();
    assert_eq!(out, vec!["+1:z", "+3:a", "+3:b", "-10:p", "-10:r", "-1:y", "-0:q"]);
    assert!(batch_changes(&[], &[]).is_empty());
}

#[test]
fn delta_pages_stop_at_the_limit() {
    assert_eq!(delta_reach(&[5, 8, 9], 2, 3), (2, true, 8));
    assert_eq!(delta_reach(&[5, 8], 2, 3), (2, false, 8));
    assert_eq!(delta_reach(&[], 2, 3), (0, false, 3));
}

#[test]
fn resource_batches_start_after_receipt_and_defaults() {
    let op = "6f9619ff-8b86-4d01-b42d-00cf4fc964ff";
    let edit = Command::Edit { id: OTHER.to_string(), expected_version: 1, label: "l".to_string(), value: String::new() };
    let create = Command::CreatePerson { id: ACTOR.to_string(), name: "Ann".to_string(), initial_policy: None };
    let plain = vec![edit];
    let creating = vec![create];
    assert_eq!(apply_start(op, &plain, None, "p", Ok(()), Some("r0"), "r1"), Ok(CommandStart::Run));
    assert_eq!(apply_start(op, &creating, None, "p", Ok(()), Some("r0"), "r1"), Err(ErrorCode::DefaultsChanged));
    assert_eq!(apply_start(op, &creating, None, "p", Ok(()), Some("r1"), "r1"), Ok(CommandStart::Run));
    assert_eq!(apply_start(op, &creating, None, "p", Ok(()), None, "r1"), Ok(CommandStart::Run));
    assert_eq!(apply_start(op, &creating, Some(stored("p", 4, 1)), "p", Ok(()), Some("r0"), "r1"), Ok(CommandStart::Replayed(4)));
    assert_eq!(apply_start(op, &creating, Some(stored("q", 4, 1)), "p", Ok(()), None, "r1"), Err(ErrorCode::OperationConflict));
    assert_eq!(apply_start(op, &plain, None, "p", Err(ErrorCode::NotFound), None, "r1"), Err(ErrorCode::NotFound));
    assert_eq!(apply_start(op, &[], None, "p", Ok(()), None, "r1"), Err(ErrorCode::InvalidValue));
    assert_eq!(apply_start("op", &plain, None, "p", Ok(()), None, "r1"), Err(ErrorCode::InvalidValue));
}
