//! Reminders: when they fire, and the records of their delivery.
use vstd::prelude::*;
use crate::error::ErrorCode;
use crate::tasks::service::OccurrenceData;
use crate::text::{byte_len, push_str, str_eq, string_from_chars};
use crate::tasks::decimal::{render_nat, render_nat_exec};
use crate::tasks::goals::Outcome;
use crate::tasks::service::{uuid_v5, uuid_v5_text};
use crate::is_canonical_uuid;
use crate::time::{chrono_hms, chrono_ymd, day_number, day_number_exec, parse_hms, parse_ymd, resolve, resolve_wall, tz_known, zone_known};

verus! {

/// Where a reminder is delivered.
pub enum DeliveryMode {
    Server,
    Device { device_id: String },
}

/// When and how an occurrence reminds.
pub struct ReminderRule {
    pub offset_seconds: i64,
    pub time: Option<String>,
    pub late_seconds: u32,
    pub enabled: bool,
    pub delivery: DeliveryMode,
}

/// A change to reminder rules or push subscriptions.
pub enum ReminderCommand {
    SetRule { id: String, occurrence_id: String, expected_version: Option<i64>, rule: ReminderRule },
    SetSubscription {
        id: String,
        expected_version: i64,
        device_id: String,
        transport: String,
        secret: String,
        enabled: bool,
    },
    RemoveSubscription { id: String, expected_version: i64 },
}

/// The payload of one reminder.
pub struct Notification {
    pub id: String,
    pub reminder_id: String,
    pub occurrence_id: String,
}

/// A claimed delivery; worker-only, encrypted connection material never
/// enters sync.
pub struct Delivery {
    pub id: String,
    pub token: String,
    pub transport: String,
    pub secret: String,
    pub notification: Notification,
    pub expires_at: i64,
}

/// The instant a rule reminds of an occurrence: offsets of at most 366 days
/// and lateness of at most a week; an explicit `HH:MM:SS` time on the slot's
/// date in the slot's zone, else the slot's own instant; then the offset.
/// A rule without a time needs a timed slot.
pub open spec fn due_instant(data: OccurrenceData, rule: ReminderRule) -> Result<i64, ErrorCode> {
    let base: Result<int, ErrorCode> = if !(-31622400 <= rule.offset_seconds <= 31622400
        && rule.late_seconds <= 604800) {
        Err(ErrorCode::InvalidValue)
    } else if rule.time is Some {
        let t = rule.time->Some_0@;
        if byte_len(t) != 8 || chrono_hms(t) is None || chrono_hms(t)->Some_0.1 != 0 {
            Err(ErrorCode::InvalidValue)
        } else if data.slot.date is None || chrono_ymd(data.slot.date->Some_0@) is None {
            Err(ErrorCode::InvalidValue)
        } else if !tz_known(data.slot.timezone@) {
            Err(ErrorCode::InvalidValue)
        } else {
            match resolve_wall(
                data.slot.timezone@,
                day_number(chrono_ymd(data.slot.date->Some_0@)->Some_0) * 86400 + chrono_hms(
                    t,
                )->Some_0.0,
            ) {
                Some(i) => Ok(i),
                None => Err(ErrorCode::InvalidValue),
            }
        }
    } else if data.slot.instant is None {
        Err(ErrorCode::ReminderTimeRequired)
    } else {
        Ok(data.slot.instant->Some_0 as int)
    };
    match base {
        Err(e) => Err(e),
        Ok(i) => if i64::MIN <= i + rule.offset_seconds <= i64::MAX {
            Ok((i + rule.offset_seconds) as i64)
        } else {
            Err(ErrorCode::InvalidValue)
        },
    }
}

/// When a rule reminds of an occurrence (see `due_instant`).
pub fn due(data: &OccurrenceData, rule: &ReminderRule) -> (r: Result<i64, ErrorCode>)
    ensures
        r == due_instant(*data, *rule),
{
    if rule.offset_seconds < -31622400 || rule.offset_seconds > 31622400 || rule.late_seconds > 604800 {
        return Err(ErrorCode::InvalidValue);
    }
    let instant: i64 = match &rule.time {
        Some(time) => {
            if time.as_str().len() != 8 {
                return Err(ErrorCode::InvalidValue);
            }
            let clock = match parse_hms(time.as_str()) {
                Some((s, n)) => {
                    if n != 0 {
                        return Err(ErrorCode::InvalidValue);
                    }
                    s
                },
                None => return Err(ErrorCode::InvalidValue),
            };
            let date = match &data.slot.date {
                Some(d) => match parse_ymd(d.as_str()) {
                    Some(d) => d,
                    None => return Err(ErrorCode::InvalidValue),
                },
                None => return Err(ErrorCode::InvalidValue),
            };
            let zone = data.slot.timezone.as_str();
            if !zone_known(zone) {
                return Err(ErrorCode::InvalidValue);
            }
            proof {
                crate::time::lemma_day_number_bounds(date);
            }
            match resolve(zone, day_number_exec(date) * 86400 + clock as i64) {
                Ok(t) => t,
                Err(e) => return Err(e),
            }
        },
        None => match data.slot.instant {
            Some(t) => t,
            None => return Err(ErrorCode::ReminderTimeRequired),
        },
    };
    match instant.checked_add(rule.offset_seconds) {
        Some(t) => Ok(t),
        None => Err(ErrorCode::InvalidValue),
    }
}

/// The most reminder rules an account may own.
pub const MAX_RULES: i64 = 1000;

/// The most active push subscriptions an account may hold.
pub const MAX_SUBSCRIPTIONS: i64 = 16;

/// A device name: 1 to 100 bytes.
pub open spec fn device_name_ok(device: Seq<char>) -> bool {
    device.len() > 0 && byte_len(device) <= 100
}

/// A reminder delivered to a device names that device properly.
pub fn check_delivery(mode: &DeliveryMode) -> (r: Result<(), ErrorCode>)
    ensures
        r is Ok <==> (mode matches DeliveryMode::Device { device_id } ==> device_name_ok(device_id@)),
        r matches Err(e) ==> e == ErrorCode::InvalidValue,
{
    match mode {
        DeliveryMode::Server => Ok(()),
        DeliveryMode::Device { device_id } => {
            if !device_id.as_str().is_empty() && device_id.as_str().len() <= 100 {
                Ok(())
            } else {
                Err(ErrorCode::InvalidValue)
            }
        },
    }
}

/// A reminder rule is changed at the version its owner saw, on the same
/// occurrence (else `Conflict`), and only by its owner (else `Forbidden`).
pub fn check_rule_change(version: i64, expected: i64, parent: Option<&str>, occurrence: &str, owner: &str, actor: &str) -> (r: Result<(), ErrorCode>)
    ensures
        !(version == expected && (parent matches Some(p) && p@ == occurrence@)) ==> r == Err::<
            (),
            ErrorCode,
        >(ErrorCode::Conflict),
        version == expected && (parent matches Some(p) && p@ == occurrence@) ==> (r is Ok <==> owner@
            == actor@),
        version == expected && (parent matches Some(p) && p@ == occurrence@) ==> (r matches Err(e)
            ==> e == ErrorCode::Forbidden),
{
    let same_parent = match parent {
        Some(p) => str_eq(p, occurrence),
        None => false,
    };
    if !(version == expected && same_parent) {
        return Err(ErrorCode::Conflict);
    }
    if str_eq(owner, actor) {
        Ok(())
    } else {
        Err(ErrorCode::Forbidden)
    }
}

/// A push subscription uses a known transport, a secret of at most 16 KiB
/// and a proper device name.
pub open spec fn subscription_ok(transport: Seq<char>, secret: Seq<char>, device: Seq<char>) -> bool {
    &&& (transport == "web_push"@ || transport == "ntfy"@)
    &&& byte_len(secret) <= 16384
    &&& device_name_ok(device)
}

/// Checks the settings of a push subscription.
pub fn check_subscription(transport: &str, secret: &str, device: &str) -> (r: Result<(), ErrorCode>)
    ensures
        r is Ok <==> subscription_ok(transport@, secret@, device@),
        r matches Err(e) ==> e == ErrorCode::InvalidValue,
{
    if (str_eq(transport, "web_push") || str_eq(transport, "ntfy")) && secret.len() <= 16384
        && !device.is_empty() && device.len() <= 100 {
        Ok(())
    } else {
        Err(ErrorCode::InvalidValue)
    }
}

/// A subscription is changed by its own account (else `NotFound`) at the
/// version it saw (else `Conflict`); a new one starts from version 0.
pub fn check_subscription_change(existing: Option<(&str, i64)>, actor: &str, expected: i64) -> (r: Result<(), ErrorCode>)
    ensures
        existing is None ==> (r is Ok <==> expected == 0),
        existing is None ==> (r matches Err(e) ==> e == ErrorCode::Conflict),
        existing matches Some((a, v)) ==> (a@ != actor@ ==> r == Err::<(), ErrorCode>(
            ErrorCode::NotFound)),
        existing matches Some((a, v)) ==> (a@ == actor@ ==> (r is Ok <==> v == expected)),
        existing matches Some((a, v)) ==> (a@ == actor@ ==> (r matches Err(e) ==> e
            == ErrorCode::Conflict)),
{
    match existing {
        None => if expected == 0 {
            Ok(())
        } else {
            Err(ErrorCode::Conflict)
        },
        Some((account, version)) => {
            if !str_eq(account, actor) {
                Err(ErrorCode::NotFound)
            } else if version != expected {
                Err(ErrorCode::Conflict)
            } else {
                Ok(())
            }
        },
    }
}

/// The decimal text of an integer, as `Display` writes it.
pub open spec fn int_rendering(v: int) -> Seq<char> {
    if v < 0 {
        "-"@ + render_nat((-v) as nat)
    } else {
        render_nat(v as nat)
    }
}

/// Appends the decimal text of an integer.
pub(crate) fn push_int(out: &mut Vec<char>, v: i64)
    ensures
        final(out)@ == old(out)@ + int_rendering(v as int),
{
    let magnitude: u64 = if v < 0 {
        (0i128 - v as i128) as u64
    } else {
        v as u64
    };
    let ghost head = out@;
    if v < 0 {
        out.push('-');
    }
    let digits = render_nat_exec(magnitude);
    let ghost mid = out@;
    let mut i: usize = 0;
    while i < digits.len()
        invariant
            i <= digits@.len(),
            out@ == mid + digits@.take(i as int),
        decreases digits.len() - i,
    {
        out.push(digits[i]);
        i = i + 1;
        assert(out@ =~= mid + digits@.take(i as int));
    }
    assert(digits@.take(i as int) =~= digits@);
    proof {
        reveal_strlit("-");
        if v < 0 {
            assert(mid =~= head + "-"@);
        }
    }
}

/// The text a delivery's revision is the digest of: the versions of the
/// reminder, of its occurrence and of the subscription, colon-separated.
pub open spec fn delivery_revision_text(reminder: i64, occurrence: i64, subscription: i64) -> Seq<char> {
    int_rendering(reminder as int) + ":"@ + int_rendering(occurrence as int) + ":"@ + int_rendering(
        subscription as int,
    )
}

/// The revision of a delivery: the receipt digest of the versions it was
/// scheduled from, so that any change to them cancels it.
pub fn delivery_revision(reminder: i64, occurrence: i64, subscription: i64) -> (r: String)
    ensures
        r@ == crate::receipts::digest_of(delivery_revision_text(reminder, occurrence, subscription)),
{
    let mut v: Vec<char> = Vec::new();
    push_int(&mut v, reminder);
    push_str(&mut v, ":");
    push_int(&mut v, occurrence);
    push_str(&mut v, ":");
    push_int(&mut v, subscription);
    let text = string_from_chars(v.as_slice());
    crate::receipt_digest(text.as_str())
}

/// The identity of a delivery: a version-5 UUID in the reminder's
/// namespace, named by the subscription and the revision, so that one
/// schedule never delivers twice. The reminder must be a canonical UUID.
pub fn delivery_id(reminder: &str, subscription: &str, revision: &str) -> (r: Result<String, ErrorCode>)
    ensures
        r is Ok <==> is_canonical_uuid(reminder@),
        r matches Ok(id) ==> id@ == uuid_v5(
            reminder@,
            "atlas-delivery-v1:"@ + subscription@ + ":"@ + revision@,
        ),
        r matches Err(e) ==> e == ErrorCode::InvalidValue,
{
    if crate::identifier(reminder).is_err() {
        return Err(ErrorCode::InvalidValue);
    }
    let mut v: Vec<char> = Vec::new();
    push_str(&mut v, "atlas-delivery-v1:");
    push_str(&mut v, subscription);
    push_str(&mut v, ":");
    push_str(&mut v, revision);
    let name = string_from_chars(v.as_slice());
    Ok(uuid_v5_text(reminder, name.as_str()))
}

/// A server reminder stays scheduled while it is enabled and its occurrence
/// is visible to its owner, neither archived, resolved nor covered, and not
/// complete for them.
pub open spec fn reminder_live(rule: ReminderRule, visible: bool, archived: bool, resolved: bool, covered: bool, outcome: Outcome) -> bool {
    &&& rule.enabled
    &&& rule.delivery is Server
    &&& visible
    &&& !archived
    &&& !resolved
    &&& !covered
    &&& outcome != Outcome::Complete
}

/// Decides whether a reminder stays scheduled (see `reminder_live`).
pub fn reminder_active(rule: &ReminderRule, visible: bool, archived: bool, resolved: bool, covered: bool, outcome: Outcome) -> (r: bool)
    ensures
        r == reminder_live(*rule, visible, archived, resolved, covered, outcome),
{
    let server = match rule.delivery {
        DeliveryMode::Server => true,
        _ => false,
    };
    rule.enabled && server && visible && !archived && !resolved && !covered && outcome
        != Outcome::Complete
}

/// When a delivery due at `at` expires (`late` seconds later), and whether
/// it has already expired at `now`.
pub fn delivery_window(at: i64, late: u32, now: i64) -> (r: Result<(i64, bool), ErrorCode>)
    ensures
        at + late <= i64::MAX ==> r == Ok::<(i64, bool), ErrorCode>(
            ((at + late) as i64, at + late < now),
        ),
        at + late > i64::MAX ==> r == Err::<(i64, bool), ErrorCode>(ErrorCode::InvalidValue),
{
    match at.checked_add(late as i64) {
        Some(expires) => Ok((expires, expires < now)),
        None => Err(ErrorCode::InvalidValue),
    }
}

/// The most attempts a delivery gets.
pub const MAX_ATTEMPTS: i64 = 8;

/// How a delivery attempt ends.
#[derive(Clone, Copy, Debug, PartialEq, Eq, Structural)]
pub enum DeliveryState {
    Delivered,
    Failed,
    Pending,
}

/// A successful attempt delivers; a permanent failure, or a failure after
/// eight attempts, fails for good; any other failure waits to retry.
pub open spec fn attempt_state(success: bool, permanent: bool, attempts: i64) -> DeliveryState {
    if success {
        DeliveryState::Delivered
    } else if permanent || attempts >= MAX_ATTEMPTS {
        DeliveryState::Failed
    } else {
        DeliveryState::Pending
    }
}

/// The pause before the next attempt: 15 seconds doubling with each
/// attempt made (counting at most eight), at most an hour.
pub open spec fn retry_wait_of(attempts: i64) -> int {
    let n: nat = if attempts < 0 {
        0
    } else if attempts > 8 {
        8
    } else {
        attempts as nat
    };
    if 15 * vstd::arithmetic::power2::pow2(n) < 3600 {
        (15 * vstd::arithmetic::power2::pow2(n)) as int
    } else {
        3600
    }
}

/// Settles a delivery attempt: its new state and the pause before it may
/// be attempted again.
pub fn finish_attempt(success: bool, permanent: bool, attempts: i64) -> (r: (DeliveryState, i64))
    ensures
        r.0 == attempt_state(success, permanent, attempts),
        r.1 == retry_wait_of(attempts),
{
    let state = if success {
        DeliveryState::Delivered
    } else if permanent || attempts >= MAX_ATTEMPTS {
        DeliveryState::Failed
    } else {
        DeliveryState::Pending
    };
    let n: u32 = if attempts < 0 {
        0
    } else if attempts > 8 {
        8
    } else {
        attempts as u32
    };
    let mut wait: i64 = 15;
    let mut k: u32 = 0;
    proof {
        vstd::arithmetic::power2::lemma2_to64();
    }
    while k < n
        invariant
            k <= n <= 8,
            wait == 15 * vstd::arithmetic::power2::pow2(k as nat),
        decreases n - k,
    {
        proof {
            vstd::arithmetic::power2::lemma_pow2_unfold((k + 1) as nat);
            vstd::arithmetic::power2::lemma_pow2_strictly_increases(k as nat, 8);
            vstd::arithmetic::power2::lemma2_to64();
        }
        wait = wait * 2;
        k = k + 1;
    }
    (state, if wait < 3600 {
        wait
    } else {
        3600
    })
}

} // verus!
