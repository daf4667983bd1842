//! Offline synchronisation: which page requests are accepted, how a cursor is
//! read back, how far a page reaches, when a device's state is written, and
//! the order in which removals reach a device.
use vstd::prelude::*;
use crate::error::ErrorCode;
use crate::text::{byte_len, lex_lt, str_eq, str_less};

verus! {

/// The largest page a client may ask for.
pub const MAX_PAGE: usize = 200;

/// The most devices one account may synchronise.
pub const MAX_DEVICES: i64 = 32;

/// How long a fresh snapshot stays readable, in seconds.
pub const SNAPSHOT_SECONDS: i64 = 3600;

/// A page request the server accepts: a page of 1 to 200 changes, a device
/// name of 1 to 100 bytes and a cursor of at most 512 bytes.
pub open spec fn request_ok(limit: int, device: Seq<char>, cursor: Option<Seq<char>>) -> bool {
    &&& 1 <= limit <= MAX_PAGE
    &&& device.len() > 0
    &&& byte_len(device) <= 100
    &&& cursor matches Some(c) ==> byte_len(c) <= 512
}

/// Checks the shape of a page request before anything is read.
pub fn check_request(limit: usize, device: &str, cursor: Option<&str>) -> (r: Result<(), ErrorCode>)
    ensures
        r is Ok <==> request_ok(
            limit as int,
            device@,
            match cursor {
                Some(c) => Some(c@),
                None => None,
            },
        ),
        r matches Err(e) ==> e == ErrorCode::InvalidValue,
{
    let cursor_ok = match cursor {
        Some(c) => c.len() <= 512,
        None => true,
    };
    if 1 <= limit && limit <= MAX_PAGE && !device.is_empty() && device.len() <= 100 && cursor_ok {
        Ok(())
    } else {
        Err(ErrorCode::InvalidValue)
    }
}

/// The sum of some bytes.
pub open spec fn byte_sum(b: Seq<u8>) -> int
    decreases b.len(),
{
    if b.len() == 0 {
        0
    } else {
        byte_sum(b.drop_last()) + b.last()
    }
}

/// The pause before retrying a page after a transient conflict, in
/// milliseconds: an exponential back-off of 5 ms doubling up to 50 ms, plus a
/// jitter from 0 to 16 ms drawn from the device name and the attempt.
pub open spec fn retry_pause(device: Seq<u8>, attempt: nat) -> int {
    let backoff = if 5 * vstd::arithmetic::power2::pow2(attempt) < 50 {
        5 * vstd::arithmetic::power2::pow2(attempt)
    } else {
        50
    };
    backoff + (byte_sum(device) + attempt * 7) % 17
}

/// The pause before the next attempt of a page whose attempt number
/// `attempt` hit a transient conflict.
pub fn retry_delay(device: &str, attempt: u64) -> (r: u64)
    requires
        byte_len(device@) <= 100,
        attempt < 16,
    ensures
        r == retry_pause(vstd::utf8::encode_utf8(device@), attempt as nat),
{
    let bytes = device.as_bytes();
    let mut sum: u64 = 0;
    let mut i: usize = 0;
    assert(bytes@.len() == bytes.len());
    assert(bytes@ == vstd::utf8::encode_utf8(device@));
    assert(bytes@.len() <= 100);
    while i < bytes.len()
        invariant
            bytes@.len() <= 100,
            i <= bytes@.len(),
            sum == byte_sum(bytes@.take(i as int)),
            sum <= 255 * i,
        decreases bytes.len() - i,
    {
        assert(bytes@.take(i + 1).drop_last() =~= bytes@.take(i as int));
        sum = sum + bytes[i] as u64;
        i = i + 1;
    }
    assert(bytes@.take(i as int) =~= bytes@);
    let backoff: u64 = if attempt == 0 {
        5
    } else if attempt == 1 {
        10
    } else if attempt == 2 {
        20
    } else if attempt == 3 {
        40
    } else {
        50
    };
    proof {
        vstd::arithmetic::power2::lemma2_to64();
        if attempt > 4 {
            vstd::arithmetic::power2::lemma_pow2_strictly_increases(4, attempt as nat);
        }
    }
    backoff + (sum + attempt * 7) % 17
}

/// How a page request's cursor is read back.
#[derive(Clone, Copy, Debug, PartialEq, Eq, Structural)]
pub enum CursorKind {
    /// A signed delta cursor (`d1.` ...), checked against the device's key.
    Signed,
    /// A snapshot cursor, looked up among the stored cursors.
    Stored,
    /// No cursor: the request starts a new snapshot.
    Fresh,
}

/// The kind of a cursor: signed cursors begin with `d1.`.
pub open spec fn cursor_kind_of(cursor: Option<Seq<char>>) -> CursorKind {
    match cursor {
        None => CursorKind::Fresh,
        Some(c) => if c.len() >= 3 && c.take(3) == "d1."@ {
            CursorKind::Signed
        } else {
            CursorKind::Stored
        },
    }
}

/// Tells how a request's cursor is read back.
pub fn cursor_kind(cursor: Option<&str>) -> (k: CursorKind)
    ensures
        k == cursor_kind_of(
            match cursor {
                Some(c) => Some(c@),
                None => None,
            },
        ),
{
    proof {
        reveal_strlit("d1.");
    }
    match cursor {
        None => CursorKind::Fresh,
        Some(c) => {
            if c.unicode_len() >= 3 && c.get_char(0) == 'd' && c.get_char(1) == '1' && c.get_char(
                2,
            ) == '.' {
                assert(c@.take(3) =~= "d1."@);
                CursorKind::Signed
            } else {
                proof {
                    if c@.len() >= 3 && c@.take(3) == "d1."@ {
                        assert(c@.take(3)[0] == 'd' && c@.take(3)[1] == '1' && c@.take(3)[2] == '.');
                    }
                }
                CursorKind::Stored
            }
        },
    }
}

/// Where a page resumes: the revision boundary of the data it pages
/// through, the snapshot it reads (none for deltas), the position within
/// that snapshot and when the cursor expires.
#[derive(Clone, Debug)]
pub struct Resume {
    pub boundary: i64,
    pub snapshot: Option<String>,
    pub position: i64,
    pub expires: i64,
}

/// A stored snapshot cursor as the server recorded it.
pub struct StoredCursor {
    pub account_id: String,
    pub device_id: String,
    pub epoch: i64,
    pub boundary: i64,
    pub snapshot_id: String,
    pub position: i64,
    pub expires_at: i64,
}

/// Resumes a snapshot cursor: it must belong to this account and device and
/// not have expired (else the client resynchronises), and the account's
/// access must not have changed since it was issued.
pub fn resume_stored(row: StoredCursor, actor: &str, device: &str, epoch: i64, now: i64) -> (r:
    Result<Resume, ErrorCode>)
    ensures
        !(row.account_id@ == actor@ && row.device_id@ == device@ && row.expires_at > now) ==> r
            == Err::<Resume, ErrorCode>(ErrorCode::ResyncRequired),
        row.account_id@ == actor@ && row.device_id@ == device@ && row.expires_at > now
            && row.epoch != epoch ==> r == Err::<Resume, ErrorCode>(ErrorCode::AccessChanged),
        r matches Ok(v) ==> row.account_id@ == actor@ && row.device_id@ == device@
            && row.expires_at > now && row.epoch == epoch && v.boundary == row.boundary
            && v.snapshot == Some(row.snapshot_id) && v.position == row.position && v.expires
            == row.expires_at,
        row.account_id@ == actor@ && row.device_id@ == device@ && row.expires_at > now
            && row.epoch == epoch ==> r is Ok,
{
    if !(str_eq(row.account_id.as_str(), actor) && str_eq(row.device_id.as_str(), device)
        && row.expires_at > now) {
        return Err(ErrorCode::ResyncRequired);
    }
    if row.epoch != epoch {
        return Err(ErrorCode::AccessChanged);
    }
    Ok(Resume {
        boundary: row.boundary,
        snapshot: Some(row.snapshot_id),
        position: row.position,
        expires: row.expires_at,
    })
}

/// Resumes a signed delta cursor with the device's key: the signature and
/// positions must check out and the cursor must not have expired.
pub fn resume_signed(key: &str, actor: &str, device: &str, token: &str, now: i64) -> (r: Result<
    Resume,
    ErrorCode,
>)
    ensures
        match crate::sync_cursor::verified_cursor(
            key@,
            byte_len(key@),
            actor@,
            device@,
            byte_len(device@),
            token@,
        ) {
            Err(e) => r == Err::<Resume, ErrorCode>(e),
            Ok((boundary, expiry)) => if expiry > now {
                r matches Ok(v) && v.boundary == boundary && v.snapshot is None && v.position == 0
                    && v.expires == expiry
            } else {
                r == Err::<Resume, ErrorCode>(ErrorCode::ResyncRequired)
            },
        },
{
    match crate::sync_cursor::verify(key, actor, device, token) {
        Err(e) => Err(e),
        Ok((boundary, expiry)) => {
            if expiry > now {
                Ok(Resume { boundary, snapshot: None, position: 0, expires: expiry })
            } else {
                Err(ErrorCode::ResyncRequired)
            }
        },
    }
}

/// When a new snapshot taken at `now` expires.
pub fn snapshot_expiry(now: i64) -> (r: Result<i64, ErrorCode>)
    ensures
        now + SNAPSHOT_SECONDS <= i64::MAX ==> r == Ok::<i64, ErrorCode>(
            (now + SNAPSHOT_SECONDS) as i64,
        ),
        now + SNAPSHOT_SECONDS > i64::MAX ==> r == Err::<i64, ErrorCode>(ErrorCode::InvalidValue),
{
    match now.checked_add(SNAPSHOT_SECONDS) {
        Some(v) => Ok(v),
        None => Err(ErrorCode::InvalidValue),
    }
}

/// A page may only read between the account's recovery floor and the
/// current revision; outside that the client resynchronises.
pub fn check_boundary(boundary: i64, floor: i64, clock: i64) -> (r: Result<(), ErrorCode>)
    ensures
        r is Ok <==> floor <= boundary <= clock,
        r matches Err(e) ==> e == ErrorCode::ResyncRequired,
{
    if boundary >= floor && boundary <= clock {
        Ok(())
    } else {
        Err(ErrorCode::ResyncRequired)
    }
}

/// One page of a snapshot: pages ask for one row more than the limit to
/// learn whether more follow.
pub struct SnapshotStep {
    /// How many of the fetched rows the page carries.
    pub taken: usize,
    /// Whether rows remain after this page.
    pub more: bool,
    /// Where the next page starts; 0 once the snapshot is done.
    pub next_position: i64,
}

/// How far a snapshot page reaches, given how many rows were fetched after
/// `position` with a fetch of `limit + 1`.
pub fn snapshot_step(fetched: usize, limit: usize, position: i64) -> (r: SnapshotStep)
    requires
        fetched <= limit + 1,
        0 <= position,
        position + limit <= i64::MAX,
    ensures
        r.more == (fetched > limit),
        r.taken == (if fetched > limit { limit } else { fetched }),
        r.next_position == (if r.more { position + r.taken } else { 0 }),
{
    let more = fetched > limit;
    let taken = if more { limit } else { fetched };
    let next_position = if more { position + taken as i64 } else { 0 };
    SnapshotStep { taken, more, next_position }
}

/// A new device may join while the account has fewer than 32.
pub fn device_capacity(count: i64) -> (r: Result<(), ErrorCode>)
    ensures
        r is Ok <==> count < MAX_DEVICES,
        r matches Err(e) ==> e == ErrorCode::DeviceCapacity,
{
    if count < MAX_DEVICES {
        Ok(())
    } else {
        Err(ErrorCode::DeviceCapacity)
    }
}

/// How often a known device's last-seen time is written: a tenth of the
/// retention period, at most daily.
pub open spec fn touch_interval(retention: int) -> int {
    if retention / 10 < 86400 {
        retention / 10
    } else {
        86400
    }
}

/// Whether a device last seen at `last` is marked seen again at `now`.
pub fn touch_due(last: i64, now: i64, retention: i64) -> (r: bool)
    requires
        0 <= retention,
    ensures
        r == (saturating(now - last) >= touch_interval(retention as int)),
{
    let interval: i64 = if retention / 10 < 86400 { retention / 10 } else { 86400 };
    saturating_diff(now, last) >= interval
}

/// An `i64` difference clamped to the range of `i64`.
pub open spec fn saturating(v: int) -> int {
    if v > i64::MAX {
        i64::MAX as int
    } else if v < i64::MIN {
        i64::MIN as int
    } else {
        v
    }
}

/// `a - b`, clamped to the range of `i64`.
pub fn saturating_diff(a: i64, b: i64) -> (r: i64)
    ensures
        r == saturating(a - b),
{
    let d: i128 = a as i128 - b as i128;
    if d > i64::MAX as i128 {
        i64::MAX
    } else if d < i64::MIN as i128 {
        i64::MIN
    } else {
        d as i64
    }
}

/// Whether a delta page that brought nothing answers with the client's own
/// cursor: only while that cursor has more than a ninth of the retention
/// period, at most ten days, left to live.
pub open spec fn reuses_cursor(delta: bool, empty: bool, expires: int, now: int, retention: int) -> bool {
    delta && empty && saturating(expires - now) > (if retention / 9 < 864000 {
        retention / 9
    } else {
        864000
    })
}

/// Decides whether a page answers with the client's own cursor.
pub fn reuse_cursor(delta: bool, empty: bool, expires: i64, now: i64, retention: i64) -> (r: bool)
    requires
        0 <= retention,
    ensures
        r == reuses_cursor(delta, empty, expires as int, now as int, retention as int),
{
    let keep: i64 = if retention / 9 < 864000 { retention / 9 } else { 864000 };
    delta && empty && saturating_diff(expires, now) > keep
}

/// When a signed delta cursor issued at `now` expires: after the retention
/// period.
pub fn signed_expiry(now: i64, retention: i64) -> (r: Result<i64, ErrorCode>)
    ensures
        now + retention <= i64::MAX && now + retention >= i64::MIN ==> r == Ok::<i64, ErrorCode>(
            (now + retention) as i64,
        ),
        !(now + retention <= i64::MAX && now + retention >= i64::MIN) ==> r == Err::<
            i64,
            ErrorCode,
        >(ErrorCode::InvalidValue),
{
    match now.checked_add(retention) {
        Some(v) => Ok(v),
        None => Err(ErrorCode::InvalidValue),
    }
}

/// The position of a resource kind in the order changes are sent, parents
/// before their children; an unknown kind ranks first.
pub open spec fn kind_rank_of(kind: Seq<char>) -> nat {
    if kind == "calendar_source"@ {
        0
    } else if kind == "event"@ {
        1
    } else if kind == "person"@ {
        2
    } else if kind == "task"@ {
        3
    } else if kind == "list"@ {
        4
    } else if kind == "field"@ {
        5
    } else if kind == "execution"@ {
        6
    } else if kind == "occurrence"@ {
        7
    } else if kind == "progress"@ {
        8
    } else if kind == "review"@ {
        9
    } else if kind == "reminder"@ {
        10
    } else {
        0
    }
}

/// The rank of a resource kind in the order changes are sent.
pub fn kind_rank(kind: &str) -> (r: usize)
    ensures
        r == kind_rank_of(kind@),
{
    if str_eq(kind, "calendar_source") {
        0
    } else if str_eq(kind, "event") {
        1
    } else if str_eq(kind, "person") {
        2
    } else if str_eq(kind, "task") {
        3
    } else if str_eq(kind, "list") {
        4
    } else if str_eq(kind, "field") {
        5
    } else if str_eq(kind, "execution") {
        6
    } else if str_eq(kind, "occurrence") {
        7
    } else if str_eq(kind, "progress") {
        8
    } else if str_eq(kind, "review") {
        9
    } else if str_eq(kind, "reminder") {
        10
    } else {
        0
    }
}

/// Changes reach a device in kind order and then by identifier: upserts
/// parents first (ascending rank), removals children first (descending
/// rank). `change_le(a, b, descending)` holds when `a` may come before `b`.
pub open spec fn change_le(a: (usize, Seq<char>), b: (usize, Seq<char>), descending: bool) -> bool {
    (if descending {
        a.0 > b.0
    } else {
        a.0 < b.0
    }) || (a.0 == b.0 && !lex_lt(b.1, a.1))
}

/// A change by its rank and identifier text.
pub open spec fn change_key(r: (usize, String)) -> (usize, Seq<char>) {
    (r.0, r.1@)
}

/// Changes in the order a device receives them.
pub open spec fn changes_ordered(s: Seq<(usize, String)>, descending: bool) -> bool {
    forall|i: int, j: int|
        0 <= i < j < s.len() ==> change_le(change_key(#[trigger] s[i]), change_key(#[trigger] s[j]), descending)
}

proof fn lemma_change_total(a: (usize, Seq<char>), b: (usize, Seq<char>), descending: bool)
    ensures
        change_le(a, b, descending) || change_le(b, a, descending),
{
    crate::text::lemma_lex_trichotomy(a.1, b.1);
}

proof fn lemma_change_transitive(a: (usize, Seq<char>), b: (usize, Seq<char>), c: (usize, Seq<char>), descending: bool)
    requires
        change_le(a, b, descending),
        change_le(b, c, descending),
    ensures
        change_le(a, c, descending),
{
    if a.0 == b.0 && b.0 == c.0 {
        crate::text::lemma_lex_trichotomy(a.1, b.1);
        crate::text::lemma_lex_trichotomy(b.1, c.1);
        crate::text::lemma_lex_trichotomy(a.1, c.1);
        if lex_lt(c.1, a.1) {
            if a.1 =~= b.1 {
                assert(lex_lt(c.1, b.1));
            } else if b.1 =~= c.1 {
                assert(lex_lt(b.1, a.1));
            } else {
                crate::text::lemma_lex_transitive(a.1, b.1, c.1);
            }
        }
    }
}

proof fn lemma_empty_multiset<A>(s: Seq<A>)
    requires
        s.len() == 0,
    ensures
        s.to_multiset() =~= vstd::multiset::Multiset::empty(),
{
    assert forall|a: A| s.to_multiset().count(a) == 0 by {
        vstd::seq_lib::to_multiset_contains(s, a);
    }
}

/// Whether change `a` may come before change `b`.
fn change_before(a: &(usize, String), b: &(usize, String), descending: bool) -> (r: bool)
    ensures
        r == change_le(change_key(*a), change_key(*b), descending),
{
    (if descending {
        a.0 > b.0
    } else {
        a.0 < b.0
    }) || (a.0 == b.0 && !str_less(b.1.as_str(), a.1.as_str()))
}

/// Puts changes, each with the rank of its kind, in the order a device
/// receives them: the same changes, by rank (descending for removals,
/// ascending for upserts), then by identifier.
pub fn order_changes(removed: Vec<(usize, String)>, descending: bool) -> (out: Vec<(usize, String)>)
    ensures
        out@.to_multiset() == removed@.to_multiset(),
        changes_ordered(out@, descending),
{
    let ghost all = removed@.to_multiset();
    let mut rest = removed;
    let mut out: Vec<(usize, String)> = Vec::new();
    proof {
        lemma_empty_multiset(out@);
    }
    assert(out@.to_multiset().add(rest@.to_multiset()) =~= all);
    while rest.len() > 0
        invariant
            out@.to_multiset().add(rest@.to_multiset()) == all,
            changes_ordered(out@, descending),
            forall|i: int, j: int|
                0 <= i < out@.len() && 0 <= j < rest@.len() ==> change_le(
                    change_key(#[trigger] out@[i]),
                    change_key(#[trigger] rest@[j]), descending),
        decreases rest.len(),
    {
        let mut m: usize = 0;
        let mut k: usize = 1;
        proof {
            lemma_change_total(change_key(rest@[0]), change_key(rest@[0]), descending);
        }
        while k < rest.len()
            invariant
                0 < rest@.len(),
                m < k <= rest@.len(),
                forall|j: int| 0 <= j < k ==> change_le(change_key(rest@[m as int]), change_key(#[trigger] rest@[j]), descending),
            decreases rest.len() - k,
        {
            if !change_before(&rest[m], &rest[k], descending) {
                proof {
                    lemma_change_total(change_key(rest@[m as int]), change_key(rest@[k as int]), descending);
                    assert forall|j: int| 0 <= j < k + 1 implies change_le(
                        change_key(rest@[k as int]),
                        change_key(#[trigger] rest@[j]), descending) by {
                        if j < k {
                            lemma_change_transitive(
                                change_key(rest@[k as int]),
                                change_key(rest@[m as int]),
                                change_key(rest@[j]), descending);
                        } else {
                            lemma_change_total(change_key(rest@[k as int]), change_key(rest@[k as int]), descending);
                        }
                    }
                }
                m = k;
            } else {
                proof {
                    assert forall|j: int| 0 <= j < k + 1 implies change_le(
                        change_key(rest@[m as int]),
                        change_key(#[trigger] rest@[j]), descending) by {
                        if j == k {
                        }
                    }
                }
            }
            k = k + 1;
        }
        let ghost before_rest = rest@;
        let ghost before_out = out@;
        let x = rest.remove(m);
        proof {
            vstd::seq_lib::to_multiset_remove(before_rest, m as int);
            assert(before_rest.contains(x)) by {
                assert(before_rest[m as int] == x);
            }
            vstd::seq_lib::to_multiset_contains(before_rest, x);
        }
        out.push(x);
        proof {
            assert(out@ == before_out.push(x));
            vstd::seq_lib::to_multiset_build(before_out, x);
            assert(out@.to_multiset().add(rest@.to_multiset()) =~= all);
            assert forall|i: int, j: int| 0 <= i < j < out@.len() implies change_le(
                change_key(#[trigger] out@[i]),
                change_key(#[trigger] out@[j]), descending) by {
                if j == out@.len() - 1 {
                    assert(out@[j] == before_rest[m as int]);
                    assert(out@[i] == before_out[i]);
                } else {
                    assert(out@[i] == before_out[i]);
                    assert(out@[j] == before_out[j]);
                }
            }
            assert forall|i: int, j: int|
                0 <= i < out@.len() && 0 <= j < rest@.len() implies change_le(
                change_key(#[trigger] out@[i]),
                change_key(#[trigger] rest@[j]), descending) by {
                let jj = if j < m { j } else { j + 1 };
                assert(rest@[j] == before_rest[jj]);
                if i == out@.len() - 1 {
                    assert(out@[i] == before_rest[m as int]);
                } else {
                    assert(out@[i] == before_out[i]);
                }
            }
        }
    }
    proof {
        lemma_empty_multiset(rest@);
    }
    assert(out@.to_multiset() =~= all);
    out
}

/// A resource kind changes are sent for.
pub open spec fn known_kind(kind: Seq<char>) -> bool {
    kind == "calendar_source"@ || kind == "event"@ || kind == "person"@ || kind == "task"@ || kind
        == "list"@ || kind == "field"@ || kind == "execution"@ || kind == "occurrence"@ || kind
        == "progress"@ || kind == "review"@ || kind == "reminder"@
}

/// Whether changes are sent for a resource kind.
pub fn is_known_kind(kind: &str) -> (r: bool)
    ensures
        r == known_kind(kind@),
{
    str_eq(kind, "calendar_source") || str_eq(kind, "event") || str_eq(kind, "person") || str_eq(
        kind,
        "task",
    ) || str_eq(kind, "list") || str_eq(kind, "field") || str_eq(kind, "execution") || str_eq(
        kind,
        "occurrence",
    ) || str_eq(kind, "progress") || str_eq(kind, "review") || str_eq(kind, "reminder")
}

/// How one touched resource looks to one account before and after a
/// change: its kind, whether the account could see it (and then edit it)
/// before and after, and whether its projection changed.
pub struct Diff {
    pub id: String,
    pub kind: String,
    pub before: Option<bool>,
    pub after: Option<bool>,
    pub changed: bool,
}

/// A visible resource that is new to the account or changed is sent again.
pub open spec fn upserted(d: Diff) -> bool {
    known_kind(d.kind@) && d.after is Some && (d.before is None || d.changed)
}

/// A resource the account no longer sees is removed.
pub open spec fn removed(d: Diff) -> bool {
    known_kind(d.kind@) && d.before is Some && d.after is None
}

/// The upserts of some diffs, each with the rank of its kind, in order.
pub open spec fn upsert_entries(ds: Seq<Diff>) -> Seq<(usize, String)>
    decreases ds.len(),
{
    if ds.len() == 0 {
        Seq::empty()
    } else if upserted(ds.last()) {
        upsert_entries(ds.drop_last()).push((kind_rank_of(ds.last().kind@) as usize, ds.last().id))
    } else {
        upsert_entries(ds.drop_last())
    }
}

/// The removals of some diffs, each with the rank of its kind, in order.
pub open spec fn removal_entries(ds: Seq<Diff>) -> Seq<(usize, String)>
    decreases ds.len(),
{
    if ds.len() == 0 {
        Seq::empty()
    } else if removed(ds.last()) {
        removal_entries(ds.drop_last()).push((kind_rank_of(ds.last().kind@) as usize, ds.last().id))
    } else {
        removal_entries(ds.drop_last())
    }
}

/// Some resource the account saw is lost to it or changes whether it may
/// edit it.
pub open spec fn access_lost(ds: Seq<Diff>) -> bool {
    exists|i: int| 0 <= i < ds.len() && (#[trigger] ds[i]).before is Some && ds[i].after != ds[i].before
}

/// The most changes one batch carries.
pub const MAX_BATCH_CHANGES: usize = 200;

/// What publishing a change means for one account.
pub enum Publication {
    /// Too much changed for a batch: the account recovers from a new
    /// snapshot (its access epoch moves, and history before now is cut off).
    Resync,
    /// A batch of upserts, parents first, then removals, children first
    /// (both empty when nothing changed for the account), and whether the
    /// account's access epoch moves.
    Batch { upserts: Vec<(usize, String)>, removals: Vec<(usize, String)>, bump_epoch: bool },
}

/// Decides what publishing a change means for one account, from the diffs
/// of the touched resources; `access_changed` tells whether the change
/// altered grants. A batch larger than 200 changes is only allowed for an
/// access change (else `BatchTooLarge`), and then the account resynchronises.
pub fn publication(diffs: Vec<Diff>, access_changed: bool) -> (r: Result<Publication, ErrorCode>)
    ensures
        ({
            let n = upsert_entries(diffs@).len() + removal_entries(diffs@).len();
            &&& (n > MAX_BATCH_CHANGES && access_changed ==> r matches Ok(Publication::Resync))
            &&& (n > MAX_BATCH_CHANGES && !access_changed ==> r == Err::<Publication, ErrorCode>(
                ErrorCode::BatchTooLarge,
            ))
            &&& (n <= MAX_BATCH_CHANGES ==> (r matches Ok(
                Publication::Batch { upserts, removals, bump_epoch },
            ) && upserts@.to_multiset() == upsert_entries(diffs@).to_multiset() && changes_ordered(
                upserts@,
                false,
            ) && removals@.to_multiset() == removal_entries(diffs@).to_multiset() && changes_ordered(
                removals@,
                true,
            ) && bump_epoch == (n > 0 && access_changed && access_lost(diffs@))))
        }),
{
    let ghost ds = diffs@;
    let mut ups: Vec<(usize, String)> = Vec::new();
    let mut rems: Vec<(usize, String)> = Vec::new();
    let mut lost = false;
    let mut i: usize = 0;
    let n = diffs.len();
    let mut rest = diffs;
    assert(rest@ =~= ds.skip(0));
    while rest.len() > 0
        invariant
            n == ds.len(),
            i + rest@.len() == n,
            rest@ =~= ds.skip(i as int),
            ups@ == upsert_entries(ds.take(i as int)),
            rems@ == removal_entries(ds.take(i as int)),
            ups@.len() + rems@.len() <= i,
            lost == exists|k: int| 0 <= k < i && (#[trigger] ds[k]).before is Some && ds[k].after
                != ds[k].before,
        decreases rest.len(),
    {
        let d = rest.remove(0);
        assert(d == ds[i as int]);
        assert(ds.take(i + 1).drop_last() =~= ds.take(i as int));
        assert(ds.take(i + 1).last() == ds[i as int]);
        let known = is_known_kind(d.kind.as_str());
        let same_access = match (d.before, d.after) {
            (Some(a), Some(b)) => a == b,
            (None, None) => true,
            _ => false,
        };
        if d.before.is_some() && !same_access {
            lost = true;
        }
        let rank = kind_rank(d.kind.as_str());
        if known && d.after.is_some() && (d.before.is_none() || d.changed) {
            ups.push((rank, d.id));
        } else if known && d.before.is_some() && d.after.is_none() {
            rems.push((rank, d.id));
        }
        i = i + 1;
    }
    assert(ds.take(n as int) =~= ds);
    if ups.len() + rems.len() > MAX_BATCH_CHANGES {
        if access_changed {
            return Ok(Publication::Resync);
        } else {
            return Err(ErrorCode::BatchTooLarge);
        }
    }
    let any = ups.len() + rems.len() > 0;
    let upserts = order_changes(ups, false);
    let removals = order_changes(rems, true);
    Ok(Publication::Batch { upserts, removals, bump_epoch: any && access_changed && lost })
}

/// Identity upserts precede their fields: in a batch of upserts in order,
/// every person comes before every field.
pub proof fn law_identities_before_fields(s: Seq<(usize, String)>)
    requires
        changes_ordered(s, false),
    ensures
        forall|i: int, j: int|
            0 <= i < s.len() && 0 <= j < s.len() && (#[trigger] s[i]).0 == kind_rank_of("person"@)
                && (#[trigger] s[j]).0 == kind_rank_of("field"@) ==> i < j,
{
    reveal_strlit("person");
    reveal_strlit("field");
    reveal_strlit("calendar_source");
    reveal_strlit("event");
    reveal_strlit("task");
    reveal_strlit("list");
    assert("calendar_source"@.len() == 15 && "event"@.len() == 5 && "person"@.len() == 6
        && "task"@.len() == 4 && "list"@.len() == 4 && "field"@.len() == 5);
    assert("field"@[0] == 'f' && "event"@[0] == 'e');
    assert(kind_rank_of("person"@) == 2);
    assert(kind_rank_of("field"@) == 5);
    assert forall|i: int, j: int|
        0 <= i < s.len() && 0 <= j < s.len() && (#[trigger] s[i]).0 == kind_rank_of("person"@) && (
        #[trigger] s[j]).0 == kind_rank_of("field"@) implies i < j by {
        if j < i {
            assert(change_le(change_key(s[j]), change_key(s[i]), false));
        }
    }
}

/// Database error codes that mean a transient serialisation conflict:
/// SQLite's busy and busy-snapshot codes, PostgreSQL's serialisation
/// failure and deadlock.
pub open spec fn retryable_code_of(code: Seq<char>) -> bool {
    code == "5"@ || code == "517"@ || code == "40001"@ || code == "40P01"@
}

/// Whether a database error code means the page may simply be retried.
pub fn retryable_code(code: &str) -> (r: bool)
    ensures
        r == retryable_code_of(code@),
{
    str_eq(code, "5") || str_eq(code, "517") || str_eq(code, "40001") || str_eq(code, "40P01")
}


/// A batch row as plain values: its account and revision.
pub open spec fn row_view(r: (String, i64)) -> (Seq<char>, i64) {
    (r.0@, r.1)
}

/// Batch rows as plain values.
pub open spec fn rows_of(rows: Seq<(String, i64)>) -> Seq<(Seq<char>, i64)> {
    rows.map_values(|r: (String, i64)| row_view(r))
}

/// Whether account `a` has an entry among `out`.
pub open spec fn accounts_listed(out: Seq<(String, i64)>, a: Seq<char>) -> bool {
    exists|k: int| 0 <= k < out.len() && (#[trigger] out[k]).0@ == a
}

/// `f` is the floor of account `a` among `rows`: the highest revision of
/// its rows.
pub open spec fn is_floor(rows: Seq<(Seq<char>, i64)>, a: Seq<char>, f: i64) -> bool {
    &&& rows.contains((a, f))
    &&& forall|k: int| 0 <= k < rows.len() && (#[trigger] rows[k]).0 == a ==> rows[k].1 <= f
}

/// Whether account `a` has a row among `rows`.
pub open spec fn has_rows(rows: Seq<(Seq<char>, i64)>, a: Seq<char>) -> bool {
    exists|k: int| 0 <= k < rows.len() && (#[trigger] rows[k]).0 == a
}

/// The position of account `a` among `out`, if it is there.
fn position_of(out: &Vec<(String, i64)>, a: &str) -> (r: Option<usize>)
    ensures
        r matches Some(k) ==> k < out@.len() && out@[k as int].0@ == a@,
        r is None ==> forall|k: int| 0 <= k < out@.len() ==> (#[trigger] out@[k]).0@ != a@,
{
    let mut k: usize = 0;
    while k < out.len()
        invariant
            k <= out@.len(),
            forall|q: int| 0 <= q < k ==> (#[trigger] out@[q]).0@ != a@,
        decreases out.len() - k,
    {
        if str_eq(out[k].0.as_str(), a) {
            return Some(k);
        }
        k = k + 1;
    }
    None
}

/// The sync floor each account reaches when some of its batches are
/// discarded: one entry per account with rows, holding the highest revision
/// among them.
pub fn batch_floors(rows: &Vec<(String, i64)>) -> (out: Vec<(String, i64)>)
    ensures
        forall|x: int, y: int|
            0 <= x < y < out@.len() ==> (#[trigger] out@[x]).0@ != (#[trigger] out@[y]).0@,
        forall|a: Seq<char>|
            #[trigger] has_rows(rows_of(rows@), a) <==> accounts_listed(out@, a),
        forall|k: int|
            0 <= k < out@.len() ==> is_floor(
                rows_of(rows@),
                (#[trigger] out@[k]).0@,
                out@[k].1,
            ),
{
    let ghost all = rows_of(rows@);
    let mut out: Vec<(String, i64)> = Vec::new();
    let mut i: usize = 0;
    while i < rows.len()
        invariant
            all == rows_of(rows@),
            i <= rows@.len(),
            forall|x: int, y: int|
                0 <= x < y < out@.len() ==> (#[trigger] out@[x]).0@ != (#[trigger] out@[y]).0@,
            forall|a: Seq<char>|
                #[trigger] has_rows(all.take(i as int), a) <==> accounts_listed(out@, a),
            forall|k: int|
                0 <= k < out@.len() ==> is_floor(
                    all.take(i as int),
                    (#[trigger] out@[k]).0@,
                    out@[k].1,
                ),
        decreases rows.len() - i,
    {
        let ghost seen = all.take(i as int);
        let ghost next = all.take(i + 1);
        let ghost old_out = out@;
        assert(next =~= seen.push(all[i as int]));
        let account = &rows[i].0;
        let revision = rows[i].1;
        assert(all[i as int] == (account@, revision));
        match position_of(&out, account.as_str()) {
            Some(k) => {
                if out[k].1 < revision {
                    let name = out[k].0.clone();
                    out.set(k, (name, revision));
                }
                proof {
                    assert forall|q: int| 0 <= q < out@.len() implies is_floor(
                        next,
                        (#[trigger] out@[q]).0@,
                        out@[q].1,
                    ) by {
                        assert(is_floor(seen, old_out[q].0@, old_out[q].1));
                        if q == k && out@[q].1 == revision {
                            assert(next[i as int] == (account@, revision));
                        } else {
                            let w = choose|w: int| 0 <= w < seen.len() && seen[w] == (old_out[q].0@, old_out[q].1);
                            assert(next[w] == seen[w]);
                        }
                        assert forall|m: int| 0 <= m < next.len() && (#[trigger] next[m]).0 == out@[q].0@ implies next[m].1 <= out@[q].1 by {
                            if m < i {
                                assert(next[m] == seen[m]);
                            }
                        }
                    }
                    assert forall|a: Seq<char>| #[trigger] has_rows(next, a) <==> accounts_listed(out@, a) by {
                        if has_rows(next, a) {
                            let m = choose|m: int| 0 <= m < next.len() && (#[trigger] next[m]).0 == a;
                            if m < i {
                                assert(seen[m] == next[m]);
                                assert(has_rows(seen, a));
                                let q = choose|q: int| 0 <= q < old_out.len() && (#[trigger] old_out[q]).0@ == a;
                                assert(out@[q].0@ == a);
                            } else {
                                assert(out@[k as int].0@ == a);
                            }
                        }
                        if accounts_listed(out@, a) {
                            let q = choose|q: int| 0 <= q < out@.len() && (#[trigger] out@[q]).0@ == a;
                            assert(old_out[q].0@ == a);
                            assert(has_rows(seen, a));
                            let m = choose|m: int| 0 <= m < seen.len() && (#[trigger] seen[m]).0 == a;
                            assert(next[m] == seen[m]);
                        }
                    }
                }
            },
            None => {
                out.push((account.clone(), revision));
                proof {
                    assert forall|q: int| 0 <= q < out@.len() implies is_floor(
                        next,
                        (#[trigger] out@[q]).0@,
                        out@[q].1,
                    ) by {
                        if q == old_out.len() {
                            assert(next[i as int] == (account@, revision));
                            assert forall|m: int| 0 <= m < next.len() && (#[trigger] next[m]).0 == account@ implies next[m].1 <= revision by {
                                if m < i {
                                    assert(next[m] == seen[m]);
                                    assert(has_rows(seen, account@));
                                    let w = choose|w: int| 0 <= w < old_out.len() && (#[trigger] old_out[w]).0@ == account@;
                                    assert(false);
                                }
                            }
                        } else {
                            assert(out@[q] == old_out[q]);
                            assert(is_floor(seen, old_out[q].0@, old_out[q].1));
                            let w = choose|w: int| 0 <= w < seen.len() && seen[w] == (old_out[q].0@, old_out[q].1);
                            assert(next[w] == seen[w]);
                            assert forall|m: int| 0 <= m < next.len() && (#[trigger] next[m]).0 == out@[q].0@ implies next[m].1 <= out@[q].1 by {
                                if m < i {
                                    assert(next[m] == seen[m]);
                                } else {
                                    assert(old_out[q].0@ != account@);
                                }
                            }
                        }
                    }
                    assert forall|a: Seq<char>| #[trigger] has_rows(next, a) <==> accounts_listed(out@, a) by {
                        if has_rows(next, a) {
                            let m = choose|m: int| 0 <= m < next.len() && (#[trigger] next[m]).0 == a;
                            if m < i {
                                assert(seen[m] == next[m]);
                                assert(has_rows(seen, a));
                                let q = choose|q: int| 0 <= q < old_out.len() && (#[trigger] old_out[q]).0@ == a;
                                assert(out@[q].0@ == a);
                            } else {
                                assert(out@[old_out.len() as int].0@ == a);
                            }
                        }
                        if accounts_listed(out@, a) {
                            let q = choose|q: int| 0 <= q < out@.len() && (#[trigger] out@[q]).0@ == a;
                            if q < old_out.len() {
                                assert(old_out[q].0@ == a);
                                assert(has_rows(seen, a));
                                let m = choose|m: int| 0 <= m < seen.len() && (#[trigger] seen[m]).0 == a;
                                assert(next[m] == seen[m]);
                            } else {
                                assert(next[i as int].0 == a);
                            }
                        }
                    }
                }
            },
        }
        i = i + 1;
    }
    assert(all.take(i as int) =~= all);
    out
}


/// What the caller read for a page request's cursor: for a signed cursor
/// the device's key, if the device is known; for a snapshot cursor the
/// stored cursor, if any; for a fresh request the identity of the snapshot
/// it will take.
pub enum CursorRead {
    Signed(Option<String>),
    Stored(Option<StoredCursor>),
    Fresh(String),
}

/// A resume point as plain values: boundary, snapshot, position, expiry.
pub open spec fn resume_view(v: Resume) -> (i64, Option<Seq<char>>, i64, i64) {
    (
        v.boundary,
        match v.snapshot {
            Some(s) => Some(s@),
            None => None,
        },
        v.position,
        v.expires,
    )
}

/// Where a page resumes, or why it cannot. A signed cursor needs a known
/// device whose key verifies it, unexpired; a snapshot cursor must be
/// stored for this account and device, unexpired, under the account's
/// current access; a fresh request takes a snapshot at the current revision
/// `clock` that expires an hour from `now`. The boundary must then lie
/// between the account's recovery floor and `clock`, else the client
/// resynchronises.
pub open spec fn sync_start_of(
    read: CursorRead,
    actor: Seq<char>,
    device: Seq<char>,
    token: Seq<char>,
    epoch: i64,
    clock: i64,
    floor: i64,
    now: i64,
) -> Result<(i64, Option<Seq<char>>, i64, i64), ErrorCode> {
    let resumed = match read {
        CursorRead::Signed(None) => Err(ErrorCode::ResyncRequired),
        CursorRead::Signed(Some(key)) => match crate::sync_cursor::verified_cursor(
            key@,
            byte_len(key@),
            actor,
            device,
            byte_len(device),
            token,
        ) {
            Err(e) => Err(e),
            Ok((boundary, expiry)) => if expiry > now {
                Ok((boundary, None, 0i64, expiry))
            } else {
                Err(ErrorCode::ResyncRequired)
            },
        },
        CursorRead::Stored(None) => Err(ErrorCode::ResyncRequired),
        CursorRead::Stored(Some(row)) => if !(row.account_id@ == actor && row.device_id@ == device && row.expires_at
            > now) {
            Err(ErrorCode::ResyncRequired)
        } else if row.epoch != epoch {
            Err(ErrorCode::AccessChanged)
        } else {
            Ok((row.boundary, Some(row.snapshot_id@), row.position, row.expires_at))
        },
        CursorRead::Fresh(id) => if now + SNAPSHOT_SECONDS > i64::MAX {
            Err(ErrorCode::InvalidValue)
        } else {
            Ok((clock, Some(id@), 0i64, (now + SNAPSHOT_SECONDS) as i64))
        },
    };
    match resumed {
        Err(e) => Err(e),
        Ok(v) => if floor <= v.0 <= clock {
            Ok(v)
        } else {
            Err(ErrorCode::ResyncRequired)
        },
    }
}

/// Decides where a page request resumes (see `sync_start_of`), from what
/// the caller read for its cursor, as `cursor_kind` tells.
pub fn sync_start(
    cursor: Option<&str>,
    read: CursorRead,
    actor: &str,
    device: &str,
    epoch: i64,
    clock: i64,
    floor: i64,
    now: i64,
) -> (r: Result<Resume, ErrorCode>)
    ensures
        match r {
            Ok(v) => sync_start_of(
                read,
                actor@,
                device@,
                match cursor {
                    Some(c) => c@,
                    None => Seq::empty(),
                },
                epoch,
                clock,
                floor,
                now,
            ) == Ok::<(i64, Option<Seq<char>>, i64, i64), ErrorCode>(resume_view(v)),
            Err(e) => sync_start_of(
                read,
                actor@,
                device@,
                match cursor {
                    Some(c) => c@,
                    None => Seq::empty(),
                },
                epoch,
                clock,
                floor,
                now,
            ) == Err::<(i64, Option<Seq<char>>, i64, i64), ErrorCode>(e),
        },
{
    let resumed = match read {
        CursorRead::Signed(None) => Err(ErrorCode::ResyncRequired),
        CursorRead::Signed(Some(key)) => {
            proof {
                reveal_strlit("");
            }
            let token = match cursor {
                Some(c) => c,
                None => "",
            };
            resume_signed(key.as_str(), actor, device, token, now)
        },
        CursorRead::Stored(None) => Err(ErrorCode::ResyncRequired),
        CursorRead::Stored(Some(row)) => resume_stored(row, actor, device, epoch, now),
        CursorRead::Fresh(id) => match snapshot_expiry(now) {
            Ok(expires) => Ok(Resume { boundary: clock, snapshot: Some(id), position: 0, expires }),
            Err(e) => Err(e),
        },
    };
    match resumed {
        Err(e) => Err(e),
        Ok(v) => match check_boundary(v.boundary, floor, clock) {
            Ok(()) => Ok(v),
            Err(e) => Err(e),
        },
    }
}


/// What a page writes of the device that asked for it.
#[derive(Clone, Copy, Debug, PartialEq, Eq, Structural)]
pub enum DeviceWrite {
    /// A new device: record it, with a fresh cursor key.
    Register,
    /// A known device, not marked seen for a while: mark it seen now.
    Touch,
    /// A known device marked seen recently: write nothing.
    Nothing,
}

/// The cursor a page answers with.
#[derive(Clone, Copy, Debug, PartialEq, Eq, Structural)]
pub enum CursorPlan {
    /// The client's own cursor.
    Reuse,
    /// A new stored cursor into the snapshot being paged through.
    Store,
    /// A new signed delta cursor, expiring at the time given.
    Sign(i64),
}

/// How a page ends, given whether the device was seen before (`last_seen`),
/// how many devices the account has, whether the page was a delta page that
/// brought no batch, whether a snapshot continues, and when the cursor it
/// came with expires. A new device joins only while the account has fewer
/// than 32; a known one is marked seen once per touch interval. The page
/// then reuses the client's cursor (see `reuses_cursor`), stores a snapshot
/// cursor while the snapshot goes on, or signs a delta cursor that lives
/// for the retention period.
pub open spec fn sync_finish_of(
    last_seen: Option<i64>,
    devices: i64,
    now: i64,
    retention: i64,
    delta: bool,
    empty: bool,
    more_snapshot: bool,
    expires: i64,
) -> Result<(DeviceWrite, CursorPlan), ErrorCode> {
    let device = match last_seen {
        None => if devices < MAX_DEVICES {
            Ok(DeviceWrite::Register)
        } else {
            Err(ErrorCode::DeviceCapacity)
        },
        Some(last) => Ok(
            if saturating(now - last) >= touch_interval(retention as int) {
                DeviceWrite::Touch
            } else {
                DeviceWrite::Nothing
            },
        ),
    };
    match device {
        Err(e) => Err(e),
        Ok(d) => if reuses_cursor(delta, empty, expires as int, now as int, retention as int) {
            Ok((d, CursorPlan::Reuse))
        } else if more_snapshot {
            Ok((d, CursorPlan::Store))
        } else if i64::MIN <= now + retention <= i64::MAX {
            Ok((d, CursorPlan::Sign((now + retention) as i64)))
        } else {
            Err(ErrorCode::InvalidValue)
        },
    }
}

/// Decides how a page ends (see `sync_finish_of`).
pub fn sync_finish(
    last_seen: Option<i64>,
    devices: i64,
    now: i64,
    retention: i64,
    delta: bool,
    empty: bool,
    more_snapshot: bool,
    expires: i64,
) -> (r: Result<(DeviceWrite, CursorPlan), ErrorCode>)
    requires
        0 <= retention,
    ensures
        r == sync_finish_of(last_seen, devices, now, retention, delta, empty, more_snapshot, expires),
{
    let device = match last_seen {
        None => match device_capacity(devices) {
            Ok(()) => DeviceWrite::Register,
            Err(e) => return Err(e),
        },
        Some(last) => if touch_due(last, now, retention) {
            DeviceWrite::Touch
        } else {
            DeviceWrite::Nothing
        },
    };
    if reuse_cursor(delta, empty, expires, now, retention) {
        Ok((device, CursorPlan::Reuse))
    } else if more_snapshot {
        Ok((device, CursorPlan::Store))
    } else {
        match signed_expiry(now, retention) {
            Ok(expiry) => Ok((device, CursorPlan::Sign(expiry))),
            Err(e) => Err(e),
        }
    }
}


/// A change carried by a delta batch, with the rank of its resource's kind
/// and the resource's identity.
pub enum BatchChange {
    Upsert(usize, String),
    Remove(usize, String),
}

/// A batch change as its rank and identity.
pub open spec fn change_entry(c: BatchChange) -> (usize, String) {
    match c {
        BatchChange::Upsert(r, id) => (r, id),
        BatchChange::Remove(r, id) => (r, id),
    }
}

/// Resources, given as kind and identity, with the rank of their kind;
/// with `known_only`, resources of a kind no change is sent for are left
/// out.
pub open spec fn ranked_changes(v: Seq<(String, String)>, known_only: bool) -> Seq<(usize, String)>
    decreases v.len(),
{
    if v.len() == 0 {
        Seq::empty()
    } else {
        let rest = ranked_changes(v.drop_last(), known_only);
        if known_only && !known_kind(v.last().0@) {
            rest
        } else {
            rest.push((kind_rank_of(v.last().0@) as usize, v.last().1))
        }
    }
}

fn ranked(v: &[(String, String)], known_only: bool) -> (out: Vec<(usize, String)>)
    ensures
        out@ == ranked_changes(v@, known_only),
{
    let mut out: Vec<(usize, String)> = Vec::new();
    let mut i: usize = 0;
    while i < v.len()
        invariant
            i <= v@.len(),
            out@ == ranked_changes(v@.take(i as int), known_only),
        decreases v.len() - i,
    {
        assert(v@.take(i + 1).drop_last() =~= v@.take(i as int));
        assert(v@.take(i + 1).last() == v@[i as int]);
        if !known_only || is_known_kind(v[i].0.as_str()) {
            out.push((kind_rank(v[i].0.as_str()), v[i].1.clone()));
        }
        i = i + 1;
    }
    assert(v@.take(i as int) =~= v@);
    out
}

/// The changes of one delta batch: the resources the reader can see
/// (`visible`, as kind and identity; kinds no change is sent for are left
/// out), then the removals (`removed`). Every upsert comes before every
/// removal; upserts go parents first, removals children first, each kind
/// by identity.
pub fn batch_changes(visible: &[(String, String)], removed: &[(String, String)]) -> (out: Vec<BatchChange>)
    ensures
        out@.len() == ranked_changes(visible@, true).len() + ranked_changes(removed@, false).len(),
        forall|i: int| 0 <= i < ranked_changes(visible@, true).len() ==> (#[trigger] out@[i]) is Upsert,
        forall|i: int| ranked_changes(visible@, true).len() <= i < out@.len() ==> (#[trigger] out@[i]) is Remove,
        out@.take(ranked_changes(visible@, true).len() as int).map_values(|c: BatchChange| change_entry(c)).to_multiset()
            == ranked_changes(visible@, true).to_multiset(),
        changes_ordered(
            out@.take(ranked_changes(visible@, true).len() as int).map_values(|c: BatchChange| change_entry(c)),
            false,
        ),
        out@.skip(ranked_changes(visible@, true).len() as int).map_values(|c: BatchChange| change_entry(c)).to_multiset()
            == ranked_changes(removed@, false).to_multiset(),
        changes_ordered(
            out@.skip(ranked_changes(visible@, true).len() as int).map_values(|c: BatchChange| change_entry(c)),
            true,
        ),
{
    let ups = order_changes(ranked(visible, true), false);
    let rms = order_changes(ranked(removed, false), true);
    proof {
        vstd::seq_lib::to_multiset_len(ups@);
        vstd::seq_lib::to_multiset_len(ranked_changes(visible@, true));
        vstd::seq_lib::to_multiset_len(rms@);
        vstd::seq_lib::to_multiset_len(ranked_changes(removed@, false));
    }
    let mut out: Vec<BatchChange> = Vec::new();
    let mut i: usize = 0;
    while i < ups.len()
        invariant
            i <= ups@.len(),
            out@.len() == i,
            forall|k: int| 0 <= k < i ==> #[trigger] out@[k] == BatchChange::Upsert(ups@[k].0, ups@[k].1),
        decreases ups.len() - i,
    {
        out.push(BatchChange::Upsert(ups[i].0, ups[i].1.clone()));
        i = i + 1;
    }
    let mut j: usize = 0;
    while j < rms.len()
        invariant
            j <= rms@.len(),
            out@.len() == ups@.len() + j,
            forall|k: int| 0 <= k < ups@.len() ==> #[trigger] out@[k] == BatchChange::Upsert(ups@[k].0, ups@[k].1),
            forall|k: int| 0 <= k < j ==> #[trigger] out@[ups@.len() + k] == BatchChange::Remove(rms@[k].0, rms@[k].1),
        decreases rms.len() - j,
    {
        out.push(BatchChange::Remove(rms[j].0, rms[j].1.clone()));
        proof {
            assert(out@[ups@.len() + j] == BatchChange::Remove(rms@[j as int].0, rms@[j as int].1));
        }
        j = j + 1;
    }
    let ghost u = ups@.len() as int;
    assert(out@.take(u).map_values(|c: BatchChange| change_entry(c)) =~= ups@);
    assert(out@.skip(u).map_values(|c: BatchChange| change_entry(c)) =~= rms@) by {
        assert forall|k: int| 0 <= k < rms@.len() implies out@.skip(u)[k] == BatchChange::Remove(rms@[k].0, rms@[k].1) by {
            assert(out@.skip(u)[k] == out@[u + k]);
        }
    }
    assert forall|i: int| u <= i < out@.len() implies (#[trigger] out@[i]) is Remove by {
        assert(out@[u + (i - u)] == BatchChange::Remove(rms@[i - u].0, rms@[i - u].1));
    }
    out
}


/// How far a delta page reaches over the batch revisions fetched after its
/// boundary (a fetch of `limit + 1`, in revision order): how many batches
/// it carries (at most `limit`), whether more follow, and the boundary the
/// next page starts from (the last carried revision, or the old boundary
/// when none was carried).
pub fn delta_reach(revisions: &[i64], limit: usize, boundary: i64) -> (r: (usize, bool, i64))
    requires
        revisions@.len() <= limit + 1,
    ensures
        r.1 == (revisions@.len() > limit),
        r.0 == (if revisions@.len() > limit { limit } else { revisions@.len() as usize }),
        r.0 <= limit,
        r.2 == (if r.0 == 0 { boundary } else { revisions@[r.0 - 1] }),
{
    let more = revisions.len() > limit;
    let taken = if more { limit } else { revisions.len() };
    let next = if taken == 0 { boundary } else { revisions[taken - 1] };
    (taken, more, next)
}

} // verus!
